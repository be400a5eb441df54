//! What holds across functions: packets come back whole and in order, streams
//! do not disturb each other, damage is noticed and nothing is spliced across
//! it, and seeks land on pages.
use crate::bytes;
use crate::codec_id;
use crate::comment;
use crate::demux;
use crate::demux::{Model, StateView};
use crate::error::Error;
use crate::granule;
use crate::media;
use crate::media::PacketView;
use crate::page;
use crate::page::PageView;
use crate::process;
use crate::reader;
use crate::reassembly;
use crate::register;
use crate::resume;
use crate::scan;
use crate::seek;
use crate::seek_index;
use crate::skeleton;
use crate::skeleton::IndexView;
use crate::theora::TheoraGranule;
use vstd::prelude::*;

verus! {

// ---------------------------------------------------------------------------
// Packets come back
// ---------------------------------------------------------------------------

/// A run of pages of one logical bitstream as an encoder writes it: only the
/// first may begin the stream, sequence numbers go up by one, and each page is
/// marked as continued exactly when those before it left a packet open.
pub open spec fn is_stream_run(pages: Seq<PageView>) -> bool {
    &&& reassembly::is_clean_run(pages)
    &&& forall|i: int|
        0 < i < pages.len() ==> !(#[trigger] pages[i]).is_first() && pages[i].seq_no == pages[i
            - 1].seq_no.wrapping_add(1)
}

/// The state of a stream after a run of its pages.
pub open spec fn state_run(st: StateView, pages: Seq<PageView>) -> StateView
    decreases pages.len(),
{
    if pages.len() == 0 {
        st
    } else {
        process::state_after(state_run(st, pages.drop_last()), pages.last())
    }
}

/// The data packets that a run of pages completes.
pub open spec fn data_run(st: StateView, pages: Seq<PageView>) -> Seq<Seq<u8>>
    decreases pages.len(),
{
    if pages.len() == 0 {
        Seq::empty()
    } else {
        data_run(st, pages.drop_last()) + process::data_of(
            state_run(st, pages.drop_last()),
            pages.last(),
        )
    }
}

/// A stream of which no page has come.
pub open spec fn is_untouched(st: StateView) -> bool {
    &&& st.partial.pending.len() == 0
    &&& !st.partial.valid
    &&& st.last_seq is None
    &&& st.rereading == 0
}

/// A packet left open by a page is not empty.
pub proof fn open_packets_have_bytes(lacing: Seq<u8>)
    requires
        reassembly::is_open(lacing),
    ensures
        reassembly::open_start(lacing) + 255 <= page::body_len(lacing),
{
    reassembly::open_start_bounds(lacing.drop_last());
}

/// A run without its last page is a run.
pub proof fn run_is_closed(pages: Seq<PageView>)
    requires
        is_stream_run(pages),
        pages.len() > 0,
    ensures
        is_stream_run(pages.drop_last()),
{
    let init = pages.drop_last();
    assert forall|i: int| 0 < i < init.len() implies !(#[trigger] init[i]).is_first()
        && init[i].seq_no == init[i - 1].seq_no.wrapping_add(1) by {
        assert(!pages[i].is_first() && pages[i].seq_no == pages[i - 1].seq_no.wrapping_add(1));
    }
    reassembly::clean_runs_are_closed(pages);
}

/// What a stream holds after a run: last sequence number, pending bytes, and
/// how the whole packets divide into headers and data.
#[verifier::spinoff_prover]
#[verifier::rlimit(40)]
pub proof fn run_state(st: StateView, pages: Seq<PageView>)
    requires
        is_untouched(st),
        is_stream_run(pages),
    ensures
        ({
            let after = state_run(st, pages);
            let whole = reassembly::joined(pages).0;
            let take = process::least(st.headers_remaining as int, whole.len() as int);
            &&& after.partial.pending == reassembly::joined(pages).1.pending
            &&& after.partial.valid == reassembly::joined(pages).1.valid
            &&& after.last_seq == (if pages.len() > 0 {
                Some(pages.last().seq_no)
            } else {
                None
            })
            &&& after.rereading == 0
            &&& after.headers_remaining == st.headers_remaining - take
            &&& after.header_packets == st.header_packets + whole.take(take)
            &&& data_run(st, pages) == whole.skip(take)
        }),
        pages.len() > 0 ==> process::page_fit(state_run(st, pages.drop_last()), pages.last())
            is Clean,
    decreases pages.len(),
{
    let whole = reassembly::joined(pages).0;
    let take = process::least(st.headers_remaining as int, whole.len() as int);
    if pages.len() == 0 {
        assert(st.header_packets + whole.take(take) =~= st.header_packets);
        assert(data_run(st, pages) =~= whole.skip(take));
    } else {
        let init = pages.drop_last();
        let page = pages.last();
        run_is_closed(pages);
        run_state(st, init);
        reassembly::page_boundaries_do_not_matter(init);
        let before = state_run(st, init);
        let done = reassembly::joined(init).0;
        let part = process::least(st.headers_remaining as int, done.len() as int);
        reassembly::clean_runs_are_closed(pages);
        if init.len() > 0 {
            let last = init.len() - 1;
            assert(!pages[last + 1].is_first() && pages[last + 1].seq_no
                == pages[last].seq_no.wrapping_add(1));
            if before.partial.valid {
                open_packets_have_bytes(reassembly::all_lacing(init));
                reassembly::open_start_bounds(reassembly::all_lacing(init));
                assert(before.partial.pending.len() > 0);
            }
        }
        assert(process::page_fit(before, page) is Clean);
        let more = process::page_join(before, page).0;
        assert(whole =~= done + more);
        let k = process::header_take(before, page);
        assert(take == part + k);
        assert(before.header_packets + more.take(k) =~= st.header_packets + whole.take(take));
        assert(done.skip(part) + more.skip(k) =~= whole.skip(take)) by {
            if part < done.len() {
                assert(k == 0);
            }
        }
    }
}

/// The demuxer after a run of pages of the stream at `k`.
pub open spec fn content_run(m: Model, pages: Seq<PageView>, k: int) -> Model
    decreases pages.len(),
{
    if pages.len() == 0 {
        m
    } else {
        process::content_page(content_run(m, pages.drop_last(), k), pages.last(), k)
    }
}

/// The payloads of packets.
pub open spec fn payloads(packets: Seq<PacketView>) -> Seq<Seq<u8>> {
    Seq::new(packets.len(), |i: int| packets[i].data)
}

proof fn run_on_the_demuxer(m: Model, pages: Seq<PageView>, k: int)
    requires
        m.wf(),
        0 <= k < m.states.len(),
        is_untouched(m.states[k]),
        is_stream_run(pages),
    ensures
        content_run(m, pages, k).wf(),
        content_run(m, pages, k).states.len() == m.states.len(),
        content_run(m, pages, k).states[k] == state_run(m.states[k], pages),
        content_run(m, pages, k).ledger == m.ledger,
        payloads(content_run(m, pages, k).out_queue) == payloads(m.out_queue) + data_run(
            m.states[k],
            pages,
        ),
    decreases pages.len(),
{
    if pages.len() == 0 {
        assert(payloads(m.out_queue) + data_run(m.states[k], pages) =~= payloads(m.out_queue));
    } else {
        let init = pages.drop_last();
        run_is_closed(pages);
        run_on_the_demuxer(m, init, k);
        run_state(m.states[k], pages);
        let before = content_run(m, init, k);
        process::content_keeps_wf(before, pages.last(), k);
        let after = content_run(m, pages, k);
        let more = process::data_of(before.states[k], pages.last());
        assert(payloads(after.out_queue) =~= payloads(before.out_queue) + more);
        assert(payloads(after.out_queue) =~= payloads(m.out_queue) + (data_run(
            m.states[k],
            init,
        ) + more));
    }
}

/// Packets come back: the pages of a logical bitstream, laid out in whatever
/// way an encoder chose, yield exactly its packets. The first are kept as
/// headers and all others are delivered, in order and byte for byte, and no
/// damage is noted.
pub proof fn packets_come_back(m: Model, pages: Seq<PageView>, k: int)
    requires
        m.wf(),
        0 <= k < m.states.len(),
        is_untouched(m.states[k]),
        m.states[k].header_packets.len() == 0,
        is_stream_run(pages),
    ensures
        ({
            let packets = reassembly::ended(
                reassembly::all_lacing(pages),
                reassembly::all_data(pages),
            );
            let after = content_run(m, pages, k);
            let take = process::least(
                m.states[k].headers_remaining as int,
                packets.len() as int,
            );
            &&& after.states[k].header_packets == packets.take(take)
            &&& payloads(after.out_queue) == payloads(m.out_queue) + packets.skip(take)
            &&& after.states[k].partial.pending == reassembly::open_bytes(
                reassembly::all_lacing(pages),
                reassembly::all_data(pages),
            )
            &&& after.ledger == m.ledger
        }),
{
    run_on_the_demuxer(m, pages, k);
    run_state(m.states[k], pages);
    reassembly::page_boundaries_do_not_matter(pages);
    let packets = reassembly::ended(reassembly::all_lacing(pages), reassembly::all_data(pages));
    let take = process::least(m.states[k].headers_remaining as int, packets.len() as int);
    assert(m.states[k].header_packets + packets.take(take) =~= packets.take(take));
}

/// A new stream is one of which no page has come.
pub proof fn new_streams_are_untouched(m: Model, page: PageView)
    requires
        m.wf(),
        register::registered(m, page).0.states.len() > m.states.len(),
    ensures
        is_untouched(register::registered(m, page).0.states.last()),
        register::registered(m, page).0.states.last().header_packets.len() == 0,
{
}

// ---------------------------------------------------------------------------
// Streams do not disturb each other
// ---------------------------------------------------------------------------

/// A page of one stream leaves every other stream as it is, and adds only
/// packets of its own stream behind those that wait.
pub proof fn streams_do_not_disturb_each_other(m: Model, page: PageView, i: int)
    requires
        m.wf(),
        0 <= i < m.states.len(),
        m.states[i].serial != page.serial,
    ensures
        process::processed(m, page).0.states[i] == m.states[i],
        process::processed(m, page).0.streams[i] == m.streams[i],
        m.out_queue.is_prefix_of(process::processed(m, page).0.out_queue),
        forall|j: int|
            m.out_queue.len() <= j < process::processed(m, page).0.out_queue.len() ==> (
            #[trigger] process::processed(m, page).0.out_queue[j]).stream_index != i,
{
    let after = process::routed(m, page).0;
    process::routing_keeps_wf(m, page);
    let linked = process::next_link(m, page.offset);
    demux::slot_holds(m.states, page.serial);
    demux::slot_holds(linked.states, page.serial);
    let reg = register::registered(linked, page).0;
    demux::slot_holds(reg.states, page.serial);
    demux::slot_holds(register::registered(m, page).0.states, page.serial);
    if m.knows(page.serial) {
        let k = demux::slot(m.states, page.serial)->0;
        let re = register::restarted(linked, page, k, linked.link);
        demux::slot_holds(re.states, page.serial);
        assert(re.states[k].serial == page.serial);
    }
    assert(after.states[i] == m.states[i]);
    assert(after.streams[i] == m.streams[i]);
    assert(after.out_queue == m.out_queue);
    demux::slot_holds(after.states, page.serial);
    if let Some(k) = demux::slot(after.states, page.serial) {
        assert(k != i);
        assert(after.streams[k].index == k);
    }
}

// ---------------------------------------------------------------------------
// Damage
// ---------------------------------------------------------------------------

/// Whether pages stand end to end from `p` to the end of the input.
pub open spec fn is_chain(s: Seq<u8>, p: int) -> bool
    decreases s.len() - p,
    via is_chain_ends
{
    p == s.len() || (0 <= p < s.len() && page::is_page(s, p) && is_chain(s, page::page_end(s, p)))
}

#[via_fn]
proof fn is_chain_ends(s: Seq<u8>, p: int) {
    if 0 <= p && page::is_page(s, p) {
        page::body_len_nonneg(page::lacing_at(s, p));
    }
}

/// Reading an input of pages end to end gives them one after the other, up to
/// its end, and notes no damage.
pub proof fn undamaged_input_reads_page_by_page(m: Model)
    requires
        m.input.len() <= usize::MAX,
        is_chain(m.input, m.pos as int),
    ensures
        reader::after_read(m).0.ledger == m.ledger,
        m.pos < m.input.len() ==> {
            &&& reader::after_read(m).1 == Some(page::page_at(m.input, m.pos as int))
            &&& reader::after_read(m).0.pos == page::page_end(m.input, m.pos as int)
            &&& is_chain(m.input, reader::after_read(m).0.pos as int)
        },
        m.pos == m.input.len() ==> reader::after_read(m) == (m, None::<PageView>),
{
    let p = m.pos as int;
    if p < m.input.len() {
        page::body_len_nonneg(page::lacing_at(m.input, p));
    }
}

/// The packets that begin and end on a page.
pub open spec fn begun_on(page: PageView) -> Seq<Seq<u8>> {
    let own = reassembly::ended(page.lacing, page.data);
    if page.is_continued() && own.len() > 0 {
        own.skip(1)
    } else {
        own
    }
}

/// A missing page is noticed, and nothing is spliced across the gap: what was
/// pending is dropped, and so is what continues it.
pub proof fn nothing_is_spliced_across_a_gap(st: StateView, page: PageView)
    requires
        page.wf(),
        reassembly::leaves_gap(st.last_seq, page),
    ensures
        process::page_fit(st, page) is Hole,
        process::page_join(st, page).0 == begun_on(page),
{
    assert(process::page_join(st, page).0 =~= begun_on(page));
}

/// A continuation whose beginning is missing is dropped, and so is a
/// beginning that is not continued; either is noticed.
pub proof fn broken_continuations_are_dropped(st: StateView, page: PageView)
    requires
        page.wf(),
        !page.is_first(),
        !reassembly::leaves_gap(st.last_seq, page),
        !st.partial.unknown,
        st.partial.valid == (st.partial.pending.len() > 0),
        page.is_continued() != st.partial.valid,
    ensures
        process::page_fit(st, page) is Framing,
        process::page_join(st, page).0 == begun_on(page),
{
    assert(process::page_join(st, page).0 =~= begun_on(page));
}

/// After a jump, a continuation whose beginning was not read is dropped, and
/// that is no damage.
pub proof fn orphans_after_a_jump_are_dropped(st: StateView, page: PageView)
    requires
        page.wf(),
    ensures
        process::page_fit(seek::emptied(st), page) is Clean,
        process::page_join(seek::emptied(st), page).0 == begun_on(page),
{
    assert(process::page_join(seek::emptied(st), page).0 =~= begun_on(page));
}

/// A second bitstream with a serial number in use starts with nothing of the
/// first: the packets of its first page are those of that page alone.
pub proof fn a_second_bitstream_is_not_spliced(m: Model, page: PageView, k: int)
    requires
        m.wf(),
        page.wf(),
        page.is_first(),
        !page.is_continued(),
        demux::slot(m.states, page.serial) == Some(k),
        m.states[k].bos_at != page.offset,
        m.skeleton_serial() != Some(page.serial),
    ensures
        ({
            let after = process::routed(m, page).0;
            &&& is_untouched(after.states[k])
            &&& after.states[k].header_packets.len() == 0
            &&& after.streams == m.streams
            &&& process::page_fit(after.states[k], page) is Clean
            &&& process::page_join(after.states[k], page).0 == reassembly::ended(
                page.lacing,
                page.data,
            )
            &&& !m.index_built ==> after.ledger == m.ledger.with_duplicate(
                page.serial,
                page.seq_no,
            )
        }),
{
    demux::slot_holds(m.states, page.serial);
    let linked = process::next_link(m, page.offset);
    let re = register::restarted(linked, page, k, linked.link);
    demux::slots_stay(linked.states, k, re.states[k], page.serial);
    reassembly::nonempty_table_has_a_first_packet(page.lacing, page.data);
    if page.lacing.len() == 0 {
        assert(reassembly::ended(page.lacing, page.data) =~= Seq::<Seq<u8>>::empty());
    }
}

/// A second bitstream with a serial number in use belongs to the link that its
/// first page stands in, whatever has been counted behind it.
pub proof fn a_second_bitstream_is_in_its_link(m: Model, page: PageView, k: int)
    requires
        m.wf(),
        page.is_first(),
        m.skeleton_serial() != Some(page.serial),
        demux::is_slot(m.states, page.serial, k),
        m.states[k].bos_at != page.offset,
    ensures
        process::routed(m, page).0.states[k].link_index == process::link_at(
            process::next_link(m, page.offset),
            page.offset,
        ),
        !process::is_behind(m.last_bos, page.offset) ==> process::routed(
            m,
            page,
        ).0.states[k].link_index == process::link_at(m, page.offset),
{
    demux::slot_is(m.states, page.serial, k);
    let linked = process::next_link(m, page.offset);
    let link = process::link_at(linked, page.offset);
    let after = register::restarted(linked, page, k, link);
    assert forall|a: int, b: int| 0 <= a < b < after.states.len() implies (
    #[trigger] after.states[a]).serial != (#[trigger] after.states[b]).serial by {
        assert(m.states[a].serial != m.states[b].serial);
    }
    demux::slot_is(after.states, page.serial, k);
}

/// A page of the Skeleton that is read again adds nothing, wherever it is read
/// again from; read once, it adds what each of its packets says.
pub proof fn a_skeleton_page_read_again_adds_nothing(m: Model, again: Model, page: PageView)
    requires
        page.wf(),
        process::taken_at(m.skel.taken, page.offset) == 0,
        again.skel.taken == process::skeleton_page(m, page).skel.taken,
        process::skeleton_join(again.skel, page).0.len() <= process::skeleton_join(
            m.skel,
            page,
        ).0.len(),
    ensures
        process::skeleton_page(again, page).skel.skeleton == again.skel.skeleton,
        process::skeleton_page(again, page).skel.taken == again.skel.taken,
        m.skel.skeleton matches Some(sk) ==> process::skeleton_page(m, page).skel.skeleton == Some(
            skeleton::with_packets(sk, process::skeleton_join(m.skel, page).0),
        ),
{
    let packets = process::skeleton_join(m.skel, page).0;
    reassembly::nonempty_table_has_a_first_packet(page.lacing, page.data);
    assert(packets.take(packets.len() as int) =~= packets);
    assert(packets.len() as usize == packets.len());
}

/// The number of links never goes down, and at most one is begun by a page.
pub proof fn links_are_begun_one_at_a_time(m: Model, page: PageView)
    requires
        m.wf(),
    ensures
        m.link <= process::processed(m, page).0.link <= m.link + 1,
        process::processed(m, page).0.link > m.link ==> page.is_first() && process::is_apart(
            m,
            page.offset,
        ) && process::is_behind(m.last_bos, page.offset),
{
}

/// Reading the first page of a stream again is no damage and begins no link:
/// its headers come again and are dropped, and nothing else is changed.
pub proof fn a_first_page_read_again_is_no_damage(m: Model, page: PageView, k: int)
    requires
        m.wf(),
        page.is_first(),
        demux::slot(m.states, page.serial) == Some(k),
        m.states[k].bos_at == page.offset,
        m.states[k].bos_processed,
        m.states[k].headers_remaining == 0,
        m.skeleton_serial() != Some(page.serial),
    ensures
        ({
            let (after, fault) = process::processed(m, page);
            &&& fault is None
            &&& after.ledger == m.ledger
            &&& after.link == m.link
            &&& after.tags == m.tags
            &&& after.streams == m.streams
            &&& after.states[k].header_packets == m.states[k].header_packets
            &&& m.states[k].header_count > 0 && reassembly::ended(page.lacing, page.data).len()
                <= m.states[k].header_count ==> after.out_queue == m.out_queue
        }),
{
    demux::slot_holds(m.states, page.serial);
    let before = process::rewound_at(m, k);
    demux::slots_stay(m.states, k, before.states[k], page.serial);
    let st = before.states[k];
    let packets = process::page_join(st, page).0;
    assert(packets.len() <= reassembly::ended(page.lacing, page.data).len());
    let after = process::processed(m, page).0;
    assert(after.states[k].header_packets =~= m.states[k].header_packets);
    if m.states[k].header_count > 0 && packets.len() <= m.states[k].header_count {
        assert(process::new_packets(st, page).len() == 0);
        assert(after.out_queue =~= m.out_queue);
    }
}

/// The tags of a stream are added at most once, however often its headers
/// come or it is asked for them.
pub proof fn tags_are_added_once(m: Model, page: PageView, k: int)
    requires
        0 <= k < m.states.len(),
        m.states[k].tagged,
    ensures
        process::content_page(m, page, k).tags == m.tags,
        process::content_page(m, page, k).states[k].tagged,
        process::with_tags(m, k) == m,
{
}

/// Tags that were added are marked as such.
pub proof fn added_tags_are_marked(m: Model, page: PageView, k: int)
    requires
        0 <= k < m.states.len(),
    ensures
        process::content_page(m, page, k).tags != m.tags ==> process::content_page(
            m,
            page,
            k,
        ).states[k].tagged,
        process::with_tags(m, k).tags != m.tags ==> process::with_tags(m, k).states[k].tagged,
{
    if process::tags_due(m, k).len() == 0 {
        assert(m.tags + process::tags_due(m, k) =~= m.tags);
    }
}

// ---------------------------------------------------------------------------
// Timestamps
// ---------------------------------------------------------------------------

/// Where a page's granule names a frame, its packets hold consecutive frames
/// that end with it, and the keyframe that it counts from is the only one
/// flagged.
pub proof fn frames_on_a_page_are_consecutive(
    gran: TheoraGranule,
    shift: u32,
    next_frame: Option<i64>,
    granule: i64,
    n: int,
    j: int,
)
    requires
        0 <= j < n <= 255,
        gran.index_spec(granule as int) is Some,
    ensures
        ({
            let last = gran.index_spec(granule as int)->0;
            let (pts, keyframe) = process::stamp(Some(gran), shift, next_frame, granule, n, j);
            &&& pts == Some((last - (n - 1 - j)) as i64)
            &&& keyframe <==> gran.keyframe_spec(granule as int) == pts
        }),
        process::frame_after(Some(gran), next_frame, granule, n) == Some(
            (gran.index_spec(granule as int)->0).wrapping_add(1),
        ),
{
    granule::frame_no_bound(granule as int, gran.shift as nat);
}

/// Without a frame layout only the last packet of a page has a timestamp, the
/// page's granule, and with a shift of 0 every packet is a keyframe.
pub proof fn granules_stamp_the_last_packet(
    shift: u32,
    next_frame: Option<i64>,
    granule: i64,
    n: int,
    j: int,
)
    requires
        0 <= j < n,
    ensures
        process::stamp(None, shift, next_frame, granule, n, j).0 == (if j == n - 1 && granule >= 0 {
            Some(granule)
        } else {
            None
        }),
        process::stamp(None, 0, next_frame, granule, n, j).1,
{
}

// ---------------------------------------------------------------------------
// Seeking
// ---------------------------------------------------------------------------

/// A seek that does not go by the keyframe index lands on a page header of the
/// stream and returns its granule, with nothing pending or queued.
pub proof fn seeks_land_on_pages(m: Model, index: u32, pts: i64)
    requires
        m.wf(),
        index < m.streams.len(),
        seek::seeked(m, index, pts).1 is Ok,
        seek::index_attempt(m, index as int, pts).1 is None,
    ensures
        ({
            let (after, r) = seek::seeked(m, index, pts);
            &&& demux::entry_holds(
                m.input,
                (m.states[index as int].serial, r->Ok_0, after.pos),
            )
            &&& after.page_queue.len() == 0
            &&& after.out_queue.len() == 0
            &&& forall|i: int|
                0 <= i < after.states.len() ==> (#[trigger] after.states[i]).partial.pending.len()
                    == 0
        }),
{
    let i = index as int;
    let key = seek::seek_key(m, i, pts)->Ok_0;
    let tried = seek::index_attempt(m, i, pts).0;
    let serial = m.states[i].serial;
    assert(tried.states == m.states && tried.index == m.index && tried.input == m.input);
    floor_is_known(m.index, serial, key, m.input);
    let q = seek::Quest { serial, key };
    let known = match seek_index::floor(m.index, serial, key) {
        Some((g, off)) => Some(off as int),
        None => None,
    };
    if let Some((g, off)) = seek_index::floor(m.index, serial, key) {
        assert(demux::entry_holds(m.input, (serial, g, off)));
        if !m.index_built {
            let fl = seek::flushed(tried, off);
            assert(fl.states[i].serial == serial);
        }
    }
    seek::search_lands_on_a_page(m.input, q, m.index, known);
}

/// What the index says is the last page is known and there.
pub proof fn floor_is_known(
    ix: Set<seek_index::Entry>,
    serial: u32,
    key: granule::SeekKey,
    input: Seq<u8>,
)
    requires
        forall|e: seek_index::Entry| #[trigger] ix.contains(e) ==> demux::entry_holds(input, e),
        input.len() <= usize::MAX,
    ensures
        seek_index::is_floor(ix, serial, key, seek_index::floor(ix, serial, key)),
        seek_index::floor(ix, serial, key) matches Some(e) ==> ix.contains((serial, e.0, e.1)),
{
    let r = floor_below(ix, serial, key, input, input.len() as int);
    assert forall|o: (i64, u64)| #[trigger]
        seek_index::reaches(ix, serial, key, o) implies o.1 < input.len() by {
        assert(demux::entry_holds(input, (serial, o.0, o.1)));
    }
    assert(seek_index::is_floor(ix, serial, key, r));
}

/// Whether `r` is the last page that reaches among those before `n`.
spec fn is_floor_below(
    ix: Set<seek_index::Entry>,
    serial: u32,
    key: granule::SeekKey,
    n: int,
    r: Option<(i64, u64)>,
) -> bool {
    match r {
        Some(e) => seek_index::reaches(ix, serial, key, e) && forall|o: (i64, u64)| #[trigger]
            seek_index::reaches(ix, serial, key, o) && o.1 < n ==> !seek_index::earlier(e, o),
        None => forall|o: (i64, u64)| #[trigger]
            seek_index::reaches(ix, serial, key, o) ==> o.1 >= n,
    }
}

proof fn floor_below(
    ix: Set<seek_index::Entry>,
    serial: u32,
    key: granule::SeekKey,
    input: Seq<u8>,
    n: int,
) -> (r: Option<(i64, u64)>)
    requires
        forall|e: seek_index::Entry| #[trigger] ix.contains(e) ==> demux::entry_holds(input, e),
        0 <= n <= input.len() <= usize::MAX,
    ensures
        is_floor_below(ix, serial, key, n, r),
    decreases n,
{
    if n == 0 {
        None
    } else {
        let r = floor_below(ix, serial, key, input, n - 1);
        let here = (page::granule_at(input, n - 1), (n - 1) as u64);
        assert forall|o: (i64, u64)| #[trigger]
            seek_index::reaches(ix, serial, key, o) && o.1 == n - 1 implies o == here by {
            assert(demux::entry_holds(input, (serial, o.0, o.1)));
        }
        let best = if seek_index::reaches(ix, serial, key, here) {
            match r {
                Some(e) => if seek_index::earlier(here, e) {
                    r
                } else {
                    Some(here)
                },
                None => Some(here),
            }
        } else {
            r
        };
        if let Some(e) = best {
            assert forall|o: (i64, u64)| #[trigger]
                seek_index::reaches(ix, serial, key, o) && o.1 < n implies !seek_index::earlier(
                e,
                o,
            ) by {
                if o.1 == n - 1 {
                    assert(o == here);
                } else {
                    assert(o.1 < n - 1);
                }
            }
        }
        best
    }
}

/// Once the whole input is indexed, a seek goes to the last known page at or
/// before the target, without a search.
pub proof fn indexed_seeks_find_the_last_page(m: Model, index: u32, pts: i64, other: (i64, u64))
    requires
        m.wf(),
        index < m.streams.len(),
        m.index_built,
        m.input.len() > 0,
        seek::seek_key(m, index as int, pts) is Ok,
        seek::index_attempt(m, index as int, pts).1 is None,
        seek_index::reaches(
            m.index,
            m.states[index as int].serial,
            seek::seek_key(m, index as int, pts)->Ok_0,
            other,
        ),
    ensures
        ({
            let (after, r) = seek::seeked(m, index, pts);
            let serial = m.states[index as int].serial;
            let key = seek::seek_key(m, index as int, pts)->Ok_0;
            &&& r is Ok
            &&& seek_index::reaches(m.index, serial, key, (r->Ok_0, after.pos))
            &&& !seek_index::earlier((r->Ok_0, after.pos), other)
        }),
{
    let serial = m.states[index as int].serial;
    let key = seek::seek_key(m, index as int, pts)->Ok_0;
    floor_is_known(m.index, serial, key, m.input);
}

/// Whether `p` is where one of the pages that stand end to end from `from` on
/// begins.
pub open spec fn page_begins(s: Seq<u8>, from: int, p: int) -> bool
    decreases s.len() - from,
    via page_begins_ends
{
    0 <= from < s.len() && page::is_page(s, from) && (p == from || page_begins(
        s,
        page::page_end(s, from),
        p,
    ))
}

#[via_fn]
proof fn page_begins_ends(s: Seq<u8>, from: int, p: int) {
    if 0 <= from && page::is_page(s, from) {
        page::body_len_nonneg(page::lacing_at(s, from));
    }
}

pub proof fn walk_meets_every_page(s: Seq<u8>, from: int, p: int)
    requires
        s.len() <= usize::MAX,
        page_begins(s, from, p),
        page::granule_at(s, p) >= 0,
    ensures
        scan::met_entries(s, from).contains(
            (page::serial_at(s, p), page::granule_at(s, p), p as u64),
        ),
    decreases s.len() - from,
{
    page::body_len_nonneg(page::lacing_at(s, from));
    assert(reader::next_capture(s, from, s.len() as int) == Some(from));
    if p != from {
        walk_meets_every_page(s, page::page_end(s, from), p);
    }
}

/// Seeks in an undamaged input that has been indexed are exact: the page
/// reached is at or before the target, and no page of the stream at or before
/// the target is later.
pub proof fn indexed_seeks_are_exact(m: Model, index: u32, pts: i64, p: int)
    requires
        m.wf(),
        page_begins(m.input, 0, p),
        index < scan::indexed(m).0.streams.len(),
        seek::seek_key(scan::indexed(m).0, index as int, pts) is Ok,
        seek::index_attempt(scan::indexed(m).0, index as int, pts).1 is None,
        page::serial_at(m.input, p) == scan::indexed(m).0.states[index as int].serial,
        page::granule_at(m.input, p) >= 0,
        seek::key_at(
            m.input,
            seek::seek_key(scan::indexed(m).0, index as int, pts)->Ok_0,
            p,
        ) <= seek::seek_key(scan::indexed(m).0, index as int, pts)->Ok_0.target_key,
    ensures
        ({
            let key = seek::seek_key(scan::indexed(m).0, index as int, pts)->Ok_0;
            let (after, r) = seek::seeked(scan::indexed(m).0, index, pts);
            &&& r == Ok::<i64, Error>(page::granule_at(m.input, after.pos as int))
            &&& page::serial_at(m.input, after.pos as int) == page::serial_at(m.input, p)
            &&& seek::key_at(m.input, key, after.pos as int) <= key.target_key
            &&& !seek_index::earlier(
                (page::granule_at(m.input, after.pos as int), after.pos),
                (page::granule_at(m.input, p), p as u64),
            )
        }),
{
    let start = Model { ledger: m.ledger.with_duplicate_count(0), ..m };
    assert(start.wf());
    scan::walk_indexes_what_it_meets(start, 0, Set::empty());
    walk_meets_every_page(m.input, 0, p);
    let done = scan::indexed(m).0;
    let walked = scan::walked(start, 0, Set::empty()).0;
    assert(done.skeleton_serial() == walked.skeleton_serial());
    assert(done.wf());
    let serial = done.states[index as int].serial;
    let key = seek::seek_key(done, index as int, pts)->Ok_0;
    indexed_seeks_find_the_last_page(
        done,
        index,
        pts,
        (page::granule_at(m.input, p), p as u64),
    );
    let (after, r) = seek::seeked(done, index, pts);
    assert(demux::entry_holds(m.input, (serial, r->Ok_0, after.pos)));
}

/// A seek never lands before a page that is already known to be at or before
/// the target.
pub proof fn seeks_never_fall_behind_known_pages(m: Model, index: u32, pts: i64)
    requires
        m.wf(),
        index < m.streams.len(),
        seek::seeked(m, index, pts).1 is Ok,
        seek::index_attempt(m, index as int, pts).1 is None,
        seek_index::floor(
            m.index,
            m.states[index as int].serial,
            seek::seek_key(m, index as int, pts)->Ok_0,
        ) is Some,
    ensures
        ({
            let key = seek::seek_key(m, index as int, pts)->Ok_0;
            let known = seek_index::floor(m.index, m.states[index as int].serial, key)->0;
            let reached = seek::seeked(m, index, pts).1->Ok_0;
            granule::key_of(key.flavor, known.0 as int) <= granule::key_of(
                key.flavor,
                reached as int,
            )
        }),
{
    let i = index as int;
    let key = seek::seek_key(m, i, pts)->Ok_0;
    let tried = seek::index_attempt(m, i, pts).0;
    let serial = m.states[i].serial;
    assert(tried.states == m.states && tried.index == m.index && tried.input == m.input);
    floor_is_known(m.index, serial, key, m.input);
    let (g, off) = seek_index::floor(m.index, serial, key)->0;
    assert(demux::entry_holds(m.input, (serial, g, off)));
    let q = seek::Quest { serial, key };
    seek::search_lands_on_a_page(m.input, q, m.index, Some(off as int));
    let fl = seek::flushed(tried, off);
    assert(fl.states[i].serial == serial);
}

/// Without a shift, seeking to a keyframe is seeking.
pub proof fn keyframe_seek_without_a_shift_is_a_seek(m: Model, index: u32, pts: i64)
    requires
        index < m.streams.len(),
        process::granule_shift(
            m,
            m.states[index as int].serial,
            m.states[index as int].theora,
        ) == 0,
    ensures
        resume::keyframed(m, index, pts) == seek::seeked(m, index, pts),
{
}

/// Without a Skeleton a seek goes by the index of pages once all are known, and
/// moves the demuxer to the page found.
pub proof fn indexed_seek_is_a_jump(m: Model, index: u32, pts: i64)
    requires
        m.wf(),
        index < m.streams.len(),
        m.index_built,
        m.input.len() > 0,
        m.skel.skeleton is None,
        seek::seek_key(m, index as int, pts) is Ok,
        seek_index::floor(
            m.index,
            m.states[index as int].serial,
            seek::seek_key(m, index as int, pts)->Ok_0,
        ) is Some,
    ensures
        ({
            let serial = m.states[index as int].serial;
            let key = seek::seek_key(m, index as int, pts)->Ok_0;
            let (g, off) = seek_index::floor(m.index, serial, key)->0;
            let (after, r) = seek::seeked(m, index, pts);
            &&& r == Ok::<i64, Error>(g)
            &&& after.pos == off
            &&& after.wf()
            &&& after.index == m.index
            &&& after.index_built
            &&& after.input == m.input
            &&& after.skel.skeleton is None
            &&& after.streams == m.streams
            &&& after.states.len() == m.states.len()
            &&& after.states[index as int] == seek::emptied(m.states[index as int])
        }),
{
    let tried = seek::index_attempt(m, index as int, pts).0;
    assert(tried.skeleton_serial() == m.skeleton_serial());
    assert(tried.wf());
    let key = seek::seek_key(m, index as int, pts)->Ok_0;
    let (g, off) = seek_index::floor(m.index, m.states[index as int].serial, key)->0;
    seek::flushing_keeps_wf(tried, off);
}

/// Seeking to a keyframe on an indexed Theora stream leads to the page of the
/// keyframe that the target counts from: where a seek lands on a keyframe
/// nothing is moved, and otherwise the page reached has the keyframe's own
/// granule, whose offset half is 0, and stands before the page that the seek
/// lands on.
pub proof fn keyframe_seeks_reach_the_keyframe(m: Model, index: u32, pts: i64, off: u64)
    requires
        m.wf(),
        index < m.streams.len(),
        m.index_built,
        m.skel.skeleton is None,
        codec_id::mapping_of(m.streams[index as int].params.codec_id) is Theora,
        m.states[index as int].theora is Some,
        0 < (m.states[index as int].theora->0).shift < 63,
        0 < m.streams[index as int].time_base.num <= u32::MAX,
        0 < m.streams[index as int].time_base.den <= u32::MAX,
        seek_index::floor(
            m.index,
            m.states[index as int].serial,
            seek::seek_key(m, index as int, pts)->Ok_0,
        ) is Some,
        ({
            let st = m.states[index as int];
            let gran = st.theora->0;
            let g0 = seek::seeked(m, index, pts).1->Ok_0;
            &&& granule::keyframe_half(g0 as int, gran.shift as nat) >= gran.origin()
            &&& m.index.contains(
                (
                    st.serial,
                    granule::keyframe_granule(g0 as int, gran.shift as nat) as i64,
                    off,
                ),
            )
            &&& forall|a: seek_index::Entry, b: seek_index::Entry| #[trigger]
                m.index.contains(a) && #[trigger] m.index.contains(b) && a.0 == st.serial && b.0
                    == st.serial && a.1 < b.1 ==> a.2 < b.2
        }),
    ensures
        ({
            let st = m.states[index as int];
            let shift = (st.theora->0).shift as nat;
            let (first, r0) = seek::seeked(m, index, pts);
            let (after, r) = resume::keyframed(m, index, pts);
            &&& r0 is Ok
            &&& r is Ok
            &&& m.index.contains((st.serial, r0->Ok_0, first.pos))
            &&& granule::offset_half(r0->Ok_0 as int, shift) == 0 ==> (after, r) == (first, r0)
            &&& granule::offset_half(r0->Ok_0 as int, shift) != 0 ==> {
                &&& r->Ok_0 == granule::keyframe_granule(r0->Ok_0 as int, shift)
                &&& granule::offset_half(r->Ok_0 as int, shift) == 0
                &&& m.index.contains((st.serial, r->Ok_0, after.pos))
                &&& demux::entry_holds(m.input, (st.serial, r->Ok_0, after.pos))
                &&& after.pos < first.pos
            }
        }),
{
    let i = index as int;
    let st = m.states[i];
    let gran = st.theora->0;
    let shift = gran.shift as nat;
    let tick = m.streams[i].time_base;
    let key = seek::seek_key(m, i, pts)->Ok_0;
    floor_is_known(m.index, st.serial, key, m.input);
    let (g0, l) = seek_index::floor(m.index, st.serial, key)->0;
    assert(m.index.contains((st.serial, g0, l)));
    assert(demux::entry_holds(m.input, (st.serial, g0, l)));
    indexed_seek_is_a_jump(m, index, pts);
    let first = seek::seeked(m, index, pts).0;
    if granule::offset_half(g0 as int, shift) != 0 {
        granule::keyframes_name_themselves(g0 as int, shift);
        let kg = granule::keyframe_granule(g0 as int, shift) as i64;
        let t = (granule::keyframe_half(g0 as int, shift) - gran.origin()) as i64;
        granule::frame_no_bound(kg as int, shift);
        assert(gran.keyframe_spec(g0 as int) == Some(t));
        media::rescaling_to_the_same_base(t, tick);
        let second = seek::seek_key(first, i, t)->Ok_0;
        assert(seek::seek_key(first, i, t) is Ok);
        assert(second.target_key == t);
        assert(granule::key_of(second.flavor, kg as int) == t);
        assert(seek_index::reaches(first.index, st.serial, second, (kg, off)));
        floor_is_known(first.index, st.serial, second, first.input);
        let (g, o) = seek_index::floor(first.index, st.serial, second)->0;
        assert(seek_index::reaches(first.index, st.serial, second, (g, o)));
        assert(demux::entry_holds(m.input, (st.serial, g, o)));
        if kg < g {
            granule::frames_follow_their_keyframe(kg as int, g as int, shift);
        }
        assert(g == kg);
        indexed_seek_is_a_jump(first, index, t);
        assert(resume::keyframed(m, index, pts) == seek::seeked(first, index, t));
        assert(m.index.contains((st.serial, g, o)) && m.index.contains((st.serial, g0, l)));
    }
}

/// Without a preroll, seeking with preroll is seeking.
pub proof fn preroll_seek_without_preroll_is_a_seek(m: Model, index: u32, pts: i64)
    requires
        index < m.streams.len(),
        resume::preroll_of(m, m.states[index as int].serial) == 0,
    ensures
        resume::prerolled(m, index, pts) == seek::seeked(m, index, pts),
{
}

/// On a Theora stream with a parsed identification header, timestamps are
/// frame numbers: the target of a seek is `pts` itself.
pub proof fn frame_numbers_are_seek_targets(
    id: Seq<char>,
    first: Seq<u8>,
    pts: i64,
)
    requires
        register::new_state(0, 0, 0, id, first).theora is Some,
    ensures
        ({
            let st = register::new_state(0, 0, 0, id, first);
            let key = seek::key_from_id(st, pts, register::new_tick(id, first));
            key is Some && key->0.target_key == pts
        }),
{
    register::theora_streams_tick_by_frames(id, first);
    media::rescaling_to_the_same_base(pts, register::new_tick(id, first));
}

/// The seek point chosen among all keyframe indexes stands no later in the
/// file than that of any stream, so that no stream misses its keyframe.
pub proof fn earliest_point_is_before_all_others(
    indexes: Seq<IndexView>,
    n: int,
    serial: u32,
    pts: i64,
    tick: media::TimeBase,
    start: (u64, u32),
    i: int,
)
    requires
        0 <= i < n <= indexes.len(),
        indexes[i].serial != serial,
        seek::index_floor(indexes[i], media::rescaled(pts, tick, seek::index_tick(indexes[i])))
            is Some,
    ensures
        seek::earliest_point(indexes, n, serial, pts, tick, start).0 <= start.0,
        seek::earliest_point(indexes, n, serial, pts, tick, start).0 <= seek::index_floor(
            indexes[i],
            media::rescaled(pts, tick, seek::index_tick(indexes[i])),
        )->0.offset,
    decreases n,
{
    earliest_point_is_before_its_own(indexes, n, serial, pts, tick, start);
    earliest_point_is_before_its_own(indexes, n - 1, serial, pts, tick, start);
    if i < n - 1 {
        earliest_point_is_before_all_others(indexes, n - 1, serial, pts, tick, start, i);
    }
}

/// The seek point chosen stands no later than the stream's own.
pub proof fn earliest_point_is_before_its_own(
    indexes: Seq<IndexView>,
    n: int,
    serial: u32,
    pts: i64,
    tick: media::TimeBase,
    start: (u64, u32),
)
    ensures
        seek::earliest_point(indexes, n, serial, pts, tick, start).0 <= start.0,
    decreases n,
{
    if n > 0 {
        earliest_point_is_before_its_own(indexes, n - 1, serial, pts, tick, start);
    }
}

/// The floor of an index is at or before the time asked for, and every later
/// seek point is past it.
pub proof fn floor_point_is_the_last(points: Seq<skeleton::Keypoint>, t: i64)
    ensures
        match seek::floor_point(points, t) {
            Some(k) => exists|i: int|
                0 <= i < points.len() && #[trigger] points[i] == k && k.timestamp <= t && forall|j:
                    int| i < j < points.len() ==> (#[trigger] points[j]).timestamp > t,
            None => forall|j: int| 0 <= j < points.len() ==> (#[trigger] points[j]).timestamp > t,
        },
    decreases points.len(),
{
    if points.len() > 0 {
        let n = points.len() - 1;
        if points.last().timestamp <= t {
            assert(points[n] == points.last());
        } else {
            let init = points.drop_last();
            floor_point_is_the_last(init, t);
            if let Some(k) = seek::floor_point(init, t) {
                let i = choose|i: int|
                    0 <= i < init.len() && #[trigger] init[i] == k && k.timestamp <= t && forall|j:
                        int| i < j < init.len() ==> (#[trigger] init[j]).timestamp > t;
                assert(points[i] == k);
                assert forall|j: int| i < j < points.len() implies (#[trigger] points[j]).timestamp
                    > t by {
                    if j < n {
                        assert(init[j].timestamp > t);
                    }
                }
            } else {
                assert forall|j: int| 0 <= j < points.len() implies (
                #[trigger] points[j]).timestamp > t by {
                    if j < n {
                        assert(init[j].timestamp > t);
                    }
                }
            }
        }
    }
}

// ---------------------------------------------------------------------------
// Tags
// ---------------------------------------------------------------------------

/// No tag has an empty name or an empty value.
pub proof fn tags_are_never_empty(s: Seq<u8>)
    ensures
        forall|i: int|
            0 <= i < comment::comment_tags(s).len() ==> (#[trigger] comment::comment_tags(
                s,
            )[i]).0.len() > 0 && comment::comment_tags(s)[i].1.len() > 0,
{
    reveal_strlit("vendor");
    if s.len() >= 4 && 4 + bytes::le32(s, 0) <= s.len() {
        let end = 4 + bytes::le32(s, 0);
        if end + 4 <= s.len() {
            listed_tags_are_never_empty(s, end + 4, bytes::le32(s, end));
        }
    }
}

proof fn listed_tags_are_never_empty(s: Seq<u8>, off: int, n: int)
    ensures
        forall|i: int|
            0 <= i < comment::comment_list(s, off, n).len() ==> (#[trigger] comment::comment_list(
                s,
                off,
                n,
            )[i]).0.len() > 0 && comment::comment_list(s, off, n)[i].1.len() > 0,
    decreases n,
{
    if n > 0 && off + 4 <= s.len() {
        let end = off + 4 + bytes::le32(s, off);
        if end <= s.len() {
            listed_tags_are_never_empty(s, end, n - 1);
            let tag = comment::comment_tag(s.subrange(off + 4, end));
            let rest = comment::comment_list(s, end, n - 1);
            let all = comment::comment_list(s, off, n);
            assert forall|i: int| 0 <= i < all.len() implies (#[trigger] all[i]).0.len() > 0
                && all[i].1.len() > 0 by {
                if i >= tag.len() {
                    assert(all[i] == rest[i - tag.len()]);
                }
            }
        }
    }
}

} // verus!
