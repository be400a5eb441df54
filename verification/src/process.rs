//! Pages into packets: the work that each page causes.
use crate::comment;
use crate::damage;
use crate::demux;
use crate::demux::{LogicalStream, Model, OggDemuxer, SkelView, StateView};
use crate::error::Error;
use crate::granule;
use crate::media;
use crate::media::{Packet, PacketView, ParamsView, StreamView, TimeBase};
use crate::page::{Page, PageView};
use crate::private;
use crate::reassembly;
use crate::reassembly::{Continuity, PagePackets, Partial};
use crate::register;
use crate::skeleton;
use crate::theora::TheoraGranule;
use vstd::prelude::*;

verus! {

// ---------------------------------------------------------------------------
// Timestamps
// ---------------------------------------------------------------------------

/// The frame that the first of `n` packets on a page holds, for a stream with
/// a known frame layout. The page's granule names the last one's frame; where
/// it names none, frames are counted on from the page before.
pub open spec fn first_frame(
    gran: TheoraGranule,
    next_frame: Option<i64>,
    granule: i64,
    n: int,
) -> Option<i64> {
    match gran.index_spec(granule as int) {
        Some(last) => Some((last - (n - 1)) as i64),
        None => next_frame,
    }
}

/// The frame that the next packet holds after `n` more.
pub open spec fn frame_after(
    gran: Option<TheoraGranule>,
    next_frame: Option<i64>,
    granule: i64,
    n: int,
) -> Option<i64> {
    match gran {
        Some(g) => if n == 0 {
            next_frame
        } else {
            match first_frame(g, next_frame, granule, n) {
                Some(f) => Some(f.wrapping_add(n as i64)),
                None => None,
            }
        },
        None => next_frame,
    }
}

/// Timestamp and keyframe flag of packet `j` of the `n` data packets that end
/// on a page.
///
/// With a known frame layout every packet is one frame: its timestamp is the
/// frame's index, and it is a keyframe where that is the keyframe that the
/// granule counts from. Otherwise only the last packet has a timestamp, the
/// granule itself; every packet is a keyframe where granules pack no offset,
/// and else the last one where its offset is 0.
pub open spec fn stamp(
    gran: Option<TheoraGranule>,
    shift: u32,
    next_frame: Option<i64>,
    granule: i64,
    n: int,
    j: int,
) -> (Option<i64>, bool) {
    let is_last = j == n - 1;
    match gran {
        Some(g) => match first_frame(g, next_frame, granule, n) {
            Some(f) => {
                let frame = f.wrapping_add(j as i64);
                (Some(frame), g.keyframe_spec(granule as int) == Some(frame))
            },
            None => (
                None,
                is_last && granule >= 0 && granule::is_keyframe(granule as int, g.shift as nat),
            ),
        },
        None => (
            if is_last && granule >= 0 {
                Some(granule)
            } else {
                None
            },
            shift == 0 || (is_last && granule >= 0 && granule::is_keyframe(
                granule as int,
                shift as nat,
            )),
        ),
    }
}

/// The packets that a page delivers, one for each of its data packets.
pub open spec fn stamped(
    stream: StreamView,
    st: StateView,
    shift: u32,
    granule: i64,
    data: Seq<Seq<u8>>,
) -> Seq<PacketView> {
    Seq::new(
        data.len(),
        |j: int|
            {
                let (pts, keyframe) = stamp(
                    st.theora,
                    shift,
                    st.next_frame,
                    granule,
                    data.len() as int,
                    j,
                );
                PacketView {
                    stream_index: stream.index,
                    time_base: stream.time_base,
                    pts,
                    keyframe,
                    unit_boundary: j == data.len() - 1,
                    data: data[j],
                }
            },
    )
}

// ---------------------------------------------------------------------------
// Content pages
// ---------------------------------------------------------------------------

/// How many low granule bits of a stream count from a keyframe: what its
/// track description says, or else its identification header.
pub open spec fn granule_shift(m: Model, serial: u32, gran: Option<TheoraGranule>) -> u32 {
    match bone_of(m, serial) {
        Some(b) => b.granuleshift as u32,
        None => match gran {
            Some(g) => g.shift,
            None => 0,
        },
    }
}

/// How a serial number's granules run, if the Skeleton describes the track.
pub open spec fn bone_of(m: Model, serial: u32) -> Option<skeleton::Track> {
    match m.skel.skeleton {
        Some(sk) => match skeleton::first_bone(sk.bones, serial) {
            Some(bone) => Some(bone.track),
            None => None,
        },
        None => None,
    }
}

/// The smaller of two numbers.
pub open spec fn least(a: int, b: int) -> int {
    if a <= b {
        a
    } else {
        b
    }
}

/// How a page fits its stream.
pub open spec fn page_fit(st: StateView, page: PageView) -> Continuity {
    reassembly::continuity(st.last_seq, st.partial, page)
}

/// The packets that become whole with a page, and what is pending after it.
pub open spec fn page_join(st: StateView, page: PageView) -> (Seq<Seq<u8>>, Partial) {
    reassembly::join(
        reassembly::after_check(st.partial, page_fit(st, page)),
        page.is_continued(),
        reassembly::cut(page.lacing, page.data),
    )
}

/// How many of a page's whole packets are headers taken in before.
pub open spec fn reread_take(st: StateView, page: PageView) -> int {
    least(st.rereading as int, page_join(st, page).0.len() as int)
}

/// A page's whole packets without the headers taken in before.
pub open spec fn new_packets(st: StateView, page: PageView) -> Seq<Seq<u8>> {
    if st.rereading == 0 {
        page_join(st, page).0
    } else {
        page_join(st, page).0.skip(reread_take(st, page))
    }
}

/// How many of a page's whole packets are new headers.
pub open spec fn header_take(st: StateView, page: PageView) -> int {
    least(st.headers_remaining as int, new_packets(st, page).len() as int)
}

/// A page's whole packets that are new headers.
pub open spec fn headers_of(st: StateView, page: PageView) -> Seq<Seq<u8>> {
    new_packets(st, page).take(header_take(st, page))
}

/// A page's whole packets that are data.
pub open spec fn data_of(st: StateView, page: PageView) -> Seq<Seq<u8>> {
    new_packets(st, page).skip(header_take(st, page))
}

/// The state of a stream after one of its pages.
pub open spec fn state_after(st: StateView, page: PageView) -> StateView {
    StateView {
        partial: page_join(st, page).1,
        headers_remaining: (st.headers_remaining - header_take(st, page)) as usize,
        header_packets: st.header_packets + headers_of(st, page),
        rereading: (st.rereading - reread_take(st, page)) as usize,
        tagged: st.tagged || header_take(st, page) == st.headers_remaining > 0,
        last_seq: Some(page.seq_no),
        next_frame: frame_after(
            st.theora,
            st.next_frame,
            page.granule,
            data_of(st, page).len() as int,
        ),
        ..st
    }
}

/// Whether the last header of a stream comes with a page.
pub open spec fn headers_complete(st: StateView, page: PageView) -> bool {
    st.headers_remaining > 0 && state_after(st, page).headers_remaining == 0
}

/// A stream with the setup bytes that its headers give, where they give any.
pub open spec fn with_private(stream: StreamView, headers: Seq<Seq<u8>>) -> StreamView {
    let extra = private::codec_private(stream.params.codec_id, headers);
    if extra.len() > 0 {
        StreamView { params: ParamsView { extradata: extra, ..stream.params }, ..stream }
    } else {
        stream
    }
}

/// The demuxer after a page of the stream at `k`.
pub open spec fn content_page(m: Model, page: PageView, k: int) -> Model {
    let st = m.states[k];
    let after = state_after(st, page);
    let shift = granule_shift(m, page.serial, st.theora);
    Model {
        ledger: match page_fit(st, page) {
            Continuity::Clean => m.ledger,
            Continuity::Hole => m.ledger.with_hole(page.serial, page.seq_no),
            Continuity::Framing => m.ledger.with_framing_error(page.serial, page.seq_no),
        },
        states: m.states.update(k, after),
        out_queue: m.out_queue + stamped(
            m.streams[k],
            st,
            shift,
            page.granule,
            data_of(st, page),
        ),
        streams: if headers_complete(st, page) {
            m.streams.update(k, with_private(m.streams[k], after.header_packets))
        } else {
            m.streams
        },
        tags: if headers_complete(st, page) && !st.tagged {
            m.tags + comment::codec_tags(m.streams[k].params.codec_id, after.header_packets)
        } else {
            m.tags
        },
        ..m
    }
}

/// The tags that the stream at `k` still owes.
pub open spec fn tags_due(m: Model, k: int) -> Seq<comment::Tag> {
    if m.states[k].tagged {
        Seq::empty()
    } else {
        comment::codec_tags(m.streams[k].params.codec_id, m.states[k].header_packets)
    }
}

/// The demuxer with the tags that the stream at `k` still owes added.
pub open spec fn with_tags(m: Model, k: int) -> Model {
    if m.states[k].tagged {
        m
    } else {
        Model {
            tags: m.tags + tags_due(m, k),
            states: m.states.update(
                k,
                StateView { tagged: tags_due(m, k).len() > 0, ..m.states[k] },
            ),
            ..m
        }
    }
}

// ---------------------------------------------------------------------------
// Skeleton pages
// ---------------------------------------------------------------------------

/// What of the Skeleton is pending when a page of it comes. Nothing survives a
/// gap.
pub open spec fn skeleton_pending(skel: SkelView, gap: bool) -> Partial {
    if gap {
        Partial { pending: Seq::empty(), valid: true, unknown: false }
    } else {
        Partial { pending: skel.pending, valid: !skel.adrift, unknown: skel.adrift }
    }
}

/// The packets that become whole with a page of the Skeleton, and what is
/// pending after it.
pub open spec fn skeleton_join(skel: SkelView, page: PageView) -> (Seq<Seq<u8>>, Partial) {
    reassembly::join(
        skeleton_pending(skel, reassembly::leaves_gap(skel.last_seq, page)),
        page.is_continued(),
        reassembly::cut(page.lacing, page.data),
    )
}

/// How many of the packets that end on the page at `off` have been taken in.
pub open spec fn taken_at(taken: Seq<(u64, usize)>, off: u64) -> nat
    decreases taken.len(),
{
    if taken.len() == 0 {
        0
    } else if taken.last().0 == off {
        taken.last().1 as nat
    } else {
        taken_at(taken.drop_last(), off)
    }
}

/// The packets of the page at `off` that have not been taken in. A page that
/// is read again has none, unless its first packet lacked its beginning then.
pub open spec fn untaken(taken: Seq<(u64, usize)>, off: u64, packets: Seq<Seq<u8>>) -> Seq<
    Seq<u8>,
> {
    if taken_at(taken, off) < packets.len() {
        packets.take(packets.len() - taken_at(taken, off))
    } else {
        Seq::empty()
    }
}

/// What has been taken in once `n` packets end on the page at `off`.
pub open spec fn with_taken(taken: Seq<(u64, usize)>, off: u64, n: int) -> Seq<(u64, usize)> {
    if taken_at(taken, off) < n {
        taken.push((off, n as usize))
    } else {
        taken
    }
}

/// The demuxer after a page of the Skeleton bitstream.
pub open spec fn skeleton_page(m: Model, page: PageView) -> Model {
    let gap = reassembly::leaves_gap(m.skel.last_seq, page);
    let (packets, left) = skeleton_join(m.skel, page);
    Model {
        ledger: if gap {
            m.ledger.with_hole(page.serial, page.seq_no)
        } else {
            m.ledger
        },
        skel: SkelView {
            skeleton: match m.skel.skeleton {
                Some(sk) => Some(
                    skeleton::with_packets(sk, untaken(m.skel.taken, page.offset, packets)),
                ),
                None => None,
            },
            taken: with_taken(m.skel.taken, page.offset, packets.len() as int),
            pending: left.pending,
            adrift: left.unknown,
            last_seq: Some(page.seq_no),
            ended: m.skel.ended || page.is_last(),
        },
        ..m
    }
}

// ---------------------------------------------------------------------------
// Any page
// ---------------------------------------------------------------------------

/// Whether `off` lies behind the last beginning-of-stream page counted.
pub open spec fn is_behind(last: Option<u64>, off: u64) -> bool {
    match last {
        Some(b) => b < off,
        None => true,
    }
}

/// Whether a page that begins no stream stands between the last
/// beginning-of-stream page counted and `off`.
pub open spec fn is_apart(m: Model, off: u64) -> bool {
    match m.data_at {
        Some(d) => d < off,
        None => false,
    }
}

/// The demuxer with the beginning-of-stream page at `off` counted: it begins a
/// new chained link where it stands apart from the one before it. A page that
/// was counted before is not counted again.
pub open spec fn next_link(m: Model, off: u64) -> Model {
    if !is_behind(m.last_bos, off) {
        m
    } else if is_apart(m, off) {
        Model {
            link: m.link.saturating_add(1),
            link_starts: m.link_starts.push(off),
            last_bos: Some(off),
            data_at: None,
            ..m
        }
    } else {
        Model { last_bos: Some(off), ..m }
    }
}

/// How many of `starts` stand at or before `off`.
pub open spec fn starts_up_to(starts: Seq<u64>, off: u64) -> int
    decreases starts.len(),
{
    if starts.len() == 0 {
        0
    } else {
        starts_up_to(starts.drop_last(), off) + if starts.last() <= off {
            1int
        } else {
            0
        }
    }
}

/// The chained link that a page at `off` stands in: as many as have been
/// counted begin at or before it.
pub open spec fn link_at(m: Model, off: u64) -> u32 {
    if starts_up_to(m.link_starts, off) < u32::MAX {
        starts_up_to(m.link_starts, off) as u32
    } else {
        u32::MAX
    }
}

/// The demuxer after it has seen a page at `off` that begins no stream.
pub open spec fn past_data(m: Model, off: u64) -> Model {
    if is_behind(m.last_bos, off) && !is_apart(m, off) {
        Model { data_at: Some(off), ..m }
    } else {
        m
    }
}

/// The state of a stream whose first page comes to be processed: no packet is
/// open.
pub open spec fn begun(st: StateView) -> StateView {
    StateView { bos_processed: true, partial: reassembly::nothing(), ..st }
}

/// The demuxer with the first page of a stream marked as processed.
pub open spec fn bos_marked(m: Model, serial: u32) -> Model {
    match demux::slot(m.states, serial) {
        Some(k) => Model { states: m.states.update(k, begun(m.states[k])), ..m },
        None => m,
    }
}

/// Whether a page begins a second bitstream with a serial number in use: it is
/// not the page that began the stream.
pub open spec fn is_duplicate(m: Model, page: PageView) -> bool {
    match demux::slot(m.states, page.serial) {
        Some(k) => m.states[k].bos_at != page.offset,
        None => false,
    }
}

/// The state of a stream whose first page is read again. Its headers come
/// again; those that were taken in before are not taken in twice.
pub open spec fn rewound(st: StateView) -> StateView {
    if !st.bos_processed {
        begun(st)
    } else if st.headers_remaining == 0 {
        StateView {
            partial: reassembly::nothing(),
            last_seq: None,
            rereading: st.header_count,
            ..st
        }
    } else {
        StateView {
            partial: reassembly::nothing(),
            last_seq: None,
            headers_remaining: st.header_count,
            header_packets: Seq::empty(),
            ..st
        }
    }
}

/// The demuxer with the state at `k` rewound.
pub open spec fn rewound_at(m: Model, k: int) -> Model {
    Model { states: m.states.update(k, rewound(m.states[k])), ..m }
}

/// The demuxer after it has taken note of where `page` stands in the stream
/// of links: a beginning-of-stream page registers, restarts or rewinds its
/// stream, any other page ends the run of such pages.
pub open spec fn routed(m: Model, page: PageView) -> (Model, Option<Error>) {
    if !page.is_first() {
        (past_data(m, page.offset), None)
    } else if m.skeleton_serial() != Some(page.serial) {
        if !m.knows(page.serial) {
            let (after, fault) = register::registered(next_link(m, page.offset), page);
            if fault is Some {
                (after, fault)
            } else {
                (bos_marked(after, page.serial), None)
            }
        } else if is_duplicate(m, page) {
            let linked = next_link(m, page.offset);
            let k = demux::slot(m.states, page.serial)->0;
            let link = link_at(linked, page.offset);
            (bos_marked(register::restarted(linked, page, k, link), page.serial), None)
        } else {
            (rewound_at(m, demux::slot(m.states, page.serial)->0), None)
        }
    } else {
        match reassembly::cut(page.lacing, page.data).first() {
            Some(first) => if skeleton::starts_fishead(first) {
                register::registered(m, page)
            } else {
                (duplicate_of_skeleton(m, page), None)
            },
            None => (duplicate_of_skeleton(m, page), None),
        }
    }
}

/// The demuxer after another stream used the Skeleton's serial number. It
/// counts as damage unless the index scan counts it.
pub open spec fn duplicate_of_skeleton(m: Model, page: PageView) -> Model {
    if m.index_built {
        m
    } else {
        Model { ledger: m.ledger.with_duplicate(page.serial, page.seq_no), ..m }
    }
}

/// The demuxer after a page. Pages of the Skeleton are read for what they
/// say; pages of unknown streams are skipped.
pub open spec fn processed(m: Model, page: PageView) -> (Model, Option<Error>) {
    let (after, fault) = routed(m, page);
    if fault is Some {
        (after, fault)
    } else if after.skeleton_serial() == Some(page.serial) {
        (skeleton_page(after, page), None)
    } else {
        match demux::slot(after.states, page.serial) {
            Some(k) => (content_page(after, page, k), None),
            None => (after, None),
        }
    }
}

// ---------------------------------------------------------------------------
// Soundness
// ---------------------------------------------------------------------------

/// Whether two models agree on what reading pages depends on.
pub open spec fn same_source(a: Model, b: Model) -> bool {
    &&& a.input == b.input
    &&& a.pos == b.pos
    &&& a.page_queue == b.page_queue
    &&& a.answers == b.answers
    &&& a.index == b.index
    &&& a.index_built == b.index_built
}

/// Taking note of a page keeps the demuxer sound.
pub proof fn routing_keeps_wf(m: Model, page: PageView)
    requires
        m.wf(),
    ensures
        routed(m, page).0.wf(),
        same_source(m, routed(m, page).0),
{
    damage::ledgers_stay_true(m.ledger, 0, page.serial, page.seq_no, 0);
    let linked = next_link(m, page.offset);
    assert(linked.skeleton_serial() == m.skeleton_serial());
    assert(linked.wf());
    assert(linked.states == m.states);
    demux::slot_holds(m.states, page.serial);
    if page.is_first() {
        if m.skeleton_serial() != Some(page.serial) {
            if !m.knows(page.serial) {
                register::registering_keeps_wf(linked, page);
                marking_keeps_wf(register::registered(linked, page).0, page.serial);
            } else if is_duplicate(m, page) {
                let k = demux::slot(m.states, page.serial)->0;
                let link = link_at(linked, page.offset);
                let after = register::restarted(linked, page, k, link);
                register::updating_keeps_wf(linked, k, after.states[k]);
                assert(after.wf());
                marking_keeps_wf(after, page.serial);
            } else {
                let k = demux::slot(m.states, page.serial)->0;
                register::updating_keeps_wf(m, k, rewound(m.states[k]));
            }
        } else {
            if m.knows(page.serial) {
                let k = demux::slot(m.states, page.serial)->0;
                assert(m.skeleton_serial() != Some(m.states[k].serial));
            }
            register::registering_keeps_wf(m, page);
        }
    } else {
        assert(past_data(m, page.offset).skeleton_serial() == m.skeleton_serial());
    }
}

proof fn marking_keeps_wf(m: Model, serial: u32)
    requires
        m.wf(),
    ensures
        bos_marked(m, serial).wf(),
        same_source(m, bos_marked(m, serial)),
{
    demux::slot_holds(m.states, serial);
    if let Some(k) = demux::slot(m.states, serial) {
        register::updating_keeps_wf(m, k, begun(m.states[k]));
    }
}

/// A content page keeps the demuxer sound.
pub proof fn content_keeps_wf(m: Model, page: PageView, k: int)
    requires
        m.wf(),
        0 <= k < m.states.len(),
    ensures
        content_page(m, page, k).wf(),
        same_source(m, content_page(m, page, k)),
{
    damage::ledgers_stay_true(m.ledger, 0, page.serial, page.seq_no, 0);
    let after = content_page(m, page, k);
    register::updating_keeps_wf(m, k, state_after(m.states[k], page));
    assert forall|i: int| 0 <= i < after.streams.len() implies (#[trigger] after.streams[i]).index
        == i by {
        assert(m.streams[i].index == i);
    }
    let mid = Model { states: after.states, ..m };
    assert(mid.wf());
    assert(after.skeleton_serial() == mid.skeleton_serial());
    assert forall|i: int| 0 <= i < after.states.len() implies after.skeleton_serial() != Some(
        (#[trigger] after.states[i]).serial,
    ) by {
        assert(mid.skeleton_serial() != Some(mid.states[i].serial));
    }
    assert forall|a: int, b: int| 0 <= a < b < after.states.len() implies (
    #[trigger] after.states[a]).serial != (#[trigger] after.states[b]).serial by {
        assert(mid.states[a].serial != mid.states[b].serial);
    }
    assert(after.ledger.wf());
}

/// Adding packets to a Skeleton keeps its serial number.
pub proof fn skeleton_keeps_its_serial(sk: skeleton::SkeletonView, packets: Seq<Seq<u8>>)
    ensures
        skeleton::with_packets(sk, packets).serial == sk.serial,
        skeleton::with_packets(sk, packets).head == sk.head,
    decreases packets.len(),
{
    if packets.len() > 0 {
        skeleton_keeps_its_serial(sk, packets.drop_last());
    }
}

/// A Skeleton page keeps the demuxer sound.
pub proof fn skeleton_keeps_wf(m: Model, page: PageView)
    requires
        m.wf(),
    ensures
        skeleton_page(m, page).wf(),
        same_source(m, skeleton_page(m, page)),
        skeleton_page(m, page).skeleton_serial() == m.skeleton_serial(),
{
    damage::ledgers_stay_true(m.ledger, 0, page.serial, page.seq_no, 0);
    let after = skeleton_page(m, page);
    let packets = skeleton_join(m.skel, page).0;
    if let Some(sk) = m.skel.skeleton {
        skeleton_keeps_its_serial(sk, untaken(m.skel.taken, page.offset, packets));
    }
    assert(after.skeleton_serial() == m.skeleton_serial());
    assert forall|i: int| 0 <= i < after.states.len() implies after.skeleton_serial() != Some(
        (#[trigger] after.states[i]).serial,
    ) by {
        assert(m.skeleton_serial() != Some(m.states[i].serial));
    }
    assert(after.ledger.wf());
}

/// Whatever page comes, the demuxer stays sound, and neither the input nor
/// the pages that wait are touched.
pub proof fn processing_keeps_wf(m: Model, page: PageView)
    requires
        m.wf(),
    ensures
        processed(m, page).0.wf(),
        same_source(m, processed(m, page).0),
{
    routing_keeps_wf(m, page);
    let after = routed(m, page).0;
    skeleton_keeps_wf(after, page);
    demux::slot_holds(after.states, page.serial);
    if let Some(k) = demux::slot(after.states, page.serial) {
        content_keeps_wf(after, page, k);
    }
}

// ---------------------------------------------------------------------------
// Executable side
// ---------------------------------------------------------------------------

fn stamp_at(
    gran: Option<TheoraGranule>,
    shift: u32,
    next_frame: Option<i64>,
    granule: i64,
    n: usize,
    j: usize,
) -> (r: (Option<i64>, bool))
    requires
        j < n <= 255,
    ensures
        r == stamp(gran, shift, next_frame, granule, n as int, j as int),
{
    let is_last: bool = j == n - 1;
    match gran {
        Some(g) => {
            let first: Option<i64> = match g.frame_index(granule) {
                Some(last) => {
                    proof {
                        granule::frame_no_bound(granule as int, g.shift as nat);
                    }
                    Some(last - (n as i64 - 1))
                },
                None => next_frame,
            };
            match first {
                Some(f) => {
                    let frame: i64 = f.wrapping_add(j as i64);
                    let keyframe: bool = match g.keyframe_index(granule) {
                        Some(k) => k == frame,
                        None => false,
                    };
                    (Some(frame), keyframe)
                },
                None => (None, is_last && granule >= 0 && g.is_keyframe(granule)),
            }
        },
        None => {
            let pts: Option<i64> = if is_last && granule >= 0 {
                Some(granule)
            } else {
                None
            };
            let keyframe: bool = shift == 0 || (is_last && granule >= 0
                && granule::granule_is_keyframe(granule, shift));
            (pts, keyframe)
        },
    }
}

fn frame_after_page(
    gran: Option<TheoraGranule>,
    next_frame: Option<i64>,
    granule: i64,
    n: usize,
) -> (r: Option<i64>)
    requires
        n <= 255,
    ensures
        r == frame_after(gran, next_frame, granule, n as int),
{
    match gran {
        Some(g) => {
            if n == 0 {
                return next_frame;
            }
            let first: Option<i64> = match g.frame_index(granule) {
                Some(last) => {
                    proof {
                        granule::frame_no_bound(granule as int, g.shift as nat);
                    }
                    Some(last - (n as i64 - 1))
                },
                None => next_frame,
            };
            match first {
                Some(f) => Some(f.wrapping_add(n as i64)),
                None => None,
            }
        },
        None => next_frame,
    }
}

fn take_headers(packets: &mut Vec<Vec<u8>>, headers: &mut Vec<Vec<u8>>, n: usize)
    requires
        n <= old(packets)@.len(),
    ensures
        reassembly::contents(final(headers)@) == reassembly::contents(old(headers)@)
            + reassembly::contents(old(packets)@).take(n as int),
        reassembly::contents(final(packets)@) == reassembly::contents(old(packets)@).skip(n as int),
{
    let ghost all = reassembly::contents(packets@);
    let ghost had = reassembly::contents(headers@);
    let mut i: usize = 0;
    assert(had + all.take(0) =~= had);
    assert(all.skip(0) =~= all);
    while i < n
        invariant
            i <= n <= all.len(),
            packets@.len() == all.len() - i,
            reassembly::contents(headers@) == had + all.take(i as int),
            reassembly::contents(packets@) == all.skip(i as int),
        decreases n - i,
    {
        let ghost h0 = headers@;
        let ghost p0 = packets@;
        let packet: Vec<u8> = packets.remove(0);
        assert(reassembly::contents(p0)[0] == packet@);
        headers.push(packet);
        assert(reassembly::contents(headers@) =~= reassembly::contents(h0).push(packet@));
        assert(had + all.take(i + 1) =~= (had + all.take(i as int)).push(all[i as int]));
        assert forall|x: int| 0 <= x < packets@.len() implies reassembly::contents(packets@)[x]
            == all.skip(i + 1)[x] by {
            assert(reassembly::contents(p0)[x + 1] == all.skip(i as int)[x + 1]);
        }
        assert(reassembly::contents(packets@) =~= all.skip(i + 1));
        i = i + 1;
    }
}

/// Drop the headers taken in before, and take the new ones off. Returns how
/// many there are of each.
fn sort_packets(
    packets: &mut Vec<Vec<u8>>,
    headers: &mut Vec<Vec<u8>>,
    rereading: usize,
    remaining: usize,
) -> (r: (usize, usize))
    ensures
        ({
            let all = reassembly::contents(old(packets)@);
            let new = if rereading == 0 {
                all
            } else {
                all.skip(r.0 as int)
            };
            &&& r.0 == least(rereading as int, all.len() as int)
            &&& r.1 == least(remaining as int, new.len() as int)
            &&& reassembly::contents(final(headers)@) == reassembly::contents(old(headers)@)
                + new.take(r.1 as int)
            &&& reassembly::contents(final(packets)@) == new.skip(r.1 as int)
        }),
        final(packets)@.len() <= old(packets)@.len(),
{
    let again: usize = if rereading <= packets.len() {
        rereading
    } else {
        packets.len()
    };
    if rereading > 0 {
        let mut known: Vec<Vec<u8>> = Vec::new();
        take_headers(packets, &mut known, again);
    }
    assert(reassembly::contents(packets@).len() == packets@.len());
    let take: usize = if remaining <= packets.len() {
        remaining
    } else {
        packets.len()
    };
    let ghost new = reassembly::contents(packets@);
    take_headers(packets, headers, take);
    assert(reassembly::contents(packets@).len() == packets@.len());
    (again, take)
}

fn deliver(
    packets: Vec<Vec<u8>>,
    out: &mut std::collections::VecDeque<Packet>,
    stream_index: u32,
    time_base: TimeBase,
    gran: Option<TheoraGranule>,
    shift: u32,
    next_frame: Option<i64>,
    granule: i64,
    Ghost(stream): Ghost<StreamView>,
    Ghost(st): Ghost<StateView>,
)
    requires
        packets@.len() <= 255,
        stream.index == stream_index,
        stream.time_base == time_base,
        st.theora == gran,
        st.next_frame == next_frame,
    ensures
        media::views(final(out)@) == media::views(old(out)@) + stamped(
            stream,
            st,
            shift,
            granule,
            reassembly::contents(packets@),
        ),
{
    let ghost data = reassembly::contents(packets@);
    let ghost had = media::views(out@);
    let ghost all = stamped(stream, st, shift, granule, data);
    let mut left: Vec<Vec<u8>> = packets;
    let n: usize = left.len();
    let mut j: usize = 0;
    assert(had + all.take(0) =~= had);
    assert(data.skip(0) =~= data);
    while j < n
        invariant
            j <= n <= 255,
            n == data.len(),
            left@.len() == n - j,
            reassembly::contents(left@) == data.skip(j as int),
            all == stamped(stream, st, shift, granule, data),
            media::views(out@) == had + all.take(j as int),
            stream.index == stream_index,
            stream.time_base == time_base,
            st.theora == gran,
            st.next_frame == next_frame,
        decreases n - j,
    {
        let ghost l0 = left@;
        let ghost o0 = out@;
        let payload: Vec<u8> = left.remove(0);
        assert(reassembly::contents(l0)[0] == payload@);
        assert forall|x: int| 0 <= x < left@.len() implies reassembly::contents(left@)[x]
            == data.skip(j + 1)[x] by {
            assert(reassembly::contents(l0)[x + 1] == data.skip(j as int)[x + 1]);
        }
        assert(reassembly::contents(left@) =~= data.skip(j + 1));
        let (pts, keyframe) = stamp_at(gran, shift, next_frame, granule, n, j);
        let packet = Packet {
            stream_index,
            time_base,
            pts,
            keyframe,
            unit_boundary: j == n - 1,
            data: payload,
        };
        out.push_back(packet);
        proof {
            assert(packet@ == all[j as int]);
            assert(media::views(out@) =~= media::views(o0).push(packet@));
            assert(had + all.take(j + 1) =~= (had + all.take(j as int)).push(all[j as int]));
        }
        j = j + 1;
    }
    assert(all.take(n as int) =~= all);
}

impl OggDemuxer {
    /// How a serial number's granules run, if the Skeleton describes the
    /// track.
    pub fn bone(&self, serial: u32) -> (r: Option<skeleton::Track>)
        ensures
            r == bone_of(self@, serial),
    {
        match &self.skel.skeleton {
            Some(sk) => match sk.bone_for_serial(serial) {
                Some(bone) => Some(bone.track()),
                None => None,
            },
            None => None,
        }
    }

    /// Build the setup bytes of the stream at `k` from its headers.
    pub fn populate_extradata_for(&mut self, k: usize)
        requires
            old(self).wf(),
            k < old(self)@.streams.len(),
        ensures
            final(self).wf(),
            final(self)@ == (Model {
                streams: old(self)@.streams.update(
                    k as int,
                    with_private(
                        old(self)@.streams[k as int],
                        old(self)@.states[k as int].header_packets,
                    ),
                ),
                ..old(self)@
            }),
    {
        let ghost before = self@;
        let extra: Vec<u8> = private::build_codec_private(
            &self.streams[k].params.codec_id,
            &self.states[k].header_packets,
        );
        let ghost was = self.streams@[k as int]@;
        assert(was == before.streams[k as int]);
        assert(self.states@[k as int]@ == before.states[k as int]);
        if extra.len() > 0 {
            let stream: &mut media::StreamInfo = &mut self.streams[k];
            stream.params.extradata = extra;
        }
        proof {
            let now = self.streams@[k as int]@;
            assert(now =~= with_private(was, before.states[k as int].header_packets));
            assert(self@.streams =~= before.streams.update(k as int, now));
            assert forall|i: int| 0 <= i < self@.streams.len() implies (
            #[trigger] self@.streams[i]).index == i by {
                assert(before.streams[i].index == i);
            }
            assert(self@ =~= Model { streams: self@.streams, ..before });
        }
    }

    /// Add the tags among the headers of the stream at `k`.
    fn add_tags_of(&mut self, k: usize)
        requires
            old(self).wf(),
            k < old(self)@.streams.len(),
        ensures
            final(self).wf(),
            final(self)@ == (Model {
                tags: old(self)@.tags + comment::codec_tags(
                    old(self)@.streams[k as int].params.codec_id,
                    old(self)@.states[k as int].header_packets,
                ),
                ..old(self)@
            }),
    {
        let ghost before = self@;
        assert(self.streams@[k as int]@ == before.streams[k as int]);
        assert(self.states@[k as int]@ == before.states[k as int]);
        comment::parse_codec_comment(
            &self.streams[k].params.codec_id,
            &self.states[k].header_packets,
            &mut self.tags,
        );
        assert(self@ =~= Model { tags: self@.tags, ..before });
    }

    /// Add the tags among the headers of the stream at `k`, unless they have
    /// been added.
    pub fn populate_metadata_for(&mut self, k: usize)
        requires
            old(self).wf(),
            k < old(self)@.streams.len(),
        ensures
            final(self).wf(),
            final(self)@ == with_tags(old(self)@, k as int),
    {
        let ghost before = self@;
        let ghost was = self.states@[k as int]@;
        assert(was == before.states[k as int]);
        if self.states[k].tagged {
            return;
        }
        let n: usize = self.tags.len();
        self.add_tags_of(k);
        assert(comment::tags(self.tags@).len() == self.tags@.len());
        let found: bool = self.tags.len() > n;
        let state: &mut LogicalStream = &mut self.states[k];
        state.tagged = found;
        proof {
            let now = self.states@[k as int]@;
            assert(now =~= StateView { tagged: found, ..was });
            assert(self@.states =~= before.states.update(k as int, now));
            assert(self@ =~= with_tags(before, k as int));
            register::updating_keeps_wf(before, k as int, now);
            let mid = Model { states: self@.states, ..before };
            assert(self@.skeleton_serial() == mid.skeleton_serial());
        }
    }

    #[verifier::spinoff_prover]
    #[verifier::rlimit(60)]
    fn process_content_page(&mut self, page: &Page, k: usize)
        requires
            old(self).wf(),
            page@.wf(),
            k < old(self)@.states.len(),
        ensures
            final(self).wf(),
            final(self)@ == content_page(old(self)@, page@, k as int),
    {
        let ghost before = self@;
        let ghost st = before.states[k as int];
        let ghost pv = page@;
        assert(self.states@[k as int]@ == st);
        assert(self.streams@[k as int]@ == before.streams[k as int]);
        let gran: Option<TheoraGranule> = self.states[k].theora;
        let next_frame: Option<i64> = self.states[k].next_frame;
        let shift: u32 = match self.bone(page.serial) {
            Some(b) => b.granuleshift as u32,
            None => match gran {
                Some(g) => g.shift,
                None => 0,
            },
        };
        assert(shift == granule_shift(before, pv.serial, st.theora));
        let stream_index: u32 = self.streams[k].index;
        let time_base: TimeBase = self.streams[k].time_base;
        let fit: Continuity = reassembly::check_continuity(
            self.states[k].last_seq,
            &self.states[k].pending,
            self.states[k].pending_valid,
            self.states[k].pending_unknown,
            page,
        );
        let mut pending: Vec<u8> = Vec::new();
        let mut valid: bool = self.states[k].pending_valid;
        let mut unknown: bool = self.states[k].pending_unknown;
        let rereading: usize = self.states[k].rereading;
        let tagged: bool = self.states[k].tagged;
        let mut headers: Vec<Vec<u8>> = Vec::new();
        let remaining: usize = self.states[k].headers_remaining;
        {
            let state: &mut LogicalStream = &mut self.states[k];
            std::mem::swap(&mut pending, &mut state.pending);
            std::mem::swap(&mut headers, &mut state.header_packets);
        }
        assert(reassembly::contents(headers@) == st.header_packets);
        match fit {
            Continuity::Clean => {},
            Continuity::Hole => {
                self.ledger.note_hole(page.serial, page.seq_no);
                pending = Vec::new();
                valid = false;
                unknown = false;
                assert(pending@ =~= Seq::<u8>::empty());
            },
            Continuity::Framing => {
                self.ledger.note_framing_error(page.serial, page.seq_no);
            },
        }
        let ghost from = Partial { pending: pending@, valid, unknown };
        assert(from == reassembly::after_check(st.partial, page_fit(st, pv)));
        let parts: PagePackets = reassembly::cut_page(page);
        let joined = reassembly::join_page(
            pending,
            valid,
            unknown,
            page.is_continued(),
            parts,
        );
        let mut packets: Vec<Vec<u8>> = joined.packets;
        let ghost whole = reassembly::contents(packets@);
        assert(whole == page_join(st, pv).0);
        let (again, take) = sort_packets(&mut packets, &mut headers, rereading, remaining);
        assert(again == reread_take(st, pv) && take == header_take(st, pv));
        assert(reassembly::contents(headers@) == state_after(st, pv).header_packets);
        assert(reassembly::contents(packets@) == data_of(st, pv));
        let n: usize = packets.len();
        assert(reassembly::contents(packets@).len() == n);
        let next: Option<i64> = frame_after_page(gran, next_frame, page.granule_position, n);
        deliver(
            packets,
            &mut self.out_queue,
            stream_index,
            time_base,
            gran,
            shift,
            next_frame,
            page.granule_position,
            Ghost(before.streams[k as int]),
            Ghost(st),
        );
        {
            let state: &mut LogicalStream = &mut self.states[k];
            state.pending = joined.pending;
            state.pending_valid = joined.valid;
            state.pending_unknown = joined.unknown;
            state.header_packets = headers;
            state.headers_remaining = remaining - take;
            state.rereading = rereading - again;
            state.tagged = tagged || (remaining > 0 && take == remaining);
            state.last_seq = Some(page.seq_no);
            state.next_frame = next;
        }
        let ghost after = content_page(before, pv, k as int);
        proof {
            content_keeps_wf(before, pv, k as int);
            let now = self.states@[k as int]@;
            assert(now =~= state_after(st, pv));
            assert(self@.states =~= before.states.update(k as int, now));
            assert(self@ =~= Model { streams: before.streams, tags: before.tags, ..after });
            register::updating_keeps_wf(before, k as int, now);
            assert(self@.wf()) by {
                let mid = Model { states: self@.states, ..before };
                assert(mid.wf());
                assert(self@.skeleton_serial() == mid.skeleton_serial());
            }
        }
        if remaining > 0 && remaining - take == 0 {
            self.populate_extradata_for(k);
            proof {
                let s = with_private(before.streams[k as int], after.states[k as int].header_packets);
                assert(s.params.codec_id == before.streams[k as int].params.codec_id);
                assert(self@.streams[k as int] == s);
            }
            if !tagged {
                self.add_tags_of(k);
            }
        }
        assert(self@ =~= after);
    }

    fn packets_taken(&self, off: u64) -> (r: usize)
        ensures
            r == taken_at(self@.skel.taken, off),
    {
        let ghost all = self.skel.taken@;
        let mut i: usize = self.skel.taken.len();
        assert(all.take(i as int) =~= all);
        while i > 0
            invariant
                i <= all.len(),
                all == self.skel.taken@,
                taken_at(all, off) == taken_at(all.take(i as int), off),
            decreases i,
        {
            assert(all.take(i as int).drop_last() =~= all.take(i - 1));
            if self.skel.taken[i - 1].0 == off {
                return self.skel.taken[i - 1].1;
            }
            i = i - 1;
        }
        0
    }

    /// Take in a page of the Skeleton bitstream.
    pub fn process_skeleton_page(&mut self, page: &Page)
        requires
            old(self).wf(),
            page@.wf(),
        ensures
            final(self).wf(),
            final(self)@ == skeleton_page(old(self)@, page@),
    {
        let ghost before = self@;
        let ghost pv = page@;
        let gap: bool = !page.is_first() && match self.skel.last_seq {
            Some(last) => page.seq_no != last.wrapping_add(1),
            None => false,
        };
        let mut pending: Vec<u8> = Vec::new();
        std::mem::swap(&mut pending, &mut self.skel.pending);
        let mut adrift: bool = self.skel.adrift;
        if gap {
            self.ledger.note_hole(page.serial, page.seq_no);
            pending = Vec::new();
            adrift = false;
            assert(pending@ =~= Seq::<u8>::empty());
        }
        let parts: PagePackets = reassembly::cut_page(page);
        let joined = reassembly::join_page(pending, !adrift, adrift, page.is_continued(), parts);
        let packets: Vec<Vec<u8>> = joined.packets;
        self.skel.pending = joined.pending;
        self.skel.adrift = joined.unknown;
        let ghost whole = reassembly::contents(packets@);
        assert(whole == skeleton_join(before.skel, pv).0);
        let had: usize = self.packets_taken(page.offset);
        let new: usize = if had < packets.len() {
            packets.len() - had
        } else {
            0
        };
        let ghost fresh = untaken(before.skel.taken, pv.offset, whole);
        assert(whole.take(new as int) =~= fresh);
        if new > 0 {
            self.skel.taken.push((page.offset, packets.len()));
        }
        if let Some(sk) = &mut self.skel.skeleton {
            let ghost start = sk@;
            let mut i: usize = 0;
            assert(whole.take(0) =~= Seq::<Seq<u8>>::empty());
            while i < new
                invariant
                    i <= new <= packets@.len(),
                    whole == reassembly::contents(packets@),
                    sk@ == skeleton::with_packets(start, whole.take(i as int)),
                decreases new - i,
            {
                assert(whole.take(i + 1).drop_last() =~= whole.take(i as int));
                sk.absorb(packets[i].as_slice());
                i = i + 1;
            }
        }
        self.skel.last_seq = Some(page.seq_no);
        if page.is_last() {
            self.skel.ended = true;
        }
        proof {
            skeleton_keeps_wf(before, pv);
            assert(self@ =~= skeleton_page(before, pv));
        }
    }

    fn lies_behind(&self, off: u64) -> (r: bool)
        ensures
            r == is_behind(self@.last_bos, off),
    {
        match self.last_bos {
            Some(b) => b < off,
            None => true,
        }
    }

    fn stands_apart(&self, off: u64) -> (r: bool)
        ensures
            r == is_apart(self@, off),
    {
        match self.data_at {
            Some(d) => d < off,
            None => false,
        }
    }

    /// Count the beginning-of-stream page at `off`.
    pub fn begin_next_link(&mut self, off: u64)
        requires
            old(self).wf(),
        ensures
            final(self).wf(),
            final(self)@ == next_link(old(self)@, off),
            final(self).input == old(self).input,
    {
        let ghost before = self@;
        if self.lies_behind(off) {
            if self.stands_apart(off) {
                self.link = self.link.saturating_add(1);
                self.link_starts.push(off);
                self.data_at = None;
            }
            self.last_bos = Some(off);
        }
        assert(self@ =~= next_link(before, off));
        assert(self@.skeleton_serial() == before.skeleton_serial());
    }

    /// The chained link that a page at `off` stands in.
    pub fn link_of_page(&self, off: u64) -> (r: u32)
        ensures
            r == link_at(self@, off),
    {
        let ghost all = self.link_starts@;
        let mut n: u32 = 0;
        let mut i: usize = 0;
        assert(all.take(0) =~= Seq::<u64>::empty());
        while i < self.link_starts.len()
            invariant
                i <= all.len(),
                all == self.link_starts@,
                0 <= starts_up_to(all.take(i as int), off),
                n == if starts_up_to(all.take(i as int), off) < u32::MAX {
                    starts_up_to(all.take(i as int), off)
                } else {
                    u32::MAX as int
                },
            decreases all.len() - i,
        {
            assert(all.take(i + 1).drop_last() =~= all.take(i as int));
            if self.link_starts[i] <= off {
                n = n.saturating_add(1);
            }
            i = i + 1;
        }
        assert(all.take(i as int) =~= all);
        n
    }

    /// Take note of a page at `off` that begins no stream.
    pub fn pass_data(&mut self, off: u64)
        requires
            old(self).wf(),
        ensures
            final(self).wf(),
            final(self)@ == past_data(old(self)@, off),
            final(self).input == old(self).input,
    {
        let ghost before = self@;
        if self.lies_behind(off) && !self.stands_apart(off) {
            self.data_at = Some(off);
        }
        assert(self@ =~= past_data(before, off));
        assert(self@.skeleton_serial() == before.skeleton_serial());
    }

    fn rewind_at(&mut self, k: usize)
        requires
            old(self).wf(),
            k < old(self)@.states.len(),
        ensures
            final(self).wf(),
            final(self)@ == rewound_at(old(self)@, k as int),
    {
        let ghost before = self@;
        let ghost was = self.states@[k as int]@;
        assert(was == before.states[k as int]);
        let state: &mut LogicalStream = &mut self.states[k];
        state.pending = Vec::new();
        state.pending_valid = false;
        state.pending_unknown = false;
        if !state.bos_processed {
            state.bos_processed = true;
        } else {
            state.last_seq = None;
            if state.headers_remaining == 0 {
                state.rereading = state.header_count;
            } else {
                state.headers_remaining = state.header_count;
                state.header_packets = Vec::new();
            }
        }
        proof {
            let now = self.states@[k as int]@;
            assert(now.partial =~= rewound(was).partial);
            assert(now.header_packets =~= rewound(was).header_packets);
            assert(now =~= rewound(was));
            assert(self@.states =~= before.states.update(k as int, now));
            assert(self@ =~= rewound_at(before, k as int));
            register::updating_keeps_wf(before, k as int, now);
        }
    }

    fn mark_bos(&mut self, serial: u32)
        requires
            old(self).wf(),
        ensures
            final(self).wf(),
            final(self)@ == bos_marked(old(self)@, serial),
    {
        let ghost before = self@;
        if let Some(k) = self.find_state(serial) {
            let ghost was = self.states@[k as int]@;
            let state: &mut LogicalStream = &mut self.states[k];
            state.bos_processed = true;
            state.pending = Vec::new();
            state.pending_valid = false;
            state.pending_unknown = false;
            proof {
                let now = self.states@[k as int]@;
                assert(now.partial =~= reassembly::nothing());
                assert(now =~= begun(was));
                assert(self@.states =~= before.states.update(k as int, now));
                assert(self@ =~= bos_marked(before, serial));
                marking_keeps_wf(before, serial);
            }
        }
    }

    fn note_skeleton_duplicate(&mut self, page: &Page)
        requires
            old(self).wf(),
        ensures
            final(self).wf(),
            final(self)@ == duplicate_of_skeleton(old(self)@, page@),
    {
        let ghost before = self@;
        if !self.index_built {
            self.ledger.note_duplicate(page.serial, page.seq_no);
        }
        assert(self@ =~= duplicate_of_skeleton(before, page@));
    }

    fn route(&mut self, page: &Page) -> (r: Result<(), Error>)
        requires
            old(self).wf(),
            page@.wf(),
        ensures
            final(self).wf(),
            final(self)@ == routed(old(self)@, page@).0,
            (match r {
                Ok(()) => None,
                Err(e) => Some(e),
            }) == routed(old(self)@, page@).1,
    {
        let ghost before = self@;
        if !page.is_first() {
            self.pass_data(page.offset);
            return Ok(());
        }
        let is_skeleton: bool = match self.skeleton_serial() {
            Some(s) => s == page.serial,
            None => false,
        };
        if is_skeleton {
            let first_is_fishead: bool = match register::first_packet(page) {
                Some(first) => skeleton::is_fishead(first.as_slice()),
                None => false,
            };
            if first_is_fishead {
                proof {
                    demux::slot_holds(before.states, page@.serial);
                    if before.knows(page@.serial) {
                        let k = demux::slot(before.states, page@.serial)->0;
                        assert(before.skeleton_serial() != Some(before.states[k].serial));
                    }
                }
                return self.register_stream(page);
            }
            self.note_skeleton_duplicate(page);
            return Ok(());
        }
        match self.find_state(page.serial) {
            None => {
                self.begin_next_link(page.offset);
                match self.register_stream(page) {
                    Ok(()) => {},
                    Err(e) => {
                        return Err(e);
                    },
                }
            },
            Some(k) => {
                assert(self.states@[k as int]@ == before.states[k as int]);
                if self.states[k].bos_at == page.offset {
                    self.rewind_at(k);
                    return Ok(());
                }
                self.begin_next_link(page.offset);
                let link: u32 = self.link_of_page(page.offset);
                let _restarted: bool = self.restart_serial_on_duplicate_bos(page, link);
            },
        }
        self.mark_bos(page.serial);
        Ok(())
    }

    /// Take in a page: register or restart the stream that it begins, join it
    /// to what is pending, and queue the packets that it completes.
    pub fn process_page(&mut self, page: Page) -> (r: Result<(), Error>)
        requires
            old(self).wf(),
            page@.wf(),
        ensures
            final(self).wf(),
            final(self)@ == processed(old(self)@, page@).0,
            (match r {
                Ok(()) => None,
                Err(e) => Some(e),
            }) == processed(old(self)@, page@).1,
    {
        match self.route(&page) {
            Ok(()) => {},
            Err(e) => {
                return Err(e);
            },
        }
        let is_skeleton: bool = match self.skeleton_serial() {
            Some(s) => s == page.serial,
            None => false,
        };
        if is_skeleton {
            self.process_skeleton_page(&page);
            return Ok(());
        }
        if let Some(k) = self.find_state(page.serial) {
            self.process_content_page(&page, k);
        }
        Ok(())
    }
}

} // verus!
