//! From the bytes of an undamaged physical bitstream to its packets: opening
//! it and reading to the end gives back every packet of every stream.
use crate::damage;
use crate::demux;
use crate::demux::{Answer, Model, SkelView, StateView};
use crate::error::Error;
use crate::ident;
use crate::laws;
use crate::media::{PacketView, StreamView};
use crate::page;
use crate::page::PageView;
use crate::process;
use crate::reader;
use crate::reassembly;
use crate::register;
use crate::seek_index;
use crate::session;
use crate::skeleton;
use vstd::prelude::*;

verus! {

// ---------------------------------------------------------------------------
// What an undamaged bitstream is
// ---------------------------------------------------------------------------

/// The pages that stand end to end from `p` on.
pub open spec fn pages_from(s: Seq<u8>, p: int) -> Seq<PageView>
    decreases s.len() - p,
    via pages_from_end
{
    if 0 <= p < s.len() && page::is_page(s, p) {
        seq![page::page_at(s, p)] + pages_from(s, page::page_end(s, p))
    } else {
        Seq::empty()
    }
}

#[via_fn]
proof fn pages_from_end(s: Seq<u8>, p: int) {
    if 0 <= p && page::is_page(s, p) {
        page::body_len_nonneg(page::lacing_at(s, p));
    }
}

/// The pages of one serial number, in order.
pub open spec fn of_serial(pages: Seq<PageView>, serial: u32) -> Seq<PageView>
    decreases pages.len(),
{
    if pages.len() == 0 {
        Seq::empty()
    } else if pages.last().serial == serial {
        of_serial(pages.drop_last(), serial).push(pages.last())
    } else {
        of_serial(pages.drop_last(), serial)
    }
}

/// The first packet of a page.
pub open spec fn first_of(page: PageView) -> Option<Seq<u8>> {
    reassembly::cut(page.lacing, page.data).first()
}

/// Whether a page can begin a content stream: its first packet identifies a
/// codec, and no Skeleton.
pub open spec fn begins_content(answers: Seq<Answer>, page: PageView) -> bool {
    match first_of(page) {
        Some(first) => !skeleton::starts_fishead(first) && ident::ident_fault(
            register::identified(answers, first),
            first,
        ) is None,
        None => false,
    }
}

/// Whether a page can begin a Skeleton bitstream.
pub open spec fn begins_skeleton(page: PageView) -> bool {
    match first_of(page) {
        Some(first) => skeleton::starts_fishead(first) && skeleton::fishead(first) is Some,
        None => false,
    }
}

/// Whether the pages of a serial number are those of a Skeleton bitstream.
pub open spec fn is_skeleton_serial(pages: Seq<PageView>, serial: u32) -> bool {
    of_serial(pages, serial).len() > 0 && begins_skeleton(of_serial(pages, serial)[0])
}

/// Whether pages form an undamaged physical bitstream, multiplexed or chained,
/// with or without a Skeleton: every logical bitstream is written as an
/// encoder writes it, begins with a page that says what it is, and has a
/// serial number of its own.
#[verifier::opaque]
pub open spec fn is_undamaged(pages: Seq<PageView>, answers: Seq<Answer>) -> bool {
    &&& forall|serial: u32| laws::is_stream_run(#[trigger] of_serial(pages, serial))
    &&& forall|n: int|
        0 <= n < pages.len() ==> (#[trigger] pages[n]).is_first() == (of_serial(
            pages.take(n),
            pages[n].serial,
        ).len() == 0)
    &&& forall|n: int|
        0 <= n < pages.len() && (#[trigger] pages[n]).is_first() ==> begins_content(
            answers,
            pages[n],
        ) || begins_skeleton(pages[n])
}

/// Whether a stream begins in the run of beginning-of-stream pages at the
/// start.
pub open spec fn starts_with_content(pages: Seq<PageView>, answers: Seq<Answer>) -> bool {
    exists|j: int|
        0 <= j < pages.len() && begins_content(answers, #[trigger] pages[j]) && forall|i: int|
            0 <= i <= j ==> (#[trigger] pages[i]).is_first()
}

// ---------------------------------------------------------------------------
// What is known of a stream on the way
// ---------------------------------------------------------------------------

/// The state of a stream that `page` begins, when it comes to be processed.
pub open spec fn newborn(answers: Seq<Answer>, page: PageView) -> StateView {
    let first = first_of(page)->0;
    process::begun(
        register::new_state(
            page.serial,
            page.offset,
            0,
            register::identified(answers, first),
            first,
        ),
    )
}

/// A state with another link index, first-page mark and tag mark. Before the
/// first page it is not known what is pending.
pub open spec fn relabelled(st: StateView, link: u32, bos: bool, tagged: bool) -> StateView {
    StateView {
        link_index: link,
        bos_processed: bos,
        tagged,
        partial: if bos {
            st.partial
        } else {
            reassembly::anything()
        },
        ..st
    }
}

/// The state of the stream `serial` after the first `n` pages, but for its
/// link index.
pub open spec fn expected(
    pages: Seq<PageView>,
    n: int,
    answers: Seq<Answer>,
    serial: u32,
) -> StateView {
    laws::state_run(
        newborn(answers, of_serial(pages, serial)[0]),
        of_serial(pages.take(n), serial),
    )
}

/// The payloads that the stream `serial` has delivered after the first `n`
/// pages.
pub open spec fn expected_data(
    pages: Seq<PageView>,
    n: int,
    answers: Seq<Answer>,
    serial: u32,
) -> Seq<Seq<u8>> {
    laws::data_run(
        newborn(answers, of_serial(pages, serial)[0]),
        of_serial(pages.take(n), serial),
    )
}

/// The payloads of the packets of stream `k`.
pub open spec fn payloads_of(packets: Seq<PacketView>, k: int) -> Seq<Seq<u8>>
    decreases packets.len(),
{
    if packets.len() == 0 {
        Seq::empty()
    } else if packets.last().stream_index == k {
        payloads_of(packets.drop_last(), k).push(packets.last().data)
    } else {
        payloads_of(packets.drop_last(), k)
    }
}

/// Whether the state of a stream, and what it has delivered, are what the
/// first `n` of `pages` say.
pub open spec fn is_as_expected(
    st: StateView,
    data: Seq<Seq<u8>>,
    pages: Seq<PageView>,
    n: int,
    answers: Seq<Answer>,
    marked: Option<u32>,
) -> bool {
    &&& of_serial(pages, st.serial).len() > 0
    &&& begins_content(answers, of_serial(pages, st.serial)[0])
    &&& st == relabelled(
        expected(pages, n, answers, st.serial),
        st.link_index,
        of_serial(pages.take(n), st.serial).len() > 0 || Some(st.serial) == marked,
        st.tagged,
    )
    &&& data == expected_data(pages, n, answers, st.serial)
}

/// Whether what is known of the Skeleton is what the first `n` of `pages` say:
/// it is one of their Skeletons, and its last page is the last of them.
pub open spec fn skeleton_is_as_expected(skel: SkelView, pages: Seq<PageView>, n: int) -> bool {
    match skel.skeleton {
        Some(sk) => {
            let past = of_serial(pages.take(n), sk.serial);
            &&& is_skeleton_serial(pages, sk.serial)
            &&& past.len() > 0 ==> skel.last_seq == Some(past.last().seq_no)
        },
        None => true,
    }
}

/// Whether the demuxer knows of every stream exactly what the first `n` of
/// `pages` say, with `got` delivered. The first page of `marked` counts as
/// begun.
pub open spec fn knows_after(
    m: Model,
    pages: Seq<PageView>,
    n: int,
    got: Seq<PacketView>,
    marked: Option<u32>,
) -> bool {
    let total = got + m.out_queue;
    &&& m.wf()
    &&& 0 <= n <= pages.len()
    &&& skeleton_is_as_expected(m.skel, pages, n)
    &&& is_undamaged(pages, m.answers)
    &&& forall|k: int|
        0 <= k < m.states.len() ==> is_as_expected(
            #[trigger] m.states[k],
            payloads_of(total, k),
            pages,
            n,
            m.answers,
            marked,
        )
    &&& forall|i: int|
        0 <= i < n ==> m.knows(#[trigger] pages[i].serial) || is_skeleton_serial(
            pages,
            pages[i].serial,
        )
    &&& forall|i: int|
        0 <= i < total.len() ==> (#[trigger] total[i]).stream_index < m.states.len()
}

/// Whether the pages from the `n`th on, and nothing else, are still to come.
pub open spec fn lie_ahead(m: Model, pages: Seq<PageView>, n: int) -> bool {
    &&& 0 <= n <= pages.len()
    &&& laws::is_chain(m.input, m.pos as int)
    &&& m.page_queue + pages_from(m.input, m.pos as int) == pages.skip(n)
    &&& knows_only_pages(m.index, pages)
}

/// A page as it is known of.
pub open spec fn known_as(page: PageView) -> seek_index::Entry {
    (page.serial, page.granule, page.offset)
}

/// Whether only pages among `pages` are known.
pub open spec fn knows_only_pages(ix: Set<seek_index::Entry>, pages: Seq<PageView>) -> bool {
    forall|e: seek_index::Entry| #[trigger]
        ix.contains(e) ==> exists|i: int| 0 <= i < pages.len() && known_as(#[trigger] pages[i]) == e
}

/// How many of the first `n` pages begin a chained link: beginning-of-stream
/// pages right behind a page that is none.
pub open spec fn chained(pages: Seq<PageView>, n: int) -> int
    decreases n,
{
    if n <= 1 {
        0
    } else {
        chained(pages, n - 1) + if pages[n - 1].is_first() && !pages[n - 2].is_first() {
            1int
        } else {
            0
        }
    }
}

/// Where the first `n` pages begin a chained link.
pub open spec fn starts_of(pages: Seq<PageView>, n: int) -> Seq<u64>
    decreases n,
{
    if n <= 1 {
        Seq::empty()
    } else if pages[n - 1].is_first() && !pages[n - 2].is_first() {
        starts_of(pages, n - 1).push(pages[n - 1].offset)
    } else {
        starts_of(pages, n - 1)
    }
}

/// A count as it is kept.
pub open spec fn kept_count(n: int) -> u32 {
    if n < u32::MAX {
        n as u32
    } else {
        u32::MAX
    }
}

/// Whether a bitstream whose first page is still to come, behind the first `n`
/// pages, begins in the run of beginning-of-stream pages at the start.
pub open spec fn is_early(pages: Seq<PageView>, n: int, serial: u32) -> bool {
    exists|j: int|
        n <= j < pages.len() && (#[trigger] pages[j]).serial == serial && forall|i: int|
            0 <= i <= j ==> (#[trigger] pages[i]).is_first()
}

/// Whether pages stand one behind the other.
pub open spec fn are_in_order(pages: Seq<PageView>) -> bool {
    forall|i: int, j: int|
        0 <= i < j < pages.len() ==> (#[trigger] pages[i]).offset < (#[trigger] pages[j]).offset
}

/// Whether the demuxer has counted the links of the first `n` of `pages`, and
/// has seen nothing ahead of them but the start.
pub open spec fn links_counted(m: Model, pages: Seq<PageView>, n: int) -> bool {
    &&& are_in_order(pages)
    &&& 0 <= n <= pages.len()
    &&& m.data_at is Some == (n > 0 && !pages[n - 1].is_first())
    &&& n < pages.len() ==> m.data_at is Some ==> process::is_apart(m, pages[n].offset)
    &&& m.link == kept_count(chained(pages, n))
    &&& m.link_starts == starts_of(pages, n)
    &&& forall|i: int, j: int|
        n <= i < pages.len() && !process::is_behind(m.last_bos, (#[trigger] pages[i]).offset) && 0
            <= j <= i ==> (#[trigger] pages[j]).is_first()
    &&& forall|k: int|
        0 <= k < m.states.len() && of_serial(
            pages.take(n),
            (#[trigger] m.states[k]).serial,
        ).len() == 0 ==> is_early(pages, n, m.states[k].serial)
    &&& m.skel.skeleton matches Some(sk) ==> of_serial(pages.take(n), sk.serial).len() == 0
        ==> is_early(pages, n, sk.serial)
    &&& is_counted_up_to(m, pages, n)
    &&& forall|k: int|
        0 <= k < m.states.len() ==> is_in_its_link(
            (#[trigger] m.states[k]).link_index,
            m.states[k].serial,
            pages,
        )
}

/// Whether `link` is the link that the bitstream `serial` begins in: as many
/// chained links begin up to its first page.
#[verifier::opaque]
pub open spec fn is_in_its_link(link: u32, serial: u32, pages: Seq<PageView>) -> bool {
    forall|i: int|
        0 <= i < pages.len() && (#[trigger] pages[i]).is_first() && pages[i].serial == serial
            ==> link == kept_count(chained(pages, i + 1))
}

/// Whether the first page of `serial` has been counted into a link.
pub open spec fn start_is_counted(m: Model, pages: Seq<PageView>, serial: u32) -> bool {
    &&& of_serial(pages, serial).len() > 0
    &&& !process::is_behind(m.last_bos, of_serial(pages, serial)[0].offset)
}

/// Whether every beginning-of-stream page that is known of, or stands among
/// the first `n` of `pages`, has been counted into a link, and the last one
/// counted is one of `pages`.
pub open spec fn is_counted_up_to(m: Model, pages: Seq<PageView>, n: int) -> bool {
    &&& forall|k: int|
        0 <= k < m.states.len() ==> start_is_counted(m, pages, (#[trigger] m.states[k]).serial)
    &&& m.skel.skeleton matches Some(sk) ==> start_is_counted(m, pages, sk.serial)
    &&& forall|i: int|
        0 <= i < n && (#[trigger] pages[i]).is_first() ==> !process::is_behind(
            m.last_bos,
            pages[i].offset,
        )
    &&& m.last_bos matches Some(b) ==> exists|i: int|
        0 <= i < pages.len() && (#[trigger] pages[i]).offset == b && pages[i].is_first()
    &&& m.data_at matches Some(d) ==> process::is_behind(m.last_bos, d) && exists|i: int|
        0 <= i < pages.len() && (#[trigger] pages[i]).offset == d && !pages[i].is_first()
}

// ---------------------------------------------------------------------------
// Lists
// ---------------------------------------------------------------------------

pub proof fn of_serial_step(pages: Seq<PageView>, n: int, serial: u32)
    requires
        0 <= n < pages.len(),
    ensures
        of_serial(pages.take(n + 1), serial) == (if pages[n].serial == serial {
            of_serial(pages.take(n), serial).push(pages[n])
        } else {
            of_serial(pages.take(n), serial)
        }),
{
    assert(pages.take(n + 1).drop_last() =~= pages.take(n));
}

pub proof fn of_serial_is_a_prefix(pages: Seq<PageView>, n: int, serial: u32)
    requires
        0 <= n <= pages.len(),
    ensures
        of_serial(pages.take(n), serial).is_prefix_of(of_serial(pages, serial)),
        laws::is_stream_run(of_serial(pages, serial)) ==> laws::is_stream_run(
            of_serial(pages.take(n), serial),
        ),
    decreases pages.len() - n,
{
    if n < pages.len() {
        of_serial_is_a_prefix(pages, n + 1, serial);
        of_serial_step(pages, n, serial);
        let part = of_serial(pages.take(n + 1), serial);
        if pages[n].serial == serial {
            assert(part.drop_last() =~= of_serial(pages.take(n), serial));
            if laws::is_stream_run(part) {
                laws::run_is_closed(part);
            }
        }
    } else {
        assert(pages.take(n) =~= pages);
    }
}

pub proof fn first_of_its_serial(pages: Seq<PageView>, n: int)
    requires
        0 <= n < pages.len(),
        of_serial(pages.take(n), pages[n].serial).len() == 0,
    ensures
        of_serial(pages, pages[n].serial).len() > 0,
        of_serial(pages, pages[n].serial)[0] == pages[n],
{
    let serial = pages[n].serial;
    of_serial_step(pages, n, serial);
    of_serial_is_a_prefix(pages, n + 1, serial);
    let part = of_serial(pages.take(n + 1), serial);
    assert(part[0] == pages[n]);
}

proof fn payloads_of_more(a: Seq<PacketView>, b: Seq<PacketView>, k: int)
    ensures
        payloads_of(a + b, k) == payloads_of(a, k) + payloads_of(b, k),
    decreases b.len(),
{
    if b.len() == 0 {
        assert(a + b =~= a);
        assert(payloads_of(a, k) + payloads_of(b, k) =~= payloads_of(a, k));
    } else {
        assert((a + b).drop_last() =~= a + b.drop_last());
        payloads_of_more(a, b.drop_last(), k);
        assert(payloads_of(a + b, k) =~= payloads_of(a, k) + payloads_of(b, k));
    }
}

proof fn payloads_of_own(packets: Seq<PacketView>, k: int)
    requires
        forall|i: int| 0 <= i < packets.len() ==> (#[trigger] packets[i]).stream_index == k,
    ensures
        payloads_of(packets, k) == laws::payloads(packets),
    decreases packets.len(),
{
    if packets.len() > 0 {
        let init = packets.drop_last();
        assert forall|i: int| 0 <= i < init.len() implies (#[trigger] init[i]).stream_index
            == k by {
            assert(packets[i].stream_index == k);
        }
        payloads_of_own(init, k);
        assert(packets[packets.len() - 1].stream_index == k);
        assert(payloads_of(packets, k) =~= laws::payloads(packets));
    } else {
        assert(payloads_of(packets, k) =~= laws::payloads(packets));
    }
}

proof fn payloads_of_others(packets: Seq<PacketView>, k: int)
    requires
        forall|i: int| 0 <= i < packets.len() ==> (#[trigger] packets[i]).stream_index != k,
    ensures
        payloads_of(packets, k) == Seq::<Seq<u8>>::empty(),
    decreases packets.len(),
{
    if packets.len() > 0 {
        let init = packets.drop_last();
        assert forall|i: int| 0 <= i < init.len() implies (#[trigger] init[i]).stream_index
            != k by {
            assert(packets[i].stream_index != k);
        }
        payloads_of_others(init, k);
        assert(packets[packets.len() - 1].stream_index != k);
    }
}

// ---------------------------------------------------------------------------
// One page
// ---------------------------------------------------------------------------

/// The next page ahead is taken, and no other.
proof fn page_is_taken(m: Model, pages: Seq<PageView>, n: int)
    requires
        m.wf(),
        lie_ahead(m, pages, n),
    ensures
        session::took_page(m).0.wf(),
        ({
            let after = session::took_page(m).0;
            after == (Model {
                pos: after.pos,
                page_queue: after.page_queue,
                index: after.index,
                ..m
            })
        }),
        n < pages.len() ==> {
            &&& session::took_page(m).1 == Some(pages[n])
            &&& pages[n].wf()
            &&& lie_ahead(session::took_page(m).0, pages, n + 1)
        },
        n == pages.len() ==> session::took_page(m) == (m, None::<PageView>),
{
    let after = session::took_page(m).0;
    let rest = pages_from(m.input, m.pos as int);
    session::taking_keeps_wf(m);
    laws::undamaged_input_reads_page_by_page(m);
    let ahead = m.page_queue + rest;
    assert(ahead =~= pages.skip(n));
    assert(ahead.len() == pages.len() - n);
    if n < pages.len() {
        assert(ahead[0] == pages[n]);
        if m.page_queue.len() > 0 {
            assert(after.page_queue + rest =~= pages.skip(n + 1)) by {
                assert(after.page_queue + rest =~= ahead.skip(1));
                assert(ahead.skip(1) =~= pages.skip(n + 1));
            }
        } else {
            assert(ahead =~= rest);
            let later = pages_from(m.input, page::page_end(m.input, m.pos as int));
            assert(rest == seq![page::page_at(m.input, m.pos as int)] + later);
            assert(after.page_queue + later =~= pages.skip(n + 1)) by {
                assert(later =~= rest.skip(1));
                assert(rest.skip(1) =~= pages.skip(n + 1));
            }
        }
    } else {
        assert(ahead.len() == 0);
        assert(m.page_queue.len() == 0);
        assert(rest.len() == 0);
    }
}

/// A serial number with pages is that of one of them.
proof fn some_page_has_it(pages: Seq<PageView>, n: int, serial: u32) -> (i: int)
    requires
        0 <= n <= pages.len(),
        of_serial(pages.take(n), serial).len() > 0,
    ensures
        0 <= i < n,
        pages[i].serial == serial,
    decreases n,
{
    if n == 0 {
        0
    } else {
        of_serial_step(pages, n - 1, serial);
        if pages[n - 1].serial == serial {
            n - 1
        } else {
            some_page_has_it(pages, n - 1, serial)
        }
    }
}

/// What taking note of the next page changes: its stream, at `k`, is begun,
/// and new where it was not known.
#[verifier::spinoff_prover]
#[verifier::rlimit(40)]
proof fn routing_begins_the_stream(
    m: Model,
    pages: Seq<PageView>,
    n: int,
    got: Seq<PacketView>,
) -> (k: int)
    requires
        knows_after(m, pages, n, got, None),
        n < pages.len(),
        !is_skeleton_serial(pages, pages[n].serial),
    ensures
        process::routed(m, pages[n]).1 is None,
        ({
            let after = process::routed(m, pages[n]).0;
            &&& after.skel == m.skel
            &&& after.ledger == m.ledger
            &&& after.out_queue == m.out_queue
            &&& 0 <= k < after.states.len()
            &&& after.states[k].serial == pages[n].serial
            &&& k < m.states.len() ==> after.states == m.states.update(
                k,
                if pages[n].is_first() {
                    process::begun(m.states[k])
                } else {
                    m.states[k]
                },
            )
            &&& k < m.states.len() && !pages[n].is_first() ==> m.states[k].bos_processed
            &&& pages[n].is_first() == (of_serial(pages.take(n), pages[n].serial).len() == 0)
            &&& k == m.states.len() ==> {
                &&& pages[n].is_first()
                &&& after.states[k].link_index == after.link
                &&& of_serial(pages.take(n), pages[n].serial).len() == 0
                &&& after.states == m.states.push(after.states[k])
                &&& after.states[k] == relabelled(
                    newborn(m.answers, pages[n]),
                    after.states[k].link_index,
                    true,
                    after.states[k].tagged,
                )
            }
            &&& k <= m.states.len()
        }),
{
    reveal(is_undamaged);
    let page = pages[n];
    let serial = page.serial;
    let after = process::routed(m, page).0;
    demux::slot_holds(m.states, serial);
    let hist = of_serial(pages.take(n), serial);
    assert(pages[n].is_first() == (hist.len() == 0));
    if !page.is_first() {
        let i = some_page_has_it(pages, n, serial);
        assert(m.knows(pages[i].serial));
        let k = demux::slot(m.states, serial)->0;
        assert(is_as_expected(
            m.states[k],
            payloads_of(got + m.out_queue, k),
            pages,
            n,
            m.answers,
            None,
        ));
        assert(m.states[k].bos_processed);
        assert(after.states =~= m.states.update(k, m.states[k]));
        k
    } else {
        first_of_its_serial(pages, n);
        assert(begins_content(m.answers, pages[n]));
        if m.knows(serial) {
            let k = demux::slot(m.states, serial)->0;
            assert(is_as_expected(
                m.states[k],
                payloads_of(got + m.out_queue, k),
                pages,
                n,
                m.answers,
                None,
            ));
            assert(!m.states[k].bos_processed);
            assert(m.states[k].bos_at == page.offset);
            k
        } else {
            let first = first_of(page)->0;
            let linked = process::next_link(m, page.offset);
            let reg = register::with_stream(linked, serial, page.offset, first);
            assert(register::registered(linked, page) == (reg, None::<Error>));
            demux::slot_holds(reg.states, serial);
            let k = m.states.len() as int;
            assert(reg.states[k].serial == serial);
            assert(demux::slot(reg.states, serial) is Some) by {
                assert(demux::is_slot(reg.states, serial, k));
            }
            assert(demux::slot(reg.states, serial) == Some(k));
            assert(after.states =~= m.states.push(after.states[k]));
            k
        }
    }
}

/// After taking note of where the next page stands, its stream is known and
/// begun.
#[verifier::spinoff_prover]
#[verifier::rlimit(40)]
proof fn page_is_routed(m: Model, pages: Seq<PageView>, n: int, got: Seq<PacketView>)
    requires
        knows_after(m, pages, n, got, None),
        n < pages.len(),
        !is_skeleton_serial(pages, pages[n].serial),
    ensures
        process::routed(m, pages[n]).1 is None,
        knows_after(process::routed(m, pages[n]).0, pages, n, got, Some(pages[n].serial)),
        process::routed(m, pages[n]).0.knows(pages[n].serial),
        process::routed(m, pages[n]).0.ledger == m.ledger,
        process::same_source(m, process::routed(m, pages[n]).0),
{
    let serial = pages[n].serial;
    let after = process::routed(m, pages[n]).0;
    let total = got + m.out_queue;
    process::routing_keeps_wf(m, pages[n]);
    let k = routing_begins_the_stream(m, pages, n, got);
    assert(demux::is_slot(after.states, serial, k));
    if k == m.states.len() {
        first_of_its_serial(pages, n);
        payloads_of_others(total, k);
        assert(begins_content(m.answers, pages[n])) by {
            reveal(is_undamaged);
            assert(pages[n].is_first() == (of_serial(pages.take(n), serial).len() == 0));
        }
    }
    assert forall|i: int| 0 <= i < after.states.len() implies is_as_expected(
        #[trigger] after.states[i],
        payloads_of(total, i),
        pages,
        n,
        m.answers,
        Some(serial),
    ) by {
        if i < m.states.len() {
            let st = m.states[i];
            assert(of_serial(pages, st.serial).len() > 0);
            if i != k {
                assert(after.states[i].serial != after.states[k].serial);
            }
        }
    }
    assert forall|i: int| 0 <= i < n implies after.knows(#[trigger] pages[i].serial)
        || is_skeleton_serial(pages, pages[i].serial) by {
        if m.knows(pages[i].serial) {
            demux::slot_holds(m.states, pages[i].serial);
            let j = demux::slot(m.states, pages[i].serial)->0;
            assert(demux::is_slot(after.states, pages[i].serial, j));
        }
    }
}

/// The next page of a stream fits it, and extends what is expected of it.
proof fn page_extends_its_stream(
    pages: Seq<PageView>,
    n: int,
    answers: Seq<Answer>,
    link: u32,
    tagged: bool,
)
    requires
        is_undamaged(pages, answers),
        0 <= n < pages.len(),
    ensures
        ({
            let serial = pages[n].serial;
            let st = relabelled(expected(pages, n, answers, serial), link, true, tagged);
            &&& process::page_fit(st, pages[n]) is Clean
            &&& process::state_after(st, pages[n]) == relabelled(
                expected(pages, n + 1, answers, serial),
                link,
                true,
                process::state_after(st, pages[n]).tagged,
            )
            &&& expected_data(pages, n + 1, answers, serial) == expected_data(
                pages,
                n,
                answers,
                serial,
            ) + process::data_of(st, pages[n])
            &&& of_serial(pages.take(n + 1), serial).len() > 0
        }),
{
    reveal(is_undamaged);
    let serial = pages[n].serial;
    let born = newborn(answers, of_serial(pages, serial)[0]);
    let run = of_serial(pages.take(n + 1), serial);
    of_serial_step(pages, n, serial);
    of_serial_is_a_prefix(pages, n + 1, serial);
    assert(laws::is_stream_run(of_serial(pages, serial)));
    assert(run.drop_last() =~= of_serial(pages.take(n), serial));
    laws::run_state(born, run);
}

/// What one more page adds to the packets of each stream.
proof fn page_adds_its_packets(
    total: Seq<PacketView>,
    stream: StreamView,
    st: StateView,
    shift: u32,
    granule: i64,
    data: Seq<Seq<u8>>,
    i: int,
)
    ensures
        payloads_of(total + process::stamped(stream, st, shift, granule, data), i) == (if i
            == stream.index {
            payloads_of(total, i) + data
        } else {
            payloads_of(total, i)
        }),
{
    let more = process::stamped(stream, st, shift, granule, data);
    payloads_of_more(total, more, i);
    if i == stream.index {
        payloads_of_own(more, i);
        assert(laws::payloads(more) =~= data);
    } else {
        payloads_of_others(more, i);
        assert(payloads_of(total, i) + Seq::<Seq<u8>>::empty() =~= payloads_of(total, i));
    }
}

/// With one more page read, every stream is still as expected.
#[verifier::spinoff_prover]
#[verifier::rlimit(40)]
proof fn page_keeps_expectations(
    m: Model,
    after: Model,
    pages: Seq<PageView>,
    n: int,
    got: Seq<PacketView>,
    k: int,
    data: Seq<Seq<u8>>,
    shift: u32,
)
    requires
        knows_after(m, pages, n, got, Some(pages[n].serial)),
        n < pages.len(),
        !is_skeleton_serial(pages, pages[n].serial),
        demux::is_slot(m.states, pages[n].serial, k),
        after.wf(),
        after.skel == m.skel,
        after.answers == m.answers,
        after.states.len() == m.states.len(),
        after.states[k].serial == m.states[k].serial,
        forall|i: int|
            0 <= i < m.states.len() && i != k ==> #[trigger] after.states[i] == m.states[i],
        is_as_expected(
            after.states[k],
            payloads_of(got + m.out_queue, k) + data,
            pages,
            n + 1,
            m.answers,
            None,
        ),
        after.out_queue == m.out_queue + process::stamped(
            m.streams[k],
            m.states[k],
            shift,
            pages[n].granule,
            data,
        ),
    ensures
        knows_after(after, pages, n + 1, got, None),
{
    let page = pages[n];
    let serial = page.serial;
    let st = m.states[k];
    let more = process::stamped(m.streams[k], st, shift, page.granule, data);
    let total = got + m.out_queue;
    let grown = got + after.out_queue;
    assert(grown =~= total + more);
    assert(m.streams[k].index == k);
    if let Some(sk) = m.skel.skeleton {
        of_serial_step(pages, n, sk.serial);
    }
    assert forall|i: int| 0 <= i < after.states.len() implies is_as_expected(
        #[trigger] after.states[i],
        payloads_of(grown, i),
        pages,
        n + 1,
        m.answers,
        None,
    ) by {
        let s = m.states[i];
        page_adds_its_packets(total, m.streams[k], st, shift, page.granule, data, i);
        if i != k {
            assert(after.states[i] == s);
            assert(s.serial != serial);
            of_serial_step(pages, n, s.serial);
        }
    }
    assert forall|i: int| 0 <= i < n + 1 implies after.knows(#[trigger] pages[i].serial)
        || is_skeleton_serial(pages, pages[i].serial) by {
        if i < n {
            demux::slot_holds(m.states, pages[i].serial);
            if let Some(j) = demux::slot(m.states, pages[i].serial) {
                assert(after.states[j].serial == m.states[j].serial);
                assert(demux::is_slot(after.states, pages[i].serial, j));
            }
        } else {
            assert(demux::is_slot(after.states, serial, k));
        }
    }
    assert forall|i: int| 0 <= i < grown.len() implies (#[trigger] grown[i]).stream_index
        < after.states.len() by {
        if i < total.len() {
            assert(total[i].stream_index < m.states.len());
        }
    }
}

/// Reading the next page of a stream gives what its pages up to it say.
#[verifier::spinoff_prover]
#[verifier::rlimit(40)]
proof fn page_is_read(m: Model, pages: Seq<PageView>, n: int, got: Seq<PacketView>, k: int)
    requires
        knows_after(m, pages, n, got, Some(pages[n].serial)),
        n < pages.len(),
        !is_skeleton_serial(pages, pages[n].serial),
        demux::is_slot(m.states, pages[n].serial, k),
    ensures
        knows_after(process::content_page(m, pages[n], k), pages, n + 1, got, None),
        process::content_page(m, pages[n], k).ledger == m.ledger,
{
    let st = m.states[k];
    let shift = process::granule_shift(m, pages[n].serial, st.theora);
    let data = process::data_of(st, pages[n]);
    assert(is_as_expected(
        st,
        payloads_of(got + m.out_queue, k),
        pages,
        n,
        m.answers,
        Some(pages[n].serial),
    ));
    process::content_keeps_wf(m, pages[n], k);
    page_extends_its_stream(pages, n, m.answers, st.link_index, st.tagged);
    let after = process::content_page(m, pages[n], k);
    page_keeps_expectations(m, after, pages, n, got, k, data, shift);
}

/// What a page of a Skeleton bitstream changes: nothing of any stream. Where
/// it fits the Skeleton that is known, no damage is noted.
#[verifier::spinoff_prover]
#[verifier::rlimit(40)]
pub proof fn skeleton_page_leaves_streams_alone(m: Model, page: PageView)
    requires
        m.wf(),
        !m.knows(page.serial),
        page.is_first() ==> begins_skeleton(page),
        m.skeleton_serial() == Some(page.serial) ==> !reassembly::leaves_gap(
            m.skel.last_seq,
            page,
        ),
    ensures
        process::processed(m, page).1 is None,
        ({
            let after = process::processed(m, page).0;
            &&& after.ledger == m.ledger
            &&& after.states == m.states
            &&& after.out_queue == m.out_queue
            &&& after.skeleton_serial() == m.skeleton_serial() || after.skeleton_serial() == Some(
                page.serial,
            )
            &&& if after.skeleton_serial() == Some(page.serial) {
                after.skel.last_seq == Some(page.seq_no)
            } else {
                after.skel == m.skel
            }
        }),
{
    demux::slot_holds(m.states, page.serial);
    let linked = process::next_link(m, page.offset);
    assert(linked.states == m.states);
    let (after, fault) = process::routed(m, page);
    assert(fault is None);
    assert(after.states == m.states);
    if let Some(sk) = after.skel.skeleton {
        let packets = process::skeleton_join(after.skel, page).0;
        process::skeleton_keeps_its_serial(
            sk,
            process::untaken(after.skel.taken, page.offset, packets),
        );
    }
}

/// A page of a Skeleton bitstream fits what is known of it.
proof fn skeleton_page_fits(m: Model, pages: Seq<PageView>, n: int, got: Seq<PacketView>)
    requires
        knows_after(m, pages, n, got, None),
        n < pages.len(),
        is_skeleton_serial(pages, pages[n].serial),
    ensures
        !m.knows(pages[n].serial),
        pages[n].is_first() ==> begins_skeleton(pages[n]),
        m.skeleton_serial() == Some(pages[n].serial) ==> !reassembly::leaves_gap(
            m.skel.last_seq,
            pages[n],
        ),
{
    reveal(is_undamaged);
    let page = pages[n];
    let serial = page.serial;
    let hist = of_serial(pages.take(n), serial);
    let run = of_serial(pages.take(n + 1), serial);
    of_serial_step(pages, n, serial);
    of_serial_is_a_prefix(pages, n + 1, serial);
    assert(pages[n].is_first() == (hist.len() == 0));
    assert(laws::is_stream_run(of_serial(pages, serial)));
    demux::slot_holds(m.states, serial);
    if page.is_first() {
        first_of_its_serial(pages, n);
    } else {
        let last = run.len() - 1;
        assert(run[last] == page);
        assert(run[last - 1] == hist.last());
        assert(run[last].seq_no == run[last - 1].seq_no.wrapping_add(1));
    }
}

#[verifier::spinoff_prover]
#[verifier::rlimit(40)]
proof fn skeleton_page_is_processed(m: Model, pages: Seq<PageView>, n: int, got: Seq<PacketView>)
    requires
        knows_after(m, pages, n, got, None),
        n < pages.len(),
        is_skeleton_serial(pages, pages[n].serial),
    ensures
        process::processed(m, pages[n]).1 is None,
        knows_after(process::processed(m, pages[n]).0, pages, n + 1, got, None),
        process::processed(m, pages[n]).0.ledger == m.ledger,
        process::same_source(m, process::processed(m, pages[n]).0),
{
    let after = process::processed(m, pages[n]).0;
    let total = got + m.out_queue;
    process::processing_keeps_wf(m, pages[n]);
    skeleton_page_fits(m, pages, n, got);
    skeleton_page_leaves_streams_alone(m, pages[n]);
    if let Some(sk) = after.skel.skeleton {
        of_serial_step(pages, n, sk.serial);
    }
    assert forall|k: int| 0 <= k < after.states.len() implies is_as_expected(
        #[trigger] after.states[k],
        payloads_of(total, k),
        pages,
        n + 1,
        m.answers,
        None,
    ) by {
        assert(is_as_expected(m.states[k], payloads_of(total, k), pages, n, m.answers, None));
        of_serial_step(pages, n, m.states[k].serial);
    }
    assert forall|i: int| 0 <= i < n + 1 implies after.knows(#[trigger] pages[i].serial)
        || is_skeleton_serial(pages, pages[i].serial) by {
        if i < n {
            assert(m.knows(pages[i].serial) || is_skeleton_serial(pages, pages[i].serial));
        }
    }
}

/// Processing the next page gives what the pages up to it say, and notes no
/// damage.
#[verifier::spinoff_prover]
#[verifier::rlimit(40)]
proof fn page_is_processed(m: Model, pages: Seq<PageView>, n: int, got: Seq<PacketView>)
    requires
        knows_after(m, pages, n, got, None),
        n < pages.len(),
    ensures
        process::processed(m, pages[n]).1 is None,
        knows_after(process::processed(m, pages[n]).0, pages, n + 1, got, None),
        process::processed(m, pages[n]).0.ledger == m.ledger,
        process::same_source(m, process::processed(m, pages[n]).0),
{
    if is_skeleton_serial(pages, pages[n].serial) {
        skeleton_page_is_processed(m, pages, n, got);
    } else {
        page_is_routed(m, pages, n, got);
        let after = process::routed(m, pages[n]).0;
        demux::slot_holds(after.states, pages[n].serial);
        page_is_read(after, pages, n, got, demux::slot(after.states, pages[n].serial)->0);
    }
}

/// The chained pages counted are as many as there are.
pub proof fn count_is_not_negative(pages: Seq<PageView>, n: int)
    ensures
        chained(pages, n) >= 0,
    decreases n,
{
    if n > 1 {
        count_is_not_negative(pages, n - 1);
    }
}

/// Pages before one that is early begin streams, and so does that page.
proof fn early_means_first(pages: Seq<PageView>, n: int, serial: u32)
    requires
        0 <= n < pages.len(),
        is_early(pages, n, serial),
    ensures
        pages[n].is_first(),
        n > 0 ==> pages[n - 1].is_first(),
        pages[n].serial != serial ==> is_early(pages, n + 1, serial),
{
    let j = choose|j: int|
        n <= j < pages.len() && (#[trigger] pages[j]).serial == serial && forall|i: int|
            0 <= i <= j ==> (#[trigger] pages[i]).is_first();
    assert(pages[n].is_first());
    if n > 0 {
        assert(pages[n - 1].is_first());
    }
    if pages[n].serial != serial {
        assert(n + 1 <= j);
        assert(pages[j].serial == serial);
    }
}

/// How the serial numbers change with a page: at most by that of the page.
#[verifier::spinoff_prover]
#[verifier::rlimit(40)]
proof fn page_adds_its_serial(m: Model, pages: Seq<PageView>, n: int, got: Seq<PacketView>)
    requires
        knows_after(m, pages, n, got, None),
        n < pages.len(),
    ensures
        ({
            let after = process::processed(m, pages[n]).0;
            &&& forall|k: int|
                0 <= k < after.states.len() ==> {
                    ||| k < m.states.len() && m.states[k].serial == (
                    #[trigger] after.states[k]).serial && m.states[k].link_index
                        == after.states[k].link_index
                    ||| after.states[k].serial == pages[n].serial && pages[n].is_first()
                        && after.states[k].link_index == after.link
                }
            &&& after.skeleton_serial() == m.skeleton_serial() || after.skeleton_serial() == Some(
                pages[n].serial,
            )
            &&& after.link == process::routed(m, pages[n]).0.link
            &&& after.link_starts == process::routed(m, pages[n]).0.link_starts
            &&& after.data_at == process::routed(m, pages[n]).0.data_at
            &&& after.last_bos == process::routed(m, pages[n]).0.last_bos
        }),
{
    let page = pages[n];
    if is_skeleton_serial(pages, page.serial) {
        skeleton_page_fits(m, pages, n, got);
        skeleton_page_leaves_streams_alone(m, page);
    } else {
        page_is_routed(m, pages, n, got);
        let k = routing_begins_the_stream(m, pages, n, got);
        let after = process::routed(m, page).0;
        demux::slot_holds(after.states, page.serial);
    }
}

/// Taking note of a page counts its link.
proof fn page_is_counted(m: Model, pages: Seq<PageView>, n: int, got: Seq<PacketView>)
    requires
        knows_after(m, pages, n, got, None),
        links_counted(m, pages, n),
        n < pages.len(),
    ensures
        ({
            let after = process::routed(m, pages[n]).0;
            &&& after.data_at is Some == !pages[n].is_first()
            &&& n + 1 < pages.len() ==> after.data_at is Some ==> process::is_apart(
                after,
                pages[n + 1].offset,
            )
            &&& after.link == kept_count(chained(pages, n + 1))
            &&& after.link_starts == starts_of(pages, n + 1)
            &&& forall|i: int, j: int|
                n < i < pages.len() && !process::is_behind(
                    after.last_bos,
                    (#[trigger] pages[i]).offset,
                ) && 0 <= j <= i ==> (#[trigger] pages[j]).is_first()
        }),
{
    let page = pages[n];
    count_is_not_negative(pages, n);
    demux::slot_holds(m.states, page.serial);
    first_pages_come_first(pages, n, m.answers);
    if page.is_first() {
        if m.knows(page.serial) {
            let k = demux::slot(m.states, page.serial)->0;
            assert(is_as_expected(
                m.states[k],
                payloads_of(got + m.out_queue, k),
                pages,
                n,
                m.answers,
                None,
            ));
            early_means_first(pages, n, m.states[k].serial);
        } else if m.skeleton_serial() == Some(page.serial) {
            early_means_first(pages, n, page.serial);
        } else {
            let linked = process::next_link(m, page.offset);
            let after = register::registered(linked, page).0;
            assert(after.link == linked.link && after.link_starts == linked.link_starts
                && after.data_at == linked.data_at && after.last_bos == linked.last_bos);
            if !process::is_behind(m.last_bos, page.offset) && n > 0 {
                assert(pages[n - 1].is_first());
            }
        }
    } else if !process::is_behind(m.last_bos, pages[n].offset) {
        assert(pages[n].is_first());
    }
    if n + 1 < pages.len() {
        assert(pages[n].offset < pages[n + 1].offset);
    }
    assert forall|i: int, j: int|
        n < i < pages.len() && !process::is_behind(
            process::routed(m, page).0.last_bos,
            (#[trigger] pages[i]).offset,
        ) && 0 <= j <= i implies (#[trigger] pages[j]).is_first() by {
        assert(pages[n].offset < pages[i].offset);
    }
}

/// What taking note of a page does to the places that links are counted by.
proof fn routing_counts(m: Model, page: PageView)
    requires
        m.data_at matches Some(d) ==> process::is_behind(m.last_bos, d) && (page.is_first() ==> d
            != page.offset),
    ensures
        ({
            let after = process::routed(m, page).0;
            &&& after.last_bos == m.last_bos || page.is_first() && process::is_behind(
                m.last_bos,
                page.offset,
            ) && after.last_bos == Some(page.offset)
            &&& page.is_first() && !m.knows(page.serial) && m.skeleton_serial() != Some(page.serial)
                ==> !process::is_behind(after.last_bos, page.offset)
            &&& after.data_at is None || after.data_at == m.data_at || !page.is_first()
                && after.data_at == Some(page.offset)
            &&& after.data_at matches Some(d) ==> process::is_behind(after.last_bos, d)
        }),
{
    let linked = process::next_link(m, page.offset);
    let with = register::registered(linked, page).0;
    assert(with.last_bos == linked.last_bos && with.data_at == linked.data_at);
}

/// Once a place is behind it stays there, and so does a first page counted.
proof fn counted_stays_counted(m: Model, after: Model, page: PageView, off: u64)
    requires
        !process::is_behind(m.last_bos, off),
        after.last_bos == m.last_bos || process::is_behind(m.last_bos, page.offset)
            && after.last_bos == Some(page.offset),
    ensures
        !process::is_behind(after.last_bos, off),
{
}

/// Processing a page counts it.
#[verifier::spinoff_prover]
proof fn counting_goes_on(m: Model, pages: Seq<PageView>, n: int, got: Seq<PacketView>)
    requires
        knows_after(m, pages, n, got, None),
        links_counted(m, pages, n),
        n < pages.len(),
    ensures
        is_counted_up_to(process::processed(m, pages[n]).0, pages, n + 1),
{
    let page = pages[n];
    let after = process::processed(m, page).0;
    page_adds_its_serial(m, pages, n, got);
    if let Some(d) = m.data_at {
        let y = choose|i: int|
            0 <= i < pages.len() && (#[trigger] pages[i]).offset == d && !pages[i].is_first();
        if y < n {
            assert(pages[y].offset < page.offset);
        } else if y > n {
            assert(page.offset < pages[y].offset);
        }
    }
    routing_counts(m, page);
    first_pages_come_first(pages, n, m.answers);
    assert(page.is_first() ==> !process::is_behind(after.last_bos, page.offset)) by {
        if page.is_first() {
            first_of_its_serial(pages, n);
            demux::slot_holds(m.states, page.serial);
            if m.knows(page.serial) {
                let k = demux::slot(m.states, page.serial)->0;
                assert(start_is_counted(m, pages, m.states[k].serial));
                counted_stays_counted(m, after, page, page.offset);
            } else if m.skeleton_serial() == Some(page.serial) {
                counted_stays_counted(m, after, page, page.offset);
            }
        }
    }
    assert forall|i: int| 0 <= i < n + 1 && (#[trigger] pages[i]).is_first() implies
        !process::is_behind(after.last_bos, pages[i].offset) by {
        if i < n {
            counted_stays_counted(m, after, page, pages[i].offset);
        }
    }
    assert(start_is_counted(after, pages, page.serial)) by {
        start_is_among(pages, n, m.answers);
    }
    assert forall|k: int| 0 <= k < after.states.len() implies start_is_counted(
        after,
        pages,
        (#[trigger] after.states[k]).serial,
    ) by {
        let serial = after.states[k].serial;
        if serial != page.serial {
            assert(start_is_counted(m, pages, m.states[k].serial));
            counted_stays_counted(m, after, page, of_serial(pages, serial)[0].offset);
        }
    }
    if let Some(sk) = after.skel.skeleton {
        if sk.serial != page.serial {
            assert(m.skeleton_serial() == Some(sk.serial));
            counted_stays_counted(m, after, page, of_serial(pages, sk.serial)[0].offset);
        }
    }
    if after.last_bos == Some(page.offset) {
        assert(pages[n].offset == page.offset);
    }
}

/// The first page of a serial number that some page has stands no later.
proof fn start_is_among(pages: Seq<PageView>, n: int, answers: Seq<Answer>)
    requires
        is_undamaged(pages, answers),
        0 <= n < pages.len(),
    ensures
        of_serial(pages, pages[n].serial).len() > 0,
        exists|i: int|
            0 <= i <= n && (#[trigger] pages[i]).is_first() && pages[i] == of_serial(
                pages,
                pages[n].serial,
            )[0],
    decreases n,
{
    first_pages_come_first(pages, n, answers);
    if of_serial(pages.take(n), pages[n].serial).len() == 0 {
        first_of_its_serial(pages, n);
    } else {
        let i = some_page_has_it(pages, n, pages[n].serial);
        start_is_among(pages, i, answers);
    }
}

/// The link that the bitstream begins in that a page begins.
pub proof fn its_link_is(pages: Seq<PageView>, n: int, answers: Seq<Answer>)
    requires
        is_undamaged(pages, answers),
        0 <= n < pages.len(),
        pages[n].is_first(),
    ensures
        is_in_its_link(kept_count(chained(pages, n + 1)), pages[n].serial, pages),
{
    reveal(is_in_its_link);
    let serial = pages[n].serial;
    first_pages_come_first(pages, n, answers);
    first_of_its_serial(pages, n);
    assert forall|i: int|
        0 <= i < pages.len() && (#[trigger] pages[i]).is_first() && pages[i].serial
            == serial implies i == n by {
        first_pages_come_first(pages, i, answers);
        if i < n {
            serial_is_listed(pages, i, n);
        } else if n < i {
            serial_is_listed(pages, n, i);
        }
    }
}

/// The serial number of a page has pages behind it.
proof fn serial_is_listed(pages: Seq<PageView>, i: int, n: int)
    requires
        0 <= i < n <= pages.len(),
    ensures
        of_serial(pages.take(n), pages[i].serial).len() > 0,
    decreases n,
{
    of_serial_step(pages, n - 1, pages[i].serial);
    if i < n - 1 {
        serial_is_listed(pages, i, n - 1);
    }
}

/// Pages that all begin streams begin one link.
pub proof fn first_pages_begin_one_link(pages: Seq<PageView>, n: int)
    requires
        0 <= n <= pages.len(),
        forall|j: int| 0 <= j < n ==> (#[trigger] pages[j]).is_first(),
    ensures
        chained(pages, n) == 0,
        starts_of(pages, n).len() == 0,
    decreases n,
{
    if n > 1 {
        first_pages_begin_one_link(pages, n - 1);
        assert(pages[n - 2].is_first());
    }
}

/// Processing a page keeps the count of links right.
#[verifier::spinoff_prover]
#[verifier::rlimit(40)]
proof fn links_stay_counted(m: Model, pages: Seq<PageView>, n: int, got: Seq<PacketView>)
    requires
        knows_after(m, pages, n, got, None),
        links_counted(m, pages, n),
        n < pages.len(),
    ensures
        links_counted(process::processed(m, pages[n]).0, pages, n + 1),
{
    let after = process::processed(m, pages[n]).0;
    counting_goes_on(m, pages, n, got);
    page_adds_its_serial(m, pages, n, got);
    page_is_counted(m, pages, n, got);
    if pages[n].is_first() {
        its_link_is(pages, n, m.answers);
    }
    of_serial_step(pages, n, pages[n].serial);
    assert forall|k: int|
        0 <= k < after.states.len() && of_serial(
            pages.take(n + 1),
            (#[trigger] after.states[k]).serial,
        ).len() == 0 implies is_early(pages, n + 1, after.states[k].serial) by {
        let serial = after.states[k].serial;
        assert(serial != pages[n].serial);
        assert(m.states[k].serial == serial);
        of_serial_step(pages, n, serial);
        early_means_first(pages, n, serial);
    }
    if let Some(sk) = after.skel.skeleton {
        of_serial_step(pages, n, sk.serial);
        if of_serial(pages.take(n + 1), sk.serial).len() == 0 {
            assert(m.skeleton_serial() == Some(sk.serial));
            early_means_first(pages, n, sk.serial);
        }
    }
}

/// Whether the demuxer stands after the first `n` of `pages`, with `got`
/// delivered: it knows what they say and has counted their links, and the
/// others are ahead of it.
pub open spec fn stands_after(
    m: Model,
    pages: Seq<PageView>,
    n: int,
    got: Seq<PacketView>,
) -> bool {
    &&& knows_after(m, pages, n, got, None)
    &&& lie_ahead(m, pages, n)
    &&& links_counted(m, pages, n)
}

/// What is known does not depend on where pages come from.
proof fn knowing_is_not_reading(
    m: Model,
    after: Model,
    pages: Seq<PageView>,
    n: int,
    got: Seq<PacketView>,
)
    requires
        knows_after(m, pages, n, got, None),
        links_counted(m, pages, n),
        after.wf(),
        after == (Model {
            pos: after.pos,
            page_queue: after.page_queue,
            index: after.index,
            ledger: after.ledger,
            ..m
        }),
    ensures
        knows_after(after, pages, n, got, None),
        links_counted(after, pages, n),
{
    assert forall|i: int| 0 <= i < n implies after.knows(#[trigger] pages[i].serial)
        || is_skeleton_serial(pages, pages[i].serial) by {
        assert(m.knows(pages[i].serial) || is_skeleton_serial(pages, pages[i].serial));
    }
}

/// Taking and processing a page leads from one to the next.
#[verifier::spinoff_prover]
#[verifier::rlimit(40)]
proof fn page_is_done(m: Model, pages: Seq<PageView>, n: int, got: Seq<PacketView>)
    requires
        stands_after(m, pages, n, got),
        n < pages.len(),
    ensures
        session::took_page(m).1 == Some(pages[n]),
        ({
            let (after, fault) = process::processed(session::took_page(m).0, pages[n]);
            &&& fault is None
            &&& after.ledger == m.ledger
            &&& after.answers == m.answers
            &&& after.input == m.input
            &&& stands_after(after, pages, n + 1, got)
        }),
{
    page_is_taken(m, pages, n);
    let taken = session::took_page(m).0;
    knowing_is_not_reading(m, taken, pages, n, got);
    page_is_processed(taken, pages, n, got);
    links_stay_counted(taken, pages, n, got);
}

// ---------------------------------------------------------------------------
// Reading to the end
// ---------------------------------------------------------------------------

/// Pages that wait and bytes that are left.
pub open spec fn still_to_read(m: Model) -> int {
    m.page_queue.len() + if m.pos < m.input.len() {
        m.input.len() - m.pos
    } else {
        0
    }
}

/// Delivering a packet takes one that waits, or reads on.
pub proof fn delivering_advances(m: Model)
    requires
        m.wf(),
    ensures
        session::delivered(m).0.wf(),
        0 <= still_to_read(session::delivered(m).0) <= still_to_read(m),
        session::delivered(m).1 is Ok ==> still_to_read(session::delivered(m).0)
            < still_to_read(m) || session::delivered(m).0.out_queue.len() < m.out_queue.len(),
    decreases still_to_read(m),
{
    if m.out_queue.len() == 0 {
        session::taking_keeps_wf(m);
        reader::reading_advances(m);
        if let (after, Some(page)) = session::took_page(m) {
            process::processing_keeps_wf(after, page);
            let done = process::processed(after, page).0;
            assert(still_to_read(done) < still_to_read(m));
            if process::processed(after, page).1 is None {
                delivering_advances(done);
            }
        } else {
            let after = session::took_page(m).0;
            reader::reading_moves_forward(m);
            assert(m.pos <= after.pos);
        }
    }
}

/// Everything that is delivered until nothing more is: the demuxer at the
/// end, the packets, and what was said instead of a further packet.
pub open spec fn all_packets(m: Model) -> (Model, Seq<PacketView>, Error)
    decreases still_to_read(m), m.out_queue.len(),
    when m.wf()
    via all_packets_end
{
    match session::delivered(m) {
        (after, Ok(packet)) => {
            let (end, rest, e) = all_packets(after);
            (end, seq![packet] + rest, e)
        },
        (after, Err(e)) => (after, Seq::empty(), e),
    }
}

#[via_fn]
proof fn all_packets_end(m: Model) {
    delivering_advances(m);
}

/// Delivering a packet that waits leaves the demuxer at the same page.
proof fn waiting_packet_is_delivered(
    m: Model,
    pages: Seq<PageView>,
    n: int,
    got: Seq<PacketView>,
)
    requires
        stands_after(m, pages, n, got),
        m.out_queue.len() > 0,
    ensures
        session::delivered(m) == (
            Model { out_queue: m.out_queue.skip(1), ..m },
            Ok::<PacketView, Error>(m.out_queue[0]),
        ),
        stands_after(
            (Model { out_queue: m.out_queue.skip(1), ..m }),
            pages,
            n,
            got.push(m.out_queue[0]),
        ),
{
    let after = Model { out_queue: m.out_queue.skip(1), ..m };
    assert(got.push(m.out_queue[0]) + after.out_queue =~= got + m.out_queue);
    assert forall|i: int| 0 <= i < n implies after.knows(#[trigger] pages[i].serial)
        || is_skeleton_serial(pages, pages[i].serial) by {
        assert(m.knows(pages[i].serial) || is_skeleton_serial(pages, pages[i].serial));
    }
    assert(after.wf());
}

/// Delivering a packet where none waits goes on with the next page.
proof fn delivery_goes_on(m: Model, after: Model, page: PageView)
    requires
        m.wf(),
        m.out_queue.len() == 0,
        session::took_page(m).1 == Some(page),
        process::processed(session::took_page(m).0, page) == (after, None::<Error>),
    ensures
        session::delivered(m) == session::delivered(after),
{
    session::taking_keeps_wf(m);
    process::processing_keeps_wf(session::took_page(m).0, page);
    assert(session::delivered(m) == session::delivered(after));
}

/// Delivering a packet leads from one page to a later one.
#[verifier::spinoff_prover]
#[verifier::rlimit(40)]
pub proof fn packet_is_delivered(
    m: Model,
    pages: Seq<PageView>,
    n: int,
    got: Seq<PacketView>,
) -> (k: int)
    requires
        stands_after(m, pages, n, got),
    ensures
        session::delivered(m).0.ledger == m.ledger,
        session::delivered(m).0.answers == m.answers,
        session::delivered(m).0.input == m.input,
        match session::delivered(m) {
            (after, Ok(packet)) => stands_after(after, pages, k, got.push(packet)),
            (after, Err(e)) => {
                &&& e == Error::Eof
                &&& stands_after(after, pages, pages.len() as int, got)
                &&& after.out_queue.len() == 0
            },
        },
    decreases pages.len() - n,
{
    if m.out_queue.len() > 0 {
        waiting_packet_is_delivered(m, pages, n, got);
        n
    } else if n < pages.len() {
        page_is_done(m, pages, n, got);
        let after = process::processed(session::took_page(m).0, pages[n]).0;
        delivery_goes_on(m, after, pages[n]);
        packet_is_delivered(after, pages, n + 1, got)
    } else {
        page_is_taken(m, pages, n);
        n
    }
}

/// Reading to the end leads to the last page.
proof fn packets_are_delivered(m: Model, pages: Seq<PageView>, n: int, got: Seq<PacketView>)
    requires
        stands_after(m, pages, n, got),
    ensures
        ({
            let (end, rest, e) = all_packets(m);
            &&& e == Error::Eof
            &&& end.ledger == m.ledger
            &&& end.answers == m.answers
            &&& end.input == m.input
            &&& end.out_queue.len() == 0
            &&& stands_after(end, pages, pages.len() as int, got + rest)
        }),
    decreases still_to_read(m), m.out_queue.len(),
{
    let k = packet_is_delivered(m, pages, n, got);
    delivering_advances(m);
    match session::delivered(m) {
        (after, Ok(packet)) => {
            packets_are_delivered(after, pages, k, got.push(packet));
            let rest = all_packets(after).1;
            assert(got.push(packet) + rest =~= got + (seq![packet] + rest));
        },
        (after, Err(e)) => {
            assert(got + Seq::<PacketView>::empty() =~= got);
        },
    }
}

// ---------------------------------------------------------------------------
// Opening
// ---------------------------------------------------------------------------

/// Reading on for headers leads from one page to a later one.
#[verifier::spinoff_prover]
#[verifier::rlimit(40)]
proof fn headers_are_collected(
    m: Model,
    pages: Seq<PageView>,
    n: int,
    got: Seq<PacketView>,
    budget: int,
) -> (k: int)
    requires
        stands_after(m, pages, n, got),
    ensures
        session::headers_collected(m, budget).1 is None,
        session::headers_collected(m, budget).0.ledger == m.ledger,
        session::headers_collected(m, budget).0.answers == m.answers,
        session::headers_collected(m, budget).0.input == m.input,
        stands_after(session::headers_collected(m, budget).0, pages, k, got),
    decreases budget,
{
    if budget <= 0 || !session::awaits_headers(m) {
        n
    } else if n < pages.len() {
        page_is_done(m, pages, n, got);
        let after = process::processed(session::took_page(m).0, pages[n]).0;
        assert(session::headers_collected(m, budget) == session::headers_collected(
            after,
            budget - 1,
        ));
        headers_are_collected(after, pages, n + 1, got, budget - 1)
    } else {
        page_is_taken(m, pages, n);
        n
    }
}

/// Adding tags changes nothing of what reading depends on.
proof fn tags_change_no_reading(
    m: Model,
    pages: Seq<PageView>,
    n: int,
    got: Seq<PacketView>,
    k: int,
)
    requires
        stands_after(m, pages, n, got),
        0 <= k < m.states.len(),
    ensures
        stands_after(process::with_tags(m, k), pages, n, got),
        process::with_tags(m, k).streams == m.streams,
        process::with_tags(m, k).ledger == m.ledger,
        process::with_tags(m, k).answers == m.answers,
        process::with_tags(m, k).input == m.input,
        process::with_tags(m, k).link == m.link,
{
    let after = process::with_tags(m, k);
    register::updating_keeps_wf(m, k, after.states[k]);
    let mid = Model { states: m.states.update(k, after.states[k]), ..m };
    assert(after.skeleton_serial() == mid.skeleton_serial());
    assert(after.wf());
    let total = got + m.out_queue;
    assert forall|i: int| 0 <= i < after.states.len() implies is_as_expected(
        #[trigger] after.states[i],
        payloads_of(total, i),
        pages,
        n,
        m.answers,
        None,
    ) by {
        assert(is_as_expected(m.states[i], payloads_of(total, i), pages, n, m.answers, None));
    }
    assert forall|i: int| 0 <= i < n implies after.knows(#[trigger] pages[i].serial)
        || is_skeleton_serial(pages, pages[i].serial) by {
        demux::slots_stay(m.states, k, after.states[k], pages[i].serial);
        assert(m.states.update(k, m.states[k]) =~= m.states);
        assert(m.knows(pages[i].serial) || is_skeleton_serial(pages, pages[i].serial));
    }
    assert forall|i: int|
        0 <= i < after.states.len() && of_serial(
            pages.take(n),
            (#[trigger] after.states[i]).serial,
        ).len() == 0 implies is_early(pages, n, after.states[i].serial) by {
        assert(m.states[i].serial == after.states[i].serial);
    }
}

proof fn all_tags_change_no_reading(
    m: Model,
    pages: Seq<PageView>,
    n: int,
    got: Seq<PacketView>,
    k: int,
)
    requires
        stands_after(m, pages, n, got),
        0 <= k <= m.streams.len(),
    ensures
        stands_after(session::with_tags_of(m, k), pages, n, got),
        session::with_tags_of(m, k).streams == m.streams,
        session::with_tags_of(m, k).ledger == m.ledger,
        session::with_tags_of(m, k).answers == m.answers,
        session::with_tags_of(m, k).input == m.input,
    decreases k,
{
    if k > 0 {
        all_tags_change_no_reading(m, pages, n, got, k - 1);
        tags_change_no_reading(session::with_tags_of(m, k - 1), pages, n, got, k - 1);
    }
}

/// Setup bytes and tags change nothing of what reading depends on.
proof fn setup_changes_no_reading(m: Model, pages: Seq<PageView>, n: int, got: Seq<PacketView>)
    requires
        stands_after(m, pages, n, got),
    ensures
        stands_after(
            session::with_metadata(session::with_extradata(m)),
            pages,
            n,
            got,
        ),
        session::with_metadata(session::with_extradata(m)).ledger == m.ledger,
        session::with_metadata(session::with_extradata(m)).answers == m.answers,
        session::with_metadata(session::with_extradata(m)).input == m.input,
{
    let after = session::with_extradata(m);
    assert(after.wf()) by {
        assert forall|i: int| 0 <= i < after.streams.len() implies (
        #[trigger] after.streams[i]).index == i by {
            assert(m.streams[i].index == i);
        }
    }
    assert forall|i: int| 0 <= i < n implies after.knows(#[trigger] pages[i].serial)
        || is_skeleton_serial(pages, pages[i].serial) by {
        assert(m.knows(pages[i].serial) || is_skeleton_serial(pages, pages[i].serial));
    }
    all_tags_change_no_reading(after, pages, n, got, after.streams.len() as int);
}

/// Pages that stand end to end stand one behind the other.
pub proof fn pages_stand_in_order(s: Seq<u8>, p: int)
    requires
        s.len() <= usize::MAX,
    ensures
        are_in_order(pages_from(s, p)),
        forall|i: int|
            0 <= i < pages_from(s, p).len() ==> p <= (#[trigger] pages_from(s, p)[i]).offset
                < s.len(),
    decreases s.len() - p,
{
    let all = pages_from(s, p);
    if 0 <= p < s.len() && page::is_page(s, p) {
        page::body_len_nonneg(page::lacing_at(s, p));
        let end = page::page_end(s, p);
        pages_stand_in_order(s, end);
        let later = pages_from(s, end);
        assert(all == seq![page::page_at(s, p)] + later);
        assert(all[0].offset == p);
        assert forall|i: int| 0 < i < all.len() implies #[trigger] all[i] == later[i - 1] by {}
        assert forall|i: int, j: int| 0 <= i < j < all.len() implies (#[trigger] all[i]).offset < (
        #[trigger] all[j]).offset by {
            if i > 0 {
                assert(later[i - 1].offset < later[j - 1].offset);
            } else {
                assert(end <= later[j - 1].offset);
            }
        }
        assert forall|i: int| 0 <= i < all.len() implies p <= (#[trigger] all[i]).offset
            < s.len() by {
            if i > 0 {
                assert(end <= later[i - 1].offset);
            }
        }
    }
}

/// A page that waits in the queue was the next one ahead.
proof fn page_is_queued(m: Model, pages: Seq<PageView>)
    requires
        m.wf(),
        lie_ahead(m, pages, 0),
        m.pos < m.input.len(),
    ensures
        reader::after_read(m).1 == Some(pages[m.page_queue.len() as int]),
        m.page_queue.len() < pages.len(),
        m.pos < reader::after_read(m).0.pos <= m.input.len(),
        reader::after_read(m).0.wf(),
        reader::only_read(m, reader::after_read(m).0),
        reader::after_read(m).0.ledger == m.ledger,
        session::queued(reader::after_read(m).0, pages[m.page_queue.len() as int]).wf(),
        pages[m.page_queue.len() as int].wf(),
        lie_ahead(
            session::queued(reader::after_read(m).0, pages[m.page_queue.len() as int]),
            pages,
            0,
        ),
{
    laws::undamaged_input_reads_page_by_page(m);
    reader::reading_moves_forward(m);
    session::queueing_keeps_wf(reader::after_read(m).0, page::page_at(m.input, m.pos as int));
    let p = m.pos as int;
    let rest = pages_from(m.input, p);
    let page = page::page_at(m.input, p);
    let later = pages_from(m.input, page::page_end(m.input, p));
    assert(rest == seq![page] + later);
    assert(m.page_queue + rest =~= pages.skip(0));
    assert(pages.skip(0) =~= pages);
    assert((m.page_queue + rest)[m.page_queue.len() as int] == page);
    assert(m.page_queue.push(page) + later =~= m.page_queue + rest);
}

/// The run of beginning-of-stream pages at the start is read without fault,
/// and nothing is processed yet.
#[verifier::spinoff_prover]
#[verifier::rlimit(40)]
proof fn streams_are_found(m: Model, pages: Seq<PageView>, j: int)
    requires
        stands_after(m, pages, 0, Seq::empty()),
        m.out_queue.len() == 0,
        0 <= j < pages.len(),
        begins_content(m.answers, pages[j]),
        forall|i: int| 0 <= i <= j ==> (#[trigger] pages[i]).is_first(),
        forall|i: int| 0 <= i < m.page_queue.len() ==> (#[trigger] pages[i]).is_first(),
        m.page_queue.len() > j ==> m.streams.len() > 0,
    ensures
        session::bos_section(m).1 is None,
        session::bos_section(m).0.ledger == m.ledger,
        session::bos_section(m).0.answers == m.answers,
        session::bos_section(m).0.input == m.input,
        stands_after(session::bos_section(m).0, pages, 0, Seq::empty()),
    decreases m.input.len() - m.pos,
{
    let none = Seq::<PacketView>::empty();
    if m.pos < m.input.len() {
        page_is_queued(m, pages);
        let q = m.page_queue.len() as int;
        let page = pages[q];
        let after = reader::after_read(m).0;
        knowing_is_not_reading(m, after, pages, 0, none);
        first_pages_come_first(pages, q, m.answers);
        if !page.is_first() {
            let waits = session::queued(after, page);
            knowing_is_not_reading(m, waits, pages, 0, none);
            assert(m.streams.len() > 0);
            assert(session::bos_section(m) == (waits, None::<Error>));
        } else if after.knows(page.serial) {
            let waits = session::queued(after, page);
            knowing_is_not_reading(m, waits, pages, 0, none);
            known_streams_are_some(after, page.serial);
            assert(session::bos_section(m) == session::bos_section(waits));
            streams_are_found(waits, pages, j);
        } else {
            stream_is_found(after, pages, q);
            let with = register::registered(
                process::next_link(after, page.offset),
                page,
            ).0;
            let waits = session::queued(with, page);
            session::queueing_keeps_wf(with, page);
            knowing_is_not_reading(with, waits, pages, 0, none);
            assert(session::bos_section(m) == session::bos_section(waits));
            streams_are_found(waits, pages, j);
        }
    } else {
        laws::undamaged_input_reads_page_by_page(m);
        assert(m.page_queue + pages_from(m.input, m.pos as int) =~= m.page_queue);
        assert(pages.skip(0) =~= pages);
    }
}

/// A page begins a stream exactly where none of its serial number came before.
pub proof fn first_pages_come_first(pages: Seq<PageView>, q: int, answers: Seq<Answer>)
    requires
        is_undamaged(pages, answers),
        0 <= q < pages.len(),
    ensures
        pages[q].is_first() == (of_serial(pages.take(q), pages[q].serial).len() == 0),
{
    reveal(is_undamaged);
}

/// Where a serial number is known there is a stream.
proof fn known_streams_are_some(m: Model, serial: u32)
    requires
        m.wf(),
        m.knows(serial),
    ensures
        m.streams.len() > 0,
{
    demux::slot_holds(m.states, serial);
}

/// A stream or Skeleton that is found is as its first page says.
#[verifier::spinoff_prover]
#[verifier::rlimit(40)]
proof fn stream_is_found(m: Model, pages: Seq<PageView>, q: int)
    requires
        knows_after(m, pages, 0, Seq::empty(), None),
        links_counted(m, pages, 0),
        m.out_queue.len() == 0,
        0 <= q < pages.len(),
        forall|i: int| 0 <= i <= q ==> (#[trigger] pages[i]).is_first(),
        of_serial(pages.take(q), pages[q].serial).len() == 0,
        !m.knows(pages[q].serial),
    ensures
        ({
            let (with, fault) = register::registered(
                process::next_link(m, pages[q].offset),
                pages[q],
            );
            &&& fault is None
            &&& with == (Model {
                streams: with.streams,
                states: with.states,
                skel: with.skel,
                last_bos: with.last_bos,
                ..m
            })
            &&& with.streams.len() >= m.streams.len()
            &&& begins_content(m.answers, pages[q]) ==> with.streams.len() > 0
            &&& knows_after(with, pages, 0, Seq::empty(), None)
            &&& links_counted(with, pages, 0)
        }),
{
    let page = pages[q];
    assert(is_early(pages, 0, page.serial)) by {
        assert(pages[q].is_first());
    }
    let counted = process::next_link(m, page.offset);
    assert(counted.skeleton_serial() == m.skeleton_serial());
    assert(counted.wf());
    assert(counted.knows(page.serial) == m.knows(page.serial));
    let with = register::registered(counted, page).0;
    assert(begins_content(m.answers, page) || begins_skeleton(page)) by {
        reveal(is_undamaged);
        assert(begins_content(m.answers, pages[q]) || begins_skeleton(pages[q]));
    }
    register::registering_keeps_wf(counted, page);
    first_of_its_serial(pages, q);
    its_link_is(pages, q, m.answers);
    first_pages_begin_one_link(pages, q + 1);
    assert(pages.take(0).len() == 0);
    let total = Seq::<PacketView>::empty() + with.out_queue;
    assert forall|k: int| 0 <= k < with.states.len() implies is_as_expected(
        #[trigger] with.states[k],
        payloads_of(total, k),
        pages,
        0,
        m.answers,
        None,
    ) by {
        if k < m.states.len() {
            assert(with.states[k] == m.states[k]);
        }
    }
    assert forall|k: int| 0 <= k < with.states.len() implies is_early(
        pages,
        0,
        (#[trigger] with.states[k]).serial,
    ) by {
        if k < m.states.len() {
            assert(with.states[k] == m.states[k]);
        }
    }
}

/// Opening an undamaged bitstream finds its streams and stands behind some of
/// its pages, with none of their packets delivered.
#[verifier::spinoff_prover]
#[verifier::rlimit(40)]
pub proof fn opening_stands(s: Seq<u8>, pos: u64, answers: Seq<Answer>) -> (n: int)
    requires
        s.len() <= usize::MAX,
        pos < s.len(),
        laws::is_chain(s, pos as int),
        is_undamaged(pages_from(s, pos as int), answers),
        starts_with_content(pages_from(s, pos as int), answers),
    ensures
        ({
            let (m, fault) = session::opened(demux::fresh(s, pos, answers));
            &&& fault is None
            &&& m.ledger == damage::empty_ledger()
            &&& m.answers == answers
            &&& m.input == s
            &&& stands_after(m, pages_from(s, pos as int), n, Seq::empty())
        }),
{
    let pages = pages_from(s, pos as int);
    let none = Seq::<PacketView>::empty();
    let start = demux::fresh(s, pos, answers);
    assert(pages == seq![page::page_at(s, pos as int)] + pages_from(
        s,
        page::page_end(s, pos as int),
    ));
    pages_stand_in_order(s, pos as int);
    assert(start.page_queue + pages =~= pages.skip(0));
    assert(stands_after(start, pages, 0, none));
    let j = choose|j: int|
        0 <= j < pages.len() && begins_content(answers, #[trigger] pages[j]) && forall|i: int|
            0 <= i <= j ==> (#[trigger] pages[i]).is_first();
    streams_are_found(start, pages, j);
    let found = session::bos_section(start).0;
    let n = headers_are_collected(
        found,
        pages,
        0,
        none,
        session::HEADER_SECTION_MAX_PAGES as int,
    );
    let done = session::headers_collected(
        found,
        session::HEADER_SECTION_MAX_PAGES as int,
    ).0;
    setup_changes_no_reading(done, pages, n, none);
    n
}

/// An undamaged bitstream is read back whole: it opens without fault, every
/// stream in it is found, and reading to the end gives, stream by stream, all
/// of its packets behind the headers, in order and byte for byte. Pages of a
/// Skeleton give no packets. No damage is noted on the way, chained links are
/// counted, and every stream belongs to the link that it begins in.
#[verifier::spinoff_prover]
#[verifier::rlimit(40)]
pub proof fn undamaged_bitstreams_are_read_back(s: Seq<u8>, pos: u64, answers: Seq<Answer>)
    requires
        s.len() <= usize::MAX,
        pos < s.len(),
        laws::is_chain(s, pos as int),
        is_undamaged(pages_from(s, pos as int), answers),
        starts_with_content(pages_from(s, pos as int), answers),
    ensures
        session::opened(demux::fresh(s, pos, answers)).1 is None,
        session::opened(demux::fresh(s, pos, answers)).0.wf(),
        ({
            let pages = pages_from(s, pos as int);
            let (end, packets, e) = all_packets(session::opened(demux::fresh(s, pos, answers)).0);
            &&& e == Error::Eof
            &&& end.ledger == damage::empty_ledger()
            &&& end.link == kept_count(chained(pages, pages.len() as int))
            &&& forall|k: int|
                0 <= k < end.states.len() ==> is_in_its_link(
                    (#[trigger] end.states[k]).link_index,
                    end.states[k].serial,
                    pages,
                )
            &&& forall|i: int|
                0 <= i < pages.len() ==> end.knows(#[trigger] pages[i].serial)
                    || is_skeleton_serial(pages, pages[i].serial)
            &&& forall|k: int|
                0 <= k < end.states.len() ==> {
                    let own = of_serial(pages, (#[trigger] end.states[k]).serial);
                    let whole = reassembly::ended(
                        reassembly::all_lacing(own),
                        reassembly::all_data(own),
                    );
                    let take = process::least(
                        newborn(answers, own[0]).headers_remaining as int,
                        whole.len() as int,
                    );
                    &&& end.states[k].header_packets == whole.take(take)
                    &&& payloads_of(packets, k) == whole.skip(take)
                }
        }),
{
    let pages = pages_from(s, pos as int);
    let none = Seq::<PacketView>::empty();
    let n = opening_stands(s, pos, answers);
    let m = session::opened(demux::fresh(s, pos, answers)).0;
    packets_are_delivered(m, pages, n, none);
    let (end, packets, e) = all_packets(m);
    let total = (none + packets) + end.out_queue;
    assert(total =~= packets);
    assert(pages.take(pages.len() as int) =~= pages);
    assert forall|k: int| 0 <= k < end.states.len() implies {
        let own = of_serial(pages, (#[trigger] end.states[k]).serial);
        let whole = reassembly::ended(reassembly::all_lacing(own), reassembly::all_data(own));
        let take = process::least(
            newborn(answers, own[0]).headers_remaining as int,
            whole.len() as int,
        );
        &&& end.states[k].header_packets == whole.take(take)
        &&& payloads_of(packets, k) == whole.skip(take)
    } by {
        let own = of_serial(pages, end.states[k].serial);
        assert(laws::is_stream_run(own)) by {
            reveal(is_undamaged);
        }
        let born = newborn(answers, own[0]);
        laws::run_state(born, own);
        reassembly::page_boundaries_do_not_matter(own);
        let whole = reassembly::joined(own).0;
        let take = process::least(born.headers_remaining as int, whole.len() as int);
        assert(born.header_packets + whole.take(take) =~= whole.take(take));
    }
}

} // verus!
