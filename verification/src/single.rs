//! Files of a single link: reading and indexing count one link, whatever else
//! may be wrong with the file.
use crate::damage;
use crate::demux;
use crate::demux::{Answer, Model};
use crate::journey;
use crate::journey::Move;
use crate::laws;
use crate::page;
use crate::page::PageView;
use crate::process;
use crate::reader;
use crate::register;
use crate::scan;
use crate::seek_index;
use crate::session;
use crate::whole;
use vstd::prelude::*;

verus! {

/// Whether one link has been counted, every stream is in it, and the pages
/// that wait are among `pages`.
pub open spec fn has_one_link(m: Model, pages: Seq<PageView>) -> bool {
    &&& journey::is_one_link(m, pages)
    &&& m.link_starts.len() == 0
    &&& forall|i: int|
        0 <= i < m.page_queue.len() ==> pages.contains(#[trigger] m.page_queue[i])
}

/// Whether the demuxer reads the pages of a file one after the other, and has
/// counted one link.
pub open spec fn reads_on(m: Model, pages: Seq<PageView>) -> bool {
    &&& m.wf()
    &&& pages == whole::pages_from(m.input, 0)
    &&& laws::is_chain(m.input, 0)
    &&& m.pos >= m.input.len() || journey::is_boundary(m.input, m.pos as int)
    &&& has_one_link(m, pages)
}

/// Counting a page of a single link begins no other.
proof fn counting_begins_none(m: Model, pages: Seq<PageView>, page: PageView)
    requires
        journey::is_single(pages),
        whole::are_in_order(pages),
        has_one_link(m, pages),
        pages.contains(page),
    ensures
        page.is_first() ==> has_one_link(process::next_link(m, page.offset), pages),
        !page.is_first() ==> has_one_link(process::past_data(m, page.offset), pages),
{
    let i = choose|i: int| 0 <= i < pages.len() && pages[i] == page;
    journey::single_stays_single(m, pages, i);
}

/// Registering a stream files it under the one link.
proof fn registering_files_under_it(m: Model, pages: Seq<PageView>, page: PageView)
    requires
        has_one_link(m, pages),
    ensures
        has_one_link(register::registered(m, page).0, pages),
{
    let after = register::registered(m, page).0;
    assert forall|k: int| 0 <= k < after.states.len() implies (
    #[trigger] after.states[k]).link_index == 0 by {
        if k < m.states.len() {
            assert(after.states[k] == m.states[k]);
            assert(m.states[k].link_index == 0);
        }
    }
}

/// Processing a page of a single link counts no other.
proof fn processing_counts_none(m: Model, pages: Seq<PageView>, page: PageView)
    requires
        m.wf(),
        journey::is_single(pages),
        whole::are_in_order(pages),
        has_one_link(m, pages),
        pages.contains(page),
    ensures
        has_one_link(process::processed(m, page).0, pages),
{
    counting_begins_none(m, pages, page);
    let linked = process::next_link(m, page.offset);
    demux::slot_holds(m.states, page.serial);
    if page.is_first() {
        registering_files_under_it(linked, pages, page);
        demux::slot_holds(register::registered(linked, page).0.states, page.serial);
    }
    registering_files_under_it(m, pages, page);
    let routed = process::routed(m, page).0;
    assert(routed.link == 0 && routed.link_starts.len() == 0);
    assert forall|k: int| 0 <= k < routed.states.len() implies (
    #[trigger] routed.states[k]).link_index == 0 by {
        if k < m.states.len() {
            assert(m.states[k].link_index == 0);
        } else {
            assert(register::registered(linked, page).0.states[k].link_index == 0);
        }
    }
    demux::slot_holds(routed.states, page.serial);
    let after = process::processed(m, page).0;
    assert forall|k: int| 0 <= k < after.states.len() implies (
    #[trigger] after.states[k]).link_index == 0 by {
        assert(routed.states[k].link_index == 0);
    }
}

/// Reading gives a page of the file, and stands behind it.
proof fn reading_stays_on(m: Model, pages: Seq<PageView>)
    requires
        reads_on(m, pages),
    ensures
        reads_on(reader::after_read(m).0, pages),
        reader::after_read(m).1 matches Some(page) ==> pages.contains(page),
        reader::after_read(m).0.input == m.input,
{
    reader::reading_moves_forward(m);
    reader::reading_advances(m);
    if m.pos < m.input.len() {
        let s = m.input;
        let i = journey::page_is_listed(s, 0, m.pos as int);
        journey::page_stands_there(s, 0, i);
        journey::pages_end_at_boundaries(s, pages, i);
        assert(pages[i] == page::page_at(s, m.pos as int));
    }
    let after = reader::after_read(m).0;
    assert(after.states == m.states && after.page_queue == m.page_queue);
}

/// Taking a page gives one of the file.
proof fn taking_stays_on(m: Model, pages: Seq<PageView>)
    requires
        reads_on(m, pages),
    ensures
        reads_on(session::took_page(m).0, pages),
        session::took_page(m).1 matches Some(page) ==> pages.contains(page) && page.wf(),
        session::took_page(m).0.input == m.input,
{
    session::taking_keeps_wf(m);
    reading_stays_on(m, pages);
    if m.page_queue.len() > 0 {
        let after = session::took_page(m).0;
        assert(pages.contains(m.page_queue[0]));
        assert forall|i: int| 0 <= i < after.page_queue.len() implies pages.contains(
            #[trigger] after.page_queue[i],
        ) by {
            assert(pages.contains(m.page_queue[i + 1]));
        }
    }
}

/// Processing a page of the file stays on it.
proof fn processing_stays_on(m: Model, pages: Seq<PageView>, page: PageView)
    requires
        reads_on(m, pages),
        journey::is_single(pages),
        pages.contains(page),
    ensures
        reads_on(process::processed(m, page).0, pages),
        process::processed(m, page).0.input == m.input,
{
    whole::pages_stand_in_order(m.input, 0);
    process::processing_keeps_wf(m, page);
    processing_counts_none(m, pages, page);
}

/// Delivering packets stays on the file.
proof fn delivering_stays_on(m: Model, pages: Seq<PageView>)
    requires
        reads_on(m, pages),
        journey::is_single(pages),
    ensures
        reads_on(session::delivered(m).0, pages),
        session::delivered(m).0.input == m.input,
    decreases whole::still_to_read(m),
{
    if m.out_queue.len() > 0 {
        let after = session::delivered(m).0;
        assert(after.skeleton_serial() == m.skeleton_serial());
        assert(after.wf());
    } else {
        taking_stays_on(m, pages);
        reader::reading_advances(m);
        if let (after, Some(page)) = session::took_page(m) {
            processing_stays_on(after, pages, page);
            process::processing_keeps_wf(after, page);
            let (done, fault) = process::processed(after, page);
            if fault is None {
                assert(session::delivered(m) == session::delivered(done));
                delivering_stays_on(done, pages);
            }
        }
    }
}

/// The walk over the input counts no other link.
proof fn walking_counts_none(
    m: Model,
    pages: Seq<PageView>,
    i: int,
    cursor: int,
    seen: Set<u32>,
)
    requires
        m.wf(),
        pages == whole::pages_from(m.input, 0),
        laws::is_chain(m.input, 0),
        journey::is_single(pages),
        has_one_link(m, pages),
        0 <= i <= pages.len(),
        cursor == (if i < pages.len() {
            pages[i].offset as int
        } else {
            m.input.len() as int
        }),
    ensures
        has_one_link(scan::walked(m, cursor, seen).0, pages),
    decreases pages.len() - i,
{
    let s = m.input;
    if i < pages.len() {
        whole::pages_stand_in_order(s, 0);
        journey::page_stands_there(s, 0, i);
        page::body_len_nonneg(page::lacing_at(s, cursor));
        assert(reader::next_capture(s, cursor, s.len() as int) == Some(cursor));
        scan::meeting_keeps_wf(m, cursor, seen);
        let page = pages[i];
        let with = Model {
            index: seek_index::recorded(
                m.index,
                page.serial,
                page::granule_at(s, cursor),
                cursor as u64,
            ),
            ..m
        };
        assert(has_one_link(with, pages));
        counting_begins_none(with, pages, page);
        let (after, now_seen, on) = scan::met(m, cursor, seen);
        assert(page.is_first() == scan::begins_stream(s, cursor));
        if page.is_first() {
            registering_files_under_it(process::next_link(with, page.offset), pages, page);
        }
        assert(has_one_link(after, pages));
        if on {
            walking_counts_none(after, pages, i + 1, page::page_end(s, cursor), now_seen);
        }
    } else {
        assert(reader::next_capture(s, cursor, s.len() as int) is None);
    }
}

/// Indexing stays on the file.
proof fn indexing_stays_on(m: Model, pages: Seq<PageView>)
    requires
        reads_on(m, pages),
        journey::is_single(pages),
    ensures
        reads_on(scan::indexed(m).0, pages),
        scan::indexed(m).0.input == m.input,
{
    let after = scan::indexed(m).0;
    if m.input.len() > 0 {
        let start = Model { ledger: m.ledger.with_duplicate_count(0), ..m };
        damage::ledgers_stay_true(m.ledger, 0, 0, 0, 0);
        assert(start.skeleton_serial() == m.skeleton_serial());
        assert(start.wf());
        assert(has_one_link(start, pages));
        assert(pages == seq![page::page_at(m.input, 0)] + whole::pages_from(
            m.input,
            page::page_end(m.input, 0),
        ));
        assert(pages[0].offset == 0);
        walking_counts_none(start, pages, 0, 0, Set::empty());
        scan::walk_indexes_what_it_meets(start, 0, Set::empty());
        let walked = scan::walked(start, 0, Set::empty()).0;
        walking_queues_nothing(start, 0, Set::empty());
        assert(after.skeleton_serial() == walked.skeleton_serial());
        assert(after.wf());
    } else {
        assert(after.skeleton_serial() == m.skeleton_serial());
        assert(after.wf());
    }
}

/// The walk leaves the pages that wait alone.
proof fn walking_queues_nothing(m: Model, cursor: int, seen: Set<u32>)
    requires
        m.wf(),
        cursor >= 0,
    ensures
        scan::walked(m, cursor, seen).0.page_queue == m.page_queue,
    decreases scan::left(m.input, cursor),
{
    let s = m.input;
    reader::next_capture_is_the_first(s, cursor, s.len() as int);
    if let Some(p) = reader::next_capture(s, cursor, s.len() as int) {
        if page::has_table(s, p) {
            page::body_len_nonneg(page::lacing_at(s, p));
            scan::meeting_keeps_wf(m, p, seen);
            let (after, now_seen, on) = scan::met(m, p, seen);
            assert(after.page_queue == m.page_queue);
            if on {
                walking_queues_nothing(after, page::page_end(s, p), now_seen);
            }
        }
    }
}

/// Reading the beginning-of-stream pages at the start stays on the file.
proof fn beginning_stays_on(m: Model, pages: Seq<PageView>)
    requires
        reads_on(m, pages),
        journey::is_single(pages),
    ensures
        session::bos_section(m).1 is None ==> reads_on(session::bos_section(m).0, pages),
    decreases m.input.len() - m.pos,
{
    reading_stays_on(m, pages);
    reader::reading_advances(m);
    reader::reading_moves_forward(m);
    whole::pages_stand_in_order(m.input, 0);
    if let (after, Some(page)) = reader::after_read(m) {
        if !page.is_first() || after.knows(page.serial) {
            waiting_stays_on(after, pages, page);
            if page.is_first() {
                beginning_stays_on(session::queued(after, page), pages);
            }
        } else {
            counting_begins_none(after, pages, page);
            let counted = process::next_link(after, page.offset);
            assert(counted.skeleton_serial() == after.skeleton_serial());
            assert(counted.wf());
            assert(counted.knows(page.serial) == after.knows(page.serial));
            register::registering_keeps_wf(counted, page);
            registering_files_under_it(counted, pages, page);
            let (with, fault) = register::registered(counted, page);
            if fault is None {
                waiting_stays_on(with, pages, page);
                beginning_stays_on(session::queued(with, page), pages);
            }
        }
    }
}

proof fn waiting_stays_on(m: Model, pages: Seq<PageView>, page: PageView)
    requires
        reads_on(m, pages),
        pages.contains(page),
        page.wf(),
    ensures
        reads_on(session::queued(m, page), pages),
{
    session::queueing_keeps_wf(m, page);
    let waits = session::queued(m, page);
    assert forall|i: int| 0 <= i < waits.page_queue.len() implies pages.contains(
        #[trigger] waits.page_queue[i],
    ) by {
        if i < m.page_queue.len() {
            assert(pages.contains(m.page_queue[i]));
        }
    }
}

/// Reading on for headers stays on the file.
proof fn collecting_stays_on(m: Model, pages: Seq<PageView>, budget: int)
    requires
        reads_on(m, pages),
        journey::is_single(pages),
    ensures
        reads_on(session::headers_collected(m, budget).0, pages),
        session::headers_collected(m, budget).0.input == m.input,
    decreases budget,
{
    if budget > 0 && session::awaits_headers(m) {
        taking_stays_on(m, pages);
        if let (after, Some(page)) = session::took_page(m) {
            processing_stays_on(after, pages, page);
            if process::processed(after, page).1 is None {
                collecting_stays_on(process::processed(after, page).0, pages, budget - 1);
            }
        }
    }
}

proof fn tagging_stays_on(m: Model, pages: Seq<PageView>, k: int)
    requires
        reads_on(m, pages),
        0 <= k <= m.states.len(),
    ensures
        reads_on(session::with_tags_of(m, k), pages),
        session::with_tags_of(m, k).states.len() == m.states.len(),
    decreases k,
{
    if k > 0 {
        tagging_stays_on(m, pages, k - 1);
        let before = session::with_tags_of(m, k - 1);
        let after = process::with_tags(before, k - 1);
        register::updating_keeps_wf(before, k - 1, after.states[k - 1]);
        let mid = Model { states: before.states.update(k - 1, after.states[k - 1]), ..before };
        assert(after.skeleton_serial() == mid.skeleton_serial());
        assert(after.wf());
        assert forall|i: int| 0 <= i < after.states.len() implies (
        #[trigger] after.states[i]).link_index == 0 by {
            assert(before.states[i].link_index == 0);
        }
    }
}

/// Opening a file stays on it.
proof fn opening_stays_on(s: Seq<u8>, answers: Seq<Answer>)
    requires
        s.len() <= usize::MAX,
        laws::is_chain(s, 0),
        journey::is_single(whole::pages_from(s, 0)),
        session::opened(demux::fresh(s, 0, answers)).1 is None,
    ensures
        reads_on(session::opened(demux::fresh(s, 0, answers)).0, whole::pages_from(s, 0)),
{
    let pages = whole::pages_from(s, 0);
    let start = demux::fresh(s, 0, answers);
    assert(start.ledger.wf());
    assert(journey::is_boundary(s, 0));
    beginning_stays_on(start, pages);
    let found = session::bos_section(start).0;
    collecting_stays_on(found, pages, session::HEADER_SECTION_MAX_PAGES as int);
    let done = session::headers_collected(found, session::HEADER_SECTION_MAX_PAGES as int).0;
    let with = session::with_extradata(done);
    assert(with.skeleton_serial() == done.skeleton_serial());
    assert(with.wf()) by {
        assert forall|i: int| 0 <= i < with.streams.len() implies (
        #[trigger] with.streams[i]).index == i by {
            assert(done.streams[i].index == i);
        }
    }
    assert(with.states == done.states && with.page_queue == done.page_queue);
    tagging_stays_on(with, pages, with.states.len() as int);
}

proof fn moves_stay_on(m: Model, pages: Seq<PageView>, moves: Seq<Move>)
    requires
        reads_on(m, pages),
        journey::is_single(pages),
        journey::reads_only(moves),
    ensures
        reads_on(journey::after_moves(m, moves), pages),
    decreases moves.len(),
{
    if moves.len() > 0 {
        let init = moves.drop_last();
        assert forall|i: int| 0 <= i < init.len() implies (#[trigger] init[i]) is Next
            || init[i] is Index by {
            assert(moves[i] is Next || moves[i] is Index);
        }
        moves_stay_on(m, pages, init);
        let before = journey::after_moves(m, init);
        assert(moves[moves.len() - 1] is Next || moves[moves.len() - 1] is Index);
        match moves.last() {
            Move::Next => delivering_stays_on(before, pages),
            Move::Index => indexing_stays_on(before, pages),
            _ => {},
        }
    }
}

/// A file of a single link has one link, however it is read and indexed: there
/// is a stream, one link is counted, and every stream belongs to it. Pages may
/// be missing, and serial numbers may be used twice.
pub proof fn a_single_link_is_read_as_one(s: Seq<u8>, answers: Seq<Answer>, moves: Seq<Move>)
    requires
        s.len() <= usize::MAX,
        laws::is_chain(s, 0),
        journey::is_single(whole::pages_from(s, 0)),
        session::opened(demux::fresh(s, 0, answers)).1 is None,
        journey::reads_only(moves),
    ensures
        ({
            let m = journey::after_moves(session::opened(demux::fresh(s, 0, answers)).0, moves);
            &&& m.states.len() > 0
            &&& m.link == 0
            &&& forall|k: int|
                0 <= k < m.states.len() ==> (#[trigger] m.states[k]).link_index == 0
        }),
{
    opening_stays_on(s, answers);
    let m = session::opened(demux::fresh(s, 0, answers)).0;
    moves_stay_on(m, whole::pages_from(s, 0), moves);
    journey::opening_finds_streams(s, 0, answers);
    journey::moves_keep_streams(m, moves);
}

} // verus!
