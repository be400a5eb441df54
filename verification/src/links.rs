//! Chained links: how many there are, however far reading has come when the
//! input is indexed.
use crate::demux;
use crate::demux::{Answer, Model};
use crate::journey;
use crate::journey::Move;
use crate::laws;
use crate::media::PacketView;
use crate::page;
use crate::page::PageView;
use crate::process;
use crate::reader;
use crate::register;
use crate::scan;
use crate::seek_index;
use crate::session;
use crate::whole;
use vstd::prelude::*;

verus! {

// ---------------------------------------------------------------------------
// Counting
// ---------------------------------------------------------------------------

/// Whether links have been counted up to the beginning-of-stream page `x`, or
/// none yet where `x` is -1.
pub open spec fn is_counted_to(m: Model, pages: Seq<PageView>, x: int) -> bool {
    &&& -1 <= x < pages.len()
    &&& m.link == whole::kept_count(whole::chained(pages, x + 1))
    &&& m.link_starts == whole::starts_of(pages, x + 1)
    &&& if x < 0 {
        m.last_bos is None
    } else {
        pages[x].is_first() && m.last_bos == Some(pages[x].offset)
    }
}

/// Whether a page behind `x` that begins no stream has been noted where one
/// stands among the first `i`.
pub open spec fn gap_is_noted(m: Model, pages: Seq<PageView>, i: int, x: int) -> bool {
    &&& m.data_at matches Some(d) ==> exists|y: int|
        x < y < pages.len() && (#[trigger] pages[y]).offset == d && !pages[y].is_first()
    &&& x + 1 < i ==> m.data_at is Some && m.data_at->0 <= pages[x + 1].offset
}

/// Whether a walk that has met the first `i` of `pages` has counted their
/// links, and those of every stream known, up to `x`.
pub open spec fn has_counted(m: Model, pages: Seq<PageView>, i: int, x: int) -> bool {
    &&& whole::is_undamaged(pages, m.answers)
    &&& whole::are_in_order(pages)
    &&& 0 <= i <= pages.len()
    &&& is_counted_to(m, pages, x)
    &&& gap_is_noted(m, pages, i, x)
    &&& forall|k: int|
        0 <= k < m.states.len() ==> whole::start_is_counted(
            m,
            pages,
            (#[trigger] m.states[k]).serial,
        )
    &&& m.skel.skeleton matches Some(sk) ==> whole::start_is_counted(m, pages, sk.serial)
        && whole::is_skeleton_serial(pages, sk.serial)
    &&& forall|j: int|
        0 <= j < i && (#[trigger] pages[j]).is_first() ==> j <= x && is_found(
            m,
            pages,
            pages[j].serial,
        )
    &&& forall|j: int|
        i <= j <= x && (#[trigger] pages[j]).is_first() ==> is_found(m, pages, pages[j].serial)
            || whole::chained(pages, j + 1) == whole::chained(pages, x + 1)
    &&& forall|k: int|
        0 <= k < m.states.len() ==> whole::is_in_its_link(
            (#[trigger] m.states[k]).link_index,
            m.states[k].serial,
            pages,
        )
}

/// Whether the bitstream `serial` is known as a stream, or is a Skeleton.
pub open spec fn is_found(m: Model, pages: Seq<PageView>, serial: u32) -> bool {
    m.knows(serial) || whole::is_skeleton_serial(pages, serial)
}

/// Pages that begin no stream begin no link.
proof fn data_pages_begin_no_link(pages: Seq<PageView>, a: int, b: int)
    requires
        0 <= a <= b <= pages.len(),
        forall|j: int| a <= j < b ==> !(#[trigger] pages[j]).is_first(),
    ensures
        whole::chained(pages, b) == whole::chained(pages, a),
        whole::starts_of(pages, b) == whole::starts_of(pages, a),
    decreases b - a,
{
    if a < b {
        data_pages_begin_no_link(pages, a, b - 1);
        assert(!pages[b - 1].is_first());
    }
}

/// Which page stands behind another is told by where they stand.
proof fn order_is_told_by_offsets(pages: Seq<PageView>, i: int, j: int)
    requires
        whole::are_in_order(pages),
        0 <= i < pages.len(),
        0 <= j < pages.len(),
    ensures
        i < j <==> pages[i].offset < pages[j].offset,
        i == j <==> pages[i].offset == pages[j].offset,
{
}

/// Counting the next beginning-of-stream page, where it stands behind those
/// counted.
proof fn link_is_counted(m: Model, pages: Seq<PageView>, i: int, x: int)
    requires
        has_counted(m, pages, i, x),
        x < i < pages.len(),
        pages[i].is_first(),
    ensures
        is_counted_to(process::next_link(m, pages[i].offset), pages, i),
        gap_is_noted(process::next_link(m, pages[i].offset), pages, i + 1, i),
{
    let off = pages[i].offset;
    if x >= 0 {
        order_is_told_by_offsets(pages, x, i);
    }
    assert forall|j: int| x + 1 <= j < i implies !(#[trigger] pages[j]).is_first() by {}
    data_pages_begin_no_link(pages, x + 1, i);
    whole::count_is_not_negative(pages, x + 1);
    if x + 1 < i {
        order_is_told_by_offsets(pages, x + 1, i);
        assert(process::is_apart(m, off));
        assert(!pages[i - 1].is_first());
    } else if let Some(d) = m.data_at {
        let y = choose|y: int|
            x < y < pages.len() && (#[trigger] pages[y]).offset == d && !pages[y].is_first();
        order_is_told_by_offsets(pages, i, y);
        assert(!process::is_apart(m, off));
        if i > 0 {
            assert(pages[x].is_first());
        }
    } else if i > 0 {
        assert(pages[x].is_first());
    }
}

/// Passing a page that begins no stream notes the gap.
proof fn gap_stays_noted(m: Model, pages: Seq<PageView>, i: int, x: int)
    requires
        has_counted(m, pages, i, x),
        i < pages.len(),
        !pages[i].is_first(),
    ensures
        has_counted(process::past_data(m, pages[i].offset), pages, i + 1, x),
{
    let after = process::past_data(m, pages[i].offset);
    if x >= 0 {
        order_is_told_by_offsets(pages, x, i);
    }
    if x + 1 < i {
        order_is_told_by_offsets(pages, x + 1, i);
        assert(after.data_at == m.data_at);
    } else if x + 1 == i {
        assert(pages[i].offset == pages[x + 1].offset);
        if process::is_apart(m, pages[i].offset) {
            assert(after.data_at == m.data_at);
        } else {
            assert(after.data_at == Some(pages[i].offset));
        }
    } else {
        assert(after.data_at == m.data_at);
    }
    assert(whole::start_is_counted(m, pages, pages[i].serial) == whole::start_is_counted(
        after,
        pages,
        pages[i].serial,
    ));
    assert forall|k: int| 0 <= k < after.states.len() implies whole::start_is_counted(
        after,
        pages,
        (#[trigger] after.states[k]).serial,
    ) by {
        assert(whole::start_is_counted(m, pages, m.states[k].serial));
    }
}

/// A page that begins a new bitstream makes it known, in the link counted, or
/// begins a Skeleton.
proof fn beginning_is_found(m: Model, pages: Seq<PageView>, i: int)
    requires
        whole::is_undamaged(pages, m.answers),
        0 <= i < pages.len(),
        pages[i].is_first(),
        !m.knows(pages[i].serial),
        m.skeleton_serial() != Some(pages[i].serial),
    ensures
        ({
            let after = register::registered(m, pages[i]).0;
            &&& is_found(after, pages, pages[i].serial)
            &&& forall|serial: u32| m.knows(serial) ==> #[trigger] after.knows(serial)
            &&& if whole::is_skeleton_serial(pages, pages[i].serial) {
                after.states == m.states
            } else {
                &&& after.states.len() == m.states.len() + 1
                &&& after.states == m.states.push(after.states.last())
                &&& after.states.last().serial == pages[i].serial
                &&& after.states.last().link_index == m.link
            }
            &&& after.skel == m.skel || after.skeleton_serial() == Some(pages[i].serial)
                && whole::is_skeleton_serial(pages, pages[i].serial)
        }),
{
    let page = pages[i];
    let after = register::registered(m, page).0;
    whole::first_pages_come_first(pages, i, m.answers);
    whole::first_of_its_serial(pages, i);
    assert(whole::begins_content(m.answers, page) || whole::begins_skeleton(page)) by {
        reveal(whole::is_undamaged);
        assert(whole::begins_content(m.answers, pages[i]) || whole::begins_skeleton(pages[i]));
    }
    demux::slot_holds(after.states, page.serial);
    if !whole::is_skeleton_serial(pages, page.serial) {
        assert(after.states[m.states.len() as int].serial == page.serial);
    }
    assert forall|serial: u32| m.knows(serial) implies #[trigger] after.knows(serial) by {
        demux::slot_holds(m.states, serial);
        demux::slot_holds(after.states, serial);
        let k = demux::slot(m.states, serial)->0;
        assert(after.states[k].serial == serial);
    }
}

/// A stream that begins on the walk is counted.
proof fn beginning_is_counted(m: Model, pages: Seq<PageView>, i: int, x: int) -> (y: int)
    requires
        has_counted(m, pages, i, x),
        i < pages.len(),
        pages[i].is_first(),
        !m.knows(pages[i].serial),
        m.skeleton_serial() != Some(pages[i].serial),
    ensures
        has_counted(
            register::registered(process::next_link(m, pages[i].offset), pages[i]).0,
            pages,
            i + 1,
            y,
        ),
{
    let page = pages[i];
    let linked = process::next_link(m, page.offset);
    let after = register::registered(linked, page).0;
    let y = if x < i {
        i
    } else {
        x
    };
    whole::first_pages_come_first(pages, i, m.answers);
    whole::first_of_its_serial(pages, i);
    if x < i {
        link_is_counted(m, pages, i, x);
    } else {
        order_is_told_by_offsets(pages, i, x);
        assert(linked == m);
    }
    assert(after.link == linked.link && after.link_starts == linked.link_starts
        && after.last_bos == linked.last_bos && after.data_at == linked.data_at && after.answers
        == m.answers);
    assert forall|serial: u32| m.knows(serial) implies #[trigger] linked.knows(serial) by {}
    beginning_is_found(linked, pages, i);
    assert forall|serial: u32| is_found(m, pages, serial) implies #[trigger] is_found(
        after,
        pages,
        serial,
    ) by {}
    whole::its_link_is(pages, i, m.answers);
    assert(!whole::is_skeleton_serial(pages, page.serial) ==> whole::is_in_its_link(
        linked.link,
        page.serial,
        pages,
    )) by {
        if i <= x {
            assert(pages[i].is_first());
        }
    }
    assert forall|k: int| 0 <= k < after.states.len() implies whole::is_in_its_link(
        (#[trigger] after.states[k]).link_index,
        after.states[k].serial,
        pages,
    ) by {
        if k < m.states.len() {
            assert(after.states[k] == m.states[k]);
        }
    }
    assert(whole::start_is_counted(after, pages, page.serial)) by {
        order_is_told_by_offsets(pages, i, y);
    }
    assert forall|serial: u32| whole::start_is_counted(m, pages, serial) implies #[trigger]
        whole::start_is_counted(after, pages, serial) by {
        if 0 <= x < i {
            order_is_told_by_offsets(pages, x, i);
        }
    }
    assert forall|k: int| 0 <= k < after.states.len() implies whole::start_is_counted(
        after,
        pages,
        (#[trigger] after.states[k]).serial,
    ) by {
        if k < m.states.len() {
            assert(after.states[k] == m.states[k]);
            assert(whole::start_is_counted(m, pages, m.states[k].serial));
        }
    }
    y
}

/// Meeting a page on the walk counts its link.
proof fn meeting_counts(m: Model, pages: Seq<PageView>, i: int, x: int, seen: Set<u32>) -> (y: int)
    requires
        m.input.len() <= usize::MAX,
        laws::is_chain(m.input, 0),
        pages == whole::pages_from(m.input, 0),
        has_counted(m, pages, i, x),
        i < pages.len(),
        forall|serial: u32| #[trigger]
            seen.contains(serial) ==> whole::of_serial(pages.take(i), serial).len() > 0,
    ensures
        ({
            let (after, now_seen, on) = scan::met(m, pages[i].offset as int, seen);
            &&& on
            &&& has_counted(after, pages, i + 1, y)
            &&& after.input == m.input
            &&& forall|serial: u32| #[trigger]
                now_seen.contains(serial) ==> whole::of_serial(pages.take(i + 1), serial).len() > 0
        }),
{
    let s = m.input;
    let page = pages[i];
    let serial = page.serial;
    let at = page.offset as int;
    journey::page_stands_there(s, 0, i);
    let with = Model {
        index: seek_index::recorded(m.index, serial, page::granule_at(s, at), at as u64),
        ..m
    };
    assert(has_counted(with, pages, i, x)) by {
        assert forall|other: u32| whole::start_is_counted(m, pages, other) implies #[trigger]
            whole::start_is_counted(with, pages, other) by {}
    }
    whole::first_pages_come_first(pages, i, m.answers);
    let (after, now_seen, on) = scan::met(m, at, seen);
    assert forall|other: u32| #[trigger] now_seen.contains(other) implies whole::of_serial(
        pages.take(i + 1),
        other,
    ).len() > 0 by {
        whole::of_serial_step(pages, i, other);
    }
    if !page.is_first() {
        gap_stays_noted(with, pages, i, x);
        x
    } else {
        assert(!seen.contains(serial));
        if m.knows(serial) || m.skeleton_serial() == Some(serial) {
            demux::slot_holds(m.states, serial);
            whole::first_of_its_serial(pages, i);
            assert(whole::start_is_counted(m, pages, serial)) by {
                if m.knows(serial) {
                    let k = demux::slot(m.states, serial)->0;
                    assert(whole::start_is_counted(m, pages, m.states[k].serial));
                }
            }
            if x >= 0 {
                order_is_told_by_offsets(pages, i, x);
            }
            assert(i <= x);
            x
        } else {
            beginning_is_counted(with, pages, i, x)
        }
    }
}

/// Whether every bitstream among `pages` but a Skeleton is a stream, and every
/// stream belongs to the link that it begins in: as many chained links begin
/// up to its first page.
pub open spec fn all_are_in_their_links(m: Model, pages: Seq<PageView>) -> bool {
    &&& forall|i: int|
        0 <= i < pages.len() && (#[trigger] pages[i]).is_first() ==> is_found(
            m,
            pages,
            pages[i].serial,
        )
    &&& forall|k: int, i: int|
        0 <= k < m.states.len() && 0 <= i < pages.len() && (#[trigger] pages[i]).is_first()
            && pages[i].serial == (#[trigger] m.states[k]).serial ==> m.states[k].link_index
            == whole::kept_count(whole::chained(pages, i + 1))
}

/// Whether it is known of every page which link it stands in: as many chained
/// links begin up to it.
pub open spec fn knows_the_links(m: Model, pages: Seq<PageView>) -> bool {
    forall|i: int|
        0 <= i < pages.len() ==> process::link_at(m, (#[trigger] pages[i]).offset)
            == whole::kept_count(whole::chained(pages, i + 1))
}

/// The places where links begin tell of a page which link it stands in.
proof fn starts_tell_links(pages: Seq<PageView>, n: int, i: int)
    requires
        whole::are_in_order(pages),
        0 <= i < n <= pages.len(),
    ensures
        process::starts_up_to(whole::starts_of(pages, n), pages[i].offset) == whole::chained(
            pages,
            i + 1,
        ),
    decreases n,
{
    let last = n - 1;
    if last > 0 {
        let few = whole::starts_of(pages, last);
        let all = whole::starts_of(pages, n);
        order_is_told_by_offsets(pages, i, last);
        if all.len() > few.len() {
            assert(all.drop_last() =~= few);
        }
        if i < last {
            starts_tell_links(pages, last, i);
        } else {
            order_is_told_by_offsets(pages, last - 1, last);
            starts_tell_links(pages, last, last - 1);
            later_pages_see_as_much(pages, last, last - 1, last);
        }
    }
}

/// A page behind all links that have begun counts them all.
proof fn later_pages_see_as_much(pages: Seq<PageView>, n: int, i: int, j: int)
    requires
        whole::are_in_order(pages),
        0 < n <= pages.len(),
        i == n - 1,
        i <= j < pages.len(),
    ensures
        process::starts_up_to(whole::starts_of(pages, n), pages[i].offset)
            == process::starts_up_to(whole::starts_of(pages, n), pages[j].offset),
        process::starts_up_to(whole::starts_of(pages, n), pages[j].offset)
            == whole::starts_of(pages, n).len(),
    decreases n,
{
    if n > 1 {
        let few = whole::starts_of(pages, n - 1);
        let all = whole::starts_of(pages, n);
        order_is_told_by_offsets(pages, i, j);
        later_pages_see_as_much(pages, n - 1, i - 1, i);
        later_pages_see_as_much(pages, n - 1, i - 1, j);
        if all.len() > few.len() {
            assert(all.drop_last() =~= few);
        }
    }
}

/// Whether every beginning-of-stream page has been counted.
pub open spec fn is_settled(m: Model, pages: Seq<PageView>) -> bool {
    forall|i: int|
        0 <= i < pages.len() && (#[trigger] pages[i]).is_first() ==> !process::is_behind(
            m.last_bos,
            pages[i].offset,
        )
}

/// The walk counts the links of every page it meets, and meets them all.
proof fn walking_counts(
    m: Model,
    pages: Seq<PageView>,
    i: int,
    x: int,
    cursor: int,
    seen: Set<u32>,
)
    requires
        m.input.len() <= usize::MAX,
        laws::is_chain(m.input, 0),
        pages == whole::pages_from(m.input, 0),
        has_counted(m, pages, i, x),
        cursor == (if i < pages.len() {
            pages[i].offset as int
        } else {
            m.input.len() as int
        }),
        forall|serial: u32| #[trigger]
            seen.contains(serial) ==> whole::of_serial(pages.take(i), serial).len() > 0,
    ensures
        ({
            let (after, complete) = scan::walked(m, cursor, seen);
            &&& complete
            &&& after.link == whole::kept_count(whole::chained(pages, pages.len() as int))
            &&& all_are_in_their_links(after, pages)
            &&& knows_the_links(after, pages)
            &&& is_settled(after, pages)
            &&& after.input == m.input
        }),
    decreases pages.len() - i,
{
    let s = m.input;
    if i < pages.len() {
        journey::page_stands_there(s, 0, i);
        assert(reader::next_capture(s, cursor, s.len() as int) == Some(cursor));
        let y = meeting_counts(m, pages, i, x, seen);
        let (after, now_seen, on) = scan::met(m, cursor, seen);
        walking_counts(after, pages, i + 1, y, page::page_end(s, cursor), now_seen);
    } else {
        assert(reader::next_capture(s, cursor, s.len() as int) is None);
        data_pages_begin_no_link(pages, x + 1, pages.len() as int);
        assert forall|i: int| 0 <= i < pages.len() implies process::link_at(
            m,
            (#[trigger] pages[i]).offset,
        ) == whole::kept_count(whole::chained(pages, i + 1)) by {
            starts_tell_links(pages, pages.len() as int, i);
        }
        reveal(whole::is_in_its_link);
        assert forall|j: int| 0 <= j < pages.len() && (#[trigger] pages[j]).is_first() implies
            !process::is_behind(m.last_bos, pages[j].offset) by {
            order_is_told_by_offsets(pages, j, x);
        }
    }
}

/// What reading has counted, the walk goes on from.
proof fn reading_has_counted(m: Model, pages: Seq<PageView>, n: int, got: Seq<PacketView>) -> (
    x: int)
    requires
        whole::knows_after(m, pages, n, got, None),
        whole::links_counted(m, pages, n),
    ensures
        has_counted(m, pages, 0, x),
{
    let x = match m.last_bos {
        Some(b) => choose|i: int|
            0 <= i < pages.len() && (#[trigger] pages[i]).offset == b && pages[i].is_first(),
        None => -1,
    };
    if x >= n {
        assert(!process::is_behind(m.last_bos, pages[x].offset));
        assert forall|j: int| 0 <= j <= x implies (#[trigger] pages[j]).is_first() by {}
        whole::first_pages_begin_one_link(pages, x + 1);
        whole::first_pages_begin_one_link(pages, n);
        assert(whole::starts_of(pages, x + 1) =~= whole::starts_of(pages, n));
        assert forall|j: int| 0 <= j <= x implies #[trigger] whole::chained(pages, j + 1)
            == 0 by {
            whole::first_pages_begin_one_link(pages, j + 1);
        }
    } else {
        assert forall|j: int| x + 1 <= j < n implies !(#[trigger] pages[j]).is_first() by {
            if x >= 0 {
                order_is_told_by_offsets(pages, x, j);
            }
        }
        data_pages_begin_no_link(pages, x + 1, n);
    }
    if let Some(d) = m.data_at {
        let y = choose|i: int|
            0 <= i < pages.len() && (#[trigger] pages[i]).offset == d && !pages[i].is_first();
        if x >= 0 {
            order_is_told_by_offsets(pages, x, y);
        }
        assert(pages[y].offset == d);
    }
    x
}

/// Reading on keeps the count.
pub proof fn reads_stand(
    m: Model,
    pages: Seq<PageView>,
    n: int,
    got: Seq<PacketView>,
    moves: Seq<Move>,
) -> (r: (int, Seq<PacketView>))
    requires
        whole::stands_after(m, pages, n, got),
        forall|i: int| 0 <= i < moves.len() ==> (#[trigger] moves[i]) is Next,
    ensures
        whole::stands_after(journey::after_moves(m, moves), pages, r.0, r.1),
        journey::after_moves(m, moves).input == m.input,
    decreases moves.len(),
{
    if moves.len() == 0 {
        (n, got)
    } else {
        let init = moves.drop_last();
        assert forall|i: int| 0 <= i < init.len() implies (#[trigger] init[i]) is Next by {
            assert(moves[i] is Next);
        }
        let (k, taken) = reads_stand(m, pages, n, got, init);
        let before = journey::after_moves(m, init);
        let next = whole::packet_is_delivered(before, pages, k, taken);
        match session::delivered(before) {
            (_, Ok(packet)) => (next, taken.push(packet)),
            (_, Err(_)) => (pages.len() as int, taken),
        }
    }
}

/// However far an undamaged input has been read, indexing it finds every
/// stream in it, counts every chained link, tells of every stream which link
/// it belongs to and of every page which link it stands in, and comes to the
/// end of the input.
pub proof fn indexing_counts_every_link(s: Seq<u8>, answers: Seq<Answer>, moves: Seq<Move>)
    requires
        0 < s.len() <= usize::MAX,
        laws::is_chain(s, 0),
        whole::is_undamaged(whole::pages_from(s, 0), answers),
        whole::starts_with_content(whole::pages_from(s, 0), answers),
        forall|i: int| 0 <= i < moves.len() ==> (#[trigger] moves[i]) is Next,
    ensures
        session::opened(demux::fresh(s, 0, answers)).1 is None,
        ({
            let pages = whole::pages_from(s, 0);
            let m = journey::after_moves(session::opened(demux::fresh(s, 0, answers)).0, moves);
            let (after, complete) = scan::indexed(m);
            &&& complete
            &&& after.link == whole::kept_count(whole::chained(pages, pages.len() as int))
            &&& all_are_in_their_links(after, pages)
            &&& knows_the_links(after, pages)
            &&& is_settled(after, pages)
        }),
{
    let pages = whole::pages_from(s, 0);
    let none = Seq::<PacketView>::empty();
    let n = whole::opening_stands(s, 0, answers);
    let first = session::opened(demux::fresh(s, 0, answers)).0;
    let (k, got) = reads_stand(first, pages, n, none, moves);
    let m = journey::after_moves(first, moves);
    let start = Model { ledger: m.ledger.with_duplicate_count(0), ..m };
    let x = reading_has_counted(m, pages, k, got);
    assert(has_counted(start, pages, 0, x)) by {
        assert forall|serial: u32| whole::start_is_counted(m, pages, serial) implies #[trigger]
            whole::start_is_counted(start, pages, serial) by {}
        assert forall|serial: u32| is_found(m, pages, serial) implies #[trigger] is_found(
            start,
            pages,
            serial,
        ) by {}
    }
    assert(pages == seq![page::page_at(s, 0)] + whole::pages_from(s, page::page_end(s, 0)));
    assert(pages[0].offset == 0);
    walking_counts(start, pages, 0, x, 0, Set::empty());
}

// ---------------------------------------------------------------------------
// Once counted
// ---------------------------------------------------------------------------

/// Whether two states of the demuxer have counted the same links.
pub open spec fn count_the_same(a: Model, b: Model) -> bool {
    a.link == b.link && a.last_bos == b.last_bos
}

/// Processing a page that has been counted, or begins nothing, counts no link.
proof fn processing_counts_no_more(m: Model, page: PageView)
    requires
        page.is_first() ==> !process::is_behind(m.last_bos, page.offset),
    ensures
        count_the_same(process::processed(m, page).0, m),
{
    let linked = process::next_link(m, page.offset);
    let with = register::registered(linked, page).0;
    assert(count_the_same(with, linked));
    assert(count_the_same(process::routed(m, page).0, m));
}

/// Delivering a packet counts no link where all are counted.
proof fn delivering_counts_no_more(m: Model, pages: Seq<PageView>, n: int)
    requires
        journey::is_calm(m, pages, n),
        is_settled(m, pages),
    ensures
        count_the_same(session::delivered(m).0, m),
    decreases whole::still_to_read(m),
{
    if m.out_queue.len() == 0 {
        journey::taking_is_calm(m, pages, n);
        session::taking_keeps_wf(m);
        reader::reading_advances(m);
        reader::reading_moves_forward(m);
        let after = session::took_page(m).0;
        assert(count_the_same(after, m));
        if session::took_page(m).1 is Some {
            journey::processing_places(after, pages, n);
            processing_counts_no_more(after, pages[n]);
            let done = process::processed(after, pages[n]).0;
            assert(session::delivered(m) == session::delivered(done));
            delivering_counts_no_more(done, pages, n + 1);
        }
    }
}

/// The walk counts no link where all are counted.
proof fn walking_counts_no_more(
    m: Model,
    pages: Seq<PageView>,
    i: int,
    cursor: int,
    seen: Set<u32>,
)
    requires
        m.input.len() <= usize::MAX,
        laws::is_chain(m.input, 0),
        pages == whole::pages_from(m.input, 0),
        is_settled(m, pages),
        0 <= i <= pages.len(),
        cursor == (if i < pages.len() {
            pages[i].offset as int
        } else {
            m.input.len() as int
        }),
    ensures
        count_the_same(scan::walked(m, cursor, seen).0, m),
    decreases pages.len() - i,
{
    let s = m.input;
    if i < pages.len() {
        journey::page_stands_there(s, 0, i);
        assert(reader::next_capture(s, cursor, s.len() as int) == Some(cursor));
        let (after, now_seen, on) = scan::met(m, cursor, seen);
        assert(pages[i].is_first() == scan::begins_stream(s, cursor));
        assert(on && count_the_same(after, m) && after.input == s);
        walking_counts_no_more(after, pages, i + 1, page::page_end(s, cursor), now_seen);
    } else {
        assert(reader::next_capture(s, cursor, s.len() as int) is None);
    }
}

/// Whatever is called, no link is counted where all are counted.
proof fn moves_count_no_more(m: Model, pages: Seq<PageView>, n: int, moves: Seq<Move>)
    requires
        journey::is_calm(m, pages, n),
        journey::stays_on_pages(m, moves),
        is_settled(m, pages),
    ensures
        count_the_same(journey::after_moves(m, moves), m),
    decreases moves.len(),
{
    if moves.len() > 0 {
        let before = journey::after_moves(m, moves.drop_last());
        journey::fewer_moves_stay(m, moves);
        let j = journey::moves_are_calm(m, pages, n, moves.drop_last());
        moves_count_no_more(m, pages, n, moves.drop_last());
        match moves.last() {
            Move::Next => delivering_counts_no_more(before, pages, j),
            Move::Seek(index, pts) => journey::seeking_only_moves(before, index, pts),
            Move::SeekWithPreroll(index, pts) => journey::preroll_only_moves(before, index, pts),
            Move::SeekToKeyframe(index, pts) => journey::keyframe_only_moves(before, index, pts),
            Move::Index => {
                if before.input.len() > 0 {
                    let start = Model { ledger: before.ledger.with_duplicate_count(0), ..before };
                    assert(pages == seq![page::page_at(before.input, 0)] + whole::pages_from(
                        before.input,
                        page::page_end(before.input, 0),
                    ));
                    assert(pages[0].offset == 0);
                    walking_counts_no_more(start, pages, 0, 0, Set::empty());
                }
            },
        }
    }
}

/// Once an undamaged input has been indexed, the count of its links stays
/// right, whatever is called then.
pub proof fn counted_links_stay_counted(
    s: Seq<u8>,
    answers: Seq<Answer>,
    reads: Seq<Move>,
    moves: Seq<Move>,
)
    requires
        0 < s.len() <= usize::MAX,
        laws::is_chain(s, 0),
        whole::is_undamaged(whole::pages_from(s, 0), answers),
        whole::starts_with_content(whole::pages_from(s, 0), answers),
        forall|i: int| 0 <= i < reads.len() ==> (#[trigger] reads[i]) is Next,
        journey::stays_on_pages(
            scan::indexed(
                journey::after_moves(session::opened(demux::fresh(s, 0, answers)).0, reads),
            ).0,
            moves,
        ),
    ensures
        ({
            let pages = whole::pages_from(s, 0);
            let m = journey::after_moves(session::opened(demux::fresh(s, 0, answers)).0, reads);
            journey::after_moves(scan::indexed(m).0, moves).link == whole::kept_count(
                whole::chained(pages, pages.len() as int),
            )
        }),
{
    let pages = whole::pages_from(s, 0);
    indexing_counts_every_link(s, answers, reads);
    let n = journey::opening_is_calm(s, answers);
    let first = session::opened(demux::fresh(s, 0, answers)).0;
    let k = journey::moves_are_calm(first, pages, n, reads);
    let m = journey::after_moves(first, reads);
    journey::indexing_is_calm(m, pages, k);
    moves_count_no_more(scan::indexed(m).0, pages, k, moves);
}

} // verus!
