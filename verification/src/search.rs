//! Searches in an input that has not been indexed: they are exact too.
use crate::demux;
use crate::demux::Model;
use crate::error::Error;
use crate::granule;
use crate::journey;
use crate::laws;
use crate::page;
use crate::reader;
use crate::seek;
use crate::seek::{Quest, Range};
use crate::seek_index;
use crate::whole;
use vstd::prelude::*;

verus! {

/// Whether a page of `serial` with a granule stands at `p`.
pub open spec fn is_mark(s: Seq<u8>, serial: u32, p: int) -> bool {
    &&& page::is_capture(s, p)
    &&& p + 27 <= s.len()
    &&& page::serial_at(s, p) == serial
    &&& page::granule_at(s, p) >= 0
}

/// Whether a page of `serial` with a granule stands at `q`, the first from `p`
/// on.
pub open spec fn is_next_mark(s: Seq<u8>, serial: u32, p: int, q: int) -> bool {
    &&& p <= q
    &&& is_mark(s, serial, q)
    &&& forall|x: int| p <= x < q ==> !#[trigger] is_mark(s, serial, x)
}

/// Whether pages of `serial` with a granule are at most a search window apart:
/// from everywhere before the last of them, one begins inside a window.
pub open spec fn is_dense(s: Seq<u8>, serial: u32) -> bool {
    forall|p: int, q: int|
        0 <= p && #[trigger] is_next_mark(s, serial, p, q) ==> q + 4 <= p + seek::SCAN_WINDOW
}

/// Whether keys do not decrease from page to page.
pub open spec fn keys_go_up(s: Seq<u8>, q: Quest) -> bool {
    forall|a: int, b: int| #[trigger]
        is_mark(s, q.serial, a) && #[trigger] is_mark(s, q.serial, b) && a <= b ==> seek::key_at(
            s,
            q.key,
            a,
        ) <= seek::key_at(s, q.key, b)
}

/// Whether an input can be searched for the pages of a stream: it is made of
/// pages, `OggS` stands nowhere else, and the pages of the stream are close
/// and in order.
pub open spec fn can_be_searched(s: Seq<u8>, q: Quest) -> bool {
    &&& s.len() <= usize::MAX
    &&& laws::is_chain(s, 0)
    &&& journey::hides_no_capture(s)
    &&& is_dense(s, q.serial)
    &&& keys_go_up(s, q)
}

/// Whether `t` is the last page of the stream at or before the target.
pub open spec fn is_sought(s: Seq<u8>, q: Quest, t: int) -> bool {
    &&& is_mark(s, q.serial, t)
    &&& seek::key_at(s, q.key, t) <= q.key.target_key
    &&& forall|x: int| #[trigger]
        is_mark(s, q.serial, x) && x > t ==> seek::key_at(s, q.key, x) > q.key.target_key
}

/// There is a first mark from `p` on, where there is one at all.
proof fn some_mark_is_next(s: Seq<u8>, serial: u32, p: int, q: int) -> (r: int)
    requires
        p <= q,
        is_mark(s, serial, q),
    ensures
        is_next_mark(s, serial, p, r),
        r <= q,
    decreases q - p,
{
    if is_mark(s, serial, p) {
        p
    } else {
        let r = some_mark_is_next(s, serial, p + 1, q);
        assert forall|x: int| p <= x < r implies !#[trigger] is_mark(s, serial, x) by {}
        r
    }
}

/// Pages do not overlap.
proof fn pages_do_not_overlap(s: Seq<u8>, p: int, q: int)
    requires
        s.len() <= usize::MAX,
        laws::is_chain(s, 0),
        journey::hides_no_capture(s),
        page::is_capture(s, p),
        page::is_capture(s, q),
        p < q,
    ensures
        page::has_table(s, p),
        p + 27 <= page::page_end(s, p) <= q,
        page::is_capture(s, page::page_end(s, p)),
{
    let pages = whole::pages_from(s, 0);
    let i = journey::page_is_listed(s, 0, p);
    let j = journey::page_is_listed(s, 0, q);
    journey::page_stands_there(s, 0, i);
    journey::page_stands_there(s, 0, j);
    page::body_len_nonneg(page::lacing_at(s, p));
    whole::pages_stand_in_order(s, 0);
    if j < i {
        assert(pages[j].offset < pages[i].offset);
    }
    assert(i < j);
    journey::page_stands_there(s, 0, i + 1);
    if i + 1 < j {
        assert(pages[i + 1].offset < pages[j].offset);
    }
}

/// A scan finds the next mark inside its window.
pub proof fn scan_finds_the_mark(
    s: Seq<u8>,
    ix: Set<seek_index::Entry>,
    p: int,
    limit: int,
    serial: u32,
    q: int,
)
    requires
        s.len() <= usize::MAX,
        laws::is_chain(s, 0),
        journey::hides_no_capture(s),
        0 <= p,
        q + 4 <= limit <= s.len(),
        is_next_mark(s, serial, p, q),
    ensures
        seek::next_of_serial(s, ix, p, limit, serial).1 == Some(q),
    decreases limit - p,
{
    reader::next_capture_is_the_first(s, p, limit);
    let c = reader::next_capture(s, p, limit)->0;
    assert(c <= q);
    if c < q {
        pages_do_not_overlap(s, c, q);
        let found = page::serial_at(s, c);
        let g = page::granule_at(s, c);
        assert(!is_mark(s, serial, c));
        let more = seek_index::recorded(ix, found, g, c as u64);
        let end = page::page_end(s, c);
        assert(is_next_mark(s, serial, end, q));
        scan_finds_the_mark(s, more, end, limit, serial, q);
    }
}

/// A scan that finds nothing had nothing to find, and one that finds a page
/// finds the next mark.
proof fn scan_is_exact(s: Seq<u8>, q: Quest, ix: Set<seek_index::Entry>, p: int)
    requires
        can_be_searched(s, q),
        0 <= p <= s.len(),
        forall|e: seek_index::Entry| #[trigger] ix.contains(e) ==> demux::entry_holds(s, e),
    ensures
        ({
            let limit = seek::capped(p, seek::SCAN_WINDOW as int, s.len() as int);
            match seek::next_of_serial(s, ix, p, limit, q.serial).1 {
                Some(x) => is_next_mark(s, q.serial, p, x) && x + 4 <= p + seek::SCAN_WINDOW,
                None => forall|x: int| #[trigger] is_mark(s, q.serial, x) ==> x < p,
            }
        }),
{
    let limit = seek::capped(p, seek::SCAN_WINDOW as int, s.len() as int);
    let found = seek::next_of_serial(s, ix, p, limit, q.serial).1;
    seek::next_of_serial_holds(s, ix, p, limit, q.serial);
    if let Some(x) = found {
        assert(is_mark(s, q.serial, x));
        let r = some_mark_is_next(s, q.serial, p, x);
        scan_finds_the_mark(s, ix, p, limit, q.serial, r);
    } else {
        assert forall|x: int| #[trigger] is_mark(s, q.serial, x) implies x < p by {
            if x >= p {
                let r = some_mark_is_next(s, q.serial, p, x);
                scan_finds_the_mark(s, ix, p, limit, q.serial, r);
            }
        }
    }
}

/// Whether a search is on its way: no page before its range is past the
/// target, every page behind it is, and the best page so far is as good as
/// any before the range.
pub open spec fn is_on_its_way(s: Seq<u8>, q: Quest, r: Range) -> bool {
    &&& seek::range_holds(s, q, r)
    &&& forall|x: int| #[trigger]
        is_mark(s, q.serial, x) && x < r.lo ==> seek::key_at(s, q.key, x) <= q.key.target_key
    &&& forall|x: int| #[trigger]
        is_mark(s, q.serial, x) && x >= r.hi ==> seek::key_at(s, q.key, x) > q.key.target_key
    &&& match r.best {
        Some(b) => is_mark(s, q.serial, b) && b >= r.lo - 1,
        None => r.lo == 0,
    }
    &&& {
        ||| r.hi == s.len()
        ||| is_mark(s, q.serial, r.hi)
        ||| forall|x: int| #[trigger] is_mark(s, q.serial, x) ==> x < r.hi
    }
}

/// Halving finds its way, and leaves a range that going on page by page can
/// walk.
proof fn halving_finds_its_way(s: Seq<u8>, q: Quest, r: Range, steps: int, size: int)
    requires
        can_be_searched(s, q),
        is_on_its_way(s, q, r),
        steps >= 0,
        0 <= size,
        r.hi - r.lo <= size + 2 * (seek::SCAN_WINDOW - 4),
        size < vstd::arithmetic::power2::pow2(steps as nat),
    ensures
        is_on_its_way(s, q, seek::bisected(s, q, r, steps)),
        seek::bisected(s, q, r, steps).hi - seek::bisected(s, q, r, steps).lo <= 2 * (
        seek::SCAN_WINDOW - 4),
    decreases steps,
{
    if steps > 0 {
        vstd::arithmetic::power2::lemma_pow2_unfold(steps as nat);
    } else {
        vstd::arithmetic::power2::lemma2_to64();
    }
    if steps > 0 && r.lo < r.hi {
        let mid = r.lo + (r.hi - r.lo) / 2;
        let limit = seek::capped(mid, seek::SCAN_WINDOW as int, s.len() as int);
        scan_is_exact(s, q, r.index, mid);
        seek::next_of_serial_holds(s, r.index, mid, limit, q.serial);
        match seek::next_of_serial(s, r.index, mid, limit, q.serial) {
            (index, None) => {
                let after = Range { hi: mid, index, ..r };
                assert(is_on_its_way(s, q, after));
                halving_finds_its_way(s, q, after, steps - 1, size / 2);
            },
            (index, Some(p)) => {
                let after = if seek::key_at(s, q.key, p) <= q.key.target_key {
                    Range { lo: p + 1, best: seek::better(s, q.key, r.best, p), index, ..r }
                } else {
                    Range { hi: p, index, ..r }
                };
                assert(is_mark(s, q.serial, p));
                assert(is_on_its_way(s, q, after));
                halving_finds_its_way(s, q, after, steps - 1, size / 2);
            },
        }
    }
}

/// Going on page by page leads to the page sought.
proof fn going_on_finds_it(
    s: Seq<u8>,
    q: Quest,
    r: Range,
    cursor: int,
    limit: int,
    t: int,
)
    requires
        can_be_searched(s, q),
        is_sought(s, q, t),
        seek::range_holds(s, q, r),
        0 <= cursor,
        t + 4 <= limit <= s.len(),
        r.best matches Some(b) ==> b < cursor && is_mark(s, q.serial, b),
        t >= cursor || r.best == Some(t),
    ensures
        seek::tightened(s, q, r, cursor, limit).best == Some(t),
    decreases limit - cursor,
{
    if cursor < limit {
        seek::next_of_serial_holds(s, r.index, cursor, limit, q.serial);
        if t >= cursor {
            let x = some_mark_is_next(s, q.serial, cursor, t);
            scan_finds_the_mark(s, r.index, cursor, limit, q.serial, x);
        }
        if let (index, Some(p)) = seek::next_of_serial(s, r.index, cursor, limit, q.serial) {
            assert(is_mark(s, q.serial, p));
            if seek::key_at(s, q.key, p) <= q.key.target_key {
                assert(p <= t);
                assert(is_mark(s, q.serial, t));
                let after = Range { best: seek::better(s, q.key, r.best, p), index, ..r };
                if let Some(b) = r.best {
                    assert(is_mark(s, q.serial, b));
                }
                going_on_finds_it(s, q, after, p + 1, limit, t);
            }
        }
    }
}

/// A search lands on the last page of the stream at or before the target,
/// unless that is the stream's last page and the range left ends inside its
/// first four bytes.
pub proof fn searches_are_exact(
    s: Seq<u8>,
    q: Quest,
    index: Set<seek_index::Entry>,
    known: Option<int>,
    t: int,
)
    requires
        can_be_searched(s, q),
        seek::range_holds(s, q, Range { lo: 0, hi: s.len() as int, best: known, index }),
        is_sought(s, q, t),
        ({
            ||| exists|x: int| #[trigger] is_mark(s, q.serial, x) && x > t
            ||| t + 4 <= seek::bisected(
                s,
                q,
                Range { lo: 0, hi: s.len() as int, best: known, index },
                seek::MAX_STEPS as int,
            ).hi
        }),
    ensures
        seek::searched(s, q, index, known).best == Some(t),
{
    let start = Range { lo: 0, hi: s.len() as int, best: known, index };
    vstd::arithmetic::power2::lemma2_to64();
    vstd::arithmetic::power2::lemma2_to64_rest();
    if let Some(b) = known {
        assert(demux::entry_holds(s, (q.serial, page::granule_at(s, b), b as u64)));
        assert(is_mark(s, q.serial, b));
    }
    assert(is_on_its_way(s, q, start));
    halving_finds_its_way(s, q, start, seek::MAX_STEPS as int, s.len() as int);
    let r = seek::bisected(s, q, start, seek::MAX_STEPS as int);
    if t + 4 > r.hi {
        let x = choose|x: int| #[trigger] is_mark(s, q.serial, x) && x > t;
        pages_do_not_overlap(s, t, x);
        if is_mark(s, q.serial, r.hi) && t < r.hi {
            pages_do_not_overlap(s, t, r.hi);
        }
    }
    assert(t + 4 <= r.hi);
    let from = match r.best {
        Some(b) => b + 1,
        None => r.lo,
    };
    let limit = seek::capped(from, 2 * seek::SCAN_WINDOW, r.hi);
    if let Some(b) = r.best {
        assert(is_mark(s, q.serial, b));
        assert(b <= t);
    }
    going_on_finds_it(s, q, r, from, limit, t);
}

/// The page that is known to be at or before the target before a search.
pub open spec fn known_page(m: Model, index: u32, key: granule::SeekKey) -> Option<int> {
    match seek_index::floor(m.index, m.states[index as int].serial, key) {
        Some((_, off)) => Some(off as int),
        None => None,
    }
}

/// Seeks in an input that has not been indexed are exact too: they reach the
/// last page of the stream at or before the target. The pages of the stream
/// must be less than a search window apart. Where the page sought is the last
/// of the stream, the range that halving leaves must not end inside its first
/// four bytes.
pub proof fn unindexed_seeks_are_exact(m: Model, index: u32, pts: i64, t: int)
    requires
        m.wf(),
        index < m.streams.len(),
        !m.index_built,
        seek::seek_key(m, index as int, pts) is Ok,
        seek::index_attempt(m, index as int, pts).1 is None,
        ({
            let s = m.input;
            let key = seek::seek_key(m, index as int, pts)->Ok_0;
            let q = Quest { serial: m.states[index as int].serial, key };
            let start = Range {
                lo: 0,
                hi: s.len() as int,
                best: known_page(m, index, key),
                index: m.index,
            };
            &&& can_be_searched(s, q)
            &&& is_sought(s, q, t)
            &&& {
                ||| exists|x: int| #[trigger] is_mark(s, q.serial, x) && x > t
                ||| t + 4 <= seek::bisected(s, q, start, seek::MAX_STEPS as int).hi
            }
        }),
    ensures
        seek::seeked(m, index, pts).1 == Ok::<i64, Error>(page::granule_at(m.input, t)),
        seek::seeked(m, index, pts).0.pos == t,
{
    let s = m.input;
    let i = index as int;
    let serial = m.states[i].serial;
    let key = seek::seek_key(m, i, pts)->Ok_0;
    let q = Quest { serial, key };
    let known = known_page(m, index, key);
    let tried = seek::index_attempt(m, i, pts).0;
    assert(tried.states == m.states && tried.index == m.index && tried.input == m.input);
    assert(tried.index_built == m.index_built);
    laws::floor_is_known(m.index, serial, key, s);
    if let Some((g, off)) = seek_index::floor(m.index, serial, key) {
        assert(demux::entry_holds(s, (serial, g, off)));
        let there = seek::flushed(tried, off);
        assert(there.states[i].serial == serial);
    }
    searches_are_exact(s, q, m.index, known, t);
}

} // verus!
