//! Indexing the whole input: one walk from page header to page header.
use crate::bytes;
use crate::demux;
use crate::demux::{Model, OggDemuxer};
use crate::page;
use crate::page::Page;
use crate::process;
use crate::reader;
use crate::register;
use crate::seek_index;
use vstd::prelude::*;

verus! {

/// What is left of the input from `cursor` on.
pub open spec fn left(s: Seq<u8>, cursor: int) -> int {
    if cursor < s.len() {
        s.len() - cursor
    } else {
        0
    }
}

/// Whether the page header at `p` begins a stream.
pub open spec fn begins_stream(s: Seq<u8>, p: int) -> bool {
    s[p + 5] & page::FIRST_PAGE != 0
}

/// The demuxer after the walk has met the page header at `p`, which stands
/// with its segment table inside the input, and whether the walk goes on.
/// `seen` holds the serial numbers of streams that began earlier on the walk.
pub open spec fn met(m: Model, p: int, seen: Set<u32>) -> (Model, Set<u32>, bool) {
    let s = m.input;
    let serial = page::serial_at(s, p);
    let with = Model {
        index: seek_index::recorded(m.index, serial, page::granule_at(s, p), p as u64),
        ..m
    };
    let is_skeleton = m.skeleton_serial() == Some(serial);
    if !begins_stream(s, p) {
        (process::past_data(with, p as u64), seen, true)
    } else if !is_skeleton && seen.contains(serial) {
        let linked = process::next_link(with, p as u64);
        (
            Model {
                ledger: linked.ledger.with_duplicate_count(
                    linked.ledger.duplicate_serials.saturating_add(1),
                ),
                ..linked
            },
            seen,
            true,
        )
    } else {
        let now_seen = if is_skeleton {
            seen
        } else {
            seen.insert(serial)
        };
        if m.knows(serial) || is_skeleton {
            (with, now_seen, true)
        } else if !page::is_complete(s, p) {
            (with, now_seen, false)
        } else {
            (
                register::registered(
                    process::next_link(with, p as u64),
                    page::page_at(s, p),
                ).0,
                now_seen,
                true,
            )
        }
    }
}

/// The demuxer after the walk from `cursor` on, and whether it came to the
/// end of the input.
///
/// The walk goes from page header to the end of that page, whatever stands
/// inside; between pages it looks for the next `OggS`. It stops early where a
/// page header does not lie inside the input.
pub open spec fn walked(m: Model, cursor: int, seen: Set<u32>) -> (Model, bool)
    decreases left(m.input, cursor),
    via walked_ends
{
    match reader::next_capture(m.input, cursor, m.input.len() as int) {
        None => (m, true),
        Some(p) => if cursor < 0 || !page::has_table(m.input, p) {
            (m, false)
        } else {
            match met(m, p, seen) {
                (after, now_seen, true) => walked(after, page::page_end(m.input, p), now_seen),
                (after, _, false) => (after, false),
            }
        },
    }
}

#[via_fn]
proof fn walked_ends(m: Model, cursor: int, seen: Set<u32>) {
    if cursor >= 0 {
        reader::next_capture_is_the_first(m.input, cursor, m.input.len() as int);
        if let Some(p) = reader::next_capture(m.input, cursor, m.input.len() as int) {
            if page::has_table(m.input, p) {
                page::body_len_nonneg(page::lacing_at(m.input, p));
                assert(met(m, p, seen).0.input == m.input);
            }
        }
    }
}

/// The demuxer after indexing the whole input, and whether the walk came to
/// its end. The walk counts serial numbers used twice anew.
pub open spec fn indexed(m: Model) -> (Model, bool) {
    if m.input.len() == 0 {
        (Model { index_built: true, ..m }, false)
    } else {
        let (after, complete) = walked(
            Model { ledger: m.ledger.with_duplicate_count(0), ..m },
            0,
            Set::empty(),
        );
        (Model { index_built: true, ..after }, complete)
    }
}

/// The pages that the walk meets from `cursor` on, as index entries.
pub open spec fn met_entries(s: Seq<u8>, cursor: int) -> Set<seek_index::Entry>
    decreases left(s, cursor),
    via met_entries_end
{
    match reader::next_capture(s, cursor, s.len() as int) {
        None => Set::empty(),
        Some(p) => if cursor < 0 || !page::has_table(s, p) {
            Set::empty()
        } else {
            seek_index::recorded(
                met_entries(s, page::page_end(s, p)),
                page::serial_at(s, p),
                page::granule_at(s, p),
                p as u64,
            )
        },
    }
}

#[via_fn]
proof fn met_entries_end(s: Seq<u8>, cursor: int) {
    if cursor >= 0 {
        reader::next_capture_is_the_first(s, cursor, s.len() as int);
        if let Some(p) = reader::next_capture(s, cursor, s.len() as int) {
            if page::has_table(s, p) {
                page::body_len_nonneg(page::lacing_at(s, p));
            }
        }
    }
}

/// Meeting a page header keeps the demuxer sound.
pub proof fn meeting_keeps_wf(m: Model, p: int, seen: Set<u32>)
    requires
        m.wf(),
        page::is_capture(m.input, p),
        page::has_table(m.input, p),
    ensures
        met(m, p, seen).0.wf(),
        met(m, p, seen).0.input == m.input,
        met(m, p, seen).0.pos == m.pos,
        met(m, p, seen).0.index == seek_index::recorded(
            m.index,
            page::serial_at(m.input, p),
            page::granule_at(m.input, p),
            p as u64,
        ),
{
    let s = m.input;
    let serial = page::serial_at(s, p);
    let with = Model {
        index: seek_index::recorded(m.index, serial, page::granule_at(s, p), p as u64),
        ..m
    };
    assert forall|e: seek_index::Entry| #[trigger] with.index.contains(e) implies
        demux::entry_holds(with.input, e) by {
        if !m.index.contains(e) {
            assert(e == (serial, page::granule_at(s, p), p as u64));
        }
    }
    assert(with.skeleton_serial() == m.skeleton_serial());
    assert(with.wf());
    assert(process::past_data(with, p as u64).skeleton_serial() == m.skeleton_serial());
    let linked = process::next_link(with, p as u64);
    assert(linked.skeleton_serial() == m.skeleton_serial());
    assert(linked.wf());
    if !m.knows(serial) && page::is_complete(s, p) {
        let pv = page::page_at(s, p);
        register::registering_keeps_wf(with, pv);
        register::registering_keeps_wf(linked, pv);
    }
    let after = met(m, p, seen).0;
    assert(after.skeleton_serial() == m.skeleton_serial() || !m.knows(serial));
}

/// The walk adds to the index exactly the pages that it meets, so a second
/// walk adds nothing.
pub proof fn walk_indexes_what_it_meets(m: Model, cursor: int, seen: Set<u32>)
    requires
        m.wf(),
        cursor >= 0,
    ensures
        walked(m, cursor, seen).0.wf(),
        walked(m, cursor, seen).0.input == m.input,
        walked(m, cursor, seen).0.pos == m.pos,
        walked(m, cursor, seen).0.index == m.index.union(met_entries(m.input, cursor)),
    decreases left(m.input, cursor),
{
    let s = m.input;
    reader::next_capture_is_the_first(s, cursor, s.len() as int);
    match reader::next_capture(s, cursor, s.len() as int) {
        None => {
            assert(m.index.union(Set::empty()) =~= m.index);
        },
        Some(p) => {
            if page::has_table(s, p) {
                page::body_len_nonneg(page::lacing_at(s, p));
                meeting_keeps_wf(m, p, seen);
                let (after, now_seen, on) = met(m, p, seen);
                let end = page::page_end(s, p);
                if on {
                    walk_indexes_what_it_meets(after, end, now_seen);
                } else {
                    assert(reader::next_capture(s, end, s.len() as int) is None);
                    assert(met_entries(s, end) == Set::<seek_index::Entry>::empty());
                }
                assert(after.index.union(met_entries(s, end)) =~= m.index.union(
                    met_entries(s, cursor),
                ));
                assert(after.index.union(Set::empty()) =~= after.index);
            } else {
                assert(m.index.union(Set::empty()) =~= m.index);
            }
        },
    }
}

/// Indexing the input a second time leaves the index as it is.
pub proof fn indexing_again_adds_nothing(m: Model)
    requires
        m.wf(),
    ensures
        indexed(m).0.wf(),
        indexed(m).0.input == m.input,
        indexed(m).0.pos == m.pos,
        indexed(indexed(m).0).0.index == indexed(m).0.index,
{
    if m.input.len() > 0 {
        let start = Model { ledger: m.ledger.with_duplicate_count(0), ..m };
        assert(start.skeleton_serial() == m.skeleton_serial());
        assert(start.wf());
        walk_indexes_what_it_meets(start, 0, Set::empty());
        let once = indexed(m).0;
        let mid = walked(start, 0, Set::empty()).0;
        assert(once.skeleton_serial() == mid.skeleton_serial());
        assert(once.wf());
        let again = Model { ledger: once.ledger.with_duplicate_count(0), ..once };
        assert(again.skeleton_serial() == once.skeleton_serial());
        assert(again.wf());
        walk_indexes_what_it_meets(again, 0, Set::empty());
        assert(once.index.union(met_entries(m.input, 0)) =~= once.index);
    } else {
        let once = indexed(m).0;
        assert(once.skeleton_serial() == m.skeleton_serial());
        assert(once.wf());
    }
}

fn holds(v: &Vec<u32>, x: u32) -> (r: bool)
    ensures
        r == v@.to_set().contains(x),
{
    let mut i: usize = 0;
    while i < v.len()
        invariant
            i <= v@.len(),
            forall|j: int| 0 <= j < i ==> v@[j] != x,
        decreases v@.len() - i,
    {
        if v[i] == x {
            assert(v@.contains(x));
            return true;
        }
        i = i + 1;
    }
    false
}

fn remember(v: &mut Vec<u32>, x: u32)
    ensures
        final(v)@.to_set() == old(v)@.to_set().insert(x),
{
    let ghost before = v@;
    v.push(x);
    assert forall|y: u32| v@.to_set().contains(y) == before.to_set().insert(x).contains(y) by {
        if v@.contains(y) {
            let i = choose|i: int| 0 <= i < v@.len() && v@[i] == y;
            if i < before.len() {
                assert(before[i] == y);
            }
        }
        if before.contains(y) {
            let i = choose|i: int| 0 <= i < before.len() && before[i] == y;
            assert(v@[i] == y);
        }
        assert(v@[before.len() as int] == x);
    }
    assert(v@.to_set() =~= before.to_set().insert(x));
}

impl OggDemuxer {
    #[verifier::spinoff_prover]
    #[verifier::rlimit(60)]
    fn meet(&mut self, at: usize, seen: &mut Vec<u32>) -> (r: bool)
        requires
            old(self).wf(),
            page::is_capture(old(self)@.input, at as int),
            page::has_table(old(self)@.input, at as int),
        ensures
            final(self).wf(),
            (final(self)@, final(seen)@.to_set(), r) == met(
                old(self)@,
                at as int,
                old(seen)@.to_set(),
            ),
            final(self)@.input == old(self)@.input,
    {
        let ghost before = self@;
        let ghost was_seen = seen@.to_set();
        let ghost s = before.input;
        let ghost p = at as int;
        proof {
            meeting_keeps_wf(before, p, was_seen);
            assert(self.input.len() == s.len());
        }
        let flags: u8 = self.input[at + 5];
        let granule: i64 = bytes::le_i64_at(self.input.as_slice(), at + 6);
        let serial: u32 = bytes::le32_at(self.input.as_slice(), at + 14);
        self.index_record(serial, granule, at as u64);
        if flags & page::FIRST_PAGE == 0 {
            self.pass_data(at as u64);
            assert(self@ =~= met(before, p, was_seen).0);
            return true;
        }
        let is_skeleton: bool = match self.skeleton_serial() {
            Some(x) => x == serial,
            None => false,
        };
        if !is_skeleton && holds(seen, serial) {
            self.begin_next_link(at as u64);
            self.ledger.duplicate_serials = self.ledger.duplicate_serials.saturating_add(1);
            assert(self@ =~= met(before, p, was_seen).0);
            return true;
        }
        if !is_skeleton {
            remember(seen, serial);
        }
        if is_skeleton || self.find_state(serial).is_some() {
            return true;
        }
        let n_segs: usize = self.input[at + 26] as usize;
        let body: usize = page::table_sum(self.input.as_slice(), at + 27, at + 27 + n_segs);
        if self.input.len() - (at + 27 + n_segs) < body {
            return false;
        }
        let found: Page = Page::unverified(self.input.as_slice(), at);
        self.begin_next_link(at as u64);
        proof {
            let with = Model {
                index: seek_index::recorded(before.index, serial, granule, at as u64),
                ..before
            };
            let expected = process::next_link(with, at as u64);
            assert(self@ =~= expected);
            assert(expected.skeleton_serial() == before.skeleton_serial());
        }
        let _outcome = self.register_stream(&found);
        true
    }

    /// Index every page of the input, and register the streams that begin
    /// anywhere in it. Returns whether the walk came to the end of the input,
    /// so that durations can be told from the index.
    pub fn build_seek_index(&mut self) -> (complete: bool)
        requires
            old(self).wf(),
        ensures
            final(self).wf(),
            (final(self)@, complete) == indexed(old(self)@),
    {
        let ghost start = self@;
        let n: usize = self.input.len();
        if n == 0 {
            self.index_built = true;
            assert(self@ =~= indexed(start).0);
            return false;
        }
        self.ledger.duplicate_serials = 0;
        let ghost first = Model { ledger: start.ledger.with_duplicate_count(0), ..start };
        assert(self@ =~= first);
        let ghost goal = walked(first, 0, Set::empty());
        let mut seen: Vec<u32> = Vec::new();
        assert(seen@.to_set() =~= Set::<u32>::empty());
        let mut cursor: usize = 0;
        let mut complete: bool = true;
        while cursor < n
            invariant_except_break
                complete,
                walked(self@, cursor as int, seen@.to_set()) == goal,
            invariant
                self.wf(),
                n == self.input.len(),
                self@.input.len() == n,
            ensures
                (self@, complete) == goal,
            decreases n - cursor,
        {
            let at: usize = match reader::find_capture(self.input.as_slice(), cursor, n) {
                Some(p) => p,
                None => {
                    break;
                },
            };
            let has_table: bool = n - at >= 27 && n - at - 27 >= self.input[at + 26] as usize;
            if !has_table {
                complete = false;
                break;
            }
            let n_segs: usize = self.input[at + 26] as usize;
            let body: usize = page::table_sum(self.input.as_slice(), at + 27, at + 27 + n_segs);
            let table_end: usize = at + 27 + n_segs;
            if !self.meet(at, &mut seen) {
                complete = false;
                break;
            }
            if n - table_end <= body {
                proof {
                    let end = page::page_end(self@.input, at as int);
                    assert(walked(self@, end, seen@.to_set()) == (self@, true));
                }
                break;
            }
            cursor = table_end + body;
        }
        self.index_built = true;
        assert(self@ =~= indexed(start).0);
        complete
    }
}

} // verus!
