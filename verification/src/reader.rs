//! Reading pages one after the other, and finding the next one after
//! something that is no page.
use crate::bytes;
use crate::damage;
use crate::damage::{DamageEvent, DamageKind};
use crate::demux;
use crate::demux::{Model, OggDemuxer};
use crate::page;
use crate::page::{Page, PageView};
use crate::seek_index;
use vstd::prelude::*;

verus! {

/// The first offset from `from` on at which `OggS` stands, all four bytes
/// before `limit`.
pub open spec fn next_capture(s: Seq<u8>, from: int, limit: int) -> Option<int>
    decreases limit - from,
{
    if from + 4 > limit {
        None
    } else if page::is_capture(s, from) {
        Some(from)
    } else {
        next_capture(s, from + 1, limit)
    }
}

/// The first offset from `from` on at which a complete page with a matching
/// checksum stands.
pub open spec fn next_page(s: Seq<u8>, from: int) -> Option<int>
    decreases s.len() - from,
{
    if from + 4 > s.len() {
        None
    } else if page::is_page(s, from) {
        Some(from)
    } else {
        next_page(s, from + 1)
    }
}

/// A capture found is one, and there is none before it.
pub proof fn next_capture_is_the_first(s: Seq<u8>, from: int, limit: int)
    requires
        0 <= from,
        limit <= s.len(),
    ensures
        match next_capture(s, from, limit) {
            Some(p) => {
                &&& from <= p
                &&& p + 4 <= limit
                &&& page::is_capture(s, p)
                &&& forall|q: int| from <= q < p ==> !page::is_capture(s, q)
            },
            None => forall|q: int| from <= q && q + 4 <= limit ==> !page::is_capture(s, q),
        },
    decreases limit - from,
{
    if from + 4 <= limit && !page::is_capture(s, from) {
        next_capture_is_the_first(s, from + 1, limit);
    }
}

/// Resuming after damage loses no page: the page found is one, and every
/// offset before it holds none.
pub proof fn next_page_is_the_first(s: Seq<u8>, from: int)
    requires
        0 <= from,
    ensures
        match next_page(s, from) {
            Some(p) => {
                &&& from <= p
                &&& page::is_page(s, p)
                &&& forall|q: int| from <= q < p ==> !page::is_page(s, q)
            },
            None => forall|q: int| from <= q ==> !page::is_page(s, q),
        },
    decreases s.len() - from,
{
    if from + 4 <= s.len() && !page::is_page(s, from) {
        next_page_is_the_first(s, from + 1);
    }
}

/// Whether what is left of the input from `p` on, fewer bytes than a page
/// header, starts like a page.
pub open spec fn starts_like_a_page(s: Seq<u8>, p: int) -> bool {
    let n = s.len() - p;
    &&& s[p] == 0x4f
    &&& n > 1 ==> s[p + 1] == 0x67
    &&& n > 2 ==> s[p + 2] == 0x67
    &&& n > 3 ==> s[p + 3] == 0x53
}

/// The demuxer after a search for the next page from `from` on, and the page.
pub open spec fn resynced(m: Model, from: int) -> (Model, Option<PageView>) {
    match next_page(m.input, from) {
        Some(p) => {
            let page = page::page_at(m.input, p);
            (
                Model {
                    pos: page::page_end(m.input, p) as u64,
                    ledger: m.ledger.with_resync(p as u64, page.serial, page.seq_no),
                    index: seek_index::recorded(m.index, page.serial, page.granule, p as u64),
                    ..m
                },
                Some(page),
            )
        },
        None => (Model { pos: m.input.len() as u64, ..m }, None),
    }
}

/// The demuxer after reading one page, and the page.
///
/// At the end of the input there is none. An input that ends inside a page
/// has no further page, and that is noted. What is no page is skipped.
pub open spec fn after_read(m: Model) -> (Model, Option<PageView>) {
    let s = m.input;
    let p = m.pos as int;
    let at_end = Model { pos: s.len() as u64, ..m };
    if p >= s.len() {
        (m, None)
    } else if p + 27 > s.len() {
        if starts_like_a_page(s, p) {
            (
                Model {
                    ledger: m.ledger.noted(DamageKind::TruncatedTail, Some(m.pos), None, None),
                    ..at_end
                },
                None,
            )
        } else {
            (at_end, None)
        }
    } else if !page::is_capture(s, p) {
        resynced(m, p)
    } else if !page::is_complete(s, p) {
        (
            Model {
                ledger: m.ledger.noted(
                    DamageKind::TruncatedTail,
                    Some(m.pos),
                    Some(page::serial_at(s, p)),
                    Some(page::seq_no_at(s, p)),
                ),
                ..at_end
            },
            None,
        )
    } else if page::is_page(s, p) {
        let page = page::page_at(s, p);
        (
            Model {
                pos: page::page_end(s, p) as u64,
                index: seek_index::recorded(m.index, page.serial, page.granule, m.pos),
                ..m
            },
            Some(page),
        )
    } else {
        resynced(m, p + 1)
    }
}

/// Whether two models differ at most in position, ledger and index.
pub open spec fn only_read(a: Model, b: Model) -> bool {
    b =~= (Model { pos: b.pos, ledger: b.ledger, index: b.index, ..a })
}

/// A page that was read lies before the new position, inside the input.
pub proof fn reading_advances(m: Model)
    requires
        m.input.len() <= usize::MAX,
    ensures
        after_read(m).1 is Some ==> m.pos < after_read(m).0.pos <= m.input.len(),
        after_read(m).0.input == m.input,
        after_read(m).0.page_queue == m.page_queue,
{
    let s = m.input;
    let p = m.pos as int;
    next_page_is_the_first(s, p);
    next_page_is_the_first(s, p + 1);
    assert forall|q: int| 0 <= q && #[trigger] page::is_page(s, q) implies q + 27
        <= page::page_end(s, q) <= s.len() by {
        page::body_len_nonneg(page::lacing_at(s, q));
    }
}

/// Reading a page moves forward and touches nothing but the position, the
/// damage and the index.
pub proof fn reading_moves_forward(m: Model)
    requires
        m.wf(),
    ensures
        only_read(m, after_read(m).0),
        after_read(m).1 matches Some(page) ==> {
            &&& page.wf()
            &&& m.pos < after_read(m).0.pos <= m.input.len()
        },
        after_read(m).0.wf(),
{
    let s = m.input;
    let p = m.pos as int;
    next_page_is_the_first(s, p);
    next_page_is_the_first(s, p + 1);
    assert forall|q: int| 0 <= q && page::is_page(s, q) implies (#[trigger] page::page_at(
        s,
        q,
    )).wf() && q + 27 <= page::page_end(s, q) <= s.len() by {
        page::body_len_nonneg(page::lacing_at(s, q));
    }
    if p < s.len() {
        if page::is_page(s, p) {
            assert(page::page_at(s, p).wf());
        }
        if next_page(s, p) is Some {
            assert(page::page_at(s, next_page(s, p)->0).wf());
        }
        if next_page(s, p + 1) is Some {
            assert(page::page_at(s, next_page(s, p + 1)->0).wf());
        }
    }
    let after = after_read(m).0;
    assert forall|e: seek_index::Entry| #[trigger] after.index.contains(e) implies
        demux::entry_holds(after.input, e) by {
        if !m.index.contains(e) {
            assert(page::is_capture(s, e.2 as int));
        }
    }
    assert(after.skeleton_serial() == m.skeleton_serial());
    assert(after.ledger.wf()) by {
        reading_keeps_the_ledger(m);
    }
}

/// Reading a page keeps counters and kept events in agreement.
proof fn reading_keeps_the_ledger(m: Model)
    requires
        m.ledger.wf(),
    ensures
        after_read(m).0.ledger.wf(),
{
    let s = m.input;
    let p = m.pos as int;
    let tail = DamageEvent {
        kind: DamageKind::TruncatedTail,
        byte_offset: Some(m.pos),
        serial: None,
        page_seq: None,
    };
    damage::noting_counts(m.ledger, tail);
    damage::noting_counts(
        m.ledger,
        DamageEvent {
            serial: Some(page::serial_at(s, p)),
            page_seq: Some(page::seq_no_at(s, p)),
            ..tail
        },
    );
    if let Some(q) = next_page(s, p) {
        let found = page::page_at(s, q);
        damage::ledgers_stay_true(m.ledger, q as u64, found.serial, found.seq_no, 0);
    }
    if let Some(q) = next_page(s, p + 1) {
        let found = page::page_at(s, q);
        damage::ledgers_stay_true(m.ledger, q as u64, found.serial, found.seq_no, 0);
    }
}

/// The first capture from `from` on, all four bytes before `limit`.
pub fn find_capture(s: &[u8], from: usize, limit: usize) -> (r: Option<usize>)
    requires
        limit <= s.len(),
    ensures
        match r {
            Some(p) => next_capture(s@, from as int, limit as int) == Some(p as int) && from <= p
                && p + 4 <= limit && page::is_capture(s@, p as int),
            None => next_capture(s@, from as int, limit as int) is None,
        },
{
    let mut i: usize = from;
    while i < limit && limit - i >= 4
        invariant
            from <= i,
            limit <= s.len(),
            next_capture(s@, from as int, limit as int) == next_capture(
                s@,
                i as int,
                limit as int,
            ),
        decreases limit - i,
    {
        if page::capture_at(s, i) {
            return Some(i);
        }
        i = i + 1;
    }
    None
}

impl OggDemuxer {
    /// Add a page to the seek index.
    pub fn index_record(&mut self, serial: u32, granule: i64, offset: u64)
        requires
            old(self).index.wf(),
        ensures
            final(self).index.wf(),
            old(self)@.wf() && (granule >= 0 ==> demux::entry_holds(
                old(self)@.input,
                (serial, granule, offset),
            )) ==> final(self)@.wf(),
            final(self)@ == (Model {
                index: seek_index::recorded(old(self)@.index, serial, granule, offset),
                ..old(self)@
            }),
            final(self).input == old(self).input,
    {
        let ghost before = self@;
        self.index.record(serial, granule, offset);
        assert(self@ =~= Model {
            index: seek_index::recorded(before.index, serial, granule, offset),
            ..before
        });
        assert(self@.skeleton_serial() == before.skeleton_serial());
    }

    /// Find the next complete page with a matching checksum from `from` on
    /// and read it.
    pub fn resync_to_next_page(&mut self, from: usize) -> (r: Option<Page>)
        requires
            old(self).wf(),
            from <= old(self)@.input.len(),
        ensures
            final(self).wf(),
            final(self)@ == resynced(old(self)@, from as int).0,
            (match r {
                Some(page) => Some(page@),
                None => None,
            }) == resynced(old(self)@, from as int).1,
            r matches Some(page) ==> page@.wf(),
    {
        let ghost before = self@;
        let n: usize = self.input.len();
        let mut i: usize = from;
        while i < n && n - i >= 4
            invariant
                from <= i <= n,
                n == self.input@.len(),
                self.wf(),
                self@ == before,
                before == old(self)@,
                next_page(before.input, from as int) == next_page(before.input, i as int),
            decreases n - i,
        {
            if let Ok((found, end)) = Page::parse(self.input.as_slice(), i) {
                self.ledger.note_resync(i as u64, found.serial, found.seq_no);
                self.pos = end as u64;
                proof {
                    let mid = Model {
                        ledger: before.ledger.with_resync(i as u64, found.serial, found.seq_no),
                        pos: end as u64,
                        ..before
                    };
                    assert(self@ =~= mid);
                    assert(page::is_capture(before.input, i as int));
                }
                self.index_record(found.serial, found.granule_position, i as u64);
                assert(self@ =~= resynced(before, from as int).0);
                return Some(found);
            }
            i = i + 1;
        }
        self.pos = n as u64;
        assert(self@ =~= resynced(before, from as int).0);
        None
    }

    /// Read the next page.
    pub fn read_page(&mut self) -> (r: Option<Page>)
        requires
            old(self).wf(),
        ensures
            final(self).wf(),
            final(self)@ == after_read(old(self)@).0,
            (match r {
                Some(page) => Some(page@),
                None => None,
            }) == after_read(old(self)@).1,
            r matches Some(page) ==> page@.wf(),
    {
        let ghost before = self@;
        let n: usize = self.input.len();
        if self.pos >= n as u64 {
            return None;
        }
        let at: usize = self.pos as usize;
        let got: usize = n - at;
        if got < 27 {
            let looks_like_page: bool = self.input[at] == 0x4f && (got <= 1 || self.input[at + 1]
                == 0x67) && (got <= 2 || self.input[at + 2] == 0x67) && (got <= 3 || self.input[at
                + 3] == 0x53);
            if looks_like_page {
                self.ledger.push_damage(DamageKind::TruncatedTail, Some(self.pos), None, None);
            }
            self.pos = n as u64;
            assert(self@ =~= after_read(before).0);
            return None;
        }
        if !page::capture_at(self.input.as_slice(), at) {
            return self.resync_to_next_page(at);
        }
        let n_segs: usize = self.input[at + 26] as usize;
        let in_table: bool = got - 27 >= n_segs;
        let complete: bool = in_table && {
            let body: usize = page::table_sum(self.input.as_slice(), at + 27, at + 27 + n_segs);
            got - 27 - n_segs >= body
        };
        if !complete {
            let serial: u32 = bytes::le32_at(self.input.as_slice(), at + 14);
            let seq_no: u32 = bytes::le32_at(self.input.as_slice(), at + 18);
            self.ledger.push_damage(
                DamageKind::TruncatedTail,
                Some(self.pos),
                Some(serial),
                Some(seq_no),
            );
            self.pos = n as u64;
            assert(self@ =~= after_read(before).0);
            return None;
        }
        match Page::parse(self.input.as_slice(), at) {
            Ok((found, end)) => {
                let off: u64 = self.pos;
                self.pos = end as u64;
                assert(self@ =~= Model { pos: end as u64, ..before });
                self.index_record(found.serial, found.granule_position, off);
                assert(self@ =~= after_read(before).0);
                Some(found)
            },
            Err(_) => self.resync_to_next_page(at + 1),
        }
    }
}

} // verus!
