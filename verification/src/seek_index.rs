//! The seek index: which pages are known, by logical bitstream and granule.
use crate::granule;
use crate::granule::SeekKey;
use vstd::prelude::*;

verus! {

/// A known page: its serial number, its granule and where it starts.
pub type Entry = (u32, i64, u64);

/// Whether page `a` comes before page `b` in the index of one bitstream: by
/// granule, then by offset.
pub open spec fn earlier(a: (i64, u64), b: (i64, u64)) -> bool {
    a.0 < b.0 || (a.0 == b.0 && a.1 < b.1)
}

/// The index after one more page. A negative granule ends no packet, so the
/// page is no seek target and is left out.
pub open spec fn recorded(ix: Set<Entry>, serial: u32, granule: i64, offset: u64) -> Set<Entry> {
    if granule < 0 {
        ix
    } else {
        ix.insert((serial, granule, offset))
    }
}

/// Whether `e` is a known page of `serial` whose key is at or before the
/// target.
pub open spec fn reaches(ix: Set<Entry>, serial: u32, key: SeekKey, e: (i64, u64)) -> bool {
    ix.contains((serial, e.0, e.1)) && granule::key_of(key.flavor, e.0 as int) <= key.target_key
}

/// Whether `r` is the last known page of `serial` whose key is at or before
/// the target, or nothing where there is no such page.
pub open spec fn is_floor(ix: Set<Entry>, serial: u32, key: SeekKey, r: Option<(i64, u64)>) -> bool {
    match r {
        Some(e) => reaches(ix, serial, key, e) && forall|o: (i64, u64)| #[trigger]
            reaches(ix, serial, key, o) ==> !earlier(e, o),
        None => forall|o: (i64, u64)| !#[trigger] reaches(ix, serial, key, o),
    }
}

/// The last known page of `serial` whose key is at or before the target.
pub open spec fn floor(ix: Set<Entry>, serial: u32, key: SeekKey) -> Option<(i64, u64)> {
    choose|r: Option<(i64, u64)>| is_floor(ix, serial, key, r)
}

/// Whether `g` is the greatest granule known of `serial`.
pub open spec fn is_last_granule(ix: Set<Entry>, serial: u32, g: i64) -> bool {
    &&& exists|o: u64| ix.contains((serial, g, o))
    &&& forall|h: i64, o: u64| #[trigger] ix.contains((serial, h, o)) ==> h <= g
}

/// The greatest granule known of `serial`.
pub open spec fn last_granule_of(ix: Set<Entry>, serial: u32) -> Option<i64> {
    if exists|g: i64| is_last_granule(ix, serial, g) {
        Some(choose|g: i64| is_last_granule(ix, serial, g))
    } else {
        None
    }
}

/// Recording a page adds that page and no other; a negative granule adds none.
pub proof fn recording_adds_one_page(
    ix: Set<Entry>,
    serial: u32,
    granule: i64,
    offset: u64,
    e: Entry,
)
    ensures
        recorded(ix, serial, granule, offset).contains(e) <==> ix.contains(e) || (granule >= 0 && e
            == (serial, granule, offset)),
        e.0 != serial ==> recorded(ix, serial, granule, offset).contains(e) == ix.contains(e),
{
}

/// Recording a page twice is recording it once.
pub proof fn recording_again_changes_nothing(ix: Set<Entry>, serial: u32, granule: i64, offset: u64)
    ensures
        recorded(recorded(ix, serial, granule, offset), serial, granule, offset) == recorded(
            ix,
            serial,
            granule,
            offset,
        ),
{
    assert(recorded(recorded(ix, serial, granule, offset), serial, granule, offset) =~= recorded(
        ix,
        serial,
        granule,
        offset,
    ));
}

/// The order in which pages are met does not matter.
pub proof fn recording_order_does_not_matter(ix: Set<Entry>, a: Entry, b: Entry)
    ensures
        recorded(recorded(ix, a.0, a.1, a.2), b.0, b.1, b.2) == recorded(
            recorded(ix, b.0, b.1, b.2),
            a.0,
            a.1,
            a.2,
        ),
{
    assert(recorded(recorded(ix, a.0, a.1, a.2), b.0, b.1, b.2) =~= recorded(
        recorded(ix, b.0, b.1, b.2),
        a.0,
        a.1,
        a.2,
    ));
}

/// There is only one floor.
pub proof fn floor_is_unique(
    ix: Set<Entry>,
    serial: u32,
    key: SeekKey,
    a: Option<(i64, u64)>,
    b: Option<(i64, u64)>,
)
    requires
        is_floor(ix, serial, key, a),
        is_floor(ix, serial, key, b),
    ensures
        a == b,
{
    if let Some(x) = a {
        assert(reaches(ix, serial, key, x));
        if let Some(y) = b {
            assert(reaches(ix, serial, key, y));
            assert(!earlier(x, y) && !earlier(y, x));
        }
    } else if let Some(y) = b {
        assert(reaches(ix, serial, key, y));
    }
}

/// On the sample axis the floor also has the greatest key of all known pages
/// at or before the target.
pub proof fn floor_has_the_greatest_key(
    ix: Set<Entry>,
    serial: u32,
    granule_offset: i64,
    target: i64,
    e: (i64, u64),
    other: (i64, u64),
)
    requires
        granule_offset >= 0,
        is_floor(
            ix,
            serial,
            SeekKey {
                target_key: target,
                flavor: granule::SeekKeyFlavor::Identity { granule_offset },
            },
            Some(e),
        ),
        reaches(
            ix,
            serial,
            SeekKey {
                target_key: target,
                flavor: granule::SeekKeyFlavor::Identity { granule_offset },
            },
            other,
        ),
    ensures
        granule::key_of(granule::SeekKeyFlavor::Identity { granule_offset }, other.0 as int)
            <= granule::key_of(granule::SeekKeyFlavor::Identity { granule_offset }, e.0 as int),
{
    assert(!earlier(e, other));
    granule::sample_keys_do_not_decrease(granule_offset, other.0 as int, e.0 as int);
}

/// The known pages of one logical bitstream, in order.
#[derive(Debug)]
pub struct IndexList {
    pub serial: u32,
    pub entries: Vec<(i64, u64)>,
}

/// The pages of one list.
pub open spec fn list_entries(l: IndexList) -> Seq<Entry> {
    Seq::new(l.entries@.len(), |j: int| (l.serial, l.entries@[j].0, l.entries@[j].1))
}

/// The pages of all lists.
pub open spec fn all_entries(lists: Seq<IndexList>) -> Seq<Entry>
    decreases lists.len(),
{
    if lists.len() == 0 {
        Seq::empty()
    } else {
        all_entries(lists.drop_last()) + list_entries(lists.last())
    }
}

/// Whether pages stand in index order, none twice, none without a granule.
pub open spec fn is_ordered(entries: Seq<(i64, u64)>) -> bool {
    &&& forall|i: int, j: int|
        0 <= i < j < entries.len() ==> earlier(#[trigger] entries[i], #[trigger] entries[j])
    &&& forall|i: int| 0 <= i < entries.len() ==> (#[trigger] entries[i]).0 >= 0
}

/// The known pages of all logical bitstreams.
#[derive(Debug)]
pub struct SeekIndex {
    pub lists: Vec<IndexList>,
}

impl View for SeekIndex {
    type V = Set<Entry>;

    open spec fn view(&self) -> Set<Entry> {
        all_entries(self.lists@).to_set()
    }
}

proof fn member_of_all(lists: Seq<IndexList>, t: Entry)
    ensures
        all_entries(lists).contains(t) <==> exists|i: int, j: int|
            #![trigger lists[i].entries@[j]]
            0 <= i < lists.len() && 0 <= j < lists[i].entries@.len() && lists[i].serial == t.0
                && lists[i].entries@[j] == (t.1, t.2),
    decreases lists.len(),
{
    if lists.len() > 0 {
        let init = lists.drop_last();
        let last = lists.last();
        member_of_all(init, t);
        let a = all_entries(init);
        let b = list_entries(last);
        if all_entries(lists).contains(t) {
            let k = choose|k: int| 0 <= k < (a + b).len() && (a + b)[k] == t;
            if k < a.len() {
                assert(a[k] == t);
                assert(a.contains(t));
                let (i, j) = choose|i: int, j: int|
                    #![trigger init[i].entries@[j]]
                    0 <= i < init.len() && 0 <= j < init[i].entries@.len() && init[i].serial == t.0
                        && init[i].entries@[j] == (t.1, t.2);
                assert(lists[i].entries@[j] == (t.1, t.2));
            } else {
                assert(b[k - a.len()] == t);
                assert(lists[lists.len() - 1].entries@[k - a.len()] == (t.1, t.2));
            }
        }
        if exists|i: int, j: int|
            #![trigger lists[i].entries@[j]]
            0 <= i < lists.len() && 0 <= j < lists[i].entries@.len() && lists[i].serial == t.0
                && lists[i].entries@[j] == (t.1, t.2) {
            let (i, j) = choose|i: int, j: int|
                #![trigger lists[i].entries@[j]]
                0 <= i < lists.len() && 0 <= j < lists[i].entries@.len() && lists[i].serial == t.0
                    && lists[i].entries@[j] == (t.1, t.2);
            if i < init.len() {
                assert(init[i].entries@[j] == (t.1, t.2));
                assert(a.contains(t));
                let k = choose|k: int| 0 <= k < a.len() && a[k] == t;
                assert((a + b)[k] == t);
            } else {
                assert(b[j] == t);
                assert((a + b)[a.len() + j] == t);
            }
        }
    }
}

proof fn no_entry_twice(lists: Seq<IndexList>)
    requires
        forall|i: int| 0 <= i < lists.len() ==> is_ordered((#[trigger] lists[i]).entries@),
        forall|i: int, j: int|
            0 <= i < j < lists.len() ==> (#[trigger] lists[i]).serial != (
            #[trigger] lists[j]).serial,
    ensures
        all_entries(lists).no_duplicates(),
    decreases lists.len(),
{
    if lists.len() > 0 {
        let init = lists.drop_last();
        let last = lists.last();
        assert forall|i: int| 0 <= i < init.len() implies is_ordered(
            (#[trigger] init[i]).entries@,
        ) by {
            assert(is_ordered(lists[i].entries@));
        }
        assert forall|i: int, j: int| 0 <= i < j < init.len() implies (#[trigger] init[i]).serial
            != (#[trigger] init[j]).serial by {
            assert(lists[i].serial != lists[j].serial);
        }
        no_entry_twice(init);
        let a = all_entries(init);
        let b = list_entries(last);
        let ab = a + b;
        assert(is_ordered(lists[lists.len() - 1].entries@));
        assert forall|x: int, y: int| 0 <= x < y < ab.len() implies ab[x] != ab[y] by {
            if y < a.len() {
                assert(a[x] != a[y]);
            } else if x >= a.len() {
                assert(earlier(last.entries@[x - a.len()], last.entries@[y - a.len()]));
            } else {
                let t = a[x];
                assert(a.contains(t));
                member_of_all(init, t);
                let (i, j) = choose|i: int, j: int|
                    #![trigger init[i].entries@[j]]
                    0 <= i < init.len() && 0 <= j < init[i].entries@.len() && init[i].serial == t.0
                        && init[i].entries@[j] == (t.1, t.2);
                assert(lists[i].serial != lists[lists.len() - 1].serial);
            }
        }
    }
}

impl SeekIndex {
    /// One list per serial number, each in order.
    pub open spec fn wf(&self) -> bool {
        &&& forall|i: int|
            0 <= i < self.lists@.len() ==> is_ordered((#[trigger] self.lists@[i]).entries@)
        &&& forall|i: int, j: int|
            0 <= i < j < self.lists@.len() ==> (#[trigger] self.lists@[i]).serial != (
            #[trigger] self.lists@[j]).serial
    }

    /// An index that knows no page.
    pub fn new() -> (r: SeekIndex)
        ensures
            r.wf(),
            r@ == Set::<Entry>::empty(),
    {
        let r = SeekIndex { lists: Vec::new() };
        assert(r@ =~= Set::<Entry>::empty());
        r
    }

    proof fn member(&self, t: Entry)
        ensures
            self@.contains(t) <==> exists|i: int, j: int|
                #![trigger self.lists@[i].entries@[j]]
                0 <= i < self.lists@.len() && 0 <= j < self.lists@[i].entries@.len()
                    && self.lists@[i].serial == t.0 && self.lists@[i].entries@[j] == (t.1, t.2),
    {
        member_of_all(self.lists@, t);
    }

    fn find_list(&self, serial: u32) -> (r: Option<usize>)
        ensures
            match r {
                Some(i) => i < self.lists@.len() && self.lists@[i as int].serial == serial,
                None => forall|i: int|
                    0 <= i < self.lists@.len() ==> (#[trigger] self.lists@[i]).serial != serial,
            },
    {
        let mut i: usize = 0;
        while i < self.lists.len()
            invariant
                i <= self.lists@.len(),
                forall|j: int| 0 <= j < i ==> (#[trigger] self.lists@[j]).serial != serial,
            decreases self.lists@.len() - i,
        {
            if self.lists[i].serial == serial {
                return Some(i);
            }
            i = i + 1;
        }
        None
    }

    /// Add a page, unless its granule is negative or it is known already.
    pub fn record(&mut self, serial: u32, granule: i64, offset: u64)
        requires
            old(self).wf(),
        ensures
            final(self).wf(),
            final(self)@ == recorded(old(self)@, serial, granule, offset),
    {
        if granule < 0 {
            return;
        }
        let ghost before = *self;
        let k: usize = match self.find_list(serial) {
            Some(k) => k,
            None => {
                self.lists.push(IndexList { serial, entries: Vec::new() });
                self.lists.len() - 1
            },
        };
        let ghost middle = *self;
        proof {
            assert forall|t: Entry| middle@.contains(t) == before@.contains(t) by {
                middle.member(t);
                before.member(t);
                if before@.contains(t) {
                    let (i, j) = choose|i: int, j: int|
                        #![trigger before.lists@[i].entries@[j]]
                        0 <= i < before.lists@.len() && 0 <= j < before.lists@[i].entries@.len()
                            && before.lists@[i].serial == t.0 && before.lists@[i].entries@[j] == (
                            t.1,
                            t.2,
                        );
                    assert(middle.lists@[i].entries@[j] == (t.1, t.2));
                }
                if middle@.contains(t) {
                    let (i, j) = choose|i: int, j: int|
                        #![trigger middle.lists@[i].entries@[j]]
                        0 <= i < middle.lists@.len() && 0 <= j < middle.lists@[i].entries@.len()
                            && middle.lists@[i].serial == t.0 && middle.lists@[i].entries@[j] == (
                            t.1,
                            t.2,
                        );
                    assert(before.lists@[i].entries@[j] == (t.1, t.2));
                }
            }
            assert(middle@ =~= before@);
            assert(middle.wf());
        }
        let entries = &mut self.lists[k].entries;
        let ghost es = entries@;
        let e: (i64, u64) = (granule, offset);
        let mut lo: usize = 0;
        let mut hi: usize = entries.len();
        while lo < hi
            invariant
                lo <= hi <= entries@.len(),
                entries@ == es,
                is_ordered(es),
                e == (granule, offset),
                forall|i: int| 0 <= i < lo ==> earlier(#[trigger] es[i], e),
                forall|i: int| hi <= i < es.len() ==> !earlier(#[trigger] es[i], e),
            decreases hi - lo,
        {
            let mid: usize = lo + (hi - lo) / 2;
            let (g, o) = entries[mid];
            if g < granule || (g == granule && o < offset) {
                lo = mid + 1;
            } else {
                hi = mid;
            }
        }
        let known: bool = lo < entries.len() && entries[lo].0 == granule && entries[lo].1 == offset;
        if !known {
            entries.insert(lo, e);
            proof {
                let ns = entries@;
                assert forall|i: int, j: int| 0 <= i < j < ns.len() implies earlier(
                    #[trigger] ns[i],
                    #[trigger] ns[j],
                ) by {
                    let i0 = if i < lo { i } else { i - 1 };
                    let j0 = if j < lo { j } else { j - 1 };
                    if i == lo {
                        assert(!earlier(es[j0], e));
                        if lo < es.len() {
                            assert(es[lo as int] != e);
                            if j0 > lo {
                                assert(earlier(es[lo as int], es[j0]));
                            }
                        }
                    } else if j == lo {
                        assert(earlier(es[i0], e));
                    } else {
                        assert(earlier(es[i0], es[j0]));
                    }
                }
                assert forall|i: int| 0 <= i < ns.len() implies (#[trigger] ns[i]).0 >= 0 by {
                    if i < lo {
                        assert(es[i].0 >= 0);
                    } else if i > lo {
                        assert(es[i - 1].0 >= 0);
                    }
                }
            }
        }
        proof {
            let fl = self.lists@;
            let ml = middle.lists@;
            let ki = k as int;
            let ns = fl[ki].entries@;
            assert(fl.len() == ml.len());
            assert(forall|i: int| 0 <= i < fl.len() && i != ki ==> fl[i] == ml[i]);
            assert(fl[ki].serial == serial);
            let t0: Entry = (serial, granule, offset);
            assert(ns[lo as int] == e);
            assert forall|t: Entry| self@.contains(t) == before@.insert(t0).contains(t) by {
                self.member(t);
                middle.member(t);
                if self@.contains(t) && t != t0 {
                    let (i, j) = choose|i: int, j: int|
                        #![trigger fl[i].entries@[j]]
                        0 <= i < fl.len() && 0 <= j < fl[i].entries@.len() && fl[i].serial == t.0
                            && fl[i].entries@[j] == (t.1, t.2);
                    if i == ki && !known {
                        let j0 = if j < lo { j } else { j - 1 };
                        assert(es[j0] == (t.1, t.2));
                        assert(ml[i].entries@[j0] == (t.1, t.2));
                    } else {
                        assert(ml[i].entries@[j] == (t.1, t.2));
                    }
                    assert(middle@.contains(t));
                }
                if middle@.contains(t) {
                    let (i, j) = choose|i: int, j: int|
                        #![trigger ml[i].entries@[j]]
                        0 <= i < ml.len() && 0 <= j < ml[i].entries@.len() && ml[i].serial == t.0
                            && ml[i].entries@[j] == (t.1, t.2);
                    if i == ki && !known {
                        let j1 = if j < lo { j } else { j + 1 };
                        assert(fl[i].entries@[j1] == (t.1, t.2));
                    } else {
                        assert(fl[i].entries@[j] == (t.1, t.2));
                    }
                }
                if t == t0 {
                    assert(fl[ki].entries@[lo as int] == (t.1, t.2));
                }
            }
            assert(self@ =~= before@.insert(t0));
            assert forall|i: int| 0 <= i < fl.len() implies is_ordered(
                (#[trigger] fl[i]).entries@,
            ) by {
                assert(is_ordered(ml[i].entries@));
            }
            assert forall|i: int, j: int| 0 <= i < j < fl.len() implies (#[trigger] fl[i]).serial
                != (#[trigger] fl[j]).serial by {
                assert(ml[i].serial != ml[j].serial);
            }
        }
    }

    /// The last known page of `serial` whose key is at or before the target.
    pub fn floor_by(&self, serial: u32, key: &SeekKey) -> (r: Option<(i64, u64)>)
        requires
            self.wf(),
            key.flavor.wf(),
        ensures
            r == floor(self@, serial, *key),
            is_floor(self@, serial, *key, r),
    {
        let k: usize = match self.find_list(serial) {
            Some(k) => k,
            None => {
                proof {
                    assert forall|o: (i64, u64)| !#[trigger] reaches(self@, serial, *key, o) by {
                        self.member((serial, o.0, o.1));
                    }
                    assert(is_floor(self@, serial, *key, None));
                    floor_is_unique(self@, serial, *key, None, floor(self@, serial, *key));
                }
                return None;
            },
        };
        let entries = &self.lists[k].entries;
        let ghost es = entries@;
        assert(is_ordered(self.lists@[k as int].entries@));
        let mut i: usize = entries.len();
        while i > 0
            invariant
                i <= entries@.len(),
                entries@ == es,
                key.flavor.wf(),
                forall|j: int|
                    i <= j < es.len() ==> granule::key_of(
                        key.flavor,
                        (#[trigger] es[j]).0 as int,
                    ) > key.target_key,
                k < self.lists@.len(),
                self.lists@[k as int].entries@ == es,
                self.lists@[k as int].serial == serial,
                self.wf(),
                is_ordered(es),
            decreases i,
        {
            i = i - 1;
            let (g, o) = entries[i];
            proof {
                granule::keys_are_in_range(key.flavor, g);
            }
            if key.key_of(g) <= key.target_key {
                proof {
                    self.member((serial, g, o));
                    assert(self.lists@[k as int].entries@[i as int] == (g, o));
                    let r = Some((g, o));
                    assert forall|p: (i64, u64)| #[trigger]
                        reaches(self@, serial, *key, p) implies !earlier((g, o), p) by {
                        self.member((serial, p.0, p.1));
                        let (a, b) = choose|a: int, b: int|
                            #![trigger self.lists@[a].entries@[b]]
                            0 <= a < self.lists@.len() && 0 <= b < self.lists@[a].entries@.len()
                                && self.lists@[a].serial == serial && self.lists@[a].entries@[b]
                                == (p.0, p.1);
                        if a < k {
                            assert(self.lists@[a].serial != self.lists@[k as int].serial);
                        } else if a > k {
                            assert(self.lists@[k as int].serial != self.lists@[a].serial);
                        }
                        assert(es[b] == p);
                        if b < i {
                            assert(earlier(es[b], es[i as int]));
                        }
                    }
                    assert(is_floor(self@, serial, *key, r));
                    floor_is_unique(self@, serial, *key, r, floor(self@, serial, *key));
                }
                return Some((g, o));
            }
        }
        proof {
            assert forall|p: (i64, u64)| !#[trigger] reaches(self@, serial, *key, p) by {
                self.member((serial, p.0, p.1));
                if reaches(self@, serial, *key, p) {
                    let (a, b) = choose|a: int, b: int|
                        #![trigger self.lists@[a].entries@[b]]
                        0 <= a < self.lists@.len() && 0 <= b < self.lists@[a].entries@.len()
                            && self.lists@[a].serial == serial && self.lists@[a].entries@[b] == (
                            p.0,
                            p.1,
                        );
                    if a < k {
                        assert(self.lists@[a].serial != self.lists@[k as int].serial);
                    } else if a > k {
                        assert(self.lists@[k as int].serial != self.lists@[a].serial);
                    }
                    assert(es[b] == p);
                }
            }
            assert(is_floor(self@, serial, *key, None));
            floor_is_unique(self@, serial, *key, None, floor(self@, serial, *key));
        }
        None
    }

    /// The greatest granule known of `serial`.
    pub fn last_granule(&self, serial: u32) -> (r: Option<i64>)
        requires
            self.wf(),
        ensures
            r == last_granule_of(self@, serial),
    {
        let k: usize = match self.find_list(serial) {
            Some(k) => k,
            None => {
                assert forall|g: i64| !is_last_granule(self@, serial, g) by {
                    assert forall|o: u64| !self@.contains((serial, g, o)) by {
                        self.member((serial, g, o));
                    }
                }
                return None;
            },
        };
        let entries = &self.lists[k].entries;
        let ghost es = entries@;
        assert(is_ordered(self.lists@[k as int].entries@));
        assert forall|g: i64, o: u64| #[trigger] self@.contains((serial, g, o)) implies exists|b: int|
            0 <= b < es.len() && #[trigger] es[b] == (g, o) by {
            self.member((serial, g, o));
            let (a, b) = choose|a: int, b: int|
                #![trigger self.lists@[a].entries@[b]]
                0 <= a < self.lists@.len() && 0 <= b < self.lists@[a].entries@.len()
                    && self.lists@[a].serial == serial && self.lists@[a].entries@[b] == (g, o);
            if a < k {
                assert(self.lists@[a].serial != self.lists@[k as int].serial);
            } else if a > k {
                assert(self.lists@[k as int].serial != self.lists@[a].serial);
            }
            assert(es[b] == (g, o));
        }
        if entries.len() == 0 {
            assert forall|g: i64| !is_last_granule(self@, serial, g) by {
                if is_last_granule(self@, serial, g) {
                    let o = choose|o: u64| self@.contains((serial, g, o));
                    assert(self@.contains((serial, g, o)));
                }
            }
            return None;
        }
        let n: usize = entries.len();
        let (g, o) = entries[n - 1];
        proof {
            self.member((serial, g, o));
            assert(self.lists@[k as int].entries@[n - 1] == (g, o));
            assert(self@.contains((serial, g, o)));
            assert forall|h: i64, p: u64| #[trigger] self@.contains((serial, h, p)) implies h
                <= g by {
                let b = choose|b: int| 0 <= b < es.len() && #[trigger] es[b] == (h, p);
                if b < n - 1 {
                    assert(earlier(es[b], es[n - 1]));
                }
            }
            assert(is_last_granule(self@, serial, g));
            let c = choose|c: i64| is_last_granule(self@, serial, c);
            let oc = choose|oc: u64| self@.contains((serial, c, oc));
            assert(self@.contains((serial, c, oc)));
        }
        Some(g)
    }

    /// Number of known pages.
    pub fn len(&self) -> (r: usize)
        requires
            self.wf(),
            self@.len() <= usize::MAX,
        ensures
            r == self@.len(),
    {
        let ghost ls = self.lists@;
        proof {
            no_entry_twice(ls);
            all_entries(ls).unique_seq_to_set();
        }
        let mut total: usize = 0;
        let mut i: usize = 0;
        assert(ls.subrange(0, 0) =~= Seq::<IndexList>::empty());
        while i < self.lists.len()
            invariant
                i <= ls.len(),
                ls == self.lists@,
                total == all_entries(ls.subrange(0, i as int)).len(),
                all_entries(ls).len() <= usize::MAX,
            decreases ls.len() - i,
        {
            proof {
                assert(ls.subrange(0, i + 1).drop_last() =~= ls.subrange(0, i as int));
                prefix_is_no_longer(ls, i + 1);
            }
            total = total + self.lists[i].entries.len();
            i = i + 1;
        }
        assert(ls.subrange(0, i as int) =~= ls);
        total
    }
}

proof fn prefix_is_no_longer(lists: Seq<IndexList>, n: int)
    requires
        0 <= n <= lists.len(),
    ensures
        all_entries(lists.subrange(0, n)).len() <= all_entries(lists).len(),
    decreases lists.len() - n,
{
    if n < lists.len() {
        prefix_is_no_longer(lists, n + 1);
        assert(lists.subrange(0, n + 1).drop_last() =~= lists.subrange(0, n));
    } else {
        assert(lists.subrange(0, n) =~= lists);
    }
}

} // verus!
