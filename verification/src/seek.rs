//! Finding a page by time.
use crate::bytes;
use crate::codec_id;
use crate::codec_id::Mapping;
use crate::demux;
use crate::demux::{LogicalStream, Model, OggDemuxer, SeekCounts, SkelView, StateView};
use crate::error::Error;
use crate::granule;
use crate::granule::{SeekKey, SeekKeyFlavor};
use crate::media;
use crate::media::TimeBase;
use crate::page;
use crate::process;
use crate::reader;
use crate::reassembly;
use crate::scan;
use crate::seek_index;
use crate::skeleton;
use crate::skeleton::{IndexView, Keypoint, SkelIndex, Track};
use std::collections::VecDeque;
use vstd::prelude::*;

verus! {

/// How far each step of the search looks for a page.
pub const SCAN_WINDOW: u64 = 65536;

/// How many steps the search takes at most.
pub const MAX_STEPS: u32 = 64;

// ---------------------------------------------------------------------------
// Pages of one stream
// ---------------------------------------------------------------------------

/// The first page of `serial` with a granule from `cursor` on, found by going
/// from page header to page header before `limit`, and the index with every
/// page header met on the way.
pub open spec fn next_of_serial(
    s: Seq<u8>,
    ix: Set<seek_index::Entry>,
    cursor: int,
    limit: int,
    serial: u32,
) -> (Set<seek_index::Entry>, Option<int>)
    decreases limit - cursor,
    via next_of_serial_ends
{
    match reader::next_capture(s, cursor, limit) {
        None => (ix, None),
        Some(p) => if cursor < 0 || limit > s.len() || p + 27 > s.len() {
            (ix, None)
        } else {
            let found = page::serial_at(s, p);
            let granule = page::granule_at(s, p);
            let more = seek_index::recorded(ix, found, granule, p as u64);
            if found == serial && granule >= 0 {
                (more, Some(p))
            } else if !page::has_table(s, p) || page::page_end(s, p) >= limit {
                (more, None)
            } else {
                next_of_serial(s, more, page::page_end(s, p), limit, serial)
            }
        },
    }
}

#[via_fn]
proof fn next_of_serial_ends(
    s: Seq<u8>,
    ix: Set<seek_index::Entry>,
    cursor: int,
    limit: int,
    serial: u32,
) {
    if cursor >= 0 && limit <= s.len() {
        reader::next_capture_is_the_first(s, cursor, limit);
        if let Some(p) = reader::next_capture(s, cursor, limit) {
            if page::has_table(s, p) {
                page::body_len_nonneg(page::lacing_at(s, p));
            }
        }
    }
}

/// A page found is one of the stream, inside the window, and what the index
/// learns is true.
pub proof fn next_of_serial_holds(
    s: Seq<u8>,
    ix: Set<seek_index::Entry>,
    cursor: int,
    limit: int,
    serial: u32,
)
    requires
        0 <= cursor,
        limit <= s.len() <= usize::MAX,
        forall|e: seek_index::Entry| #[trigger] ix.contains(e) ==> demux::entry_holds(s, e),
    ensures
        forall|e: seek_index::Entry| #[trigger]
            next_of_serial(s, ix, cursor, limit, serial).0.contains(e) ==> demux::entry_holds(s, e),
        next_of_serial(s, ix, cursor, limit, serial).1 matches Some(p) ==> {
            &&& cursor <= p
            &&& p + 4 <= limit
            &&& demux::entry_holds(s, (serial, page::granule_at(s, p), p as u64))
        },
    decreases limit - cursor,
{
    reader::next_capture_is_the_first(s, cursor, limit);
    if let Some(p) = reader::next_capture(s, cursor, limit) {
        if p + 27 <= s.len() {
            let found = page::serial_at(s, p);
            let granule = page::granule_at(s, p);
            let more = seek_index::recorded(ix, found, granule, p as u64);
            assert forall|e: seek_index::Entry| #[trigger] more.contains(e) implies
                demux::entry_holds(s, e) by {
                if !ix.contains(e) {
                    assert(e == (found, granule, p as u64));
                }
            }
            if !(found == serial && granule >= 0) && page::has_table(s, p) && page::page_end(s, p)
                < limit {
                page::body_len_nonneg(page::lacing_at(s, p));
                next_of_serial_holds(s, more, page::page_end(s, p), limit, serial);
            }
        }
    }
}

// ---------------------------------------------------------------------------
// Bisection
// ---------------------------------------------------------------------------

/// What a search is for: a stream and a target on its axis.
pub struct Quest {
    pub serial: u32,
    pub key: SeekKey,
}

/// The key of the page at `p`.
pub open spec fn key_at(s: Seq<u8>, key: SeekKey, p: int) -> int {
    granule::key_of(key.flavor, page::granule_at(s, p) as int)
}

/// The better of the best page so far and the page at `p`: the one with the
/// later key, and of two with the same key the new one.
pub open spec fn better(s: Seq<u8>, key: SeekKey, best: Option<int>, p: int) -> Option<int> {
    match best {
        Some(b) => if key_at(s, key, p) >= key_at(s, key, b) {
            Some(p)
        } else {
            best
        },
        None => Some(p),
    }
}

/// The search in progress: the range left, the best page so far, and the
/// index with all that was met.
#[verifier::ext_equal]
pub struct Range {
    pub lo: int,
    pub hi: int,
    pub best: Option<int>,
    pub index: Set<seek_index::Entry>,
}

/// `a + b`, but not more than `cap`.
pub open spec fn capped(a: int, b: int, cap: int) -> int {
    if a + b < cap {
        a + b
    } else {
        cap
    }
}

/// The search after at most `steps` halvings.
pub open spec fn bisected(s: Seq<u8>, q: Quest, r: Range, steps: int) -> Range
    decreases steps,
{
    if steps <= 0 || r.lo >= r.hi {
        r
    } else {
        let mid = r.lo + (r.hi - r.lo) / 2;
        match next_of_serial(
            s,
            r.index,
            mid,
            capped(mid, SCAN_WINDOW as int, s.len() as int),
            q.serial,
        ) {
            (index, None) => bisected(s, q, Range { hi: mid, index, ..r }, steps - 1),
            (index, Some(p)) => {
                let after = if key_at(s, q.key, p) <= q.key.target_key {
                    Range { lo: p + 1, best: better(s, q.key, r.best, p), index, ..r }
                } else {
                    Range { hi: p, index, ..r }
                };
                if after.hi - after.lo < SCAN_WINDOW {
                    after
                } else {
                    bisected(s, q, after, steps - 1)
                }
            },
        }
    }
}

/// The search after going on page by page from `cursor` while pages are not
/// past the target.
pub open spec fn tightened(s: Seq<u8>, q: Quest, r: Range, cursor: int, limit: int) -> Range
    decreases limit - cursor,
    via tightened_ends
{
    if cursor < 0 || limit > s.len() || cursor >= limit {
        r
    } else {
        match next_of_serial(s, r.index, cursor, limit, q.serial) {
            (index, None) => Range { index, ..r },
            (index, Some(p)) => if key_at(s, q.key, p) > q.key.target_key {
                Range { index, ..r }
            } else {
                tightened(
                    s,
                    q,
                    Range { best: better(s, q.key, r.best, p), index, ..r },
                    p + 1,
                    limit,
                )
            },
        }
    }
}

#[via_fn]
proof fn tightened_ends(s: Seq<u8>, q: Quest, r: Range, cursor: int, limit: int) {
    if cursor >= 0 && limit <= s.len() {
        found_page_is_ahead(s, r.index, cursor, limit, q.serial);
    }
}

proof fn found_page_is_ahead(
    s: Seq<u8>,
    ix: Set<seek_index::Entry>,
    cursor: int,
    limit: int,
    serial: u32,
)
    requires
        0 <= cursor,
        limit <= s.len(),
    ensures
        next_of_serial(s, ix, cursor, limit, serial).1 matches Some(p) ==> cursor <= p && p + 4
            <= limit,
    decreases limit - cursor,
{
    reader::next_capture_is_the_first(s, cursor, limit);
    if let Some(p) = reader::next_capture(s, cursor, limit) {
        if p + 27 <= s.len() {
            let found = page::serial_at(s, p);
            let granule = page::granule_at(s, p);
            let more = seek_index::recorded(ix, found, granule, p as u64);
            if !(found == serial && granule >= 0) && page::has_table(s, p) && page::page_end(s, p)
                < limit {
                page::body_len_nonneg(page::lacing_at(s, p));
                found_page_is_ahead(s, more, page::page_end(s, p), limit, serial);
            }
        }
    }
}

/// The page that a search finds, and the index with all that was met. `known`
/// is a page already known at or before the target: the search can only
/// improve on it. Where every page met is past the target it is the stream's
/// first page.
pub open spec fn searched(
    s: Seq<u8>,
    q: Quest,
    index: Set<seek_index::Entry>,
    known: Option<int>,
) -> Range {
    let start = Range { lo: 0, hi: s.len() as int, best: known, index };
    let r = bisected(s, q, start, MAX_STEPS as int);
    let from = match r.best {
        Some(b) => b + 1,
        None => r.lo,
    };
    let t = tightened(s, q, r, from, capped(from, 2 * SCAN_WINDOW, r.hi));
    match t.best {
        Some(_) => t,
        None => {
            let (more, first) = next_of_serial(s, t.index, 0, s.len() as int, q.serial);
            Range { best: first, index: more, ..t }
        },
    }
}

/// Whether `b` is a page at least as late as `a`.
pub open spec fn no_worse(s: Seq<u8>, key: SeekKey, a: Option<int>, b: Option<int>) -> bool {
    a matches Some(x) ==> b matches Some(y) && key_at(s, key, x) <= key_at(s, key, y)
}

/// Whether a search in progress is sound: its range lies inside the input,
/// its best page is a page of the stream at or before the target, and what
/// the index says is true.
pub open spec fn range_holds(s: Seq<u8>, q: Quest, r: Range) -> bool {
    &&& 0 <= r.lo
    &&& r.hi <= s.len()
    &&& forall|e: seek_index::Entry| #[trigger] r.index.contains(e) ==> demux::entry_holds(s, e)
    &&& r.best matches Some(b) ==> {
        &&& 0 <= b < s.len()
        &&& demux::entry_holds(s, (q.serial, page::granule_at(s, b), b as u64))
        &&& key_at(s, q.key, b) <= q.key.target_key
    }
}

/// Bisection keeps the search sound.
pub proof fn bisecting_holds(s: Seq<u8>, q: Quest, r: Range, steps: int)
    requires
        range_holds(s, q, r),
        s.len() <= usize::MAX,
    ensures
        range_holds(s, q, bisected(s, q, r, steps)),
        no_worse(s, q.key, r.best, bisected(s, q, r, steps).best),
    decreases steps,
{
    if steps > 0 && r.lo < r.hi {
        let mid = r.lo + (r.hi - r.lo) / 2;
        let limit = capped(mid, SCAN_WINDOW as int, s.len() as int);
        next_of_serial_holds(s, r.index, mid, limit, q.serial);
        match next_of_serial(s, r.index, mid, limit, q.serial) {
            (index, None) => {
                bisecting_holds(s, q, Range { hi: mid, index, ..r }, steps - 1);
            },
            (index, Some(p)) => {
                let after = if key_at(s, q.key, p) <= q.key.target_key {
                    Range { lo: p + 1, best: better(s, q.key, r.best, p), index, ..r }
                } else {
                    Range { hi: p, index, ..r }
                };
                assert(range_holds(s, q, after));
                bisecting_holds(s, q, after, steps - 1);
            },
        }
    }
}

/// Going on page by page keeps the search sound.
pub proof fn tightening_holds(s: Seq<u8>, q: Quest, r: Range, cursor: int, limit: int)
    requires
        range_holds(s, q, r),
        s.len() <= usize::MAX,
    ensures
        range_holds(s, q, tightened(s, q, r, cursor, limit)),
        no_worse(s, q.key, r.best, tightened(s, q, r, cursor, limit).best),
    decreases limit - cursor,
{
    if 0 <= cursor && limit <= s.len() && cursor < limit {
        next_of_serial_holds(s, r.index, cursor, limit, q.serial);
        if let (index, Some(p)) = next_of_serial(s, r.index, cursor, limit, q.serial) {
            if key_at(s, q.key, p) <= q.key.target_key {
                let after = Range { best: better(s, q.key, r.best, p), index, ..r };
                assert(range_holds(s, q, after));
                tightening_holds(s, q, after, p + 1, limit);
            }
        }
    }
}

/// A search lands on a page header of the stream at or before the target, and
/// never before a page already known; or, where it met no such page, on the
/// first page of the stream that a walk from the start meets.
pub proof fn search_lands_on_a_page(
    s: Seq<u8>,
    q: Quest,
    index: Set<seek_index::Entry>,
    known: Option<int>,
)
    requires
        range_holds(s, q, Range { lo: 0, hi: s.len() as int, best: known, index }),
        s.len() <= usize::MAX,
    ensures
        forall|e: seek_index::Entry| #[trigger]
            searched(s, q, index, known).index.contains(e) ==> demux::entry_holds(s, e),
        no_worse(s, q.key, known, searched(s, q, index, known).best),
        searched(s, q, index, known).best matches Some(p) ==> {
            &&& 0 <= p < s.len()
            &&& demux::entry_holds(s, (q.serial, page::granule_at(s, p), p as u64))
            &&& key_at(s, q.key, p) <= q.key.target_key || exists|ix: Set<seek_index::Entry>| #[trigger]
                next_of_serial(s, ix, 0, s.len() as int, q.serial).1 == Some(p)
        },
{
    let start = Range { lo: 0, hi: s.len() as int, best: known, index };
    bisecting_holds(s, q, start, MAX_STEPS as int);
    let r = bisected(s, q, start, MAX_STEPS as int);
    let from = match r.best {
        Some(b) => b + 1,
        None => r.lo,
    };
    let limit = capped(from, 2 * SCAN_WINDOW, r.hi);
    tightening_holds(s, q, r, from, limit);
    let t = tightened(s, q, r, from, limit);
    if t.best is None {
        next_of_serial_holds(s, t.index, 0, s.len() as int, q.serial);
    }
}

// ---------------------------------------------------------------------------
// The Skeleton's keyframe index
// ---------------------------------------------------------------------------

/// The last seek point at or before `t`.
pub open spec fn floor_point(points: Seq<Keypoint>, t: i64) -> Option<Keypoint>
    decreases points.len(),
{
    if points.len() == 0 {
        None
    } else if points.last().timestamp <= t {
        Some(points.last())
    } else {
        floor_point(points.drop_last(), t)
    }
}

/// The last seek point of an index at or before `t`; an index without a
/// usable time unit has none.
pub open spec fn index_floor(index: IndexView, t: i64) -> Option<Keypoint> {
    if index.timestamp_denominator <= 0 {
        None
    } else {
        floor_point(index.keypoints, t)
    }
}

/// The unit of an index's timestamps.
pub open spec fn index_tick(index: IndexView) -> TimeBase {
    TimeBase { num: 1, den: index.timestamp_denominator }
}

/// Of the seek points before the target in the first `n` indexes other than
/// that of `serial`, and of the seek point `start`, the one that stands first
/// in the file: its offset and the serial number of its stream.
pub open spec fn earliest_point(
    indexes: Seq<IndexView>,
    n: int,
    serial: u32,
    pts: i64,
    tick: TimeBase,
    start: (u64, u32),
) -> (u64, u32)
    decreases n,
{
    if n <= 0 {
        start
    } else {
        let best = earliest_point(indexes, n - 1, serial, pts, tick, start);
        let other = indexes[n - 1];
        if other.serial == serial {
            best
        } else {
            match index_floor(other, media::rescaled(pts, tick, index_tick(other))) {
                Some(k) => if k.offset < best.0 {
                    (k.offset, other.serial)
                } else {
                    best
                },
                None => best,
            }
        }
    }
}

/// Where the keyframe index says to go for `pts` on `serial`: the offset, the
/// stream that the page there should belong to, and the timestamp reached on
/// `serial`.
pub open spec fn index_target(m: Model, serial: u32, pts: i64, tick: TimeBase) -> Option<
    (u64, u32, i64),
> {
    match m.skel.skeleton {
        None => None,
        Some(sk) => match skeleton::first_index(sk.indexes, serial) {
            None => None,
            Some(own) => match index_floor(own, media::rescaled(pts, tick, index_tick(own))) {
                None => None,
                Some(k) => {
                    let (off, winner) = earliest_point(
                        sk.indexes,
                        sk.indexes.len() as int,
                        serial,
                        pts,
                        tick,
                        (k.offset, serial),
                    );
                    Some((off, winner, media::rescaled(k.timestamp, index_tick(own), tick)))
                },
            },
        },
    }
}

/// Whether a page of `serial` begins at `off`.
pub open spec fn page_of_serial_at(s: Seq<u8>, off: int, serial: u32) -> bool {
    page::is_capture(s, off) && off + 27 <= s.len() && page::serial_at(s, off) == serial
}

/// Whether the segment length that the Skeleton declares agrees with the
/// input: it is absent or 0, it is the length of the input, or a page begins
/// where the segment ends.
pub open spec fn segment_agrees(m: Model) -> bool {
    match m.skel.skeleton {
        None => true,
        Some(sk) => match sk.head.segment_length {
            None => true,
            Some(n) => n == 0 || n == m.input.len() || (n < m.input.len() && page::is_capture(
                m.input,
                n as int,
            )),
        },
    }
}

/// The answer to that question, which is asked once.
pub open spec fn segment_check(m: Model) -> bool {
    match m.segment_ok {
        Some(b) => b,
        None => segment_agrees(m),
    }
}

// ---------------------------------------------------------------------------
// Seeking
// ---------------------------------------------------------------------------

/// A state of which it is not known what comes next.
pub open spec fn emptied(st: StateView) -> StateView {
    StateView {
        partial: reassembly::anything(),
        last_seq: None,
        rereading: 0,
        next_frame: None,
        ..st
    }
}

/// The Skeleton bitstream when it is not known what comes next.
pub open spec fn unplaced(skel: SkelView) -> SkelView {
    SkelView { pending: Seq::empty(), adrift: true, last_seq: None, ..skel }
}

/// The demuxer at `pos`, with nothing pending and nothing queued.
pub open spec fn flushed(m: Model, pos: u64) -> Model {
    Model {
        pos,
        page_queue: Seq::empty(),
        out_queue: Seq::empty(),
        states: Seq::new(m.states.len(), |i: int| emptied(m.states[i])),
        skel: unplaced(m.skel),
        ..m
    }
}

/// The axis and target of a Theora seek by the identification header.
pub open spec fn key_from_id(st: StateView, pts: i64, tick: TimeBase) -> Option<SeekKey> {
    match st.theora {
        None => None,
        Some(g) => Some(
            SeekKey {
                target_key: media::rescaled(pts, tick, tick),
                flavor: SeekKeyFlavor::TheoraFrame {
                    shift: g.shift,
                    bias: if g.count_from_one {
                        1
                    } else {
                        0
                    },
                },
            },
        ),
    }
}

/// The axis and target of a Theora seek by the track description, which must
/// give a shift and a rate.
pub open spec fn key_from_bone(bone: Option<Track>, pts: i64, tick: TimeBase) -> Option<SeekKey> {
    match bone {
        None => None,
        Some(b) => if b.granuleshift == 0 || b.granule_rate.numerator <= 0
            || b.granule_rate.denominator <= 0 {
            None
        } else {
            Some(
                SeekKey {
                    target_key: media::rescaled(
                        pts,
                        tick,
                        TimeBase {
                            num: b.granule_rate.denominator,
                            den: b.granule_rate.numerator,
                        },
                    ),
                    flavor: SeekKeyFlavor::TheoraFrame { shift: b.granuleshift as u32, bias: 0 },
                },
            )
        },
    }
}

/// The axis and target of a seek on the stream at `i`, or why it has none.
pub open spec fn seek_key(m: Model, i: int, pts: i64) -> Result<SeekKey, Error> {
    let st = m.states[i];
    let tick = m.streams[i].time_base;
    match codec_id::mapping_of(m.streams[i].params.codec_id) {
        Mapping::Opus => Ok(
            SeekKey {
                target_key: pts,
                flavor: SeekKeyFlavor::Identity {
                    granule_offset: match st.pre_skip {
                        Some(p) => p as i64,
                        None => 0,
                    },
                },
            },
        ),
        Mapping::Vorbis | Mapping::Flac | Mapping::Speex => Ok(
            SeekKey { target_key: pts, flavor: SeekKeyFlavor::Identity { granule_offset: 0 } },
        ),
        Mapping::Theora => match key_from_id(st, pts, tick) {
            Some(k) => Ok(k),
            None => match key_from_bone(process::bone_of(m, st.serial), pts, tick) {
                Some(k) => Ok(k),
                None => Err(Error::UnknownFrameLayout(i as u32)),
            },
        },
        Mapping::Other => Err(Error::SeekUnsupported(i as u32)),
    }
}

/// The demuxer after the attempt to seek by the keyframe index, and the
/// timestamp reached if it succeeded. An index that does not lead to a page
/// of the right stream, or was made for another segment, is rejected.
pub open spec fn index_attempt(m: Model, i: int, pts: i64) -> (Model, Option<i64>) {
    let serial = m.states[i].serial;
    let tick = m.streams[i].time_base;
    let checked = Model { segment_ok: Some(segment_check(m)), ..m };
    let rejected = Model {
        counts: SeekCounts {
            index_rejects: m.counts.index_rejects.saturating_add(1),
            ..m.counts
        },
        ..checked
    };
    if segment_check(m) {
        match index_target(m, serial, pts, tick) {
            None => (checked, None),
            Some((off, winner, reached)) => if page_of_serial_at(m.input, off as int, winner) {
                (
                    Model {
                        counts: SeekCounts {
                            index_seeks: m.counts.index_seeks.saturating_add(1),
                            ..m.counts
                        },
                        ..flushed(checked, off)
                    },
                    Some(reached),
                )
            } else {
                (rejected, None)
            },
        }
    } else if m.skel.skeleton is Some && skeleton::first_index(
        m.skel.skeleton->0.indexes,
        serial,
    ) is Some {
        (rejected, None)
    } else {
        (checked, None)
    }
}

/// Where a scan of the whole input from `cursor` on stops reading that finds
/// no page: behind the header and segment table of the last page, or at the
/// end of the input where no whole page ends it.
pub open spec fn scan_end(s: Seq<u8>, cursor: int) -> int
    decreases scan::left(s, cursor),
    via scan_ends
{
    match reader::next_capture(s, cursor, s.len() as int) {
        None => s.len() as int,
        Some(p) => if cursor < 0 || !page::has_table(s, p) {
            s.len() as int
        } else if page::page_end(s, p) >= s.len() {
            p + 27 + s[p + 26]
        } else {
            scan_end(s, page::page_end(s, p))
        },
    }
}

#[via_fn]
proof fn scan_ends(s: Seq<u8>, cursor: int) {
    if cursor >= 0 {
        reader::next_capture_is_the_first(s, cursor, s.len() as int);
        if let Some(p) = reader::next_capture(s, cursor, s.len() as int) {
            if page::has_table(s, p) {
                page::body_len_nonneg(page::lacing_at(s, p));
            }
        }
    }
}

/// The demuxer after a search of the input, and the granule of the page found.
/// `known` is a page already known at or before the target. Where no page is
/// found, reading goes on from where the search stopped.
pub open spec fn search_attempt(m: Model, i: int, key: SeekKey, known: Option<int>) -> (
    Model,
    Result<i64, Error>,
) {
    let q = Quest { serial: m.states[i].serial, key };
    let r = searched(m.input, q, m.index, known);
    let met = Model { index: r.index, ..m };
    match r.best {
        Some(p) => (flushed(met, p as u64), Ok(page::granule_at(m.input, p))),
        None => (
            Model { pos: scan_end(m.input, 0) as u64, ..met },
            Err(Error::NoSeekablePage(i as u32)),
        ),
    }
}

/// The demuxer after a seek by the known pages and, where they may not be
/// all, by a search.
pub open spec fn page_attempt(m: Model, i: int, key: SeekKey) -> (Model, Result<i64, Error>) {
    match seek_index::floor(m.index, m.states[i].serial, key) {
        Some((g, off)) => if m.index_built {
            (flushed(m, off), Ok(g))
        } else {
            search_attempt(flushed(m, off), i, key, Some(off as int))
        },
        None => search_attempt(m, i, key, None),
    }
}

/// The demuxer after a seek to `pts` on stream `index`, and the granule
/// reached.
pub open spec fn seeked(m: Model, index: u32, pts: i64) -> (Model, Result<i64, Error>) {
    if index >= m.streams.len() {
        (m, Err(Error::StreamIndexOutOfRange(index)))
    } else {
        match seek_key(m, index as int, pts) {
            Err(e) => (m, Err(e)),
            Ok(key) => if m.input.len() == 0 {
                (m, Err(Error::EmptyInput))
            } else {
                match index_attempt(m, index as int, pts) {
                    (after, Some(reached)) => (after, Ok(reached)),
                    (after, None) => page_attempt(after, index as int, key),
                }
            },
        }
    }
}

// ---------------------------------------------------------------------------
// Soundness
// ---------------------------------------------------------------------------

/// Flushing keeps the demuxer sound.
pub proof fn flushing_keeps_wf(m: Model, pos: u64)
    requires
        m.wf(),
    ensures
        flushed(m, pos).wf(),
{
    let after = flushed(m, pos);
    assert(after.skeleton_serial() == m.skeleton_serial());
    assert forall|i: int| 0 <= i < after.states.len() implies after.skeleton_serial() != Some(
        (#[trigger] after.states[i]).serial,
    ) by {
        assert(m.skeleton_serial() != Some(m.states[i].serial));
    }
    assert forall|a: int, b: int| 0 <= a < b < after.states.len() implies (
    #[trigger] after.states[a]).serial != (#[trigger] after.states[b]).serial by {
        assert(m.states[a].serial != m.states[b].serial);
    }
}

// ---------------------------------------------------------------------------
// Executable side
// ---------------------------------------------------------------------------

/// The last seek point of an index at or before `t`.
pub fn keypoint_floor(index: &SkelIndex, t: i64) -> (r: Option<Keypoint>)
    ensures
        r == index_floor(index@, t),
{
    if index.timestamp_denominator <= 0 {
        return None;
    }
    let ghost all = index.keypoints@;
    let mut i: usize = index.keypoints.len();
    assert(all.take(i as int) =~= all);
    while i > 0
        invariant
            i <= all.len(),
            all == index.keypoints@,
            index.timestamp_denominator > 0,
            floor_point(all, t) == floor_point(all.take(i as int), t),
        decreases i,
    {
        assert(all.take(i as int).drop_last() =~= all.take(i - 1));
        let k: Keypoint = index.keypoints[i - 1];
        if k.timestamp <= t {
            return Some(k);
        }
        i = i - 1;
    }
    None
}

/// The range left, the best page so far with its key, while searching.
struct Search {
    lo: usize,
    hi: usize,
    best: Option<(usize, i64)>,
}

spec fn search_range(s: Search, index: Set<seek_index::Entry>) -> Range {
    Range {
        lo: s.lo as int,
        hi: s.hi as int,
        best: match s.best {
            Some((p, _)) => Some(p as int),
            None => None,
        },
        index,
    }
}

spec fn best_key_holds(s: Seq<u8>, key: SeekKey, best: Option<(usize, i64)>) -> bool {
    best matches Some((p, k)) ==> k == key_at(s, key, p as int)
}

impl OggDemuxer {
    /// The first page of `serial` with a granule from `start` on, before
    /// `limit`. Every page header met on the way is indexed.
    pub fn find_next_page_for_serial(&mut self, start: usize, limit: usize, serial: u32) -> (r:
        Option<(usize, i64)>)
        requires
            old(self).wf(),
            limit <= old(self)@.input.len(),
        ensures
            final(self).wf(),
            final(self)@ == (Model {
                index: next_of_serial(
                    old(self)@.input,
                    old(self)@.index,
                    start as int,
                    limit as int,
                    serial,
                ).0,
                ..old(self)@
            }),
            match r {
                Some((p, g)) => {
                    &&& next_of_serial(
                        old(self)@.input,
                        old(self)@.index,
                        start as int,
                        limit as int,
                        serial,
                    ).1 == Some(p as int)
                    &&& g == page::granule_at(old(self)@.input, p as int)
                    &&& start <= p
                    &&& p + 4 <= limit
                },
                None => next_of_serial(
                    old(self)@.input,
                    old(self)@.index,
                    start as int,
                    limit as int,
                    serial,
                ).1 is None,
            },
    {
        let ghost before = self@;
        let ghost s = before.input;
        let ghost goal = next_of_serial(s, before.index, start as int, limit as int, serial);
        let n: usize = self.input.len();
        let mut cursor: usize = start;
        assert(self@ =~= Model { index: before.index, ..before });
        loop
            invariant
                self.wf(),
                start <= cursor,
                limit <= n,
                n == s.len(),
                s == before.input,
                before == old(self)@,
                self@ == (Model { index: self@.index, ..before }),
                goal == next_of_serial(s, before.index, start as int, limit as int, serial),
                goal == next_of_serial(s, self@.index, cursor as int, limit as int, serial),
            decreases n - cursor,
        {
            let at: usize = match reader::find_capture(self.input.as_slice(), cursor, limit) {
                Some(p) => p,
                None => {
                    return None;
                },
            };
            if n - at < 27 {
                return None;
            }
            assert(self.input.len() == n);
            let granule: i64 = bytes::le_i64_at(self.input.as_slice(), at + 6);
            let found: u32 = bytes::le32_at(self.input.as_slice(), at + 14);
            self.index_record(found, granule, at as u64);
            assert(self@ =~= Model { index: self@.index, ..before });
            if found == serial && granule >= 0 {
                return Some((at, granule));
            }
            let n_segs: usize = self.input[at + 26] as usize;
            if n - at - 27 < n_segs {
                return None;
            }
            let table_end: usize = at + 27 + n_segs;
            let body: usize = page::table_sum(self.input.as_slice(), at + 27, table_end);
            if table_end >= limit || limit - table_end <= body {
                return None;
            }
            cursor = table_end + body;
        }
    }

    fn bisect(&mut self, serial: u32, key: &SeekKey, known: Option<(usize, i64)>) -> (r: Search)
        requires
            old(self).wf(),
            key.flavor.wf(),
            best_key_holds(old(self)@.input, *key, known),
        ensures
            final(self).wf(),
            final(self)@ == (Model { index: final(self)@.index, ..old(self)@ }),
            search_range(r, final(self)@.index) == bisected(
                old(self)@.input,
                Quest { serial, key: *key },
                Range {
                    lo: 0,
                    hi: old(self)@.input.len() as int,
                    best: match known {
                        Some((p, _)) => Some(p as int),
                        None => None,
                    },
                    index: old(self)@.index,
                },
                MAX_STEPS as int,
            ),
            best_key_holds(old(self)@.input, *key, r.best),
            r.hi <= old(self)@.input.len(),
    {
        let ghost before = self@;
        let ghost s = before.input;
        let ghost q = Quest { serial, key: *key };
        let n: usize = self.input.len();
        let mut at = Search { lo: 0, hi: n, best: known };
        let ghost goal = bisected(s, q, search_range(at, before.index), MAX_STEPS as int);
        let mut steps: u32 = MAX_STEPS;
        assert(self@ =~= Model { index: before.index, ..before });
        while steps > 0 && at.lo < at.hi
            invariant_except_break
                goal == bisected(s, q, search_range(at, self@.index), steps as int),
            invariant
                self.wf(),
                key.flavor.wf(),
                n == s.len(),
                s == before.input,
                q == (Quest { serial, key: *key }),
                self@ == (Model { index: self@.index, ..before }),
                at.hi <= n,
                best_key_holds(s, *key, at.best),
            ensures
                search_range(at, self@.index) == goal,
            decreases steps,
        {
            let mid: usize = at.lo + (at.hi - at.lo) / 2;
            let limit: usize = if n - mid > SCAN_WINDOW as usize {
                mid + SCAN_WINDOW as usize
            } else {
                n
            };
            steps = steps - 1;
            match self.find_next_page_for_serial(mid, limit, serial) {
                None => {
                    at.hi = mid;
                },
                Some((p, g)) => {
                    proof {
                        granule::keys_are_in_range(key.flavor, g);
                    }
                    let k: i64 = key.key_of(g);
                    if k <= key.target_key {
                        let take: bool = match at.best {
                            Some((_, best)) => k >= best,
                            None => true,
                        };
                        if take {
                            at.best = Some((p, k));
                        }
                        at.lo = p + 1;
                    } else {
                        at.hi = p;
                    }
                    if at.hi <= at.lo || at.hi - at.lo < SCAN_WINDOW as usize {
                        break;
                    }
                },
            }
        }
        at
    }

    fn tighten(&mut self, serial: u32, key: &SeekKey, at: &Search) -> (r: Option<usize>)
        requires
            old(self).wf(),
            key.flavor.wf(),
            at.best matches Some((p, _)) ==> p < old(self)@.input.len(),
            at.hi <= old(self)@.input.len(),
            best_key_holds(old(self)@.input, *key, at.best),
        ensures
            final(self).wf(),
            final(self)@ == (Model { index: final(self)@.index, ..old(self)@ }),
            ({
                let start = search_range(*at, old(self)@.index);
                let from = match start.best {
                    Some(b) => b + 1,
                    None => start.lo,
                };
                tightened(
                    old(self)@.input,
                    Quest { serial, key: *key },
                    start,
                    from,
                    capped(from, 2 * SCAN_WINDOW, at.hi as int),
                ) == (Range {
                    best: match r {
                        Some(p) => Some(p as int),
                        None => None,
                    },
                    ..search_range(*at, final(self)@.index)
                })
            }),
    {
        let ghost before = self@;
        let ghost s = before.input;
        let ghost q = Quest { serial, key: *key };
        let hi: usize = at.hi;
        let lo: usize = at.lo;
        let mut now = Search { lo, hi, best: at.best };
        assert(self.input.len() == s.len());
        let mut cursor: usize = match at.best {
            Some((p, _)) => p + 1,
            None => lo,
        };
        let limit: usize = if cursor < hi && hi - cursor > 2 * SCAN_WINDOW as usize {
            cursor + 2 * SCAN_WINDOW as usize
        } else {
            hi
        };
        let ghost goal = tightened(
            s,
            q,
            search_range(*at, before.index),
            cursor as int,
            capped(cursor as int, 2 * SCAN_WINDOW, hi as int),
        );
        proof {
            let start = search_range(*at, before.index);
            assert(start =~= search_range(now, before.index));
            assert(self@ =~= Model { index: before.index, ..before });
            if cursor >= hi {
                assert(goal == start);
                assert(tightened(s, q, start, cursor as int, limit as int) == start);
            }
        }
        while cursor < limit
            invariant_except_break
                goal == tightened(
                    s,
                    q,
                    search_range(now, self@.index),
                    cursor as int,
                    limit as int,
                ),
            invariant
                self.wf(),
                key.flavor.wf(),
                s == before.input,
                s.len() <= usize::MAX,
                q == (Quest { serial, key: *key }),
                limit <= s.len(),
                now.lo == lo,
                now.hi == hi,
                best_key_holds(s, *key, now.best),
                self@ == (Model { index: self@.index, ..before }),
            ensures
                goal == search_range(now, self@.index),
            decreases limit - cursor,
        {
            let ghost was = search_range(now, self@.index);
            match self.find_next_page_for_serial(cursor, limit, serial) {
                None => {
                    assert(goal =~= Range { index: self@.index, ..was });
                    break;
                },
                Some((p, g)) => {
                    proof {
                        granule::keys_are_in_range(key.flavor, g);
                    }
                    let found: i64 = key.key_of(g);
                    if found > key.target_key {
                        assert(goal =~= Range { index: self@.index, ..was });
                        break;
                    }
                    let take: bool = match now.best {
                        Some((_, best)) => found >= best,
                        None => true,
                    };
                    if take {
                        now.best = Some((p, found));
                    }
                    assert(search_range(now, self@.index) =~= Range {
                        best: better(s, q.key, was.best, p as int),
                        index: self@.index,
                        ..was
                    });
                    cursor = p + 1;
                },
            }
        }
        match now.best {
            Some((p, _)) => Some(p),
            None => None,
        }
    }

    fn search(&mut self, serial: u32, key: &SeekKey, known: Option<(usize, i64)>) -> (r: Option<
        usize,
    >)
        requires
            old(self).wf(),
            key.flavor.wf(),
            best_key_holds(old(self)@.input, *key, known),
            known matches Some((p, k)) ==> {
                &&& p < old(self)@.input.len()
                &&& k <= key.target_key
                &&& demux::entry_holds(
                    old(self)@.input,
                    (serial, page::granule_at(old(self)@.input, p as int), p as u64),
                )
            },
        ensures
            final(self).wf(),
            ({
                let done = searched(
                    old(self)@.input,
                    Quest { serial, key: *key },
                    old(self)@.index,
                    match known {
                        Some((p, _)) => Some(p as int),
                        None => None,
                    },
                );
                &&& final(self)@ == (Model { index: done.index, ..old(self)@ })
                &&& done.best == (match r {
                    Some(p) => Some(p as int),
                    None => None,
                })
            }),
            r matches Some(p) ==> p + 27 <= old(self)@.input.len(),
    {
        let ghost before = self@;
        let ghost q = Quest { serial, key: *key };
        let ghost from = match known {
            Some((p, _)) => Some(p as int),
            None => None,
        };
        proof {
            let start = Range {
                lo: 0,
                hi: before.input.len() as int,
                best: from,
                index: before.index,
            };
            assert(range_holds(before.input, q, start));
            search_lands_on_a_page(before.input, q, before.index, from);
            bisecting_holds(before.input, q, start, MAX_STEPS as int);
        }
        let at: Search = self.bisect(serial, key, known);
        match self.tighten(serial, key, &at) {
            Some(best) => {
                assert(self@ =~= Model {
                    index: searched(before.input, q, before.index, from).index,
                    ..before
                });
                Some(best)
            },
            None => {
                let n: usize = self.input.len();
                match self.find_next_page_for_serial(0, n, serial) {
                    Some((p, _)) => Some(p),
                    None => None,
                }
            },
        }
    }

    /// Go to `pos` with nothing pending and nothing queued.
    pub fn flush_to(&mut self, pos: u64)
        requires
            old(self).wf(),
        ensures
            final(self).wf(),
            final(self)@ == flushed(old(self)@, pos),
            final(self).input == old(self).input,
    {
        let ghost before = self@;
        self.pos = pos;
        self.page_queue = VecDeque::new();
        self.out_queue = VecDeque::new();
        self.skel.pending = Vec::new();
        self.skel.adrift = true;
        self.skel.last_seq = None;
        assert(self@.skel =~= unplaced(before.skel));
        let n: usize = self.states.len();
        let mut i: usize = 0;
        let ghost input = self.input;
        while i < n
            invariant
                i <= n,
                n == before.states.len(),
                self.states@.len() == n,
                self.input == input,
                self.index.wf(),
                self@ == (Model {
                    pos,
                    page_queue: self@.page_queue,
                    out_queue: self@.out_queue,
                    states: self@.states,
                    skel: unplaced(before.skel),
                    ..before
                }),
                self@.page_queue == Seq::<page::PageView>::empty(),
                self@.out_queue == Seq::<media::PacketView>::empty(),
                forall|j: int|
                    0 <= j < i ==> #[trigger] self@.states[j] == emptied(before.states[j]),
                forall|j: int| i <= j < n ==> #[trigger] self@.states[j] == before.states[j],
            decreases n - i,
        {
            let ghost mid = self@.states;
            let ghost was = self.states@[i as int]@;
            assert(mid[i as int] == was);
            {
                let state: &mut LogicalStream = &mut self.states[i];
                state.pending = Vec::new();
                state.pending_valid = false;
                state.pending_unknown = true;
                state.last_seq = None;
                state.rereading = 0;
                state.next_frame = None;
            }
            proof {
                let now = self.states@[i as int]@;
                assert(now =~= emptied(was));
                assert(self@.states =~= mid.update(i as int, now));
                assert forall|j: int| 0 <= j < i + 1 implies #[trigger] self@.states[j] == emptied(
                    before.states[j],
                ) by {
                    if j < i {
                        assert(mid[j] == emptied(before.states[j]));
                    }
                }
                assert forall|j: int| i + 1 <= j < n implies #[trigger] self@.states[j]
                    == before.states[j] by {
                    assert(mid[j] == before.states[j]);
                }
            }
            i = i + 1;
        }
        proof {
            assert(self@.states =~= flushed(before, pos).states);
            assert(self@ =~= flushed(before, pos));
            flushing_keeps_wf(before, pos);
        }
    }

    /// The axis and target of a seek by the identification header.
    pub fn theora_seek_key_from_id(&self, i: usize, pts: i64, tick: TimeBase) -> (r: Option<
        SeekKey,
    >)
        requires
            i < self@.states.len(),
        ensures
            r == key_from_id(self@.states[i as int], pts, tick),
    {
        assert(self.states@[i as int]@ == self@.states[i as int]);
        match self.states[i].theora {
            Some(g) => Some(SeekKey::theora_frame_biased(tick.rescale(pts, tick), g)),
            None => None,
        }
    }

    /// The axis and target of a seek by the track description.
    pub fn theora_seek_key(&self, serial: u32, pts: i64, tick: TimeBase) -> (r: Option<SeekKey>)
        ensures
            r == key_from_bone(process::bone_of(self@, serial), pts, tick),
    {
        let bone: Track = match self.bone(serial) {
            Some(b) => b,
            None => {
                return None;
            },
        };
        let num: i64 = bone.granule_rate.numerator;
        let den: i64 = bone.granule_rate.denominator;
        if bone.granuleshift == 0 || num <= 0 || den <= 0 {
            return None;
        }
        let target: i64 = tick.rescale(pts, TimeBase::new(den, num));
        Some(SeekKey::theora_frame(target, bone.granuleshift as u32))
    }

    fn axis_for(&self, i: usize, pts: i64) -> (r: Result<SeekKey, Error>)
        requires
            self@.wf(),
            i < self@.states.len(),
        ensures
            r == seek_key(self@, i as int, pts),
    {
        assert(self.states@[i as int]@ == self@.states[i as int]);
        assert(self.streams@[i as int]@ == self@.streams[i as int]);
        proof {
            demux::serials_are_few(self@.states);
            assert(self@.streams[i as int].index == i);
        }
        let tick: TimeBase = self.streams[i].time_base;
        match codec_id::mapping(&self.streams[i].params.codec_id) {
            Mapping::Opus => {
                let offset: i64 = match self.states[i].pre_skip {
                    Some(p) => p as i64,
                    None => 0,
                };
                Ok(SeekKey::identity_offset(pts, offset))
            },
            Mapping::Vorbis | Mapping::Flac | Mapping::Speex => Ok(SeekKey::identity(pts)),
            Mapping::Theora => match self.theora_seek_key_from_id(i, pts, tick) {
                Some(k) => Ok(k),
                None => match self.theora_seek_key(self.states[i].serial, pts, tick) {
                    Some(k) => Ok(k),
                    None => Err(Error::UnknownFrameLayout(i as u32)),
                },
            },
            Mapping::Other => Err(Error::SeekUnsupported(i as u32)),
        }
    }

    /// Where the keyframe index says to go: the offset, the stream that the
    /// page there should belong to, and the timestamp reached.
    pub fn skeleton_index_seek(&self, serial: u32, pts: i64, tick: TimeBase) -> (r: Option<
        (u64, u32, i64),
    >)
        ensures
            r == index_target(self@, serial, pts, tick),
    {
        let sk = match &self.skel.skeleton {
            Some(sk) => sk,
            None => {
                return None;
            },
        };
        let own: &SkelIndex = match sk.index_for_serial(serial) {
            Some(i) => i,
            None => {
                return None;
            },
        };
        let own_tick = TimeBase::new(1, own.timestamp_denominator);
        let point: Keypoint = match keypoint_floor(own, tick.rescale(pts, own_tick)) {
            Some(k) => k,
            None => {
                return None;
            },
        };
        let reached: i64 = own_tick.rescale(point.timestamp, tick);
        let mut off: u64 = point.offset;
        let mut winner: u32 = serial;
        let ghost all = sk@.indexes;
        let mut i: usize = 0;
        while i < sk.indexes.len()
            invariant
                i <= sk.indexes@.len(),
                all == media::views(sk.indexes@),
                (off, winner) == earliest_point(
                    all,
                    i as int,
                    serial,
                    pts,
                    tick,
                    (point.offset, serial),
                ),
            decreases sk.indexes@.len() - i,
        {
            let other: &SkelIndex = &sk.indexes[i];
            assert(all[i as int] == other@);
            if other.serial != serial {
                let other_tick = TimeBase::new(1, other.timestamp_denominator);
                if let Some(k) = keypoint_floor(other, tick.rescale(pts, other_tick)) {
                    if k.offset < off {
                        off = k.offset;
                        winner = other.serial;
                    }
                }
            }
            i = i + 1;
        }
        Some((off, winner, reached))
    }

    /// Whether a page begins at `off`.
    pub fn page_begins_at(&self, off: u64) -> (r: bool)
        ensures
            r == page::is_capture(self@.input, off as int),
    {
        if off >= self.input.len() as u64 {
            return false;
        }
        page::capture_at(self.input.as_slice(), off as usize)
    }

    /// Whether a page of `serial` begins at `off`.
    pub fn verify_keypoint_landing(&self, off: u64, serial: u32) -> (r: bool)
        ensures
            r == page_of_serial_at(self@.input, off as int, serial),
    {
        if !self.page_begins_at(off) {
            return false;
        }
        let at: usize = off as usize;
        if self.input.len() - at < 27 {
            return false;
        }
        bytes::le32_at(self.input.as_slice(), at + 14) == serial
    }

    /// Whether the segment length that the Skeleton declares agrees with the
    /// input. The question is asked once.
    pub fn skeleton_segment_length_check(&mut self) -> (r: bool)
        requires
            old(self).wf(),
        ensures
            final(self).wf(),
            r == segment_check(old(self)@),
            final(self)@ == (Model { segment_ok: Some(r), ..old(self)@ }),
            final(self).input == old(self).input,
    {
        let ghost before = self@;
        let ok: bool = match self.segment_ok {
            Some(b) => b,
            None => match &self.skel.skeleton {
                None => true,
                Some(sk) => match sk.head.segment_length {
                    None => true,
                    Some(n) => n == 0 || n == self.input.len() as u64 || self.page_begins_at(n),
                },
            },
        };
        self.segment_ok = Some(ok);
        assert(self@ =~= Model { segment_ok: Some(ok), ..before });
        ok
    }

    fn try_index(&mut self, i: usize, pts: i64) -> (r: Option<i64>)
        requires
            old(self).wf(),
            i < old(self)@.states.len(),
        ensures
            final(self).wf(),
            (final(self)@, r) == index_attempt(old(self)@, i as int, pts),
    {
        let ghost before = self@;
        assert(self.states@[i as int]@ == before.states[i as int]);
        assert(self.streams@[i as int]@ == before.streams[i as int]);
        let serial: u32 = self.states[i].serial;
        let tick: TimeBase = self.streams[i].time_base;
        if self.skeleton_segment_length_check() {
            match self.skeleton_index_seek(serial, pts, tick) {
                None => None,
                Some((off, winner, reached)) => {
                    if self.verify_keypoint_landing(off, winner) {
                        self.flush_to(off);
                        self.counts.index_seeks = self.counts.index_seeks.saturating_add(1);
                        assert(self@ =~= index_attempt(before, i as int, pts).0);
                        Some(reached)
                    } else {
                        self.counts.index_rejects = self.counts.index_rejects.saturating_add(1);
                        assert(self@ =~= index_attempt(before, i as int, pts).0);
                        None
                    }
                },
            }
        } else {
            let has_index: bool = match &self.skel.skeleton {
                Some(sk) => sk.index_for_serial(serial).is_some(),
                None => false,
            };
            if has_index {
                self.counts.index_rejects = self.counts.index_rejects.saturating_add(1);
            }
            assert(self@ =~= index_attempt(before, i as int, pts).0);
            None
        }
    }

    fn end_of_scan(&self) -> (r: u64)
        requires
            self.wf(),
        ensures
            r == scan_end(self@.input, 0),
    {
        let ghost s = self@.input;
        let n: usize = self.input.len();
        let mut cursor: usize = 0;
        loop
            invariant
                self.wf(),
                s == self@.input,
                n == s.len(),
                scan_end(s, 0) == scan_end(s, cursor as int),
            decreases n - cursor,
        {
            let at: usize = match reader::find_capture(self.input.as_slice(), cursor, n) {
                Some(p) => p,
                None => {
                    return n as u64;
                },
            };
            if n - at < 27 {
                return n as u64;
            }
            let n_segs: usize = self.input[at + 26] as usize;
            if n - at - 27 < n_segs {
                return n as u64;
            }
            let table_end: usize = at + 27 + n_segs;
            let body: usize = page::table_sum(self.input.as_slice(), at + 27, table_end);
            if n - table_end <= body {
                return table_end as u64;
            }
            cursor = table_end + body;
        }
    }

    fn try_search(&mut self, i: usize, key: &SeekKey, known: Option<(usize, i64)>) -> (r: Result<
        i64,
        Error,
    >)
        requires
            old(self).wf(),
            i < old(self)@.states.len(),
            i <= u32::MAX,
            key.flavor.wf(),
            best_key_holds(old(self)@.input, *key, known),
            known matches Some((p, k)) ==> {
                &&& p < old(self)@.input.len()
                &&& k <= key.target_key
                &&& demux::entry_holds(
                    old(self)@.input,
                    (
                        old(self)@.states[i as int].serial,
                        page::granule_at(old(self)@.input, p as int),
                        p as u64,
                    ),
                )
            },
        ensures
            final(self).wf(),
            (final(self)@, r) == search_attempt(
                old(self)@,
                i as int,
                *key,
                match known {
                    Some((p, _)) => Some(p as int),
                    None => None,
                },
            ),
    {
        let ghost before = self@;
        assert(self.states@[i as int]@ == before.states[i as int]);
        let serial: u32 = self.states[i].serial;
        match self.search(serial, key, known) {
            Some(p) => {
                assert(self.input@ == before.input);
                let g: i64 = bytes::le_i64_at(self.input.as_slice(), p + 6);
                self.flush_to(p as u64);
                Ok(g)
            },
            None => {
                let ghost met = self@;
                self.pos = self.end_of_scan();
                assert(self@ =~= Model { pos: self.pos, ..met });
                assert(self@.skeleton_serial() == met.skeleton_serial());
                Err(Error::NoSeekablePage(i as u32))
            },
        }
    }

    /// Seek to the last page of stream `index` at or before `pts`. Returns
    /// the granule reached.
    pub fn seek_to(&mut self, index: u32, pts: i64) -> (r: Result<i64, Error>)
        requires
            old(self).wf(),
        ensures
            final(self).wf(),
            (final(self)@, r) == seeked(old(self)@, index, pts),
    {
        let ghost before = self@;
        if index as u64 >= self.streams.len() as u64 {
            return Err(Error::StreamIndexOutOfRange(index));
        }
        let i: usize = index as usize;
        let key: SeekKey = match self.axis_for(i, pts) {
            Ok(k) => k,
            Err(e) => {
                return Err(e);
            },
        };
        if self.input.len() == 0 {
            return Err(Error::EmptyInput);
        }
        match self.try_index(i, pts) {
            Some(reached) => {
                return Ok(reached);
            },
            None => {},
        }
        let ghost m = self@;
        assert(m == index_attempt(before, i as int, pts).0);
        assert(m.states == before.states);
        assert(self.states@[i as int]@ == m.states[i as int]);
        let serial: u32 = self.states[i].serial;
        match self.index.floor_by(serial, &key) {
            Some((g, off)) => {
                assert(demux::entry_holds(m.input, (serial, g, off)));
                self.flush_to(off);
                if self.index_built {
                    return Ok(g);
                }
                proof {
                    granule::keys_are_in_range(key.flavor, g);
                }
                let known: (usize, i64) = (off as usize, key.key_of(g));
                self.try_search(i, &key, Some(known))
            },
            None => self.try_search(i, &key, None),
        }
    }
}

} // verus!
