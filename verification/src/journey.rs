//! What holds however a bitstream is travelled: any mix of reading, seeking
//! and indexing. In an undamaged bitstream no damage is ever counted, and a
//! single link stays a single link.
use crate::codec_id;
use crate::damage;
use crate::damage::DamageKind;
use crate::demux;
use crate::demux::{Answer, Model, SkelView, StateView};
use crate::error::Error;
use crate::granule;
use crate::laws;
use crate::media;
use crate::media::TimeBase;
use crate::page;
use crate::page::PageView;
use crate::process;
use crate::reader;
use crate::reassembly;
use crate::reassembly::Partial;
use crate::register;
use crate::resume;
use crate::scan;
use crate::seek;
use crate::seek_index;
use crate::session;
use crate::skeleton;
use crate::tracks;
use crate::whole;
use vstd::prelude::*;

verus! {

// ---------------------------------------------------------------------------
// Moves
// ---------------------------------------------------------------------------

/// One call on the demuxer.
pub enum Move {
    Next,
    Seek(u32, i64),
    SeekWithPreroll(u32, i64),
    SeekToKeyframe(u32, i64),
    Index,
}

/// The demuxer after one call, whether it succeeded or not.
pub open spec fn after_move(m: Model, mv: Move) -> Model {
    match mv {
        Move::Next => session::delivered(m).0,
        Move::Seek(index, pts) => seek::seeked(m, index, pts).0,
        Move::SeekWithPreroll(index, pts) => resume::prerolled(m, index, pts).0,
        Move::SeekToKeyframe(index, pts) => resume::keyframed(m, index, pts).0,
        Move::Index => scan::indexed(m).0,
    }
}

/// The demuxer after a number of calls.
pub open spec fn after_moves(m: Model, moves: Seq<Move>) -> Model
    decreases moves.len(),
{
    if moves.len() == 0 {
        m
    } else {
        after_move(after_moves(m, moves.drop_last()), moves.last())
    }
}

/// Whether a number of calls only read packets and index the input.
pub open spec fn reads_only(moves: Seq<Move>) -> bool {
    forall|i: int| 0 <= i < moves.len() ==> (#[trigger] moves[i]) is Next || moves[i] is Index
}

/// Whether a call is a seek that finds no page of its stream.
pub open spec fn loses(m: Model, mv: Move) -> bool {
    match mv {
        Move::Next => false,
        Move::Seek(index, pts) => is_lost(seek::seeked(m, index, pts).1),
        Move::SeekWithPreroll(index, pts) => is_lost(resume::prerolled(m, index, pts).1),
        Move::SeekToKeyframe(index, pts) => is_lost(resume::keyframed(m, index, pts).1),
        Move::Index => false,
    }
}

/// Whether none of a number of calls is a seek that finds no page of its
/// stream.
pub open spec fn never_loses(m: Model, moves: Seq<Move>) -> bool
    decreases moves.len(),
{
    moves.len() == 0 || never_loses(m, moves.drop_last()) && !loses(
        after_moves(m, moves.drop_last()),
        moves.last(),
    )
}

/// Whether a number of calls stays on the pages of the file: it only reads
/// and indexes, or seeks lead to pages and each finds one.
pub open spec fn stays_on_pages(m: Model, moves: Seq<Move>) -> bool {
    reads_only(moves) || seeks_lead_to_pages(m.input) && never_loses(m, moves)
}

// ---------------------------------------------------------------------------
// Seeks only move
// ---------------------------------------------------------------------------

/// Whether `b` stands where `a` does.
pub open spec fn stays(a: Model, b: Model) -> bool {
    &&& b.pos == a.pos
    &&& b.page_queue == a.page_queue
    &&& b.out_queue == a.out_queue
    &&& b.states == a.states
    &&& b.skel == a.skel
}

/// Whether the demuxer speaks of `serial`: it is that of a stream, or that of
/// a keyframe index of the Skeleton.
pub open spec fn speaks_of(m: Model, serial: u32) -> bool {
    ||| m.knows(serial)
    ||| m.skel.skeleton matches Some(sk) && skeleton::first_index(sk.indexes, serial) is Some
}

/// Whether a page header with a serial number that the demuxer speaks of
/// stands at `pos`.
pub open spec fn can_land(m: Model, pos: int) -> bool {
    &&& page::is_capture(m.input, pos)
    &&& pos + 27 <= m.input.len()
    &&& speaks_of(m, page::serial_at(m.input, pos))
}

/// Whether `b` has been set down at such a page header with nothing pending.
pub open spec fn jumps(a: Model, b: Model) -> bool {
    &&& can_land(a, b.pos as int)
    &&& b.page_queue.len() == 0
    &&& b.out_queue.len() == 0
    &&& b.states.len() == a.states.len()
    &&& forall|i: int|
        0 <= i < a.states.len() ==> #[trigger] b.states[i] == seek::emptied(a.states[i])
    &&& b.skel == seek::unplaced(a.skel)
}

/// Whether `b` is `a` elsewhere, with more in its index.
pub open spec fn is_elsewhere(a: Model, b: Model) -> bool {
    &&& b.wf()
    &&& b.states.len() == a.states.len()
    &&& forall|i: int|
        0 <= i < a.states.len() ==> (#[trigger] b.states[i]).theora == a.states[i].theora
    &&& b == (Model {
        pos: b.pos,
        page_queue: b.page_queue,
        out_queue: b.out_queue,
        states: b.states,
        skel: b.skel,
        index: b.index,
        segment_ok: b.segment_ok,
        counts: b.counts,
        ..a
    })
}

/// Whether `b` is `a` moved, or left where it is, with more in its index.
pub open spec fn moved(a: Model, b: Model) -> bool {
    is_elsewhere(a, b) && (stays(a, b) || jumps(a, b))
}

/// Whether a seek found no page of its stream, and gave up in the middle of
/// the input.
pub open spec fn is_lost(r: Result<i64, Error>) -> bool {
    r matches Err(Error::NoSeekablePage(_))
}

/// A jump changes nothing of what the demuxer speaks of.
proof fn jumping_says_nothing(a: Model, b: Model, pos: int)
    requires
        a.input == b.input,
        jumps(a, b),
    ensures
        can_land(b, pos) == can_land(a, pos),
{
    let serial = page::serial_at(a.input, pos);
    demux::slot_holds(a.states, serial);
    demux::slot_holds(b.states, serial);
    if let Some(k) = demux::slot(a.states, serial) {
        assert(b.states[k] == seek::emptied(a.states[k]));
    }
    if let Some(k) = demux::slot(b.states, serial) {
        assert(b.states[k] == seek::emptied(a.states[k]));
    }
}

/// Where a page header stands that the stream at `i` has, a seek can land.
proof fn own_headers_can_be_reached(m: Model, i: int, pos: int)
    requires
        0 <= i < m.states.len(),
        page::is_capture(m.input, pos),
        pos + 27 <= m.input.len(),
        page::serial_at(m.input, pos) == m.states[i].serial,
    ensures
        can_land(m, pos),
{
    demux::slot_holds(m.states, m.states[i].serial);
}

proof fn moving_on(a: Model, b: Model, c: Model)
    requires
        moved(a, b),
        moved(b, c),
    ensures
        moved(a, c),
{
    if jumps(a, b) {
        jumping_says_nothing(a, b, c.pos as int);
    }
    if jumps(a, b) && jumps(b, c) {
        assert forall|i: int| 0 <= i < a.states.len() implies #[trigger] c.states[i]
            == seek::emptied(a.states[i]) by {
            assert(b.states[i] == seek::emptied(a.states[i]));
            assert(c.states[i] == seek::emptied(b.states[i]));
        }
    } else if jumps(a, b) {
        assert forall|i: int| 0 <= i < a.states.len() implies #[trigger] c.states[i]
            == seek::emptied(a.states[i]) by {
            assert(b.states[i] == seek::emptied(a.states[i]));
        }
    }
}

proof fn flushing_moves(a: Model, b: Model, pos: u64)
    requires
        a.wf(),
        moved(a, b),
        can_land(a, pos as int),
    ensures
        moved(a, seek::flushed(b, pos)),
{
    seek::flushing_keeps_wf(b, pos);
    if jumps(a, b) {
        jumping_says_nothing(a, b, pos as int);
    }
    assert(moved(b, seek::flushed(b, pos)));
    moving_on(a, b, seek::flushed(b, pos));
}

proof fn searching_moves(m: Model, i: int, key: granule::SeekKey, known: Option<int>)
    requires
        m.wf(),
        0 <= i < m.states.len(),
        m.input.len() > 0,
        known matches Some(p) ==> {
            &&& 0 <= p < m.input.len()
            &&& demux::entry_holds(
                m.input,
                (m.states[i].serial, page::granule_at(m.input, p), p as u64),
            )
            &&& seek::key_at(m.input, key, p) <= key.target_key
        },
    ensures
        is_elsewhere(m, seek::search_attempt(m, i, key, known).0),
        known is Some || !is_lost(seek::search_attempt(m, i, key, known).1) ==> moved(
            m,
            seek::search_attempt(m, i, key, known).0,
        ),
        known is Some ==> !is_lost(seek::search_attempt(m, i, key, known).1),
{
    let q = seek::Quest { serial: m.states[i].serial, key };
    seek::search_lands_on_a_page(m.input, q, m.index, known);
    let r = seek::searched(m.input, q, m.index, known);
    let met = Model { index: r.index, ..m };
    assert(met.skeleton_serial() == m.skeleton_serial());
    assert(met.wf());
    assert(moved(m, met));
    if let Some(p) = r.best {
        own_headers_can_be_reached(m, i, p);
        flushing_moves(m, met, p as u64);
    } else {
        let lost = seek::search_attempt(m, i, key, known).0;
        assert(lost.skeleton_serial() == met.skeleton_serial());
    }
}

/// The seek point chosen is that of an index.
proof fn earliest_point_is_of_an_index(
    indexes: Seq<skeleton::IndexView>,
    n: int,
    serial: u32,
    pts: i64,
    tick: TimeBase,
    start: (u64, u32),
)
    requires
        0 <= n <= indexes.len(),
        skeleton::first_index(indexes, start.1) is Some,
    ensures
        skeleton::first_index(
            indexes,
            seek::earliest_point(indexes, n, serial, pts, tick, start).1,
        ) is Some,
    decreases n,
{
    if n > 0 {
        earliest_point_is_of_an_index(indexes, n - 1, serial, pts, tick, start);
        skeleton::indexes_are_found(indexes, n - 1);
    }
}

proof fn keypoints_can_be_reached(m: Model, i: int, pts: i64)
    requires
        0 <= i < m.states.len(),
        m.input.len() <= usize::MAX,
    ensures
        match seek::index_target(m, m.states[i].serial, pts, m.streams[i].time_base) {
            Some((off, winner, _)) => seek::page_of_serial_at(m.input, off as int, winner)
                ==> can_land(m, off as int),
            None => true,
        },
{
    let serial = m.states[i].serial;
    let tick = m.streams[i].time_base;
    if let Some(sk) = m.skel.skeleton {
        if let Some(own) = skeleton::first_index(sk.indexes, serial) {
            if let Some(k) = seek::index_floor(
                own,
                media::rescaled(pts, tick, seek::index_tick(own)),
            ) {
                earliest_point_is_of_an_index(
                    sk.indexes,
                    sk.indexes.len() as int,
                    serial,
                    pts,
                    tick,
                    (k.offset, serial),
                );
            }
        }
    }
}

proof fn attempting_moves(m: Model, i: int, pts: i64)
    requires
        m.wf(),
        0 <= i < m.states.len(),
    ensures
        moved(m, seek::index_attempt(m, i, pts).0),
        seek::index_attempt(m, i, pts).1 is None ==> stays(m, seek::index_attempt(m, i, pts).0),
        seek::index_attempt(m, i, pts).0.index == m.index,
{
    let checked = Model { segment_ok: Some(seek::segment_check(m)), ..m };
    assert(checked.skeleton_serial() == m.skeleton_serial());
    assert(checked.wf());
    assert(moved(m, checked));
    let after = seek::index_attempt(m, i, pts).0;
    if let Some((off, winner, reached)) = seek::index_target(
        m,
        m.states[i].serial,
        pts,
        m.streams[i].time_base,
    ) {
        if seek::page_of_serial_at(m.input, off as int, winner) {
            keypoints_can_be_reached(m, i, pts);
            flushing_moves(m, checked, off);
            let there = seek::flushed(checked, off);
            assert(Model { counts: after.counts, ..there }.skeleton_serial()
                == there.skeleton_serial());
        }
    }
    let rejected = Model { counts: after.counts, ..checked };
    assert(rejected.skeleton_serial() == m.skeleton_serial());
    assert(rejected.wf());
}

/// A seek moves the demuxer or leaves it where it is, unless it finds no page
/// at all. Nothing else that reading depends on changes.
pub proof fn seeking_only_moves(m: Model, index: u32, pts: i64)
    requires
        m.wf(),
    ensures
        is_elsewhere(m, seek::seeked(m, index, pts).0),
        !is_lost(seek::seeked(m, index, pts).1) ==> moved(m, seek::seeked(m, index, pts).0),
{
    if index < m.streams.len() && m.input.len() > 0 {
        let i = index as int;
        attempting_moves(m, i, pts);
        let (tried, reached) = seek::index_attempt(m, i, pts);
        if let Ok(key) = seek::seek_key(m, i, pts) {
            if reached is None {
                let serial = m.states[i].serial;
                laws::floor_is_known(m.index, serial, key, m.input);
                match seek_index::floor(m.index, serial, key) {
                    Some((g, off)) => {
                        assert(demux::entry_holds(m.input, (serial, g, off)));
                        let there = seek::flushed(tried, off);
                        own_headers_can_be_reached(m, i, off as int);
                        flushing_moves(m, tried, off);
                        assert(there.states[i] == seek::emptied(tried.states[i]));
                        searching_moves(there, i, key, Some(off as int));
                        moving_on(
                            m,
                            there,
                            seek::search_attempt(there, i, key, Some(off as int)).0,
                        );
                    },
                    None => {
                        searching_moves(tried, i, key, None);
                        if !is_lost(seek::search_attempt(tried, i, key, None).1) {
                            moving_on(m, tried, seek::search_attempt(tried, i, key, None).0);
                        }
                    },
                }
            }
        }
    }
}

/// So does a seek with preroll.
pub proof fn preroll_only_moves(m: Model, index: u32, pts: i64)
    requires
        m.wf(),
    ensures
        is_elsewhere(m, resume::prerolled(m, index, pts).0),
        !is_lost(resume::prerolled(m, index, pts).1) ==> moved(
            m,
            resume::prerolled(m, index, pts).0,
        ),
{
    if index < m.streams.len() {
        seeking_only_moves(m, index, pts);
        let serial = m.states[index as int].serial;
        let after = seek::seeked(m, index, pts).0;
        let headers = resume::num_headers_of(m, serial);
        let pages = resume::content_pages(m.input, 0, after.pos as int, serial, headers, 0);
        resume::content_pages_are_in_order(m.input, 0, after.pos as int, serial, headers, 0);
        let need = resume::preroll_of(m, serial) as int;
        if need > 0 && seek::seeked(m, index, pts).1 is Ok {
            resume::resume_page_has_enough(pages, need);
            if let Some(off) = resume::resume_page(pages, need) {
                let i = choose|i: int| 0 <= i < pages.len() && (#[trigger] pages[i]).0 == off;
                own_headers_can_be_reached(m, index as int, pages[i].0 as int);
                flushing_moves(m, after, off);
                let there = seek::flushed(after, off);
                let last = resume::prerolled(m, index, pts).0;
                if last.counts != there.counts {
                    assert(Model { counts: last.counts, ..there }.skeleton_serial()
                        == there.skeleton_serial());
                }
            }
        }
    }
}

/// So does a seek to a keyframe.
pub proof fn keyframe_only_moves(m: Model, index: u32, pts: i64)
    requires
        m.wf(),
    ensures
        is_elsewhere(m, resume::keyframed(m, index, pts).0),
        !is_lost(resume::keyframed(m, index, pts).1) ==> moved(
            m,
            resume::keyframed(m, index, pts).0,
        ),
{
    if index < m.streams.len() {
        seeking_only_moves(m, index, pts);
        let st = m.states[index as int];
        let (after, r) = seek::seeked(m, index, pts);
        if let Ok(g) = r {
            if let Some(t) = resume::keyframe_pts(
                process::bone_of(m, st.serial),
                st.theora,
                process::granule_shift(m, st.serial, st.theora),
                m.streams[index as int].time_base,
                g,
            ) {
                seeking_only_moves(after, index, t);
                if !is_lost(seek::seeked(after, index, t).1) {
                    moving_on(m, after, seek::seeked(after, index, t).0);
                }
            }
        }
    }
}

// ---------------------------------------------------------------------------
// Where pages stand
// ---------------------------------------------------------------------------

/// Whether reading on from `p` leads to one of the pages that stand end to
/// end, or to none.
pub open spec fn leads_on(s: Seq<u8>, p: int) -> bool {
    reader::next_page(s, p) matches Some(x) ==> laws::page_begins(s, 0, x)
}

/// Whether `serial` is that of one of `pages`, or a Skeleton among them has a
/// keyframe index of it.
pub open spec fn is_named(pages: Seq<PageView>, serial: u32) -> bool {
    whole::of_serial(pages, serial).len() > 0 || tracks::is_indexed(pages, serial)
}

/// Whether seeks lead to pages: from wherever a header stands with a serial
/// number that is one of the file's, or that its Skeleton has a keyframe index
/// of, reading on leads to one of the pages. Where such a header stands inside
/// a page, no page may be hidden from there on.
pub open spec fn seeks_lead_to_pages(s: Seq<u8>) -> bool {
    forall|p: int| #[trigger]
        page::is_capture(s, p) && p + 27 <= s.len() && is_named(
            whole::pages_from(s, 0),
            page::serial_at(s, p),
        ) ==> leads_on(s, p)
}

/// Whether `OggS` stands nowhere but at the beginning of a page.
pub open spec fn hides_no_capture(s: Seq<u8>) -> bool {
    forall|p: int| #[trigger] page::is_capture(s, p) ==> laws::page_begins(s, 0, p)
}

/// Whether the next page from `pos` on is the `q`th.
pub open spec fn stands_at(pages: Seq<PageView>, pos: u64, q: int) -> bool {
    &&& 0 <= q <= pages.len()
    &&& q > 0 ==> pages[q - 1].offset < pos
    &&& q < pages.len() ==> pos <= pages[q].offset
}

/// Whether `pos` is where a page begins or the input ends.
pub open spec fn is_boundary(s: Seq<u8>, pos: int) -> bool {
    pos == s.len() || laws::page_begins(s, 0, pos)
}

/// Where the `i`th page stands, and what comes behind it.
pub proof fn page_stands_there(s: Seq<u8>, from: int, i: int)
    requires
        s.len() <= usize::MAX,
        laws::is_chain(s, from),
        0 <= i < whole::pages_from(s, from).len(),
    ensures
        ({
            let pages = whole::pages_from(s, from);
            let at = pages[i].offset as int;
            &&& laws::page_begins(s, from, at)
            &&& page::is_page(s, at)
            &&& pages[i] == page::page_at(s, at)
            &&& page::page_end(s, at) == (if i + 1 < pages.len() {
                pages[i + 1].offset as int
            } else {
                s.len() as int
            })
            &&& at < page::page_end(s, at) <= s.len()
        }),
    decreases s.len() - from,
{
    page::body_len_nonneg(page::lacing_at(s, from));
    let end = page::page_end(s, from);
    let pages = whole::pages_from(s, from);
    let later = whole::pages_from(s, end);
    assert(pages == seq![page::page_at(s, from)] + later);
    if i > 0 {
        page_stands_there(s, end, i - 1);
        assert(pages[i] == later[i - 1]);
        if i + 1 < pages.len() {
            assert(pages[i + 1] == later[i]);
        }
    } else {
        assert(pages[0].offset == from);
        if later.len() > 0 {
            assert(pages[1] == later[0]);
            assert(later[0].offset == end);
        } else if end != s.len() {
            assert(laws::is_chain(s, end));
            assert(page::is_page(s, end));
            assert(later == seq![page::page_at(s, end)] + whole::pages_from(
                s,
                page::page_end(s, end),
            ));
        }
    }
}

/// A page that begins is one of the pages.
pub proof fn page_is_listed(s: Seq<u8>, from: int, p: int) -> (i: int)
    requires
        s.len() <= usize::MAX,
        laws::page_begins(s, from, p),
    ensures
        0 <= i < whole::pages_from(s, from).len(),
        whole::pages_from(s, from)[i] == page::page_at(s, p),
        whole::pages_from(s, from)[i].offset == p,
        0 <= p < s.len(),
    decreases s.len() - from,
{
    page::body_len_nonneg(page::lacing_at(s, from));
    let end = page::page_end(s, from);
    let pages = whole::pages_from(s, from);
    let later = whole::pages_from(s, end);
    assert(pages == seq![page::page_at(s, from)] + later);
    if p == from {
        0
    } else {
        let j = page_is_listed(s, end, p);
        assert(pages[j + 1] == later[j]);
        j + 1
    }
}

/// Some page is the next from any offset on.
proof fn stands_somewhere(pages: Seq<PageView>, pos: u64, n: int) -> (q: int)
    requires
        whole::are_in_order(pages),
        0 <= n <= pages.len(),
        n < pages.len() ==> pos <= pages[n].offset,
    ensures
        stands_at(pages, pos, q),
    decreases n,
{
    if n > 0 && pos <= pages[n - 1].offset {
        stands_somewhere(pages, pos, n - 1)
    } else {
        n
    }
}

/// The page that stands at a known offset is the next one.
proof fn next_is_unique(pages: Seq<PageView>, pos: u64, q: int, i: int)
    requires
        whole::are_in_order(pages),
        stands_at(pages, pos, q),
        0 <= i < pages.len(),
        pos <= pages[i].offset,
        q < pages.len() ==> pages[i].offset <= pages[q].offset,
    ensures
        i == q,
{
    if i < q {
        if i < q - 1 {
            assert(pages[i].offset < pages[q - 1].offset);
        }
    } else if q < i {
        assert(pages[q].offset < pages[i].offset);
    }
}

/// Whether counters of damage are the same, but for resyncs.
pub open spec fn same_counts(a: damage::LedgerView, b: damage::LedgerView) -> bool {
    &&& a.holes == b.holes
    &&& a.framing_errors == b.framing_errors
    &&& a.duplicate_serials == b.duplicate_serials
}

/// From where a page begins or the input ends, reading leads on.
proof fn boundaries_lead_on(s: Seq<u8>, p: int)
    requires
        s.len() <= usize::MAX,
        laws::is_chain(s, 0),
        p >= s.len() || is_boundary(s, p),
    ensures
        leads_on(s, p),
{
    if p < s.len() {
        let i = page_is_listed(s, 0, p);
        page_stands_there(s, 0, i);
    } else if let Some(x) = reader::next_page(s, p) {
        assert(page::is_page(s, x));
    }
}

/// Behind each page another begins or the input ends.
pub proof fn pages_end_at_boundaries(s: Seq<u8>, pages: Seq<PageView>, i: int)
    requires
        s.len() <= usize::MAX,
        laws::is_chain(s, 0),
        pages == whole::pages_from(s, 0),
        0 <= i < pages.len(),
    ensures
        is_boundary(s, page::page_end(s, pages[i].offset as int)),
{
    page_stands_there(s, 0, i);
    if i + 1 < pages.len() {
        page_stands_there(s, 0, i + 1);
    }
}

proof fn resync_gives_the_next(m: Model, pages: Seq<PageView>, q: int, from: int)
    requires
        m.wf(),
        pages == whole::pages_from(m.input, 0),
        laws::is_chain(m.input, 0),
        leads_on(m.input, from),
        stands_at(pages, m.pos, q),
        0 <= m.pos <= from <= m.input.len(),
        q < pages.len() ==> from <= pages[q].offset,
    ensures
        leads_on(m.input, reader::resynced(m, from).0.pos as int),
        same_counts(m.ledger, reader::resynced(m, from).0.ledger),
        match reader::resynced(m, from) {
            (after, Some(found)) => q < pages.len() && found == pages[q] && stands_at(
                pages,
                after.pos,
                q + 1,
            ),
            (after, None) => stands_at(pages, after.pos, pages.len() as int),
        },
{
    let s = m.input;
    whole::pages_stand_in_order(s, 0);
    reader::next_page_is_the_first(s, from);
    if q < pages.len() {
        page_stands_there(s, 0, q);
    }
    if let Some(x) = reader::next_page(s, from) {
        assert(page::is_page(s, x));
        let i = page_is_listed(s, 0, x);
        page_stands_there(s, 0, i);
        if q < pages.len() {
            assert(x <= pages[q].offset);
        }
        next_is_unique(pages, m.pos, q, i);
        pages_end_at_boundaries(s, pages, i);
        boundaries_lead_on(s, page::page_end(s, x));
    } else {
        boundaries_lead_on(s, s.len() as int);
    }
}

/// Reading gives the next page, wherever in an undamaged input it starts.
#[verifier::spinoff_prover]
#[verifier::rlimit(40)]
proof fn reading_gives_the_next(m: Model, pages: Seq<PageView>, q: int)
    requires
        m.wf(),
        pages == whole::pages_from(m.input, 0),
        laws::is_chain(m.input, 0),
        leads_on(m.input, m.pos as int),
        stands_at(pages, m.pos, q),
    ensures
        leads_on(m.input, reader::after_read(m).0.pos as int),
        same_counts(m.ledger, reader::after_read(m).0.ledger),
        match reader::after_read(m) {
            (after, Some(found)) => q < pages.len() && found == pages[q] && stands_at(
                pages,
                after.pos,
                q + 1,
            ),
            (after, None) => stands_at(pages, after.pos, pages.len() as int),
        },
        is_boundary(m.input, m.pos as int) ==> {
            &&& reader::after_read(m).0.ledger == m.ledger
            &&& is_boundary(m.input, reader::after_read(m).0.pos as int)
        },
{
    let s = m.input;
    let p = m.pos as int;
    whole::pages_stand_in_order(s, 0);
    if pages.len() > 0 {
        assert(pages[pages.len() - 1].offset < s.len());
    }
    if q < pages.len() {
        page_stands_there(s, 0, q);
    }
    boundaries_lead_on(s, s.len() as int);
    reader::next_page_is_the_first(s, p);
    if p < s.len() {
        if page::is_page(s, p) {
            page::body_len_nonneg(page::lacing_at(s, p));
            assert(reader::next_page(s, p) == Some(p));
            assert(laws::page_begins(s, 0, p));
            let i = page_is_listed(s, 0, p);
            next_is_unique(pages, m.pos, q, i);
            pages_end_at_boundaries(s, pages, i);
            boundaries_lead_on(s, page::page_end(s, p));
            if q + 1 < pages.len() {
                page_stands_there(s, 0, q + 1);
            }
        } else {
            reader::next_page_is_the_first(s, p + 1);
            assert(reader::next_page(s, p + 1) == reader::next_page(s, p));
            if laws::page_begins(s, 0, p) {
                let i = page_is_listed(s, 0, p);
                page_stands_there(s, 0, i);
                assert(false);
            }
            if p + 27 <= s.len() {
                if !page::is_capture(s, p) {
                    resync_gives_the_next(m, pages, q, p);
                } else if page::is_complete(s, p) {
                    if q < pages.len() {
                        assert(pages[q].offset != p);
                    }
                    resync_gives_the_next(m, pages, q, p + 1);
                }
            }
        }
    }
}

// ---------------------------------------------------------------------------
// What is known on the way
// ---------------------------------------------------------------------------

/// Whether the state of a stream fits a position before the `n`th page:
/// either it has not been placed since a jump, or it has followed the pages
/// before that position.
pub open spec fn state_fits(st: StateView, pages: Seq<PageView>, n: int) -> bool {
    let own = whole::of_serial(pages, st.serial);
    let past = whole::of_serial(pages.take(n), st.serial);
    &&& own.len() > 0
    &&& !whole::begins_skeleton(own[0])
    &&& st.bos_at == own[0].offset
    &&& match st.last_seq {
        None => past.len() == 0 || st.partial.unknown,
        Some(last) => past.len() > 0 && last == past.last().seq_no && (st.partial.unknown || (
        st.partial.valid && st.partial.pending.len() > 0) == reassembly::is_open(
            reassembly::all_lacing(past),
        )),
    }
}

/// Whether what is known of the Skeleton fits a position before the `n`th
/// page.
pub open spec fn skeleton_fits(skel: SkelView, pages: Seq<PageView>, n: int) -> bool {
    match skel.skeleton {
        None => true,
        Some(sk) => {
            let past = whole::of_serial(pages.take(n), sk.serial);
            &&& whole::is_skeleton_serial(pages, sk.serial)
            &&& match skel.last_seq {
                None => true,
                Some(last) => past.len() == 0 || last == past.last().seq_no,
            }
        },
    }
}

/// Whether all pages that begin streams come before all others.
pub open spec fn is_single(pages: Seq<PageView>) -> bool {
    forall|i: int, j: int|
        0 <= i < j < pages.len() && (#[trigger] pages[j]).is_first() ==> (
        #[trigger] pages[i]).is_first()
}

/// Whether one link has been counted, with every stream in it.
pub open spec fn is_one_link(m: Model, pages: Seq<PageView>) -> bool {
    &&& m.link == 0
    &&& forall|k: int| 0 <= k < m.states.len() ==> (#[trigger] m.states[k]).link_index == 0
    &&& m.data_at matches Some(d) ==> forall|i: int|
        0 <= i < pages.len() && (#[trigger] pages[i]).is_first() ==> pages[i].offset < d
}

/// Whether all that is known fits a position before the `n`th page.
pub open spec fn is_placed(m: Model, pages: Seq<PageView>, n: int) -> bool {
    &&& m.wf()
    &&& whole::is_undamaged(pages, m.answers)
    &&& whole::are_in_order(pages)
    &&& 0 <= n <= pages.len()
    &&& forall|k: int| 0 <= k < m.states.len() ==> state_fits(#[trigger] m.states[k], pages, n)
    &&& skeleton_fits(m.skel, pages, n)
    &&& tracks::skeleton_follows(m.skel, pages, n)
    &&& is_single(pages) ==> is_one_link(m, pages)
}

/// Whether the next page to be processed is the `n`th, or none comes any more.
pub open spec fn comes_next(m: Model, pages: Seq<PageView>, n: int) -> bool {
    let q = n + m.page_queue.len();
    ||| stands_at(pages, m.pos, q) && m.page_queue == pages.subrange(n, q)
    ||| m.page_queue.len() == 0 && m.pos >= m.input.len()
}

/// Whether the demuxer travels an undamaged bitstream and has counted no
/// damage: the next page to be processed is the `n`th.
pub open spec fn is_calm(m: Model, pages: Seq<PageView>, n: int) -> bool {
    &&& is_placed(m, pages, n)
    &&& pages == whole::pages_from(m.input, 0)
    &&& laws::is_chain(m.input, 0)
    &&& leads_on(m.input, m.pos as int)
    &&& comes_next(m, pages, n)
    &&& same_counts(m.ledger, damage::empty_ledger())
    &&& hides_no_capture(m.input) ==> is_boundary(m.input, m.pos as int) && m.ledger
        == damage::empty_ledger()
}

/// Where a seek can land, the file has a serial number for it.
proof fn landing_is_named(m: Model, pages: Seq<PageView>, n: int, pos: int)
    requires
        is_placed(m, pages, n),
        can_land(m, pos),
    ensures
        is_named(pages, page::serial_at(m.input, pos)),
{
    let serial = page::serial_at(m.input, pos);
    demux::slot_holds(m.states, serial);
    if m.knows(serial) {
        let k = demux::slot(m.states, serial)->0;
        assert(state_fits(m.states[k], pages, n));
    } else {
        tracks::known_indexes_are_told(m.skel, pages, n, serial);
    }
}

/// Being moved is no damage.
proof fn moving_is_calm(m: Model, b: Model, pages: Seq<PageView>, n: int) -> (k: int)
    requires
        is_calm(m, pages, n),
        moved(m, b),
        seeks_lead_to_pages(m.input),
    ensures
        is_calm(b, pages, k),
{
    if stays(m, b) {
        n
    } else {
        whole::pages_stand_in_order(m.input, 0);
        landing_is_named(m, pages, n, b.pos as int);
        let k = stands_somewhere(pages, b.pos, pages.len() as int);
        tracks::jumping_follows(m.skel, pages, n, b.skel, k);
        assert(b.page_queue =~= pages.subrange(k, k));
        assert forall|i: int| 0 <= i < b.states.len() implies state_fits(
            #[trigger] b.states[i],
            pages,
            k,
        ) by {
            assert(state_fits(m.states[i], pages, n));
            assert(b.states[i] == seek::emptied(m.states[i]));
        }
        if is_single(pages) {
            assert forall|i: int| 0 <= i < b.states.len() implies (
            #[trigger] b.states[i]).link_index == 0 by {
                assert(m.states[i].link_index == 0);
                assert(b.states[i] == seek::emptied(m.states[i]));
            }
        }
        k
    }
}

/// Joining a page follows whether a packet is open.
proof fn joining_follows(p: Partial, page: PageView, was_open: bool)
    requires
        page.wf(),
        page.is_continued() == was_open,
        p.unknown || (p.valid && p.pending.len() > 0) == was_open || (!was_open
            && page.lacing.len() > 0),
    ensures
        ({
            let after = reassembly::join(
                p,
                page.is_continued(),
                reassembly::cut(page.lacing, page.data),
            ).1;
            after.unknown || (after.valid && after.pending.len() > 0) == (if page.lacing.len()
                == 0 {
                was_open
            } else {
                reassembly::is_open(page.lacing)
            })
        }),
{
    reassembly::nonempty_table_has_a_first_packet(page.lacing, page.data);
    if reassembly::is_open(page.lacing) {
        laws::open_packets_have_bytes(page.lacing);
        reassembly::open_start_bounds(page.lacing);
        assert(reassembly::open_bytes(page.lacing, page.data).len() > 0);
    }
}

/// How the last page of a run goes on from those before it.
proof fn run_goes_on(past: Seq<PageView>, page: PageView)
    requires
        laws::is_stream_run(past.push(page)),
    ensures
        page.wf(),
        page.is_continued() == reassembly::is_open(reassembly::all_lacing(past)),
        past.len() > 0 ==> page.seq_no == past.last().seq_no.wrapping_add(1),
        past.len() == 0 ==> !page.is_continued(),
        reassembly::is_open(reassembly::all_lacing(past.push(page))) == (if page.lacing.len()
            == 0 {
            reassembly::is_open(reassembly::all_lacing(past))
        } else {
            reassembly::is_open(page.lacing)
        }),
{
    let run = past.push(page);
    assert(run.drop_last() =~= past);
    assert(run.last() == page);
    reassembly::clean_runs_are_closed(run);
    let l0 = reassembly::all_lacing(past);
    if past.len() > 0 {
        let last = run.len() - 1;
        assert(run[last] == page && run[last - 1] == past.last());
        assert(run[last].seq_no == run[last - 1].seq_no.wrapping_add(1));
    }
    assert(reassembly::all_lacing(run) == l0 + page.lacing);
    if page.lacing.len() == 0 {
        assert(l0 + page.lacing =~= l0);
    } else {
        assert((l0 + page.lacing).last() == page.lacing.last());
    }
}

/// What an undamaged bitstream says of its `n`th page.
proof fn page_is_in_place(pages: Seq<PageView>, n: int, answers: Seq<Answer>)
    requires
        whole::is_undamaged(pages, answers),
        0 <= n < pages.len(),
    ensures
        laws::is_stream_run(whole::of_serial(pages, pages[n].serial)),
        pages[n].is_first() == (whole::of_serial(pages.take(n), pages[n].serial).len() == 0),
        pages[n].is_first() ==> whole::begins_content(answers, pages[n])
            || whole::begins_skeleton(pages[n]),
{
    reveal(whole::is_undamaged);
}

/// How a page of an undamaged bitstream goes on from those before it.
proof fn page_goes_on(pages: Seq<PageView>, n: int, answers: Seq<Answer>)
    requires
        whole::is_undamaged(pages, answers),
        0 <= n < pages.len(),
    ensures
        ({
            let page = pages[n];
            let past = whole::of_serial(pages.take(n), page.serial);
            let l0 = reassembly::all_lacing(past);
            &&& page.wf()
            &&& page.is_first() == (past.len() == 0)
            &&& page.is_continued() == reassembly::is_open(l0)
            &&& past.len() > 0 ==> page.seq_no == past.last().seq_no.wrapping_add(1)
            &&& page.is_first() ==> page.lacing.len() > 0 && !reassembly::is_open(l0)
            &&& page.is_first() ==> whole::of_serial(pages, page.serial)[0] == page
            &&& page.is_first() ==> whole::begins_content(answers, page)
                || whole::begins_skeleton(page)
            &&& whole::of_serial(pages, page.serial).len() > 0
            &&& whole::of_serial(pages.take(n + 1), page.serial) == past.push(page)
            &&& reassembly::is_open(reassembly::all_lacing(past.push(page))) == (
            if page.lacing.len() == 0 {
                reassembly::is_open(l0)
            } else {
                reassembly::is_open(page.lacing)
            })
        }),
{
    let page = pages[n];
    let serial = page.serial;
    page_is_in_place(pages, n, answers);
    let past = whole::of_serial(pages.take(n), serial);
    whole::of_serial_step(pages, n, serial);
    whole::of_serial_is_a_prefix(pages, n + 1, serial);
    run_goes_on(past, page);
    if past.len() == 0 {
        whole::first_of_its_serial(pages, n);
        reassembly::nonempty_table_has_a_first_packet(page.lacing, page.data);
    }
}

/// A page of a stream fits its state, and the state after it fits again.
proof fn page_fits(st: StateView, pages: Seq<PageView>, n: int, answers: Seq<Answer>)
    requires
        whole::is_undamaged(pages, answers),
        0 <= n < pages.len(),
        pages[n].serial == st.serial,
        state_fits(st, pages, n),
    ensures
        process::page_fit(st, pages[n]) is Clean,
        state_fits(process::state_after(st, pages[n]), pages, n + 1),
{
    page_goes_on(pages, n, answers);
    let past = whole::of_serial(pages.take(n), st.serial);
    joining_follows(st.partial, pages[n], reassembly::is_open(reassembly::all_lacing(past)));
}

/// A page of another stream changes nothing.
proof fn others_fit(st: StateView, pages: Seq<PageView>, n: int)
    requires
        state_fits(st, pages, n),
        0 <= n < pages.len(),
        pages[n].serial != st.serial,
    ensures
        state_fits(st, pages, n + 1),
{
    whole::of_serial_step(pages, n, st.serial);
}

proof fn skeleton_stays_fit(skel: SkelView, pages: Seq<PageView>, n: int)
    requires
        skeleton_fits(skel, pages, n),
        tracks::skeleton_follows(skel, pages, n),
        0 <= n < pages.len(),
        !whole::is_skeleton_serial(pages, pages[n].serial),
    ensures
        skeleton_fits(skel, pages, n + 1),
        tracks::skeleton_follows(skel, pages, n + 1),
{
    tracks::other_pages_follow(skel, pages, n);
    if let Some(sk) = skel.skeleton {
        whole::of_serial_step(pages, n, sk.serial);
    }
}

/// Counting a page of a single link begins no other.
pub proof fn single_stays_single(m: Model, pages: Seq<PageView>, n: int)
    requires
        is_single(pages),
        is_one_link(m, pages),
        whole::are_in_order(pages),
        0 <= n < pages.len(),
    ensures
        pages[n].is_first() ==> is_one_link(process::next_link(m, pages[n].offset), pages),
        !pages[n].is_first() ==> is_one_link(process::past_data(m, pages[n].offset), pages),
{
    let off = pages[n].offset;
    if pages[n].is_first() {
        assert(!process::is_apart(m, off));
    } else {
        assert forall|i: int| 0 <= i < pages.len() && (#[trigger] pages[i]).is_first() implies
            pages[i].offset < off by {
            if n < i {
                assert(pages[n].is_first());
            }
        }
    }
}

/// Reading a page of a stream leaves everything in place.
proof fn content_places(m: Model, pages: Seq<PageView>, n: int, k: int)
    requires
        is_placed(m, pages, n),
        n < pages.len(),
        !whole::is_skeleton_serial(pages, pages[n].serial),
        demux::is_slot(m.states, pages[n].serial, k),
    ensures
        is_placed(process::content_page(m, pages[n], k), pages, n + 1),
        process::content_page(m, pages[n], k).ledger == m.ledger,
{
    let after = process::content_page(m, pages[n], k);
    process::content_keeps_wf(m, pages[n], k);
    page_fits(m.states[k], pages, n, m.answers);
    skeleton_stays_fit(m.skel, pages, n);
    assert forall|i: int| 0 <= i < after.states.len() implies state_fits(
        #[trigger] after.states[i],
        pages,
        n + 1,
    ) by {
        if i != k {
            assert(after.states[i] == m.states[i]);
            assert(m.states[i].serial != m.states[k].serial);
            others_fit(m.states[i], pages, n);
        }
    }
    if is_single(pages) {
        assert forall|i: int| 0 <= i < after.states.len() implies (
        #[trigger] after.states[i]).link_index == 0 by {
            assert(m.states[i].link_index == 0);
        }
    }
}

/// A stream whose first page comes again is placed before it.
proof fn rewinding_places(m: Model, pages: Seq<PageView>, n: int, k: int)
    requires
        is_placed(m, pages, n),
        n < pages.len(),
        pages[n].is_first(),
        demux::is_slot(m.states, pages[n].serial, k),
    ensures
        m.states[k].bos_at == pages[n].offset,
        is_placed(process::rewound_at(m, k), pages, n),
{
    page_goes_on(pages, n, m.answers);
    let after = process::rewound_at(m, k);
    assert(state_fits(m.states[k], pages, n));
    register::updating_keeps_wf(m, k, process::rewound(m.states[k]));
    assert forall|i: int| 0 <= i < after.states.len() implies state_fits(
        #[trigger] after.states[i],
        pages,
        n,
    ) by {
        assert(state_fits(m.states[i], pages, n));
    }
    if is_single(pages) {
        assert forall|i: int| 0 <= i < after.states.len() implies (
        #[trigger] after.states[i]).link_index == 0 by {
            assert(m.states[i].link_index == 0);
        }
    }
}

/// A stream that is new has its place, wherever the demuxer stands.
proof fn new_stream_is_placed(m: Model, pages: Seq<PageView>, n: int, i: int)
    requires
        is_placed(m, pages, n),
        0 <= i < pages.len(),
        pages[i].is_first(),
        !m.knows(pages[i].serial),
        m.skeleton_serial() != Some(pages[i].serial),
    ensures
        ({
            let (after, fault) = register::registered(m, pages[i]);
            &&& fault is None
            &&& is_placed(after, pages, n)
            &&& after.ledger == m.ledger
            &&& !whole::is_skeleton_serial(pages, pages[i].serial) ==> {
                &&& after.states.len() == m.states.len() + 1
                &&& after.states.last().serial == pages[i].serial
                &&& after.states == m.states.push(after.states.last())
                &&& after.skel == m.skel
            }
        }),
{
    page_goes_on(pages, i, m.answers);
    register::registering_keeps_wf(m, pages[i]);
    let after = register::registered(m, pages[i]).0;
    if m.skel.skeleton is None && after.skel.skeleton is Some {
        tracks::new_skeleton_follows(m.skel, pages, n, after.skel);
    }
    assert forall|k: int| 0 <= k < after.states.len() implies state_fits(
        #[trigger] after.states[k],
        pages,
        n,
    ) by {
        if k < m.states.len() {
            assert(after.states[k] == m.states[k]);
        }
    }
    if is_single(pages) {
        assert forall|k: int| 0 <= k < after.states.len() implies (
        #[trigger] after.states[k]).link_index == 0 by {
            if k < m.states.len() {
                assert(after.states[k] == m.states[k]);
                assert(m.states[k].link_index == 0);
            }
        }
    }
}

/// Counting a page into a link, or taking note of one that begins none, leaves
/// everything in place.
proof fn counting_places(m: Model, pages: Seq<PageView>, n: int, i: int)
    requires
        is_placed(m, pages, n),
        0 <= i < pages.len(),
    ensures
        pages[i].is_first() ==> is_placed(process::next_link(m, pages[i].offset), pages, n),
        !pages[i].is_first() ==> is_placed(process::past_data(m, pages[i].offset), pages, n),
        process::next_link(m, pages[i].offset).skel == m.skel,
        process::next_link(m, pages[i].offset).states == m.states,
{
    if is_single(pages) {
        single_stays_single(m, pages, i);
    }
    let linked = process::next_link(m, pages[i].offset);
    let passed = process::past_data(m, pages[i].offset);
    assert(linked.skeleton_serial() == m.skeleton_serial());
    assert(passed.skeleton_serial() == m.skeleton_serial());
}

// ---------------------------------------------------------------------------
// Processing
// ---------------------------------------------------------------------------

/// Marking the first page of a stream as processed leaves everything in place.
proof fn marking_places(m: Model, pages: Seq<PageView>, n: int, serial: u32, k: int)
    requires
        is_placed(m, pages, n),
        demux::is_slot(m.states, serial, k),
        whole::of_serial(pages.take(n), serial).len() == 0,
    ensures
        is_placed(process::bos_marked(m, serial), pages, n),
        demux::is_slot(process::bos_marked(m, serial).states, serial, k),
        process::bos_marked(m, serial).ledger == m.ledger,
        process::bos_marked(m, serial).skel == m.skel,
{
    demux::slot_is(m.states, serial, k);
    let after = process::bos_marked(m, serial);
    register::updating_keeps_wf(m, k, process::begun(m.states[k]));
    assert forall|i: int| 0 <= i < after.states.len() implies state_fits(
        #[trigger] after.states[i],
        pages,
        n,
    ) by {
        assert(state_fits(m.states[i], pages, n));
    }
    if is_single(pages) {
        assert forall|i: int| 0 <= i < after.states.len() implies (
        #[trigger] after.states[i]).link_index == 0 by {
            assert(m.states[i].link_index == 0);
        }
    }
}

/// Taking note of a page of a stream leaves everything in place.
proof fn routing_places(m: Model, pages: Seq<PageView>, n: int)
    requires
        is_placed(m, pages, n),
        n < pages.len(),
        !whole::is_skeleton_serial(pages, pages[n].serial),
    ensures
        process::routed(m, pages[n]).1 is None,
        is_placed(process::routed(m, pages[n]).0, pages, n),
        process::routed(m, pages[n]).0.ledger == m.ledger,
        process::routed(m, pages[n]).0.skel == m.skel,
        m.skeleton_serial() != Some(pages[n].serial),
{
    let page = pages[n];
    counting_places(m, pages, n, n);
    if let Some(sk) = m.skel.skeleton {
        assert(sk.serial != page.serial);
    }
    demux::slot_holds(m.states, page.serial);
    if page.is_first() {
        if m.knows(page.serial) {
            rewinding_places(m, pages, n, demux::slot(m.states, page.serial)->0);
        } else {
            let linked = process::next_link(m, page.offset);
            new_stream_is_placed(linked, pages, n, n);
            let after = register::registered(linked, page).0;
            let k = m.states.len() as int;
            assert(demux::is_slot(after.states, page.serial, k));
            page_is_in_place(pages, n, m.answers);
            marking_places(after, pages, n, page.serial, k);
        }
    }
}

/// What is known of the Skeleton after one of its pages, or one of another's.
proof fn skeleton_is_followed(m: Model, pages: Seq<PageView>, n: int)
    requires
        is_placed(m, pages, n),
        n < pages.len(),
        whole::is_skeleton_serial(pages, pages[n].serial),
        !m.knows(pages[n].serial),
    ensures
        tracks::skeleton_follows(process::processed(m, pages[n]).0.skel, pages, n + 1),
{
    let page = pages[n];
    page_goes_on(pages, n, m.answers);
    page_is_in_place(pages, n, m.answers);
    demux::slot_holds(m.states, page.serial);
    let (routed, fault) = process::routed(m, page);
    assert(fault is None);
    assert(routed.states == m.states);
    if m.skel.skeleton is None && page.is_first() {
        tracks::new_skeleton_follows(m.skel, pages, n, routed.skel);
    } else {
        assert(routed.skel == m.skel);
        if m.skel.skeleton is None {
            tracks::unseen_skeletons_are_adrift(m.skel, pages, n, page.serial);
        }
    }
    if routed.skeleton_serial() == Some(page.serial) {
        tracks::skeleton_page_follows(routed, pages, n);
    } else {
        tracks::other_pages_follow(routed.skel, pages, n);
    }
}

/// Processing a page of a Skeleton leaves everything in place.
proof fn skeleton_places(m: Model, pages: Seq<PageView>, n: int)
    requires
        is_placed(m, pages, n),
        n < pages.len(),
        whole::is_skeleton_serial(pages, pages[n].serial),
    ensures
        process::processed(m, pages[n]).1 is None,
        is_placed(process::processed(m, pages[n]).0, pages, n + 1),
        process::processed(m, pages[n]).0.ledger == m.ledger,
{
    let page = pages[n];
    page_goes_on(pages, n, m.answers);
    demux::slot_holds(m.states, page.serial);
    if m.knows(page.serial) {
        let k = demux::slot(m.states, page.serial)->0;
        assert(state_fits(m.states[k], pages, n));
    }
    whole::skeleton_page_leaves_streams_alone(m, page);
    process::processing_keeps_wf(m, page);
    let after = process::processed(m, page).0;
    if let Some(sk) = after.skel.skeleton {
        whole::of_serial_step(pages, n, sk.serial);
    }
    skeleton_is_followed(m, pages, n);
    assert forall|i: int| 0 <= i < after.states.len() implies state_fits(
        #[trigger] after.states[i],
        pages,
        n + 1,
    ) by {
        assert(state_fits(m.states[i], pages, n));
        others_fit(m.states[i], pages, n);
    }
    if is_single(pages) {
        single_stays_single(m, pages, n);
        skeleton_links(m, page);
        assert forall|i: int| 0 <= i < after.states.len() implies (
        #[trigger] after.states[i]).link_index == 0 by {
            assert(m.states[i].link_index == 0);
        }
    }
}

/// What a page of a Skeleton does to the count of links.
proof fn skeleton_links(m: Model, page: PageView)
    requires
        m.wf(),
        !m.knows(page.serial),
        page.is_first() ==> whole::begins_skeleton(page),
    ensures
        ({
            let after = process::processed(m, page).0;
            let counted = if !page.is_first() {
                process::past_data(m, page.offset)
            } else if m.skeleton_serial() == Some(page.serial) {
                m
            } else {
                process::next_link(m, page.offset)
            };
            after.link == counted.link && after.data_at == counted.data_at
        }),
{
    demux::slot_holds(m.states, page.serial);
}

/// Processing the next page leaves everything in place, and is no damage.
pub proof fn processing_places(m: Model, pages: Seq<PageView>, n: int)
    requires
        is_placed(m, pages, n),
        n < pages.len(),
    ensures
        process::processed(m, pages[n]).1 is None,
        is_placed(process::processed(m, pages[n]).0, pages, n + 1),
        process::processed(m, pages[n]).0.ledger == m.ledger,
        process::same_source(m, process::processed(m, pages[n]).0),
{
    process::processing_keeps_wf(m, pages[n]);
    if whole::is_skeleton_serial(pages, pages[n].serial) {
        skeleton_places(m, pages, n);
    } else {
        routing_places(m, pages, n);
        let after = process::routed(m, pages[n]).0;
        demux::slot_holds(after.states, pages[n].serial);
        match demux::slot(after.states, pages[n].serial) {
            Some(k) => {
                content_places(after, pages, n, k);
            },
            None => {
                skeleton_stays_fit(after.skel, pages, n);
                assert forall|i: int| 0 <= i < after.states.len() implies state_fits(
                    #[trigger] after.states[i],
                    pages,
                    n + 1,
                ) by {
                    assert(after.states[i].serial != pages[n].serial);
                    others_fit(after.states[i], pages, n);
                }
            },
        }
    }
}

// ---------------------------------------------------------------------------
// Reading on
// ---------------------------------------------------------------------------

/// What is known does not depend on where pages come from.
proof fn placing_is_not_reading(m: Model, after: Model, pages: Seq<PageView>, n: int)
    requires
        is_placed(m, pages, n),
        after.wf(),
        after == (Model {
            pos: after.pos,
            page_queue: after.page_queue,
            out_queue: after.out_queue,
            index: after.index,
            ledger: after.ledger,
            ..m
        }),
    ensures
        is_placed(after, pages, n),
{
    assert(after.states == m.states);
}

/// Taking a page gives the next one.
pub proof fn taking_is_calm(m: Model, pages: Seq<PageView>, n: int)
    requires
        is_calm(m, pages, n),
    ensures
        match session::took_page(m) {
            (after, Some(found)) => {
                &&& n < pages.len()
                &&& found == pages[n]
                &&& is_placed(after, pages, n)
                &&& after.input == m.input
                &&& leads_on(m.input, after.pos as int)
                &&& comes_next(after, pages, n + 1)
                &&& same_counts(after.ledger, damage::empty_ledger())
                &&& hides_no_capture(m.input) ==> is_boundary(m.input, after.pos as int)
                    && after.ledger == damage::empty_ledger()
            },
            (after, None) => is_calm(after, pages, n) && after.input == m.input,
        },
{
    session::taking_keeps_wf(m);
    let after = session::took_page(m).0;
    let q = n + m.page_queue.len();
    if m.page_queue.len() > 0 {
        assert(m.page_queue[0] == pages[n]);
        assert(m.page_queue.skip(1) =~= pages.subrange(n + 1, q));
        placing_is_not_reading(m, after, pages, n);
    } else if m.pos < m.input.len() {
        reading_gives_the_next(m, pages, n);
        reader::reading_moves_forward(m);
        placing_is_not_reading(m, after, pages, n);
        if session::took_page(m).1 is Some {
            assert(after.page_queue =~= pages.subrange(n + 1, n + 1));
        } else {
            reading_stops_at_the_end(m);
        }
    }
}

/// Where no page is read, the end of the input is reached.
proof fn reading_stops_at_the_end(m: Model)
    requires
        m.wf(),
        reader::after_read(m).1 is None,
    ensures
        reader::after_read(m).0.pos >= m.input.len(),
{
}

/// Delivering a packet is no damage.
pub proof fn delivering_is_calm(m: Model, pages: Seq<PageView>, n: int) -> (k: int)
    requires
        is_calm(m, pages, n),
    ensures
        is_calm(session::delivered(m).0, pages, k),
        session::delivered(m).0.input == m.input,
    decreases whole::still_to_read(m),
{
    if m.out_queue.len() > 0 {
        let after = session::delivered(m).0;
        assert(after.skeleton_serial() == m.skeleton_serial());
        assert(after.wf());
        placing_is_not_reading(m, after, pages, n);
        n
    } else {
        taking_is_calm(m, pages, n);
        session::taking_keeps_wf(m);
        reader::reading_advances(m);
        match session::took_page(m) {
            (after, Some(found)) => {
                processing_places(after, pages, n);
                let done = process::processed(after, found).0;
                assert(session::delivered(m) == session::delivered(done));
                delivering_is_calm(done, pages, n + 1)
            },
            (after, None) => n,
        }
    }
}

// ---------------------------------------------------------------------------
// Indexing
// ---------------------------------------------------------------------------

/// The walk over the input leaves everything in place, and is no damage.
proof fn walking_places(
    m: Model,
    pages: Seq<PageView>,
    n: int,
    i: int,
    cursor: int,
    seen: Set<u32>,
)
    requires
        is_placed(m, pages, n),
        pages == whole::pages_from(m.input, 0),
        laws::is_chain(m.input, 0),
        0 <= i <= pages.len(),
        cursor == (if i < pages.len() {
            pages[i].offset as int
        } else {
            m.input.len() as int
        }),
        forall|serial: u32| #[trigger]
            seen.contains(serial) ==> whole::of_serial(pages.take(i), serial).len() > 0,
    ensures
        ({
            let after = scan::walked(m, cursor, seen).0;
            &&& is_placed(after, pages, n)
            &&& after.ledger == m.ledger
            &&& after.input == m.input
            &&& after.pos == m.pos
            &&& after.page_queue == m.page_queue
        }),
    decreases pages.len() - i,
{
    let s = m.input;
    if i < pages.len() {
        page_stands_there(s, 0, i);
        let at = cursor;
        assert(reader::next_capture(s, cursor, s.len() as int) == Some(at));
        meeting_places(m, pages, n, i, seen);
        let (after, now_seen, on) = scan::met(m, at, seen);
        let serial = pages[i].serial;
        assert forall|x: u32| #[trigger] now_seen.contains(x) implies whole::of_serial(
            pages.take(i + 1),
            x,
        ).len() > 0 by {
            whole::of_serial_step(pages, i, x);
        }
        walking_places(after, pages, n, i + 1, page::page_end(s, at), now_seen);
    } else {
        assert(reader::next_capture(s, cursor, s.len() as int) is None);
    }
}

/// Meeting a page on the walk leaves everything in place, and is no damage.
proof fn meeting_places(m: Model, pages: Seq<PageView>, n: int, i: int, seen: Set<u32>)
    requires
        is_placed(m, pages, n),
        pages == whole::pages_from(m.input, 0),
        laws::is_chain(m.input, 0),
        0 <= i < pages.len(),
        forall|serial: u32| #[trigger]
            seen.contains(serial) ==> whole::of_serial(pages.take(i), serial).len() > 0,
    ensures
        ({
            let (after, now_seen, on) = scan::met(m, pages[i].offset as int, seen);
            &&& on
            &&& is_placed(after, pages, n)
            &&& after.ledger == m.ledger
            &&& after.input == m.input
            &&& after.pos == m.pos
            &&& after.page_queue == m.page_queue
            &&& forall|x: u32| #[trigger]
                now_seen.contains(x) ==> seen.contains(x) || x == pages[i].serial
        }),
{
    let s = m.input;
    page_stands_there(s, 0, i);
    let at = pages[i].offset as int;
    page::body_len_nonneg(page::lacing_at(s, at));
    scan::meeting_keeps_wf(m, at, seen);
    page_is_in_place(pages, i, m.answers);
    let serial = pages[i].serial;
    let with = Model {
        index: seek_index::recorded(m.index, serial, page::granule_at(s, at), at as u64),
        ..m
    };
    assert(with.wf()) by {
        assert(with.skeleton_serial() == m.skeleton_serial());
        assert forall|e: seek_index::Entry| #[trigger] with.index.contains(e) implies
            demux::entry_holds(with.input, e) by {
            if !m.index.contains(e) {
                assert(e == (serial, page::granule_at(s, at), at as u64));
            }
        }
    }
    placing_is_not_reading(m, with, pages, n);
    counting_places(with, pages, n, i);
    if pages[i].is_first() {
        assert(!seen.contains(serial));
        if !m.knows(serial) && m.skeleton_serial() != Some(serial) {
            new_stream_is_placed(
                process::next_link(with, pages[i].offset),
                pages,
                n,
                i,
            );
        }
    }
}

/// Indexing is no damage.
pub proof fn indexing_is_calm(m: Model, pages: Seq<PageView>, n: int)
    requires
        is_calm(m, pages, n),
    ensures
        is_calm(scan::indexed(m).0, pages, n),
        scan::indexed(m).0.input == m.input,
{
    if m.input.len() > 0 {
        let start = Model { ledger: m.ledger.with_duplicate_count(0), ..m };
        damage::ledgers_stay_true(m.ledger, 0, 0, 0, 0);
        assert(start.skeleton_serial() == m.skeleton_serial());
        assert(start.wf());
        assert(start.ledger =~= m.ledger);
        placing_is_not_reading(m, start, pages, n);
        assert(pages == seq![page::page_at(m.input, 0)] + whole::pages_from(
            m.input,
            page::page_end(m.input, 0),
        ));
        assert(pages[0].offset == 0);
        walking_places(start, pages, n, 0, 0, Set::empty());
        let walked = scan::walked(start, 0, Set::empty()).0;
        let after = scan::indexed(m).0;
        assert(after.skeleton_serial() == walked.skeleton_serial());
        assert(after.wf());
        assert(after.states == walked.states);
    } else {
        let after = scan::indexed(m).0;
        assert(after.skeleton_serial() == m.skeleton_serial());
        assert(after.wf());
    }
}

/// All but the last call stay on the pages too.
pub proof fn fewer_moves_stay(m: Model, moves: Seq<Move>)
    requires
        moves.len() > 0,
        stays_on_pages(m, moves),
    ensures
        stays_on_pages(m, moves.drop_last()),
        moves.last() is Next || moves.last() is Index || seeks_lead_to_pages(m.input),
        !loses(after_moves(m, moves.drop_last()), moves.last()),
{
    if reads_only(moves) {
        let init = moves.drop_last();
        assert forall|i: int| 0 <= i < init.len() implies (#[trigger] init[i]) is Next
            || init[i] is Index by {
            assert(moves[i] is Next || moves[i] is Index);
        }
        assert(moves[moves.len() - 1] is Next || moves[moves.len() - 1] is Index);
    }
}

/// Whatever is called, no damage is counted.
pub proof fn moves_are_calm(m: Model, pages: Seq<PageView>, n: int, moves: Seq<Move>) -> (k: int)
    requires
        is_calm(m, pages, n),
        stays_on_pages(m, moves),
    ensures
        is_calm(after_moves(m, moves), pages, k),
        after_moves(m, moves).input == m.input,
    decreases moves.len(),
{
    if moves.len() == 0 {
        n
    } else {
        let before = after_moves(m, moves.drop_last());
        fewer_moves_stay(m, moves);
        let j = moves_are_calm(m, pages, n, moves.drop_last());
        match moves.last() {
            Move::Next => delivering_is_calm(before, pages, j),
            Move::Seek(index, pts) => {
                seeking_only_moves(before, index, pts);
                moving_is_calm(before, seek::seeked(before, index, pts).0, pages, j)
            },
            Move::SeekWithPreroll(index, pts) => {
                preroll_only_moves(before, index, pts);
                moving_is_calm(before, resume::prerolled(before, index, pts).0, pages, j)
            },
            Move::SeekToKeyframe(index, pts) => {
                keyframe_only_moves(before, index, pts);
                moving_is_calm(before, resume::keyframed(before, index, pts).0, pages, j)
            },
            Move::Index => {
                indexing_is_calm(before, pages, j);
                j
            },
        }
    }
}

// ---------------------------------------------------------------------------
// Opening
// ---------------------------------------------------------------------------

/// A page that begins, read where it stands, is found.
proof fn boundaries_are_read(m: Model)
    requires
        m.wf(),
        laws::is_chain(m.input, 0),
        is_boundary(m.input, m.pos as int),
        m.pos < m.input.len(),
    ensures
        reader::after_read(m).1 is Some,
{
    let i = page_is_listed(m.input, 0, m.pos as int);
    page_stands_there(m.input, 0, i);
}

/// A stream or Skeleton found at the start has its place.
proof fn finding_places(m: Model, pages: Seq<PageView>, q: int)
    requires
        is_placed(m, pages, 0),
        0 <= q < pages.len(),
        pages[q].is_first(),
        !m.knows(pages[q].serial),
    ensures
        register::registered(m, pages[q]).1 is None,
        is_placed(register::registered(m, pages[q]).0, pages, 0),
        ({
            let after = register::registered(m, pages[q]).0;
            after == (Model {
                streams: after.streams,
                states: after.states,
                skel: after.skel,
                ..m
            })
        }),
{
    page_goes_on(pages, q, m.answers);
    if m.skeleton_serial() == Some(pages[q].serial) {
        assert(whole::begins_skeleton(pages[q]));
    } else {
        new_stream_is_placed(m, pages, 0, q);
    }
}

/// With one more page waiting, the demuxer stands behind it.
proof fn waiting_is_calm(m: Model, waits: Model, pages: Seq<PageView>, q: int)
    requires
        is_calm(m, pages, 0),
        is_boundary(m.input, m.pos as int),
        is_placed(waits, pages, 0),
        waits.input == m.input,
        0 <= q < pages.len(),
        stands_at(pages, waits.pos, q + 1),
        waits.page_queue == pages.subrange(0, q + 1),
        waits.ledger == m.ledger,
        is_boundary(m.input, waits.pos as int),
    ensures
        is_calm(waits, pages, 0),
        waits.page_queue.len() == q + 1,
{
    boundaries_lead_on(m.input, waits.pos as int);
}

/// Reading the beginning-of-stream pages at the start is no damage.
proof fn beginning_is_calm(m: Model, pages: Seq<PageView>)
    requires
        is_calm(m, pages, 0),
        is_boundary(m.input, m.pos as int),
        stands_at(pages, m.pos, m.page_queue.len() as int),
        m.page_queue == pages.subrange(0, m.page_queue.len() as int),
    ensures
        session::bos_section(m).1 is None ==> is_calm(session::bos_section(m).0, pages, 0),
        session::bos_section(m).0.input == m.input,
    decreases m.input.len() - m.pos,
{
    let q = m.page_queue.len() as int;
    if m.pos >= m.input.len() {
        assert(reader::after_read(m) == (m, None::<PageView>));
    } else {
        boundaries_are_read(m);
        reading_gives_the_next(m, pages, q);
        reader::reading_moves_forward(m);
        let after = reader::after_read(m).0;
        placing_is_not_reading(m, after, pages, 0);
        let found = pages[q];
        assert(pages.subrange(0, q).push(pages[q]) =~= pages.subrange(0, q + 1));
        if !found.is_first() || after.knows(found.serial) {
            session::queueing_keeps_wf(after, found);
            let waits = session::queued(after, found);
            placing_is_not_reading(after, waits, pages, 0);
            waiting_is_calm(m, waits, pages, q);
            if found.is_first() {
                assert(session::bos_section(m) == session::bos_section(waits));
                beginning_is_calm(waits, pages);
            } else {
                assert(session::bos_section(m).0 == waits);
            }
        } else {
            counting_places(after, pages, 0, q);
            let counted = process::next_link(after, found.offset);
            assert(counted.knows(found.serial) == after.knows(found.serial));
            finding_places(counted, pages, q);
            let with = register::registered(counted, found).0;
            session::queueing_keeps_wf(with, found);
            let waits = session::queued(with, found);
            placing_is_not_reading(with, waits, pages, 0);
            waiting_is_calm(m, waits, pages, q);
            assert(session::bos_section(m) == session::bos_section(waits));
            beginning_is_calm(waits, pages);
        }
    }
}

/// Reading on for headers is no damage.
proof fn collecting_is_calm(m: Model, pages: Seq<PageView>, n: int, budget: int) -> (k: int)
    requires
        is_calm(m, pages, n),
    ensures
        is_calm(session::headers_collected(m, budget).0, pages, k),
        session::headers_collected(m, budget).0.input == m.input,
    decreases budget,
{
    if budget <= 0 || !session::awaits_headers(m) {
        n
    } else {
        taking_is_calm(m, pages, n);
        match session::took_page(m) {
            (after, Some(found)) => {
                processing_places(after, pages, n);
                let done = process::processed(after, found).0;
                collecting_is_calm(done, pages, n + 1, budget - 1)
            },
            (after, None) => n,
        }
    }
}

/// Adding tags is no damage.
proof fn tagging_is_calm(m: Model, pages: Seq<PageView>, n: int, k: int)
    requires
        is_calm(m, pages, n),
        0 <= k <= m.streams.len(),
    ensures
        is_calm(session::with_tags_of(m, k), pages, n),
        session::with_tags_of(m, k).streams == m.streams,
        session::with_tags_of(m, k).input == m.input,
    decreases k,
{
    if k > 0 {
        tagging_is_calm(m, pages, n, k - 1);
        let before = session::with_tags_of(m, k - 1);
        let after = process::with_tags(before, k - 1);
        register::updating_keeps_wf(before, k - 1, after.states[k - 1]);
        let mid = Model { states: before.states.update(k - 1, after.states[k - 1]), ..before };
        assert(after.skeleton_serial() == mid.skeleton_serial());
        assert(after.wf());
        assert forall|i: int| 0 <= i < after.states.len() implies state_fits(
            #[trigger] after.states[i],
            pages,
            n,
        ) by {
            assert(state_fits(before.states[i], pages, n));
        }
        if is_single(pages) {
            assert forall|i: int| 0 <= i < after.states.len() implies (
            #[trigger] after.states[i]).link_index == 0 by {
                assert(before.states[i].link_index == 0);
            }
        }
    }
}

proof fn setting_up_is_calm(m: Model, pages: Seq<PageView>, n: int)
    requires
        is_calm(m, pages, n),
    ensures
        is_calm(session::with_metadata(session::with_extradata(m)), pages, n),
        session::with_metadata(session::with_extradata(m)).input == m.input,
{
    let after = session::with_extradata(m);
    assert(after.skeleton_serial() == m.skeleton_serial());
    assert(after.wf()) by {
        assert forall|i: int| 0 <= i < after.streams.len() implies (
        #[trigger] after.streams[i]).index == i by {
            assert(m.streams[i].index == i);
        }
    }
    assert(after.states == m.states);
    tagging_is_calm(after, pages, n, after.streams.len() as int);
}

/// Opening an undamaged bitstream is no damage.
pub proof fn opening_is_calm(s: Seq<u8>, answers: Seq<Answer>) -> (k: int)
    requires
        s.len() <= usize::MAX,
        laws::is_chain(s, 0),
        whole::is_undamaged(whole::pages_from(s, 0), answers),
        session::opened(demux::fresh(s, 0, answers)).1 is None,
    ensures
        is_calm(
            session::opened(demux::fresh(s, 0, answers)).0,
            whole::pages_from(s, 0),
            k,
        ),
        session::opened(demux::fresh(s, 0, answers)).0.input == s,
{
    let pages = whole::pages_from(s, 0);
    let start = demux::fresh(s, 0, answers);
    whole::pages_stand_in_order(s, 0);
    assert(start.page_queue =~= pages.subrange(0, 0));
    assert(is_boundary(s, 0));
    assert(start.ledger.wf());
    tracks::nothing_follows(start.skel, pages);
    assert(is_calm(start, pages, 0));
    beginning_is_calm(start, pages);
    let found = session::bos_section(start).0;
    let n = collecting_is_calm(found, pages, 0, session::HEADER_SECTION_MAX_PAGES as int);
    let done = session::headers_collected(found, session::HEADER_SECTION_MAX_PAGES as int).0;
    setting_up_is_calm(done, pages, n);
    n
}

// ---------------------------------------------------------------------------
// Streams stay
// ---------------------------------------------------------------------------

/// Whether every stream with a known frame layout is a Theora stream that
/// ticks by a fraction of positive 32-bit numbers.
pub open spec fn is_timed(m: Model) -> bool {
    forall|k: int|
        0 <= k < m.states.len() && (#[trigger] m.states[k]).theora is Some ==> ticks_by_frames(
            m.streams[k],
        )
}

/// Whether a stream is a Theora stream that ticks by a fraction of positive
/// 32-bit numbers.
pub open spec fn ticks_by_frames(stream: media::StreamView) -> bool {
    &&& codec_id::mapping_of(stream.params.codec_id) is Theora
    &&& 0 < stream.time_base.num <= u32::MAX
    &&& 0 < stream.time_base.den <= u32::MAX
}

/// New streams are timed.
proof fn registering_keeps_time(m: Model, page: PageView)
    requires
        is_timed(m),
        m.streams.len() == m.states.len(),
    ensures
        is_timed(register::registered(m, page).0),
{
    let after = register::registered(m, page).0;
    if let Some(first) = reassembly::cut(page.lacing, page.data).first() {
        let id = register::identified(m.answers, first);
        if after.states.len() > m.states.len() {
            assert(after.states.last() == register::new_state(
                page.serial,
                page.offset,
                m.link,
                id,
                first,
            ));
            if after.states.last().theora is Some {
                register::theora_streams_tick_by_frames(id, first);
            }
            assert forall|k: int|
                0 <= k < after.states.len() && (
                #[trigger] after.states[k]).theora is Some implies ticks_by_frames(
                after.streams[k],
            ) by {
                if k < m.states.len() {
                    assert(after.states[k] == m.states[k]);
                }
            }
        }
    }
}

/// Streams stay timed while a page is processed.
proof fn processing_keeps_time(m: Model, page: PageView)
    requires
        is_timed(m),
        m.wf(),
    ensures
        is_timed(process::processed(m, page).0),
{
    process::routing_keeps_wf(m, page);
    demux::slot_holds(m.states, page.serial);
    let linked = process::next_link(m, page.offset);
    assert(is_timed(linked));
    registering_keeps_time(linked, page);
    registering_keeps_time(m, page);
    let (routed, fault) = process::routed(m, page);
    demux::slot_holds(register::registered(linked, page).0.states, page.serial);
    assert(is_timed(routed)) by {
        assert forall|k: int|
            0 <= k < routed.states.len() && (
            #[trigger] routed.states[k]).theora is Some implies ticks_by_frames(
            routed.streams[k],
        ) by {
            if k < m.states.len() {
                assert(m.states[k].theora == routed.states[k].theora);
            } else {
                assert(register::registered(linked, page).0.states[k].theora
                    == routed.states[k].theora);
            }
        }
    }
    demux::slot_holds(routed.states, page.serial);
    let after = process::processed(m, page).0;
    assert forall|k: int|
        0 <= k < after.states.len() && (#[trigger] after.states[k]).theora is Some implies
        ticks_by_frames(after.streams[k]) by {
        assert(routed.states[k].theora == after.states[k].theora);
    }
}

/// No page takes a stream away.
proof fn processing_keeps_streams(m: Model, page: PageView)
    requires
        m.wf(),
        is_timed(m),
    ensures
        process::processed(m, page).0.wf(),
        process::processed(m, page).0.states.len() >= m.states.len(),
        is_timed(process::processed(m, page).0),
{
    process::processing_keeps_wf(m, page);
    processing_keeps_time(m, page);
}

proof fn delivering_keeps_streams(m: Model)
    requires
        m.wf(),
        is_timed(m),
    ensures
        is_timed(session::delivered(m).0),
        session::delivered(m).0.wf(),
        session::delivered(m).0.states.len() >= m.states.len(),
    decreases whole::still_to_read(m),
{
    if m.out_queue.len() == 0 {
        session::taking_keeps_wf(m);
        reader::reading_advances(m);
        reader::reading_moves_forward(m);
        if let (after, Some(page)) = session::took_page(m) {
            processing_keeps_streams(after, page);
            process::processing_keeps_wf(after, page);
            let done = process::processed(after, page).0;
            if process::processed(after, page).1 is None {
                assert(session::delivered(m) == session::delivered(done));
                delivering_keeps_streams(done);
            }
        }
    } else {
        assert(session::delivered(m).0.skeleton_serial() == m.skeleton_serial());
    }
}

proof fn walking_keeps_streams(m: Model, cursor: int, seen: Set<u32>)
    requires
        m.wf(),
        is_timed(m),
        cursor >= 0,
    ensures
        is_timed(scan::walked(m, cursor, seen).0),
        scan::walked(m, cursor, seen).0.states.len() >= m.states.len(),
    decreases scan::left(m.input, cursor),
{
    let s = m.input;
    reader::next_capture_is_the_first(s, cursor, s.len() as int);
    if let Some(p) = reader::next_capture(s, cursor, s.len() as int) {
        if page::has_table(s, p) {
            page::body_len_nonneg(page::lacing_at(s, p));
            scan::meeting_keeps_wf(m, p, seen);
            let (after, now_seen, on) = scan::met(m, p, seen);
            let with = Model { index: after.index, ..m };
            registering_keeps_time(process::next_link(with, p as u64), page::page_at(s, p));
            assert(is_timed(after));
            if on {
                walking_keeps_streams(after, page::page_end(s, p), now_seen);
            }
        }
    }
}

proof fn being_elsewhere_keeps_time(m: Model, b: Model)
    requires
        is_timed(m),
        is_elsewhere(m, b),
    ensures
        is_timed(b),
{
    assert forall|k: int|
        0 <= k < b.states.len() && (#[trigger] b.states[k]).theora is Some implies ticks_by_frames(
        b.streams[k],
    ) by {
        assert(m.states[k].theora == b.states[k].theora);
    }
}

pub proof fn moves_keep_streams(m: Model, moves: Seq<Move>)
    requires
        m.wf(),
        is_timed(m),
    ensures
        is_timed(after_moves(m, moves)),
        after_moves(m, moves).wf(),
        after_moves(m, moves).states.len() >= m.states.len(),
    decreases moves.len(),
{
    if moves.len() > 0 {
        let before = after_moves(m, moves.drop_last());
        moves_keep_streams(m, moves.drop_last());
        match moves.last() {
            Move::Next => delivering_keeps_streams(before),
            Move::Seek(index, pts) => {
                seeking_only_moves(before, index, pts);
                being_elsewhere_keeps_time(before, seek::seeked(before, index, pts).0);
            },
            Move::SeekWithPreroll(index, pts) => {
                preroll_only_moves(before, index, pts);
                being_elsewhere_keeps_time(before, resume::prerolled(before, index, pts).0);
            },
            Move::SeekToKeyframe(index, pts) => {
                keyframe_only_moves(before, index, pts);
                being_elsewhere_keeps_time(before, resume::keyframed(before, index, pts).0);
            },
            Move::Index => {
                scan::indexing_again_adds_nothing(before);
                let start = Model {
                    ledger: before.ledger.with_duplicate_count(0),
                    ..before
                };
                damage::ledgers_stay_true(before.ledger, 0, 0, 0, 0);
                assert(start.skeleton_serial() == before.skeleton_serial());
                walking_keeps_streams(start, 0, Set::empty());
            },
        }
    }
}

proof fn beginning_finds_streams(m: Model)
    requires
        m.wf(),
        is_timed(m),
    ensures
        session::bos_section(m).1 is None ==> session::bos_section(m).0.streams.len() > 0
            && session::bos_section(m).0.wf() && is_timed(session::bos_section(m).0),
    decreases m.input.len() - m.pos,
{
    reader::reading_moves_forward(m);
    if let (after, Some(page)) = reader::after_read(m) {
        session::queueing_keeps_wf(after, page);
        if page.is_first() {
            if after.knows(page.serial) {
                beginning_finds_streams(session::queued(after, page));
            } else {
                let counted = process::next_link(after, page.offset);
                assert(counted.skeleton_serial() == after.skeleton_serial());
                assert(counted.wf());
                assert(counted.knows(page.serial) == after.knows(page.serial));
                register::registering_keeps_wf(counted, page);
                registering_keeps_time(counted, page);
                let (with, fault) = register::registered(counted, page);
                session::queueing_keeps_wf(with, page);
                if fault is None {
                    beginning_finds_streams(session::queued(with, page));
                }
            }
        }
    }
}

proof fn collecting_keeps_streams(m: Model, budget: int)
    requires
        m.wf(),
        is_timed(m),
    ensures
        is_timed(session::headers_collected(m, budget).0),
        session::headers_collected(m, budget).0.wf(),
        session::headers_collected(m, budget).0.states.len() >= m.states.len(),
    decreases budget,
{
    if budget > 0 && session::awaits_headers(m) {
        session::taking_keeps_wf(m);
        reader::reading_moves_forward(m);
        if let (after, Some(page)) = session::took_page(m) {
            processing_keeps_streams(after, page);
            let done = process::processed(after, page).0;
            if process::processed(after, page).1 is None {
                collecting_keeps_streams(done, budget - 1);
            }
        }
    }
}

proof fn tagging_keeps_streams(m: Model, k: int)
    requires
        m.wf(),
        is_timed(m),
        0 <= k <= m.states.len(),
    ensures
        is_timed(session::with_tags_of(m, k)),
        session::with_tags_of(m, k).wf(),
        session::with_tags_of(m, k).states.len() == m.states.len(),
    decreases k,
{
    if k > 0 {
        tagging_keeps_streams(m, k - 1);
        let before = session::with_tags_of(m, k - 1);
        let after = process::with_tags(before, k - 1);
        register::updating_keeps_wf(before, k - 1, after.states[k - 1]);
        let mid = Model { states: before.states.update(k - 1, after.states[k - 1]), ..before };
        assert(after.skeleton_serial() == mid.skeleton_serial());
        assert forall|i: int|
            0 <= i < after.states.len() && (
            #[trigger] after.states[i]).theora is Some implies ticks_by_frames(
            after.streams[i],
        ) by {
            assert(before.states[i].theora == after.states[i].theora);
        }
    }
}

/// A bitstream that was opened has a stream, and the demuxer is sound.
pub proof fn opening_finds_streams(s: Seq<u8>, pos: u64, answers: Seq<Answer>)
    requires
        s.len() <= usize::MAX,
        session::opened(demux::fresh(s, pos, answers)).1 is None,
    ensures
        session::opened(demux::fresh(s, pos, answers)).0.wf(),
        session::opened(demux::fresh(s, pos, answers)).0.states.len() > 0,
        is_timed(session::opened(demux::fresh(s, pos, answers)).0),
{
    let start = demux::fresh(s, pos, answers);
    assert(start.ledger.wf());
    beginning_finds_streams(start);
    let found = session::bos_section(start).0;
    collecting_keeps_streams(found, session::HEADER_SECTION_MAX_PAGES as int);
    let done = session::headers_collected(found, session::HEADER_SECTION_MAX_PAGES as int).0;
    let with = session::with_extradata(done);
    assert(with.skeleton_serial() == done.skeleton_serial());
    assert(with.wf()) by {
        assert forall|i: int| 0 <= i < with.streams.len() implies (
        #[trigger] with.streams[i]).index == i by {
            assert(done.streams[i].index == i);
        }
    }
    assert(is_timed(with)) by {
        assert forall|k: int|
            0 <= k < with.states.len() && (#[trigger] with.states[k]).theora is Some implies
            ticks_by_frames(with.streams[k]) by {
            assert(done.states[k].theora is Some);
        }
    }
    tagging_keeps_streams(with, done.streams.len() as int);
}

/// Whatever is called, every stream with a known frame layout ticks by frames.
pub proof fn opened_streams_are_timed(
    s: Seq<u8>,
    pos: u64,
    answers: Seq<Answer>,
    moves: Seq<Move>,
)
    requires
        s.len() <= usize::MAX,
        session::opened(demux::fresh(s, pos, answers)).1 is None,
    ensures
        is_timed(after_moves(session::opened(demux::fresh(s, pos, answers)).0, moves)),
{
    opening_finds_streams(s, pos, answers);
    moves_keep_streams(session::opened(demux::fresh(s, pos, answers)).0, moves);
}

// ---------------------------------------------------------------------------
// The laws
// ---------------------------------------------------------------------------

/// In an undamaged bitstream no damage is ever counted, however it is
/// travelled: after any mix of reading, seeking forward and back, and
/// indexing, there are no holes, no framing errors and no serial numbers used
/// twice. With seeks in the mix, each must find a page, and where a header
/// with a serial number of the file stands inside a page, a seek that lands
/// there must lead on to one of the pages.
pub proof fn travelling_is_no_damage(s: Seq<u8>, answers: Seq<Answer>, moves: Seq<Move>)
    requires
        s.len() <= usize::MAX,
        laws::is_chain(s, 0),
        whole::is_undamaged(whole::pages_from(s, 0), answers),
        session::opened(demux::fresh(s, 0, answers)).1 is None,
        stays_on_pages(session::opened(demux::fresh(s, 0, answers)).0, moves),
    ensures
        ({
            let m = after_moves(session::opened(demux::fresh(s, 0, answers)).0, moves);
            &&& m.wf()
            &&& m.ledger.holes == 0
            &&& m.ledger.framing_errors == 0
            &&& m.ledger.duplicate_serials == 0
        }),
{
    let n = opening_is_calm(s, answers);
    let m = session::opened(demux::fresh(s, 0, answers)).0;
    let k = moves_are_calm(m, whole::pages_from(s, 0), n, moves);
}

/// Where `OggS` stands nowhere but at the beginning of a page, there are no
/// resyncs either: no damage of any kind is noted.
pub proof fn travelling_leaves_no_trace(s: Seq<u8>, answers: Seq<Answer>, moves: Seq<Move>)
    requires
        s.len() <= usize::MAX,
        laws::is_chain(s, 0),
        hides_no_capture(s),
        whole::is_undamaged(whole::pages_from(s, 0), answers),
        session::opened(demux::fresh(s, 0, answers)).1 is None,
        never_loses(session::opened(demux::fresh(s, 0, answers)).0, moves),
    ensures
        after_moves(session::opened(demux::fresh(s, 0, answers)).0, moves).ledger
            == damage::empty_ledger(),
{
    captures_lead_to_pages(s);
    let n = opening_is_calm(s, answers);
    let m = session::opened(demux::fresh(s, 0, answers)).0;
    let k = moves_are_calm(m, whole::pages_from(s, 0), n, moves);
    calm_leaves_no_trace(after_moves(m, moves), whole::pages_from(s, 0), k);
}

proof fn captures_lead_to_pages(s: Seq<u8>)
    requires
        hides_no_capture(s),
    ensures
        seeks_lead_to_pages(s),
{
    assert forall|p: int| #[trigger]
        page::is_capture(s, p) && p + 27 <= s.len() && is_named(
            whole::pages_from(s, 0),
            page::serial_at(s, p),
        ) implies leads_on(s, p) by {
        reader::next_page_is_the_first(s, p);
        if let Some(x) = reader::next_page(s, p) {
            assert(page::is_capture(s, x));
        }
    }
}

proof fn calm_leaves_no_trace(m: Model, pages: Seq<PageView>, n: int)
    requires
        is_calm(m, pages, n),
        hides_no_capture(m.input),
    ensures
        m.ledger == damage::empty_ledger(),
{
}

/// A single link stays one however it is travelled: there is a stream, one
/// link is counted, and every stream belongs to it. Where packets are only
/// read and the input is only indexed, that holds of any undamaged bitstream.
pub proof fn a_single_link_stays_one(s: Seq<u8>, answers: Seq<Answer>, moves: Seq<Move>)
    requires
        s.len() <= usize::MAX,
        laws::is_chain(s, 0),
        whole::is_undamaged(whole::pages_from(s, 0), answers),
        is_single(whole::pages_from(s, 0)),
        session::opened(demux::fresh(s, 0, answers)).1 is None,
        stays_on_pages(session::opened(demux::fresh(s, 0, answers)).0, moves),
    ensures
        ({
            let m = after_moves(session::opened(demux::fresh(s, 0, answers)).0, moves);
            &&& m.states.len() > 0
            &&& m.link == 0
            &&& forall|k: int|
                0 <= k < m.states.len() ==> (#[trigger] m.states[k]).link_index == 0
        }),
{
    let n = opening_is_calm(s, answers);
    let m = session::opened(demux::fresh(s, 0, answers)).0;
    let k = moves_are_calm(m, whole::pages_from(s, 0), n, moves);
    opening_finds_streams(s, 0, answers);
    moves_keep_streams(m, moves);
}

/// Whatever the input and whatever is called, damage is told truly: the events
/// kept are the first 64, and while that is all of them they hold as many
/// holes, framing errors and resyncs as are counted.
pub proof fn damage_is_told_truly(s: Seq<u8>, pos: u64, answers: Seq<Answer>, moves: Seq<Move>)
    requires
        s.len() <= usize::MAX,
        session::opened(demux::fresh(s, pos, answers)).1 is None,
    ensures
        ({
            let l = after_moves(session::opened(demux::fresh(s, pos, answers)).0, moves).ledger;
            &&& l.total < damage::MAX_DAMAGE_EVENTS ==> l.events.len() == l.total
            &&& l.total >= damage::MAX_DAMAGE_EVENTS ==> l.events.len()
                == damage::MAX_DAMAGE_EVENTS
            &&& l.total <= damage::MAX_DAMAGE_EVENTS ==> {
                &&& damage::count_of(l.events, DamageKind::Hole) == l.holes
                &&& damage::count_of(l.events, DamageKind::FramingError) == l.framing_errors
                &&& damage::count_of(l.events, DamageKind::Resync) == l.resyncs
            }
        }),
{
    opening_finds_streams(s, pos, answers);
    moves_keep_streams(session::opened(demux::fresh(s, pos, answers)).0, moves);
}

} // verus!
