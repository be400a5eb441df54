//! Keyframe seeks on a Theora stream, from the pages of the file.
use crate::damage;
use crate::demux;
use crate::demux::{Answer, Model};
use crate::error::Error;
use crate::granule;
use crate::journey;
use crate::journey::Move;
use crate::laws;
use crate::links;
use crate::media;
use crate::media::PacketView;
use crate::page;
use crate::page::PageView;
use crate::reader;
use crate::resume;
use crate::scan;
use crate::seek;
use crate::seek_index;
use crate::session;
use crate::theora::TheoraGranule;
use crate::whole;
use vstd::arithmetic::power2;
use vstd::prelude::*;

verus! {

/// Whether the frame that ends on a page with granule `b` comes right behind
/// the frame that ends on a page with granule `a`: it is a keyframe of its
/// own, or counts on from the same keyframe.
pub open spec fn is_next_frame(a: int, b: int, shift: nat) -> bool {
    ||| granule::keyframe_half(b, shift) == granule::frame_no(a, shift) + 1
        && granule::offset_half(b, shift) == 0
    ||| granule::keyframe_half(b, shift) == granule::keyframe_half(a, shift)
        && granule::offset_half(b, shift) == granule::offset_half(a, shift) + 1
}

/// Whether each page of a stream from the `h`th on ends one frame, the first
/// of them a keyframe, and the pages before them, with the headers, have no
/// granule above 0.
pub open spec fn ends_frames(own: Seq<PageView>, h: int, gran: TheoraGranule) -> bool {
    let shift = gran.shift as nat;
    &&& 0 < shift < 63
    &&& 0 <= h < own.len()
    &&& forall|j: int| 0 <= j < h ==> (#[trigger] own[j]).granule <= 0
    &&& forall|j: int| h <= j < own.len() ==> (#[trigger] own[j]).granule >= 0
    &&& granule::offset_half(own[h].granule as int, shift) == 0
    &&& granule::keyframe_half(own[h].granule as int, shift) >= gran.origin()
    &&& forall|i: int, j: int|
        h <= i && j == i + 1 && j < own.len() ==> is_next_frame(
            (#[trigger] own[i]).granule as int,
            (#[trigger] own[j]).granule as int,
            shift,
        )
}

/// The next frame has the next frame number and a greater granule.
proof fn frames_go_on(a: int, b: int, shift: nat)
    requires
        0 <= a <= i64::MAX,
        0 <= b <= i64::MAX,
        0 < shift < 63,
        is_next_frame(a, b, shift),
    ensures
        a < b,
        granule::keyframe_half(a, shift) <= granule::keyframe_half(b, shift),
{
    granule::halves_of_granule(a as u64, shift as u32);
    granule::halves_of_granule(b as u64, shift as u32);
    let p = power2::pow2(shift) as int;
    let x = granule::keyframe_half(a, shift);
    let y = granule::keyframe_half(b, shift);
    if x != y {
        assert(x * p + p <= y * p) by (nonlinear_arith)
            requires
                x + 1 <= y,
                0 < p,
        ;
    }
}

/// Granules rise along the frames.
proof fn granules_rise(own: Seq<PageView>, h: int, gran: TheoraGranule, i: int, j: int)
    requires
        ends_frames(own, h, gran),
        h <= i < j < own.len(),
    ensures
        own[i].granule < own[j].granule,
        granule::keyframe_half(own[i].granule as int, gran.shift as nat) <= granule::keyframe_half(
            own[j].granule as int,
            gran.shift as nat,
        ),
    decreases j - i,
{
    let k = j - 1;
    assert(is_next_frame(own[k].granule as int, own[j].granule as int, gran.shift as nat));
    frames_go_on(own[k].granule as int, own[j].granule as int, gran.shift as nat);
    if i < k {
        granules_rise(own, h, gran, i, k);
    }
}

/// The keyframe that a frame counts from ends on a page of its own.
proof fn keyframe_has_a_page(own: Seq<PageView>, h: int, gran: TheoraGranule, j: int) -> (i: int)
    requires
        ends_frames(own, h, gran),
        h <= j < own.len(),
    ensures
        h <= i <= j,
        own[i].granule == granule::keyframe_granule(own[j].granule as int, gran.shift as nat),
    decreases j,
{
    let shift = gran.shift as nat;
    let g = own[j].granule as int;
    granule::halves_of_granule(g as u64, shift as u32);
    if granule::offset_half(g, shift) == 0 {
        j
    } else {
        let k = j - 1;
        assert(is_next_frame(own[k].granule as int, own[j].granule as int, shift));
        keyframe_has_a_page(own, h, gran, k)
    }
}

/// The pages of one stream are among all, in the same order.
proof fn own_pages_are_in_order(pages: Seq<PageView>, serial: u32)
    requires
        whole::are_in_order(pages),
    ensures
        whole::are_in_order(whole::of_serial(pages, serial)),
        forall|j: int|
            0 <= j < whole::of_serial(pages, serial).len() ==> (
            #[trigger] whole::of_serial(pages, serial)[j]).serial == serial && pages.contains(
                whole::of_serial(pages, serial)[j],
            ),
        forall|i: int|
            0 <= i < pages.len() && (#[trigger] pages[i]).serial == serial ==> whole::of_serial(
                pages,
                serial,
            ).contains(pages[i]),
    decreases pages.len(),
{
    if pages.len() > 0 {
        let init = pages.drop_last();
        let last = pages.len() - 1;
        assert(whole::are_in_order(init)) by {
            assert forall|i: int, j: int| 0 <= i < j < init.len() implies (
            #[trigger] init[i]).offset < (#[trigger] init[j]).offset by {
                assert(pages[i].offset < pages[j].offset);
            }
        }
        own_pages_are_in_order(init, serial);
        let few = whole::of_serial(init, serial);
        let own = whole::of_serial(pages, serial);
        assert forall|j: int| 0 <= j < few.len() implies (#[trigger] few[j]).offset
            < pages[last].offset && pages.contains(few[j]) by {
            let k = choose|k: int| 0 <= k < init.len() && init[k] == few[j];
            assert(pages[k] == few[j]);
            assert(pages[k].offset < pages[last].offset);
        }
        if pages[last].serial == serial {
            assert(own == few.push(pages[last]));
            assert(own[few.len() as int] == pages[last]);
            assert(pages[last] == pages[last]);
            assert forall|j: int| 0 <= j < own.len() implies (#[trigger] own[j]).serial == serial
                && pages.contains(own[j]) by {
                if j < few.len() {
                    assert(own[j] == few[j]);
                }
            }
            assert forall|i: int, j: int| 0 <= i < j < own.len() implies (#[trigger] own[i]).offset
                < (#[trigger] own[j]).offset by {
                assert(own[i] == few[i]);
                if j < few.len() {
                    assert(own[j] == few[j]);
                    assert(few[i].offset < few[j].offset);
                }
            }
        } else {
            assert(own == few);
        }
        assert forall|i: int|
            0 <= i < pages.len() && (#[trigger] pages[i]).serial == serial implies own.contains(
            pages[i],
        ) by {
            if i < last {
                assert(init[i] == pages[i]);
                assert(few.contains(init[i]));
                let j = choose|j: int| 0 <= j < few.len() && few[j] == init[i];
                assert(own[j] == few[j]);
            } else {
                assert(own[own.len() - 1] == pages[i]);
            }
        }
    }
}

/// The walk along the pages meets nothing else.
proof fn walk_meets_only_pages(s: Seq<u8>, from: int, e: seek_index::Entry)
    requires
        s.len() <= usize::MAX,
        laws::is_chain(s, from),
        scan::met_entries(s, from).contains(e),
    ensures
        exists|i: int|
            0 <= i < whole::pages_from(s, from).len() && whole::known_as(
                #[trigger] whole::pages_from(s, from)[i],
            ) == e,
    decreases s.len() - from,
{
    if from < s.len() {
        page::body_len_nonneg(page::lacing_at(s, from));
        let end = page::page_end(s, from);
        assert(reader::next_capture(s, from, s.len() as int) == Some(from));
        let pages = whole::pages_from(s, from);
        let later = whole::pages_from(s, end);
        assert(pages == seq![page::page_at(s, from)] + later);
        let here = (page::serial_at(s, from), page::granule_at(s, from), from as u64);
        if e == here {
            assert(whole::known_as(pages[0]) == e);
        } else {
            walk_meets_only_pages(s, end, e);
            let i = choose|i: int|
                0 <= i < later.len() && whole::known_as(#[trigger] later[i]) == e;
            assert(pages[i + 1] == later[i]);
        }
    }
}

/// Whether the index of the demuxer holds every page of the file that has a
/// granule, and nothing else.
pub open spec fn knows_the_pages(m: Model, pages: Seq<PageView>) -> bool {
    &&& whole::knows_only_pages(m.index, pages)
    &&& forall|i: int|
        0 <= i < pages.len() && (#[trigger] pages[i]).granule >= 0 ==> m.index.contains(
            whole::known_as(pages[i]),
        )
}

/// Once an input that was only read has been indexed, the pages of the file
/// are known, and nothing else.
proof fn indexing_knows_the_pages(m: Model, pages: Seq<PageView>)
    requires
        m.wf(),
        m.input.len() > 0,
        laws::is_chain(m.input, 0),
        pages == whole::pages_from(m.input, 0),
        whole::knows_only_pages(m.index, pages),
    ensures
        knows_the_pages(scan::indexed(m).0, pages),
        scan::indexed(m).0.wf(),
        scan::indexed(m).0.index_built,
        scan::indexed(m).0.input == m.input,
{
    let s = m.input;
    let start = Model { ledger: m.ledger.with_duplicate_count(0), ..m };
    damage::ledgers_stay_true(m.ledger, 0, 0, 0, 0);
    assert(start.skeleton_serial() == m.skeleton_serial());
    assert(start.wf());
    scan::walk_indexes_what_it_meets(start, 0, Set::empty());
    let walked = scan::walked(start, 0, Set::empty()).0;
    let done = scan::indexed(m).0;
    assert(done.skeleton_serial() == walked.skeleton_serial());
    assert(done.wf());
    assert forall|e: seek_index::Entry| #[trigger] done.index.contains(e) implies exists|i: int|
        0 <= i < pages.len() && whole::known_as(#[trigger] pages[i]) == e by {
        if !m.index.contains(e) {
            walk_meets_only_pages(s, 0, e);
        }
    }
    assert forall|i: int|
        0 <= i < pages.len() && (#[trigger] pages[i]).granule >= 0 implies done.index.contains(
        whole::known_as(pages[i]),
    ) by {
        journey::page_stands_there(s, 0, i);
        laws::walk_meets_every_page(s, 0, pages[i].offset as int);
    }
}

/// Where a known page of a stream stands among its pages.
proof fn known_page_is_own(m: Model, pages: Seq<PageView>, e: seek_index::Entry) -> (j: int)
    requires
        whole::are_in_order(pages),
        whole::knows_only_pages(m.index, pages),
        m.index.contains(e),
    ensures
        0 <= j < whole::of_serial(pages, e.0).len(),
        whole::known_as(whole::of_serial(pages, e.0)[j]) == e,
{
    let own = whole::of_serial(pages, e.0);
    own_pages_are_in_order(pages, e.0);
    let i = choose|i: int| 0 <= i < pages.len() && whole::known_as(#[trigger] pages[i]) == e;
    assert(own.contains(pages[i]));
    choose|j: int| 0 <= j < own.len() && own[j] == pages[i]
}

/// Along the pages of a stream, later granules stand at later places.
proof fn later_frames_stand_later(
    own: Seq<PageView>,
    h: int,
    gran: TheoraGranule,
    i: int,
    j: int,
)
    requires
        ends_frames(own, h, gran),
        whole::are_in_order(own),
        0 <= i < own.len(),
        0 <= j < own.len(),
        0 <= own[i].granule < own[j].granule,
    ensures
        own[i].offset < own[j].offset,
{
    if j <= i {
        if h <= j && j < i {
            granules_rise(own, h, gran, j, i);
        }
    }
}

/// What a seek on the frames of a stream lands on: a page that ends a frame.
proof fn seek_lands_on_a_frame(
    m: Model,
    pages: Seq<PageView>,
    index: u32,
    pts: i64,
    h: int,
) -> (j: int)
    requires
        m.wf(),
        index < m.streams.len(),
        knows_the_pages(m, pages),
        whole::are_in_order(pages),
        journey::is_timed(m),
        m.states[index as int].theora is Some,
        ends_frames(
            whole::of_serial(pages, m.states[index as int].serial),
            h,
            m.states[index as int].theora->0,
        ),
        (m.states[index as int].theora->0).index_spec(
            whole::of_serial(pages, m.states[index as int].serial)[h].granule as int,
        ) matches Some(f) && f <= pts,
    ensures
        ({
            let st = m.states[index as int];
            let own = whole::of_serial(pages, st.serial);
            &&& seek::seek_key(m, index as int, pts) is Ok
            &&& h <= j < own.len()
            &&& seek_index::floor(
                m.index,
                st.serial,
                seek::seek_key(m, index as int, pts)->Ok_0,
            ) == Some((own[j].granule, own[j].offset))
        }),
{
    let st = m.states[index as int];
    let own = whole::of_serial(pages, st.serial);
    let gran = st.theora->0;
    let key = seek::seek_key(m, index as int, pts)->Ok_0;
    own_pages_are_in_order(pages, st.serial);
    media::rescaling_to_the_same_base(pts, m.streams[index as int].time_base);
    assert(key.target_key == pts);
    let first = (own[h].granule, own[h].offset);
    assert(pages.contains(own[h]));
    let i = choose|i: int| 0 <= i < pages.len() && pages[i] == own[h];
    assert(m.index.contains(whole::known_as(pages[i])));
    assert(m.index.contains((st.serial, own[h].granule, own[h].offset)));
    granule::frame_no_bound(own[h].granule as int, gran.shift as nat);
    assert(seek_index::reaches(m.index, st.serial, key, first));
    laws::floor_is_known(m.index, st.serial, key, m.input);
    let (g, l) = seek_index::floor(m.index, st.serial, key)->0;
    assert(!seek_index::earlier((g, l), first));
    let j = known_page_is_own(m, pages, (st.serial, g, l));
    if j < h {
        assert(own[j].granule <= 0);
        assert(own[j].offset < own[h].offset);
    }
    j
}

/// Keyframe seeks reach the keyframe: on a Theora stream of an undamaged file
/// without a Skeleton, whose pages each end one frame, once the file has been
/// indexed. From the first frame on, a seek lands on a page that ends a
/// frame. Where that is a keyframe, seeking to the keyframe is that seek.
/// Otherwise it leads to the page, before that one, that ends the keyframe
/// which the frame counts from, and gives that page's granule, whose offset
/// half is 0.
pub proof fn keyframe_seeks_reach_keyframe_pages(
    s: Seq<u8>,
    answers: Seq<Answer>,
    reads: Seq<Move>,
    index: u32,
    pts: i64,
    h: int,
)
    requires
        0 < s.len() <= usize::MAX,
        laws::is_chain(s, 0),
        whole::is_undamaged(whole::pages_from(s, 0), answers),
        whole::starts_with_content(whole::pages_from(s, 0), answers),
        forall|i: int| 0 <= i < reads.len() ==> (#[trigger] reads[i]) is Next,
        ({
            let m = scan::indexed(
                journey::after_moves(session::opened(demux::fresh(s, 0, answers)).0, reads),
            ).0;
            let st = m.states[index as int];
            let own = whole::of_serial(whole::pages_from(s, 0), st.serial);
            &&& m.skel.skeleton is None
            &&& index < m.streams.len()
            &&& st.theora is Some
            &&& ends_frames(own, h, st.theora->0)
            &&& (st.theora->0).index_spec(own[h].granule as int) matches Some(f) && f <= pts
        }),
    ensures
        ({
            let m = scan::indexed(
                journey::after_moves(session::opened(demux::fresh(s, 0, answers)).0, reads),
            ).0;
            let st = m.states[index as int];
            let shift = (st.theora->0).shift as nat;
            let (first, r0) = seek::seeked(m, index, pts);
            let (after, r) = resume::keyframed(m, index, pts);
            &&& r0 is Ok
            &&& granule::offset_half(r0->Ok_0 as int, shift) == 0 ==> (after, r) == (first, r0)
            &&& granule::offset_half(r0->Ok_0 as int, shift) != 0 ==> {
                &&& r == Ok::<i64, Error>(
                    granule::keyframe_granule(r0->Ok_0 as int, shift) as i64,
                )
                &&& granule::offset_half(r->Ok_0 as int, shift) == 0
                &&& granule::keyframe_half(r->Ok_0 as int, shift) == granule::keyframe_half(
                    r0->Ok_0 as int,
                    shift,
                )
                &&& laws::page_begins(s, 0, after.pos as int)
                &&& page::serial_at(s, after.pos as int) == st.serial
                &&& page::granule_at(s, after.pos as int) == r->Ok_0
                &&& after.pos < first.pos
            }
        }),
{
    let pages = whole::pages_from(s, 0);
    let none = Seq::<PacketView>::empty();
    let n = whole::opening_stands(s, 0, answers);
    let opened = session::opened(demux::fresh(s, 0, answers)).0;
    let (k, got) = links::reads_stand(opened, pages, n, none, reads);
    let read = journey::after_moves(opened, reads);
    whole::pages_stand_in_order(s, 0);
    indexing_knows_the_pages(read, pages);
    let m = scan::indexed(read).0;
    journey::opened_streams_are_timed(s, 0, answers, reads.push(Move::Index));
    assert(reads.push(Move::Index).drop_last() =~= reads);
    assert(journey::is_timed(m));
    let st = m.states[index as int];
    let gran = st.theora->0;
    let shift = gran.shift as nat;
    let own = whole::of_serial(pages, st.serial);
    own_pages_are_in_order(pages, st.serial);
    let j = seek_lands_on_a_frame(m, pages, index, pts, h);
    let key = seek::seek_key(m, index as int, pts)->Ok_0;
    let i = keyframe_has_a_page(own, h, gran, j);
    if h < j {
        granules_rise(own, h, gran, h, j);
    }
    assert(pages.contains(own[i]));
    let x = choose|x: int| 0 <= x < pages.len() && pages[x] == own[i];
    assert(m.index.contains(whole::known_as(pages[x])));
    assert forall|a: seek_index::Entry, b: seek_index::Entry| #[trigger]
        m.index.contains(a) && #[trigger] m.index.contains(b) && a.0 == st.serial && b.0
            == st.serial && a.1 < b.1 implies a.2 < b.2 by {
        let c = known_page_is_own(m, pages, a);
        let d = known_page_is_own(m, pages, b);
        assert(demux::entry_holds(s, a));
        later_frames_stand_later(own, h, gran, c, d);
    }
    assert(seek::seeked(m, index, pts).1 == Ok::<i64, Error>(own[j].granule)) by {
        laws::indexed_seek_is_a_jump(m, index, pts);
    }
    laws::keyframe_seeks_reach_the_keyframe(m, index, pts, own[i].offset);
    let (after, r) = resume::keyframed(m, index, pts);
    granule::keyframes_name_themselves(own[j].granule as int, shift);
    if granule::offset_half(own[j].granule as int, shift) != 0 {
        let y = known_page_is_own(m, pages, (st.serial, r->Ok_0, after.pos));
        assert(pages.contains(own[y]));
        let z = choose|z: int| 0 <= z < pages.len() && pages[z] == own[y];
        journey::page_stands_there(s, 0, z);
    }
}

} // verus!
