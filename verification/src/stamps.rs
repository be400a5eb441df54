//! Times of packets and of the ends of streams, in terms of what granules
//! pack.
use crate::demux::{Model, StateView};
use crate::duration;
use crate::granule;
use crate::laws;
use crate::media;
use crate::media::{StreamView, TimeBase};
use crate::page::PageView;
use crate::process;
use crate::resume;
use crate::seek_index;
use crate::skeleton;
use crate::skeleton::Track;
use crate::theora::TheoraGranule;
use crate::timing;
use vstd::arithmetic::power2;
use vstd::prelude::*;

verus! {

// ---------------------------------------------------------------------------
// Frames
// ---------------------------------------------------------------------------

/// The granule of the frame `since` frames behind keyframe number `keyframe`.
pub open spec fn packed(keyframe: int, since: int, shift: nat) -> int {
    keyframe * power2::pow2(shift) + since
}

/// Whether both numbers can be packed into a granule.
pub open spec fn can_be_packed(keyframe: int, since: int, shift: nat) -> bool {
    &&& 0 < shift < 63
    &&& 0 <= keyframe
    &&& 0 <= since < power2::pow2(shift)
    &&& packed(keyframe, since, shift) <= i64::MAX
}

proof fn packed_is_positive(keyframe: int, since: int, shift: nat)
    requires
        can_be_packed(keyframe, since, shift),
    ensures
        0 <= packed(keyframe, since, shift),
        granule::frame_no(packed(keyframe, since, shift), shift) == keyframe + since,
        granule::keyframe_half(packed(keyframe, since, shift), shift) == keyframe,
        granule::offset_half(packed(keyframe, since, shift), shift) == since,
        keyframe + since <= packed(keyframe, since, shift),
{
    let g = packed(keyframe, since, shift);
    power2::lemma_pow2_pos(shift);
    assert(0 <= g) by (nonlinear_arith)
        requires
            g == keyframe * power2::pow2(shift) + since,
            0 <= keyframe,
            0 <= since,
            0 < power2::pow2(shift),
    ;
    granule::unpacking_a_packed_granule(keyframe, since, shift);
    granule::frame_no_bound(g, shift);
}

/// A granule names the frame that it packs: keyframe number and frames since,
/// where version 3.2.1 and later number frames from 1. Numbers below the first
/// name no frame. As many frames have played at its end as frames up to it.
pub proof fn granules_name_their_frames(
    gran: TheoraGranule,
    keyframe: int,
    since: int,
)
    requires
        can_be_packed(keyframe, since, gran.shift as nat),
    ensures
        ({
            let g = packed(keyframe, since, gran.shift as nat);
            let from = if gran.count_from_one {
                1int
            } else {
                0int
            };
            &&& keyframe + since >= from ==> gran.index_spec(g) == Some(
                (keyframe + since - from) as i64,
            ) && gran.count_spec(g) == Some(
                timing::at_most(keyframe + since - from + 1, i64::MAX as int) as i64,
            )
            &&& keyframe + since < from ==> gran.index_spec(g) is None && gran.count_spec(g) is None
            &&& keyframe >= from ==> gran.keyframe_spec(g) == Some((keyframe - from) as i64)
            &&& keyframe < from ==> gran.keyframe_spec(g) is None
        }),
{
    packed_is_positive(keyframe, since, gran.shift as nat);
}

/// A granule without a keyframe half: with no low bits it is the frame itself,
/// with 63 or more there is no room for a keyframe and the frame is 0, and a
/// negative one stands for itself. All of these count as keyframes.
pub proof fn granules_without_halves(g: i64, shift: nat)
    ensures
        shift == 0 ==> granule::frame_no(g as int, shift) == g,
        shift >= 63 && g >= 0 ==> granule::frame_no(g as int, shift) == 0,
        g < 0 ==> granule::frame_no(g as int, shift) == g,
        shift == 0 || shift >= 63 || g < 0 ==> granule::is_keyframe(g as int, shift),
{
}

/// The packets of one page of a stream, as they are queued.
pub open spec fn queued_by(m: Model, page: PageView, k: int) -> Seq<media::PacketView> {
    process::content_page(m, page, k).out_queue.skip(m.out_queue.len() as int)
}

/// A page queues one packet for each data packet that it completes, behind
/// what is queued, with the stream's number and time base. The last one ends
/// the page.
pub proof fn pages_queue_their_packets(m: Model, page: PageView, k: int)
    requires
        0 <= k < m.states.len(),
    ensures
        ({
            let data = process::data_of(m.states[k], page);
            let new = queued_by(m, page, k);
            &&& process::content_page(m, page, k).out_queue == m.out_queue + new
            &&& new.len() == data.len()
            &&& forall|j: int|
                0 <= j < new.len() ==> {
                    &&& (#[trigger] new[j]).data == data[j]
                    &&& new[j].stream_index == m.streams[k].index
                    &&& new[j].time_base == m.streams[k].time_base
                    &&& new[j].unit_boundary <==> j == new.len() - 1
                }
        }),
{
    let new = queued_by(m, page, k);
    assert(process::content_page(m, page, k).out_queue =~= m.out_queue + new);
}

/// Of a stream without a known frame layout the last packet of a page has the
/// page's granule as its time, where that is not negative, and the others have
/// none. Without a track description every packet is a keyframe; with one the
/// last packet is, where no frames have passed since its keyframe.
pub proof fn plain_packets_have_the_granule(m: Model, page: PageView, k: int, j: int)
    requires
        0 <= k < m.states.len(),
        m.states[k].theora is None,
        0 <= j < queued_by(m, page, k).len(),
    ensures
        ({
            let new = queued_by(m, page, k);
            &&& new[j].pts == if j == new.len() - 1 && page.granule >= 0 {
                Some(page.granule)
            } else {
                None
            }
            &&& process::bone_of(m, page.serial) is None ==> new[j].keyframe
            &&& process::bone_of(m, page.serial) matches Some(b) ==> {
                &&& b.granuleshift == 0 ==> new[j].keyframe
                &&& b.granuleshift > 0 && (j < new.len() - 1 || page.granule < 0)
                    ==> !new[j].keyframe
            }
        }),
{
    pages_queue_their_packets(m, page, k);
}

/// With a track description, the last packet of a page is a keyframe exactly
/// when no frames have passed since the keyframe that its granule packs.
pub proof fn described_packets_are_keyframes(
    m: Model,
    page: PageView,
    k: int,
    b: Track,
    keyframe: int,
    since: int,
)
    requires
        0 <= k < m.states.len(),
        m.states[k].theora is None,
        process::bone_of(m, page.serial) == Some(b),
        can_be_packed(keyframe, since, b.granuleshift as nat),
        page.granule == packed(keyframe, since, b.granuleshift as nat),
        queued_by(m, page, k).len() > 0,
    ensures
        queued_by(m, page, k).last().keyframe <==> since == 0,
{
    packed_is_positive(keyframe, since, b.granuleshift as nat);
    pages_queue_their_packets(m, page, k);
}

/// Packets of a Theora stream are frames, one after the other: the last on a
/// page is the frame that the page's granule packs, and those before it are
/// the frames before. A packet is a keyframe exactly when it is the frame that
/// the granule counts from.
pub proof fn frames_are_numbered(
    m: Model,
    page: PageView,
    k: int,
    j: int,
    gran: TheoraGranule,
    keyframe: int,
    since: int,
)
    requires
        0 <= k < m.states.len(),
        m.states[k].theora == Some(gran),
        can_be_packed(keyframe, since, gran.shift as nat),
        keyframe + since >= if gran.count_from_one {
            1int
        } else {
            0int
        },
        page.granule == packed(keyframe, since, gran.shift as nat),
        queued_by(m, page, k).len() <= 255,
        0 <= j < queued_by(m, page, k).len(),
    ensures
        ({
            let new = queued_by(m, page, k);
            let from = if gran.count_from_one {
                1int
            } else {
                0int
            };
            let frame = keyframe + since - from - (new.len() - 1 - j);
            &&& new[j].pts == Some(frame as i64)
            &&& new[j].keyframe <==> keyframe >= from && frame == keyframe - from
        }),
{
    packed_is_positive(keyframe, since, gran.shift as nat);
    granules_name_their_frames(gran, keyframe, since);
    pages_queue_their_packets(m, page, k);
    let new = queued_by(m, page, k);
    laws::frames_on_a_page_are_consecutive(
        gran,
        process::granule_shift(m, page.serial, Some(gran)),
        m.states[k].next_frame,
        page.granule,
        new.len() as int,
        j,
    );
}

/// Where a page's granule names no frame, the packets of a Theora stream are
/// the frames that follow those of the page before.
pub proof fn frames_are_counted_on(
    before: StateView,
    page: PageView,
    next: PageView,
    stream: StreamView,
    shift: u32,
    gran: TheoraGranule,
    last: i64,
    j: int,
)
    requires
        before.theora == Some(gran),
        gran.index_spec(page.granule as int) == Some(last),
        gran.index_spec(next.granule as int) is None,
        0 < process::data_of(before, page).len() <= 255,
        0 <= j < process::data_of(process::state_after(before, page), next).len(),
        last + 1 + j <= i64::MAX,
    ensures
        ({
            let st = process::state_after(before, page);
            let data = process::data_of(st, next);
            process::stamped(stream, st, shift, next.granule, data)[j].pts == Some(
                (last + 1 + j) as i64,
            )
        }),
{
    let n = process::data_of(before, page).len() as int;
    granule::frame_no_bound(page.granule as int, gran.shift as nat);
    laws::frames_on_a_page_are_consecutive(gran, shift, before.next_frame, page.granule, n, 0);
}

// ---------------------------------------------------------------------------
// Keyframes of described streams
// ---------------------------------------------------------------------------

/// Where a track description times a stream, a seek to a keyframe goes for the
/// time of the keyframe that the granule counts from:
/// `keyframe * rate.denominator / rate.numerator` seconds, in ticks of the
/// stream, to the nearest tick that can be written.
pub proof fn described_keyframes_go_by_time(
    b: Track,
    gran: Option<TheoraGranule>,
    tick: TimeBase,
    keyframe: int,
    since: int,
)
    requires
        can_be_packed(keyframe, since, b.granuleshift as nat),
        b.granule_rate.numerator > 0,
        b.granule_rate.denominator > 0,
        tick.num > 0,
        tick.den > 0,
        keyframe * (b.granule_rate.denominator * tick.den) <= u128::MAX,
    ensures
        ({
            let g = packed(keyframe, since, b.granuleshift as nat) as i64;
            let t = resume::keyframe_pts(Some(b), gran, b.granuleshift as u32, tick, g);
            let exact = 2 * (keyframe * (b.granule_rate.denominator * tick.den));
            let unit = b.granule_rate.numerator * tick.num;
            &&& t is Some
            &&& 2 * (t->0 * unit) - unit <= exact
            &&& t->0 < i64::MAX ==> exact < 2 * (t->0 * unit) + unit
        }),
{
    let shift = b.granuleshift as nat;
    packed_is_positive(keyframe, since, shift);
    let rate = TimeBase { num: b.granule_rate.denominator, den: b.granule_rate.numerator };
    assert(keyframe * (rate.num * tick.den) >= 0) by (nonlinear_arith)
        requires
            keyframe >= 0,
            rate.num > 0,
            tick.den > 0,
    ;
    let t = media::rescaled(keyframe as i64, rate, tick);
    timing::rescaling_goes_to_the_nearest(keyframe as i64, rate, tick, t);
}

/// How many low granule bits count from a keyframe is what the track
/// description says, and else what the identification header says.
pub proof fn descriptions_come_first(m: Model, serial: u32, gran: TheoraGranule)
    ensures
        process::bone_of(m, serial) matches Some(b) ==> process::granule_shift(
            m,
            serial,
            Some(gran),
        ) == b.granuleshift && process::granule_shift(m, serial, None) == b.granuleshift,
        process::bone_of(m, serial) is None ==> process::granule_shift(m, serial, Some(gran))
            == gran.shift && process::granule_shift(m, serial, None) == 0,
{
}

// ---------------------------------------------------------------------------
// Where streams end
// ---------------------------------------------------------------------------

/// Without a track description, a stream of samples has played as many samples
/// at a page's end as its granule says, less those that an Opus stream skips,
/// which are never less than none.
pub proof fn samples_have_played(stream: StreamView, st: StateView, n: i64, skip: u16)
    requires
        st.theora is None,
        n >= 0,
        n + skip <= i64::MAX,
    ensures
        st.pre_skip is None ==> duration::elapsed(None, stream, st, n) == Some(
            (n, stream.time_base),
        ),
        st.pre_skip == Some(skip) ==> {
            &&& duration::elapsed(None, stream, st, (n + skip) as i64) == Some(
                (n, stream.time_base),
            )
            &&& n <= skip ==> duration::elapsed(None, stream, st, n) == Some(
                (0i64, stream.time_base),
            )
        },
{
}

/// Without a track description, a Theora stream has played as many frames at a
/// page's end as there are up to the one that its granule packs, and its ticks
/// are frames. A granule that names no frame tells nothing.
pub proof fn frames_have_played(
    stream: StreamView,
    st: StateView,
    gran: TheoraGranule,
    keyframe: int,
    since: int,
)
    requires
        st.theora == Some(gran),
        st.pre_skip is None,
        can_be_packed(keyframe, since, gran.shift as nat),
        packed(keyframe, since, gran.shift as nat) < i64::MAX,
    ensures
        ({
            let g = packed(keyframe, since, gran.shift as nat) as i64;
            let from = if gran.count_from_one {
                1int
            } else {
                0int
            };
            &&& keyframe + since >= from ==> duration::elapsed(None, stream, st, g) == Some(
                ((keyframe + since - from + 1) as i64, stream.time_base),
            )
            &&& keyframe + since < from ==> duration::elapsed(None, stream, st, g) is None
        }),
{
    packed_is_positive(keyframe, since, gran.shift as nat);
    granules_name_their_frames(gran, keyframe, since);
}

/// With a track description that gives a rate, a stream has played as many
/// units of that rate as its granule packs, where it packs any.
pub proof fn described_time_has_played(
    b: Track,
    stream: StreamView,
    st: StateView,
    keyframe: int,
    since: int,
)
    requires
        b.granule_rate.numerator > 0,
        b.granule_rate.denominator > 0,
        st.pre_skip is None,
    ensures
        ({
            let rate = TimeBase {
                num: b.granule_rate.denominator,
                den: b.granule_rate.numerator,
            };
            &&& can_be_packed(keyframe, since, b.granuleshift as nat) ==> duration::elapsed(
                Some(b),
                stream,
                st,
                packed(keyframe, since, b.granuleshift as nat) as i64,
            ) == Some(((keyframe + since) as i64, rate))
            &&& b.granuleshift == 0 && 0 <= keyframe <= i64::MAX ==> duration::elapsed(
                Some(b),
                stream,
                st,
                keyframe as i64,
            ) == Some((keyframe as i64, rate))
        }),
{
    if can_be_packed(keyframe, since, b.granuleshift as nat) {
        packed_is_positive(keyframe, since, b.granuleshift as nat);
    }
}

/// With a track description that gives a rate and packs no keyframes, an Opus
/// stream has played as many units as its granule says, less those skipped.
pub proof fn described_samples_have_played(
    b: Track,
    stream: StreamView,
    st: StateView,
    n: i64,
    skip: u16,
)
    requires
        b.granule_rate.numerator > 0,
        b.granule_rate.denominator > 0,
        b.granuleshift == 0,
        st.pre_skip == Some(skip),
        n >= 0,
        n + skip <= i64::MAX,
    ensures
        duration::elapsed(Some(b), stream, st, (n + skip) as i64) == Some(
            (n, TimeBase { num: b.granule_rate.denominator, den: b.granule_rate.numerator }),
        ),
{
}

/// A track description without a usable rate does not time its stream: what
/// has played is told as if there were none.
pub proof fn rateless_descriptions_do_not_time(
    b: Track,
    stream: StreamView,
    st: StateView,
    g: i64,
)
    requires
        b.granule_rate.numerator <= 0 || b.granule_rate.denominator <= 0,
    ensures
        duration::elapsed(Some(b), stream, st, g) == duration::elapsed(None, stream, st, g),
{
}

/// Every stream whose end the tail of the input tells is listed with what it
/// has played there, and nothing else is listed.
pub proof fn tails_list_every_stream(m: Model, n: int, k: int)
    requires
        0 <= n <= m.states.len(),
    ensures
        ({
            let last = duration::tail_granules(m.input);
            let spans = duration::tail_spans_of(m, n);
            &&& 0 <= k < n && last.contains_key(m.states[k].serial) && duration::elapsed_on(
                m,
                k,
                last[m.states[k].serial],
            ) is Some ==> spans.contains(
                duration::elapsed_on(m, k, last[m.states[k].serial])->0,
            )
            &&& forall|i: int|
                0 <= i < spans.len() ==> exists|j: int|
                    0 <= j < n && last.contains_key(m.states[j].serial)
                        && #[trigger] duration::elapsed_on(m, j, last[m.states[j].serial]) == Some(
                        #[trigger] spans[i],
                    )
        }),
    decreases n,
{
    if n > 0 {
        tails_list_every_stream(m, n - 1, k);
        let last = duration::tail_granules(m.input);
        let before = duration::tail_spans_of(m, n - 1);
        let spans = duration::tail_spans_of(m, n);
        if 0 <= k < n && last.contains_key(m.states[k].serial) && duration::elapsed_on(
            m,
            k,
            last[m.states[k].serial],
        ) is Some {
            let span = duration::elapsed_on(m, k, last[m.states[k].serial])->0;
            if k < n - 1 {
                let i = choose|i: int| 0 <= i < before.len() && before[i] == span;
                assert(spans[i] == span);
            } else {
                assert(spans[spans.len() - 1] == span);
            }
        }
        assert forall|i: int| 0 <= i < spans.len() implies exists|j: int|
            0 <= j < n && last.contains_key(m.states[j].serial) && #[trigger] duration::elapsed_on(
                m,
                j,
                last[m.states[j].serial],
            ) == Some(#[trigger] spans[i]) by {
            if i < before.len() {
                assert(before[i] == spans[i]);
                let j = choose|j: int|
                    0 <= j < n - 1 && last.contains_key(m.states[j].serial)
                        && #[trigger] duration::elapsed_on(m, j, last[m.states[j].serial]) == Some(
                        before[i],
                    );
                assert(duration::elapsed_on(m, j, last[m.states[j].serial]) == Some(spans[i]));
            } else {
                assert(duration::elapsed_on(m, n - 1, last[m.states[n - 1].serial]) == Some(
                    spans[i],
                ));
            }
        }
    }
}

/// Once every page is known, each stream is listed with its link and what it
/// has played at its greatest granule, unless that names no frame.
pub proof fn links_list_every_stream(m: Model, n: int, k: int, g: i64, off: u64)
    requires
        0 <= k < n <= m.states.len(),
        m.index.contains((m.states[k].serial, g, off)),
        forall|h: i64, o: u64| #[trigger]
            m.index.contains((m.states[k].serial, h, o)) ==> h <= g,
        duration::elapsed_on(m, k, g) is Some,
    ensures
        duration::link_spans_of(m, n).contains(
            (m.states[k].link_index, duration::elapsed_on(m, k, g)->0),
        ),
    decreases n,
{
    let serial = m.states[k].serial;
    let span = (m.states[k].link_index, duration::elapsed_on(m, k, g)->0);
    let spans = duration::link_spans_of(m, n);
    if k < n - 1 {
        links_list_every_stream(m, n - 1, k, g, off);
        let before = duration::link_spans_of(m, n - 1);
        let i = choose|i: int| 0 <= i < before.len() && before[i] == span;
        assert(spans[i] == span);
    } else {
        assert(seek_index::is_last_granule(m.index, serial, g));
        let c = choose|c: i64| seek_index::is_last_granule(m.index, serial, c);
        assert(seek_index::is_last_granule(m.index, serial, c));
        let o = choose|o: u64| m.index.contains((serial, c, o));
        assert(m.index.contains((serial, c, o)));
        assert(c == g);
        assert(spans[spans.len() - 1] == span);
    }
}

/// Where a stream starts is what the Skeleton says: its playback time of
/// granule 0, and the granule at which the first track description of the
/// stream says that its data begins, at that description's rate.
pub proof fn starts_are_as_described(m: Model, k: int, i: int)
    requires
        m.skel.skeleton is Some,
        0 <= i < m.skel.skeleton->0.bones.len(),
        m.skel.skeleton->0.bones[i].track.serial == m.states[k].serial,
        forall|j: int|
            0 <= j < i ==> (#[trigger] m.skel.skeleton->0.bones[j]).track.serial
                != m.states[k].serial,
    ensures
        ({
            let sk = m.skel.skeleton->0;
            let b = sk.bones[i].track;
            &&& process::bone_of(m, m.states[k].serial) == Some(b)
            &&& b.granule_rate.numerator > 0 && b.granule_rate.denominator > 0 <==> duration::anchor_of(
                m,
                k,
            ) is Some
            &&& duration::anchor_of(m, k) matches Some(a) ==> {
                &&& a.basetime == sk.head.basetime
                &&& a.basegranule == b.basegranule
                &&& a.granule_rate == b.granule_rate
            }
        }),
{
    first_bone_is(m.skel.skeleton->0.bones, i, m.states[k].serial);
}

proof fn first_bone_is(bones: Seq<skeleton::BoneView>, i: int, serial: u32)
    requires
        0 <= i < bones.len(),
        bones[i].track.serial == serial,
        forall|j: int| 0 <= j < i ==> (#[trigger] bones[j]).track.serial != serial,
    ensures
        skeleton::first_bone(bones, serial) == Some(bones[i]),
    decreases bones.len(),
{
    if i > 0 {
        assert(bones[0].track.serial != serial);
        let later = bones.skip(1);
        assert forall|j: int| 0 <= j < i - 1 implies (#[trigger] later[j]).track.serial
            != serial by {
            assert(bones[j + 1].track.serial != serial);
        }
        first_bone_is(later, i - 1, serial);
    }
}

} // verus!
