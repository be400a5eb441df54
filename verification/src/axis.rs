//! Where seeks lead, in terms of pages and times alone.
use crate::codec_id;
use crate::demux;
use crate::demux::Model;
use crate::error::Error;
use crate::granule;
use crate::journey;
use crate::laws;
use crate::media;
use crate::media::TimeBase;
use crate::page;
use crate::process;
use crate::reassembly;
use crate::resume;
use crate::scan;
use crate::search;
use crate::seek;
use crate::seek::{Quest, Range};
use crate::seek_index;
use crate::skeleton;
use crate::skeleton::{SkeletonView, Track};
use crate::theora::TheoraGranule;
use crate::timing;
use crate::whole;
use vstd::arithmetic::power2;
use vstd::prelude::*;

verus! {

// ---------------------------------------------------------------------------
// The axis of a stream
// ---------------------------------------------------------------------------

/// Whether granules of a codec count samples.
pub open spec fn counts_samples(id: Seq<char>) -> bool {
    id == "vorbis"@ || id == "opus"@ || id == "flac"@ || id == "speex"@
}

/// How many samples at the start of a stream are not played: those that an
/// Opus stream declares.
pub open spec fn skipped(m: Model, i: int) -> int {
    if m.streams[i].params.codec_id == "opus"@ {
        match m.states[i].pre_skip {
            Some(p) => p as int,
            None => 0,
        }
    } else {
        0
    }
}

proof fn names_differ()
    ensures
        codec_id::mapping_of("vorbis"@) is Vorbis,
        codec_id::mapping_of("opus"@) is Opus,
        codec_id::mapping_of("flac"@) is Flac,
        codec_id::mapping_of("speex"@) is Speex,
        codec_id::mapping_of("theora"@) is Theora,
        "theora"@ != "opus"@,
{
    reveal_strlit("vorbis");
    reveal_strlit("opus");
    reveal_strlit("theora");
    reveal_strlit("speex");
    reveal_strlit("flac");
    assert("vorbis"@[0] == 'v');
    assert("opus"@[0] == 'o');
    assert("theora"@[0] == 't');
    assert("speex"@[0] == 's');
    assert("flac"@[0] == 'f');
}

/// On a stream of samples a page is at or before the target exactly when the
/// samples played at its end are no more than the target asks for. Samples
/// that an Opus stream skips are not played.
pub proof fn sample_targets_are_played_samples(m: Model, i: int, pts: i64, g: i64)
    requires
        counts_samples(m.streams[i].params.codec_id),
        pts >= 0,
        g >= 0,
    ensures
        seek::seek_key(m, i, pts) is Ok,
        ({
            let key = seek::seek_key(m, i, pts)->Ok_0;
            granule::key_of(key.flavor, g as int) <= key.target_key <==> g - skipped(m, i) <= pts
        }),
{
    names_differ();
}

/// On a Theora stream with a known frame layout a page is at or before the
/// target exactly when the frame that its granule packs is: granules hold the
/// number of a keyframe and of frames since, and later versions count from 1.
pub proof fn frame_targets_are_frames(
    m: Model,
    i: int,
    pts: i64,
    keyframe: int,
    since: int,
)
    requires
        m.streams[i].params.codec_id == "theora"@,
        m.states[i].theora is Some,
        0 < m.streams[i].time_base.num <= u32::MAX,
        0 < m.streams[i].time_base.den <= u32::MAX,
        0 < (m.states[i].theora->0).shift < 63,
        0 <= since < power2::pow2((m.states[i].theora->0).shift as nat),
        0 <= keyframe,
    ensures
        seek::seek_key(m, i, pts) is Ok,
        ({
            let gran = m.states[i].theora->0;
            let key = seek::seek_key(m, i, pts)->Ok_0;
            let g = keyframe * power2::pow2(gran.shift as nat) + since;
            granule::key_of(key.flavor, g) <= key.target_key <==> keyframe + since - (
            if gran.count_from_one {
                1int
            } else {
                0int
            }) <= pts
        }),
{
    names_differ();
    let gran = m.states[i].theora->0;
    granule::unpacking_a_packed_granule(keyframe, since, gran.shift as nat);
    media::rescaling_to_the_same_base(pts, m.streams[i].time_base);
}

/// On a Theora stream that only a track description times, a page is at or
/// before the target exactly when the frame that its granule packs is, in
/// time: `frame * rate.denominator / rate.numerator` seconds against `pts`
/// ticks, to the nearest frame.
pub proof fn described_targets_go_by_time(
    m: Model,
    i: int,
    b: Track,
    pts: i64,
    keyframe: int,
    since: int,
)
    requires
        m.streams[i].params.codec_id == "theora"@,
        m.states[i].theora is None,
        process::bone_of(m, m.states[i].serial) == Some(b),
        0 < b.granuleshift < 63,
        b.granule_rate.numerator > 0,
        b.granule_rate.denominator > 0,
        m.streams[i].time_base.num > 0,
        m.streams[i].time_base.den > 0,
        pts >= 0,
        pts * (m.streams[i].time_base.num * b.granule_rate.numerator) <= u128::MAX,
        0 <= since < power2::pow2(b.granuleshift as nat),
        0 <= keyframe,
        keyframe * power2::pow2(b.granuleshift as nat) + since <= i64::MAX,
    ensures
        seek::seek_key(m, i, pts) is Ok,
        ({
            let tick = m.streams[i].time_base;
            let key = seek::seek_key(m, i, pts)->Ok_0;
            let g = keyframe * power2::pow2(b.granuleshift as nat) + since;
            let unit = tick.den * b.granule_rate.denominator;
            granule::key_of(key.flavor, g) <= key.target_key <==> 2 * ((keyframe + since) * unit)
                - unit <= 2 * (pts * (tick.num * b.granule_rate.numerator))
        }),
{
    names_differ();
    let tick = m.streams[i].time_base;
    let shift = b.granuleshift as nat;
    let g = keyframe * power2::pow2(shift) + since;
    granule::unpacking_a_packed_granule(keyframe, since, shift);
    let rate = TimeBase { num: b.granule_rate.denominator, den: b.granule_rate.numerator };
    assert(pts * (tick.num * rate.den) >= 0) by (nonlinear_arith)
        requires
            pts >= 0,
            tick.num > 0,
            rate.den > 0,
    ;
    power2::lemma_pow2_pos(shift);
    assert(0 <= g) by (nonlinear_arith)
        requires
            g == keyframe * power2::pow2(shift) + since,
            0 <= keyframe,
            0 <= since,
            0 < power2::pow2(shift),
    ;
    granule::frame_no_bound(g, shift);
    timing::rescaling_goes_to_the_nearest(pts, tick, rate, (keyframe + since) as i64);
}

// ---------------------------------------------------------------------------
// Seeks on streams of samples
// ---------------------------------------------------------------------------

/// In an undamaged input that has been indexed, a seek on a stream of samples
/// reaches the last of its pages at whose end no more has played than was
/// asked for, and gives that page's granule.
pub proof fn indexed_sample_seeks_are_exact(m: Model, index: u32, pts: i64, p: int)
    requires
        m.wf(),
        laws::page_begins(m.input, 0, p),
        index < scan::indexed(m).0.streams.len(),
        scan::indexed(m).0.skel.skeleton is None,
        counts_samples(scan::indexed(m).0.streams[index as int].params.codec_id),
        pts >= 0,
        page::serial_at(m.input, p) == scan::indexed(m).0.states[index as int].serial,
        page::granule_at(m.input, p) >= 0,
        page::granule_at(m.input, p) - skipped(scan::indexed(m).0, index as int) <= pts,
    ensures
        ({
            let (after, r) = seek::seeked(scan::indexed(m).0, index, pts);
            let reached = page::granule_at(m.input, after.pos as int);
            &&& r == Ok::<i64, Error>(reached)
            &&& page::is_capture(m.input, after.pos as int)
            &&& page::serial_at(m.input, after.pos as int) == page::serial_at(m.input, p)
            &&& 0 <= reached
            &&& reached - skipped(scan::indexed(m).0, index as int) <= pts
            &&& page::granule_at(m.input, p) <= reached
            &&& page::granule_at(m.input, p) == reached ==> p <= after.pos
        }),
{
    let done = scan::indexed(m).0;
    let i = index as int;
    sample_targets_are_played_samples(done, i, pts, page::granule_at(m.input, p));
    laws::indexed_seeks_are_exact(m, index, pts, p);
    let (after, r) = seek::seeked(done, index, pts);
    let start = Model { ledger: m.ledger.with_duplicate_count(0), ..m };
    assert(start.wf());
    scan::walk_indexes_what_it_meets(start, 0, Set::empty());
    laws::walk_meets_every_page(m.input, 0, p);
    let walked = scan::walked(start, 0, Set::empty()).0;
    assert(done.skeleton_serial() == walked.skeleton_serial());
    assert(done.wf());
    let key = seek::seek_key(done, i, pts)->Ok_0;
    let serial = done.states[i].serial;
    laws::floor_is_known(done.index, serial, key, done.input);
    assert(seek_index::reaches(
        done.index,
        serial,
        key,
        (page::granule_at(m.input, p), p as u64),
    ));
    assert(demux::entry_holds(m.input, (serial, r->Ok_0, after.pos)));
    sample_targets_are_played_samples(done, i, pts, r->Ok_0);
    journey::page_is_listed(m.input, 0, p);
}

/// Whether `t` is the last page of a stream at whose end no more than `pts`
/// samples have played, of which `skip` are not counted.
pub open spec fn is_last_played(s: Seq<u8>, serial: u32, skip: int, pts: i64, t: int) -> bool {
    &&& search::is_mark(s, serial, t)
    &&& page::granule_at(s, t) - skip <= pts
    &&& forall|x: int| #[trigger]
        search::is_mark(s, serial, x) && x > t ==> page::granule_at(s, x) - skip > pts
}

/// Whether granules of a stream do not go back, and its pages are less than
/// 65536 bytes apart.
pub open spec fn is_even(s: Seq<u8>, serial: u32) -> bool {
    &&& forall|a: int, b: int| #[trigger]
        search::is_mark(s, serial, a) && #[trigger] search::is_mark(s, serial, b) && a <= b
            ==> page::granule_at(s, a) <= page::granule_at(s, b)
    &&& forall|p: int, q: int|
        0 <= p && #[trigger] search::is_next_mark(s, serial, p, q) ==> q + 4 <= p + 65536
}

/// In an undamaged input that has not been indexed, a seek on a stream of
/// samples reaches the last of its pages at whose end no more has played than
/// was asked for, and gives that page's granule. The page must not be the last
/// of the stream.
#[verifier::spinoff_prover]
#[verifier::rlimit(40)]
pub proof fn unindexed_sample_seeks_are_exact(m: Model, index: u32, pts: i64, t: int, later: int)
    requires
        m.wf(),
        index < m.streams.len(),
        !m.index_built,
        m.skel.skeleton is None,
        counts_samples(m.streams[index as int].params.codec_id),
        pts >= 0,
        laws::is_chain(m.input, 0),
        journey::hides_no_capture(m.input),
        is_even(m.input, m.states[index as int].serial),
        is_last_played(
            m.input,
            m.states[index as int].serial,
            skipped(m, index as int),
            pts,
            t,
        ),
        search::is_mark(m.input, m.states[index as int].serial, later),
        t < later,
    ensures
        seek::seeked(m, index, pts).1 == Ok::<i64, Error>(page::granule_at(m.input, t)),
        seek::seeked(m, index, pts).0.pos == t,
{
    let s = m.input;
    let i = index as int;
    let serial = m.states[i].serial;
    sample_targets_are_played_samples(m, i, pts, page::granule_at(s, t));
    let key = seek::seek_key(m, i, pts)->Ok_0;
    let q = Quest { serial, key };
    names_differ();
    assert forall|a: int, b: int| #[trigger]
        search::is_mark(s, serial, a) && #[trigger] search::is_mark(s, serial, b) && a
            <= b implies seek::key_at(s, key, a) <= seek::key_at(s, key, b) by {
        assert(page::granule_at(s, a) <= page::granule_at(s, b));
    }
    assert forall|x: int| #[trigger] search::is_mark(s, serial, x) && x > t implies seek::key_at(
        s,
        key,
        x,
    ) > key.target_key by {
        sample_targets_are_played_samples(m, i, pts, page::granule_at(s, x));
    }
    assert(search::is_dense(s, serial));
    assert(search::can_be_searched(s, q));
    search::unindexed_seeks_are_exact(m, index, pts, t);
}

// ---------------------------------------------------------------------------
// Seeks by the keyframe index
// ---------------------------------------------------------------------------

/// Whether the segment length that the Skeleton declares speaks against its
/// keyframe indexes: it is neither absent nor 0 nor the length of the input,
/// and no page begins there.
pub open spec fn is_of_another_segment(m: Model) -> bool {
    m.skel.skeleton is Some && (m.skel.skeleton->0.head.segment_length matches Some(n) && n != 0
        && n != m.input.len() && !page::is_capture(m.input, n as int))
}

/// Where the only keyframe index is of the stream, was made for this input and
/// leads to a page of the stream, a seek goes to the last seek point at or
/// before the time asked for, reports the point's time and counts one seek by
/// the index. Nothing of before is pending or queued.
#[verifier::spinoff_prover]
#[verifier::rlimit(40)]
pub proof fn index_seeks_lead_to_the_seek_point(m: Model, index: u32, pts: i64, i: int, j: int)
    requires
        index < m.streams.len(),
        counts_samples(m.streams[index as int].params.codec_id),
        m.skel.skeleton is Some,
        m.segment_ok is None,
        !is_of_another_segment(m),
        timing::is_index_of(
            m.skel.skeleton->0.indexes,
            i,
            m.states[index as int].serial,
        ),
        forall|l: int|
            0 <= l < m.skel.skeleton->0.indexes.len() ==> (
            #[trigger] m.skel.skeleton->0.indexes[l]).serial == m.states[index as int].serial
                && timing::is_convertible(
                m.skel.skeleton->0.indexes[l].timestamp_denominator,
                pts,
                m.streams[index as int].time_base,
            ),
        timing::is_last_by(
            m.skel.skeleton->0.indexes[i],
            j,
            pts,
            m.streams[index as int].time_base,
        ),
        ({
            let at = m.skel.skeleton->0.indexes[i].keypoints[j].offset as int;
            page::is_capture(m.input, at) && at + 27 <= m.input.len() && page::serial_at(
                m.input,
                at,
            ) == m.states[index as int].serial
        }),
    ensures
        ({
            let own = m.skel.skeleton->0.indexes[i];
            let (after, r) = seek::seeked(m, index, pts);
            &&& after.pos == own.keypoints[j].offset
            &&& r is Ok
            &&& timing::is_same_time(
                r->Ok_0,
                m.streams[index as int].time_base,
                own.keypoints[j].timestamp as int,
                own.timestamp_denominator as int,
            )
            &&& m.counts.index_seeks < u64::MAX ==> after.counts.index_seeks
                == m.counts.index_seeks + 1
            &&& after.counts.index_rejects == m.counts.index_rejects
            &&& after.page_queue.len() == 0
            &&& after.out_queue.len() == 0
        }),
{
    names_differ();
    let serial = m.states[index as int].serial;
    let tick = m.streams[index as int].time_base;
    let own = m.skel.skeleton->0.indexes[i];
    timing::index_seeks_go_by_time(m, serial, pts, tick, i);
    match seek::index_target(m, serial, pts, tick) {
        Some((off, winner, reached)) => {
            let k = choose|k: int|
                #[trigger] timing::is_last_by(own, k, pts, tick) && timing::is_same_time(
                    reached,
                    tick,
                    own.keypoints[k].timestamp as int,
                    own.timestamp_denominator as int,
                ) && (winner == serial ==> off == own.keypoints[k].offset);
            timing::last_is_unique(own, j, k, pts, tick);
        },
        None => {
            assert(!timing::is_by(
                own.keypoints[j].timestamp as int,
                own.timestamp_denominator as int,
                pts as int,
                tick,
            ));
        },
    }
}

/// The demuxer without the keyframe indexes that the Skeleton brought.
pub open spec fn without_indexes(m: Model) -> Model {
    match m.skel.skeleton {
        None => m,
        Some(sk) => Model {
            skel: demux::SkelView {
                skeleton: Some(
                    SkeletonView { indexes: Seq::empty(), ..sk },
                ),
                ..m.skel
            },
            ..m
        },
    }
}

/// A seek that is not counted as one by the keyframe index leads where it
/// would lead without any such index. Keyframe indexes of another segment are
/// never gone by; that is counted where the stream has one.
#[verifier::spinoff_prover]
#[verifier::rlimit(40)]
pub proof fn other_seeks_do_without_the_index(m: Model, index: u32, pts: i64)
    requires
        index < m.streams.len(),
        m.counts.index_seeks < u64::MAX,
    ensures
        ({
            let (after, r) = seek::seeked(m, index, pts);
            let (plain, same) = seek::seeked(without_indexes(m), index, pts);
            &&& after.counts.index_seeks == m.counts.index_seeks ==> r == same && after.pos
                == plain.pos && after.states == plain.states && after.index == plain.index
            &&& after.counts.index_seeks != m.counts.index_seeks ==> after.counts.index_seeks
                == m.counts.index_seeks + 1
            &&& m.segment_ok is None && is_of_another_segment(m) ==> after.counts.index_seeks
                == m.counts.index_seeks
            &&& m.segment_ok is None && r is Ok ==> after.segment_ok == Some(
                !is_of_another_segment(m),
            )
            &&& m.segment_ok is Some ==> after.segment_ok == m.segment_ok
            &&& m.segment_ok == Some(false) ==> after.counts.index_seeks == m.counts.index_seeks
            &&& m.segment_ok is None && is_of_another_segment(m) && r is Ok
                && m.counts.index_rejects < u64::MAX && (exists|l: int|
                0 <= l < m.skel.skeleton->0.indexes.len() && (
                #[trigger] m.skel.skeleton->0.indexes[l]).serial
                    == m.states[index as int].serial) ==> after.counts.index_rejects
                == m.counts.index_rejects + 1
        }),
{
    let i = index as int;
    let plain = without_indexes(m);
    let serial = m.states[i].serial;
    assert(process::bone_of(plain, serial) == process::bone_of(m, serial));
    assert(seek::seek_key(plain, i, pts) == seek::seek_key(m, i, pts));
    assert(seek::segment_agrees(plain) == seek::segment_agrees(m));
    if m.skel.skeleton is Some {
        let indexes = m.skel.skeleton->0.indexes;
        if exists|l: int| 0 <= l < indexes.len() && (#[trigger] indexes[l]).serial == serial {
            let l = choose|l: int| 0 <= l < indexes.len() && (#[trigger] indexes[l]).serial == serial;
            skeleton::indexes_are_found(indexes, l);
        }
    }
    let a = seek::index_attempt(m, i, pts).0;
    let b = seek::index_attempt(plain, i, pts).0;
    if seek::index_attempt(m, i, pts).1 is None {
        if let Ok(key) = seek::seek_key(m, i, pts) {
            let known = seek_index::floor(m.index, serial, key);
            if let Some((g, off)) = known {
                assert(seek::flushed(a, off).states == seek::flushed(b, off).states);
            }
        }
    }
}

// ---------------------------------------------------------------------------
// Preroll
// ---------------------------------------------------------------------------

/// How many packets of `serial` end on those of `pages` that stand from `lo`
/// on and before `hi`.
pub open spec fn ended_between(pages: Seq<page::PageView>, serial: u32, lo: int, hi: int) -> int
    decreases pages.len(),
{
    if pages.len() == 0 {
        0
    } else {
        let first = pages[0];
        ended_between(pages.skip(1), serial, lo, hi) + if first.serial == serial && lo
            <= first.offset < hi {
            reassembly::ended(first.lacing, first.data).len() as int
        } else {
            0
        }
    }
}

/// How many packets of `serial` behind its first `headers` end on pages from
/// `lo` on and before `hi`.
pub open spec fn content_between(s: Seq<u8>, serial: u32, headers: int, lo: int, hi: int) -> int {
    let pages = whole::pages_from(s, 0);
    resume::greatest(ended_between(pages, serial, 0, hi), headers) - resume::greatest(
        ended_between(pages, serial, 0, if lo < hi {
            lo
        } else {
            hi
        }),
        headers,
    )
}

proof fn packets_are_counted(lacing: Seq<u8>, data: Seq<u8>)
    ensures
        reassembly::ended(lacing, data).len() == resume::ends_in(lacing),
    decreases lacing.len(),
{
    if lacing.len() > 0 {
        packets_are_counted(lacing.drop_last(), data);
    }
}

proof fn ended_is_not_negative(pages: Seq<page::PageView>, serial: u32, lo: int, hi: int)
    ensures
        ended_between(pages, serial, lo, hi) >= 0,
    decreases pages.len(),
{
    if pages.len() > 0 {
        ended_is_not_negative(pages.skip(1), serial, lo, hi);
    }
}

proof fn nothing_ends_before(pages: Seq<page::PageView>, serial: u32, hi: int)
    requires
        forall|i: int| 0 <= i < pages.len() ==> hi <= (#[trigger] pages[i]).offset,
    ensures
        ended_between(pages, serial, 0, hi) == 0,
    decreases pages.len(),
{
    if pages.len() > 0 {
        assert(hi <= pages[0].offset);
        assert forall|i: int| 0 <= i < pages.skip(1).len() implies hi <= (#[trigger] pages.skip(
            1,
        )[i]).offset by {
            assert(hi <= pages[i + 1].offset);
        }
        nothing_ends_before(pages.skip(1), serial, hi);
    }
}

proof fn less_ends_earlier(pages: Seq<page::PageView>, serial: u32, lo: int, hi: int)
    requires
        lo <= hi,
    ensures
        ended_between(pages, serial, 0, lo) <= ended_between(pages, serial, 0, hi),
    decreases pages.len(),
{
    if pages.len() > 0 {
        less_ends_earlier(pages.skip(1), serial, lo, hi);
    }
}

/// The pages on which content packets end are listed with how many do: from
/// any offset on, the list counts what ends there.
proof fn content_pages_count(
    s: Seq<u8>,
    cursor: int,
    until: int,
    serial: u32,
    headers: u32,
    seen: u32,
    from: u64,
)
    requires
        s.len() <= usize::MAX,
        laws::is_chain(s, cursor),
        until <= s.len(),
        seen + ended_between(whole::pages_from(s, cursor), serial, 0, until) <= u32::MAX,
    ensures
        ({
            let pages = whole::pages_from(s, cursor);
            let list = resume::content_pages(s, cursor, until, serial, headers, seen);
            let lo = if from < until {
                from as int
            } else {
                until
            };
            resume::packets_from(list, from) == resume::greatest(
                seen + ended_between(pages, serial, 0, until),
                headers as int,
            ) - resume::greatest(seen + ended_between(pages, serial, 0, lo), headers as int)
        }),
    decreases s.len() - cursor,
{
    let pages = whole::pages_from(s, cursor);
    let list = resume::content_pages(s, cursor, until, serial, headers, seen);
    let lo = if from < until {
        from as int
    } else {
        until
    };
    if cursor < s.len() {
        page::body_len_nonneg(page::lacing_at(s, cursor));
        let end = page::page_end(s, cursor);
        let here = page::page_at(s, cursor);
        let rest = whole::pages_from(s, end);
        assert(pages == seq![here] + rest);
        assert(pages.skip(1) =~= rest);
        assert(pages[0] == here && here.offset == cursor);
        assert forall|i: int| 0 <= i < rest.len() implies end <= (#[trigger] rest[i]).offset by {
            pages_come_later(s, end, i);
        }
        if cursor < until {
            packets_are_counted(here.lacing, here.data);
            ended_is_not_negative(rest, serial, 0, until);
            less_ends_earlier(rest, serial, lo, until);
            if here.serial == serial {
                let n = resume::ends_in(here.lacing);
                let now = seen.saturating_add(n as u32);
                table_ends_few(here.lacing);
                content_pages_count(s, end, until, serial, headers, now, from);
                let later = resume::content_pages(s, end, until, serial, headers, now);
                if now > headers {
                    let entry = (
                        cursor as u64,
                        (now - resume::greatest(seen as int, headers as int)) as u32,
                    );
                    first_entry_counts(entry, later, from);
                }
                if lo <= cursor {
                    nothing_ends_before(rest, serial, lo);
                }
            } else {
                content_pages_count(s, end, until, serial, headers, seen, from);
            }
        } else {
            nothing_ends_before(rest, serial, until);
            nothing_ends_before(rest, serial, lo);
        }
    }
}

proof fn table_ends_few(lacing: Seq<u8>)
    ensures
        0 <= resume::ends_in(lacing) <= lacing.len(),
    decreases lacing.len(),
{
    if lacing.len() > 0 {
        table_ends_few(lacing.drop_last());
    }
}

proof fn first_entry_counts(entry: (u64, u32), later: Seq<(u64, u32)>, from: u64)
    ensures
        resume::packets_from(seq![entry] + later, from) == resume::packets_from(later, from) + (
        if entry.0 >= from {
            entry.1 as int
        } else {
            0
        }),
    decreases later.len(),
{
    let all = seq![entry] + later;
    if later.len() == 0 {
        assert(all =~= seq![entry]);
        assert(all.drop_last() =~= Seq::<(u64, u32)>::empty());
        reveal_with_fuel(resume::packets_from, 2);
    } else {
        assert(all.drop_last() =~= seq![entry] + later.drop_last());
        first_entry_counts(entry, later.drop_last(), from);
    }
}

proof fn pages_come_later(s: Seq<u8>, from: int, i: int)
    requires
        s.len() <= usize::MAX,
        laws::is_chain(s, from),
        0 <= i < whole::pages_from(s, from).len(),
    ensures
        from <= whole::pages_from(s, from)[i].offset < s.len(),
    decreases s.len() - from,
{
    let pages = whole::pages_from(s, from);
    if 0 <= from < s.len() {
        page::body_len_nonneg(page::lacing_at(s, from));
        let end = page::page_end(s, from);
        let rest = whole::pages_from(s, end);
        assert(pages == seq![page::page_at(s, from)] + rest);
        if i > 0 {
            assert(pages[i] == rest[i - 1]);
            pages_come_later(s, end, i - 1);
        }
    }
}

/// From behind the page chosen, too few packets end.
proof fn resume_page_is_the_last(pages: Seq<(u64, u32)>, need: int, x: u64)
    requires
        need > 0,
        forall|i: int, j: int|
            0 <= i < j < pages.len() ==> (#[trigger] pages[i]).0 < (#[trigger] pages[j]).0,
        resume::resume_page(pages, need) matches Some(off) ==> off < x,
    ensures
        resume::packets_from(pages, x) < need,
    decreases pages.len(),
{
    if pages.len() > 0 {
        let init = pages.drop_last();
        let last = pages.last();
        assert forall|i: int, j: int| 0 <= i < j < init.len() implies (#[trigger] init[i]).0 < (
        #[trigger] init[j]).0 by {
            assert(pages[i].0 < pages[j].0);
        }
        if last.1 >= need {
            assert forall|i: int| 0 <= i < init.len() implies (#[trigger] init[i]).0 < x by {
                assert(pages[i].0 < pages[pages.len() - 1].0);
            }
            none_from(init, x);
        } else {
            resume_page_is_the_last(init, need - last.1, x);
        }
    }
}

proof fn none_from(pages: Seq<(u64, u32)>, x: u64)
    requires
        forall|i: int| 0 <= i < pages.len() ==> (#[trigger] pages[i]).0 < x,
    ensures
        resume::packets_from(pages, x) == 0,
    decreases pages.len(),
{
    if pages.len() > 0 {
        let init = pages.drop_last();
        assert(pages[pages.len() - 1].0 < x);
        assert forall|i: int| 0 <= i < init.len() implies (#[trigger] init[i]).0 < x by {
            assert(pages[i].0 < x);
        }
        none_from(init, x);
    }
}

/// A seek with preroll gives the decoder what it needs first: in an undamaged
/// input, between the page that it moves back to and the page that the seek
/// reaches end at least as many content packets of the stream as its track
/// description asks for, and from nowhere later on do as many. Header packets
/// do not count. Where fewer come before the page reached it is not moved, and
/// what the seek gives is not changed.
pub proof fn preroll_gives_the_decoder_enough(m: Model, index: u32, pts: i64, b: Track, x: u64)
    requires
        index < m.streams.len(),
        m.input.len() <= usize::MAX,
        laws::is_chain(m.input, 0),
        process::bone_of(m, m.states[index as int].serial) == Some(b),
        b.preroll > 0,
        seek::seeked(m, index, pts).1 is Ok,
        seek::seeked(m, index, pts).0.pos <= m.input.len(),
        ended_between(
            whole::pages_from(m.input, 0),
            m.states[index as int].serial,
            0,
            m.input.len() as int,
        ) <= u32::MAX,
    ensures
        ({
            let serial = m.states[index as int].serial;
            let reached = seek::seeked(m, index, pts).0.pos as int;
            let (after, r) = resume::prerolled(m, index, pts);
            let n = b.num_headers as int;
            &&& r == seek::seeked(m, index, pts).1
            &&& content_between(m.input, serial, n, 0, reached) < b.preroll ==> after
                == seek::seeked(m, index, pts).0
            &&& content_between(m.input, serial, n, 0, reached) >= b.preroll ==> {
                &&& seek::seeked(m, index, pts).0.counts.preroll_seeks < u64::MAX
                    ==> after.counts.preroll_seeks == seek::seeked(
                    m,
                    index,
                    pts,
                ).0.counts.preroll_seeks + 1
                &&& after.out_queue.len() == 0
                &&& after.pos < reached
                &&& page::is_capture(m.input, after.pos as int)
                &&& page::serial_at(m.input, after.pos as int) == serial
                &&& content_between(m.input, serial, n, after.pos as int, reached) >= b.preroll
                &&& after.pos < x ==> content_between(m.input, serial, n, x as int, reached)
                    < b.preroll
            }
        }),
{
    let s = m.input;
    let serial = m.states[index as int].serial;
    let reached = seek::seeked(m, index, pts).0.pos as int;
    let list = resume::content_pages(s, 0, reached, serial, b.num_headers, 0);
    let need = b.preroll as int;
    less_ends_earlier(whole::pages_from(s, 0), serial, reached, s.len() as int);
    resume::content_pages_are_in_order(s, 0, reached, serial, b.num_headers, 0);
    content_pages_count(s, 0, reached, serial, b.num_headers, 0, 0);
    resume::resume_page_has_enough(list, need);
    if let Some(off) = resume::resume_page(list, need) {
        content_pages_count(s, 0, reached, serial, b.num_headers, 0, off);
        content_pages_count(s, 0, reached, serial, b.num_headers, 0, x);
        if off < x {
            resume_page_is_the_last(list, need, x);
        }
        let i = choose|i: int| 0 <= i < list.len() && (#[trigger] list[i]).0 == off;
        none_is_counted_past(list, off);
    }
}

/// From no offset on does more end than in all.
proof fn none_is_counted_past(list: Seq<(u64, u32)>, off: u64)
    ensures
        resume::packets_from(list, off) <= resume::packets_from(list, 0),
    decreases list.len(),
{
    if list.len() > 0 {
        none_is_counted_past(list.drop_last(), off);
    }
}

// ---------------------------------------------------------------------------
// Seeks to before the first page, and seeks that are refused
// ---------------------------------------------------------------------------

/// A seek to before the end of the first page of a stream of samples that ends
/// a packet reaches that page, in an undamaged input without a Skeleton.
#[verifier::spinoff_prover]
#[verifier::rlimit(40)]
pub proof fn early_seeks_reach_the_first_page(m: Model, index: u32, pts: i64, t: int)
    requires
        m.wf(),
        index < m.streams.len(),
        m.skel.skeleton is None,
        counts_samples(m.streams[index as int].params.codec_id),
        pts >= 0,
        laws::is_chain(m.input, 0),
        journey::hides_no_capture(m.input),
        search::is_next_mark(m.input, m.states[index as int].serial, 0, t),
        forall|x: int| #[trigger]
            search::is_mark(m.input, m.states[index as int].serial, x) ==> page::granule_at(
                m.input,
                x,
            ) - skipped(m, index as int) > pts,
    ensures
        seek::seeked(m, index, pts).1 == Ok::<i64, Error>(page::granule_at(m.input, t)),
        seek::seeked(m, index, pts).0.pos == t,
{
    let s = m.input;
    let i = index as int;
    let serial = m.states[i].serial;
    sample_targets_are_played_samples(m, i, pts, page::granule_at(s, t));
    let key = seek::seek_key(m, i, pts)->Ok_0;
    let q = Quest { serial, key };
    let tried = seek::index_attempt(m, i, pts).0;
    laws::floor_is_known(m.index, serial, key, s);
    if let Some((g, off)) = seek_index::floor(m.index, serial, key) {
        assert(demux::entry_holds(s, (serial, g, off)));
        assert(search::is_mark(s, serial, off as int));
        sample_targets_are_played_samples(m, i, pts, g);
    }
    let start = Range { lo: 0, hi: s.len() as int, best: None, index: tried.index };
    seek::bisecting_holds(s, q, start, seek::MAX_STEPS as int);
    let r = seek::bisected(s, q, start, seek::MAX_STEPS as int);
    let from = match r.best {
        Some(b) => b + 1,
        None => r.lo,
    };
    let limit = seek::capped(from, 2 * seek::SCAN_WINDOW, r.hi);
    seek::tightening_holds(s, q, r, from, limit);
    let found = seek::tightened(s, q, r, from, limit);
    if let Some(b) = found.best {
        assert(search::is_mark(s, serial, b));
        sample_targets_are_played_samples(m, i, pts, page::granule_at(s, b));
    }
    search::scan_finds_the_mark(s, found.index, 0, s.len() as int, serial, t);
}

/// A seek on a stream that does not exist, or whose positions cannot be told,
/// is refused, and nothing is changed: those of an unknown codec, and of a
/// Theora stream that neither its identification header nor a track
/// description times.
pub proof fn seeks_without_positions_are_refused(m: Model, index: u32, pts: i64)
    ensures
        index >= m.streams.len() ==> seek::seeked(m, index, pts) == (
            m,
            Err::<i64, Error>(Error::StreamIndexOutOfRange(index)),
        ),
        index < m.streams.len() && !counts_samples(m.streams[index as int].params.codec_id)
            && m.streams[index as int].params.codec_id != "theora"@ ==> seek::seeked(m, index, pts) == (
            m,
            Err::<i64, Error>(Error::SeekUnsupported(index)),
        ),
        index < m.streams.len() && m.streams[index as int].params.codec_id == "theora"@
            && m.states[index as int].theora is None && (process::bone_of(
            m,
            m.states[index as int].serial,
        ) matches Some(b) ==> b.granuleshift == 0 || b.granule_rate.numerator <= 0
            || b.granule_rate.denominator <= 0) ==> seek::seeked(m, index, pts) == (
            m,
            Err::<i64, Error>(Error::UnknownFrameLayout(index)),
        ),
        index < m.streams.len() && counts_samples(m.streams[index as int].params.codec_id)
            && m.input.len() == 0 ==> seek::seeked(m, index, pts) == (
            m,
            Err::<i64, Error>(Error::EmptyInput),
        ),
        index >= m.streams.len() ==> resume::prerolled(m, index, pts) == (
            m,
            Err::<i64, Error>(Error::NoStreamForIndex(index)),
        ) && resume::keyframed(m, index, pts) == (
            m,
            Err::<i64, Error>(Error::NoStreamForIndex(index)),
        ),
{
    names_differ();
}

/// Seeking to a keyframe on a Theora stream whose header tells the frame
/// layout: where the seek reaches a frame some frames behind its keyframe, it
/// is followed by a seek to that keyframe's number; where it reaches a
/// keyframe, it is that seek.
pub proof fn keyframe_seeks_go_for_the_keyframe(
    m: Model,
    index: u32,
    pts: i64,
    gran: TheoraGranule,
    keyframe: int,
    since: int,
)
    requires
        index < m.streams.len(),
        m.states[index as int].theora == Some(gran),
        process::bone_of(m, m.states[index as int].serial) is None,
        0 < gran.shift < 63,
        0 <= since < power2::pow2(gran.shift as nat),
        1 <= keyframe,
        seek::seeked(m, index, pts).1 is Ok,
        seek::seeked(m, index, pts).1->Ok_0 == keyframe * power2::pow2(gran.shift as nat) + since,
    ensures
        since == 0 ==> resume::keyframed(m, index, pts) == seek::seeked(m, index, pts),
        since > 0 ==> resume::keyframed(m, index, pts) == seek::seeked(
            seek::seeked(m, index, pts).0,
            index,
            (keyframe - if gran.count_from_one {
                1int
            } else {
                0int
            }) as i64,
        ),
{
    granule::unpacking_a_packed_granule(keyframe, since, gran.shift as nat);
}

/// A seek that is counted as one by the keyframe index stands at a page, no
/// later in the file than the last seek point at or before the time of any
/// stream, so that no stream misses what it needs.
#[verifier::spinoff_prover]
#[verifier::rlimit(40)]
pub proof fn index_seeks_miss_no_stream(m: Model, index: u32, pts: i64, i: int, l: int, k: int)
    requires
        index < m.streams.len(),
        m.skel.skeleton is Some,
        m.counts.index_seeks < u64::MAX,
        seek::seeked(m, index, pts).0.counts.index_seeks != m.counts.index_seeks,
        timing::is_index_of(m.skel.skeleton->0.indexes, i, m.states[index as int].serial),
        forall|j: int|
            0 <= j < m.skel.skeleton->0.indexes.len() && (
            #[trigger] m.skel.skeleton->0.indexes[j]).timestamp_denominator > 0
                ==> timing::is_convertible(
                m.skel.skeleton->0.indexes[j].timestamp_denominator,
                pts,
                m.streams[index as int].time_base,
            ),
        0 <= l < m.skel.skeleton->0.indexes.len(),
        l == i || m.skel.skeleton->0.indexes[l].serial != m.states[index as int].serial,
        m.skel.skeleton->0.indexes[l].timestamp_denominator > 0,
        timing::is_last_by(
            m.skel.skeleton->0.indexes[l],
            k,
            pts,
            m.streams[index as int].time_base,
        ),
    ensures
        ({
            let after = seek::seeked(m, index, pts).0;
            &&& after.pos <= m.skel.skeleton->0.indexes[l].keypoints[k].offset
            &&& page::is_capture(m.input, after.pos as int)
            &&& after.pos + 27 <= m.input.len()
        }),
{
    let serial = m.states[index as int].serial;
    let tick = m.streams[index as int].time_base;
    let own = m.skel.skeleton->0.indexes[i];
    if seek::index_attempt(m, index as int, pts).1 is None {
        searching_counts_nothing(m, index, pts);
    }
    timing::index_seeks_go_by_time(m, serial, pts, tick, i);
    let (off, winner, reached) = seek::index_target(m, serial, pts, tick)->0;
    if l == i {
        let j = choose|j: int|
            #[trigger] timing::is_last_by(own, j, pts, tick) && off <= own.keypoints[j].offset;
        timing::last_is_unique(own, j, k, pts, tick);
    }
}

proof fn searching_counts_nothing(m: Model, index: u32, pts: i64)
    requires
        index < m.streams.len(),
        seek::index_attempt(m, index as int, pts).1 is None,
    ensures
        seek::seeked(m, index, pts).0.counts.index_seeks == m.counts.index_seeks,
{
}

/// After a seek nothing of before is left: no stream has a packet open or a
/// page behind it, or knows the number of its next frame, and nothing waits to
/// be delivered.
#[verifier::spinoff_prover]
#[verifier::rlimit(40)]
pub proof fn seeks_forget_what_was_read(m: Model, index: u32, pts: i64, k: int)
    requires
        seek::seeked(m, index, pts).1 is Ok,
        0 <= k < m.states.len(),
    ensures
        ({
            let after = seek::seeked(m, index, pts).0;
            let st = after.states[k];
            &&& after.states.len() == m.states.len()
            &&& st.serial == m.states[k].serial
            &&& st.partial.pending.len() == 0
            &&& !st.partial.valid
            &&& st.partial.unknown
            &&& st.last_seq is None
            &&& st.next_frame is None
            &&& st.headers_remaining == m.states[k].headers_remaining
            &&& st.header_packets == m.states[k].header_packets
            &&& st.link_index == m.states[k].link_index
            &&& after.page_queue.len() == 0
            &&& after.out_queue.len() == 0
            &&& after.skel.pending.len() == 0
            &&& after.skel.last_seq is None
        }),
{
    let i = index as int;
    let key = seek::seek_key(m, i, pts)->Ok_0;
    let tried = seek::index_attempt(m, i, pts).0;
    if seek::index_attempt(m, i, pts).1 is None {
        assert(tried.states == m.states);
        assert(seek::seeked(m, index, pts) == seek::page_attempt(tried, i, key));
        if let Some((g, off)) = seek_index::floor(tried.index, tried.states[i].serial, key) {
            let there = seek::flushed(tried, off);
            assert(there.states[k] == seek::emptied(m.states[k]));
        }
    }
}

/// In an undamaged input that has been indexed, a seek on a Theora stream whose
/// header tells the frame layout reaches a page whose frame is not past the
/// target, and none of its pages that names a frame up to the target has a
/// later granule.
pub proof fn indexed_frame_seeks_are_exact(
    m: Model,
    index: u32,
    pts: i64,
    p: int,
    keyframe: int,
    since: int,
)
    requires
        m.wf(),
        laws::page_begins(m.input, 0, p),
        index < scan::indexed(m).0.streams.len(),
        scan::indexed(m).0.skel.skeleton is None,
        ({
            let done = scan::indexed(m).0;
            let st = done.states[index as int];
            let tick = done.streams[index as int].time_base;
            &&& done.streams[index as int].params.codec_id == "theora"@
            &&& st.theora is Some
            &&& 0 < (st.theora->0).shift < 63
            &&& 0 < tick.num <= u32::MAX
            &&& 0 < tick.den <= u32::MAX
            &&& page::serial_at(m.input, p) == st.serial
            &&& 0 <= keyframe
            &&& 0 <= since < power2::pow2((st.theora->0).shift as nat)
            &&& page::granule_at(m.input, p) == keyframe * power2::pow2(
                (st.theora->0).shift as nat,
            ) + since
            &&& page::granule_at(m.input, p) >= 0
            &&& keyframe + since - (if (st.theora->0).count_from_one {
                1int
            } else {
                0int
            }) <= pts
        }),
    ensures
        ({
            let gran = scan::indexed(m).0.states[index as int].theora->0;
            let (after, r) = seek::seeked(scan::indexed(m).0, index, pts);
            let reached = page::granule_at(m.input, after.pos as int);
            &&& r == Ok::<i64, Error>(reached)
            &&& page::serial_at(m.input, after.pos as int) == page::serial_at(m.input, p)
            &&& page::granule_at(m.input, p) <= reached
            &&& granule::frame_no(reached as int, gran.shift as nat) - (
            if gran.count_from_one {
                1int
            } else {
                0int
            }) <= pts
        }),
{
    let done = scan::indexed(m).0;
    let i = index as int;
    let gran = done.states[i].theora->0;
    frame_targets_are_frames(done, i, pts, keyframe, since);
    laws::indexed_seeks_are_exact(m, index, pts, p);
    let (after, r) = seek::seeked(done, index, pts);
    let g = page::granule_at(m.input, after.pos as int);
    let shift = gran.shift as nat;
    if g >= 0 {
        granule::halves_of_granule(g as u64, gran.shift);
        let a = granule::keyframe_half(g as int, shift);
        let b = granule::offset_half(g as int, shift);
        frame_targets_are_frames(done, i, pts, a, b);
        granule::unpacking_a_packed_granule(a, b, shift);
    }
}

} // verus!
