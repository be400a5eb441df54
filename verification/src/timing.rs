//! What seeking and the duration come to, in time.
use crate::demux::Model;
use crate::duration;
use crate::journey;
use crate::laws;
use crate::media;
use crate::media::TimeBase;
use crate::page;
use crate::seek;
use crate::skeleton;
use crate::skeleton::IndexView;
use crate::whole;
use vstd::prelude::*;

verus! {

// ---------------------------------------------------------------------------
// Units of time
// ---------------------------------------------------------------------------

/// `x`, but not more than `most`.
pub open spec fn at_most(x: int, most: int) -> int {
    if x < most {
        x
    } else {
        most
    }
}

/// Whether `ts` units of `1 / den` seconds are at or before `pts` ticks of
/// `tick`, to the nearest unit: at most half a unit past them.
pub open spec fn is_by(ts: int, den: int, pts: int, tick: TimeBase) -> bool {
    if pts >= 0 {
        2 * (ts * tick.den) - tick.den <= 2 * (pts * (tick.num * den))
    } else {
        2 * (ts * tick.den) - tick.den < 2 * (pts * (tick.num * den))
    }
}

/// A quotient rounded half up is the last number at most half past the
/// fraction.
proof fn nearest_bounds(p: int, d: int, x: int)
    requires
        0 <= p,
        0 < d,
    ensures
        ({
            let q = p / d + if 2 * (p % d) >= d {
                1int
            } else {
                0int
            };
            &&& q >= 0
            &&& (x <= q <==> 2 * (x * d) - d <= 2 * p)
            &&& (x >= q <==> 2 * (x * d) + d > 2 * p)
        }),
{
    vstd::arithmetic::div_mod::lemma_fundamental_div_mod(p, d);
    vstd::arithmetic::div_mod::lemma_mod_bound(p, d);
    vstd::arithmetic::div_mod::lemma_div_pos_is_pos(p, d);
    let a = p / d;
    let r = p % d;
    let q = a + if 2 * r >= d {
        1int
    } else {
        0int
    };
    assert(p == d * a + r);
    let over = x - a;
    assert(x * d == d * a + over * d) by (nonlinear_arith)
        requires
            over == x - a,
    ;
    if over >= 2 {
        assert(over * d >= 2 * d) by (nonlinear_arith)
            requires
                over >= 2,
                d > 0,
        ;
    } else if over <= -1 {
        assert(over * d <= -d) by (nonlinear_arith)
            requires
                over <= -1,
                d > 0,
        ;
    } else {
        assert(over == 0 || over == 1);
        assert(1 * d == d && 0 * d == 0);
    }
}

/// Converting is rounding to the nearest tick: what comes out is at most half
/// a tick from what goes in, unless it is the end of the range.
pub proof fn rescaling_goes_to_the_nearest(ts: i64, from: TimeBase, to: TimeBase, x: i64)
    requires
        from.num > 0,
        from.den > 0,
        to.num > 0,
        to.den > 0,
        media::magnitude(ts * (from.num * to.den)) <= u128::MAX,
    ensures
        ({
            let r = media::rescaled(ts, from, to);
            let exact = 2 * (ts * (from.num * to.den));
            let unit = from.den * to.num;
            &&& unit > 0
            &&& ts >= 0 ==> {
                &&& r >= 0
                &&& (x <= r <==> 2 * (x * unit) - unit <= exact)
                &&& r < i64::MAX ==> exact < 2 * (r * unit) + unit
            }
            &&& ts < 0 ==> {
                &&& r <= 0
                &&& (x >= r <==> exact <= 2 * (x * unit) + unit)
                &&& r > i64::MIN ==> 2 * (r * unit) - unit < exact
            }
        }),
{
    let f = from.num * to.den;
    let d = from.den * to.num;
    assert(f > 0) by (nonlinear_arith)
        requires
            f == from.num * to.den,
            from.num > 0,
            to.den > 0,
    ;
    assert(d > 0) by (nonlinear_arith)
        requires
            d == from.den * to.num,
            from.den > 0,
            to.num > 0,
    ;
    let n = ts * f;
    assert((ts > 0 ==> n > 0) && (ts == 0 ==> n == 0) && (ts < 0 ==> n < 0)) by (nonlinear_arith)
        requires
            n == ts * f,
            f > 0,
    ;
    let p = media::magnitude(n);
    let q = p / d + if 2 * (p % d) >= d {
        1int
    } else {
        0int
    };
    let r = media::rescaled(ts, from, to);
    nearest_bounds(p, d, q);
    if p == 0 {
        nearest_bounds(0, d, 0);
        nearest_bounds(0, d, x as int);
        assert(0 * d == 0);
    } else if ts >= 0 {
        nearest_bounds(p, d, x as int);
        assert(r == media::clamped(q));
    } else {
        let y = -(x as int);
        nearest_bounds(p, d, y);
        assert(r == media::clamped(-q));
        assert(y * d == -(x * d)) by (nonlinear_arith)
            requires
                y == -(x as int),
        ;
        assert((-q) * d == -(q * d)) by (nonlinear_arith);
    }
}

/// A seek point is at or before the converted target exactly when it is so in
/// time.
proof fn conversion_keeps_order(ts: i64, den: i64, pts: i64, tick: TimeBase)
    requires
        is_convertible(den, pts, tick),
    ensures
        ts <= media::rescaled(pts, tick, TimeBase { num: 1, den }) <==> is_by(
            ts as int,
            den as int,
            pts as int,
            tick,
        ),
{
    let to = TimeBase { num: 1, den };
    let r = media::rescaled(pts, tick, to);
    rescaling_goes_to_the_nearest(pts, tick, to, ts);
    assert(tick.den * 1 == tick.den);
    if pts < 0 {
        let exact = 2 * (pts * (tick.num * den));
        let d = tick.den as int;
        if ts > i64::MIN {
            rescaling_goes_to_the_nearest(pts, tick, to, (ts - 1) as i64);
            assert((ts - 1) * d == ts * d - d) by (nonlinear_arith);
        } else {
            assert(exact >= 2 * (ts * d));
        }
    }
}

/// Whether `pts` ticks of `tick` can be converted into units of `1 / den`
/// seconds: the product fits 128 bits, and the result is not below the range.
pub open spec fn is_convertible(den: i64, pts: i64, tick: TimeBase) -> bool {
    &&& den > 0
    &&& tick.num > 0
    &&& tick.den > 0
    &&& media::magnitude(pts * (tick.num * den)) <= u128::MAX
    &&& pts * (tick.num * den) >= i64::MIN * tick.den
}

/// Whether the `j`th seek point of an index is the last one at or before
/// `pts` ticks of `tick`, in time.
pub open spec fn is_last_by(index: IndexView, j: int, pts: i64, tick: TimeBase) -> bool {
    &&& 0 <= j < index.keypoints.len()
    &&& is_by(
        index.keypoints[j].timestamp as int,
        index.timestamp_denominator as int,
        pts as int,
        tick,
    )
    &&& forall|l: int|
        j < l < index.keypoints.len() ==> !is_by(
            (#[trigger] index.keypoints[l]).timestamp as int,
            index.timestamp_denominator as int,
            pts as int,
            tick,
        )
}

/// There is one last seek point.
pub proof fn last_is_unique(index: IndexView, j: int, k: int, pts: i64, tick: TimeBase)
    requires
        is_last_by(index, j, pts, tick),
        is_last_by(index, k, pts, tick),
    ensures
        j == k,
{
    let den = index.timestamp_denominator as int;
    if j < k {
        assert(!is_by(index.keypoints[k].timestamp as int, den, pts as int, tick));
    } else if k < j {
        assert(!is_by(index.keypoints[j].timestamp as int, den, pts as int, tick));
    }
}

/// Whether the first keyframe index of `serial` is the `i`th.
pub open spec fn is_index_of(indexes: Seq<IndexView>, i: int, serial: u32) -> bool {
    &&& 0 <= i < indexes.len()
    &&& indexes[i].serial == serial
    &&& forall|l: int| 0 <= l < i ==> (#[trigger] indexes[l]).serial != serial
}

/// Whether `reached` ticks of `tick` are `ts` units of `1 / den` seconds, to
/// the nearest tick that can be written.
pub open spec fn is_same_time(reached: i64, tick: TimeBase, ts: int, den: int) -> bool {
    let unit = den * tick.num;
    let exact = 2 * (ts * tick.den);
    &&& reached < i64::MAX ==> exact <= 2 * (reached * unit) + unit
    &&& reached > i64::MIN ==> 2 * (reached * unit) - unit <= exact
}

proof fn first_index_is(indexes: Seq<IndexView>, i: int, serial: u32)
    requires
        is_index_of(indexes, i, serial),
    ensures
        skeleton::first_index(indexes, serial) == Some(indexes[i]),
    decreases indexes.len(),
{
    if i > 0 {
        assert(indexes[0].serial != serial);
        let later = indexes.skip(1);
        assert forall|l: int| 0 <= l < i - 1 implies (#[trigger] later[l]).serial != serial by {
            assert(indexes[l + 1].serial != serial);
        }
        first_index_is(later, i - 1, serial);
    }
}

/// The seek point taken of an index is the last one in time, where there is
/// one.
proof fn floor_goes_by_time(index: IndexView, pts: i64, tick: TimeBase) -> (j: int)
    requires
        is_convertible(index.timestamp_denominator, pts, tick),
    ensures
        match seek::index_floor(
            index,
            media::rescaled(pts, tick, seek::index_tick(index)),
        ) {
            Some(k) => is_last_by(index, j, pts, tick) && index.keypoints[j] == k,
            None => forall|l: int|
                0 <= l < index.keypoints.len() ==> !is_by(
                    (#[trigger] index.keypoints[l]).timestamp as int,
                    index.timestamp_denominator as int,
                    pts as int,
                    tick,
                ),
        },
{
    let den = index.timestamp_denominator;
    let points = index.keypoints;
    let t = media::rescaled(pts, tick, seek::index_tick(index));
    laws::floor_point_is_the_last(points, t);
    assert forall|l: int| 0 <= l < points.len() implies ((#[trigger] points[l]).timestamp <= t
        <==> is_by(points[l].timestamp as int, den as int, pts as int, tick)) by {
        conversion_keeps_order(points[l].timestamp, den, pts, tick);
    }
    match seek::floor_point(points, t) {
        Some(k) => choose|i: int|
            0 <= i < points.len() && #[trigger] points[i] == k && k.timestamp <= t && forall|j:
                int| i < j < points.len() ==> (#[trigger] points[j]).timestamp > t,
        None => 0,
    }
}

proof fn earliest_point_goes_by_time(
    indexes: Seq<IndexView>,
    n: int,
    serial: u32,
    pts: i64,
    tick: TimeBase,
    start: (u64, u32),
)
    requires
        0 <= n <= indexes.len(),
        forall|l: int|
            0 <= l < n && (#[trigger] indexes[l]).serial != serial
                && indexes[l].timestamp_denominator > 0 ==> is_convertible(
                indexes[l].timestamp_denominator,
                pts,
                tick,
            ),
    ensures
        ({
            let (off, winner) = seek::earliest_point(indexes, n, serial, pts, tick, start);
            &&& off <= start.0
            &&& forall|l: int, j: int|
                0 <= l < n && (#[trigger] indexes[l]).serial != serial
                    && indexes[l].timestamp_denominator > 0 && #[trigger] is_last_by(
                    indexes[l],
                    j,
                    pts,
                    tick,
                ) ==> off <= indexes[l].keypoints[j].offset
            &&& (off, winner) == start || exists|l: int, j: int|
                0 <= l < n && (#[trigger] indexes[l]).serial == winner && winner != serial
                    && indexes[l].timestamp_denominator > 0 && #[trigger] is_last_by(
                    indexes[l],
                    j,
                    pts,
                    tick,
                ) && indexes[l].keypoints[j].offset == off && off < start.0
        }),
    decreases n,
{
    if n > 0 {
        earliest_point_goes_by_time(indexes, n - 1, serial, pts, tick, start);
        let best = seek::earliest_point(indexes, n - 1, serial, pts, tick, start);
        let other = indexes[n - 1];
        let (off, winner) = seek::earliest_point(indexes, n, serial, pts, tick, start);
        if other.serial != serial && other.timestamp_denominator > 0 {
            let at = floor_goes_by_time(other, pts, tick);
            let t = media::rescaled(pts, tick, seek::index_tick(other));
            assert forall|l: int, j: int|
                0 <= l < n && (#[trigger] indexes[l]).serial != serial
                    && indexes[l].timestamp_denominator > 0 && #[trigger] is_last_by(
                    indexes[l],
                    j,
                    pts,
                    tick,
                ) implies off <= indexes[l].keypoints[j].offset by {
                if l == n - 1 {
                    if seek::index_floor(other, t) is Some {
                        if j < at {
                            assert(!is_by(
                                other.keypoints[at].timestamp as int,
                                other.timestamp_denominator as int,
                                pts as int,
                                tick,
                            ));
                        } else if at < j {
                            assert(!is_by(
                                other.keypoints[j].timestamp as int,
                                other.timestamp_denominator as int,
                                pts as int,
                                tick,
                            ));
                        }
                    } else {
                        assert(!is_by(
                            other.keypoints[j].timestamp as int,
                            other.timestamp_denominator as int,
                            pts as int,
                            tick,
                        ));
                    }
                }
            }
            if (off, winner) != best {
                assert(indexes[n - 1].serial == winner && is_last_by(
                    indexes[n - 1],
                    at,
                    pts,
                    tick,
                ));
            }
        }
    }
}

/// A seek by the keyframe index goes to the last seek point of the stream
/// whose time is at or before the time asked for, whatever units the index and
/// the stream count in: it reports that point's time, which is not past the
/// time asked for but by rounding. It goes to where that point stands in the
/// file, or further back where another stream's last seek point at or before
/// that time stands further back, and then to the furthest such point. It goes
/// nowhere exactly when every seek point of the stream is past the time.
pub proof fn index_seeks_go_by_time(m: Model, serial: u32, pts: i64, tick: TimeBase, i: int)
    requires
        m.skel.skeleton is Some,
        is_index_of(m.skel.skeleton->0.indexes, i, serial),
        forall|l: int|
            0 <= l < m.skel.skeleton->0.indexes.len() && (
            #[trigger] m.skel.skeleton->0.indexes[l]).timestamp_denominator > 0 ==> is_convertible(
                m.skel.skeleton->0.indexes[l].timestamp_denominator,
                pts,
                tick,
            ),
    ensures
        ({
            let indexes = m.skel.skeleton->0.indexes;
            let own = indexes[i];
            let den = own.timestamp_denominator;
            match seek::index_target(m, serial, pts, tick) {
                Some((off, winner, reached)) => exists|j: int|
                    {
                        &&& #[trigger] is_last_by(own, j, pts, tick)
                        &&& den > 0
                        &&& is_same_time(reached, tick, own.keypoints[j].timestamp as int, den as int)
                        &&& 2 * (reached * (den * tick.num)) <= 2 * (pts * (den * tick.num))
                            + tick.den + den * tick.num
                        &&& off <= own.keypoints[j].offset
                        &&& forall|l: int, k: int|
                            0 <= l < indexes.len() && (#[trigger] indexes[l]).serial != serial
                                && indexes[l].timestamp_denominator > 0 && #[trigger] is_last_by(
                                indexes[l],
                                k,
                                pts,
                                tick,
                            ) ==> off <= indexes[l].keypoints[k].offset
                        &&& winner == serial ==> off == own.keypoints[j].offset
                        &&& winner != serial ==> off < own.keypoints[j].offset && exists|
                            l: int,
                            k: int,
                        |
                            0 <= l < indexes.len() && (#[trigger] indexes[l]).serial == winner
                                && indexes[l].timestamp_denominator > 0 && #[trigger] is_last_by(
                                indexes[l],
                                k,
                                pts,
                                tick,
                            ) && indexes[l].keypoints[k].offset == off
                        &&& (forall|l: int|
                            0 <= l < indexes.len() ==> (#[trigger] indexes[l]).serial == serial)
                            ==> winner == serial
                    },
                None => den > 0 ==> forall|l: int|
                    0 <= l < own.keypoints.len() ==> !is_by(
                        (#[trigger] own.keypoints[l]).timestamp as int,
                        den as int,
                        pts as int,
                        tick,
                    ),
            }
        }),
{
    let indexes = m.skel.skeleton->0.indexes;
    let own = indexes[i];
    let den = own.timestamp_denominator;
    first_index_is(indexes, i, serial);
    if den > 0 {
        let j = floor_goes_by_time(own, pts, tick);
        if let Some((off, winner, reached)) = seek::index_target(m, serial, pts, tick) {
            let k = own.keypoints[j];
            earliest_point_goes_by_time(
                indexes,
                indexes.len() as int,
                serial,
                pts,
                tick,
                (k.offset, serial),
            );
            point_reached(k.timestamp, den, pts, tick);
            assert(is_last_by(own, j, pts, tick));
        }
    }
}

/// What a seek reports of a seek point is the point's time, and not past the
/// time asked for but by rounding.
proof fn point_reached(ts: i64, den: i64, pts: i64, tick: TimeBase)
    requires
        is_convertible(den, pts, tick),
        is_by(ts as int, den as int, pts as int, tick),
    ensures
        ({
            let reached = media::rescaled(ts, TimeBase { num: 1, den }, tick);
            &&& is_same_time(reached, tick, ts as int, den as int)
            &&& 2 * (reached * (den * tick.num)) <= 2 * (pts * (den * tick.num)) + tick.den + den
                * tick.num
        }),
{
    let from = TimeBase { num: 1, den };
    let reached = media::rescaled(ts, from, tick);
    let unit = den * tick.num;
    assert(1 * tick.den == tick.den);
    let n = ts * tick.den;
    assert(media::magnitude(n) <= 0x8000_0000_0000_0000 * 0x8000_0000_0000_0000) by (
        nonlinear_arith)
        requires
            n == ts * tick.den,
            -0x8000_0000_0000_0000 <= ts <= 0x8000_0000_0000_0000,
            0 < tick.den <= 0x8000_0000_0000_0000,
            media::magnitude(n) == if n < 0 {
                -n
            } else {
                n
            },
    ;
    assert(0x8000_0000_0000_0000int * 0x8000_0000_0000_0000int <= u128::MAX);
    assert(ts * (1 * tick.den) == n);
    rescaling_goes_to_the_nearest(ts, from, tick, reached);
    assert(unit > 0);
    assert(tick.num * den == unit) by (nonlinear_arith)
        requires
            unit == den * tick.num,
    ;
    if ts < 0 && reached == i64::MIN {
        assert(reached * unit <= pts * unit) by (nonlinear_arith)
            requires
                reached <= pts,
                unit > 0,
        ;
    }
}

// ---------------------------------------------------------------------------
// The duration
// ---------------------------------------------------------------------------

/// The duration made of what the streams last is no shorter than any of them,
/// and is that of one of them, or 0.
pub proof fn no_stream_outlasts_the_duration(micros: Seq<i64>)
    ensures
        duration::longest(micros) >= 0,
        forall|i: int| 0 <= i < micros.len() ==> #[trigger] micros[i] <= duration::longest(micros),
        duration::longest(micros) == 0 || exists|i: int|
            0 <= i < micros.len() && #[trigger] micros[i] == duration::longest(micros),
    decreases micros.len(),
{
    if micros.len() > 0 {
        let init = micros.drop_last();
        let n = micros.len() - 1;
        let best = duration::longest(micros);
        no_stream_outlasts_the_duration(init);
        assert forall|i: int| 0 <= i < micros.len() implies #[trigger] micros[i] <= best by {
            if i < n {
                assert(init[i] <= duration::longest(init));
            }
        }
        if best != 0 {
            if best == duration::longest(init) {
                let i = choose|i: int| 0 <= i < init.len() && #[trigger] init[i] == best;
                assert(micros[i] == best);
            } else {
                assert(micros[n] == best);
            }
        }
    }
}

/// What is taken as the duration of a link is no shorter than any of its
/// streams, and is that of one of them, or 0.
pub proof fn no_stream_outlasts_its_link(micros: Seq<(u32, i64)>, link: u32)
    ensures
        duration::longest_of_link(micros, link) >= 0,
        forall|i: int|
            0 <= i < micros.len() && (#[trigger] micros[i]).0 == link ==> micros[i].1
                <= duration::longest_of_link(micros, link),
        duration::longest_of_link(micros, link) == 0 || exists|i: int|
            0 <= i < micros.len() && #[trigger] micros[i] == (
                link,
                duration::longest_of_link(micros, link),
            ),
    decreases micros.len(),
{
    if micros.len() > 0 {
        let init = micros.drop_last();
        let n = micros.len() - 1;
        let best = duration::longest_of_link(micros, link);
        no_stream_outlasts_its_link(init, link);
        assert forall|i: int| 0 <= i < micros.len() && (#[trigger] micros[i]).0 == link implies
            micros[i].1 <= best by {
            if i < n {
                assert(init[i].0 == link);
            }
        }
        if best != 0 {
            if best == duration::longest_of_link(init, link) {
                let i = choose|i: int| 0 <= i < init.len() && #[trigger] init[i] == (link, best);
                assert(micros[i] == (link, best));
            } else {
                assert(micros[n] == (link, best));
            }
        }
    }
}

/// The streams that are not of `link`.
pub open spec fn of_other_links(micros: Seq<(u32, i64)>, link: u32) -> Seq<(u32, i64)>
    decreases micros.len(),
{
    if micros.len() == 0 {
        Seq::empty()
    } else if micros.last().0 != link {
        of_other_links(micros.drop_last(), link).push(micros.last())
    } else {
        of_other_links(micros.drop_last(), link)
    }
}

proof fn other_links_last_the_same(micros: Seq<(u32, i64)>, link: u32, other: u32)
    requires
        other != link,
    ensures
        duration::longest_of_link(of_other_links(micros, link), other)
            == duration::longest_of_link(micros, other),
    decreases micros.len(),
{
    if micros.len() > 0 {
        other_links_last_the_same(micros.drop_last(), link, other);
        if micros.last().0 != link {
            let rest = of_other_links(micros.drop_last(), link);
            assert(rest.push(micros.last()).drop_last() =~= rest);
        }
    }
}

proof fn other_links_occur_the_same(micros: Seq<(u32, i64)>, link: u32, other: u32)
    requires
        other != link,
    ensures
        duration::has_link(of_other_links(micros, link), other) == duration::has_link(
            micros,
            other,
        ),
    decreases micros.len(),
{
    if micros.len() > 0 {
        let init = micros.drop_last();
        let n = micros.len() - 1;
        other_links_occur_the_same(init, link, other);
        let part = of_other_links(init, link);
        let rest = of_other_links(micros, link);
        if duration::has_link(micros, other) {
            let i = choose|i: int| 0 <= i < micros.len() && (#[trigger] micros[i]).0 == other;
            if i == n {
                assert(rest[part.len() as int].0 == other);
            } else {
                assert(init[i].0 == other);
                let j = choose|j: int| 0 <= j < part.len() && (#[trigger] part[j]).0 == other;
                assert(rest[j].0 == other);
            }
        } else {
            assert forall|j: int| 0 <= j < rest.len() implies (#[trigger] rest[j]).0 != other by {
                assert(!duration::has_link(init, other)) by {
                    if duration::has_link(init, other) {
                        let i = choose|i: int|
                            0 <= i < init.len() && (#[trigger] init[i]).0 == other;
                        assert(micros[i].0 == other);
                    }
                }
                if j < part.len() {
                    assert(part[j] == rest[j]);
                } else {
                    assert(micros[n].0 != other);
                }
            }
        }
    }
}

/// The links up to `n` last as long as those of them that are not `link`,
/// and `link` where it occurs.
proof fn a_link_adds_up_to(micros: Seq<(u32, i64)>, link: u32, n: int)
    requires
        0 <= n <= micros.len(),
    ensures
        ({
            let rest = of_other_links(micros, link);
            let m = of_other_links(micros.take(n), link).len() as int;
            let others = duration::links_in_sequence(rest, m);
            &&& 0 <= m <= rest.len()
            &&& rest.take(m) == of_other_links(micros.take(n), link)
            &&& others >= 0
            &&& duration::links_in_sequence(micros, n) == media::clamped(
                others + if duration::has_link(micros.take(n), link) {
                    duration::longest_of_link(micros, link) as int
                } else {
                    0
                },
            )
        }),
    decreases n,
{
    let rest = of_other_links(micros, link);
    let part = micros.take(n);
    others_come_in_order(micros, link, n);
    if n > 0 {
        a_link_adds_up_to(micros, link, n - 1);
        let before = micros.take(n - 1);
        let x = micros[n - 1].0;
        assert(part.drop_last() =~= before);
        assert(part.last() == micros[n - 1]);
        let m0 = of_other_links(before, link).len() as int;
        no_stream_outlasts_its_link(micros, link);
        no_stream_outlasts_its_link(micros, x);
        if x == link {
            assert(part[n - 1].0 == link);
            assert(duration::has_link(part, link));
        } else {
            other_links_last_the_same(micros, link, x);
            other_links_occur_the_same(before, link, x);
            assert(rest.take(m0 + 1)[m0] == micros[n - 1]);
            if duration::has_link(before, link) {
                let i = choose|i: int| 0 <= i < before.len() && (#[trigger] before[i]).0 == link;
                assert(part[i].0 == link);
            } else if duration::has_link(part, link) {
                let i = choose|i: int| 0 <= i < part.len() && (#[trigger] part[i]).0 == link;
                assert(before[i].0 == link);
            }
        }
    } else {
        assert(rest.take(0) =~= of_other_links(part, link));
    }
}

proof fn others_come_in_order(micros: Seq<(u32, i64)>, link: u32, n: int)
    requires
        0 <= n <= micros.len(),
    ensures
        of_other_links(micros.take(n), link).len() <= of_other_links(micros, link).len(),
        of_other_links(micros, link).take(of_other_links(micros.take(n), link).len() as int)
            == of_other_links(micros.take(n), link),
    decreases micros.len() - n,
{
    let rest = of_other_links(micros, link);
    if n == micros.len() {
        assert(micros.take(n) =~= micros);
        assert(rest.take(rest.len() as int) =~= rest);
    } else {
        others_come_in_order(micros, link, n + 1);
        assert(micros.take(n + 1).drop_last() =~= micros.take(n));
        let more = of_other_links(micros.take(n + 1), link);
        let less = of_other_links(micros.take(n), link);
        assert(rest.take(less.len() as int) =~= more.take(less.len() as int));
        assert(more.take(less.len() as int) =~= less);
    }
}

/// No stream outlasts the duration made of all links.
pub proof fn no_stream_outlasts_the_links(micros: Seq<(u32, i64)>, i: int)
    requires
        0 <= i < micros.len(),
    ensures
        micros[i].1 <= duration::links_in_sequence(micros, micros.len() as int),
{
    let link = micros[i].0;
    assert(duration::has_link(micros, link));
    links_add_up(micros, link);
    no_stream_outlasts_its_link(micros, link);
}

/// Links play one after the other: with the streams of one link, the duration
/// is that without them and as much more as that link lasts, up to the end of
/// the range. Without any stream it is 0.
pub proof fn links_add_up(micros: Seq<(u32, i64)>, link: u32)
    ensures
        micros.len() == 0 ==> duration::links_in_sequence(micros, 0) == 0,
        duration::has_link(micros, link) ==> {
            let rest = of_other_links(micros, link);
            &&& duration::links_in_sequence(micros, micros.len() as int) == media::clamped(
                duration::links_in_sequence(rest, rest.len() as int) + duration::longest_of_link(
                    micros,
                    link,
                ),
            )
            &&& duration::links_in_sequence(micros, micros.len() as int)
                >= duration::longest_of_link(micros, link)
        },
{
    a_link_adds_up_to(micros, link, micros.len() as int);
    assert(micros.take(micros.len() as int) =~= micros);
}

// ---------------------------------------------------------------------------
// The end of the input
// ---------------------------------------------------------------------------

/// Whether no page begins from `from` on before `x`.
pub open spec fn begins_none(s: Seq<u8>, from: int, x: int) -> bool {
    forall|q: int| from <= q < x ==> !#[trigger] laws::page_begins(s, 0, q)
}

/// Whether the first `OggS` from `from` on stands at the beginning of a page,
/// and not inside the page that `from` is in.
pub open spec fn enters_at_a_page(s: Seq<u8>, from: int) -> bool {
    forall|x: int|
        from <= x && #[trigger] page::is_capture(s, x) && begins_none(s, from, x)
            ==> laws::page_begins(s, 0, x)
}

/// Whether the page at `p` is the last one of its serial number that has a
/// granule.
pub open spec fn is_last_of_its_serial(s: Seq<u8>, p: int) -> bool {
    &&& laws::page_begins(s, 0, p)
    &&& page::granule_at(s, p) >= 0
    &&& forall|q: int| #[trigger]
        laws::page_begins(s, 0, q) && p < q && page::serial_at(s, q) == page::serial_at(s, p)
            ==> page::granule_at(s, q) < 0
}

/// Of two pages, the earlier one ends before the later one begins.
proof fn pages_do_not_overlap(s: Seq<u8>, x: int, p: int)
    requires
        s.len() <= usize::MAX,
        laws::is_chain(s, 0),
        laws::page_begins(s, 0, x),
        laws::page_begins(s, 0, p),
        x < p,
    ensures
        page::page_end(s, x) <= p,
{
    let pages = whole::pages_from(s, 0);
    let i = journey::page_is_listed(s, 0, x);
    let j = journey::page_is_listed(s, 0, p);
    journey::page_stands_there(s, 0, i);
    journey::page_stands_there(s, 0, j);
    whole::pages_stand_in_order(s, 0);
    if j < i {
        assert(pages[j].offset < pages[i].offset);
    }
    if i + 1 < j {
        assert(pages[i + 1].offset < pages[j].offset);
    }
}

/// A page that begins is whole.
proof fn page_that_begins_is_whole(s: Seq<u8>, p: int)
    requires
        s.len() <= usize::MAX,
        laws::is_chain(s, 0),
        laws::page_begins(s, 0, p),
    ensures
        page::is_page(s, p),
        page::is_capture(s, p),
        page::is_complete(s, p),
        0 <= p,
        p + 27 <= page::page_end(s, p) <= s.len(),
{
    let i = journey::page_is_listed(s, 0, p);
    journey::page_stands_there(s, 0, i);
    page::body_len_nonneg(page::lacing_at(s, p));
}

/// Behind a page another begins, or the input ends.
proof fn page_ends_at_a_boundary(s: Seq<u8>, x: int)
    requires
        s.len() <= usize::MAX,
        laws::is_chain(s, 0),
        laws::page_begins(s, 0, x),
    ensures
        journey::is_boundary(s, page::page_end(s, x)),
{
    let i = journey::page_is_listed(s, 0, x);
    journey::pages_end_at_boundaries(s, whole::pages_from(s, 0), i);
}

/// Where no `OggS` stands, no page begins.
proof fn boundaries_begin_pages(s: Seq<u8>, x: int)
    requires
        s.len() <= usize::MAX,
        laws::is_chain(s, 0),
        !page::is_capture(s, x),
    ensures
        !laws::page_begins(s, 0, x),
{
    if laws::page_begins(s, 0, x) {
        page_that_begins_is_whole(s, x);
    }
}

/// Going on from `x`, the last page of its serial number gives the granule,
/// unless it was passed already.
proof fn last_page_is_met(s: Seq<u8>, from: int, x: int, known: Map<u32, i64>, p: int)
    requires
        s.len() <= usize::MAX,
        laws::is_chain(s, 0),
        0 <= from <= x,
        enters_at_a_page(s, from),
        begins_none(s, from, x) || journey::is_boundary(s, x),
        is_last_of_its_serial(s, p),
        x <= p || (known.contains_key(page::serial_at(s, p)) && known[page::serial_at(s, p)]
            == page::granule_at(s, p)),
    ensures
        duration::last_granules(s, x, known).contains_key(page::serial_at(s, p)),
        duration::last_granules(s, x, known)[page::serial_at(s, p)] == page::granule_at(s, p),
    decreases s.len() - x,
{
    page_that_begins_is_whole(s, p);
    if x + 27 <= s.len() {
        if page::is_capture(s, x) {
            page_that_begins_is_whole(s, x);
            page_ends_at_a_boundary(s, x);
            if x < p {
                pages_do_not_overlap(s, x, p);
            }
            let granule = page::granule_at(s, x);
            let more = if granule >= 0 {
                known.insert(page::serial_at(s, x), granule)
            } else {
                known
            };
            last_page_is_met(s, from, page::page_end(s, x), more, p);
        } else {
            boundaries_begin_pages(s, x);
            last_page_is_met(s, from, x + 1, known, p);
        }
    }
}

/// Every granule found from `x` on is that of a page there, or known before.
proof fn granules_are_of_pages(s: Seq<u8>, from: int, x: int, known: Map<u32, i64>, serial: u32)
    requires
        s.len() <= usize::MAX,
        laws::is_chain(s, 0),
        0 <= from <= x,
        enters_at_a_page(s, from),
        begins_none(s, from, x) || journey::is_boundary(s, x),
        duration::last_granules(s, x, known).contains_key(serial),
    ensures
        ({
            let g = duration::last_granules(s, x, known)[serial];
            (known.contains_key(serial) && known[serial] == g) || exists|p: int|
                x <= p && #[trigger] laws::page_begins(s, 0, p) && page::serial_at(s, p) == serial
                    && page::granule_at(s, p) == g && g >= 0
        }),
    decreases s.len() - x,
{
    if x + 27 <= s.len() {
        if page::is_capture(s, x) {
            page_that_begins_is_whole(s, x);
            page_ends_at_a_boundary(s, x);
            let granule = page::granule_at(s, x);
            let more = if granule >= 0 {
                known.insert(page::serial_at(s, x), granule)
            } else {
                known
            };
            granules_are_of_pages(s, from, page::page_end(s, x), more, serial);
        } else {
            boundaries_begin_pages(s, x);
            granules_are_of_pages(s, from, x + 1, known, serial);
        }
    }
}

/// The last page of each serial number that has a granule tells where its
/// stream ends, if it begins within 65536 bytes of the end of an undamaged
/// input, however long the input is.
pub proof fn last_pages_tell_where_streams_end(s: Seq<u8>, p: int)
    requires
        s.len() <= usize::MAX,
        laws::is_chain(s, 0),
        enters_at_a_page(
            s,
            if s.len() > 65536 {
                s.len() - 65536
            } else {
                0
            },
        ),
        is_last_of_its_serial(s, p),
        p >= s.len() - 65536,
    ensures
        duration::tail_granules(s).contains_key(page::serial_at(s, p)),
        duration::tail_granules(s)[page::serial_at(s, p)] == page::granule_at(s, p),
{
    page_that_begins_is_whole(s, p);
    let from = duration::tail_start(s);
    last_page_is_met(s, from, from, Map::empty(), p);
}

/// Where the end of an undamaged input tells where a stream ends, a page of
/// that stream within 65536 bytes of the end says so.
pub proof fn only_last_pages_tell_where_streams_end(s: Seq<u8>, serial: u32)
    requires
        s.len() <= usize::MAX,
        laws::is_chain(s, 0),
        enters_at_a_page(
            s,
            if s.len() > 65536 {
                s.len() - 65536
            } else {
                0
            },
        ),
        duration::tail_granules(s).contains_key(serial),
    ensures
        exists|p: int|
            s.len() - 65536 <= p && #[trigger] laws::page_begins(s, 0, p) && page::serial_at(s, p)
                == serial && page::granule_at(s, p) == duration::tail_granules(s)[serial]
                && page::granule_at(s, p) >= 0,
{
    let from = duration::tail_start(s);
    granules_are_of_pages(s, from, from, Map::empty(), serial);
}

} // verus!
