//! How long the streams are and where they start, as far as whole numbers
//! tell: what is to be converted into seconds, and what is made of the
//! microseconds that come back.
use crate::bytes;
use crate::demux::{Model, OggDemuxer, StateView};
use crate::granule;
use crate::media;
use crate::media::{StreamView, TimeBase};
use crate::page;
use crate::process;
use crate::seek_index;
use crate::skeleton::{Fraction, Track};
use crate::timing;
use vstd::prelude::*;

verus! {

/// How far from the end the last pages are looked for.
pub const TAIL: usize = 65536;

/// The last granule of each serial number among the complete pages from `p`
/// on, over what was known before.
pub open spec fn last_granules(s: Seq<u8>, p: int, known: Map<u32, i64>) -> Map<u32, i64>
    decreases s.len() - p,
    via last_granules_end
{
    if p < 0 || p + 27 > s.len() {
        known
    } else if page::is_capture(s, p) && page::is_complete(s, p) {
        let granule = page::granule_at(s, p);
        let more = if granule >= 0 {
            known.insert(page::serial_at(s, p), granule)
        } else {
            known
        };
        last_granules(s, page::page_end(s, p), more)
    } else {
        last_granules(s, p + 1, known)
    }
}

#[via_fn]
proof fn last_granules_end(s: Seq<u8>, p: int, known: Map<u32, i64>) {
    if p >= 0 && page::is_complete(s, p) {
        page::body_len_nonneg(page::lacing_at(s, p));
    }
}

/// Where the tail of the input starts.
pub open spec fn tail_start(s: Seq<u8>) -> int {
    if s.len() > TAIL {
        s.len() - TAIL
    } else {
        0
    }
}

/// The last granule of each serial number in the tail of the input.
pub open spec fn tail_granules(s: Seq<u8>) -> Map<u32, i64> {
    last_granules(s, tail_start(s), Map::empty())
}

/// Ticks and their unit.
pub type Span = (i64, TimeBase);

/// Whether a rate can be divided by.
pub open spec fn is_rate(r: Fraction) -> bool {
    r.numerator > 0 && r.denominator > 0
}

/// A granule without the samples that an Opus decoder discards.
pub open spec fn played(pre_skip: Option<u16>, granule: i64) -> i64 {
    match pre_skip {
        Some(p) => if granule < 0 {
            granule
        } else if granule < p {
            0
        } else {
            (granule - p) as i64
        },
        None => granule,
    }
}

/// How much of a stream has played at a granule: by its track description
/// where that gives a rate, or else by its own time base, in frames for a
/// Theora stream. Nothing where the granule names no frame yet.
pub open spec fn elapsed(
    bone: Option<Track>,
    stream: StreamView,
    st: StateView,
    granule: i64,
) -> Option<Span> {
    let g = played(st.pre_skip, granule);
    let own = match st.theora {
        Some(t) => match t.count_spec(g as int) {
            Some(n) => Some((n, stream.time_base)),
            None => if g >= 0 {
                None
            } else {
                Some((g, stream.time_base))
            },
        },
        None => Some((g, stream.time_base)),
    };
    match bone {
        Some(b) => if is_rate(b.granule_rate) {
            Some(
                (
                    granule::frame_no(g as int, b.granuleshift as nat) as i64,
                    TimeBase {
                        num: b.granule_rate.denominator,
                        den: b.granule_rate.numerator,
                    },
                ),
            )
        } else {
            own
        },
        None => own,
    }
}

/// What the stream at `k` has played at a granule.
pub open spec fn elapsed_on(m: Model, k: int, granule: i64) -> Option<Span> {
    elapsed(process::bone_of(m, m.states[k].serial), m.streams[k], m.states[k], granule)
}

/// What each of the first `n` streams that has a page in the tail has played
/// at its end.
pub open spec fn tail_spans_of(m: Model, n: int) -> Seq<Span>
    decreases n,
{
    if n <= 0 {
        Seq::empty()
    } else {
        let before = tail_spans_of(m, n - 1);
        let serial = m.states[n - 1].serial;
        let last = tail_granules(m.input);
        if last.contains_key(serial) && elapsed_on(m, n - 1, last[serial]) is Some {
            before.push(elapsed_on(m, n - 1, last[serial])->0)
        } else {
            before
        }
    }
}

/// What each of the first `n` streams has played at its last known page,
/// with the chained link that it belongs to.
pub open spec fn link_spans_of(m: Model, n: int) -> Seq<(u32, Span)>
    decreases n,
{
    if n <= 0 {
        Seq::empty()
    } else {
        let before = link_spans_of(m, n - 1);
        let st = m.states[n - 1];
        match seek_index::last_granule_of(m.index, st.serial) {
            Some(g) => match elapsed_on(m, n - 1, g) {
                Some(span) => before.push((st.link_index, span)),
                None => before,
            },
            None => before,
        }
    }
}

/// The greatest of 0 and all `micros`.
pub open spec fn longest(micros: Seq<i64>) -> i64
    decreases micros.len(),
{
    if micros.len() == 0 {
        0
    } else if micros.last() > longest(micros.drop_last()) {
        micros.last()
    } else {
        longest(micros.drop_last())
    }
}

/// The greatest of 0 and all microseconds of `link`.
pub open spec fn longest_of_link(micros: Seq<(u32, i64)>, link: u32) -> i64
    decreases micros.len(),
{
    if micros.len() == 0 {
        0
    } else {
        let before = longest_of_link(micros.drop_last(), link);
        if micros.last().0 == link && micros.last().1 > before {
            micros.last().1
        } else {
            before
        }
    }
}

/// Whether `link` occurs in a list.
pub open spec fn has_link(micros: Seq<(u32, i64)>, link: u32) -> bool {
    exists|i: int| 0 <= i < micros.len() && (#[trigger] micros[i]).0 == link
}

/// The sum, over the links that occur among the first `n` of `micros`, of each
/// link's longest.
pub open spec fn links_in_sequence(micros: Seq<(u32, i64)>, n: int) -> i64
    decreases n,
{
    if n <= 0 {
        0
    } else {
        let before = links_in_sequence(micros, n - 1);
        if has_link(micros.take(n - 1), micros[n - 1].0) {
            before
        } else {
            media::clamped(before + longest_of_link(micros, micros[n - 1].0))
        }
    }
}

/// What the Skeleton says about where a stream starts: the playback time of
/// granule 0, the granule at which the stream's data begins, and granules per
/// second.
#[derive(Clone, Copy, Debug, PartialEq, Eq, Structural)]
pub struct StartAnchor {
    pub basetime: Fraction,
    pub basegranule: i64,
    pub granule_rate: Fraction,
}

/// What the Skeleton says about where the stream at `k` starts, where it
/// gives a rate.
pub open spec fn anchor_of(m: Model, k: int) -> Option<StartAnchor> {
    match m.skel.skeleton {
        None => None,
        Some(sk) => match process::bone_of(m, m.states[k].serial) {
            None => None,
            Some(b) => if is_rate(b.granule_rate) {
                Some(
                    StartAnchor {
                        basetime: sk.head.basetime,
                        basegranule: b.basegranule,
                        granule_rate: b.granule_rate,
                    },
                )
            } else {
                None
            },
        },
    }
}

/// The duration of one link is that of its longest stream; that of a single
/// link alone is the longest of all.
pub proof fn one_link_lasts_as_long_as_its_longest(micros: Seq<(u32, i64)>, link: u32)
    requires
        forall|i: int| 0 <= i < micros.len() ==> (#[trigger] micros[i]).0 == link,
    ensures
        links_in_sequence(micros, micros.len() as int) == longest(
            Seq::new(micros.len(), |i: int| micros[i].1),
        ),
{
    one_link_so_far(micros, link, micros.len() as int);
    link_longest_is_longest(micros, link);
    let all = Seq::new(micros.len(), |i: int| micros[i].1);
    longest_is_not_negative(all);
    if micros.len() == 0 {
        assert(all =~= Seq::<i64>::empty());
    }
}

proof fn longest_is_not_negative(micros: Seq<i64>)
    ensures
        longest(micros) >= 0,
    decreases micros.len(),
{
    if micros.len() > 0 {
        longest_is_not_negative(micros.drop_last());
    }
}

proof fn link_longest_is_longest(micros: Seq<(u32, i64)>, link: u32)
    requires
        forall|i: int| 0 <= i < micros.len() ==> (#[trigger] micros[i]).0 == link,
    ensures
        longest_of_link(micros, link) == longest(Seq::new(micros.len(), |i: int| micros[i].1)),
    decreases micros.len(),
{
    let all = Seq::new(micros.len(), |i: int| micros[i].1);
    if micros.len() > 0 {
        let init = micros.drop_last();
        assert forall|i: int| 0 <= i < init.len() implies (#[trigger] init[i]).0 == link by {
            assert(micros[i].0 == link);
        }
        link_longest_is_longest(init, link);
        assert(all.drop_last() =~= Seq::new(init.len(), |i: int| init[i].1));
        assert(micros[micros.len() - 1].0 == link);
    }
}

proof fn one_link_so_far(micros: Seq<(u32, i64)>, link: u32, n: int)
    requires
        0 <= n <= micros.len(),
        forall|i: int| 0 <= i < micros.len() ==> (#[trigger] micros[i]).0 == link,
    ensures
        links_in_sequence(micros, n) == if n == 0 {
            0
        } else {
            longest_of_link(micros, link)
        },
    decreases n,
{
    link_longest_is_longest(micros, link);
    longest_is_not_negative(Seq::new(micros.len(), |i: int| micros[i].1));
    if n > 0 {
        one_link_so_far(micros, link, n - 1);
        assert(micros[n - 1].0 == link);
        if n > 1 {
            assert(micros.take(n - 1)[0].0 == link);
            assert(has_link(micros.take(n - 1), link));
        }
    }
}

/// A list of serial numbers and granules as a map, later entries over earlier
/// ones.
pub open spec fn granule_map(v: Seq<(u32, i64)>) -> Map<u32, i64>
    decreases v.len(),
{
    if v.len() == 0 {
        Map::empty()
    } else {
        granule_map(v.drop_last()).insert(v.last().0, v.last().1)
    }
}

fn lookup(v: &Vec<(u32, i64)>, serial: u32) -> (r: Option<i64>)
    ensures
        match r {
            Some(g) => granule_map(v@).contains_key(serial) && granule_map(v@)[serial] == g,
            None => !granule_map(v@).contains_key(serial),
        },
{
    let mut i: usize = v.len();
    let ghost all = v@;
    assert(all.take(i as int) =~= all);
    while i > 0
        invariant
            i <= all.len(),
            all == v@,
            granule_map(all).contains_key(serial) == granule_map(all.take(i as int)).contains_key(
                serial,
            ),
            granule_map(all).contains_key(serial) ==> granule_map(all)[serial] == granule_map(
                all.take(i as int),
            )[serial],
        decreases i,
    {
        assert(all.take(i as int).drop_last() =~= all.take(i - 1));
        let (x, g) = v[i - 1];
        if x == serial {
            return Some(g);
        }
        i = i - 1;
    }
    None
}

impl OggDemuxer {
    fn read_tail(&self) -> (r: Vec<(u32, i64)>)
        ensures
            granule_map(r@) == tail_granules(self@.input),
    {
        let ghost s = self@.input;
        let n: usize = self.input.len();
        let mut out: Vec<(u32, i64)> = Vec::new();
        let mut p: usize = if n > TAIL {
            n - TAIL
        } else {
            0
        };
        assert(granule_map(out@) =~= Map::<u32, i64>::empty());
        while p < n && n - p >= 27
            invariant
                s == self.input@,
                n == s.len(),
                p <= n,
                tail_granules(s) == last_granules(s, p as int, granule_map(out@)),
            decreases n - p,
        {
            let mut next: usize = p + 1;
            if page::capture_at(self.input.as_slice(), p) {
                let n_segs: usize = self.input[p + 26] as usize;
                if n - p - 27 >= n_segs {
                    let table_end: usize = p + 27 + n_segs;
                    let body: usize = page::table_sum(self.input.as_slice(), p + 27, table_end);
                    if n - table_end >= body {
                        let granule: i64 = bytes::le_i64_at(self.input.as_slice(), p + 6);
                        let serial: u32 = bytes::le32_at(self.input.as_slice(), p + 14);
                        if granule >= 0 {
                            let ghost before = out@;
                            out.push((serial, granule));
                            assert(out@.drop_last() =~= before);
                        }
                        next = table_end + body;
                    }
                }
            }
            p = next;
        }
        out
    }

    /// What the stream at `k` has played at a granule.
    pub fn elapsed_at(&self, k: usize, granule: i64) -> (r: Option<Span>)
        requires
            self@.wf(),
            k < self@.states.len(),
        ensures
            r == elapsed_on(self@, k as int, granule),
    {
        assert(self.states@[k as int]@ == self@.states[k as int]);
        assert(self.streams@[k as int]@ == self@.streams[k as int]);
        let g: i64 = match self.states[k].pre_skip {
            Some(p) => if granule < 0 {
                granule
            } else if granule < p as i64 {
                0
            } else {
                granule - p as i64
            },
            None => granule,
        };
        if let Some(b) = self.bone(self.states[k].serial) {
            if b.granule_rate.numerator > 0 && b.granule_rate.denominator > 0 {
                let n: i64 = granule::theora_frame_no(g, b.granuleshift as u32);
                return Some(
                    (n, TimeBase::new(b.granule_rate.denominator, b.granule_rate.numerator)),
                );
            }
        }
        let tick: TimeBase = self.streams[k].time_base;
        match self.states[k].theora {
            Some(t) => match t.frame_count(g) {
                Some(n) => Some((n, tick)),
                None => if g >= 0 {
                    None
                } else {
                    Some((g, tick))
                },
            },
            None => Some((g, tick)),
        }
    }

    /// What each stream that has a page in the tail of the input has played
    /// at its end.
    pub fn tail_spans(&self) -> (r: Vec<Span>)
        requires
            self@.wf(),
        ensures
            r@ == tail_spans_of(self@, self@.streams.len() as int),
    {
        let last: Vec<(u32, i64)> = self.read_tail();
        let mut out: Vec<Span> = Vec::new();
        let mut k: usize = 0;
        while k < self.states.len()
            invariant
                k <= self.states@.len(),
                self@.wf(),
                granule_map(last@) == tail_granules(self@.input),
                out@ == tail_spans_of(self@, k as int),
            decreases self.states@.len() - k,
        {
            assert(self.states@[k as int]@ == self@.states[k as int]);
            if let Some(g) = lookup(&last, self.states[k].serial) {
                if let Some(span) = self.elapsed_at(k, g) {
                    out.push(span);
                }
            }
            k = k + 1;
        }
        out
    }

    /// What each stream has played at its last known page, with the chained
    /// link that it belongs to.
    pub fn link_spans(&self) -> (r: Vec<(u32, Span)>)
        requires
            self.wf(),
        ensures
            r@ == link_spans_of(self@, self@.streams.len() as int),
    {
        let mut out: Vec<(u32, Span)> = Vec::new();
        let mut k: usize = 0;
        while k < self.states.len()
            invariant
                k <= self.states@.len(),
                self.wf(),
                out@ == link_spans_of(self@, k as int),
            decreases self.states@.len() - k,
        {
            assert(self.states@[k as int]@ == self@.states[k as int]);
            if let Some(g) = self.index.last_granule(self.states[k].serial) {
                if let Some(span) = self.elapsed_at(k, g) {
                    out.push((self.states[k].link_index, span));
                }
            }
            k = k + 1;
        }
        out
    }

    /// Take the longest of what the streams have played, in microseconds, as
    /// the duration.
    pub fn populate_duration(&mut self, micros: &Vec<i64>)
        requires
            old(self).wf(),
        ensures
            final(self).wf(),
            final(self)@ == (Model { duration: longest(micros@), ..old(self)@ }),
            final(self)@.duration >= 0,
            forall|i: int|
                0 <= i < micros@.len() ==> #[trigger] micros@[i] <= final(self)@.duration,
            final(self)@.duration == 0 || micros@.contains(final(self)@.duration),
    {
        let ghost before = self@;
        let ghost all = micros@;
        let mut best: i64 = 0;
        let mut i: usize = 0;
        while i < micros.len()
            invariant
                i <= all.len(),
                all == micros@,
                best == longest(all.take(i as int)),
            decreases all.len() - i,
        {
            assert(all.take(i + 1).drop_last() =~= all.take(i as int));
            if micros[i] > best {
                best = micros[i];
            }
            i = i + 1;
        }
        assert(all.take(i as int) =~= all);
        self.duration = best;
        assert(self@ =~= Model { duration: longest(micros@), ..before });
        proof {
            timing::no_stream_outlasts_the_duration(micros@);
        }
    }

    /// Take what the streams have played, in microseconds, as the duration:
    /// links play one after the other, and a link lasts as long as its longest
    /// stream. Where that is nothing the duration stays as it is.
    pub fn populate_duration_from_index(&mut self, micros: &Vec<(u32, i64)>)
        requires
            old(self).wf(),
        ensures
            final(self).wf(),
            final(self)@ == (Model {
                duration: if links_in_sequence(micros@, micros@.len() as int) > 0 {
                    links_in_sequence(micros@, micros@.len() as int)
                } else {
                    old(self)@.duration
                },
                ..old(self)@
            }),
            forall|i: int|
                0 <= i < micros@.len() && (#[trigger] micros@[i]).1 > 0 ==> micros@[i].1
                    <= final(self)@.duration,
    {
        let ghost before = self@;
        let ghost all = micros@;
        let mut total: i64 = 0;
        let mut i: usize = 0;
        while i < micros.len()
            invariant
                i <= all.len(),
                all == micros@,
                total == links_in_sequence(all, i as int),
                total >= 0,
            decreases all.len() - i,
        {
            let link: u32 = micros[i].0;
            if !occurs(micros, i, link) {
                let most: i64 = longest_in(micros, link);
                if most > i64::MAX - total {
                    total = i64::MAX;
                } else {
                    total = total + most;
                }
            }
            i = i + 1;
        }
        if total > 0 {
            self.duration = total;
        }
        assert(self@ =~= Model {
            duration: if total > 0 {
                total
            } else {
                before.duration
            },
            ..before
        });
        assert forall|j: int| 0 <= j < micros@.len() && (#[trigger] micros@[j]).1 > 0 implies micros@[
            j
        ].1 <= self@.duration by {
            timing::no_stream_outlasts_the_links(micros@, j);
        }
    }

    /// What the Skeleton says about where the stream at `k` starts.
    pub fn start_anchor(&self, k: usize) -> (r: Option<StartAnchor>)
        requires
            self@.wf(),
            k < self@.states.len(),
        ensures
            r == anchor_of(self@, k as int),
    {
        assert(self.states@[k as int]@ == self@.states[k as int]);
        match &self.skel.skeleton {
            None => None,
            Some(sk) => match sk.bone_for_serial(self.states[k].serial) {
                None => None,
                Some(b) => if b.granule_rate.numerator > 0 && b.granule_rate.denominator > 0 {
                    Some(
                        StartAnchor {
                            basetime: sk.head.basetime,
                            basegranule: b.basegranule,
                            granule_rate: b.granule_rate,
                        },
                    )
                } else {
                    None
                },
            },
        }
    }

    /// Let the stream at `k` start at `ticks` of its time base.
    pub fn set_start_time(&mut self, k: usize, ticks: i64)
        requires
            old(self).wf(),
            k < old(self)@.streams.len(),
        ensures
            final(self).wf(),
            final(self)@ == (Model {
                streams: old(self)@.streams.update(
                    k as int,
                    StreamView { start_time: Some(ticks), ..old(self)@.streams[k as int] },
                ),
                ..old(self)@
            }),
    {
        let ghost before = self@;
        let ghost was = self.streams@[k as int]@;
        assert(was == before.streams[k as int]);
        let stream: &mut media::StreamInfo = &mut self.streams[k];
        stream.start_time = Some(ticks);
        proof {
            let now = self.streams@[k as int]@;
            assert(self@.streams =~= before.streams.update(k as int, now));
            assert forall|i: int| 0 <= i < self@.streams.len() implies (
            #[trigger] self@.streams[i]).index == i by {
                assert(before.streams[i].index == i);
            }
            assert(self@ =~= Model { streams: self@.streams, ..before });
        }
    }
}

fn occurs(micros: &Vec<(u32, i64)>, n: usize, link: u32) -> (r: bool)
    requires
        n <= micros@.len(),
    ensures
        r == has_link(micros@.take(n as int), link),
{
    let ghost part = micros@.take(n as int);
    let mut i: usize = 0;
    while i < n
        invariant
            i <= n <= micros@.len(),
            part == micros@.take(n as int),
            forall|j: int| 0 <= j < i ==> (#[trigger] part[j]).0 != link,
        decreases n - i,
    {
        assert(part[i as int] == micros@[i as int]);
        if micros[i].0 == link {
            return true;
        }
        i = i + 1;
    }
    false
}

fn longest_in(micros: &Vec<(u32, i64)>, link: u32) -> (r: i64)
    ensures
        r == longest_of_link(micros@, link),
        r >= 0,
{
    let ghost all = micros@;
    let mut best: i64 = 0;
    let mut i: usize = 0;
    while i < micros.len()
        invariant
            i <= all.len(),
            all == micros@,
            best == longest_of_link(all.take(i as int), link),
            best >= 0,
        decreases all.len() - i,
    {
        assert(all.take(i + 1).drop_last() =~= all.take(i as int));
        if micros[i].0 == link && micros[i].1 > best {
            best = micros[i].1;
        }
        i = i + 1;
    }
    assert(all.take(i as int) =~= all);
    best
}

} // verus!
