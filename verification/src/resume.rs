//! Seeking so that decoding can resume: back by the packets that a decoder
//! needs first, or back to a keyframe.
use crate::bytes;
use crate::demux::{Model, OggDemuxer, SeekCounts};
use crate::error::Error;
use crate::granule;
use crate::media;
use crate::media::TimeBase;
use crate::page;
use crate::process;
use crate::seek;
use crate::seek_index;
use crate::skeleton::Track;
use crate::theora::TheoraGranule;
use vstd::prelude::*;

verus! {

/// How many packets end in a segment table.
pub open spec fn ends_in(lacing: Seq<u8>) -> int
    decreases lacing.len(),
{
    if lacing.len() == 0 {
        0
    } else {
        ends_in(lacing.drop_last()) + if lacing.last() < 255 {
            1int
        } else {
            0int
        }
    }
}

/// The greater of two numbers.
pub open spec fn greatest(a: int, b: int) -> int {
    if a >= b {
        a
    } else {
        b
    }
}

/// How far `cursor` is before `until`.
pub open spec fn distance(cursor: int, until: int) -> int {
    if cursor < until {
        until - cursor
    } else {
        0
    }
}

/// The pages of `serial` from `cursor` to `until` on which content packets
/// end, with how many do: a walk from page to page that ends at anything
/// else. `seen` packets of the stream have ended before `cursor`, and the
/// first `headers` of all are headers.
pub open spec fn content_pages(
    s: Seq<u8>,
    cursor: int,
    until: int,
    serial: u32,
    headers: u32,
    seen: u32,
) -> Seq<(u64, u32)>
    decreases distance(cursor, until),
    via content_pages_end
{
    if cursor < 0 || cursor >= until || !page::is_capture(s, cursor) || !page::has_table(
        s,
        cursor,
    ) {
        Seq::empty()
    } else {
        let next = page::page_end(s, cursor);
        if page::serial_at(s, cursor) == serial {
            let now = seen.saturating_add(ends_in(page::lacing_at(s, cursor)) as u32);
            let rest = content_pages(s, next, until, serial, headers, now);
            if now > headers {
                let here = (now - greatest(seen as int, headers as int)) as u32;
                seq![(cursor as u64, here)] + rest
            } else {
                rest
            }
        } else {
            content_pages(s, next, until, serial, headers, seen)
        }
    }
}

#[via_fn]
proof fn content_pages_end(
    s: Seq<u8>,
    cursor: int,
    until: int,
    serial: u32,
    headers: u32,
    seen: u32,
) {
    if 0 <= cursor && page::has_table(s, cursor) {
        page::body_len_nonneg(page::lacing_at(s, cursor));
    }
}

/// The last page from which at least `need` packets end before the end of the
/// list.
pub open spec fn resume_page(pages: Seq<(u64, u32)>, need: int) -> Option<u64>
    decreases pages.len(),
{
    if pages.len() == 0 {
        None
    } else if pages.last().1 >= need {
        Some(pages.last().0)
    } else {
        resume_page(pages.drop_last(), need - pages.last().1)
    }
}

/// How many packets end on pages of a list from offset `from` on.
pub open spec fn packets_from(pages: Seq<(u64, u32)>, from: u64) -> int
    decreases pages.len(),
{
    if pages.len() == 0 {
        0
    } else {
        packets_from(pages.drop_last(), from) + if pages.last().0 >= from {
            pages.last().1 as int
        } else {
            0
        }
    }
}

/// Pages collected stand in the order of the input, before `until`.
pub proof fn content_pages_are_in_order(
    s: Seq<u8>,
    cursor: int,
    until: int,
    serial: u32,
    headers: u32,
    seen: u32,
)
    requires
        until <= u64::MAX,
    ensures
        ({
            let pages = content_pages(s, cursor, until, serial, headers, seen);
            &&& forall|i: int|
                0 <= i < pages.len() ==> {
                    &&& cursor <= (#[trigger] pages[i]).0 < until
                    &&& page::is_capture(s, pages[i].0 as int)
                    &&& pages[i].0 + 27 <= s.len()
                    &&& page::serial_at(s, pages[i].0 as int) == serial
                }
            &&& forall|i: int, j: int|
                0 <= i < j < pages.len() ==> (#[trigger] pages[i]).0 < (#[trigger] pages[j]).0
        }),
    decreases distance(cursor, until),
{
    if 0 <= cursor && cursor < until && page::is_capture(s, cursor) && page::has_table(s, cursor) {
        page::body_len_nonneg(page::lacing_at(s, cursor));
        let next = page::page_end(s, cursor);
        let now = if page::serial_at(s, cursor) == serial {
            seen.saturating_add(ends_in(page::lacing_at(s, cursor)) as u32)
        } else {
            seen
        };
        content_pages_are_in_order(s, next, until, serial, headers, now);
        let rest = content_pages(s, next, until, serial, headers, now);
        let pages = content_pages(s, cursor, until, serial, headers, seen);
        if page::serial_at(s, cursor) == serial && now > headers {
            assert(forall|i: int| 0 < i < pages.len() ==> #[trigger] pages[i] == rest[i - 1]);
        } else {
            assert(pages == rest);
        }
    }
}

/// The page chosen is in the list, and from it on at least `need` packets
/// end; where no page is chosen all of them together are too few.
pub proof fn resume_page_has_enough(pages: Seq<(u64, u32)>, need: int)
    requires
        need > 0,
        forall|i: int, j: int|
            0 <= i < j < pages.len() ==> (#[trigger] pages[i]).0 < (#[trigger] pages[j]).0,
    ensures
        match resume_page(pages, need) {
            Some(off) => {
                &&& exists|i: int| 0 <= i < pages.len() && (#[trigger] pages[i]).0 == off
                &&& packets_from(pages, off) >= need
            },
            None => packets_from(pages, 0) < need,
        },
    decreases pages.len(),
{
    if pages.len() > 0 {
        let init = pages.drop_last();
        let last = pages.last();
        if last.1 >= need {
            packets_are_not_negative(init, last.0);
            assert(pages[pages.len() - 1].0 == last.0);
        } else {
            assert forall|i: int, j: int| 0 <= i < j < init.len() implies (
            #[trigger] init[i]).0 < (#[trigger] init[j]).0 by {
                assert(pages[i].0 < pages[j].0);
            }
            resume_page_has_enough(init, need - last.1);
            if let Some(off) = resume_page(init, need - last.1) {
                let i = choose|i: int| 0 <= i < init.len() && (#[trigger] init[i]).0 == off;
                assert(pages[i].0 == off);
                assert(pages[i].0 < pages[pages.len() - 1].0);
            }
        }
    }
}

proof fn packets_are_not_negative(pages: Seq<(u64, u32)>, from: u64)
    ensures
        packets_from(pages, from) >= 0,
    decreases pages.len(),
{
    if pages.len() > 0 {
        packets_are_not_negative(pages.drop_last(), from);
    }
}

/// The number that the track description of a stream gives, 0 without one.
pub open spec fn preroll_of(m: Model, serial: u32) -> u32 {
    match process::bone_of(m, serial) {
        Some(b) => b.preroll,
        None => 0,
    }
}

/// The number of header packets that the track description of a stream gives,
/// 0 without one.
pub open spec fn num_headers_of(m: Model, serial: u32) -> u32 {
    match process::bone_of(m, serial) {
        Some(b) => b.num_headers,
        None => 0,
    }
}

/// The demuxer after a seek and a move back by the stream's preroll. Where
/// too few content packets come before the page reached it is not moved.
pub open spec fn prerolled(m: Model, index: u32, pts: i64) -> (Model, Result<i64, Error>) {
    if index >= m.streams.len() {
        (m, Err(Error::NoStreamForIndex(index)))
    } else {
        let serial = m.states[index as int].serial;
        match seek::seeked(m, index, pts) {
            (after, Err(e)) => (after, Err(e)),
            (after, Ok(g)) => {
                let pages = content_pages(
                    m.input,
                    0,
                    after.pos as int,
                    serial,
                    num_headers_of(m, serial),
                    0,
                );
                if preroll_of(m, serial) == 0 {
                    (after, Ok(g))
                } else {
                    match resume_page(pages, preroll_of(m, serial) as int) {
                        None => (after, Ok(g)),
                        Some(off) => (
                            Model {
                                counts: SeekCounts {
                                    preroll_seeks: after.counts.preroll_seeks.saturating_add(1),
                                    ..after.counts
                                },
                                ..seek::flushed(after, off)
                            },
                            Ok(g),
                        ),
                    }
                }
            },
        }
    }
}

/// The timestamp of the keyframe that `granule` counts from, where the track
/// description or the identification header tells.
pub open spec fn keyframe_pts(
    bone: Option<Track>,
    gran: Option<TheoraGranule>,
    shift: u32,
    tick: TimeBase,
    granule: i64,
) -> Option<i64> {
    match bone {
        Some(b) => if b.granule_rate.numerator <= 0 || b.granule_rate.denominator <= 0 {
            None
        } else {
            Some(
                media::rescaled(
                    granule::keyframe_half(granule as int, shift as nat) as i64,
                    TimeBase {
                        num: b.granule_rate.denominator,
                        den: b.granule_rate.numerator,
                    },
                    tick,
                ),
            )
        },
        None => match gran {
            Some(g) => g.keyframe_spec(granule as int),
            None => None,
        },
    }
}

/// The demuxer after a seek and, where the page reached is no keyframe, a
/// second seek to the keyframe that its granule counts from.
pub open spec fn keyframed(m: Model, index: u32, pts: i64) -> (Model, Result<i64, Error>) {
    if index >= m.streams.len() {
        (m, Err(Error::NoStreamForIndex(index)))
    } else {
        let st = m.states[index as int];
        let bone = process::bone_of(m, st.serial);
        let shift = process::granule_shift(m, st.serial, st.theora);
        match seek::seeked(m, index, pts) {
            (after, Err(e)) => (after, Err(e)),
            (after, Ok(g)) => if granule::is_keyframe(g as int, shift as nat) {
                (after, Ok(g))
            } else {
                match keyframe_pts(
                    bone,
                    st.theora,
                    shift,
                    m.streams[index as int].time_base,
                    g,
                ) {
                    Some(t) => seek::seeked(after, index, t),
                    None => (after, Ok(g)),
                }
            },
        }
    }
}

/// Whether two demuxers agree on all that a seek leaves alone: the input, the
/// streams, the tags, the damage, the links and the Skeleton.
pub open spec fn same_content(a: Model, b: Model) -> bool {
    &&& a.input == b.input
    &&& a.streams == b.streams
    &&& a.states.len() == b.states.len()
    &&& a.tags == b.tags
    &&& a.ledger == b.ledger
    &&& a.skel.skeleton == b.skel.skeleton
    &&& a.skel.ended == b.skel.ended
    &&& a.link == b.link
    &&& a.duration == b.duration
}

proof fn flushing_keeps_content(m: Model, pos: u64)
    ensures
        same_content(m, seek::flushed(m, pos)),
{
}

proof fn searching_keeps_content(m: Model, i: int, key: granule::SeekKey, known: Option<int>)
    ensures
        same_content(m, seek::search_attempt(m, i, key, known).0),
{
    let q = seek::Quest { serial: m.states[i].serial, key };
    let r = seek::searched(m.input, q, m.index, known);
    let met = Model { index: r.index, ..m };
    if let Some(p) = r.best {
        flushing_keeps_content(met, p as u64);
    }
}

proof fn indexing_keeps_content(m: Model, i: int, pts: i64)
    ensures
        same_content(m, seek::index_attempt(m, i, pts).0),
{
    let checked = Model { segment_ok: Some(seek::segment_check(m)), ..m };
    if let Some((off, _, _)) = seek::index_target(m, m.states[i].serial, pts, m.streams[i].time_base) {
        flushing_keeps_content(checked, off);
    }
}

/// A seek leaves the content alone.
pub proof fn seeking_leaves_the_rest_alone(m: Model, index: u32, pts: i64)
    ensures
        same_content(m, seek::seeked(m, index, pts).0),
{
    let i = index as int;
    indexing_keeps_content(m, i, pts);
    let tried = seek::index_attempt(m, i, pts).0;
    if let Ok(key) = seek::seek_key(m, i, pts) {
        searching_keeps_content(tried, i, key, None);
        if let Some((g, off)) = seek_index::floor(tried.index, tried.states[i].serial, key) {
            flushing_keeps_content(tried, off);
            searching_keeps_content(seek::flushed(tried, off), i, key, Some(off as int));
        }
    }
}

/// Moving back for preroll does not change what the seek returns, and never
/// moves forward.
pub proof fn preroll_only_moves_back(m: Model, index: u32, pts: i64)
    requires
        index < m.streams.len(),
    ensures
        prerolled(m, index, pts).1 == seek::seeked(m, index, pts).1,
        prerolled(m, index, pts).1 is Ok ==> prerolled(m, index, pts).0.pos <= seek::seeked(
            m,
            index,
            pts,
        ).0.pos,
        ({
            let serial = m.states[index as int].serial;
            let after = seek::seeked(m, index, pts).0;
            let pages = content_pages(
                m.input,
                0,
                after.pos as int,
                serial,
                num_headers_of(m, serial),
                0,
            );
            prerolled(m, index, pts).1 is Ok && prerolled(m, index, pts).0.pos < after.pos
                ==> packets_from(pages, prerolled(m, index, pts).0.pos) >= preroll_of(m, serial)
        }),
{
    let serial = m.states[index as int].serial;
    let after = seek::seeked(m, index, pts).0;
    let headers = num_headers_of(m, serial);
    let pages = content_pages(m.input, 0, after.pos as int, serial, headers, 0);
    content_pages_are_in_order(m.input, 0, after.pos as int, serial, headers, 0);
    let need = preroll_of(m, serial) as int;
    if need > 0 {
        resume_page_has_enough(pages, need);
        if let Some(off) = resume_page(pages, need) {
            let i = choose|i: int| 0 <= i < pages.len() && (#[trigger] pages[i]).0 == off;
            assert(0 <= pages[i].0 < after.pos);
        }
    }
}

fn count_ends(s: &[u8], from: usize, to: usize) -> (r: u32)
    requires
        from <= to <= s.len(),
        to - from <= 255,
    ensures
        r == ends_in(s@.subrange(from as int, to as int)),
{
    let mut r: u32 = 0;
    let mut i: usize = from;
    while i < to
        invariant
            from <= i <= to <= s.len(),
            to - from <= 255,
            r == ends_in(s@.subrange(from as int, i as int)),
            r <= i - from,
        decreases to - i,
    {
        assert(s@.subrange(from as int, i + 1).drop_last() =~= s@.subrange(from as int, i as int));
        if s[i] < 255 {
            r = r + 1;
        }
        i = i + 1;
    }
    r
}

fn pick_page(pages: &Vec<(u64, u32)>, need: u32) -> (r: Option<u64>)
    requires
        need > 0,
    ensures
        r == resume_page(pages@, need as int),
{
    let ghost all = pages@;
    let mut left: u32 = need;
    let mut i: usize = pages.len();
    assert(all.take(i as int) =~= all);
    while i > 0
        invariant
            i <= all.len(),
            all == pages@,
            left > 0,
            resume_page(all, need as int) == resume_page(all.take(i as int), left as int),
        decreases i,
    {
        let (off, ended) = pages[i - 1];
        assert(all.take(i as int).drop_last() =~= all.take(i - 1));
        if ended >= left {
            return Some(off);
        }
        left = left - ended;
        i = i - 1;
    }
    None
}

impl OggDemuxer {
    /// Serial number of the stream with this index.
    pub fn serial_for_stream(&self, index: u32) -> (r: Option<u32>)
        requires
            self@.wf(),
        ensures
            r == (if index < self@.streams.len() {
                Some(self@.states[index as int].serial)
            } else {
                None
            }),
    {
        if index as u64 >= self.states.len() as u64 {
            return None;
        }
        assert(self.states@[index as int]@ == self@.states[index as int]);
        Some(self.states[index as usize].serial)
    }

    /// The stream's preroll.
    pub fn preroll_for_serial(&self, serial: u32) -> (r: u32)
        ensures
            r == preroll_of(self@, serial),
    {
        match self.bone(serial) {
            Some(b) => b.preroll,
            None => 0,
        }
    }

    /// The stream's declared number of header packets.
    pub fn num_headers_for_serial(&self, serial: u32) -> (r: u32)
        ensures
            r == num_headers_of(self@, serial),
    {
        match self.bone(serial) {
            Some(b) => b.num_headers,
            None => 0,
        }
    }

    /// The pages of `serial` before `until` on which content packets end, with
    /// how many do.
    pub fn collect_stream_pages_until(&self, serial: u32, until: u64, headers: u32) -> (r: Vec<
        (u64, u32),
    >)
        ensures
            r@ == content_pages(self@.input, 0, until as int, serial, headers, 0),
    {
        let ghost s = self@.input;
        let n: usize = self.input.len();
        let mut out: Vec<(u64, u32)> = Vec::new();
        let mut seen: u32 = 0;
        let mut cursor: usize = 0;
        let ghost goal = content_pages(s, 0, until as int, serial, headers, 0);
        while (cursor as u64) < until
            invariant_except_break
                goal == out@ + content_pages(s, cursor as int, until as int, serial, headers, seen),
            invariant
                s == self.input@,
                n == s.len(),
                cursor <= n,
            ensures
                goal == out@,
            decreases n - cursor,
        {
            if !page::capture_at(self.input.as_slice(), cursor) || n - cursor < 27 {
                assert(out@ + Seq::<(u64, u32)>::empty() =~= out@);
                break;
            }
            let n_segs: usize = self.input[cursor + 26] as usize;
            if n - cursor - 27 < n_segs {
                assert(out@ + Seq::<(u64, u32)>::empty() =~= out@);
                break;
            }
            let table_end: usize = cursor + 27 + n_segs;
            let body: usize = page::table_sum(self.input.as_slice(), cursor + 27, table_end);
            let ended: u32 = count_ends(self.input.as_slice(), cursor + 27, table_end);
            let ghost before = out@;
            let ghost rest = content_pages(
                s,
                page::page_end(s, cursor as int),
                until as int,
                serial,
                headers,
                if page::serial_at(s, cursor as int) == serial {
                    seen.saturating_add(ended)
                } else {
                    seen
                },
            );
            if bytes::le32_at(self.input.as_slice(), cursor + 14) == serial {
                let was: u32 = seen;
                seen = seen.saturating_add(ended);
                if seen > headers {
                    let from: u32 = if was >= headers {
                        was
                    } else {
                        headers
                    };
                    out.push((cursor as u64, seen - from));
                    assert(before + (seq![(cursor as u64, (seen - from) as u32)] + rest)
                        =~= out@ + rest);
                }
            }
            assert(goal == out@ + rest);
            if n - table_end <= body {
                proof {
                    let end = page::page_end(s, cursor as int);
                    assert(rest =~= Seq::<(u64, u32)>::empty());
                    assert(out@ + rest =~= out@);
                }
                break;
            }
            cursor = table_end + body;
            if !((cursor as u64) < until) {
                assert(out@ + Seq::<(u64, u32)>::empty() =~= out@);
            }
        }
        out
    }

    /// Seek to `pts`, then back to an earlier page so that at least the
    /// stream's preroll of content packets comes before the page reached.
    /// Returns what the plain seek returns.
    pub fn seek_to_with_preroll(&mut self, index: u32, pts: i64) -> (r: Result<i64, Error>)
        requires
            old(self).wf(),
        ensures
            final(self).wf(),
            (final(self)@, r) == prerolled(old(self)@, index, pts),
    {
        let ghost before = self@;
        let serial: u32 = match self.serial_for_stream(index) {
            Some(s) => s,
            None => {
                return Err(Error::NoStreamForIndex(index));
            },
        };
        let preroll: u32 = self.preroll_for_serial(serial);
        let headers: u32 = self.num_headers_for_serial(serial);
        let reached: i64 = match self.seek_to(index, pts) {
            Ok(g) => g,
            Err(e) => {
                return Err(e);
            },
        };
        proof {
            seeking_leaves_the_rest_alone(before, index, pts);
        }
        if preroll == 0 {
            return Ok(reached);
        }
        let pages: Vec<(u64, u32)> = self.collect_stream_pages_until(serial, self.pos, headers);
        if let Some(off) = pick_page(&pages, preroll) {
            self.flush_to(off);
            self.counts.preroll_seeks = self.counts.preroll_seeks.saturating_add(1);
            assert(self@ =~= prerolled(before, index, pts).0);
        }
        Ok(reached)
    }

    /// Seek to `pts`, and from there back to the keyframe that the page
    /// reached counts from. Returns the granule reached.
    pub fn seek_to_keyframe(&mut self, index: u32, pts: i64) -> (r: Result<i64, Error>)
        requires
            old(self).wf(),
        ensures
            final(self).wf(),
            (final(self)@, r) == keyframed(old(self)@, index, pts),
    {
        let serial: u32 = match self.serial_for_stream(index) {
            Some(s) => s,
            None => {
                return Err(Error::NoStreamForIndex(index));
            },
        };
        let bone: Option<Track> = self.bone(serial);
        assert(self.states@[index as int]@ == self@.states[index as int]);
        assert(self.streams@[index as int]@ == self@.streams[index as int]);
        let gran: Option<TheoraGranule> = self.states[index as usize].theora;
        let shift: u32 = match bone {
            Some(b) => b.granuleshift as u32,
            None => match gran {
                Some(g) => g.shift,
                None => 0,
            },
        };
        let tick: TimeBase = self.streams[index as usize].time_base;
        let reached: i64 = match self.seek_to(index, pts) {
            Ok(g) => g,
            Err(e) => {
                return Err(e);
            },
        };
        if granule::granule_is_keyframe(reached, shift) {
            return Ok(reached);
        }
        let target: i64 = match bone {
            Some(b) => {
                let num: i64 = b.granule_rate.numerator;
                let den: i64 = b.granule_rate.denominator;
                if num <= 0 || den <= 0 {
                    return Ok(reached);
                }
                proof {
                    granule::halves_of_granule(reached as u64, shift);
                }
                let keyframe: i64 = ((reached as u64) >> shift) as i64;
                TimeBase::new(den, num).rescale(keyframe, tick)
            },
            None => match gran {
                Some(g) => match g.keyframe_index(reached) {
                    Some(k) => k,
                    None => {
                        return Ok(reached);
                    },
                },
                None => {
                    return Ok(reached);
                },
            },
        };
        self.seek_to(index, target)
    }
}

} // verus!
