//! What can be asked of the demuxer.
use crate::comment;
use crate::damage::DamageEvent;
use crate::demux;
use crate::demux::{Model, OggDemuxer};
use crate::media;
use crate::media::StreamInfo;
use crate::page;
use crate::page::Page;
use crate::process;
use crate::reassembly;
use crate::register;
use crate::seek_index;
use crate::skeleton::Skeleton;
use vstd::prelude::*;

verus! {

/// Whether a page that begins a stream stands complete at `p`.
pub open spec fn is_bos_at(s: Seq<u8>, p: int) -> bool {
    page::is_capture(s, p) && page::is_complete(s, p) && page::page_at(s, p).is_first()
}

/// The first packet of the page at `p`.
pub open spec fn first_at(s: Seq<u8>, p: int) -> Option<Seq<u8>> {
    let page = page::page_at(s, p);
    reassembly::cut(page.lacing, page.data).first()
}

/// The first packets of all pages before `end` that begin a stream.
pub open spec fn first_packets_before(s: Seq<u8>, end: int) -> Seq<Seq<u8>>
    decreases end,
{
    if end <= 0 {
        Seq::empty()
    } else {
        let before = first_packets_before(s, end - 1);
        if is_bos_at(s, end - 1) && first_at(s, end - 1) is Some {
            before.push(first_at(s, end - 1)->0)
        } else {
            before
        }
    }
}

/// Every page of the input that begins a stream has its first packet among
/// those that the codec registry is asked about.
pub proof fn every_first_packet_is_listed(s: Seq<u8>, end: int, p: int)
    requires
        0 <= p < end,
        is_bos_at(s, p),
        first_at(s, p) is Some,
    ensures
        first_packets_before(s, end).contains(first_at(s, p)->0),
    decreases end,
{
    let before = first_packets_before(s, end - 1);
    let all = first_packets_before(s, end);
    if p < end - 1 {
        every_first_packet_is_listed(s, end - 1, p);
        let i = choose|i: int| 0 <= i < before.len() && before[i] == first_at(s, p)->0;
        assert(all[i] == first_at(s, p)->0);
    } else {
        assert(all[all.len() - 1] == first_at(s, p)->0);
    }
}

/// The first packets of all pages of `input` that begin a stream: what a codec
/// registry can be asked about.
pub fn first_packets(input: &[u8]) -> (r: Vec<Vec<u8>>)
    ensures
        reassembly::contents(r@) == first_packets_before(input@, input@.len() as int),
{
    let mut out: Vec<Vec<u8>> = Vec::new();
    let n: usize = input.len();
    let mut i: usize = 0;
    assert(reassembly::contents(out@) =~= Seq::<Seq<u8>>::empty());
    while i < n
        invariant
            i <= n,
            n == input@.len(),
            reassembly::contents(out@) == first_packets_before(input@, i as int),
        decreases n - i,
    {
        if page::capture_at(input, i) && n - i >= 27 {
            let n_segs: usize = input[i + 26] as usize;
            if n - i - 27 >= n_segs {
                let body: usize = page::table_sum(input, i + 27, i + 27 + n_segs);
                if n - i - 27 - n_segs >= body {
                    let found: Page = Page::unverified(input, i);
                    if found.is_first() {
                        if let Some(first) = register::first_packet(&found) {
                            let ghost before = reassembly::contents(out@);
                            out.push(first);
                            assert(reassembly::contents(out@) =~= before.push(first@));
                        }
                    }
                }
            }
        }
        i = i + 1;
    }
    out
}

/// Confidence that bytes are the start of an Ogg bitstream: 100 where they
/// start with `OggS`, and else 0.
pub fn probe(buf: &[u8]) -> (r: u8)
    ensures
        r == if page::is_capture(buf@, 0) {
            100u8
        } else {
            0u8
        },
{
    if page::capture_at(buf, 0) {
        100
    } else {
        0
    }
}

/// The number of tracks: the content streams, and the Skeleton.
pub open spec fn track_count(m: Model) -> u32 {
    let content = m.streams.len() as u32;
    if m.skel.skeleton is Some {
        content.saturating_add(1)
    } else {
        content
    }
}

/// The serial number of track `i`. The Skeleton comes first.
pub open spec fn track_serial(m: Model, i: u32) -> Option<u32> {
    if i >= track_count(m) {
        None
    } else {
        match m.skeleton_serial() {
            Some(sk) => if i == 0 {
                Some(sk)
            } else {
                stream_serial_of(m, (i - 1) as u32)
            },
            None => stream_serial_of(m, i),
        }
    }
}

/// The serial number of stream `i`.
pub open spec fn stream_serial_of(m: Model, i: u32) -> Option<u32> {
    if i < m.streams.len() {
        Some(m.states[i as int].serial)
    } else {
        None
    }
}

/// The track of a serial number.
pub open spec fn track_of(m: Model, serial: u32) -> Option<u32> {
    if m.skeleton_serial() == Some(serial) {
        Some(0)
    } else {
        match demux::slot(m.states, serial) {
            Some(k) => if m.skel.skeleton is Some {
                Some((k + 1) as u32)
            } else {
                Some(k as u32)
            },
            None => None,
        }
    }
}

/// Track numbers and serial numbers lead to each other.
pub proof fn tracks_and_serials_lead_to_each_other(m: Model, i: u32)
    requires
        m.wf(),
        i < track_count(m),
    ensures
        track_serial(m, i) is Some,
        track_of(m, track_serial(m, i)->0) == Some(i),
{
    let serial = track_serial(m, i)->0;
    demux::serials_are_few(m.states);
    if m.skel.skeleton is Some {
        skeleton_has_room(m);
        if i > 0 {
            let k = i - 1;
            assert(m.skeleton_serial() != Some(m.states[k].serial));
            demux::slot_is(m.states, serial, k);
        }
    } else {
        demux::slot_is(m.states, serial, i as int);
    }
}

/// There is room for the Skeleton among the tracks.
proof fn skeleton_has_room(m: Model)
    requires
        m.wf(),
        m.skel.skeleton is Some,
    ensures
        m.states.len() <= u32::MAX,
{
    let sk = m.skeleton_serial()->0;
    let st = demux::StateView { serial: sk, ..arbitrary() };
    assert forall|i: int| 0 <= i < m.states.len() implies (#[trigger] m.states[i]).serial
        != st.serial by {
        assert(m.skeleton_serial() != Some(m.states[i].serial));
    }
    demux::a_new_serial_has_room(m.states, st);
}

/// The seek index never knows more pages than the input has bytes.
pub proof fn index_is_no_larger_than_the_input(m: Model)
    requires
        m.wf(),
        m.index.finite(),
    ensures
        m.index.len() <= m.input.len(),
{
    let f = |e: seek_index::Entry| e.2 as int;
    let offsets = m.index.map(f);
    assert(vstd::relations::injective_on(f, m.index)) by {
        assert forall|a: seek_index::Entry, b: seek_index::Entry|
            m.index.contains(a) && m.index.contains(b) && #[trigger] f(a) == #[trigger] f(
                b,
            ) implies a == b by {
            assert(demux::entry_holds(m.input, a));
            assert(demux::entry_holds(m.input, b));
        }
    }
    vstd::set_lib::lemma_map_size(m.index, offsets, f);
    let range = vstd::set_lib::set_int_range(0, m.input.len() as int);
    vstd::set_lib::lemma_int_range(0, m.input.len() as int);
    assert forall|x: int| offsets.contains(x) implies range.contains(x) by {
        let e = choose|e: seek_index::Entry| m.index.contains(e) && f(e) == x;
        assert(demux::entry_holds(m.input, e));
    }
    vstd::set_lib::lemma_len_subset(offsets, range);
}

impl OggDemuxer {
    /// Name of the container format.
    pub fn format_name(&self) -> (r: &'static str)
        ensures
            r@ == "ogg"@,
    {
        "ogg"
    }

    /// The content streams.
    pub fn streams(&self) -> (r: &Vec<StreamInfo>)
        ensures
            media::views(r@) == self@.streams,
    {
        &self.streams
    }

    /// The tags of all streams.
    pub fn metadata(&self) -> (r: &Vec<(String, String)>)
        ensures
            comment::tags(r@) == self@.tags,
    {
        &self.tags
    }

    /// The duration in microseconds, where it is known.
    pub fn duration_micros(&self) -> (r: Option<i64>)
        ensures
            r == (if self@.duration > 0 {
                Some(self@.duration)
            } else {
                None
            }),
    {
        if self.duration > 0 {
            Some(self.duration)
        } else {
            None
        }
    }

    /// Forget what the codec registry said, so that streams found from now on
    /// are identified by the built-in magics.
    pub fn forget_answers(&mut self)
        requires
            old(self).wf(),
        ensures
            final(self).wf(),
            final(self)@ == (Model { answers: Seq::empty(), ..old(self)@ }),
    {
        let ghost before = self@;
        self.answers = Vec::new();
        assert(self@.answers =~= Seq::empty());
        assert(self@ =~= Model { answers: Seq::empty(), ..before });
    }

    /// What the Skeleton bitstream says, where there is one.
    pub fn skeleton(&self) -> (r: Option<&Skeleton>)
        ensures
            (match r {
                Some(sk) => Some(sk@),
                None => None,
            }) == self@.skel.skeleton,
    {
        match &self.skel.skeleton {
            Some(sk) => Some(sk),
            None => None,
        }
    }

    /// Number of pages in the seek index.
    pub fn seek_index_len(&self) -> (r: usize)
        requires
            self.wf(),
        ensures
            r == self@.index.len(),
    {
        proof {
            assert(self@.index.finite());
            index_is_no_larger_than_the_input(self@);
        }
        self.index.len()
    }

    /// Number of page losses noticed.
    pub fn hole_count(&self) -> (r: u64)
        ensures
            r == self@.ledger.holes,
    {
        self.ledger.holes
    }

    /// Number of `continued` bits that contradicted what was pending.
    pub fn framing_error_count(&self) -> (r: u64)
        ensures
            r == self@.ledger.framing_errors,
    {
        self.ledger.framing_errors
    }

    /// Number of times that something other than a page was skipped.
    pub fn resync_count(&self) -> (r: u64)
        ensures
            r == self@.ledger.resyncs,
    {
        self.ledger.resyncs
    }

    /// Number of serial numbers used twice.
    pub fn duplicate_serial_count(&self) -> (r: u64)
        ensures
            r == self@.ledger.duplicate_serials,
    {
        self.ledger.duplicate_serials
    }

    /// The first pieces of damage noticed, in order.
    pub fn damage_events(&self) -> (r: &Vec<DamageEvent>)
        ensures
            r@ == self@.ledger.events,
    {
        &self.ledger.events
    }

    /// Number of pieces of damage noticed.
    pub fn damage_event_total(&self) -> (r: u64)
        ensures
            r == self@.ledger.total,
    {
        self.ledger.total
    }

    /// Number of chained links met.
    pub fn link_count(&self) -> (r: u32)
        ensures
            r == if self@.states.len() == 0 {
                0
            } else {
                self@.link.saturating_add(1)
            },
    {
        if self.states.len() == 0 {
            0
        } else {
            self.link.saturating_add(1)
        }
    }

    /// The chained link that a stream belongs to.
    pub fn stream_link_index(&self, index: u32) -> (r: Option<u32>)
        requires
            self@.wf(),
        ensures
            r == (if index < self@.streams.len() {
                Some(self@.states[index as int].link_index)
            } else {
                None
            }),
    {
        if index as u64 >= self.states.len() as u64 {
            return None;
        }
        assert(self.states@[index as int]@ == self@.states[index as int]);
        Some(self.states[index as usize].link_index)
    }

    /// The serial number of a stream.
    pub fn stream_serial(&self, index: u32) -> (r: Option<u32>)
        requires
            self@.wf(),
        ensures
            r == stream_serial_of(self@, index),
    {
        self.serial_for_stream(index)
    }

    /// How many low granule bits of a stream count from a keyframe.
    pub fn stream_granuleshift(&self, index: u32) -> (r: Option<u8>)
        requires
            self@.wf(),
        ensures
            r == (if index < self@.streams.len() {
                let st = self@.states[index as int];
                Some(process::granule_shift(self@, st.serial, st.theora) as u8)
            } else {
                None
            }),
    {
        if index as u64 >= self.states.len() as u64 {
            return None;
        }
        let k: usize = index as usize;
        assert(self.states@[k as int]@ == self@.states[k as int]);
        match self.bone(self.states[k].serial) {
            Some(b) => Some(b.granuleshift),
            None => match self.states[k].theora {
                Some(g) => Some(g.shift as u8),
                None => Some(0),
            },
        }
    }

    /// Number of tracks, the Skeleton among them.
    pub fn track_order_len(&self) -> (r: u32)
        ensures
            r == track_count(self@),
    {
        let content: u32 = self.streams.len() as u32;
        if self.skel.skeleton.is_some() {
            content.saturating_add(1)
        } else {
            content
        }
    }

    /// The serial number of a track.
    pub fn track_order_serial(&self, track: u32) -> (r: Option<u32>)
        requires
            self@.wf(),
        ensures
            r == track_serial(self@, track),
    {
        if track >= self.track_order_len() {
            return None;
        }
        match self.skeleton_serial() {
            Some(sk) => if track == 0 {
                Some(sk)
            } else {
                self.stream_serial(track - 1)
            },
            None => self.stream_serial(track),
        }
    }

    /// The track of a serial number.
    pub fn track_order_index(&self, serial: u32) -> (r: Option<u32>)
        requires
            self@.wf(),
        ensures
            r == track_of(self@, serial),
    {
        if let Some(sk) = self.skeleton_serial() {
            if sk == serial {
                return Some(0);
            }
        }
        match self.find_state(serial) {
            Some(k) => {
                if self.skel.skeleton.is_some() {
                    proof {
                        skeleton_has_room(self@);
                    }
                    Some(k as u32 + 1)
                } else {
                    proof {
                        demux::serials_are_few(self@.states);
                    }
                    Some(k as u32)
                }
            },
            None => None,
        }
    }

    /// Seeks served from the Skeleton's keyframe index.
    pub fn skeleton_index_seek_count(&self) -> (r: u64)
        ensures
            r == self@.counts.index_seeks,
    {
        self.counts.index_seeks
    }

    /// Times that the Skeleton's keyframe index turned out invalid.
    pub fn skeleton_index_invalid_count(&self) -> (r: u64)
        ensures
            r == self@.counts.index_rejects,
    {
        self.counts.index_rejects
    }

    /// Seeks that were moved back for preroll.
    pub fn preroll_seek_count(&self) -> (r: u64)
        ensures
            r == self@.counts.preroll_seeks,
    {
        self.counts.preroll_seeks
    }

    /// The samples that a decoder of an Opus stream discards at the start.
    pub fn opus_pre_skip(&self, index: u32) -> (r: Option<u16>)
        requires
            self@.wf(),
        ensures
            r == (if index < self@.streams.len() {
                self@.states[index as int].pre_skip
            } else {
                None
            }),
    {
        if index as u64 >= self.states.len() as u64 {
            return None;
        }
        assert(self.states@[index as int]@ == self@.states[index as int]);
        self.states[index as usize].pre_skip
    }

    /// Where the next page is read.
    pub fn input_position(&self) -> (r: u64)
        ensures
            r == self@.pos,
    {
        self.pos
    }
}

} // verus!
