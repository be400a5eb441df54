//! The demuxer's state: what is known of each logical bitstream, what waits
//! to be delivered, and what was noticed on the way.
use crate::comment;
use crate::damage;
use crate::damage::{Ledger, LedgerView};
use crate::media;
use crate::media::{CodecId, Packet, PacketView, StreamInfo, StreamView};
use crate::page;
use crate::page::{Page, PageView};
use crate::reassembly;
use crate::reassembly::Partial;
use crate::seek_index;
use crate::seek_index::SeekIndex;
use crate::skeleton::{Skeleton, SkeletonView};
use crate::theora::TheoraGranule;
use std::collections::VecDeque;
use vstd::prelude::*;

verus! {

/// What is known of a logical bitstream, as a value.
#[verifier::ext_equal]
pub struct StateView {
    pub serial: u32,
    pub partial: Partial,
    pub headers_remaining: usize,
    pub header_packets: Seq<Seq<u8>>,
    pub link_index: u32,
    pub last_seq: Option<u32>,
    pub bos_at: u64,
    pub bos_processed: bool,
    pub header_count: usize,
    pub rereading: usize,
    pub tagged: bool,
    pub next_frame: Option<i64>,
    pub pre_skip: Option<u16>,
    pub theora: Option<TheoraGranule>,
}

/// What is known of a logical bitstream.
#[derive(Debug)]
pub struct LogicalStream {
    pub serial: u32,
    /// Bytes of a packet that has not ended yet.
    pub pending: Vec<u8>,
    /// `pending` is the true beginning of a packet.
    pub pending_valid: bool,
    /// It is not known whether a packet is open.
    pub pending_unknown: bool,
    /// Header packets still to come.
    pub headers_remaining: usize,
    /// Header packets that came.
    pub header_packets: Vec<Vec<u8>>,
    /// The chained link that the stream belongs to.
    pub link_index: u32,
    /// Sequence number of the last page, unless the demuxer has moved since.
    pub last_seq: Option<u32>,
    /// Where the stream's first page stands. One with the same serial number
    /// anywhere else begins a second bitstream.
    pub bos_at: u64,
    /// The stream's first page has been processed, so it is read again when
    /// it comes again.
    pub bos_processed: bool,
    /// How many header packets the stream starts with.
    pub header_count: usize,
    /// Header packets still to come that have been taken in before.
    pub rereading: usize,
    /// The stream's tags have been added.
    pub tagged: bool,
    /// Index of the frame that the next Theora packet holds.
    pub next_frame: Option<i64>,
    /// Samples that an Opus decoder discards at the start.
    pub pre_skip: Option<u16>,
    /// How a Theora stream packs granules.
    pub theora: Option<TheoraGranule>,
}

impl View for LogicalStream {
    type V = StateView;

    open spec fn view(&self) -> StateView {
        StateView {
            serial: self.serial,
            partial: Partial {
                pending: self.pending@,
                valid: self.pending_valid,
                unknown: self.pending_unknown,
            },
            headers_remaining: self.headers_remaining,
            header_packets: reassembly::contents(self.header_packets@),
            link_index: self.link_index,
            last_seq: self.last_seq,
            bos_at: self.bos_at,
            bos_processed: self.bos_processed,
            header_count: self.header_count,
            rereading: self.rereading,
            tagged: self.tagged,
            next_frame: self.next_frame,
            pre_skip: self.pre_skip,
            theora: self.theora,
        }
    }
}

/// The Skeleton bitstream so far, as a value.
#[verifier::ext_equal]
pub struct SkelView {
    pub skeleton: Option<SkeletonView>,
    pub pending: Seq<u8>,
    pub adrift: bool,
    pub last_seq: Option<u32>,
    pub taken: Seq<(u64, usize)>,
    pub ended: bool,
}

/// The Skeleton bitstream so far.
#[derive(Debug)]
pub struct SkeletonTrack {
    pub skeleton: Option<Skeleton>,
    pub pending: Vec<u8>,
    /// It is not known whether a packet is open.
    pub adrift: bool,
    pub last_seq: Option<u32>,
    /// How many packets were taken in of those that end on a page, by where
    /// the page stands.
    pub taken: Vec<(u64, usize)>,
    /// Its last page has been seen.
    pub ended: bool,
}

impl View for SkeletonTrack {
    type V = SkelView;

    open spec fn view(&self) -> SkelView {
        SkelView {
            skeleton: media::opt_view(self.skeleton),
            pending: self.pending@,
            adrift: self.adrift,
            last_seq: self.last_seq,
            taken: self.taken@,
            ended: self.ended,
        }
    }
}

/// How often each way of seeking was taken.
#[derive(Clone, Copy, Debug, PartialEq, Eq, Structural)]
pub struct SeekCounts {
    /// Seeks served from the Skeleton's keyframe index.
    pub index_seeks: u64,
    /// Times that the keyframe index turned out invalid.
    pub index_rejects: u64,
    /// Seeks that were moved back for preroll.
    pub preroll_seeks: u64,
}

/// An answer of the codec registry: the codec of a first packet.
pub type Answer = (Seq<u8>, Seq<char>);

/// The demuxer as a value.
#[verifier::ext_equal]
pub struct Model {
    pub input: Seq<u8>,
    pub pos: u64,
    pub answers: Seq<Answer>,
    pub streams: Seq<StreamView>,
    pub states: Seq<StateView>,
    pub page_queue: Seq<PageView>,
    pub out_queue: Seq<PacketView>,
    pub tags: Seq<comment::Tag>,
    pub duration: i64,
    pub index: Set<seek_index::Entry>,
    pub index_built: bool,
    pub link: u32,
    pub link_starts: Seq<u64>,
    pub last_bos: Option<u64>,
    pub data_at: Option<u64>,
    pub ledger: LedgerView,
    pub skel: SkelView,
    pub segment_ok: Option<bool>,
    pub counts: SeekCounts,
}

/// Answers of the codec registry as values.
pub open spec fn answer_views(v: Seq<(Vec<u8>, CodecId)>) -> Seq<Answer> {
    Seq::new(v.len(), |i: int| (v[i].0@, v[i].1@))
}

/// Whether the state at `i` is that of `serial`.
pub open spec fn is_slot(states: Seq<StateView>, serial: u32, i: int) -> bool {
    0 <= i < states.len() && states[i].serial == serial
}

/// Where the state of `serial` stands.
pub open spec fn slot(states: Seq<StateView>, serial: u32) -> Option<int> {
    if exists|i: int| is_slot(states, serial, i) {
        Some(choose|i: int| is_slot(states, serial, i))
    } else {
        None
    }
}

/// Whether `e` tells the truth about the input: a page header of that serial
/// number and granule stands at that offset.
pub open spec fn entry_holds(input: Seq<u8>, e: seek_index::Entry) -> bool {
    &&& page::is_capture(input, e.2 as int)
    &&& e.2 + 27 <= input.len()
    &&& page::serial_at(input, e.2 as int) == e.0
    &&& page::granule_at(input, e.2 as int) == e.1
    &&& e.1 >= 0
}

impl Model {
    /// Serial number of the Skeleton bitstream, if there is one.
    pub open spec fn skeleton_serial(self) -> Option<u32> {
        match self.skel.skeleton {
            Some(sk) => Some(sk.serial),
            None => None,
        }
    }

    /// Whether a logical bitstream with this serial number is known.
    pub open spec fn knows(self, serial: u32) -> bool {
        slot(self.states, serial) is Some
    }

    /// Every stream has a state and a serial number of its own, which is not
    /// the Skeleton's; streams are numbered in order; what the seek index
    /// says is true of the input; and the kept damage is the first that was
    /// seen.
    pub open spec fn wf(self) -> bool {
        &&& self.input.len() <= usize::MAX
        &&& self.streams.len() == self.states.len()
        &&& forall|i: int| 0 <= i < self.streams.len() ==> (#[trigger] self.streams[i]).index == i
        &&& forall|i: int, j: int|
            0 <= i < j < self.states.len() ==> (#[trigger] self.states[i]).serial != (
            #[trigger] self.states[j]).serial
        &&& forall|i: int|
            0 <= i < self.states.len() ==> self.skeleton_serial() != Some(
                (#[trigger] self.states[i]).serial,
            )
        &&& forall|i: int|
            0 <= i < self.page_queue.len() ==> (#[trigger] self.page_queue[i]).wf()
        &&& forall|e: seek_index::Entry| #[trigger]
            self.index.contains(e) ==> entry_holds(self.input, e)
        &&& self.ledger.wf()
    }
}

/// The demuxer of one physical bitstream held in memory.
#[derive(Debug)]
pub struct OggDemuxer {
    pub input: Vec<u8>,
    /// Where the next page is read.
    pub pos: u64,
    /// What the codec registry said of first packets.
    pub answers: Vec<(Vec<u8>, CodecId)>,
    pub streams: Vec<StreamInfo>,
    /// The state of each stream, at the same place as in `streams`.
    pub states: Vec<LogicalStream>,
    /// Pages read but not yet processed.
    pub page_queue: VecDeque<Page>,
    /// Packets ready to be delivered.
    pub out_queue: VecDeque<Packet>,
    pub tags: Vec<(String, String)>,
    pub duration: i64,
    pub index: SeekIndex,
    /// The whole input has been indexed.
    pub index_built: bool,
    /// The chained link that the next new stream belongs to.
    pub link: u32,
    /// Where the beginning-of-stream pages stand that began a chained link.
    pub link_starts: Vec<u64>,
    /// Where the last beginning-of-stream page stands that was counted into a
    /// link.
    pub last_bos: Option<u64>,
    /// Where the first page stands, of those seen behind it, that begins no
    /// stream.
    pub data_at: Option<u64>,
    pub ledger: Ledger,
    pub skel: SkeletonTrack,
    /// Whether the Skeleton's segment length agrees with the input, once
    /// tested.
    pub segment_ok: Option<bool>,
    pub counts: SeekCounts,
}

impl View for OggDemuxer {
    type V = Model;

    open spec fn view(&self) -> Model {
        Model {
            input: self.input@,
            pos: self.pos,
            answers: answer_views(self.answers@),
            streams: media::views(self.streams@),
            states: media::views(self.states@),
            page_queue: media::views(self.page_queue@),
            out_queue: media::views(self.out_queue@),
            tags: comment::tags(self.tags@),
            duration: self.duration,
            index: self.index@,
            index_built: self.index_built,
            link: self.link,
            link_starts: self.link_starts@,
            last_bos: self.last_bos,
            data_at: self.data_at,
            ledger: self.ledger@,
            skel: self.skel@,
            segment_ok: self.segment_ok,
            counts: self.counts,
        }
    }
}

/// A demuxer that has read nothing.
pub open spec fn fresh(input: Seq<u8>, pos: u64, answers: Seq<Answer>) -> Model {
    Model {
        input,
        pos,
        answers,
        streams: Seq::empty(),
        states: Seq::empty(),
        page_queue: Seq::empty(),
        out_queue: Seq::empty(),
        tags: Seq::empty(),
        duration: 0,
        index: Set::empty(),
        index_built: false,
        link: 0,
        link_starts: Seq::empty(),
        last_bos: None,
        data_at: None,
        ledger: damage::empty_ledger(),
        skel: SkelView {
            skeleton: None,
            pending: Seq::empty(),
            adrift: false,
            last_seq: None,
            taken: Seq::empty(),
            ended: false,
        },
        segment_ok: None,
        counts: SeekCounts { index_seeks: 0, index_rejects: 0, preroll_seeks: 0 },
    }
}

impl OggDemuxer {
    /// The state is sound, and the seek index is in order.
    pub open spec fn wf(&self) -> bool {
        self@.wf() && self.index.wf()
    }

    /// A demuxer for `input`, starting at `pos`, with what the codec registry
    /// said of first packets.
    pub fn new(input: Vec<u8>, pos: u64, answers: Vec<(Vec<u8>, CodecId)>) -> (r: Self)
        ensures
            r.wf(),
            r@ == fresh(input@, pos, answer_views(answers@)),
    {
        let r = OggDemuxer {
            input,
            pos,
            answers,
            streams: Vec::new(),
            states: Vec::new(),
            page_queue: VecDeque::new(),
            out_queue: VecDeque::new(),
            tags: Vec::new(),
            duration: 0,
            index: SeekIndex::new(),
            index_built: false,
            link: 0,
            link_starts: Vec::new(),
            last_bos: None,
            data_at: None,
            ledger: Ledger::new(),
            skel: SkeletonTrack {
                skeleton: None,
                pending: Vec::new(),
                adrift: false,
                last_seq: None,
                taken: Vec::new(),
                ended: false,
            },
            segment_ok: None,
            counts: SeekCounts { index_seeks: 0, index_rejects: 0, preroll_seeks: 0 },
        };
        assert(input.len() == input@.len());
        assert(r@ =~= fresh(input@, pos, answer_views(answers@)));
        r
    }

    /// Where the state of `serial` stands.
    pub fn find_state(&self, serial: u32) -> (r: Option<usize>)
        requires
            self@.wf(),
        ensures
            match r {
                Some(k) => slot(self@.states, serial) == Some(k as int) && is_slot(
                    self@.states,
                    serial,
                    k as int,
                ),
                None => slot(self@.states, serial) is None,
            },
            r matches Some(k) ==> k < self.states.len() && k < self.streams.len()
                && self.states@[k as int].serial == serial,
    {
        let mut i: usize = 0;
        while i < self.states.len()
            invariant
                i <= self.states@.len(),
                self@.wf(),
                forall|j: int| 0 <= j < i ==> (#[trigger] self.states@[j]).serial != serial,
            decreases self.states@.len() - i,
        {
            if self.states[i].serial == serial {
                proof {
                    assert(self@.states[i as int] == self.states@[i as int]@);
                    slot_is(self@.states, serial, i as int);
                }
                return Some(i);
            }
            i = i + 1;
        }
        proof {
            assert forall|j: int| !is_slot(self@.states, serial, j) by {
                if 0 <= j < self@.states.len() {
                    assert(self.states@[j].serial != serial);
                }
            }
        }
        None
    }

    /// Serial number of the Skeleton bitstream, if there is one.
    pub fn skeleton_serial(&self) -> (r: Option<u32>)
        ensures
            r == self@.skeleton_serial(),
    {
        match &self.skel.skeleton {
            Some(sk) => Some(sk.serial),
            None => None,
        }
    }
}

/// A state found by its serial number is the only one of it.
pub proof fn slot_is(states: Seq<StateView>, serial: u32, i: int)
    requires
        is_slot(states, serial, i),
        forall|a: int, b: int|
            0 <= a < b < states.len() ==> (#[trigger] states[a]).serial != (
            #[trigger] states[b]).serial,
    ensures
        slot(states, serial) == Some(i),
{
    let j = choose|j: int| is_slot(states, serial, j);
    assert(is_slot(states, serial, j));
    if j < i {
        assert(states[j].serial != states[i].serial);
    } else if i < j {
        assert(states[i].serial != states[j].serial);
    }
}

/// Changing a state, but not its serial number, leaves every state where it
/// is.
pub proof fn slots_stay(states: Seq<StateView>, k: int, st: StateView, serial: u32)
    requires
        0 <= k < states.len(),
        st.serial == states[k].serial,
        forall|a: int, b: int|
            0 <= a < b < states.len() ==> (#[trigger] states[a]).serial != (
            #[trigger] states[b]).serial,
    ensures
        slot(states.update(k, st), serial) == slot(states, serial),
        forall|a: int, b: int|
            0 <= a < b < states.len() ==> (#[trigger] states.update(k, st)[a]).serial != (
            #[trigger] states.update(k, st)[b]).serial,
{
    let after = states.update(k, st);
    assert(forall|j: int| 0 <= j < states.len() ==> after[j].serial == states[j].serial);
    assert(forall|j: int| is_slot(after, serial, j) == is_slot(states, serial, j));
    assert forall|a: int, b: int| 0 <= a < b < states.len() implies (#[trigger] after[a]).serial
        != (#[trigger] after[b]).serial by {
        assert(states[a].serial != states[b].serial);
    }
    if slot(states, serial) is Some {
        let i = slot(states, serial)->0;
        assert(is_slot(states, serial, i));
        assert(is_slot(after, serial, i));
        slot_is(after, serial, i);
    }
}

/// A stream found by its serial number has that serial number.
pub proof fn slot_holds(states: Seq<StateView>, serial: u32)
    ensures
        slot(states, serial) matches Some(k) ==> is_slot(states, serial, k),
        slot(states, serial) is None ==> forall|i: int|
            0 <= i < states.len() ==> (#[trigger] states[i]).serial != serial,
{
    if slot(states, serial) is None {
        assert forall|i: int| 0 <= i < states.len() implies (#[trigger] states[i]).serial
            != serial by {
            assert(!is_slot(states, serial, i));
        }
    }
}

/// Distinct 32-bit serial numbers: there are at most 2^32 of them.
pub proof fn serials_are_few(states: Seq<StateView>)
    requires
        forall|a: int, b: int|
            0 <= a < b < states.len() ==> (#[trigger] states[a]).serial != (
            #[trigger] states[b]).serial,
    ensures
        states.len() <= 0x1_0000_0000,
{
    let serials = Seq::new(states.len(), |i: int| states[i].serial as int);
    assert(serials.no_duplicates()) by {
        assert forall|a: int, b: int|
            0 <= a < serials.len() && 0 <= b < serials.len() && a != b implies serials[a]
            != serials[b] by {
            if a < b {
                assert(states[a].serial != states[b].serial);
            } else {
                assert(states[b].serial != states[a].serial);
            }
        }
    }
    serials.unique_seq_to_set();
    let range = vstd::set_lib::set_int_range(0, 0x1_0000_0000);
    vstd::set_lib::lemma_int_range(0, 0x1_0000_0000);
    assert(serials.to_set().subset_of(range));
    vstd::set_lib::lemma_len_subset(serials.to_set(), range);
}

/// A serial number not in use leaves room for one more stream.
pub proof fn a_new_serial_has_room(states: Seq<StateView>, st: StateView)
    requires
        forall|a: int, b: int|
            0 <= a < b < states.len() ==> (#[trigger] states[a]).serial != (
            #[trigger] states[b]).serial,
        forall|i: int| 0 <= i < states.len() ==> (#[trigger] states[i]).serial != st.serial,
    ensures
        states.len() <= u32::MAX,
{
    let more = states.push(st);
    assert forall|a: int, b: int| 0 <= a < b < more.len() implies (#[trigger] more[a]).serial != (
    #[trigger] more[b]).serial by {
        if b < states.len() {
            assert(states[a].serial != states[b].serial);
        } else {
            assert(states[a].serial != st.serial);
        }
    }
    serials_are_few(more);
}

} // verus!
