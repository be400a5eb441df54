//! Beginning-of-stream pages: which codec a new logical bitstream carries,
//! and what is known of it from its first packet.
use crate::bytes;
use crate::codec_id;
use crate::codec_id::Mapping;
use crate::demux;
use crate::demux::{LogicalStream, Model, OggDemuxer, SkelView, StateView};
use crate::error::Error;
use crate::ident;
use crate::media::{CodecId, CodecParameters, ParamsView, StreamInfo, StreamView, TimeBase};
use crate::ogm;
use crate::ogm::StreamHeader;
use crate::page::{Page, PageView};
use crate::reassembly;
use crate::skeleton;
use crate::skeleton::{FisHead, Skeleton, SkeletonView};
use crate::theora;
use crate::theora::TheoraIdHeader;
use vstd::prelude::*;
use vstd::slice::slice_to_vec;

verus! {

/// What the codec registry said of a first packet.
pub open spec fn answer_for(answers: Seq<demux::Answer>, first: Seq<u8>) -> Option<Seq<char>>
    decreases answers.len(),
{
    if answers.len() == 0 {
        None
    } else if answers[0].0 == first {
        Some(answers[0].1)
    } else {
        answer_for(answers.skip(1), first)
    }
}

/// The codec of a first packet: what the registry said, or else what the
/// built-in magics say.
pub open spec fn identified(answers: Seq<demux::Answer>, first: Seq<u8>) -> Seq<char> {
    match answer_for(answers, first) {
        Some(id) => id,
        None => codec_id::detected(first),
    }
}

/// The parameters of a new stream: those of its identification packet, kept
/// as setup bytes, with an OGM header's put over them.
pub open spec fn new_params(id: Seq<char>, first: Seq<u8>) -> ParamsView {
    let p = ParamsView { extradata: first, ..ident::guessed(id, first) };
    match ogm::parsed(first) {
        Some(header) => header.over(p),
        None => p,
    }
}

/// One microsecond, where nothing better is known.
pub open spec fn microsecond() -> TimeBase {
    TimeBase { num: 1, den: 1_000_000 }
}

/// The unit of a stream's granules by its codec: samples for Vorbis, FLAC and
/// Speex, 48 kHz for Opus, frames for Theora.
pub open spec fn codec_tick(id: Seq<char>, first: Seq<u8>, sample_rate: Option<u32>) -> TimeBase {
    match codec_id::mapping_of(id) {
        Mapping::Vorbis | Mapping::Flac | Mapping::Speex => match sample_rate {
            Some(sr) => TimeBase { num: 1, den: sr as i64 },
            None => microsecond(),
        },
        Mapping::Opus => TimeBase { num: 1, den: 48_000 },
        Mapping::Theora => match theora::parsed_id(first) {
            Some(h) => TimeBase { num: h.frd as i64, den: h.frn as i64 },
            None => microsecond(),
        },
        Mapping::Other => microsecond(),
    }
}

/// The unit of a new stream's timestamps: what an OGM header says, or else
/// what its codec says.
pub open spec fn new_tick(id: Seq<char>, first: Seq<u8>) -> TimeBase {
    match ogm::parsed(first) {
        Some(header) => match header.tick() {
            Some(t) => t,
            None => codec_tick(id, first, new_params(id, first).sample_rate),
        },
        None => codec_tick(id, first, new_params(id, first).sample_rate),
    }
}

/// A new stream with the given number.
pub open spec fn new_stream(index: int, id: Seq<char>, first: Seq<u8>) -> StreamView {
    StreamView {
        index: index as u32,
        time_base: new_tick(id, first),
        start_time: Some(0),
        params: new_params(id, first),
    }
}

/// How many header packets a new stream starts with: two in OGM.
pub open spec fn headers_to_come(id: Seq<char>, first: Seq<u8>) -> int {
    if ogm::parsed(first) is Some {
        2
    } else {
        codec_id::header_count(id, first)
    }
}

/// The state of a new stream whose first page stands at `at`. It may have been
/// found ahead of where pages are read, or behind it.
pub open spec fn new_state(
    serial: u32,
    at: u64,
    link: u32,
    id: Seq<char>,
    first: Seq<u8>,
) -> StateView {
    StateView {
        serial,
        partial: reassembly::anything(),
        headers_remaining: headers_to_come(id, first) as usize,
        header_packets: Seq::empty(),
        link_index: link,
        last_seq: None,
        bos_at: at,
        bos_processed: false,
        header_count: headers_to_come(id, first) as usize,
        rereading: 0,
        tagged: false,
        next_frame: None,
        pre_skip: if codec_id::mapping_of(id) is Opus {
            ident::pre_skip_of(first)
        } else {
            None
        },
        theora: match theora::parsed_id(first) {
            Some(h) => if codec_id::mapping_of(id) is Theora {
                Some(h.granule_spec())
            } else {
                None
            },
            None => None,
        },
    }
}

/// The demuxer with one more stream.
pub open spec fn with_stream(m: Model, serial: u32, at: u64, first: Seq<u8>) -> Model {
    let id = identified(m.answers, first);
    Model {
        streams: m.streams.push(new_stream(m.streams.len() as int, id, first)),
        states: m.states.push(new_state(serial, at, m.link, id, first)),
        ..m
    }
}

/// The demuxer after a beginning-of-stream page, or what is wrong with it.
///
/// The first Skeleton identification packet starts the Skeleton; a later one
/// is ignored, and so is any other stream with the Skeleton's serial number.
/// Everything else becomes a stream of its own.
pub open spec fn registered(m: Model, page: PageView) -> (Model, Option<Error>) {
    match reassembly::cut(page.lacing, page.data).first() {
        None => (m, Some(Error::BosPageWithoutPackets)),
        Some(first) => if skeleton::starts_fishead(first) {
            match m.skel.skeleton {
                Some(_) => (m, None),
                None => match skeleton::fishead(first) {
                    None => (m, Some(Error::SkeletonHeaderTooShort)),
                    Some(head) => (
                        Model {
                            skel: SkelView {
                                skeleton: Some(
                                    SkeletonView {
                                        serial: page.serial,
                                        head,
                                        bones: Seq::empty(),
                                        indexes: Seq::empty(),
                                    },
                                ),
                                last_seq: None,
                                ..m.skel
                            },
                            ..m
                        },
                        None,
                    ),
                },
            }
        } else if m.skeleton_serial() == Some(page.serial) {
            (m, None)
        } else {
            match ident::ident_fault(identified(m.answers, first), first) {
                Some(e) => (m, Some(e)),
                None => (with_stream(m, page.serial, page.offset, first), None),
            }
        },
    }
}

/// How many header packets the bitstream that `page` begins has.
pub open spec fn headers_after_restart(m: Model, page: PageView) -> int {
    match reassembly::cut(page.lacing, page.data).first() {
        Some(first) => codec_id::header_count(identified(m.answers, first), first),
        None => 0,
    }
}

/// The demuxer after a second bitstream with the serial number of the stream
/// at `k` begins: nothing of the first is joined to it, and its headers are
/// awaited anew. It counts as damage unless the index scan counts it.
pub open spec fn restarted(m: Model, page: PageView, k: int, link: u32) -> Model {
    Model {
        ledger: if m.index_built {
            m.ledger
        } else {
            m.ledger.with_duplicate(page.serial, page.seq_no)
        },
        states: m.states.update(
            k,
            StateView {
                partial: reassembly::nothing(),
                last_seq: None,
                link_index: link,
                headers_remaining: headers_after_restart(m, page) as usize,
                header_packets: Seq::empty(),
                bos_at: page.offset,
                bos_processed: false,
                header_count: headers_after_restart(m, page) as usize,
                rereading: 0,
                tagged: false,
                ..m.states[k]
            },
        ),
        ..m
    }
}

/// Registering keeps the demuxer sound.
pub proof fn registering_keeps_wf(m: Model, page: PageView)
    requires
        m.wf(),
        !m.knows(page.serial),
    ensures
        registered(m, page).0.wf(),
{
    demux::slot_holds(m.states, page.serial);
    let after = registered(m, page).0;
    if after.states.len() > m.states.len() {
        demux::a_new_serial_has_room(m.states, after.states.last());
        assert forall|a: int, b: int| 0 <= a < b < after.states.len() implies (
        #[trigger] after.states[a]).serial != (#[trigger] after.states[b]).serial by {
            if b < m.states.len() {
                assert(m.states[a].serial != m.states[b].serial);
            } else {
                assert(m.states[a].serial != page.serial);
            }
        }
        assert forall|i: int| 0 <= i < after.states.len() implies after.skeleton_serial() != Some(
            (#[trigger] after.states[i]).serial,
        ) by {
            if i < m.states.len() {
                assert(m.skeleton_serial() != Some(m.states[i].serial));
            }
        }
        assert forall|i: int| 0 <= i < after.streams.len() implies (
        #[trigger] after.streams[i]).index == i by {
            if i < m.streams.len() {
                assert(m.streams[i].index == i);
            }
        }
    } else {
        assert(after.states == m.states);
        assert forall|i: int| 0 <= i < after.states.len() implies after.skeleton_serial() != Some(
            (#[trigger] after.states[i]).serial,
        ) by {
            assert(m.skeleton_serial() != Some(m.states[i].serial));
            assert(m.states[i].serial != page.serial);
        }
    }
}

/// Changing a state, but not its serial number, keeps the demuxer sound.
pub proof fn updating_keeps_wf(m: Model, k: int, st: StateView)
    requires
        m.wf(),
        0 <= k < m.states.len(),
        st.serial == m.states[k].serial,
    ensures
        (Model { states: m.states.update(k, st), ..m }).wf(),
{
    let after = Model { states: m.states.update(k, st), ..m };
    demux::slots_stay(m.states, k, st, st.serial);
    assert forall|i: int| 0 <= i < after.states.len() implies after.skeleton_serial() != Some(
        (#[trigger] after.states[i]).serial,
    ) by {
        assert(m.skeleton_serial() != Some(m.states[i].serial));
    }
}

/// A frame rate is a fraction of positive 32-bit numbers, and the time base
/// of a stream with a known frame layout is one frame.
pub proof fn theora_streams_tick_by_frames(id: Seq<char>, first: Seq<u8>)
    requires
        new_state(0, 0, 0, id, first).theora is Some,
    ensures
        new_tick(id, first) == (TimeBase {
            num: theora::id_header(first).frd as i64,
            den: theora::id_header(first).frn as i64,
        }),
        0 < new_tick(id, first).num <= u32::MAX,
        0 < new_tick(id, first).den <= u32::MAX,
        codec_id::mapping_of(new_params(id, first).codec_id) is Theora,
{
    assert(first.subrange(0, 7)[0] == first[0]);
    assert(theora::id_magic()[0] == 0x80u8);
    reveal_with_fuel(bytes::be, 5);
}

/// The first packet of a page, ended or not.
pub fn first_packet(page: &Page) -> (r: Option<Vec<u8>>)
    requires
        page@.wf(),
    ensures
        (match r {
            Some(v) => Some(v@),
            None => None,
        }) == reassembly::cut(page@.lacing, page@.data).first(),
{
    let mut parts = reassembly::cut_page(page);
    if parts.ended.len() > 0 {
        let ghost all = parts@;
        let first: Vec<u8> = parts.ended.remove(0);
        assert(all.ended[0] == first@);
        Some(first)
    } else {
        parts.open
    }
}

fn same_bytes(a: &[u8], b: &[u8]) -> (r: bool)
    ensures
        r == (a@ == b@),
{
    if a.len() != b.len() {
        return false;
    }
    let r: bool = bytes::matches_at(a, 0, b);
    assert(a@.subrange(0, a@.len() as int) =~= a@);
    r
}

impl OggDemuxer {
    /// The codec of a first packet.
    pub fn identify_codec(&self, first: &[u8]) -> (r: CodecId)
        ensures
            r@ == identified(self@.answers, first@),
    {
        let ghost all = self@.answers;
        let mut i: usize = 0;
        assert(all.skip(0) =~= all);
        while i < self.answers.len()
            invariant
                i <= self.answers@.len(),
                all == demux::answer_views(self.answers@),
                answer_for(all, first@) == answer_for(all.skip(i as int), first@),
            decreases self.answers@.len() - i,
        {
            assert(all.skip(i as int)[0] == all[i as int]);
            if same_bytes(self.answers[i].0.as_slice(), first) {
                return self.answers[i].1.duplicate();
            }
            assert(all.skip(i as int).skip(1) =~= all.skip(i + 1));
            i = i + 1;
        }
        codec_id::detect(first)
    }

    fn add_stream(&mut self, serial: u32, at: u64, first: &[u8]) -> (r: Result<(), Error>)
        requires
            old(self).wf(),
            !old(self)@.knows(serial),
            old(self)@.skeleton_serial() != Some(serial),
        ensures
            match r {
                Ok(()) => {
                    &&& ident::ident_fault(identified(old(self)@.answers, first@), first@) is None
                    &&& final(self)@ == with_stream(old(self)@, serial, at, first@)
                },
                Err(e) => {
                    &&& ident::ident_fault(identified(old(self)@.answers, first@), first@) == Some(
                        e,
                    )
                    &&& final(self)@ == old(self)@
                },
            },
            final(self).index == old(self).index,
    {
        let ghost before = self@;
        let id: CodecId = self.identify_codec(first);
        let mut params: CodecParameters = match ident::guess_params(&id, first) {
            Ok(p) => p,
            Err(e) => {
                return Err(e);
            },
        };
        params.extradata = slice_to_vec(first);
        let ogm_header: Option<StreamHeader> = StreamHeader::parse(first);
        if let Some(header) = &ogm_header {
            header.apply(&mut params);
        }
        let mapping: Mapping = codec_id::mapping(&id);
        let theora_id: Option<TheoraIdHeader> = if let Mapping::Theora = mapping {
            TheoraIdHeader::parse(first)
        } else {
            None
        };
        let ogm_tick: Option<TimeBase> = match &ogm_header {
            Some(header) => header.time_base(),
            None => None,
        };
        let time_base: TimeBase = match ogm_tick {
            Some(t) => t,
            None => match mapping {
                Mapping::Vorbis | Mapping::Flac | Mapping::Speex => match params.sample_rate {
                    Some(sr) => TimeBase::new(1, sr as i64),
                    None => TimeBase::new(1, 1_000_000),
                },
                Mapping::Opus => TimeBase::new(1, 48_000),
                Mapping::Theora => match theora_id {
                    Some(h) => TimeBase::new(h.frd as i64, h.frn as i64),
                    None => TimeBase::new(1, 1_000_000),
                },
                Mapping::Other => TimeBase::new(1, 1_000_000),
            },
        };
        let headers_remaining: usize = if ogm_header.is_some() {
            2
        } else {
            codec_id::header_packet_count_from_first(&id, first)
        };
        let state = LogicalStream {
            serial,
            pending: Vec::new(),
            pending_valid: false,
            pending_unknown: true,
            headers_remaining,
            header_packets: Vec::new(),
            link_index: self.link,
            last_seq: None,
            bos_at: at,
            bos_processed: false,
            header_count: headers_remaining,
            rereading: 0,
            tagged: false,
            next_frame: None,
            pre_skip: if let Mapping::Opus = mapping {
                ident::opus_pre_skip(first)
            } else {
                None
            },
            theora: match theora_id {
                Some(h) => Some(h.granule()),
                None => None,
            },
        };
        proof {
            demux::slot_holds(before.states, serial);
            demux::a_new_serial_has_room(before.states, state@);
            assert(params@ == new_params(id@, first@));
            assert(time_base == new_tick(id@, first@));
            assert(state@.header_packets =~= Seq::<Seq<u8>>::empty());
            assert(state@ =~= new_state(serial, at, before.link, id@, first@));
        }
        let stream = StreamInfo {
            index: self.streams.len() as u32,
            time_base,
            start_time: Some(0),
            params,
        };
        self.streams.push(stream);
        self.states.push(state);
        proof {
            assert(self@.streams =~= before.streams.push(stream@));
            assert(self@.states =~= before.states.push(state@));
            assert(self@ =~= with_stream(before, serial, at, first@));
        }
        Ok(())
    }

    /// Register the logical bitstream that a beginning-of-stream page begins.
    pub fn register_stream(&mut self, page: &Page) -> (r: Result<(), Error>)
        requires
            old(self).wf(),
            page@.wf(),
            !old(self)@.knows(page@.serial),
        ensures
            final(self).wf(),
            final(self)@ == registered(old(self)@, page@).0,
            (match r {
                Ok(()) => None,
                Err(e) => Some(e),
            }) == registered(old(self)@, page@).1,
    {
        let ghost before = self@;
        proof {
            registering_keeps_wf(before, page@);
        }
        let first: Vec<u8> = match first_packet(page) {
            Some(v) => v,
            None => {
                return Err(Error::BosPageWithoutPackets);
            },
        };
        let serial: Option<u32> = self.skeleton_serial();
        if skeleton::is_fishead(first.as_slice()) {
            if serial.is_some() {
                return Ok(());
            }
            let head: FisHead = match FisHead::parse(first.as_slice()) {
                Some(h) => h,
                None => {
                    return Err(Error::SkeletonHeaderTooShort);
                },
            };
            self.skel.skeleton = Some(Skeleton::new(page.serial, head));
            self.skel.last_seq = None;
            assert(self@ =~= registered(before, page@).0);
            return Ok(());
        }
        if let Some(s) = serial {
            if s == page.serial {
                return Ok(());
            }
        }
        self.add_stream(page.serial, page.offset, first.as_slice())
    }

    /// Start a known stream anew when a second bitstream with its serial
    /// number begins. Returns whether there was one to start anew.
    pub fn restart_serial_on_duplicate_bos(&mut self, page: &Page, new_link: u32) -> (r: bool)
        requires
            old(self).wf(),
            page@.wf(),
        ensures
            final(self).wf(),
            r == old(self)@.knows(page@.serial),
            final(self)@ == (match demux::slot(old(self)@.states, page@.serial) {
                Some(k) => restarted(old(self)@, page@, k, new_link),
                None => old(self)@,
            }),
    {
        let ghost before = self@;
        let k: usize = match self.find_state(page.serial) {
            Some(k) => k,
            None => {
                return false;
            },
        };
        let header_count: usize = match first_packet(page) {
            Some(first) => {
                let id: CodecId = self.identify_codec(first.as_slice());
                codec_id::header_packet_count_from_first(&id, first.as_slice())
            },
            None => 0,
        };
        if !self.index_built {
            self.ledger.note_duplicate(page.serial, page.seq_no);
        }
        let ghost old_states = self.states@;
        let state: &mut LogicalStream = &mut self.states[k];
        state.pending = Vec::new();
        state.pending_valid = false;
        state.pending_unknown = false;
        state.last_seq = None;
        state.link_index = new_link;
        state.headers_remaining = header_count;
        state.header_packets = Vec::new();
        state.bos_at = page.offset;
        state.bos_processed = false;
        state.header_count = header_count;
        state.rereading = 0;
        state.tagged = false;
        proof {
            let st = self.states@[k as int]@;
            assert(st.header_packets =~= Seq::<Seq<u8>>::empty());
            assert(self@.states =~= before.states.update(k as int, st));
            assert(self@ =~= restarted(before, page@, k as int, new_link));
            updating_keeps_wf(before, k as int, st);
            assert(self@.wf());
        }
        true
    }
}

} // verus!
