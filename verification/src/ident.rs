//! Codec parameters out of identification packets.
use crate::bytes;
use crate::codec_id;
use crate::codec_id::Mapping;
use crate::error::Error;
use crate::media;
use crate::media::{CodecId, CodecParameters, MediaType, ParamsView, PixelFormat, Rational};
use crate::theora;
use crate::theora::TheoraIdHeader;
use vstd::prelude::*;

verus! {

/// `x` as a bit rate, where it is positive.
pub open spec fn positive_rate(x: int, otherwise: Option<u64>) -> Option<u64> {
    if x > 0 {
        Some(x as u64)
    } else {
        otherwise
    }
}

/// What is wrong with a Vorbis identification header, if anything.
pub open spec fn vorbis_fault(s: Seq<u8>) -> Option<Error> {
    if s.len() < 30 {
        Some(Error::VorbisHeaderTooShort)
    } else if bytes::le32(s, 7) != 0 {
        Some(Error::VorbisVersion(bytes::le32(s, 7) as u32))
    } else if s[11] == 0 || bytes::le32(s, 12) == 0 {
        Some(Error::VorbisZeroChannelsOrRate)
    } else {
        None
    }
}

/// Parameters with what a Vorbis identification header adds: channels,
/// sample rate and, where it is positive, the nominal bit rate.
pub open spec fn with_vorbis(p: ParamsView, s: Seq<u8>) -> ParamsView {
    ParamsView {
        channels: Some(s[11] as u16),
        sample_rate: Some(bytes::le32(s, 12) as u32),
        bit_rate: positive_rate(bytes::signed32(bytes::le32(s, 20)), p.bit_rate),
        ..p
    }
}

/// Parameters with what an Opus identification header adds. A sample rate of
/// 0 stands for 48 kHz.
pub open spec fn with_opus(p: ParamsView, s: Seq<u8>) -> ParamsView {
    ParamsView {
        channels: Some(s[9] as u16),
        sample_rate: Some(
            if bytes::le32(s, 12) > 0 {
                bytes::le32(s, 12) as u32
            } else {
                48_000
            },
        ),
        ..p
    }
}

/// What is wrong with an Opus identification header, if anything.
pub open spec fn opus_fault(s: Seq<u8>) -> Option<Error> {
    if s.len() < 19 {
        Some(Error::OpusHeaderTooShort)
    } else {
        None
    }
}

/// What is wrong with a Speex identification header, if anything.
pub open spec fn speex_fault(s: Seq<u8>) -> Option<Error> {
    if s.len() < 52 {
        Some(Error::SpeexHeaderTooShort)
    } else if bytes::le32(s, 36) == 0 {
        Some(Error::SpeexZeroRate)
    } else {
        None
    }
}

/// Parameters with what a Speex identification header adds. Speex is mono or
/// stereo; a bit rate that is not positive is unknown.
pub open spec fn with_speex(p: ParamsView, s: Seq<u8>) -> ParamsView {
    ParamsView {
        sample_rate: Some(bytes::le32(s, 36) as u32),
        channels: Some(
            if bytes::le32(s, 48) == 2 {
                2
            } else {
                1
            },
        ),
        bit_rate: if s.len() >= 56 {
            positive_rate(bytes::signed32(bytes::le32(s, 52)), p.bit_rate)
        } else {
            p.bit_rate
        },
        ..p
    }
}

/// Parameters with what a FLAC mapping packet adds: its STREAMINFO block has
/// 20 bits of sample rate and 3 bits of channels at offset 27. A packet too
/// short for it adds nothing.
pub open spec fn with_flac(p: ParamsView, s: Seq<u8>) -> ParamsView {
    if s.len() < 31 {
        p
    } else {
        let packed = bytes::be(s, 27, 4);
        ParamsView {
            sample_rate: if packed / 4096 != 0 {
                Some((packed / 4096) as u32)
            } else {
                p.sample_rate
            },
            channels: Some((packed / 512 % 8 + 1) as u16),
            ..p
        }
    }
}

/// The chroma layout of a Theora pixel format number.
pub open spec fn chroma(pf: u8) -> Option<PixelFormat> {
    if pf == 0 {
        Some(PixelFormat::Yuv420P)
    } else if pf == 2 {
        Some(PixelFormat::Yuv422P)
    } else if pf == 3 {
        Some(PixelFormat::Yuv444P)
    } else {
        None
    }
}

/// Parameters with what a Theora identification header adds: the picture
/// size, or the coded size where the picture is empty; frame rate, chroma
/// layout and, where it is given, the bit rate. A header that does not parse
/// adds nothing.
pub open spec fn with_theora(p: ParamsView, s: Seq<u8>) -> ParamsView {
    match theora::parsed_id(s) {
        None => p,
        Some(id) => ParamsView {
            width: Some(
                if id.picw > 0 && id.pich > 0 {
                    id.picw
                } else {
                    (id.fmbw * 16) as u32
                },
            ),
            height: Some(
                if id.picw > 0 && id.pich > 0 {
                    id.pich
                } else {
                    (id.fmbh * 16) as u32
                },
            ),
            frame_rate: Some(Rational { num: id.frn as i64, den: id.frd as i64 }),
            pixel_format: chroma(id.pf),
            bit_rate: positive_rate(id.nombr as int, p.bit_rate),
            ..p
        },
    }
}

/// What is wrong with the identification packet of a codec, if anything.
pub open spec fn ident_fault(id: Seq<char>, first: Seq<u8>) -> Option<Error> {
    match codec_id::mapping_of(id) {
        Mapping::Vorbis => vorbis_fault(first),
        Mapping::Opus => opus_fault(first),
        Mapping::Speex => speex_fault(first),
        _ => None,
    }
}

/// The parameters that an identification packet gives.
pub open spec fn guessed(id: Seq<char>, first: Seq<u8>) -> ParamsView {
    match codec_id::mapping_of(id) {
        Mapping::Vorbis => with_vorbis(media::bare_params(id, MediaType::Audio), first),
        Mapping::Opus => with_opus(media::bare_params(id, MediaType::Audio), first),
        Mapping::Speex => with_speex(media::bare_params(id, MediaType::Audio), first),
        Mapping::Flac => with_flac(media::bare_params(id, MediaType::Audio), first),
        Mapping::Theora => with_theora(media::bare_params(id, MediaType::Video), first),
        Mapping::Other => media::bare_params(id, MediaType::Unknown),
    }
}

/// The pre-skip field of an Opus identification packet, where it reaches
/// that far.
pub open spec fn pre_skip_of(s: Seq<u8>) -> Option<u16> {
    if s.len() < 12 {
        None
    } else {
        Some(bytes::le16(s, 10) as u16)
    }
}

/// The samples that an Opus decoder discards at the start.
pub fn opus_pre_skip(packet: &[u8]) -> (r: Option<u16>)
    ensures
        r == pre_skip_of(packet@),
{
    if packet.len() < 12 {
        return None;
    }
    Some(bytes::le16_at(packet, 10))
}

/// Read a Vorbis identification header.
pub fn parse_vorbis_id(p: &mut CodecParameters, packet: &[u8]) -> (r: Result<(), Error>)
    ensures
        match r {
            Ok(()) => vorbis_fault(packet@) is None && final(p)@ == with_vorbis(old(p)@, packet@),
            Err(e) => vorbis_fault(packet@) == Some(e) && final(p)@ == old(p)@,
        },
{
    if packet.len() < 30 {
        return Err(Error::VorbisHeaderTooShort);
    }
    let version: u32 = bytes::le32_at(packet, 7);
    if version != 0 {
        return Err(Error::VorbisVersion(version));
    }
    let channels: u8 = packet[11];
    let sample_rate: u32 = bytes::le32_at(packet, 12);
    let nominal: i32 = bytes::le_i32_at(packet, 20);
    if channels == 0 || sample_rate == 0 {
        return Err(Error::VorbisZeroChannelsOrRate);
    }
    p.channels = Some(channels as u16);
    p.sample_rate = Some(sample_rate);
    if nominal > 0 {
        p.bit_rate = Some(nominal as u64);
    }
    Ok(())
}

/// Read an Opus identification header.
pub fn parse_opus_id(p: &mut CodecParameters, packet: &[u8]) -> (r: Result<(), Error>)
    ensures
        match r {
            Ok(()) => opus_fault(packet@) is None && final(p)@ == with_opus(old(p)@, packet@),
            Err(e) => opus_fault(packet@) == Some(e) && final(p)@ == old(p)@,
        },
{
    if packet.len() < 19 {
        return Err(Error::OpusHeaderTooShort);
    }
    let input_rate: u32 = bytes::le32_at(packet, 12);
    p.channels = Some(packet[9] as u16);
    p.sample_rate =
    Some(
        if input_rate > 0 {
            input_rate
        } else {
            48_000
        },
    );
    Ok(())
}

/// Read a Speex identification header.
pub fn parse_speex_id(p: &mut CodecParameters, packet: &[u8]) -> (r: Result<(), Error>)
    ensures
        match r {
            Ok(()) => speex_fault(packet@) is None && final(p)@ == with_speex(old(p)@, packet@),
            Err(e) => speex_fault(packet@) == Some(e) && final(p)@ == old(p)@,
        },
{
    if packet.len() < 52 {
        return Err(Error::SpeexHeaderTooShort);
    }
    let rate: u32 = bytes::le32_at(packet, 36);
    let channels: u32 = bytes::le32_at(packet, 48);
    if rate == 0 {
        return Err(Error::SpeexZeroRate);
    }
    p.sample_rate = Some(rate);
    p.channels =
    Some(
        if channels == 2 {
            2
        } else {
            1
        },
    );
    if packet.len() >= 56 {
        let bitrate: i32 = bytes::le_i32_at(packet, 52);
        if bitrate > 0 {
            p.bit_rate = Some(bitrate as u64);
        }
    }
    Ok(())
}

/// Read a FLAC mapping packet.
pub fn parse_flac_id(p: &mut CodecParameters, packet: &[u8])
    ensures
        final(p)@ == with_flac(old(p)@, packet@),
{
    if packet.len() < 31 {
        return;
    }
    let packed: u32 = bytes::be_at(packet, 27, 4);
    let sample_rate: u32 = packed / 4096;
    let channels: u32 = packed / 512 % 8 + 1;
    if sample_rate != 0 {
        p.sample_rate = Some(sample_rate);
    }
    p.channels = Some(channels as u16);
}

/// Read a Theora identification header.
pub fn parse_theora_id_params(p: &mut CodecParameters, packet: &[u8])
    ensures
        final(p)@ == with_theora(old(p)@, packet@),
{
    let id: TheoraIdHeader = match TheoraIdHeader::parse(packet) {
        Some(id) => id,
        None => {
            return;
        },
    };
    let (w, h): (u32, u32) = if id.picw > 0 && id.pich > 0 {
        (id.picw, id.pich)
    } else {
        (id.fmbw as u32 * 16, id.fmbh as u32 * 16)
    };
    p.width = Some(w);
    p.height = Some(h);
    p.frame_rate = Some(Rational { num: id.frn as i64, den: id.frd as i64 });
    p.pixel_format =
    if id.pf == 0 {
        Some(PixelFormat::Yuv420P)
    } else if id.pf == 2 {
        Some(PixelFormat::Yuv422P)
    } else if id.pf == 3 {
        Some(PixelFormat::Yuv444P)
    } else {
        None
    };
    if id.nombr > 0 {
        p.bit_rate = Some(id.nombr as u64);
    }
}

/// Parameters from the identification packet of a codec.
pub fn guess_params(id: &CodecId, first: &[u8]) -> (r: Result<CodecParameters, Error>)
    ensures
        match r {
            Ok(p) => ident_fault(id@, first@) is None && p@ == guessed(id@, first@),
            Err(e) => ident_fault(id@, first@) == Some(e),
        },
{
    let mapping: Mapping = codec_id::mapping(id);
    let media_type: MediaType = match mapping {
        Mapping::Theora => MediaType::Video,
        Mapping::Other => MediaType::Unknown,
        _ => MediaType::Audio,
    };
    let mut p = CodecParameters::bare(id.duplicate(), media_type);
    let outcome: Result<(), Error> = match mapping {
        Mapping::Vorbis => parse_vorbis_id(&mut p, first),
        Mapping::Opus => parse_opus_id(&mut p, first),
        Mapping::Speex => parse_speex_id(&mut p, first),
        Mapping::Flac => {
            parse_flac_id(&mut p, first);
            Ok(())
        },
        Mapping::Theora => {
            parse_theora_id_params(&mut p, first);
            Ok(())
        },
        Mapping::Other => Ok(()),
    };
    match outcome {
        Ok(()) => Ok(p),
        Err(e) => Err(e),
    }
}

} // verus!
