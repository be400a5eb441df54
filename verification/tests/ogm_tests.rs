//! OGM identification packets.
use oxideav_ogg::media::{CodecId, CodecParameters, CodecTag, MediaType, TimeBase};
use oxideav_ogg::ogm;
use oxideav_ogg::ogm::StreamHeader;

const VIDEO: &[u8] = &[
    0x01, b'v', b'i', b'd', b'e', b'o', 0x00, 0x00, 0x00, b'X', b'V', b'I', b'D', 0x38, 0x00,
    0x00, 0x00, 0x3C, 0x5D, 0x06, 0x00, 0x00, 0x00, 0x00, 0x00, 0x01, 0x00, 0x00, 0x00, 0x00,
    0x00, 0x00, 0x00, 0x01, 0x00, 0x00, 0x00, 0xA4, 0x14, 0x02, 0x00, 0x10, 0x00, 0x00, 0x00,
    0x80, 0x02, 0x00, 0x00, 0xE0, 0x01, 0x00, 0x00, 0x00,
];

const TEXT: &[u8] = &[
    0x01, b't', b'e', b'x', b't', 0x00, 0x00, 0x00, 0x00, 0x00, 0x00, 0x00, 0x00, 0x38, 0x00,
    0x00, 0x00, 0x10, 0x27, 0x00, 0x00, 0x00, 0x00, 0x00, 0x00, 0x01, 0x00, 0x00, 0x00, 0x00,
    0x00, 0x00, 0x00, 0x01, 0x00, 0x00, 0x00, 0x47, 0x00, 0x00, 0x00, 0x00, 0x00, 0x00, 0x00,
    0x00, 0x00, 0x00, 0x00,
];

#[test]
fn parses_ogm_video_header() {
    let h = StreamHeader::parse(VIDEO).expect("video header");
    assert_eq!(h.media_type, MediaType::Video);
    assert_eq!(h.codec_id.as_str(), "mpeg4");
    assert_eq!(h.width, Some(640));
    assert_eq!(h.height, Some(480));
    assert!(matches!(h.tag, Some(CodecTag::Fourcc(_))));
    assert_eq!(h.time_base(), Some(TimeBase::new(417_084, 10_000_000)));
}

#[test]
fn parses_ogm_text_as_subtitle() {
    let h = StreamHeader::parse(TEXT).expect("text header");
    assert_eq!(h.media_type, MediaType::Subtitle);
    assert_eq!(h.codec_id.as_str(), "text");
}

#[test]
fn ignores_xiph_vorbis_header() {
    assert!(StreamHeader::parse(b"\x01vorbis\x00\x00\x00\x00\x02").is_none());
}

#[test]
fn ignores_short_or_unrelated_packets() {
    assert!(StreamHeader::parse(b"").is_none());
    assert!(StreamHeader::parse(b"\x00video").is_none());
    assert!(StreamHeader::parse(b"\x01vid").is_none());
}

fn audio(tag: &[u8; 4], time_unit: u64, spu: u64, channels: u16) -> Vec<u8> {
    let mut v = vec![0x01, b'a', b'u', b'd', b'i', b'o', 0, 0, 0];
    v.extend_from_slice(tag);
    v.extend_from_slice(&56u32.to_le_bytes());
    v.extend_from_slice(&time_unit.to_le_bytes());
    v.extend_from_slice(&spu.to_le_bytes());
    v.extend_from_slice(&[0; 12]);
    v.extend_from_slice(&channels.to_le_bytes());
    v
}

#[test]
fn parses_ogm_audio_header() {
    let h = StreamHeader::parse(&audio(b"0055", 10_000_000, 44_100, 2)).expect("audio header");
    assert_eq!(h.media_type, MediaType::Audio);
    assert_eq!(h.codec_id.as_str(), "mp3");
    assert_eq!(h.tag, Some(CodecTag::WaveFormat(0x55)));
    assert_eq!(h.channels, Some(2));
    assert_eq!(h.sample_rate, Some(44_100));
    assert_eq!(h.time_base(), Some(TimeBase::new(10_000_000, 441_000_000_000)));
    let other = StreamHeader::parse(&audio(b"a1B2", 0, 0, 1)).expect("audio header");
    assert_eq!(other.codec_id.as_str(), "ogm:0xA1B2");
    assert_eq!(other.sample_rate, None);
    assert_eq!(other.time_base(), None);
    assert!(StreamHeader::parse(&audio(b"zz55", 1, 1, 1)).is_none());
}

#[test]
fn names_codecs_by_tag() {
    assert_eq!(ogm::video_codec_id(b"DIVX").as_str(), "mpeg4");
    assert_eq!(ogm::video_codec_id(b"JPEG").as_str(), "mjpeg");
    assert_eq!(ogm::video_codec_id(b"AVC1").as_str(), "h264");
    assert_eq!(ogm::video_codec_id(b"VP8 ").as_str(), "ogm:VP8 ");
    assert_eq!(ogm::video_codec_id(&[0x00, 0x01, 0xAB, 0x7F]).as_str(), "ogm:0001AB7F");
    assert_eq!(ogm::audio_codec_id(0x0001).as_str(), "pcm_s16le");
    assert_eq!(ogm::audio_codec_id(0x00FF).as_str(), "aac");
    assert_eq!(ogm::audio_codec_id(0x2000).as_str(), "ac3");
    assert_eq!(ogm::audio_codec_id(0x674F).as_str(), "vorbis");
    assert_eq!(ogm::audio_codec_id(0x6771).as_str(), "vorbis");
    assert_eq!(ogm::fourcc_label(b"ab~!"), "ab~!");
}

#[test]
fn reads_hexadecimal() {
    assert_eq!(ogm::hex_u16(b"0055"), Some(0x55));
    assert_eq!(ogm::hex_u16(b"fFfF"), Some(0xFFFF));
    assert_eq!(ogm::hex_u16(b"+a"), Some(10));
    assert_eq!(ogm::hex_u16(b"00010"), Some(16));
    assert_eq!(ogm::hex_u16(b"10000"), None);
    assert_eq!(ogm::hex_u16(b""), None);
    assert_eq!(ogm::hex_u16(b"+"), None);
    assert_eq!(ogm::hex_u16(b"-1"), None);
    assert_eq!(ogm::hex_u16(b"12 4"), None);
}

#[test]
fn reads_numbers_that_lie_inside() {
    let b = [1u8, 2, 3, 4, 5, 6, 7, 8];
    assert_eq!(ogm::read_u16(&b, 6), Some(0x0807));
    assert_eq!(ogm::read_u16(&b, 7), None);
    assert_eq!(ogm::read_u32(&b, 4), Some(0x0807_0605));
    assert_eq!(ogm::read_u32(&b, 5), None);
    assert_eq!(ogm::read_u64(&b, 0), Some(0x0807_0605_0403_0201));
    assert_eq!(ogm::read_u64(&b, 1), None);
    assert_eq!(ogm::read_u64(&b, usize::MAX), None);
    assert_eq!(ogm::slice4(&b, 4), Some([5, 6, 7, 8]));
    assert_eq!(ogm::slice4(&b, 5), None);
}

#[test]
fn timing_gives_a_rate() {
    assert_eq!(ogm::rate_from_timing(10_000_000, 48_000), Some(48_000));
    assert_eq!(ogm::rate_from_timing(0, 48_000), None);
    assert_eq!(ogm::rate_from_timing(u64::MAX, 1), None);
    assert_eq!(ogm::rate_from_timing(1, u64::MAX), None);
    assert_eq!(ogm::common_timing(VIDEO), (417_084, 1));
    assert_eq!(ogm::common_timing(b"\x01video"), (0, 0));
}

#[test]
fn header_goes_over_the_parameters() {
    let mut p = CodecParameters::bare(CodecId::new("unknown"), MediaType::Unknown);
    p.channels = Some(6);
    StreamHeader::parse(VIDEO).expect("video header").apply(&mut p);
    assert_eq!(p.codec_id.as_str(), "mpeg4");
    assert_eq!(p.media_type, MediaType::Video);
    assert_eq!((p.width, p.height), (Some(640), Some(480)));
    assert_eq!(p.channels, Some(6));
    assert_eq!(p.tag, Some(CodecTag::Fourcc(*b"XVID")));
    assert_eq!(CodecTag::fourcc(b"xv1d"), CodecTag::Fourcc(*b"XV1D"));
}
