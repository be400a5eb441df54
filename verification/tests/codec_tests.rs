//! Identification packets, setup bytes, tags and time bases.
use oxideav_ogg::codec_id;
use oxideav_ogg::comment::{parse_codec_comment, parse_vorbis_comment, push_comment};
use oxideav_ogg::error::Error;
use oxideav_ogg::ident::{guess_params, opus_pre_skip};
use oxideav_ogg::media::{CodecId, MediaType, PixelFormat, Rational, TimeBase};
use oxideav_ogg::private::{build_codec_private, xiph_lace_size, xiph_lace_three};
use oxideav_ogg::theora::TheoraIdHeader;

fn vorbis_id(version: u32, channels: u8, rate: u32, nominal: i32) -> Vec<u8> {
    let mut v = b"\x01vorbis".to_vec();
    v.extend_from_slice(&version.to_le_bytes());
    v.push(channels);
    v.extend_from_slice(&rate.to_le_bytes());
    v.extend_from_slice(&[0; 4]);
    v.extend_from_slice(&nominal.to_le_bytes());
    v.extend_from_slice(&[0; 4]);
    v.extend_from_slice(&[0xB8, 0x01]);
    v
}

fn theora_id(picw: u32, pich: u32, pf: u8) -> Vec<u8> {
    let mut v = b"\x80theora".to_vec();
    v.extend_from_slice(&[3, 2, 1]);
    v.extend_from_slice(&20u16.to_be_bytes());
    v.extend_from_slice(&15u16.to_be_bytes());
    v.extend_from_slice(&picw.to_be_bytes()[1..]);
    v.extend_from_slice(&pich.to_be_bytes()[1..]);
    v.extend_from_slice(&[0, 0]);
    v.extend_from_slice(&30_000u32.to_be_bytes());
    v.extend_from_slice(&1001u32.to_be_bytes());
    v.extend_from_slice(&[0; 7]);
    v.extend_from_slice(&500_000u32.to_be_bytes()[1..]);
    let tail: u16 = (6u16 << 5) | ((pf as u16) << 3);
    v.extend_from_slice(&tail.to_be_bytes());
    v
}

#[test]
fn magics_name_codecs() {
    assert_eq!(codec_id::detect(b"\x01vorbis....").as_str(), "vorbis");
    assert_eq!(codec_id::detect(b"OpusHead").as_str(), "opus");
    assert_eq!(codec_id::detect(b"\x80theora").as_str(), "theora");
    assert_eq!(codec_id::detect(b"Speex   1.2").as_str(), "speex");
    assert_eq!(codec_id::detect(b"\x7FFLAC").as_str(), "flac");
    assert_eq!(codec_id::detect(b"\x7FFLA").as_str(), "unknown");
    assert_eq!(codec_id::detect(b"").as_str(), "unknown");
}

#[test]
fn header_counts_follow_the_codec() {
    let n = |id: &str, first: &[u8]| {
        codec_id::header_packet_count_from_first(&CodecId::new(id), first)
    };
    assert_eq!(n("vorbis", b""), 3);
    assert_eq!(n("theora", b""), 3);
    assert_eq!(n("opus", b""), 2);
    assert_eq!(n("speex", b""), 2);
    assert_eq!(n("flac", b"\x7FFLAC\x01\x00\x01\x02fLaC"), 259);
    assert_eq!(n("flac", b"\x7FFLAC"), 1);
    assert_eq!(n("unknown", b""), 0);
}

#[test]
fn vorbis_identification() {
    let id = CodecId::new("vorbis");
    let p = guess_params(&id, &vorbis_id(0, 2, 48_000, 128_000)).expect("params");
    assert_eq!(p.media_type, MediaType::Audio);
    assert_eq!((p.channels, p.sample_rate, p.bit_rate), (Some(2), Some(48_000), Some(128_000)));
    let p = guess_params(&id, &vorbis_id(0, 1, 8000, -1)).expect("params");
    assert_eq!(p.bit_rate, None);
    assert_eq!(guess_params(&id, &vorbis_id(7, 2, 1, 0)).unwrap_err(), Error::VorbisVersion(7));
    assert_eq!(
        guess_params(&id, &vorbis_id(0, 0, 1, 0)).unwrap_err(),
        Error::VorbisZeroChannelsOrRate
    );
    assert_eq!(
        guess_params(&id, &vorbis_id(0, 1, 0, 0)).unwrap_err(),
        Error::VorbisZeroChannelsOrRate
    );
    assert_eq!(guess_params(&id, b"\x01vorbis").unwrap_err(), Error::VorbisHeaderTooShort);
}

#[test]
fn opus_identification() {
    let id = CodecId::new("opus");
    let mut v = b"OpusHead\x01\x02".to_vec();
    v.extend_from_slice(&312u16.to_le_bytes());
    assert_eq!(opus_pre_skip(&v), Some(312));
    assert_eq!(opus_pre_skip(&v[..11]), None);
    assert_eq!(guess_params(&id, &v).unwrap_err(), Error::OpusHeaderTooShort);
    v.extend_from_slice(&44_100u32.to_le_bytes());
    v.extend_from_slice(&[0, 0, 0]);
    let p = guess_params(&id, &v).expect("params");
    assert_eq!((p.channels, p.sample_rate), (Some(2), Some(44_100)));
    v[12..16].copy_from_slice(&[0; 4]);
    assert_eq!(guess_params(&id, &v).expect("params").sample_rate, Some(48_000));
}

#[test]
fn speex_identification() {
    let id = CodecId::new("speex");
    let mut v = vec![0u8; 80];
    v[..8].copy_from_slice(b"Speex   ");
    v[48] = 2;
    assert_eq!(guess_params(&id, &v).unwrap_err(), Error::SpeexZeroRate);
    v[36..40].copy_from_slice(&16_000u32.to_le_bytes());
    v[52..56].copy_from_slice(&27_800i32.to_le_bytes());
    let p = guess_params(&id, &v).expect("params");
    assert_eq!((p.sample_rate, p.channels, p.bit_rate), (Some(16_000), Some(2), Some(27_800)));
    v[48] = 9;
    v[52..56].copy_from_slice(&(-1i32).to_le_bytes());
    let p = guess_params(&id, &v).expect("params");
    assert_eq!((p.channels, p.bit_rate), (Some(1), None));
    assert_eq!(guess_params(&id, &v[..52]).expect("params").bit_rate, None);
    assert_eq!(guess_params(&id, &v[..51]).unwrap_err(), Error::SpeexHeaderTooShort);
}

#[test]
fn flac_identification() {
    let id = CodecId::new("flac");
    let mut v = vec![0u8; 51];
    let packed: u32 = (44_100 << 12) | (1 << 9) | (15 << 4);
    v[27..31].copy_from_slice(&packed.to_be_bytes());
    let p = guess_params(&id, &v).expect("params");
    assert_eq!((p.sample_rate, p.channels), (Some(44_100), Some(2)));
    let p = guess_params(&id, &v[..30]).expect("params");
    assert_eq!((p.sample_rate, p.channels), (None, None));
}

#[test]
fn theora_identification() {
    let id = CodecId::new("theora");
    let p = guess_params(&id, &theora_id(318, 238, 2)).expect("params");
    assert_eq!(p.media_type, MediaType::Video);
    assert_eq!((p.width, p.height), (Some(318), Some(238)));
    assert_eq!(p.frame_rate, Some(Rational { num: 30_000, den: 1001 }));
    assert_eq!(p.pixel_format, Some(PixelFormat::Yuv422P));
    assert_eq!(p.bit_rate, Some(500_000));
    let p = guess_params(&id, &theora_id(0, 238, 1)).expect("params");
    assert_eq!((p.width, p.height, p.pixel_format), (Some(320), Some(240), None));
    let p = guess_params(&id, b"\x80theora").expect("params");
    assert_eq!((p.width, p.frame_rate), (None, None));
    let h = TheoraIdHeader::parse(&theora_id(1, 1, 0)).expect("header");
    assert_eq!(h.kfgshift, 6);
    assert!(h.granule().count_from_one);
}

#[test]
fn unknown_codecs_have_bare_parameters() {
    let p = guess_params(&CodecId::new("what"), b"anything").expect("params");
    assert_eq!(p.media_type, MediaType::Unknown);
    assert_eq!(p.codec_id.as_str(), "what");
    assert_eq!(p.sample_rate, None);
}

#[test]
fn sizes_are_laced() {
    assert_eq!(xiph_lace_size(0), vec![0]);
    assert_eq!(xiph_lace_size(254), vec![254]);
    assert_eq!(xiph_lace_size(255), vec![255, 0]);
    assert_eq!(xiph_lace_size(600), vec![255, 255, 90]);
    let packets = vec![vec![1u8; 30], vec![2u8; 256], vec![3u8; 2]];
    let laced = xiph_lace_three(&packets);
    assert_eq!(&laced[..4], &[2, 30, 255, 1]);
    assert_eq!(laced.len(), 4 + 30 + 256 + 2);
    assert_eq!(&laced[4..6], &[1, 1]);
    assert_eq!(laced[laced.len() - 1], 3);
}

#[test]
fn setup_bytes_follow_the_codec() {
    let three = vec![vec![1u8], vec![2u8], vec![3u8]];
    assert_eq!(
        build_codec_private(&CodecId::new("theora"), &three),
        vec![2, 1, 1, 1, 2, 3]
    );
    assert_eq!(build_codec_private(&CodecId::new("opus"), &three), vec![1]);
    assert_eq!(build_codec_private(&CodecId::new("opus"), &Vec::new()), Vec::<u8>::new());
    assert_eq!(build_codec_private(&CodecId::new("flac"), &three), vec![1, 2, 3]);
    let two = vec![vec![1u8], vec![2u8]];
    assert_eq!(build_codec_private(&CodecId::new("vorbis"), &two), vec![1, 2]);
}

fn comments(vendor: &[u8], entries: &[&[u8]]) -> Vec<u8> {
    let mut v = (vendor.len() as u32).to_le_bytes().to_vec();
    v.extend_from_slice(vendor);
    v.extend_from_slice(&(entries.len() as u32).to_le_bytes());
    for e in entries {
        v.extend_from_slice(&(e.len() as u32).to_le_bytes());
        v.extend_from_slice(e);
    }
    v
}

fn pair(a: &str, b: &str) -> (String, String) {
    (a.to_string(), b.to_string())
}

#[test]
fn comments_become_tags() {
    let mut out = Vec::new();
    let body = comments(
        b"enc 1.0",
        &[
            b"TITLE= A Song \t",
            b" Artist =\xC3\x89dith",
            b"novalue=",
            b"=noname",
            b"no separator",
            b"x=a=b",
        ],
    );
    parse_vorbis_comment(&body, &mut out);
    assert_eq!(
        out,
        vec![
            pair("vendor", "enc 1.0"),
            pair("title", "A Song"),
            pair("artist", "\u{c9}dith"),
            pair("x", "a=b"),
        ]
    );
}

#[test]
fn broken_comments_end_the_list() {
    let mut out = Vec::new();
    parse_vorbis_comment(b"\x05\x00\x00\x00abc", &mut out);
    parse_vorbis_comment(b"\x00\x00", &mut out);
    assert!(out.is_empty());
    let mut body = comments(b"", &[b"a=1", b"b=2"]);
    body.truncate(body.len() - 1);
    parse_vorbis_comment(&body, &mut out);
    assert_eq!(out, vec![pair("a", "1")]);
    out.clear();
    parse_vorbis_comment(&comments(b"", &[b"k=\xFFv"]), &mut out);
    assert_eq!(out, vec![pair("k", "\u{fffd}v")]);
}

#[test]
fn written_comments_come_back_in_order() {
    let vendor = "Encoder \u{e9}";
    let pairs = [("TITLE", "One = two"), ("Artist", "\u{fc}ber"), ("title", "again"), ("\u{c9}T", "x")];
    let entries: Vec<Vec<u8>> =
        pairs.iter().map(|(k, v)| format!("{}={}", k, v).into_bytes()).collect();
    let slices: Vec<&[u8]> = entries.iter().map(|e| e.as_slice()).collect();
    let mut body = comments(vendor.as_bytes(), &slices);
    body.extend_from_slice(b"trailing");
    let mut out = vec![("old".to_string(), "tag".to_string())];
    parse_vorbis_comment(&body, &mut out);
    let tag = |k: &str, v: &str| (k.to_string(), v.to_string());
    assert_eq!(
        out,
        vec![
            tag("old", "tag"),
            tag("vendor", vendor),
            tag("title", "One = two"),
            tag("artist", "\u{fc}ber"),
            tag("title", "again"),
            tag("\u{c9}t", "x"),
        ]
    );
}

#[test]
fn names_are_small_and_trimmed() {
    let mut out = Vec::new();
    push_comment("\u{2003}TITLE\u{c9} ", "\n v \u{3000}", &mut out);
    assert_eq!(out, vec![pair("title\u{c9}", "v")]);
    push_comment("  ", "v", &mut out);
    push_comment("n", "\u{a0}", &mut out);
    assert_eq!(out.len(), 1);
}

#[test]
fn each_codec_keeps_its_comments_elsewhere() {
    let body = comments(b"", &[b"t=v"]);
    let with = |prefix: &[u8]| {
        let mut v = prefix.to_vec();
        v.extend_from_slice(&body);
        v
    };
    let tags = |id: &str, packets: Vec<Vec<u8>>| {
        let mut out = Vec::new();
        parse_codec_comment(&CodecId::new(id), &packets, &mut out);
        out
    };
    let one = vec![pair("t", "v")];
    assert_eq!(tags("vorbis", vec![vec![], with(b"\x03vorbis")]), one);
    assert_eq!(tags("opus", vec![vec![], with(b"OpusTags")]), one);
    assert_eq!(tags("theora", vec![vec![], with(b"\x81theora")]), one);
    assert_eq!(tags("speex", vec![vec![], body.clone()]), one);
    assert_eq!(
        tags("flac", vec![with(b"\x04\0\0\0"), with(b"\x01\0\0\0"), with(b"\x84\0\0\0")]),
        one
    );
    assert!(tags("flac", vec![with(b"\x04\0\0\0")]).is_empty());
    assert!(tags("vorbis", vec![with(b"\x03vorbis")]).is_empty());
    assert!(tags("vorbis", vec![vec![], with(b"\x03theora")]).is_empty());
    assert!(tags("unknown", vec![vec![], body.clone()]).is_empty());
}

#[test]
fn timestamps_are_rescaled() {
    let audio = TimeBase::new(1, 48_000);
    let millis = TimeBase::new(1, 1000);
    assert_eq!(audio.rescale(48_000, millis), 1000);
    assert_eq!(TimeBase::new(1, 2).rescale(1, TimeBase::new(1, 1)), 1);
    assert_eq!(TimeBase::new(1, 2).rescale(-1, TimeBase::new(1, 1)), -1);
    assert_eq!(TimeBase::new(1, 3).rescale(1, TimeBase::new(1, 1)), 0);
    assert_eq!(TimeBase::new(1, 0).rescale(7, millis), 0);
    assert_eq!(TimeBase::new(i64::MAX, 1).rescale(i64::MAX, audio), i64::MAX);
    assert_eq!(TimeBase::new(i64::MAX, 1).rescale(i64::MIN, audio), i64::MIN);
    let odd = TimeBase::new(1001, 30_000);
    assert_eq!(odd.rescale(123_456_789, odd), 123_456_789);
}
