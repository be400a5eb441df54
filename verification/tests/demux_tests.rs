//! Whole bitstreams: opening, reading, damage, chaining, indexing, seeking.
use oxideav_ogg::crc;
use oxideav_ogg::damage::{DamageEvent, DamageKind};
use oxideav_ogg::demux::OggDemuxer;
use oxideav_ogg::error::Error;
use oxideav_ogg::info::{first_packets, probe};
use oxideav_ogg::media::{CodecId, TimeBase};
use oxideav_ogg::page::{Page, PageError};
use oxideav_ogg::session::open_concrete;

const BOS: u8 = 2;
const EOS: u8 = 4;
const CONT: u8 = 1;

/// A page with the given segment table and body.
fn raw_page(flags: u8, granule: i64, serial: u32, seq: u32, lacing: &[u8], body: &[u8]) -> Vec<u8> {
    let mut v = b"OggS\x00".to_vec();
    v.push(flags);
    v.extend_from_slice(&granule.to_le_bytes());
    v.extend_from_slice(&serial.to_le_bytes());
    v.extend_from_slice(&seq.to_le_bytes());
    v.extend_from_slice(&[0; 4]);
    v.push(lacing.len() as u8);
    v.extend_from_slice(lacing);
    v.extend_from_slice(body);
    let sum = crc::update(0, &v, 0, v.len());
    v[22..26].copy_from_slice(&sum.to_le_bytes());
    v
}

/// A page of whole packets.
fn page(flags: u8, granule: i64, serial: u32, seq: u32, packets: &[&[u8]]) -> Vec<u8> {
    let mut lacing = Vec::new();
    let mut body = Vec::new();
    for p in packets {
        for _ in 0..p.len() / 255 {
            lacing.push(255);
        }
        lacing.push((p.len() % 255) as u8);
        body.extend_from_slice(p);
    }
    raw_page(flags, granule, serial, seq, &lacing, &body)
}

fn vorbis_id() -> Vec<u8> {
    let mut v = b"\x01vorbis".to_vec();
    v.extend_from_slice(&0u32.to_le_bytes());
    v.push(2);
    v.extend_from_slice(&48_000u32.to_le_bytes());
    v.extend_from_slice(&[0; 12]);
    v.extend_from_slice(&[0xB8, 0x01]);
    v
}

fn vorbis_comment() -> Vec<u8> {
    let mut v = b"\x03vorbis".to_vec();
    v.extend_from_slice(&[0, 0, 0, 0, 1, 0, 0, 0, 7, 0, 0, 0]);
    v.extend_from_slice(b"TITLE=x");
    v.push(1);
    v
}

fn vorbis_setup() -> Vec<u8> {
    let mut v = b"\x05vorbis".to_vec();
    v.extend_from_slice(&[0; 16]);
    v
}

fn opus_head(pre_skip: u16) -> Vec<u8> {
    let mut v = b"OpusHead\x01\x02".to_vec();
    v.extend_from_slice(&pre_skip.to_le_bytes());
    v.extend_from_slice(&48_000u32.to_le_bytes());
    v.extend_from_slice(&[0, 0, 0]);
    v
}

fn theora_id() -> Vec<u8> {
    let mut v = b"\x80theora".to_vec();
    v.extend_from_slice(&[3, 2, 1]);
    v.extend_from_slice(&20u16.to_be_bytes());
    v.extend_from_slice(&15u16.to_be_bytes());
    v.extend_from_slice(&[0; 8]);
    v.extend_from_slice(&25u32.to_be_bytes());
    v.extend_from_slice(&1u32.to_be_bytes());
    v.extend_from_slice(&[0; 10]);
    let tail: u16 = 6 << 5;
    v.extend_from_slice(&tail.to_be_bytes());
    v
}

fn vorbis_headers(serial: u32) -> Vec<u8> {
    let mut v = page(BOS, 0, serial, 0, &[&vorbis_id()]);
    v.extend(page(0, 0, serial, 1, &[&vorbis_comment(), &vorbis_setup()]));
    v
}

/// A Vorbis bitstream with `n` audio packets, one on each page.
fn vorbis_file(serial: u32, n: u32) -> Vec<u8> {
    let mut v = vorbis_headers(serial);
    for i in 1..=n {
        let flags = if i == n { EOS } else { 0 };
        v.extend(page(flags, 960 * i as i64, serial, i + 1, &[&[i as u8; 64]]));
    }
    v
}

fn open(input: Vec<u8>) -> OggDemuxer {
    open_concrete(input, 0, Vec::new()).expect("opens")
}

fn drain(d: &mut OggDemuxer) -> Vec<(u32, Option<i64>, Vec<u8>)> {
    let mut out = Vec::new();
    loop {
        match d.next_packet() {
            Ok(p) => out.push((p.stream_index, p.pts, p.data)),
            Err(e) => {
                assert_eq!(e, Error::Eof);
                return out;
            }
        }
    }
}

fn event(kind: DamageKind, off: Option<u64>, serial: Option<u32>, seq: Option<u32>) -> DamageEvent {
    DamageEvent { kind, byte_offset: off, serial, page_seq: seq }
}

#[test]
fn a_bitstream_reads_back() {
    let mut d = open(vorbis_file(7, 3));
    let s = &d.streams()[0];
    assert_eq!(s.params.codec_id.as_str(), "vorbis");
    assert_eq!(s.params.sample_rate, Some(48_000));
    assert_eq!(s.params.channels, Some(2));
    assert_eq!(s.time_base, TimeBase::new(1, 48_000));
    assert_eq!(s.params.extradata[..3], [2, 30, 27]);
    assert_eq!(
        s.params.extradata.len(),
        3 + vorbis_id().len() + vorbis_comment().len() + vorbis_setup().len()
    );
    assert_eq!(d.metadata()[0], ("title".to_string(), "x".to_string()));
    let got = drain(&mut d);
    assert_eq!(got.len(), 3);
    for (i, (stream, pts, data)) in got.iter().enumerate() {
        assert_eq!(*stream, 0);
        assert_eq!(*pts, Some(960 * (i as i64 + 1)));
        assert_eq!(*data, vec![i as u8 + 1; 64]);
    }
    assert_eq!(d.damage_event_total(), 0);
    assert_eq!(d.hole_count() + d.framing_error_count() + d.resync_count(), 0);
    assert_eq!(d.duplicate_serial_count(), 0);
    assert_eq!(d.link_count(), 1);
    assert_eq!(d.format_name(), "ogg");
}

#[test]
fn only_the_last_packet_of_a_page_is_stamped() {
    let mut v = vorbis_headers(1);
    v.extend(page(0, 500, 1, 2, &[b"one", b"two", b"three"]));
    let mut d = open(v);
    let a = d.next_packet().expect("packet");
    let b = d.next_packet().expect("packet");
    let c = d.next_packet().expect("packet");
    assert_eq!((a.pts, b.pts, c.pts), (None, None, Some(500)));
    assert!(a.keyframe && b.keyframe && c.keyframe);
    assert_eq!((a.unit_boundary, b.unit_boundary, c.unit_boundary), (false, false, true));
    assert_eq!(c.data, b"three".to_vec());
}

#[test]
fn packets_run_across_pages() {
    let mut v = vorbis_headers(1);
    let big: Vec<u8> = (0..700u32).map(|i| i as u8).collect();
    v.extend(raw_page(0, -1, 1, 2, &[255], &big[..255]));
    v.extend(raw_page(CONT, -1, 1, 3, &[255], &big[255..510]));
    v.extend(raw_page(CONT, 40, 1, 4, &[190, 2], &[&big[510..], b"yz"].concat()));
    let mut d = open(v);
    assert_eq!(
        drain(&mut d),
        vec![(0, None, big), (0, Some(40), b"yz".to_vec())]
    );
    assert_eq!(d.damage_event_total(), 0);
}

#[test]
fn a_missing_page_is_a_hole() {
    let mut v = vorbis_headers(1);
    v.extend(raw_page(0, -1, 1, 2, &[255], &[1; 255]));
    v.extend(raw_page(CONT, 9, 1, 4, &[3, 2], b"endok"));
    let mut d = open(v);
    assert_eq!(drain(&mut d), vec![(0, Some(9), b"ok".to_vec())]);
    assert_eq!(d.hole_count(), 1);
    assert_eq!(d.framing_error_count(), 0);
    assert_eq!(d.damage_events()[..], [event(DamageKind::Hole, None, Some(1), Some(4))]);
    assert_eq!(d.damage_events()[0].to_text(), "hole (serial 0x00000001) (page seq 4)");
}

#[test]
fn contradicting_continuation_is_a_framing_error() {
    let mut v = vorbis_headers(1);
    v.extend(raw_page(CONT, 5, 1, 2, &[3, 1], b"abcd"));
    v.extend(raw_page(0, -1, 1, 3, &[255], &[1; 255]));
    v.extend(page(0, 8, 1, 4, &[b"fresh"]));
    let mut d = open(v);
    assert_eq!(
        drain(&mut d),
        vec![(0, Some(5), b"d".to_vec()), (0, Some(8), b"fresh".to_vec())]
    );
    assert_eq!(d.framing_error_count(), 2);
    assert_eq!(d.hole_count(), 0);
    assert_eq!(d.damage_events()[1], event(DamageKind::FramingError, None, Some(1), Some(4)));
}

#[test]
fn junk_between_pages_is_skipped() {
    let mut v = vorbis_headers(1);
    v.extend_from_slice(b"junk OggS junk");
    let at = v.len() as u64;
    v.extend(page(0, 5, 1, 2, &[b"data"]));
    let mut d = open(v);
    assert_eq!(drain(&mut d), vec![(0, Some(5), b"data".to_vec())]);
    assert_eq!(d.resync_count(), 1);
    assert_eq!(d.damage_events()[..], [event(DamageKind::Resync, Some(at), Some(1), Some(2))]);
    assert_eq!(
        d.damage_events()[0].to_text(),
        format!("resync @ byte {at} (serial 0x00000001) (page seq 2)")
    );
}

#[test]
fn a_page_with_a_wrong_checksum_is_skipped() {
    let mut v = vorbis_headers(1);
    let mut bad = page(0, 5, 1, 2, &[b"lost"]);
    let n = bad.len();
    bad[n - 1] ^= 1;
    v.extend(bad);
    v.extend(page(0, 6, 1, 3, &[b"kept"]));
    let mut other = page(0, 7, 1, 4, &[b"version"]);
    other[4] = 1;
    v.extend(other);
    v.extend(page(0, 8, 1, 5, &[b"last"]));
    let mut d = open(v);
    assert_eq!(
        drain(&mut d),
        vec![(0, Some(6), b"kept".to_vec()), (0, Some(8), b"last".to_vec())]
    );
    assert_eq!(d.resync_count(), 2);
    assert_eq!(d.hole_count(), 2);
    assert_eq!(d.damage_event_total(), 4);
}

#[test]
fn a_cut_input_ends_normally() {
    let whole = vorbis_file(1, 2);
    let last = page(EOS, 1920, 1, 3, &[&[2; 64]]).len();
    let at = (whole.len() - last) as u64;
    for cut in [1, 30, last - 3, last - 2, last - 1] {
        let mut d = open(whole[..whole.len() - cut].to_vec());
        assert_eq!(drain(&mut d).len(), 1);
        assert_eq!(d.damage_event_total(), 1);
        let e = d.damage_events()[0];
        assert_eq!((e.kind, e.byte_offset), (DamageKind::TruncatedTail, Some(at)));
        assert_eq!(e.serial, if cut <= 64 { Some(1) } else { None });
    }
    let mut junk = whole.clone();
    junk.extend_from_slice(b"tail");
    let mut d = open(junk);
    assert_eq!(drain(&mut d).len(), 2);
    assert_eq!(d.damage_event_total(), 0);
    assert_eq!(d.next_packet().unwrap_err(), Error::Eof);
}

#[test]
fn kept_damage_is_bounded() {
    let mut v = vorbis_headers(1);
    for i in 0..100u32 {
        v.extend(page(0, i as i64, 1, 10 + 2 * i, &[b"x"]));
    }
    let mut d = open(v);
    drain(&mut d);
    assert_eq!(d.hole_count(), 100);
    assert_eq!(d.damage_event_total(), 100);
    assert_eq!(d.damage_events().len(), 64);
    assert_eq!(d.damage_events()[63].page_seq, Some(10 + 2 * 63));
    assert_eq!(DamageKind::DuplicateSerial.name(), "duplicate-serial");
    assert_eq!(DamageKind::FramingError.name(), "framing-error");
    assert_eq!(DamageKind::TruncatedTail.name(), "truncated-tail");
}

#[test]
fn streams_are_told_apart() {
    let mut v = page(BOS, 0, 5, 0, &[&vorbis_id()]);
    v.extend(page(BOS, 0, 9, 0, &[&opus_head(312)]));
    v.extend(page(0, 0, 5, 1, &[&vorbis_comment(), &vorbis_setup()]));
    v.extend(page(0, 0, 9, 1, &[b"OpusTags\0\0\0\0\0\0\0\0"]));
    v.extend(page(0, 100, 9, 2, &[b"o1"]));
    v.extend(page(0, 200, 5, 2, &[b"v1"]));
    v.extend(page(EOS, 300, 9, 3, &[b"o2"]));
    v.extend(page(0, 300, 77, 0, &[b"stranger"]));
    let mut d = open(v);
    assert_eq!(d.streams().len(), 2);
    assert_eq!(d.streams()[1].params.codec_id.as_str(), "opus");
    assert_eq!(d.streams()[1].time_base, TimeBase::new(1, 48_000));
    assert_eq!(d.streams()[1].params.extradata, opus_head(312));
    assert_eq!((d.opus_pre_skip(0), d.opus_pre_skip(1), d.opus_pre_skip(2)), (None, Some(312), None));
    assert_eq!((d.stream_serial(0), d.stream_serial(1), d.stream_serial(2)), (Some(5), Some(9), None));
    assert_eq!(d.track_order_len(), 2);
    assert_eq!(d.track_order_serial(1), Some(9));
    assert_eq!(d.track_order_index(9), Some(1));
    assert_eq!(d.track_order_index(77), None);
    assert_eq!(d.stream_granuleshift(1), Some(0));
    assert_eq!(
        drain(&mut d),
        vec![
            (1, Some(100), b"o1".to_vec()),
            (0, Some(200), b"v1".to_vec()),
            (1, Some(300), b"o2".to_vec())
        ]
    );
    assert_eq!(d.damage_event_total(), 0);
}

#[test]
fn theora_frames_are_counted() {
    let mut v = page(BOS, 0, 3, 0, &[&theora_id()]);
    v.extend(page(0, 0, 3, 1, &[b"\x81theora", b"\x82theora"]));
    // Frames 0 to 2 count from keyframe 1, frame 3 is a keyframe.
    v.extend(page(0, (1 << 6) | 2, 3, 2, &[b"a", b"b", b"c"]));
    v.extend(page(0, 4 << 6, 3, 3, &[b"d"]));
    v.extend(page(0, -1, 3, 4, &[b"e"]));
    let mut d = open(v);
    assert_eq!(d.streams()[0].time_base, TimeBase::new(1, 25));
    assert_eq!(d.stream_granuleshift(0), Some(6));
    let mut got = Vec::new();
    while let Ok(p) = d.next_packet() {
        got.push((p.pts, p.keyframe));
    }
    assert_eq!(
        got,
        vec![
            (Some(0), true),
            (Some(1), false),
            (Some(2), false),
            (Some(3), true),
            (Some(4), false)
        ]
    );
    assert_eq!(d.tail_spans(), vec![(4, TimeBase::new(1, 25))]);
    d.build_seek_index();
    assert_eq!(d.seek_to(0, 2), Ok((1 << 6) | 2));
    assert_eq!(d.seek_to(0, 3), Ok(4 << 6));
    assert_eq!(d.seek_to_keyframe(0, 3), Ok(4 << 6));
}

#[test]
fn the_registry_is_asked_first() {
    let input = vorbis_file(1, 2);
    let firsts = first_packets(&input);
    assert_eq!(firsts, vec![vorbis_id()]);
    let answers = vec![(vorbis_id(), CodecId::new("my_vorbis"))];
    let mut d = open_concrete(input.clone(), 0, answers).expect("opens");
    assert_eq!(d.streams()[0].params.codec_id.as_str(), "my_vorbis");
    assert_eq!(d.streams()[0].time_base, TimeBase::new(1, 1_000_000));
    // Without a known mapping the headers are data.
    assert_eq!(drain(&mut d).len(), 5);
    let mut chained = input;
    chained.extend(vorbis_file(2, 1));
    let answers = vec![(vorbis_id(), CodecId::new("my_vorbis"))];
    let mut d = open_concrete(chained, 0, answers).expect("opens");
    d.forget_answers();
    drain(&mut d);
    assert_eq!(d.streams()[1].params.codec_id.as_str(), "vorbis");
}

#[test]
fn inputs_without_streams_are_refused() {
    let refused = |v: Vec<u8>| open_concrete(v, 0, Vec::new()).unwrap_err();
    assert_eq!(refused(Vec::new()), Error::NoLogicalStreams);
    assert_eq!(refused(vec![0; 5000]), Error::NoLogicalStreams);
    assert_eq!(refused(page(0, 0, 1, 0, &[b"no stream"])), Error::NoLogicalStreams);
    assert_eq!(refused(page(BOS, 0, 1, 0, &[])), Error::BosPageWithoutPackets);
    assert_eq!(refused(page(BOS, 0, 1, 0, &[b"\x01vorbis"])), Error::VorbisHeaderTooShort);
    assert_eq!(refused(page(BOS, 0, 1, 0, &[b"fishead\0"])), Error::SkeletonHeaderTooShort);
}

#[test]
fn chained_links_follow_each_other() {
    let mut v = vorbis_file(1, 2);
    v.extend(vorbis_file(2, 3));
    let mut d = open(v.clone());
    assert_eq!(d.link_count(), 1);
    let got = drain(&mut d);
    assert_eq!(got.len(), 5);
    assert_eq!(got[2], (1, Some(960), vec![1; 64]));
    assert_eq!(d.streams().len(), 2);
    assert_eq!(d.link_count(), 2);
    assert_eq!((d.stream_link_index(0), d.stream_link_index(1)), (Some(0), Some(1)));
    assert_eq!(d.stream_link_index(2), None);
    assert_eq!(d.damage_event_total(), 0);
    // The scan finds the second link too.
    let mut d = open(v);
    assert!(d.build_seek_index());
    assert_eq!(d.link_count(), 2);
    assert_eq!(d.streams()[1].params.codec_id.as_str(), "vorbis");
    assert_eq!(
        d.link_spans(),
        vec![(0, (1920, TimeBase::new(1, 48_000))), (1, (2880, TimeBase::new(1, 48_000)))]
    );
    d.populate_duration_from_index(&vec![(0, 40_000), (1, 60_000), (1, 50_000)]);
    assert_eq!(d.duration_micros(), Some(100_000));
    d.populate_duration_from_index(&vec![(0, -4)]);
    assert_eq!(d.duration_micros(), Some(100_000));
}

#[test]
fn a_serial_used_twice_starts_anew() {
    let mut v = vorbis_file(1, 1);
    v.extend(raw_page(0, -1, 1, 3, &[255], &[9; 255]));
    v.extend(vorbis_file(1, 2));
    let mut d = open(v.clone());
    let got = drain(&mut d);
    assert_eq!(got.len(), 3);
    assert_eq!(d.streams().len(), 1);
    assert_eq!(d.duplicate_serial_count(), 1);
    assert_eq!(d.hole_count() + d.framing_error_count(), 0);
    assert_eq!(
        d.damage_events()[..],
        [event(DamageKind::DuplicateSerial, None, Some(1), Some(0))]
    );
    assert_eq!(d.link_count(), 2);
    assert_eq!(d.stream_link_index(0), Some(1));
    let mut d = open(v);
    d.build_seek_index();
    assert_eq!(d.duplicate_serial_count(), 1);
    assert_eq!(d.damage_event_total(), 0);
    drain(&mut d);
    assert_eq!(d.duplicate_serial_count(), 1);
}

#[test]
fn indexing_twice_is_indexing_once() {
    let mut d = open(vorbis_file(1, 20));
    d.build_seek_index();
    let n = d.seek_index_len();
    assert_eq!(n, 22);
    d.build_seek_index();
    assert_eq!(d.seek_index_len(), n);
    drain(&mut d);
    assert_eq!(d.seek_index_len(), n);
    let mut cut = vorbis_file(1, 3);
    cut.extend_from_slice(b"OggS");
    let mut d = open(cut);
    assert!(!d.build_seek_index());
}

#[test]
fn seeks_find_the_page() {
    for indexed in [false, true] {
        let mut d = open(vorbis_file(1, 300));
        if indexed {
            d.build_seek_index();
        }
        for pts in [960, 961, 1919, 1920, 100_000, 288_000, 400_000] {
            let want = pts.min(288_000) / 960 * 960;
            assert_eq!(d.seek_to(0, pts), Ok(want), "pts {pts} indexed {indexed}");
            let p = d.next_packet().expect("packet");
            assert_eq!(p.pts, Some(want));
        }
        assert_eq!(d.seek_to(0, 5), Ok(0));
        assert_eq!(d.seek_to(0, -5), Ok(0));
        assert_eq!(d.seek_to(1, 5), Err(Error::StreamIndexOutOfRange(1)));
        assert_eq!(d.seek_to_keyframe(1, 5), Err(Error::NoStreamForIndex(1)));
        assert_eq!(d.seek_to_with_preroll(1, 5), Err(Error::NoStreamForIndex(1)));
        assert_eq!(d.seek_to_keyframe(0, 1919), Ok(960));
        assert_eq!(d.seek_to_with_preroll(0, 1919), Ok(960));
        assert_eq!(d.preroll_seek_count(), 0);
    }
}

#[test]
fn opus_seeks_by_played_samples() {
    let mut v = page(BOS, 0, 9, 0, &[&opus_head(312)]);
    v.extend(page(0, 0, 9, 1, &[b"OpusTags\0\0\0\0\0\0\0\0"]));
    for i in 1..=10u32 {
        v.extend(page(0, 960 * i as i64 + 312, 9, i + 1, &[b"o"]));
    }
    let mut d = open(v);
    d.build_seek_index();
    assert_eq!(d.seek_to(0, 1920), Ok(1920 + 312));
    assert_eq!(d.seek_to(0, 1919), Ok(960 + 312));
    assert_eq!(d.tail_spans(), vec![(9600, TimeBase::new(1, 48_000))]);
    d.populate_duration(&vec![-3, 200_000, 150_000]);
    assert_eq!(d.duration_micros(), Some(200_000));
    d.populate_duration(&Vec::new());
    assert_eq!(d.duration_micros(), None);
}

#[test]
fn some_streams_cannot_be_seeked() {
    let mut d = open(page(BOS, 0, 1, 0, &[b"mystery"]));
    assert_eq!(d.seek_to(0, 0), Err(Error::SeekUnsupported(0)));
    let mut v = page(BOS, 0, 1, 0, &[b"\x80theora too short"]);
    v.extend(page(0, 0, 1, 1, &[b"c", b"s"]));
    let mut d = open(v);
    assert_eq!(d.seek_to(0, 0), Err(Error::UnknownFrameLayout(0)));
}

#[test]
fn a_seek_that_finds_no_page_stops_where_its_scan_ends() {
    let mut v = page(BOS, -1, 1, 0, &[&vorbis_id()]);
    let second = v.len();
    v.extend(page(0, -1, 1, 1, &[&vorbis_comment(), &vorbis_setup()]));
    let segments = v[second + 26] as usize;
    let mut cut = v.clone();
    cut.extend_from_slice(b"OggS");
    let mut d = open(v);
    assert_eq!(d.seek_to(0, 0), Err(Error::NoSeekablePage(0)));
    assert_eq!(d.input_position(), (second + 27 + segments) as u64);
    assert_eq!(d.next_packet().unwrap_err(), Error::Eof);
    let len = cut.len() as u64;
    let mut d = open(cut);
    assert_eq!(d.seek_to(0, 0), Err(Error::NoSeekablePage(0)));
    assert_eq!(d.input_position(), len);
}

#[test]
fn pages_are_verified() {
    let good = page(BOS, 77, 5, 6, &[b"packet"]);
    let (p, end) = Page::parse(&good, 0).expect("page");
    assert_eq!(end, good.len());
    assert_eq!((p.flags, p.granule_position, p.serial, p.seq_no), (BOS, 77, 5, 6));
    assert_eq!((p.lacing.clone(), p.data.clone()), (vec![6], b"packet".to_vec()));
    assert!(p.is_first() && !p.is_last() && !p.is_continued());
    assert_eq!(Page::parse(&good, 1).unwrap_err(), PageError::NoCapture);
    assert_eq!(Page::parse(&good[..good.len() - 1], 0).unwrap_err(), PageError::Truncated);
    assert_eq!(Page::parse(&good[..20], 0).unwrap_err(), PageError::Truncated);
    let mut bad = good.clone();
    bad[30] ^= 0x40;
    assert_eq!(Page::parse(&bad, 0).unwrap_err(), PageError::Checksum);
    bad[4] = 1;
    assert_eq!(Page::parse(&bad, 0).unwrap_err(), PageError::Version);
}

#[test]
fn the_checksum_is_the_one_of_the_format() {
    // Checksum of "123456789" with this generator, start value 0 and no final
    // inversion.
    assert_eq!(crc::update(0, b"123456789", 0, 9), 0x89A1_897F);
    let half = crc::update(0, b"123456789", 0, 4);
    assert_eq!(crc::update(half, b"123456789", 4, 9), 0x89A1_897F);
}

#[test]
fn ogg_is_recognised() {
    assert_eq!(probe(b"OggS\x00"), 100);
    assert_eq!(probe(b"OggS"), 100);
    assert_eq!(probe(b"Ogg"), 0);
    assert_eq!(probe(b"RIFFOggS"), 0);
}
