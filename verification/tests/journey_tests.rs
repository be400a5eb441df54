//! Travelling through a bitstream: reading, seeking forward and back, and
//! indexing, in any order.
use oxideav_ogg::crc;
use oxideav_ogg::damage::DamageKind;
use oxideav_ogg::demux::OggDemuxer;
use oxideav_ogg::error::Error;
use oxideav_ogg::session::open_concrete;
use oxideav_ogg::skeleton::FisBone;

const CONT: u8 = 1;
const BOS: u8 = 2;
const EOS: u8 = 4;

/// A page with the given segment table and body.
fn laced(flags: u8, granule: i64, serial: u32, seq: u32, lacing: &[u8], body: &[u8]) -> Vec<u8> {
    let mut v = b"OggS\x00".to_vec();
    v.push(flags);
    v.extend_from_slice(&granule.to_le_bytes());
    v.extend_from_slice(&serial.to_le_bytes());
    v.extend_from_slice(&seq.to_le_bytes());
    v.extend_from_slice(&[0; 4]);
    v.push(lacing.len() as u8);
    v.extend_from_slice(lacing);
    v.extend_from_slice(body);
    let sum = crc::update(0, &v, 0, v.len());
    v[22..26].copy_from_slice(&sum.to_le_bytes());
    v
}

/// A page of whole packets.
fn page(flags: u8, granule: i64, serial: u32, seq: u32, packets: &[&[u8]]) -> Vec<u8> {
    let mut lacing = Vec::new();
    let mut body = Vec::new();
    for p in packets {
        for _ in 0..p.len() / 255 {
            lacing.push(255);
        }
        lacing.push((p.len() % 255) as u8);
        body.extend_from_slice(p);
    }
    laced(flags, granule, serial, seq, &lacing, &body)
}

fn vorbis_id() -> Vec<u8> {
    let mut v = b"\x01vorbis".to_vec();
    v.extend_from_slice(&0u32.to_le_bytes());
    v.push(2);
    v.extend_from_slice(&48_000u32.to_le_bytes());
    v.extend_from_slice(&[0; 12]);
    v.extend_from_slice(&[0xB8, 0x01]);
    v
}

fn vorbis_comment(tag: &str) -> Vec<u8> {
    let mut v = b"\x03vorbis".to_vec();
    v.extend_from_slice(&[0, 0, 0, 0, 1, 0, 0, 0]);
    v.extend_from_slice(&(tag.len() as u32).to_le_bytes());
    v.extend_from_slice(tag.as_bytes());
    v.push(1);
    v
}

fn opus_head() -> Vec<u8> {
    let mut v = b"OpusHead\x01\x02".to_vec();
    v.extend_from_slice(&0u16.to_le_bytes());
    v.extend_from_slice(&48_000u32.to_le_bytes());
    v.extend_from_slice(&[0, 0, 0]);
    v
}

fn opus_tags() -> Vec<u8> {
    let mut v = b"OpusTags".to_vec();
    v.extend_from_slice(&[0; 8]);
    v
}

fn theora_id() -> Vec<u8> {
    let mut v = b"\x80theora".to_vec();
    v.extend_from_slice(&[3, 2, 1]);
    v.extend_from_slice(&20u16.to_be_bytes());
    v.extend_from_slice(&15u16.to_be_bytes());
    v.extend_from_slice(&[0; 8]);
    v.extend_from_slice(&25u32.to_be_bytes());
    v.extend_from_slice(&1u32.to_be_bytes());
    v.extend_from_slice(&[0; 10]);
    let tail: u16 = 6 << 5;
    v.extend_from_slice(&tail.to_be_bytes());
    v
}

fn fishead() -> Vec<u8> {
    let mut v = b"fishead\0".to_vec();
    v.extend_from_slice(&[4, 0, 0, 0]);
    v.extend_from_slice(&0i64.to_le_bytes());
    v.extend_from_slice(&1000i64.to_le_bytes());
    v.extend_from_slice(&0i64.to_le_bytes());
    v.extend_from_slice(&1i64.to_le_bytes());
    v.extend_from_slice(&[0; 36]);
    v
}

fn fisbone(serial: u32, headers: &str) -> Vec<u8> {
    let mut v = b"fisbone\0".to_vec();
    v.extend_from_slice(&44u32.to_le_bytes());
    v.extend_from_slice(&serial.to_le_bytes());
    v.extend_from_slice(&3u32.to_le_bytes());
    v.extend_from_slice(&48_000i64.to_le_bytes());
    v.extend_from_slice(&1i64.to_le_bytes());
    v.extend_from_slice(&0i64.to_le_bytes());
    v.extend_from_slice(&2u32.to_le_bytes());
    v.push(0);
    v.extend_from_slice(&[0; 3]);
    v.extend_from_slice(headers.as_bytes());
    v
}

fn vorbis_headers(serial: u32, tag: &str) -> Vec<u8> {
    let mut v = page(BOS, 0, serial, 0, &[&vorbis_id()]);
    v.extend(page(0, 0, serial, 1, &[&vorbis_comment(tag), b"\x05vorbis"]));
    v
}

fn open(input: Vec<u8>) -> OggDemuxer {
    open_concrete(input, 0, Vec::new()).expect("opens")
}

fn drain(d: &mut OggDemuxer) -> Vec<(u32, Vec<u8>)> {
    let mut out = Vec::new();
    loop {
        match d.next_packet() {
            Ok(p) => out.push((p.stream_index, p.data)),
            Err(e) => {
                assert_eq!(e, Error::Eof);
                return out;
            }
        }
    }
}

fn assert_undamaged(d: &OggDemuxer) {
    assert_eq!(d.hole_count(), 0);
    assert_eq!(d.framing_error_count(), 0);
    assert_eq!(d.resync_count(), 0);
    assert_eq!(d.duplicate_serial_count(), 0);
    assert_eq!(d.damage_event_total(), 0);
}

/// A Skeleton, a Vorbis stream with one packet on each page, and an Opus
/// stream whose packets run across three pages.
fn travelled_file() -> Vec<u8> {
    let mut v = page(BOS, 0, 9, 0, &[&fishead()]);
    v.extend(page(BOS, 0, 1, 0, &[&vorbis_id()]));
    v.extend(page(BOS, 0, 2, 0, &[&opus_head()]));
    v.extend(page(0, 0, 9, 1, &[&fisbone(1, "Content-Type: audio/vorbis\r\n")]));
    v.extend(page(0, 0, 1, 1, &[&vorbis_comment("TITLE=x"), b"\x05vorbis"]));
    v.extend(page(0, 0, 2, 1, &[&opus_tags()]));
    v.extend(page(EOS, 0, 9, 2, &[b""]));
    let long = [7u8; 255];
    let mut seq = 2;
    for i in 1..=20u32 {
        let last = if i == 20 { EOS } else { 0 };
        v.extend(page(last, 960 * i as i64, 1, i + 1, &[&[i as u8; 40]]));
        match i % 3 {
            1 => v.extend(laced(0, -1, 2, seq, &[255], &long)),
            2 => v.extend(laced(CONT, -1, 2, seq, &[255], &long)),
            _ => v.extend(laced(CONT, 960 * i as i64, 2, seq, &[1], &[i as u8])),
        }
        seq += 1;
    }
    v
}

#[test]
fn jumping_around_a_clean_file_is_no_damage() {
    for indexed in [false, true] {
        let mut d = open(travelled_file());
        assert_eq!(d.link_count(), 1);
        if indexed {
            d.build_seek_index();
        }
        for (stream, pts) in
            [(0, 12_000), (0, 960), (1, 9_000), (0, 19_000), (0, 0), (1, 3_000), (0, 5_000)]
        {
            d.seek_to(stream, pts).expect("seeks");
            for _ in 0..3 {
                let _ = d.next_packet();
            }
            assert_undamaged(&d);
        }
        d.seek_to_with_preroll(0, 15_000).expect("seeks");
        drain(&mut d);
        d.seek_to_keyframe(0, 2_000).expect("seeks");
        drain(&mut d);
        d.build_seek_index();
        drain(&mut d);
        assert_undamaged(&d);
        assert_eq!(d.link_count(), 1);
        assert_eq!(d.streams().len(), 2);
        assert_eq!(d.stream_link_index(0), Some(0));
        assert_eq!(d.stream_link_index(1), Some(0));
        assert_eq!(d.skeleton().expect("skeleton").bones.len(), 1);
    }
}

#[test]
fn an_orphan_after_a_jump_is_dropped() {
    let mut d = open(travelled_file());
    d.build_seek_index();
    // Behind the eighth Vorbis page come the second and third page of an Opus
    // packet, whose first was jumped over.
    d.seek_to(0, 960 * 8).expect("seeks");
    let got = drain(&mut d);
    assert_eq!(got[0], (0, vec![8u8; 40]));
    assert_eq!(got[1], (0, vec![9u8; 40]));
    assert_eq!(got[2], (0, vec![10u8; 40]));
    let opus: Vec<&Vec<u8>> = got.iter().filter(|p| p.0 == 1).map(|p| &p.1).collect();
    assert_eq!(opus.len(), 3);
    assert!(opus.iter().all(|p| p.len() == 511));
    assert_undamaged(&d);
}

#[test]
fn going_back_to_the_start_reads_the_same_packets() {
    let mut file = page(BOS, 0, 1, 0, &[&vorbis_id(), &vorbis_comment("TITLE=x"), b"\x05vorbis"]);
    for i in 1..=4u32 {
        let last = if i == 4 { EOS } else { 0 };
        file.extend(page(last, 960 * i as i64, 1, i, &[&[i as u8; 20]]));
    }
    let mut d = open(file);
    let first = drain(&mut d);
    assert_eq!(first.len(), 4);
    let tags = d.metadata().clone();
    let extradata = d.streams()[0].params.extradata.clone();
    assert_eq!(d.seek_to(0, 0), Ok(0));
    assert_eq!(d.input_position(), 0);
    assert_eq!(drain(&mut d), first);
    assert_eq!(d.metadata(), &tags);
    assert_eq!(d.streams()[0].params.extradata, extradata);
    assert_undamaged(&d);
    assert_eq!(d.link_count(), 1);
    // Away again before all is read: no data is taken for headers.
    assert_eq!(d.seek_to(0, 0), Ok(0));
    assert_eq!(d.next_packet().expect("packet").data, vec![1u8; 20]);
    assert_eq!(d.seek_to(0, 2_900), Ok(2_880));
    assert_eq!(drain(&mut d), first[2..].to_vec());
}

#[test]
fn tags_of_every_stream_are_listed_once() {
    let mut file = vorbis_headers(1, "TITLE=one");
    file.extend(page(EOS, 960, 1, 2, &[b"a"]));
    file.extend(vorbis_headers(2, "TITLE=two"));
    file.extend(page(EOS, 960, 2, 2, &[b"b"]));
    let mut d = open(file);
    let tag = |v: &str| ("title".to_string(), v.to_string());
    assert_eq!(d.metadata(), &vec![tag("one")]);
    drain(&mut d);
    assert_eq!(d.metadata(), &vec![tag("one"), tag("two")]);
    assert_eq!(d.link_count(), 2);
}

#[test]
fn links_are_counted_once_however_they_are_met() {
    let link = |skeleton: u32, serial: u32| {
        let mut v = page(BOS, 0, skeleton, 0, &[&fishead()]);
        v.extend(page(BOS, 0, serial, 0, &[&vorbis_id()]));
        v.extend(page(EOS, 0, skeleton, 1, &[b""]));
        v.extend(page(0, 0, serial, 1, &[&vorbis_comment("TITLE=x"), b"\x05vorbis"]));
        v.extend(page(EOS, 960, serial, 2, &[b"data"]));
        v
    };
    let mut file = link(10, 1);
    file.extend(link(11, 2));
    file.extend(link(12, 3));
    let mut d = open(file);
    assert_eq!(d.link_count(), 1);
    d.build_seek_index();
    assert_eq!(d.link_count(), 3);
    assert_eq!(drain(&mut d).len(), 3);
    assert_eq!(d.link_count(), 3);
    for (stream, pts) in [(2, 960), (0, 960), (1, 960), (0, 0)] {
        d.seek_to(stream, pts).expect("seeks");
        drain(&mut d);
    }
    assert_eq!(d.link_count(), 3);
    assert_eq!(d.stream_link_index(0), Some(0));
    assert_eq!(d.stream_link_index(1), Some(1));
    assert_eq!(d.stream_link_index(2), Some(2));
    assert_undamaged(&d);
}

#[test]
fn indexing_counts_the_same_links_however_far_reading_is() {
    let link = |serial: u32| {
        let mut v = vorbis_headers(serial, "TITLE=x");
        v.extend(page(0, 960, serial, 2, &[b"a"]));
        v.extend(page(EOS, 1_920, serial, 3, &[b"b"]));
        v
    };
    let mut file = link(1);
    file.extend(link(2));
    file.extend(link(3));
    for reads in 0..=7 {
        let mut d = open(file.clone());
        for _ in 0..reads {
            let _ = d.next_packet();
        }
        d.build_seek_index();
        assert_eq!(d.link_count(), 3);
        for stream in 0..3u32 {
            assert_eq!(d.stream_link_index(stream), Some(stream));
        }
        assert_undamaged(&d);
    }
}

#[test]
fn kept_events_agree_with_the_counters() {
    let mut file = vorbis_headers(1, "TITLE=x");
    file.extend(page(0, 960, 1, 2, &[b"a"]));
    file.extend_from_slice(b"junk");
    file.extend(page(0, 1_920, 1, 5, &[b"b"]));
    file.extend(page(CONT, 2_880, 1, 6, &[b"c", b"d"]));
    file.extend(page(0, 3_840, 1, 9, &[b"e"]));
    let mut d = open(file);
    drain(&mut d);
    let count = |k: DamageKind| d.damage_events().iter().filter(|e| e.kind == k).count() as u64;
    assert_eq!((d.hole_count(), d.framing_error_count(), d.resync_count()), (2, 1, 1));
    assert_eq!(count(DamageKind::Hole), 2);
    assert_eq!(count(DamageKind::FramingError), 1);
    assert_eq!(count(DamageKind::Resync), 1);
    assert_eq!(d.damage_event_total(), 4);
}

#[test]
fn a_keyframe_seek_reaches_the_keyframe() {
    let mut file = page(BOS, 0, 1, 0, &[&theora_id()]);
    file.extend(page(0, 0, 1, 1, &[b"\x81theora", b"\x82theora"]));
    // Frames 0 to 7; 0 and 4 are keyframes, and frames count from 1.
    for i in 0..8u32 {
        let keyframe = if i < 4 { 1i64 } else { 5 };
        let granule = (keyframe << 6) | (i as i64 + 1 - keyframe);
        file.extend(page(0, granule, 1, i + 2, &[&[i as u8; 10]]));
    }
    let mut d = open(file);
    d.build_seek_index();
    let landed = d.seek_to(0, 6).expect("seeks");
    let there = d.input_position();
    assert_eq!(landed, (5 << 6) | 2);
    assert_eq!(d.seek_to_keyframe(0, 6), Ok(5 << 6));
    assert!(d.input_position() < there);
    assert_eq!(d.next_packet().expect("packet").data, vec![4u8; 10]);
    assert_eq!(d.seek_to(0, 4), Ok(5 << 6));
    let there = d.input_position();
    assert_eq!(d.seek_to_keyframe(0, 4), Ok(5 << 6));
    assert_eq!(d.input_position(), there);
    assert_undamaged(&d);
}

#[test]
fn track_descriptions_hold_their_message_headers() {
    let bone = FisBone::parse(&fisbone(
        1,
        "Content-Type: audio/vorbis\r\nRole:audio/main\r\nnonsense\r\nName:  first track ",
    ))
    .expect("bone");
    assert_eq!(bone.content_type(), Some("audio/vorbis"));
    assert_eq!(bone.role(), Some("audio/main"));
    assert_eq!(bone.name(), Some("first track"));
    assert_eq!(bone.message_header("NAME"), Some("first track"));
    assert_eq!(bone.message_header("Language"), None);
    assert_eq!(bone.message_headers.len(), 3);
    let bare = FisBone::parse(&fisbone(1, "")).expect("bone");
    assert!(bare.message_headers.is_empty());
    assert_eq!(bare.content_type(), None);
}

#[test]
fn a_first_page_that_continues_nothing_leaves_nothing_open() {
    let mut id = vorbis_id();
    id.resize(255, 0);
    let mut file = laced(BOS | CONT, 0, 1, 0, &[255], &id);
    file.extend(laced(CONT, 0, 1, 1, &[4], b"tail"));
    file.extend(page(0, 0, 1, 2, &[&vorbis_id(), &vorbis_comment("TITLE=x"), b"\x05vorbis"]));
    file.extend(page(EOS, 960, 1, 3, &[b"data"]));
    let mut d = open(file);
    assert_eq!(drain(&mut d), vec![(0, b"data".to_vec())]);
    assert_eq!((d.hole_count(), d.framing_error_count()), (0, 1));
    let event = &d.damage_events()[0];
    assert_eq!(event.kind, DamageKind::FramingError);
    assert_eq!((event.serial, event.page_seq), (Some(1), Some(1)));
}

#[test]
fn a_serial_used_again_is_filed_under_the_link_it_begins_in() {
    let link = |serial: u32| {
        let mut v = vorbis_headers(serial, "TITLE=x");
        v.extend(page(EOS, 960, serial, 2, &[b"a"]));
        v
    };
    let mut file = link(1);
    file.extend(link(1));
    file.extend(link(2));
    let mut plain = open(file.clone());
    drain(&mut plain);
    let mut d = open(file);
    d.build_seek_index();
    assert_eq!(d.link_count(), 3);
    assert_eq!(d.stream_link_index(0), Some(0));
    assert_eq!(d.stream_link_index(1), Some(2));
    drain(&mut d);
    for d in [&plain, &d] {
        assert_eq!(d.link_count(), 3);
        assert_eq!(d.stream_link_index(0), Some(1));
        assert_eq!(d.stream_link_index(1), Some(2));
        assert_eq!(d.duplicate_serial_count(), 1);
    }
}

#[test]
fn equal_descriptions_are_kept_and_a_page_read_again_adds_none() {
    let bone = fisbone(1, "Content-Type: audio/vorbis\r\n");
    let mut file = page(BOS, 0, 1, 0, &[&vorbis_id(), &vorbis_comment("TITLE=x"), b"\x05vorbis"]);
    file.extend(page(BOS, 0, 9, 0, &[&fishead()]));
    file.extend(page(0, 0, 9, 1, &[&bone, &bone]));
    file.extend(page(EOS, 0, 9, 2, &[b""]));
    file.extend(page(EOS, 960, 1, 1, &[b"data"]));
    let mut d = open(file);
    assert_eq!(drain(&mut d).len(), 1);
    assert_eq!(d.skeleton().expect("skeleton").bones.len(), 2);
    assert_eq!(d.seek_to(0, 0), Ok(0));
    assert_eq!(d.input_position(), 0);
    assert_eq!(drain(&mut d).len(), 1);
    assert_eq!(d.skeleton().expect("skeleton").bones.len(), 2);
    assert_undamaged(&d);
}

/// A file whose data pages hold a whole page of another serial number.
fn file_hiding(hidden: &[u8]) -> Vec<u8> {
    let mut v = vorbis_headers(1, "TITLE=x");
    for i in 1..=12u32 {
        let mut body = vec![i as u8; 50];
        body.extend_from_slice(hidden);
        body.extend_from_slice(&[i as u8; 50]);
        let last = if i == 12 { EOS } else { 0 };
        v.extend(page(last, 960 * i as i64, 1, i + 1, &[&body]));
    }
    v
}

#[test]
fn a_hidden_page_of_another_serial_is_no_damage() {
    for flags in [BOS, 0] {
        let hidden = page(flags, 480, 77, 5, &[&vorbis_id()]);
        for indexed in [false, true] {
            let mut d = open(file_hiding(&hidden));
            if indexed {
                d.build_seek_index();
            }
            for pts in [9_600, 960, 5_000, 0, 11_520] {
                d.seek_to(0, pts).expect("seeks");
                let _ = d.next_packet();
                let _ = d.next_packet();
                assert_undamaged(&d);
            }
            drain(&mut d);
            assert_undamaged(&d);
            assert_eq!(d.link_count(), 1);
            assert_eq!(d.streams().len(), 1);
        }
    }
}

#[test]
fn reading_and_indexing_never_meet_a_hidden_page() {
    let hidden = page(BOS, 480, 1, 9, &[&vorbis_id()]);
    let mut d = open(file_hiding(&hidden));
    for _ in 0..3 {
        d.build_seek_index();
        for _ in 0..3 {
            let p = d.next_packet().expect("packet");
            assert_eq!(p.data.len(), 100 + hidden.len());
        }
        assert_eq!(d.link_count(), 1);
        assert_eq!(d.stream_link_index(0), Some(0));
        assert_undamaged(&d);
    }
}

#[test]
fn seeks_without_an_index_are_exact() {
    let mut file = vorbis_headers(1, "TITLE=x");
    for i in 1..=600u32 {
        let last = if i == 600 { EOS } else { 0 };
        file.extend(page(last, 960 * i as i64, 1, i + 1, &[&vec![i as u8; 700 + 13 * (i as usize % 50)]]));
    }
    let mut whole = open(file.clone());
    whole.build_seek_index();
    for k in 0..120i64 {
        let pts = 4_817 * k;
        let mut d = open(file.clone());
        let want = if pts > 960 * 600 { 960 * 600 } else { pts / 960 * 960 };
        assert_eq!(d.seek_to(0, pts), Ok(want));
        assert_eq!(whole.seek_to(0, pts), Ok(want));
        assert_eq!(d.input_position(), whole.input_position());
    }
}
