//! The Skeleton bitstream: what it says, and seeking by it.
use oxideav_ogg::crc;
use oxideav_ogg::damage::DamageKind;
use oxideav_ogg::demux::OggDemuxer;
use oxideav_ogg::duration::StartAnchor;
use oxideav_ogg::error::Error;
use oxideav_ogg::media::TimeBase;
use oxideav_ogg::seek::keypoint_floor;
use oxideav_ogg::session::open_concrete;
use oxideav_ogg::skeleton::{FisBone, FisHead, Fraction, Keypoint, SkelIndex};

const BOS: u8 = 2;
const EOS: u8 = 4;

fn page(flags: u8, granule: i64, serial: u32, seq: u32, packets: &[&[u8]]) -> Vec<u8> {
    let mut lacing = Vec::new();
    let mut body = Vec::new();
    for p in packets {
        for _ in 0..p.len() / 255 {
            lacing.push(255);
        }
        lacing.push((p.len() % 255) as u8);
        body.extend_from_slice(p);
    }
    laced(flags, granule, serial, seq, &lacing, &body)
}

/// A page with the given segment table and body.
fn laced(flags: u8, granule: i64, serial: u32, seq: u32, lacing: &[u8], body: &[u8]) -> Vec<u8> {
    let mut v = b"OggS\x00".to_vec();
    v.push(flags);
    v.extend_from_slice(&granule.to_le_bytes());
    v.extend_from_slice(&serial.to_le_bytes());
    v.extend_from_slice(&seq.to_le_bytes());
    v.extend_from_slice(&[0; 4]);
    v.push(lacing.len() as u8);
    v.extend_from_slice(lacing);
    v.extend_from_slice(body);
    let sum = crc::update(0, &v, 0, v.len());
    v[22..26].copy_from_slice(&sum.to_le_bytes());
    v
}

fn fishead(segment_length: u64) -> Vec<u8> {
    let mut v = b"fishead\0".to_vec();
    v.extend_from_slice(&[4, 0, 0, 0]);
    v.extend_from_slice(&0i64.to_le_bytes());
    v.extend_from_slice(&1000i64.to_le_bytes());
    v.extend_from_slice(&3600i64.to_le_bytes());
    v.extend_from_slice(&1i64.to_le_bytes());
    v.extend_from_slice(&[0; 20]);
    v.extend_from_slice(&segment_length.to_le_bytes());
    v.extend_from_slice(&0u64.to_le_bytes());
    v
}

fn fisbone(serial: u32, headers: u32, rate: i64, preroll: u32, shift: u8) -> Vec<u8> {
    let mut v = b"fisbone\0".to_vec();
    v.extend_from_slice(&44u32.to_le_bytes());
    v.extend_from_slice(&serial.to_le_bytes());
    v.extend_from_slice(&headers.to_le_bytes());
    v.extend_from_slice(&rate.to_le_bytes());
    v.extend_from_slice(&1i64.to_le_bytes());
    v.extend_from_slice(&5i64.to_le_bytes());
    v.extend_from_slice(&preroll.to_le_bytes());
    v.push(shift);
    v.extend_from_slice(&[0; 3]);
    v
}

fn varint(out: &mut Vec<u8>, mut n: u64) {
    while n >= 0x80 {
        out.push((n & 0x7F) as u8);
        n >>= 7;
    }
    out.push(n as u8 | 0x80);
}

fn index(serial: u32, denominator: i64, points: &[(u64, u64)]) -> Vec<u8> {
    let mut v = b"index\0".to_vec();
    v.extend_from_slice(&serial.to_le_bytes());
    v.extend_from_slice(&(points.len() as u64).to_le_bytes());
    v.extend_from_slice(&denominator.to_le_bytes());
    v.extend_from_slice(&[0; 16]);
    let mut last = (0, 0);
    for &(off, ts) in points {
        varint(&mut v, off - last.0);
        varint(&mut v, ts - last.1);
        last = (off, ts);
    }
    v
}

fn vorbis_id() -> Vec<u8> {
    let mut v = b"\x01vorbis".to_vec();
    v.extend_from_slice(&0u32.to_le_bytes());
    v.push(1);
    v.extend_from_slice(&1000u32.to_le_bytes());
    v.extend_from_slice(&[0; 12]);
    v.extend_from_slice(&[0xB8, 0x01]);
    v
}

/// A Vorbis stream of ten one-packet pages, one second each, with a Skeleton
/// that has the given index packet; also the offset of each data page.
fn indexed_file(segment: Option<u64>, points: &dyn Fn(&[u64]) -> Vec<u8>) -> (Vec<u8>, Vec<u64>) {
    let mut offsets = vec![0; 10];
    let mut length = 0u64;
    loop {
        let mut v = page(BOS, 0, 99, 0, &[&fishead(segment.unwrap_or(length))]);
        v.extend(page(BOS, 0, 1, 0, &[&vorbis_id()]));
        v.extend(page(0, 0, 99, 1, &[&fisbone(1, 3, 1000, 2, 0)]));
        v.extend(page(0, 0, 1, 1, &[b"\x03vorbis", b"\x05vorbis"]));
        v.extend(page(0, 0, 99, 2, &[&points(&offsets)]));
        v.extend(page(EOS, 0, 99, 3, &[b""]));
        let mut now = Vec::new();
        for i in 1..=10u32 {
            now.push(v.len() as u64);
            v.extend(page(0, 1000 * i as i64, 1, i + 1, &[&[i as u8; 3]]));
        }
        if now == offsets && length == v.len() as u64 {
            return (v, offsets);
        }
        offsets = now;
        length = v.len() as u64;
    }
}

fn open(input: Vec<u8>) -> OggDemuxer {
    open_concrete(input, 0, Vec::new()).expect("opens")
}

#[test]
fn skeleton_packets_are_parsed() {
    let head = FisHead::parse(&fishead(1234)).expect("head");
    assert_eq!((head.version_major, head.segment_length), (4, Some(1234)));
    assert_eq!(head.basetime, Fraction { numerator: 3600, denominator: 1 });
    assert_eq!(head.presentation_time, Fraction { numerator: 0, denominator: 1000 });
    let mut old = fishead(7);
    old[8] = 3;
    assert_eq!(FisHead::parse(&old[..64]).expect("head").segment_length, None);
    assert!(FisHead::parse(&fishead(7)[..79]).is_none());
    assert!(FisHead::parse(b"fishead").is_none());
    let bone = FisBone::parse(&fisbone(8, 3, 25, 2, 6)).expect("bone");
    assert_eq!((bone.serial, bone.num_headers, bone.preroll, bone.granuleshift), (8, 3, 2, 6));
    assert_eq!(bone.granule_rate, Fraction { numerator: 25, denominator: 1 });
    assert_eq!(bone.basegranule, 5);
    assert!(FisBone::parse(&fisbone(8, 3, 25, 2, 6)[..51]).is_none());
    let ix = SkelIndex::parse(&index(8, 1000, &[(300, 0), (70_000, 5000)])).expect("index");
    assert_eq!((ix.serial, ix.timestamp_denominator), (8, 1000));
    assert_eq!(
        ix.keypoints,
        vec![
            Keypoint { offset: 300, timestamp: 0 },
            Keypoint { offset: 70_000, timestamp: 5000 }
        ]
    );
    let cut = index(8, 1000, &[(300, 0), (70_000, 5000)]);
    assert!(SkelIndex::parse(&cut[..cut.len() - 1]).is_none());
}

#[test]
fn the_last_keypoint_before_the_target_is_the_floor() {
    let points = [(10, 5), (20, 7), (30, 7), (40, 9)];
    let ix = SkelIndex::parse(&index(1, 1000, &points)).expect("index");
    let floor = |t| keypoint_floor(&ix, t).map(|k| k.offset);
    assert_eq!(floor(4), None);
    assert_eq!(floor(5), Some(10));
    assert_eq!(floor(7), Some(30));
    assert_eq!(floor(8), Some(30));
    assert_eq!(floor(100), Some(40));
    let bad = SkelIndex::parse(&index(1, 0, &points)).expect("index");
    assert_eq!(keypoint_floor(&bad, 100), None);
}

#[test]
fn the_skeleton_is_no_stream() {
    let (v, _) = indexed_file(None, &|_| index(1, 1000, &[]));
    let mut d = open(v);
    assert_eq!(d.streams().len(), 1);
    let sk = d.skeleton().expect("skeleton");
    assert_eq!((sk.serial, sk.bones.len(), sk.indexes.len()), (99, 1, 1));
    assert_eq!(d.track_order_len(), 2);
    assert_eq!((d.track_order_serial(0), d.track_order_serial(1)), (Some(99), Some(1)));
    assert_eq!(d.track_order_serial(2), None);
    assert_eq!((d.track_order_index(99), d.track_order_index(1)), (Some(0), Some(1)));
    assert_eq!(
        d.start_anchor(0),
        Some(StartAnchor {
            basetime: Fraction { numerator: 3600, denominator: 1 },
            basegranule: 5,
            granule_rate: Fraction { numerator: 1000, denominator: 1 },
        })
    );
    d.set_start_time(0, 3_600_005);
    assert_eq!(d.streams()[0].start_time, Some(3_600_005));
    assert_eq!(d.tail_spans(), vec![(10_000, TimeBase::new(1, 1000))]);
    let mut n = 0;
    while d.next_packet().is_ok() {
        n += 1;
    }
    assert_eq!(n, 10);
    assert_eq!(d.damage_event_total(), 0);
    assert_eq!(d.link_count(), 1);
    d.build_seek_index();
    assert_eq!(d.link_count(), 1);
    assert_eq!(d.skeleton().expect("skeleton").bones.len(), 1);
}

#[test]
fn the_keyframe_index_is_followed() {
    let (v, offsets) = indexed_file(None, &|o| index(1, 1000, &[(o[1], 2000), (o[5], 6000)]));
    let mut d = open(v);
    assert_eq!(d.seek_to(0, 7500), Ok(6000));
    assert_eq!(d.input_position(), offsets[5]);
    assert_eq!(d.skeleton_index_seek_count(), 1);
    assert_eq!(d.next_packet().expect("packet").pts, Some(6000));
    // Before the first seek point the pages are searched.
    assert_eq!(d.seek_to(0, 1500), Ok(1000));
    assert_eq!(d.skeleton_index_seek_count(), 1);
    assert_eq!(d.skeleton_index_invalid_count(), 0);
}

#[test]
fn a_wrong_keyframe_index_is_rejected() {
    let (v, offsets) = indexed_file(None, &|o| index(1, 1000, &[(o[5] + 1, 6000)]));
    let mut d = open(v);
    assert_eq!(d.seek_to(0, 7500), Ok(7000));
    assert_eq!(d.input_position(), offsets[6]);
    assert_eq!((d.skeleton_index_seek_count(), d.skeleton_index_invalid_count()), (0, 1));
    let (v, _) = indexed_file(Some(77), &|o| index(1, 1000, &[(o[5], 6000)]));
    let mut d = open(v);
    assert_eq!(d.seek_to(0, 7500), Ok(7000));
    assert_eq!((d.skeleton_index_seek_count(), d.skeleton_index_invalid_count()), (0, 1));
    let (v, _) = indexed_file(Some(0), &|o| index(1, 1000, &[(o[5], 6000)]));
    let mut d = open(v);
    assert_eq!(d.seek_to(0, 7500), Ok(6000));
}

#[test]
fn preroll_moves_back() {
    let (v, offsets) = indexed_file(None, &|_| index(1, 1000, &[]));
    let mut d = open(v);
    assert_eq!(d.seek_to_with_preroll(0, 7500), Ok(7000));
    assert_eq!(d.input_position(), offsets[4]);
    assert_eq!(d.preroll_seek_count(), 1);
    assert_eq!(d.next_packet().expect("packet").pts, Some(5000));
    assert_eq!(d.seek_to_with_preroll(0, 1500), Ok(1000));
    assert_eq!(d.input_position(), offsets[0]);
    assert_eq!(d.preroll_seek_count(), 1);
    assert_eq!(
        d.collect_stream_pages_until(1, offsets[2], 3),
        vec![(offsets[0], 1), (offsets[1], 1)]
    );
    assert_eq!(d.collect_stream_pages_until(1, offsets[2], 2)[0].1, 1);
}

#[test]
fn a_track_description_tells_keyframes() {
    let mut v = page(BOS, 0, 99, 0, &[&fishead(0)]);
    v.extend(page(BOS, 0, 1, 0, &[b"\x80theora unparsed"]));
    v.extend(page(0, 0, 99, 1, &[&fisbone(1, 3, 25, 0, 6)]));
    v.extend(page(0, 0, 1, 1, &[b"\x81theora", b"\x82theora"]));
    v.extend(page(EOS, 0, 99, 2, &[b""]));
    let data = |g: i64, seq: u32| page(0, g, 1, seq, &[b"f"]);
    v.extend(data(0, 2));
    v.extend(data(1, 3));
    let key = v.len() as u64;
    v.extend(data(2 << 6, 4));
    v.extend(data((2 << 6) | 1, 5));
    v.extend(data((2 << 6) | 2, 6));
    let mut d = open(v);
    assert_eq!(d.stream_granuleshift(0), Some(6));
    let flags: Vec<bool> = (0..5).map(|_| d.next_packet().expect("packet").keyframe).collect();
    assert_eq!(flags, vec![true, false, true, false, false]);
    d.build_seek_index();
    // One frame is 40 ms, and the time base is microseconds.
    assert_eq!(d.seek_to(0, 160_000), Ok((2 << 6) | 2));
    assert_eq!(d.seek_to_keyframe(0, 160_000), Ok(2 << 6));
    assert_eq!(d.input_position(), key);
    assert_eq!(d.tail_spans(), vec![(4, TimeBase::new(1, 25))]);
}

#[test]
fn a_stream_with_the_skeletons_serial_is_refused() {
    let mut v = page(BOS, 0, 99, 0, &[&fishead(0)]);
    v.extend(page(BOS, 0, 99, 0, &[&vorbis_id()]));
    v.extend(page(BOS, 0, 1, 0, &[&vorbis_id()]));
    v.extend(page(0, 0, 1, 1, &[b"\x03vorbis", b"\x05vorbis"]));
    v.extend(page(EOS, 0, 99, 1, &[b""]));
    let d = open(v);
    assert_eq!(d.streams().len(), 1);
    assert_eq!(d.duplicate_serial_count(), 1);
    let e = d.damage_events()[0];
    assert_eq!((e.kind, e.serial), (DamageKind::DuplicateSerial, Some(99)));
}

/// A Skeleton, two streams taking turns, a packet across pages with an empty
/// page inside it, and a second link: everything comes back, and nothing is
/// counted as damage.
#[test]
fn a_whole_file_is_read_back() {
    let opus = |pre: u16| {
        let mut v = b"OpusHead\x01\x02".to_vec();
        v.extend_from_slice(&pre.to_le_bytes());
        v.extend_from_slice(&48_000u32.to_le_bytes());
        v.extend_from_slice(&[0, 0, 0]);
        v
    };
    let mut tags = b"OpusTags".to_vec();
    tags.extend_from_slice(&[0; 8]);
    let mut comment = b"\x03vorbis".to_vec();
    comment.extend_from_slice(&[0; 8]);
    comment.push(1);
    let long: Vec<u8> = (0..510u32).map(|i| i as u8).collect();

    let mut file = page(2, 0, 9, 0, &[&fishead(0)]);
    file.extend(page(2, 0, 1, 0, &[&vorbis_id()]));
    file.extend(page(2, 0, 2, 0, &[&opus(312)]));
    file.extend(page(0, 0, 9, 1, &[&fisbone(1, 3, 48_000, 2, 0)]));
    file.extend(page(0, 0, 2, 1, &[&tags]));
    file.extend(page(0, 0, 1, 1, &[&comment, b"\x05vorbis"]));
    file.extend(page(4, 0, 9, 2, &[b""]));
    file.extend(page(0, 960, 2, 2, &[b"o1"]));
    // Both halves of a packet of 510 bytes, and an empty page between them.
    file.extend(laced(0, -1, 1, 2, &[255], &long[..255]));
    file.extend(laced(1, -1, 1, 3, &[], &[]));
    file.extend(page(4, 1920, 2, 3, &[b"o2", b"o3"]));
    file.extend(laced(5, 2048, 1, 4, &[255, 0], &long[255..]));
    // The second link.
    file.extend(page(2, 0, 3, 0, &[&opus(0)]));
    file.extend(page(0, 0, 3, 1, &[&tags]));
    file.extend(page(4, 960, 3, 2, &[b"p1"]));

    let mut d = open(file);
    assert_eq!(d.link_count(), 1);
    let mut got: Vec<Vec<Vec<u8>>> = vec![Vec::new(); 3];
    loop {
        match d.next_packet() {
            Ok(p) => got[p.stream_index as usize].push(p.data),
            Err(e) => {
                assert_eq!(e, Error::Eof);
                break;
            }
        }
    }
    assert_eq!(got[0], vec![long]);
    assert_eq!(got[1], vec![b"o1".to_vec(), b"o2".to_vec(), b"o3".to_vec()]);
    assert_eq!(got[2], vec![b"p1".to_vec()]);
    assert_eq!(d.link_count(), 2);
    assert_eq!(d.damage_event_total(), 0);
}
