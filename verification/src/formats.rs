//! What packets and pages say, read back from how they are written.
use crate::bytes;
use crate::codec_id;
use crate::crc;
use crate::ident;
use crate::media::{MediaType, PixelFormat, Rational, TimeBase};
use crate::ogm;
use crate::page;
use crate::page::PageView;
use crate::reassembly;
use crate::register;
use crate::skeleton;
use crate::skeleton::{FisHead, IndexView, Keypoint, Track};
use crate::theora;
use crate::theora::TheoraIdHeader;
use vstd::prelude::*;

verus! {

// ---------------------------------------------------------------------------
// Numbers
// ---------------------------------------------------------------------------

/// Whether the bytes `w` are written in `s` at `off`.
pub open spec fn stands(s: Seq<u8>, off: int, w: Seq<u8>) -> bool {
    &&& 0 <= off
    &&& off + w.len() <= s.len()
    &&& forall|i: int| 0 <= i < w.len() ==> #[trigger] s[off + i] == w[i]
}

/// `n` in two bytes, the low one first.
pub open spec fn le2(n: int) -> Seq<u8> {
    seq![(n % 256) as u8, (n / 256 % 256) as u8]
}

/// `n` in four bytes, the lowest first.
pub open spec fn le4(n: int) -> Seq<u8> {
    seq![
        (n % 256) as u8,
        (n / 256 % 256) as u8,
        (n / 0x1_0000 % 256) as u8,
        (n / 0x100_0000 % 256) as u8,
    ]
}

/// `n` in eight bytes, the lowest first; a negative number in two's
/// complement.
pub open spec fn le8(n: int) -> Seq<u8> {
    let u = if n < 0 {
        n + 0x1_0000_0000_0000_0000
    } else {
        n
    };
    le4(u % 0x1_0000_0000) + le4(u / 0x1_0000_0000)
}

/// `n` in two bytes, the high one first.
pub open spec fn be2(n: int) -> Seq<u8> {
    seq![(n / 256 % 256) as u8, (n % 256) as u8]
}

/// `n` in three bytes, the highest first.
pub open spec fn be3(n: int) -> Seq<u8> {
    seq![(n / 0x1_0000 % 256) as u8, (n / 256 % 256) as u8, (n % 256) as u8]
}

/// `n` in four bytes, the highest first.
pub open spec fn be4(n: int) -> Seq<u8> {
    seq![
        (n / 0x100_0000 % 256) as u8,
        (n / 0x1_0000 % 256) as u8,
        (n / 256 % 256) as u8,
        (n % 256) as u8,
    ]
}

/// Two bytes are read as they are written.
pub proof fn two_come_back(s: Seq<u8>, off: int, n: int)
    requires
        0 <= n < 0x1_0000,
    ensures
        stands(s, off, le2(n)) ==> bytes::le16(s, off) == n,
        stands(s, off, be2(n)) ==> bytes::be(s, off, 2) == n,
{
    reveal_with_fuel(bytes::be, 3);
    if stands(s, off, le2(n)) {
        assert(s[off + 0] == le2(n)[0]);
        assert(s[off + 1] == le2(n)[1]);
    }
    if stands(s, off, be2(n)) {
        assert(s[off + 0] == be2(n)[0]);
        assert(s[off + 1] == be2(n)[1]);
    }
}

/// Three or four bytes, the highest first, are read as they are written.
pub proof fn high_bytes_come_back(s: Seq<u8>, off: int, n: int)
    ensures
        stands(s, off, be3(n)) && 0 <= n < 0x100_0000 ==> bytes::be(s, off, 3) == n,
        stands(s, off, be4(n)) && 0 <= n < 0x1_0000_0000 ==> bytes::be(s, off, 4) == n,
{
    reveal_with_fuel(bytes::be, 5);
    if stands(s, off, be3(n)) && 0 <= n < 0x100_0000 {
        assert(s[off + 0] == be3(n)[0]);
        assert(s[off + 1] == be3(n)[1]);
        assert(s[off + 2] == be3(n)[2]);
        assert(bytes::be(s, off, 3) == 0x1_0000 * s[off + 0] + 0x100 * s[off + 1] + s[off + 2]);
    }
    if stands(s, off, be4(n)) && 0 <= n < 0x1_0000_0000 {
        assert(s[off + 0] == be4(n)[0]);
        assert(s[off + 1] == be4(n)[1]);
        assert(s[off + 2] == be4(n)[2]);
        assert(s[off + 3] == be4(n)[3]);
        assert(bytes::be(s, off, 4) == 0x100_0000 * s[off + 0] + 0x1_0000 * s[off + 1] + 0x100
            * s[off + 2] + s[off + 3]);
    }
}

/// Eight bytes are read as they are written, with and without a sign.
pub proof fn eight_come_back(s: Seq<u8>, off: int, n: int)
    requires
        stands(s, off, le8(n)),
        i64::MIN <= n < 0x1_0000_0000_0000_0000,
    ensures
        n >= 0 ==> bytes::le64(s, off) == n,
        n <= i64::MAX ==> bytes::signed64(bytes::le64(s, off)) == n,
{
    let u = if n < 0 {
        n + 0x1_0000_0000_0000_0000
    } else {
        n
    };
    let lo = u % 0x1_0000_0000;
    let hi = u / 0x1_0000_0000;
    assert(stands(s, off, le4(lo))) by {
        assert forall|i: int| 0 <= i < 4 implies #[trigger] s[off + i] == le4(lo)[i] by {
            assert(le8(n)[i] == le4(lo)[i]);
        }
    }
    assert(stands(s, off + 4, le4(hi))) by {
        assert forall|i: int| 0 <= i < 4 implies #[trigger] s[off + 4 + i] == le4(hi)[i] by {
            assert(s[off + (4 + i)] == le8(n)[4 + i]);
            assert(le8(n)[4 + i] == le4(hi)[i]);
        }
    }
    four_come_back(s, off, lo);
    four_come_back(s, off + 4, hi);
}

/// Four bytes are read as they are written.
pub proof fn four_come_back(s: Seq<u8>, off: int, n: int)
    requires
        stands(s, off, le4(n)),
        0 <= n < 0x1_0000_0000,
    ensures
        bytes::le32(s, off) == n,
{
    assert(s[off + 0] == le4(n)[0]);
    assert(s[off + 1] == le4(n)[1]);
    assert(s[off + 2] == le4(n)[2]);
    assert(s[off + 3] == le4(n)[3]);
}

// ---------------------------------------------------------------------------
// Pages
// ---------------------------------------------------------------------------

/// Whether a page is written in `s` at `off`: the capture pattern, version 0,
/// flags, granule, serial number, sequence number, checksum, the length of the
/// segment table, the table and the body.
pub open spec fn page_is_written(s: Seq<u8>, off: int, p: page::PageView, sum: int) -> bool {
    &&& p.lacing.len() <= 255
    &&& stands(s, off, seq![0x4fu8, 0x67, 0x67, 0x53, 0, p.flags])
    &&& stands(s, off + 6, le8(p.granule as int))
    &&& stands(s, off + 14, le4(p.serial as int))
    &&& stands(s, off + 18, le4(p.seq_no as int))
    &&& stands(s, off + 22, le4(sum))
    &&& stands(s, off + 26, seq![p.lacing.len() as u8] + p.lacing + p.data)
}

/// The bytes of a page that its checksum is of: all, with 0 for the checksum.
pub open spec fn summed(p: page::PageView) -> Seq<u8> {
    seq![0x4fu8, 0x67, 0x67, 0x53, 0, p.flags] + le8(p.granule as int) + le4(p.serial as int)
        + le4(p.seq_no as int) + seq![0u8, 0, 0, 0] + (seq![p.lacing.len() as u8] + p.lacing
        + p.data)
}

/// A page begins with `OggS`.
pub proof fn pages_begin_with_their_pattern(s: Seq<u8>, off: int)
    ensures
        page::is_capture(s, off) <==> stands(s, off, seq![0x4fu8, 0x67, 0x67, 0x53]),
{
    let w = seq![0x4fu8, 0x67, 0x67, 0x53];
    if stands(s, off, w) {
        assert(s[off + 0] == w[0]);
        assert(s[off + 1] == w[1]);
        assert(s[off + 2] == w[2]);
        assert(s[off + 3] == w[3]);
    }
}

/// A page that is written with its checksum is read back as it is.
#[verifier::spinoff_prover]
#[verifier::rlimit(40)]
pub proof fn pages_come_back(s: Seq<u8>, off: int, p: page::PageView)
    requires
        p.wf(),
        p.offset == off,
        page_is_written(s, off, p, crc::crc(summed(p)) as int),
    ensures
        page::is_page(s, off),
        page::page_at(s, off) == p,
        page::page_end(s, off) == off + 27 + p.lacing.len() + p.data.len(),
{
    let head = seq![0x4fu8, 0x67, 0x67, 0x53, 0, p.flags];
    let tail = seq![p.lacing.len() as u8] + p.lacing + p.data;
    let n = p.lacing.len() as int;
    assert(s[off + 0] == head[0]);
    assert(s[off + 1] == head[1]);
    assert(s[off + 2] == head[2]);
    assert(s[off + 3] == head[3]);
    assert(s[off + 4] == head[4]);
    assert(s[off + 5] == head[5]);
    eight_come_back(s, off + 6, p.granule as int);
    four_come_back(s, off + 14, p.serial as int);
    four_come_back(s, off + 18, p.seq_no as int);
    four_come_back(s, off + 22, crc::crc(summed(p)) as int);
    assert(s[off + 26 + 0] == tail[0]);
    assert(tail[0] == n);
    assert(page::lacing_at(s, off) =~= p.lacing) by {
        assert forall|i: int| 0 <= i < n implies s[off + 27 + i] == p.lacing[i] by {
            assert(s[off + 26 + (1 + i)] == tail[1 + i]);
        }
    }
    let end = page::page_end(s, off);
    assert(s.subrange(off + 27 + n, end) =~= p.data) by {
        assert forall|i: int| 0 <= i < p.data.len() implies s[off + 27 + n + i] == p.data[i] by {
            assert(s[off + 26 + (1 + n + i)] == tail[1 + n + i]);
        }
    }
    summed_bytes(s, off, p, crc::crc(summed(p)) as int);
}

proof fn summed_bytes(s: Seq<u8>, off: int, p: page::PageView, sum: int)
    requires
        p.wf(),
        page_is_written(s, off, p, sum),
        page::page_end(s, off) == off + 27 + p.lacing.len() + p.data.len(),
    ensures
        page::checksummed(s, off) == summed(p),
{
    let a = page::checksummed(s, off);
    let b = summed(p);
    let tail = seq![p.lacing.len() as u8] + p.lacing + p.data;
    assert(a.len() == b.len());
    assert forall|i: int| 0 <= i < a.len() implies a[i] == b[i] by {
        if i < 6 {
            assert(s[off + i] == seq![0x4fu8, 0x67, 0x67, 0x53, 0, p.flags][i]);
        } else if i < 14 {
            assert(s[off + 6 + (i - 6)] == le8(p.granule as int)[i - 6]);
        } else if i < 18 {
            assert(s[off + 14 + (i - 14)] == le4(p.serial as int)[i - 14]);
        } else if i < 22 {
            assert(s[off + 18 + (i - 18)] == le4(p.seq_no as int)[i - 18]);
        } else if i >= 26 {
            assert(s[off + 26 + (i - 26)] == tail[i - 26]);
        }
    }
    assert(a =~= b);
}

// ---------------------------------------------------------------------------
// The Skeleton
// ---------------------------------------------------------------------------

/// The identification packet of a Skeleton is read back as it is written.
/// From version 4 on it tells the length of the segment.
pub proof fn skeleton_heads_come_back(s: Seq<u8>, h: FisHead)
    requires
        stands(s, 0, seq![0x66u8, 0x69, 0x73, 0x68, 0x65, 0x61, 0x64, 0]),
        s.len() >= 64,
        h.version_major >= 4 ==> s.len() >= 80,
        stands(s, 8, le2(h.version_major as int)),
        stands(s, 10, le2(h.version_minor as int)),
        stands(s, 12, le8(h.presentation_time.numerator as int)),
        stands(s, 20, le8(h.presentation_time.denominator as int)),
        stands(s, 28, le8(h.basetime.numerator as int)),
        stands(s, 36, le8(h.basetime.denominator as int)),
        match h.segment_length {
            Some(n) => h.version_major >= 4 && stands(s, 64, le8(n as int)),
            None => h.version_major < 4,
        },
    ensures
        skeleton::fishead(s) == Some(h),
{
    let magic = seq![0x66u8, 0x69, 0x73, 0x68, 0x65, 0x61, 0x64, 0];
    assert(s.subrange(0, 8) =~= magic) by {
        assert forall|i: int| 0 <= i < 8 implies s[i] == magic[i] by {
            assert(s[0 + i] == magic[i]);
        }
    }
    assert(skeleton::fishead_magic() =~= magic);
    two_come_back(s, 8, h.version_major as int);
    two_come_back(s, 10, h.version_minor as int);
    eight_come_back(s, 12, h.presentation_time.numerator as int);
    eight_come_back(s, 20, h.presentation_time.denominator as int);
    eight_come_back(s, 28, h.basetime.numerator as int);
    eight_come_back(s, 36, h.basetime.denominator as int);
    if let Some(n) = h.segment_length {
        eight_come_back(s, 64, n as int);
    }
}

/// A track description is read back as it is written.
pub proof fn track_descriptions_come_back(s: Seq<u8>, t: Track)
    requires
        stands(s, 0, seq![0x66u8, 0x69, 0x73, 0x62, 0x6f, 0x6e, 0x65, 0]),
        s.len() >= 52,
        stands(s, 12, le4(t.serial as int)),
        stands(s, 16, le4(t.num_headers as int)),
        stands(s, 20, le8(t.granule_rate.numerator as int)),
        stands(s, 28, le8(t.granule_rate.denominator as int)),
        stands(s, 36, le8(t.basegranule as int)),
        stands(s, 44, le4(t.preroll as int)),
        s[48] == t.granuleshift,
    ensures
        skeleton::fisbone(s) is Some,
        (skeleton::fisbone(s)->0).track == t,
{
    let magic = seq![0x66u8, 0x69, 0x73, 0x62, 0x6f, 0x6e, 0x65, 0];
    assert(s.subrange(0, 8) =~= magic) by {
        assert forall|i: int| 0 <= i < 8 implies s[i] == magic[i] by {
            assert(s[0 + i] == magic[i]);
        }
    }
    assert(skeleton::fisbone_magic() =~= magic);
    four_come_back(s, 12, t.serial as int);
    four_come_back(s, 16, t.num_headers as int);
    eight_come_back(s, 20, t.granule_rate.numerator as int);
    eight_come_back(s, 28, t.granule_rate.denominator as int);
    eight_come_back(s, 36, t.basegranule as int);
    four_come_back(s, 44, t.preroll as int);
}

/// `n` in groups of 7 bits, the lowest first; the last one is marked by its
/// high bit.
pub open spec fn grouped(n: nat) -> Seq<u8>
    decreases n,
{
    if n < 0x80 {
        seq![(n + 0x80) as u8]
    } else {
        seq![(n % 0x80) as u8] + grouped(n / 0x80)
    }
}

/// What a group of a number below 2^63 can count.
spec fn is_unit(unit: int) -> bool {
    ||| unit == 1
    ||| unit == 0x80
    ||| unit == 0x4000
    ||| unit == 0x20_0000
    ||| unit == 0x1000_0000
    ||| unit == 0x8_0000_0000
    ||| unit == 0x400_0000_0000
    ||| unit == 0x2_0000_0000_0000
    ||| unit == 0x100_0000_0000_0000
}

/// A number in groups of 7 bits is read back as it is written.
pub proof fn grouped_numbers_come_back(s: Seq<u8>, off: int, n: nat)
    requires
        stands(s, off, grouped(n)),
        n < 0x8000_0000_0000_0000,
    ensures
        skeleton::varint(s, off, 1) == Some((n as int, (off + grouped(n).len()) as int)),
{
    groups_come_back(s, off, n, 1);
}

proof fn groups_come_back(s: Seq<u8>, off: int, n: nat, unit: int)
    requires
        stands(s, off, grouped(n)),
        is_unit(unit),
        n * unit < 0x8000_0000_0000_0000,
    ensures
        skeleton::varint(s, off, unit) == Some((n * unit, (off + grouped(n).len()) as int)),
    decreases n,
{
    let w = grouped(n);
    assert(s[off + 0] == w[0]);
    if n < 0x80 {
        assert((w[0] - 0x80) * unit == n * unit);
    } else {
        let q = n / 0x80;
        let r = n % 0x80;
        let rest = grouped(q);
        assert(w == seq![r as u8] + rest);
        assert(stands(s, off + 1, rest)) by {
            assert forall|i: int| 0 <= i < rest.len() implies #[trigger] s[off + 1 + i]
                == rest[i] by {
                assert(s[off + (1 + i)] == w[1 + i]);
            }
        }
        assert(n == q * 0x80 + r);
        assert(q * (unit * 0x80) + r * unit == n * unit) by (nonlinear_arith)
            requires
                n == q * 0x80 + r,
        ;
        assert(r * unit >= 0) by (nonlinear_arith)
            requires
                r >= 0,
                unit > 0,
        ;
        assert(unit < 0x100_0000_0000_0000) by (nonlinear_arith)
            requires
                n >= 0x80,
                unit > 0,
                n * unit < 0x8000_0000_0000_0000,
        ;
        groups_come_back(s, off + 1, q, unit * 0x80);
    }
}

/// Seek points as a keyframe index writes them: each as differences from the
/// one before it, in the file and in time.
pub open spec fn points_written(points: Seq<Keypoint>, offset: int, timestamp: int) -> Seq<u8>
    decreases points.len(),
{
    if points.len() == 0 {
        Seq::empty()
    } else {
        grouped((points[0].offset - offset) as nat) + grouped(
            (points[0].timestamp - timestamp) as nat,
        ) + points_written(
            points.skip(1),
            points[0].offset as int,
            points[0].timestamp as int,
        )
    }
}

/// Whether seek points go on from `offset` and `timestamp` without going back,
/// by steps that can be written.
pub open spec fn points_go_on(points: Seq<Keypoint>, offset: int, timestamp: int) -> bool
    decreases points.len(),
{
    points.len() == 0 || {
        &&& offset <= points[0].offset < offset + 0x8000_0000_0000_0000
        &&& timestamp <= points[0].timestamp < timestamp + 0x8000_0000_0000_0000
        &&& points_go_on(points.skip(1), points[0].offset as int, points[0].timestamp as int)
    }
}

/// A keyframe index is read back as it is written: its stream, its unit of
/// time, and all of its seek points.
#[verifier::spinoff_prover]
#[verifier::rlimit(40)]
pub proof fn keyframe_indexes_come_back(s: Seq<u8>, index: IndexView)
    requires
        stands(s, 0, seq![0x69u8, 0x6e, 0x64, 0x65, 0x78, 0]),
        s.len() >= 42,
        stands(s, 6, le4(index.serial as int)),
        stands(s, 10, le8(index.keypoints.len() as int)),
        stands(s, 18, le8(index.timestamp_denominator as int)),
        index.keypoints.len() < 0x1_0000_0000_0000_0000,
        points_go_on(index.keypoints, 0, 0),
        stands(s, 42, points_written(index.keypoints, 0, 0)),
    ensures
        skeleton::skel_index(s) == Some(index),
{
    let magic = seq![0x69u8, 0x6e, 0x64, 0x65, 0x78, 0];
    assert(s.subrange(0, 6) =~= magic) by {
        assert forall|i: int| 0 <= i < 6 implies s[i] == magic[i] by {
            assert(s[0 + i] == magic[i]);
        }
    }
    assert(skeleton::index_magic() =~= magic);
    four_come_back(s, 6, index.serial as int);
    eight_come_back(s, 10, index.keypoints.len() as int);
    eight_come_back(s, 18, index.timestamp_denominator as int);
    points_come_back(s, 42, index.keypoints, 0, 0);
}

proof fn points_come_back(s: Seq<u8>, off: int, points: Seq<Keypoint>, offset: int, timestamp: int)
    requires
        points_go_on(points, offset, timestamp),
        stands(s, off, points_written(points, offset, timestamp)),
    ensures
        skeleton::keypoints(s, off, points.len() as int, offset, timestamp) == Some(points),
    decreases points.len(),
{
    if points.len() == 0 {
        assert(points =~= Seq::empty());
    } else {
        let k = points[0];
        let a = grouped((k.offset - offset) as nat);
        let b = grouped((k.timestamp - timestamp) as nat);
        let c = points_written(points.skip(1), k.offset as int, k.timestamp as int);
        let all = points_written(points, offset, timestamp);
        assert(all == a + b + c);
        assert(stands(s, off, a)) by {
            assert forall|i: int| 0 <= i < a.len() implies #[trigger] s[off + i] == a[i] by {
                assert(all[i] == a[i]);
            }
        }
        let mid = off + a.len();
        assert(stands(s, mid, b)) by {
            assert forall|i: int| 0 <= i < b.len() implies #[trigger] s[mid + i] == b[i] by {
                assert(s[off + (a.len() + i)] == all[a.len() + i]);
            }
        }
        let end = mid + b.len();
        assert(stands(s, end, c)) by {
            assert forall|i: int| 0 <= i < c.len() implies #[trigger] s[end + i] == c[i] by {
                assert(s[off + (a.len() + b.len() + i)] == all[a.len() + b.len() + i]);
            }
        }
        grouped_numbers_come_back(s, off, (k.offset - offset) as nat);
        grouped_numbers_come_back(s, mid, (k.timestamp - timestamp) as nat);
        points_come_back(s, end, points.skip(1), k.offset as int, k.timestamp as int);
        assert(seq![k] + points.skip(1) =~= points);
    }
}

// ---------------------------------------------------------------------------
// Identification packets
// ---------------------------------------------------------------------------

/// `n` in four bytes in two's complement.
pub open spec fn signed4(n: int) -> Seq<u8> {
    le4(
        if n < 0 {
            n + 0x1_0000_0000
        } else {
            n
        },
    )
}

pub proof fn names_are_apart()
    ensures
        codec_id::mapping_of("vorbis"@) is Vorbis,
        codec_id::mapping_of("opus"@) is Opus,
        codec_id::mapping_of("flac"@) is Flac,
        codec_id::mapping_of("speex"@) is Speex,
        codec_id::mapping_of("theora"@) is Theora,
        codec_id::mapping_of("unknown"@) is Other,
{
    reveal_strlit("vorbis");
    reveal_strlit("opus");
    reveal_strlit("theora");
    reveal_strlit("speex");
    reveal_strlit("flac");
    reveal_strlit("unknown");
    assert("vorbis"@[0] == 'v');
    assert("opus"@[0] == 'o');
    assert("theora"@[0] == 't');
    assert("speex"@[0] == 's');
    assert("flac"@[0] == 'f');
    assert("unknown"@[0] == 'u');
}

/// A Vorbis identification packet tells channels, sample rate and, where it is
/// positive, the nominal bit rate. It needs 30 bytes, version 0, and at least
/// one channel and a rate.
pub proof fn vorbis_packets_tell_their_parameters(s: Seq<u8>, version: u32, rate: u32, nominal: i32)
    requires
        s.len() >= 30,
        stands(s, 7, le4(version as int)),
        stands(s, 12, le4(rate as int)),
        stands(s, 20, signed4(nominal as int)),
    ensures
        ident::ident_fault("vorbis"@, s) is None <==> version == 0 && s[11] > 0 && rate > 0,
        ({
            let p = ident::guessed("vorbis"@, s);
            &&& p.media_type == MediaType::Audio
            &&& p.codec_id == "vorbis"@
            &&& p.channels == Some(s[11] as u16)
            &&& p.sample_rate == Some(rate)
            &&& p.bit_rate == if nominal > 0 {
                Some(nominal as u64)
            } else {
                None
            }
        }),
{
    names_are_apart();
    four_come_back(s, 7, version as int);
    four_come_back(s, 12, rate as int);
    let n = nominal as int;
    four_come_back(
        s,
        20,
        if n < 0 {
            n + 0x1_0000_0000
        } else {
            n
        },
    );
}

/// An Opus identification packet tells channels, the samples to skip, and the
/// rate of what was encoded, where 0 stands for 48 kHz. It needs 19 bytes.
/// Opus granules always count at 48 kHz.
pub proof fn opus_packets_tell_their_parameters(s: Seq<u8>, skip: u16, rate: u32)
    requires
        s.len() >= 19,
        stands(s, 10, le2(skip as int)),
        stands(s, 12, le4(rate as int)),
    ensures
        ident::ident_fault("opus"@, s) is None,
        ident::pre_skip_of(s) == Some(skip),
        ({
            let p = ident::guessed("opus"@, s);
            &&& p.media_type == MediaType::Audio
            &&& p.codec_id == "opus"@
            &&& p.channels == Some(s[9] as u16)
            &&& p.sample_rate == Some(
                if rate > 0 {
                    rate
                } else {
                    48_000u32
                },
            )
        }),
        register::codec_tick("opus"@, s, Some(rate)) == (TimeBase { num: 1, den: 48_000 }),
{
    names_are_apart();
    two_come_back(s, 10, skip as int);
    four_come_back(s, 12, rate as int);
}

/// A Speex identification packet tells the sample rate, mono or stereo and,
/// where it is positive, the bit rate. It needs 52 bytes and a rate.
pub proof fn speex_packets_tell_their_parameters(
    s: Seq<u8>,
    rate: u32,
    channels: u32,
    bit_rate: i32,
)
    requires
        s.len() >= 56,
        stands(s, 36, le4(rate as int)),
        stands(s, 48, le4(channels as int)),
        stands(s, 52, signed4(bit_rate as int)),
    ensures
        ident::ident_fault("speex"@, s) is None <==> rate > 0,
        ({
            let p = ident::guessed("speex"@, s);
            &&& p.media_type == MediaType::Audio
            &&& p.codec_id == "speex"@
            &&& p.sample_rate == Some(rate)
            &&& p.channels == Some(
                if channels == 2 {
                    2u16
                } else {
                    1u16
                },
            )
            &&& p.bit_rate == if bit_rate > 0 {
                Some(bit_rate as u64)
            } else {
                None
            }
        }),
{
    names_are_apart();
    four_come_back(s, 36, rate as int);
    four_come_back(s, 48, channels as int);
    let n = bit_rate as int;
    four_come_back(
        s,
        52,
        if n < 0 {
            n + 0x1_0000_0000
        } else {
            n
        },
    );
}

/// A FLAC identification packet tells in 20 bits the sample rate and in the
/// next 3 the channels less one, and how many more header packets come.
#[verifier::spinoff_prover]
#[verifier::rlimit(40)]
pub proof fn flac_packets_tell_their_parameters(
    s: Seq<u8>,
    rate: int,
    channels: int,
    low: int,
    more: int,
)
    requires
        s.len() >= 31,
        0 < rate < 0x10_0000,
        1 <= channels <= 8,
        0 <= low < 512,
        0 <= more < 0x1_0000,
        stands(s, 27, be4(rate * 4096 + (channels - 1) * 512 + low)),
        stands(s, 7, be2(more)),
    ensures
        ident::ident_fault("flac"@, s) is None,
        register::headers_to_come("flac"@, s) == more + 1 || s[0] == 0x01,
        ({
            let p = ident::guessed("flac"@, s);
            &&& p.media_type == MediaType::Audio
            &&& p.codec_id == "flac"@
            &&& p.sample_rate == Some(rate as u32)
            &&& p.channels == Some(channels as u16)
        }),
{
    names_are_apart();
    let packed = rate * 4096 + (channels - 1) * 512 + low;
    bits_come_apart(rate, channels, low);
    assert(bytes::be(s, 27, 4) == packed) by {
        high_bytes_come_back(s, 27, packed);
    }
    assert(bytes::be(s, 7, 2) == more) by {
        two_come_back(s, 7, more);
    }
}

proof fn bits_come_apart(rate: int, channels: int, low: int)
    requires
        0 < rate < 0x10_0000,
        1 <= channels <= 8,
        0 <= low < 512,
    ensures
        ({
            let packed = rate * 4096 + (channels - 1) * 512 + low;
            &&& 0 <= packed < 0x1_0000_0000
            &&& packed / 4096 == rate
            &&& packed / 512 % 8 + 1 == channels
        }),
{
    let packed = rate * 4096 + (channels - 1) * 512 + low;
    division_is(packed, 4096, rate, (channels - 1) * 512 + low);
    division_is(packed, 512, 8 * rate + channels - 1, low);
    division_is(8 * rate + channels - 1, 8, rate, channels - 1);
}

/// A Theora identification packet of version 3.2 tells frame and picture size,
/// frame rate, bit rate, keyframe shift and chroma layout. The picture is
/// shown, or all that is coded where the picture is empty. The stream ticks by
/// frames, and from revision 1 on counts them from 1.
#[verifier::spinoff_prover]
#[verifier::rlimit(40)]
pub proof fn theora_packets_tell_their_parameters(
    s: Seq<u8>,
    h: TheoraIdHeader,
    quality: int,
    low: int,
)
    requires
        stands(s, 0, seq![0x80u8, 0x74, 0x68, 0x65, 0x6f, 0x72, 0x61, 3, 2, h.vrev]),
        s.len() >= 42,
        h.fmbw > 0,
        h.fmbh > 0,
        h.frn > 0,
        h.frd > 0,
        h.picw < 0x100_0000,
        h.pich < 0x100_0000,
        h.nombr < 0x100_0000,
        h.kfgshift < 32,
        h.pf < 4,
        0 <= quality < 64,
        0 <= low < 8,
        stands(s, 10, be2(h.fmbw as int)),
        stands(s, 12, be2(h.fmbh as int)),
        stands(s, 14, be3(h.picw as int)),
        stands(s, 17, be3(h.pich as int)),
        stands(s, 22, be4(h.frn as int)),
        stands(s, 26, be4(h.frd as int)),
        stands(s, 37, be3(h.nombr as int)),
        stands(s, 40, be2(quality * 1024 + h.kfgshift * 32 + h.pf * 8 + low)),
    ensures
        theora::parsed_id(s) == Some(h),
        h.granule_spec().shift == h.kfgshift,
        h.granule_spec().count_from_one <==> h.vrev >= 1,
        register::codec_tick("theora"@, s, None) == (TimeBase {
            num: h.frd as i64,
            den: h.frn as i64,
        }),
        ({
            let p = ident::guessed("theora"@, s);
            &&& p.media_type == MediaType::Video
            &&& p.codec_id == "theora"@
            &&& p.frame_rate == Some(Rational { num: h.frn as i64, den: h.frd as i64 })
            &&& h.picw > 0 && h.pich > 0 ==> p.width == Some(h.picw) && p.height == Some(h.pich)
            &&& h.picw == 0 || h.pich == 0 ==> p.width == Some((16 * h.fmbw) as u32) && p.height
                == Some((16 * h.fmbh) as u32)
            &&& p.bit_rate == if h.nombr > 0 {
                Some(h.nombr as u64)
            } else {
                None
            }
            &&& h.pf == 0 ==> p.pixel_format == Some(PixelFormat::Yuv420P)
            &&& h.pf == 2 ==> p.pixel_format == Some(PixelFormat::Yuv422P)
            &&& h.pf == 3 ==> p.pixel_format == Some(PixelFormat::Yuv444P)
            &&& h.pf == 1 ==> p.pixel_format is None
        }),
{
    names_are_apart();
    let head = seq![0x80u8, 0x74, 0x68, 0x65, 0x6f, 0x72, 0x61, 3, 2, h.vrev];
    assert(s[0int + 7] == head[7] && s[0int + 8] == head[8] && s[0int + 9] == head[9]);
    assert(s.subrange(0, 7) =~= theora::id_magic()) by {
        assert forall|i: int| 0 <= i < 7 implies s[i] == theora::id_magic()[i] by {
            assert(s[0 + i] == head[i]);
        }
    }
    assert(bytes::be(s, 10, 2) == h.fmbw) by {
        two_come_back(s, 10, h.fmbw as int);
    }
    assert(bytes::be(s, 12, 2) == h.fmbh) by {
        two_come_back(s, 12, h.fmbh as int);
    }
    assert(bytes::be(s, 14, 3) == h.picw) by {
        high_bytes_come_back(s, 14, h.picw as int);
    }
    assert(bytes::be(s, 17, 3) == h.pich) by {
        high_bytes_come_back(s, 17, h.pich as int);
    }
    assert(bytes::be(s, 22, 4) == h.frn) by {
        high_bytes_come_back(s, 22, h.frn as int);
    }
    assert(bytes::be(s, 26, 4) == h.frd) by {
        high_bytes_come_back(s, 26, h.frd as int);
    }
    assert(bytes::be(s, 37, 3) == h.nombr) by {
        high_bytes_come_back(s, 37, h.nombr as int);
    }
    let tail = quality * 1024 + h.kfgshift * 32 + h.pf * 8 + low;
    tail_comes_apart(quality, h.kfgshift as int, h.pf as int, low);
    assert(bytes::be(s, 40, 2) == tail) by {
        two_come_back(s, 40, tail);
    }
}

proof fn tail_comes_apart(quality: int, shift: int, pf: int, low: int)
    requires
        0 <= quality < 64,
        0 <= shift < 32,
        0 <= pf < 4,
        0 <= low < 8,
    ensures
        ({
            let tail = quality * 1024 + shift * 32 + pf * 8 + low;
            &&& 0 <= tail < 0x1_0000
            &&& tail / 32 % 32 == shift
            &&& tail / 8 % 4 == pf
        }),
{
    let tail = quality * 1024 + shift * 32 + pf * 8 + low;
    division_is(tail, 32, 32 * quality + shift, 8 * pf + low);
    division_is(32 * quality + shift, 32, quality, shift);
    division_is(tail, 8, 128 * quality + 4 * shift + pf, low);
    division_is(128 * quality + 4 * shift + pf, 4, 32 * quality + shift, pf);
}

proof fn division_is(x: int, d: int, q: int, r: int)
    requires
        x == d * q + r,
        0 <= r < d,
    ensures
        x / d == q,
        x % d == r,
{
    vstd::arithmetic::mul::lemma_mul_is_commutative(d, q);
    vstd::arithmetic::div_mod::lemma_fundamental_div_mod_converse(x, d, q, r);
}

/// Where the codec registry knows nothing, the first bytes of a stream tell
/// its codec, and with it how many header packets come first.
#[verifier::spinoff_prover]
#[verifier::rlimit(40)]
pub proof fn first_bytes_tell_the_codec(s: Seq<u8>)
    ensures
        stands(s, 0, seq![0x01u8, 0x76, 0x6f, 0x72, 0x62, 0x69, 0x73]) ==> codec_id::detected(s)
            == "vorbis"@,
        stands(s, 0, seq![0x4fu8, 0x70, 0x75, 0x73, 0x48, 0x65, 0x61, 0x64])
            ==> codec_id::detected(s) == "opus"@,
        stands(s, 0, seq![0x80u8, 0x74, 0x68, 0x65, 0x6f, 0x72, 0x61]) ==> codec_id::detected(s)
            == "theora"@,
        stands(s, 0, seq![0x53u8, 0x70, 0x65, 0x65, 0x78, 0x20, 0x20, 0x20])
            ==> codec_id::detected(s) == "speex"@,
        stands(s, 0, seq![0x7fu8, 0x46, 0x4c, 0x41, 0x43]) ==> codec_id::detected(s) == "flac"@,
        codec_id::header_count("vorbis"@, s) == 3,
        codec_id::header_count("theora"@, s) == 3,
        codec_id::header_count("opus"@, s) == 2,
        codec_id::header_count("speex"@, s) == 2,
        codec_id::header_count("unknown"@, s) == 0,
        register::codec_tick("unknown"@, s, None) == (TimeBase { num: 1, den: 1_000_000 }),
{
    names_are_apart();
    codec_id::magics_decide_the_mapping(s);
    if s.len() > 0 {
        magic_stands(s, seq![0x01u8, 0x76, 0x6f, 0x72, 0x62, 0x69, 0x73]);
        magic_stands(s, seq![0x4fu8, 0x70, 0x75, 0x73, 0x48, 0x65, 0x61, 0x64]);
        magic_stands(s, seq![0x80u8, 0x74, 0x68, 0x65, 0x6f, 0x72, 0x61]);
        magic_stands(s, seq![0x53u8, 0x70, 0x65, 0x65, 0x78, 0x20, 0x20, 0x20]);
        magic_stands(s, seq![0x7fu8, 0x46, 0x4c, 0x41, 0x43]);
        assert(codec_id::vorbis_magic() =~= seq![0x01u8, 0x76, 0x6f, 0x72, 0x62, 0x69, 0x73]);
        assert(codec_id::opus_magic() =~= seq![0x4fu8, 0x70, 0x75, 0x73, 0x48, 0x65, 0x61, 0x64]);
        assert(codec_id::theora_magic() =~= seq![0x80u8, 0x74, 0x68, 0x65, 0x6f, 0x72, 0x61]);
        assert(codec_id::speex_magic() =~= seq![
            0x53u8,
            0x70,
            0x65,
            0x65,
            0x78,
            0x20,
            0x20,
            0x20,
        ]);
        assert(codec_id::flac_magic() =~= seq![0x7fu8, 0x46, 0x4c, 0x41, 0x43]);
    }
}

/// What stands at the start is found there.
pub proof fn magic_stands(s: Seq<u8>, w: Seq<u8>)
    ensures
        stands(s, 0, w) ==> bytes::has_at(s, 0, w),
{
    if stands(s, 0, w) {
        assert(s.subrange(0, w.len() as int) =~= w) by {
            assert forall|i: int| 0 <= i < w.len() implies s[i] == w[i] by {
                assert(s[0 + i] == w[i]);
            }
        }
    }
}

/// Streams of samples tick by samples.
pub proof fn sample_streams_tick_by_samples(s: Seq<u8>, rate: u32)
    ensures
        register::codec_tick("vorbis"@, s, Some(rate)) == (TimeBase { num: 1, den: rate as i64 }),
        register::codec_tick("flac"@, s, Some(rate)) == (TimeBase { num: 1, den: rate as i64 }),
        register::codec_tick("speex"@, s, Some(rate)) == (TimeBase { num: 1, den: rate as i64 }),
{
    names_are_apart();
}

// ---------------------------------------------------------------------------
// OGM
// ---------------------------------------------------------------------------

/// An OGM video header tells its FourCC, the size of the picture and its
/// timing: a tick is `time_unit` units of 100 ns for every `spu` granules.
#[verifier::spinoff_prover]
#[verifier::rlimit(40)]
pub proof fn ogm_video_headers_come_back(
    s: Seq<u8>,
    time_unit: u64,
    spu: u64,
    width: u32,
    height: u32,
)
    requires
        s.len() >= 53,
        stands(s, 0, seq![0x01u8, 0x76, 0x69, 0x64, 0x65, 0x6f]),
        stands(s, 17, le8(time_unit as int)),
        stands(s, 25, le8(spu as int)),
        stands(s, 45, le4(width as int)),
        stands(s, 49, le4(height as int)),
        0 < time_unit <= i64::MAX,
        0 < spu * 10_000_000 <= i64::MAX,
    ensures
        ogm::parsed(s) is Some,
        ({
            let h = ogm::parsed(s)->0;
            &&& h.media_type == MediaType::Video
            &&& h.codec_id == ogm::video_codec(s.subrange(9, 13))
            &&& h.width == Some(width)
            &&& h.height == Some(height)
            &&& h.tick() is Some
            &&& h.tick()->0.num * (spu * 10_000_000) == h.tick()->0.den * time_unit
            &&& h.tick()->0.den > 0
        }),
        register::headers_to_come("unknown"@, s) == 2,
{
    let head = seq![0x01u8, 0x76, 0x69, 0x64, 0x65, 0x6f];
    assert(s[0int + 0] == head[0]);
    assert(s.subrange(1, 6) =~= ogm::video_class()) by {
        assert forall|i: int| 0 <= i < 5 implies s[1 + i] == ogm::video_class()[i] by {
            assert(s[0 + (1 + i)] == head[1 + i]);
        }
    }
    eight_come_back(s, 17, time_unit as int);
    eight_come_back(s, 25, spu as int);
    four_come_back(s, 45, width as int);
    four_come_back(s, 49, height as int);
    let h = ogm::parsed(s)->0;
    let t = h.tick()->0;
    assert(t.num * (spu * 10_000_000) == t.den * time_unit) by (nonlinear_arith)
        requires
            t.num == time_unit,
            t.den == spu * 10_000_000,
    ;
}

/// An OGM audio header tells its format as four hexadecimal digits, its
/// channels, and its rate: `spu` samples in every `time_unit` units of 100 ns,
/// rounded down.
#[verifier::spinoff_prover]
#[verifier::rlimit(40)]
pub proof fn ogm_audio_headers_come_back(
    s: Seq<u8>,
    format: u16,
    time_unit: u64,
    spu: u64,
    channels: u16,
    rate: int,
)
    requires
        s.len() >= 47,
        stands(s, 0, seq![0x01u8, 0x61, 0x75, 0x64, 0x69, 0x6f]),
        ogm::hex16(s.subrange(9, 13)) == Some(format),
        stands(s, 17, le8(time_unit as int)),
        stands(s, 25, le8(spu as int)),
        stands(s, 45, le2(channels as int)),
        0 < time_unit,
        spu * 10_000_000 <= u64::MAX,
        0 < rate <= u32::MAX,
        rate * time_unit <= spu * 10_000_000,
        spu * 10_000_000 < rate * time_unit + time_unit,
    ensures
        ogm::parsed(s) is Some,
        ({
            let h = ogm::parsed(s)->0;
            &&& h.media_type == MediaType::Audio
            &&& h.codec_id == ogm::audio_codec(format)
            &&& h.channels == Some(channels)
            &&& h.sample_rate == Some(rate as u32)
        }),
{
    let head = seq![0x01u8, 0x61, 0x75, 0x64, 0x69, 0x6f];
    assert(s[0int + 0] == head[0]);
    assert(s.subrange(1, 6) =~= ogm::audio_class()) by {
        assert forall|i: int| 0 <= i < 5 implies s[1 + i] == ogm::audio_class()[i] by {
            assert(s[0 + (1 + i)] == head[1 + i]);
        }
    }
    assert(!bytes::has_at(s, 1, ogm::video_class())) by {
        if bytes::has_at(s, 1, ogm::video_class()) {
            assert(s.subrange(1, 6)[0] == ogm::video_class()[0]);
        }
    }
    assert(!bytes::has_at(s, 1, ogm::text_class())) by {
        if bytes::has_at(s, 1, ogm::text_class()) {
            assert(s.subrange(1, 5)[0] == ogm::text_class()[0]);
            assert(s.subrange(1, 6)[0] == ogm::audio_class()[0]);
        }
    }
    eight_come_back(s, 17, time_unit as int);
    eight_come_back(s, 25, spu as int);
    two_come_back(s, 45, channels as int);
    let total = spu * 10_000_000;
    let t = time_unit as int;
    let r = total - rate * t;
    assert(total == rate * t + r && 0 <= r < t);
    vstd::arithmetic::mul::lemma_mul_is_commutative(rate, t);
    vstd::arithmetic::div_mod::lemma_fundamental_div_mod_converse(total, t, rate, r);
}

/// The byte of a hexadecimal digit, in capital or small letters.
pub open spec fn digit_byte(d: int, capital: bool) -> u8 {
    if d < 10 {
        (0x30 + d) as u8
    } else if capital {
        (0x41 + (d - 10)) as u8
    } else {
        (0x61 + (d - 10)) as u8
    }
}

/// The four hexadecimal digits of an audio format.
pub open spec fn format_digits(format: u16, capital: bool) -> Seq<u8> {
    let n = format as int;
    seq![
        digit_byte(n / 4096 % 16, capital),
        digit_byte(n / 256 % 16, capital),
        digit_byte(n / 16 % 16, capital),
        digit_byte(n % 16, capital),
    ]
}

proof fn digit_bytes_come_back(d: int, capital: bool)
    requires
        0 <= d < 16,
    ensures
        ogm::hex_digit(digit_byte(d, capital)) == Some(d),
        digit_byte(d, capital) != 0x2b,
{
}

/// The format of an OGM audio header is read back from its digits.
#[verifier::spinoff_prover]
#[verifier::rlimit(40)]
pub proof fn format_digits_come_back(format: u16, capital: bool)
    ensures
        ogm::hex16(format_digits(format, capital)) == Some(format),
{
    let n = format as int;
    let s = format_digits(format, capital);
    let (a, b, c, d) = (n / 4096 % 16, n / 256 % 16, n / 16 % 16, n % 16);
    digit_bytes_come_back(a, capital);
    digit_bytes_come_back(b, capital);
    digit_bytes_come_back(c, capital);
    digit_bytes_come_back(d, capital);
    let s3 = s.drop_last();
    let s2 = s3.drop_last();
    let s1 = s2.drop_last();
    assert(s1.drop_last() =~= Seq::<u8>::empty());
    assert(ogm::hex_number(s1.drop_last()) == Some(0int));
    assert(ogm::hex_number(s1) == Some(a));
    assert(ogm::hex_number(s2) == Some(16 * a + b));
    assert(ogm::hex_number(s3) == Some(256 * a + 16 * b + c));
    assert(ogm::hex_number(s) == Some(4096 * a + 256 * b + 16 * c + d));
    digits_make_up(n);
}

proof fn digits_make_up(n: int)
    requires
        0 <= n < 0x1_0000,
    ensures
        n == 4096 * (n / 4096 % 16) + 256 * (n / 256 % 16) + 16 * (n / 16 % 16) + n % 16,
{
    let a = n / 4096;
    let b = n % 4096 / 256;
    let c = n % 256 / 16;
    let d = n % 16;
    assert(n == 4096 * a + 256 * b + 16 * c + d);
    division_is(a, 16, 0, a);
    division_is(n, 256, 16 * a + b, 16 * c + d);
    division_is(16 * a + b, 16, a, b);
    division_is(n, 16, 256 * a + 16 * b + c, d);
    division_is(256 * a + 16 * b + c, 16, 16 * a + b, c);
}

/// The codecs that OGM names by the number of an audio format.
pub proof fn ogm_names_its_audio_codecs(format: u16)
    ensures
        format == 0x0001 ==> ogm::audio_codec(format) == "pcm_s16le"@,
        format == 0x0055 ==> ogm::audio_codec(format) == "mp3"@,
        format == 0x00ff ==> ogm::audio_codec(format) == "aac"@,
        format == 0x2000 ==> ogm::audio_codec(format) == "ac3"@,
        format == 0x674f || format == 0x6771 ==> ogm::audio_codec(format) == "vorbis"@,
{
}

/// The codecs that OGM names by a FourCC.
#[verifier::spinoff_prover]
#[verifier::rlimit(40)]
pub proof fn ogm_names_its_video_codecs(c: Seq<u8>)
    ensures
        c == seq![0x58u8, 0x56, 0x49, 0x44] ==> ogm::video_codec(c) == "mpeg4"@,
        c == seq![0x44u8, 0x49, 0x56, 0x58] ==> ogm::video_codec(c) == "mpeg4"@,
        c == seq![0x44u8, 0x58, 0x35, 0x30] ==> ogm::video_codec(c) == "mpeg4"@,
        c == seq![0x46u8, 0x4d, 0x50, 0x34] ==> ogm::video_codec(c) == "mpeg4"@,
        c == seq![0x4du8, 0x50, 0x34, 0x56] ==> ogm::video_codec(c) == "mpeg4"@,
        c == seq![0x4du8, 0x4a, 0x50, 0x47] ==> ogm::video_codec(c) == "mjpeg"@,
        c == seq![0x4au8, 0x50, 0x45, 0x47] ==> ogm::video_codec(c) == "mjpeg"@,
        c == seq![0x48u8, 0x32, 0x36, 0x34] ==> ogm::video_codec(c) == "h264"@,
        c == seq![0x58u8, 0x32, 0x36, 0x34] ==> ogm::video_codec(c) == "h264"@,
        c == seq![0x41u8, 0x56, 0x43, 0x31] ==> ogm::video_codec(c) == "h264"@,
        c == seq![0x44u8, 0x41, 0x56, 0x43] ==> ogm::video_codec(c) == "h264"@,
{
    if c.len() == 4 {
        fourcc_is_told(c, seq![0x58u8, 0x56, 0x49, 0x44]);
        fourcc_is_told(c, seq![0x44u8, 0x49, 0x56, 0x58]);
        fourcc_is_told(c, seq![0x44u8, 0x58, 0x35, 0x30]);
        fourcc_is_told(c, seq![0x46u8, 0x4d, 0x50, 0x34]);
        fourcc_is_told(c, seq![0x4du8, 0x50, 0x34, 0x56]);
        fourcc_is_told(c, seq![0x4du8, 0x4a, 0x50, 0x47]);
        fourcc_is_told(c, seq![0x4au8, 0x50, 0x45, 0x47]);
        fourcc_is_told(c, seq![0x48u8, 0x32, 0x36, 0x34]);
        fourcc_is_told(c, seq![0x58u8, 0x32, 0x36, 0x34]);
        fourcc_is_told(c, seq![0x41u8, 0x56, 0x43, 0x31]);
        fourcc_is_told(c, seq![0x44u8, 0x41, 0x56, 0x43]);
    }
}

/// Two FourCCs are the same exactly when their four bytes are.
proof fn fourcc_is_told(c: Seq<u8>, w: Seq<u8>)
    requires
        c.len() == 4,
        w.len() == 4,
    ensures
        c == w <==> c[0] == w[0] && c[1] == w[1] && c[2] == w[2] && c[3] == w[3],
{
    if c[0] == w[0] && c[1] == w[1] && c[2] == w[2] && c[3] == w[3] {
        assert(c =~= w);
    }
}

// ---------------------------------------------------------------------------
// Packets
// ---------------------------------------------------------------------------

/// The lacing values of a packet of `n` bytes: as many of 255 as fit, and one
/// for the rest, which may be 0.
pub open spec fn segments(n: nat) -> Seq<u8> {
    Seq::new(
        n / 255 + 1,
        |i: int|
            if i < n / 255 {
                255u8
            } else {
                (n % 255) as u8
            },
    )
}

/// The lacing values of packets, one after the other.
pub open spec fn tables(packets: Seq<Seq<u8>>) -> Seq<u8>
    decreases packets.len(),
{
    if packets.len() == 0 {
        Seq::empty()
    } else {
        tables(packets.drop_last()) + segments(packets.last().len())
    }
}

proof fn full_segments_end_nothing(l: Seq<u8>, data: Seq<u8>)
    requires
        forall|i: int| 0 <= i < l.len() ==> #[trigger] l[i] == 255,
    ensures
        page::body_len(l) == 255 * l.len(),
        reassembly::open_start(l) == 0,
        reassembly::ended(l, data).len() == 0,
    decreases l.len(),
{
    if l.len() > 0 {
        assert(l[l.len() - 1] == 255);
        full_segments_end_nothing(l.drop_last(), data);
    }
}

proof fn a_packet_is_cut_out(p: Seq<u8>)
    ensures
        page::body_len(segments(p.len())) == p.len(),
        reassembly::ended(segments(p.len()), p) == seq![p],
        !reassembly::is_open(segments(p.len())),
{
    let n = p.len();
    let l = segments(n);
    full_segments_end_nothing(l.drop_last(), p);
    assert(l.last() == (n % 255) as u8);
    assert(n == 255 * (n / 255) + n % 255);
    assert(p.subrange(0, n as int) =~= p);
    assert(reassembly::ended(l.drop_last(), p) =~= Seq::<Seq<u8>>::empty());
    assert(reassembly::ended(l, p) =~= seq![p]);
}

/// Packets that are laced and laid end to end are cut out again as they were.
pub proof fn laced_packets_come_back(packets: Seq<Seq<u8>>)
    ensures
        page::body_len(tables(packets)) == reassembly::flat(packets).len(),
        reassembly::ended(tables(packets), reassembly::flat(packets)) == packets,
        !reassembly::is_open(tables(packets)),
    decreases packets.len(),
{
    if packets.len() > 0 {
        let init = packets.drop_last();
        let p = packets.last();
        laced_packets_come_back(init);
        a_packet_is_cut_out(p);
        let l1 = tables(init);
        let d1 = reassembly::flat(init);
        let l2 = segments(p.len());
        reassembly::cutting_a_concatenation(l1, d1, l2, p);
        page::body_len_concat(l1, l2);
        assert(reassembly::open_bytes(l1, d1) =~= Seq::<u8>::empty());
        assert(seq![p].skip(1) =~= Seq::<Seq<u8>>::empty());
        assert(Seq::<u8>::empty() + p =~= p);
        assert(init + seq![p] + Seq::<Seq<u8>>::empty() =~= packets);
    } else {
        assert(packets =~= Seq::empty());
    }
}

/// However packets are spread over the pages of a stream, reading the pages
/// gives the packets back, and leaves none open.
pub proof fn paged_packets_come_back(pages: Seq<PageView>, packets: Seq<Seq<u8>>)
    requires
        reassembly::is_clean_run(pages),
        reassembly::all_lacing(pages) == tables(packets),
        reassembly::all_data(pages) == reassembly::flat(packets),
    ensures
        reassembly::joined(pages).0 == packets,
        reassembly::joined(pages).1.pending.len() == 0,
{
    laced_packets_come_back(packets);
    reassembly::page_boundaries_do_not_matter(pages);
}

/// The bits of a page's flags: 1 for a continued packet, 2 for the first page
/// of a stream, 4 for its last.
pub proof fn flags_are_bits(page: PageView)
    ensures
        page.is_continued() <==> page.flags % 2 == 1,
        page.is_first() <==> page.flags / 2 % 2 == 1,
        page.is_last() <==> page.flags / 4 % 2 == 1,
{
    let f = page.flags;
    assert(f & 1 != 0 <==> f % 2 == 1) by (bit_vector);
    assert(f & 2 != 0 <==> f / 2 % 2 == 1) by (bit_vector);
    assert(f & 4 != 0 <==> f / 4 % 2 == 1) by (bit_vector);
}

/// What an OGM header says of a stream goes before what its codec says: its
/// kind, its codec, its size and channels, and its unit of time where it gives
/// one.
pub proof fn ogm_headers_come_first(id: Seq<char>, s: Seq<u8>, h: ogm::HeaderView)
    requires
        ogm::parsed(s) == Some(h),
    ensures
        ({
            let p = register::new_params(id, s);
            &&& p.media_type == h.media_type
            &&& p.codec_id == h.codec_id
            &&& h.width is Some ==> p.width == h.width
            &&& h.height is Some ==> p.height == h.height
            &&& h.channels is Some ==> p.channels == h.channels
            &&& h.sample_rate is Some ==> p.sample_rate == h.sample_rate
            &&& h.tag is Some ==> p.tag == h.tag
            &&& p.extradata == s
            &&& h.tick() matches Some(t) ==> register::new_tick(id, s) == t
            &&& register::headers_to_come(id, s) == 2
        }),
{
}

} // verus!
