//! Ogg Skeleton: the metadata bitstream that describes the other logical
//! bitstreams (versions 3.0 and 4.0).
use crate::bytes;
use crate::comment;
use crate::media;
use crate::message;
use vstd::prelude::*;
use vstd::slice::slice_subrange;

verus! {

/// `"fishead\0"`.
pub open spec fn fishead_magic() -> Seq<u8> {
    seq![0x66u8, 0x69, 0x73, 0x68, 0x65, 0x61, 0x64, 0x00]
}

/// `"fisbone\0"`.
pub open spec fn fisbone_magic() -> Seq<u8> {
    seq![0x66u8, 0x69, 0x73, 0x62, 0x6f, 0x6e, 0x65, 0x00]
}

/// `"index\0"`.
pub open spec fn index_magic() -> Seq<u8> {
    seq![0x69u8, 0x6e, 0x64, 0x65, 0x78, 0x00]
}

/// Whether a packet starts like a Skeleton identification packet.
pub open spec fn starts_fishead(s: Seq<u8>) -> bool {
    bytes::has_at(s, 0, fishead_magic())
}

/// Whether a packet starts like the description of a track.
pub open spec fn starts_fisbone(s: Seq<u8>) -> bool {
    bytes::has_at(s, 0, fisbone_magic())
}

/// Whether a packet starts like a keyframe index.
pub open spec fn starts_index(s: Seq<u8>) -> bool {
    bytes::has_at(s, 0, index_magic())
}

/// Whether a packet starts like a Skeleton identification packet.
pub fn is_fishead(s: &[u8]) -> (r: bool)
    ensures
        r == starts_fishead(s@),
{
    let magic: [u8; 8] = [0x66, 0x69, 0x73, 0x68, 0x65, 0x61, 0x64, 0x00];
    assert(magic@ =~= fishead_magic());
    bytes::matches_at(s, 0, magic.as_slice())
}

/// Whether a packet starts like the description of a track.
pub fn is_fisbone(s: &[u8]) -> (r: bool)
    ensures
        r == starts_fisbone(s@),
{
    let magic: [u8; 8] = [0x66, 0x69, 0x73, 0x62, 0x6f, 0x6e, 0x65, 0x00];
    assert(magic@ =~= fisbone_magic());
    bytes::matches_at(s, 0, magic.as_slice())
}

/// Whether a packet starts like a keyframe index.
pub fn is_index(s: &[u8]) -> (r: bool)
    ensures
        r == starts_index(s@),
{
    let magic: [u8; 6] = [0x69, 0x6e, 0x64, 0x65, 0x78, 0x00];
    assert(magic@ =~= index_magic());
    bytes::matches_at(s, 0, magic.as_slice())
}

/// The fraction `numerator / denominator`.
#[derive(Clone, Copy, Debug, PartialEq, Eq, Structural)]
pub struct Fraction {
    pub numerator: i64,
    pub denominator: i64,
}

/// The fraction written at `off`: numerator, then denominator.
pub open spec fn fraction_at(s: Seq<u8>, off: int) -> Fraction {
    Fraction {
        numerator: bytes::signed64(bytes::le64(s, off)) as i64,
        denominator: bytes::signed64(bytes::le64(s, off + 8)) as i64,
    }
}

fn read_fraction(s: &[u8], off: usize) -> (r: Fraction)
    requires
        off + 16 <= s.len(),
    ensures
        r == fraction_at(s@, off as int),
{
    Fraction {
        numerator: bytes::le_i64_at(s, off),
        denominator: bytes::le_i64_at(s, off + 8),
    }
}

/// The identification packet of the Skeleton bitstream.
#[derive(Clone, Copy, Debug, PartialEq, Eq, Structural)]
pub struct FisHead {
    pub version_major: u16,
    pub version_minor: u16,
    /// Playback time to present first.
    pub presentation_time: Fraction,
    /// Playback time of granule position 0.
    pub basetime: Fraction,
    /// Length of the indexed segment in bytes (version 4.0).
    pub segment_length: Option<u64>,
}

/// The identification packet in `s`: 64 bytes, and 80 from version 4 on.
pub open spec fn fishead(s: Seq<u8>) -> Option<FisHead> {
    if !starts_fishead(s) || s.len() < 64 || (bytes::le16(s, 8) >= 4 && s.len() < 80) {
        None
    } else {
        Some(
            FisHead {
                version_major: bytes::le16(s, 8) as u16,
                version_minor: bytes::le16(s, 10) as u16,
                presentation_time: fraction_at(s, 12),
                basetime: fraction_at(s, 28),
                segment_length: if bytes::le16(s, 8) >= 4 {
                    Some(bytes::le64(s, 64) as u64)
                } else {
                    None
                },
            },
        )
    }
}

impl FisHead {
    /// Parse an identification packet.
    pub fn parse(s: &[u8]) -> (r: Option<FisHead>)
        ensures
            r == fishead(s@),
    {
        if !is_fishead(s) || s.len() < 64 {
            return None;
        }
        let version_major: u16 = bytes::le16_at(s, 8);
        if version_major >= 4 && s.len() < 80 {
            return None;
        }
        Some(
            FisHead {
                version_major,
                version_minor: bytes::le16_at(s, 10),
                presentation_time: read_fraction(s, 12),
                basetime: read_fraction(s, 28),
                segment_length: if version_major >= 4 {
                    Some(bytes::le64_at(s, 64))
                } else {
                    None
                },
            },
        )
    }
}

/// How a track's granules run and what its decoder needs.
#[derive(Clone, Copy, Debug, PartialEq, Eq, Structural)]
pub struct Track {
    pub serial: u32,
    pub num_headers: u32,
    /// Granules per second.
    pub granule_rate: Fraction,
    /// Granule at which the track's own data begins.
    pub basegranule: i64,
    /// Past packets needed to decode after a seek.
    pub preroll: u32,
    /// Low granule bits that count from a keyframe.
    pub granuleshift: u8,
}

/// The description of one track, as a value.
#[verifier::ext_equal]
pub struct BoneView {
    pub track: Track,
    pub headers: Seq<comment::Tag>,
}

/// The description of one track.
#[derive(Debug, PartialEq, Eq)]
pub struct FisBone {
    pub serial: u32,
    pub num_headers: u32,
    /// Granules per second.
    pub granule_rate: Fraction,
    /// Granule at which the track's own data begins.
    pub basegranule: i64,
    /// Past packets needed to decode after a seek.
    pub preroll: u32,
    /// Low granule bits that count from a keyframe.
    pub granuleshift: u8,
    /// Message header fields: the MIME type, role and name of the track, and
    /// whatever else is said of it.
    pub message_headers: Vec<(String, String)>,
}

impl View for FisBone {
    type V = BoneView;

    open spec fn view(&self) -> BoneView {
        BoneView {
            track: Track {
                serial: self.serial,
                num_headers: self.num_headers,
                granule_rate: self.granule_rate,
                basegranule: self.basegranule,
                preroll: self.preroll,
                granuleshift: self.granuleshift,
            },
            headers: comment::tags(self.message_headers@),
        }
    }
}

/// The message header fields of a track description. They begin where the
/// packet says, counted from the byte behind the magic, which is not before
/// its fixed part ends.
pub open spec fn bone_headers(s: Seq<u8>) -> Seq<comment::Tag> {
    let start = 8 + bytes::le32(s, 8);
    if 52 <= start <= s.len() {
        message::fields(s.skip(start))
    } else {
        Seq::empty()
    }
}

/// The track description in `s`.
pub open spec fn fisbone(s: Seq<u8>) -> Option<BoneView> {
    if !starts_fisbone(s) || s.len() < 52 {
        None
    } else {
        Some(
            BoneView {
                track: Track {
                    serial: bytes::le32(s, 12) as u32,
                    num_headers: bytes::le32(s, 16) as u32,
                    granule_rate: fraction_at(s, 20),
                    basegranule: bytes::signed64(bytes::le64(s, 36)) as i64,
                    preroll: bytes::le32(s, 44) as u32,
                    granuleshift: s[48],
                },
                headers: bone_headers(s),
            },
        )
    }
}

/// The view of an optional track description.
pub open spec fn opt_bone(r: Option<FisBone>) -> Option<BoneView> {
    match r {
        Some(b) => Some(b@),
        None => None,
    }
}

/// The view of an optional text.
pub open spec fn opt_text(r: Option<&str>) -> Option<Seq<char>> {
    match r {
        Some(t) => Some(t@),
        None => None,
    }
}

impl FisBone {
    /// Parse a track description.
    pub fn parse(s: &[u8]) -> (r: Option<FisBone>)
        ensures
            opt_bone(r) == fisbone(s@),
    {
        if !is_fisbone(s) || s.len() < 52 {
            return None;
        }
        let off: u32 = bytes::le32_at(s, 8);
        let message_headers: Vec<(String, String)> = if off >= 44 && off as usize <= s.len() - 8 {
            let start: usize = 8 + off as usize;
            assert(s@.subrange(start as int, s@.len() as int) =~= s@.skip(start as int));
            message::parse_fields(slice_subrange(s, start, s.len()))
        } else {
            let none: Vec<(String, String)> = Vec::new();
            assert(comment::tags(none@) =~= Seq::<comment::Tag>::empty());
            none
        };
        Some(
            FisBone {
                serial: bytes::le32_at(s, 12),
                num_headers: bytes::le32_at(s, 16),
                granule_rate: read_fraction(s, 20),
                basegranule: bytes::le_i64_at(s, 36),
                preroll: bytes::le32_at(s, 44),
                granuleshift: s[48],
                message_headers,
            },
        )
    }

    /// How the track's granules run and what its decoder needs.
    pub fn track(&self) -> (r: Track)
        ensures
            r == self@.track,
    {
        Track {
            serial: self.serial,
            num_headers: self.num_headers,
            granule_rate: self.granule_rate,
            basegranule: self.basegranule,
            preroll: self.preroll,
            granuleshift: self.granuleshift,
        }
    }

    /// The value of a message header field.
    pub fn message_header(&self, name: &str) -> (r: Option<&str>)
        ensures
            opt_text(r) == message::value_of(self@.headers, name@),
    {
        message::find_value(&self.message_headers, name)
    }

    /// The MIME type of the track.
    pub fn content_type(&self) -> (r: Option<&str>)
        ensures
            opt_text(r) == message::value_of(self@.headers, "Content-Type"@),
    {
        self.message_header("Content-Type")
    }

    /// What the track is for.
    pub fn role(&self) -> (r: Option<&str>)
        ensures
            opt_text(r) == message::value_of(self@.headers, "Role"@),
    {
        self.message_header("Role")
    }

    /// The name of the track.
    pub fn name(&self) -> (r: Option<&str>)
        ensures
            opt_text(r) == message::value_of(self@.headers, "Name"@),
    {
        self.message_header("Name")
    }
}

/// A seek point of a keyframe index.
#[derive(Clone, Copy, Debug, PartialEq, Eq, Structural)]
pub struct Keypoint {
    pub offset: u64,
    pub timestamp: i64,
}

/// A number of 7-bit groups at `off`, least significant first; the last group
/// has its high bit set. Also the offset after it. Nothing where the bytes
/// end first or the number does not fit 63 bits.
pub open spec fn varint(s: Seq<u8>, off: int, unit: int) -> Option<(int, int)>
    decreases s.len() - off,
{
    if off < 0 || off >= s.len() || unit > 0x100_0000_0000_0000 {
        None
    } else if s[off] >= 0x80 {
        Some(((s[off] - 0x80) * unit, off + 1))
    } else {
        match varint(s, off + 1, unit * 0x80) {
            Some((rest, end)) => Some((s[off] * unit + rest, end)),
            None => None,
        }
    }
}

/// `n` seek points at `off`, each as differences from the one before it,
/// which stands at `offset` and `timestamp`.
pub open spec fn keypoints(s: Seq<u8>, off: int, n: int, offset: int, timestamp: int) -> Option<
    Seq<Keypoint>,
>
    decreases n,
{
    if n <= 0 {
        Some(Seq::empty())
    } else {
        match varint(s, off, 1) {
            None => None,
            Some((d_off, mid)) => match varint(s, mid, 1) {
                None => None,
                Some((d_ts, end)) => {
                    let o = offset + d_off;
                    let t = timestamp + d_ts;
                    if o > u64::MAX || t > i64::MAX {
                        None
                    } else {
                        match keypoints(s, end, n - 1, o, t) {
                            None => None,
                            Some(rest) => Some(
                                seq![Keypoint { offset: o as u64, timestamp: t as i64 }] + rest,
                            ),
                        }
                    }
                },
            },
        }
    }
}

fn read_varint(s: &[u8], off: usize) -> (r: Option<(u64, usize)>)
    requires
        off <= s.len(),
    ensures
        match r {
            Some((v, end)) => varint(s@, off as int, 1) == Some((v as int, end as int)) && off < end
                <= s.len(),
            None => varint(s@, off as int, 1) is None,
        },
{
    let mut i: usize = off;
    let mut unit: u64 = 1;
    let mut sum: u64 = 0;
    while i < s.len() && unit <= 0x100_0000_0000_0000
        invariant
            off <= i <= s.len(),
            1 <= unit <= 0x8000_0000_0000_0000,
            unit > 0x100_0000_0000_0000 ==> unit == 0x8000_0000_0000_0000,
            sum < unit,
            varint(s@, off as int, 1) == (match varint(s@, i as int, unit as int) {
                Some((rest, end)) => Some((sum + rest, end)),
                None => None,
            }),
            unit == 1 || unit == 0x80 || unit == 0x4000 || unit == 0x20_0000 || unit == 0x1000_0000
                || unit == 0x8_0000_0000 || unit == 0x400_0000_0000 || unit == 0x2_0000_0000_0000
                || unit == 0x100_0000_0000_0000 || unit == 0x8000_0000_0000_0000,
        decreases s.len() - i,
    {
        let b: u8 = s[i];
        assert(b * unit <= 0x7f * unit || b >= 0x80) by (nonlinear_arith);
        if b >= 0x80 {
            assert((b - 0x80) * unit <= 0x7f * unit) by (nonlinear_arith)
                requires
                    b <= 0xff,
            ;
            return Some((sum + (b - 0x80) as u64 * unit, i + 1));
        }
        assert(varint(s@, i as int, unit as int) == (match varint(
            s@,
            i + 1,
            unit * 0x80,
        ) {
            Some((rest, end)) => Some((b * unit + rest, end)),
            None => None,
        }));
        sum = sum + b as u64 * unit;
        unit = unit * 0x80;
        i = i + 1;
    }
    None
}

/// A keyframe index as a value.
#[verifier::ext_equal]
pub struct IndexView {
    pub serial: u32,
    pub timestamp_denominator: i64,
    pub keypoints: Seq<Keypoint>,
}

/// The keyframe index of one track.
#[derive(Debug)]
pub struct SkelIndex {
    pub serial: u32,
    /// Ticks per second of the timestamps.
    pub timestamp_denominator: i64,
    pub keypoints: Vec<Keypoint>,
}

impl View for SkelIndex {
    type V = IndexView;

    open spec fn view(&self) -> IndexView {
        IndexView {
            serial: self.serial,
            timestamp_denominator: self.timestamp_denominator,
            keypoints: self.keypoints@,
        }
    }
}

/// The keyframe index in `s`.
pub open spec fn skel_index(s: Seq<u8>) -> Option<IndexView> {
    if !starts_index(s) || s.len() < 42 {
        None
    } else {
        match keypoints(s, 42, bytes::le64(s, 10), 0, 0) {
            None => None,
            Some(k) => Some(
                IndexView {
                    serial: bytes::le32(s, 6) as u32,
                    timestamp_denominator: bytes::signed64(bytes::le64(s, 18)) as i64,
                    keypoints: k,
                },
            ),
        }
    }
}

impl SkelIndex {
    /// Parse a keyframe index.
    pub fn parse(s: &[u8]) -> (r: Option<SkelIndex>)
        ensures
            opt_index(r) == skel_index(s@),
    {
        if !is_index(s) || s.len() < 42 {
            return None;
        }
        let n: u64 = bytes::le64_at(s, 10);
        let mut out: Vec<Keypoint> = Vec::new();
        let mut at: usize = 42;
        let mut left: u64 = n;
        let mut offset: u64 = 0;
        let mut timestamp: i64 = 0;
        while left > 0
            invariant
                at <= s.len(),
                timestamp >= 0,
                keypoints(s@, 42, n as int, 0, 0) == (match keypoints(
                    s@,
                    at as int,
                    left as int,
                    offset as int,
                    timestamp as int,
                ) {
                    Some(rest) => Some(out@ + rest),
                    None => None,
                }),
                starts_index(s@),
                s.len() >= 42,
                n == bytes::le64(s@, 10),
            decreases left,
        {
            let (d_off, mid) = match read_varint(s, at) {
                Some(x) => x,
                None => {
                    return None;
                },
            };
            let (d_ts, end) = match read_varint(s, mid) {
                Some(x) => x,
                None => {
                    return None;
                },
            };
            if d_off > u64::MAX - offset || d_ts > (i64::MAX - timestamp) as u64 {
                return None;
            }
            let ghost before = out@;
            offset = offset + d_off;
            timestamp = timestamp + d_ts as i64;
            let k = Keypoint { offset, timestamp };
            out.push(k);
            left = left - 1;
            at = end;
            proof {
                let tail = keypoints(
                    s@,
                    at as int,
                    left as int,
                    offset as int,
                    timestamp as int,
                );
                if tail is Some {
                    assert(before + (seq![k] + tail->0) =~= out@ + tail->0);
                }
            }
        }
        assert(out@ + Seq::<Keypoint>::empty() =~= out@);
        Some(
            SkelIndex {
                serial: bytes::le32_at(s, 6),
                timestamp_denominator: bytes::le_i64_at(s, 18),
                keypoints: out,
            },
        )
    }
}

/// The view of an optional index.
pub open spec fn opt_index(r: Option<SkelIndex>) -> Option<IndexView> {
    match r {
        Some(i) => Some(i@),
        None => None,
    }
}

/// The seek points of an index do not go back, neither in time nor in the
/// file.
pub proof fn keypoints_are_in_order(s: Seq<u8>, off: int, n: int, offset: int, timestamp: int)
    requires
        offset >= 0,
        timestamp >= 0,
        keypoints(s, off, n, offset, timestamp) is Some,
    ensures
        ({
            let k = keypoints(s, off, n, offset, timestamp)->0;
            &&& forall|i: int|
                0 <= i < k.len() ==> offset <= (#[trigger] k[i]).offset && timestamp
                    <= k[i].timestamp
            &&& forall|i: int, j: int|
                0 <= i <= j < k.len() ==> (#[trigger] k[i]).offset <= (#[trigger] k[j]).offset
                    && k[i].timestamp <= k[j].timestamp
        }),
    decreases n,
{
    if n > 0 {
        let (d_off, mid) = varint(s, off, 1)->0;
        let (d_ts, end) = varint(s, mid, 1)->0;
        varint_is_not_negative(s, off, 1);
        varint_is_not_negative(s, mid, 1);
        keypoints_are_in_order(s, end, n - 1, offset + d_off, timestamp + d_ts);
        let rest = keypoints(s, end, n - 1, offset + d_off, timestamp + d_ts)->0;
        let k = keypoints(s, off, n, offset, timestamp)->0;
        assert(forall|i: int| 0 < i < k.len() ==> #[trigger] k[i] == rest[i - 1]);
        assert forall|i: int, j: int| 0 <= i <= j < k.len() implies (#[trigger] k[i]).offset <= (
        #[trigger] k[j]).offset && k[i].timestamp <= k[j].timestamp by {
            if i > 0 {
                assert(rest[i - 1].offset <= rest[j - 1].offset);
            } else if j > 0 {
                assert(offset + d_off <= rest[j - 1].offset);
            }
        }
    }
}

proof fn varint_is_not_negative(s: Seq<u8>, off: int, unit: int)
    requires
        unit > 0,
        varint(s, off, unit) is Some,
    ensures
        (varint(s, off, unit)->0).0 >= 0,
    decreases s.len() - off,
{
    if s[off] >= 0x80 {
        assert((s[off] - 0x80) * unit >= 0) by (nonlinear_arith)
            requires
                unit > 0,
                s[off] >= 0x80,
        ;
    } else {
        varint_is_not_negative(s, off + 1, unit * 0x80);
        assert(s[off] * unit >= 0) by (nonlinear_arith)
            requires
                unit > 0,
                s[off] >= 0,
        ;
    }
}

/// The Skeleton bitstream as a value.
#[verifier::ext_equal]
pub struct SkeletonView {
    pub serial: u32,
    pub head: FisHead,
    pub bones: Seq<BoneView>,
    pub indexes: Seq<IndexView>,
}

/// First track description of `serial`.
pub open spec fn first_bone(bones: Seq<BoneView>, serial: u32) -> Option<BoneView>
    decreases bones.len(),
{
    if bones.len() == 0 {
        None
    } else if bones[0].track.serial == serial {
        Some(bones[0])
    } else {
        first_bone(bones.skip(1), serial)
    }
}

/// First keyframe index of `serial`.
pub open spec fn first_index(indexes: Seq<IndexView>, serial: u32) -> Option<IndexView>
    decreases indexes.len(),
{
    if indexes.len() == 0 {
        None
    } else if indexes[0].serial == serial {
        Some(indexes[0])
    } else {
        first_index(indexes.skip(1), serial)
    }
}

/// A packet of the Skeleton bitstream added to what is known. Packets that do
/// not parse, a second identification packet and unknown packets add nothing.
pub open spec fn with_packet(sk: SkeletonView, packet: Seq<u8>) -> SkeletonView {
    if starts_fisbone(packet) {
        match fisbone(packet) {
            Some(bone) => SkeletonView { bones: sk.bones.push(bone), ..sk },
            None => sk,
        }
    } else if starts_index(packet) {
        match skel_index(packet) {
            Some(index) => SkeletonView { indexes: sk.indexes.push(index), ..sk },
            None => sk,
        }
    } else {
        sk
    }
}

/// Packets of the Skeleton bitstream added to what is known, in order.
pub open spec fn with_packets(sk: SkeletonView, packets: Seq<Seq<u8>>) -> SkeletonView
    decreases packets.len(),
{
    if packets.len() == 0 {
        sk
    } else {
        with_packet(with_packets(sk, packets.drop_last()), packets.last())
    }
}

/// What the Skeleton bitstream says.
#[derive(Debug)]
pub struct Skeleton {
    pub serial: u32,
    pub head: FisHead,
    pub bones: Vec<FisBone>,
    pub indexes: Vec<SkelIndex>,
}

impl View for Skeleton {
    type V = SkeletonView;

    open spec fn view(&self) -> SkeletonView {
        SkeletonView {
            serial: self.serial,
            head: self.head,
            bones: media::views(self.bones@),
            indexes: media::views(self.indexes@),
        }
    }
}

impl Skeleton {
    /// A Skeleton of which only the identification packet is known.
    pub fn new(serial: u32, head: FisHead) -> (r: Skeleton)
        ensures
            r@ == (SkeletonView { serial, head, bones: Seq::empty(), indexes: Seq::empty() }),
    {
        let r = Skeleton { serial, head, bones: Vec::new(), indexes: Vec::new() };
        assert(r@.bones =~= Seq::<BoneView>::empty());
        assert(r@.indexes =~= Seq::<IndexView>::empty());
        r
    }

    /// First track description of `serial`.
    pub fn bone_for_serial(&self, serial: u32) -> (r: Option<&FisBone>)
        ensures
            (match r {
                Some(b) => Some(b@),
                None => None,
            }) == first_bone(self@.bones, serial),
    {
        let mut i: usize = 0;
        let ghost all = self@.bones;
        assert(all.skip(0) =~= all);
        while i < self.bones.len()
            invariant
                i <= self.bones@.len(),
                all == media::views(self.bones@),
                first_bone(all, serial) == first_bone(all.skip(i as int), serial),
            decreases self.bones@.len() - i,
        {
            assert(all.skip(i as int)[0] == self.bones@[i as int]@);
            if self.bones[i].serial == serial {
                return Some(&self.bones[i]);
            }
            assert(all.skip(i as int).skip(1) =~= all.skip(i + 1));
            i = i + 1;
        }
        None
    }

    /// First keyframe index of `serial`.
    pub fn index_for_serial(&self, serial: u32) -> (r: Option<&SkelIndex>)
        ensures
            (match r {
                Some(i) => Some(i@),
                None => None,
            }) == first_index(self@.indexes, serial),
    {
        let mut i: usize = 0;
        let ghost all = self@.indexes;
        assert(all.skip(0) =~= all);
        while i < self.indexes.len()
            invariant
                i <= self.indexes@.len(),
                all == media::views(self.indexes@),
                first_index(all, serial) == first_index(all.skip(i as int), serial),
            decreases self.indexes@.len() - i,
        {
            if self.indexes[i].serial == serial {
                return Some(&self.indexes[i]);
            }
            assert(all.skip(i as int).skip(1) =~= all.skip(i + 1));
            i = i + 1;
        }
        None
    }

    /// Add what a packet of the Skeleton bitstream says.
    pub fn absorb(&mut self, packet: &[u8])
        ensures
            final(self)@ == with_packet(old(self)@, packet@),
    {
        let ghost before = self@;
        if is_fisbone(packet) {
            if let Some(bone) = FisBone::parse(packet) {
                self.bones.push(bone);
                assert(self@.bones =~= before.bones.push(bone@));
            }
        } else if is_index(packet) {
            if let Some(index) = SkelIndex::parse(packet) {
                self.indexes.push(index);
                assert(self@.indexes =~= before.indexes.push(index@));
            }
        }
    }
}

/// An index found for a serial number is one of that serial number.
pub proof fn index_found_is_of_the_serial(indexes: Seq<IndexView>, serial: u32)
    ensures
        first_index(indexes, serial) matches Some(index) ==> index.serial == serial
            && exists|j: int| 0 <= j < indexes.len() && #[trigger] indexes[j] == index,
    decreases indexes.len(),
{
    if indexes.len() > 0 && indexes[0].serial != serial {
        index_found_is_of_the_serial(indexes.skip(1), serial);
        if let Some(index) = first_index(indexes, serial) {
            let later = indexes.skip(1);
            let j = choose|j: int| 0 <= j < later.len() && #[trigger] later[j] == index;
            assert(indexes[j + 1] == index);
        }
    }
}

/// An index of a serial number is found where there is one.
pub proof fn indexes_are_found(indexes: Seq<IndexView>, i: int)
    requires
        0 <= i < indexes.len(),
    ensures
        first_index(indexes, indexes[i].serial) is Some,
    decreases indexes.len(),
{
    if indexes[0].serial != indexes[i].serial {
        assert(indexes.skip(1)[i - 1] == indexes[i]);
        indexes_are_found(indexes.skip(1), i - 1);
    }
}

/// A track description found for a serial number is one of that serial
/// number.
pub proof fn bone_found_is_of_the_serial(bones: Seq<BoneView>, serial: u32)
    ensures
        match first_bone(bones, serial) {
            Some(b) => b.track.serial == serial && bones.contains(b),
            None => forall|i: int|
                0 <= i < bones.len() ==> (#[trigger] bones[i]).track.serial != serial,
        },
    decreases bones.len(),
{
    if bones.len() > 0 && bones[0].track.serial != serial {
        bone_found_is_of_the_serial(bones.skip(1), serial);
        if first_bone(bones, serial) is None {
            assert forall|i: int| 0 <= i < bones.len() implies (#[trigger] bones[i]).track.serial
                != serial by {
                if i > 0 {
                    assert(bones.skip(1)[i - 1].track.serial != serial);
                }
            }
        }
    }
}

} // verus!
