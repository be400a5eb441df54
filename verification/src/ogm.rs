//! Ogg Media (OGM) identification packets.
//!
//! After a `0x01` byte stands the class of the stream, `video`, `audio` or
//! `text`; at byte 9 a FourCC for video or four hexadecimal digits of a
//! `wFormatTag` for audio. From byte 13 on follow, little-endian: a 32-bit
//! size, 64-bit `time_unit` and `spu`, three 32-bit fields, and then width
//! and height or the channel count. One granule is `time_unit / (spu *
//! 10_000_000)` seconds.
use crate::bytes;
use crate::media;
use crate::media::{CodecId, CodecParameters, CodecTag, MediaType, ParamsView, TagView, TimeBase};
use crate::text;
use vstd::prelude::*;
use vstd::string::*;

verus! {

/// An OGM identification packet as a value.
#[verifier::ext_equal]
pub struct HeaderView {
    pub media_type: MediaType,
    pub codec_id: Seq<char>,
    pub tag: Option<TagView>,
    pub width: Option<u32>,
    pub height: Option<u32>,
    pub channels: Option<u16>,
    pub sample_rate: Option<u32>,
    pub time_unit: u64,
    pub spu: u64,
}

/// A parsed OGM identification packet.
#[derive(Debug)]
pub struct StreamHeader {
    pub media_type: MediaType,
    /// Named after the tag, or `text`.
    pub codec_id: CodecId,
    /// FourCC for video, `wFormatTag` for audio.
    pub tag: Option<CodecTag>,
    pub width: Option<u32>,
    pub height: Option<u32>,
    pub channels: Option<u16>,
    pub sample_rate: Option<u32>,
    pub time_unit: u64,
    pub spu: u64,
}

impl View for StreamHeader {
    type V = HeaderView;

    open spec fn view(&self) -> HeaderView {
        HeaderView {
            media_type: self.media_type,
            codec_id: self.codec_id@,
            tag: media::opt_view(self.tag),
            width: self.width,
            height: self.height,
            channels: self.channels,
            sample_rate: self.sample_rate,
            time_unit: self.time_unit,
            spu: self.spu,
        }
    }
}

/// The 16-bit number at `off`, where there is one.
pub open spec fn u16_at(s: Seq<u8>, off: int) -> Option<u16> {
    if off + 2 <= s.len() {
        Some(bytes::le16(s, off) as u16)
    } else {
        None
    }
}

/// The 32-bit number at `off`, where there is one.
pub open spec fn u32_at(s: Seq<u8>, off: int) -> Option<u32> {
    if off + 4 <= s.len() {
        Some(bytes::le32(s, off) as u32)
    } else {
        None
    }
}

/// The 64-bit number at `off`, where there is one.
pub open spec fn u64_at(s: Seq<u8>, off: int) -> Option<u64> {
    if off + 8 <= s.len() {
        Some(bytes::le64(s, off) as u64)
    } else {
        None
    }
}

/// `time_unit` and `spu`, 0 where they are missing.
pub open spec fn timing(first: Seq<u8>) -> (u64, u64) {
    (
        match u64_at(first, 17) {
            Some(x) => x,
            None => 0,
        },
        match u64_at(first, 25) {
            Some(x) => x,
            None => 0,
        },
    )
}

/// Granules per second: `spu * 10_000_000 / time_unit`, where that is a
/// positive 32-bit number and the product fits 64 bits.
pub open spec fn granule_rate(time_unit: u64, spu: u64) -> Option<u32> {
    if time_unit == 0 || spu * 10_000_000 > u64::MAX {
        None
    } else {
        let rate = spu * 10_000_000 / time_unit as int;
        if 0 < rate <= u32::MAX {
            Some(rate as u32)
        } else {
            None
        }
    }
}

/// The value of a hexadecimal digit.
pub open spec fn hex_digit(b: u8) -> Option<int> {
    if 0x30 <= b <= 0x39 {
        Some(b - 0x30)
    } else if 0x41 <= b <= 0x46 {
        Some(b - 0x37)
    } else if 0x61 <= b <= 0x66 {
        Some(b - 0x57)
    } else {
        None
    }
}

/// The number that hexadecimal digits write.
pub open spec fn hex_number(s: Seq<u8>) -> Option<int>
    decreases s.len(),
{
    if s.len() == 0 {
        Some(0)
    } else {
        match (hex_number(s.drop_last()), hex_digit(s.last())) {
            (Some(n), Some(d)) => Some(16 * n + d),
            _ => None,
        }
    }
}

/// The 16-bit number that `s` writes: at least one hexadecimal digit, after a
/// plus sign if there is one.
pub open spec fn hex16(s: Seq<u8>) -> Option<u16> {
    let digits = if s.len() > 0 && s[0] == 0x2b {
        s.skip(1)
    } else {
        s
    };
    match hex_number(digits) {
        Some(n) => if digits.len() > 0 && n <= 0xffff {
            Some(n as u16)
        } else {
            None
        },
        None => None,
    }
}

/// Whether all bytes are printable ASCII characters or spaces.
pub open spec fn is_printable(fourcc: Seq<u8>) -> bool {
    forall|i: int| 0 <= i < fourcc.len() ==> 0x20 <= #[trigger] fourcc[i] <= 0x7e
}

/// Two hexadecimal digits for each byte.
pub open spec fn hex_text(s: Seq<u8>) -> Seq<char>
    decreases s.len(),
{
    if s.len() == 0 {
        Seq::empty()
    } else {
        hex_text(s.drop_last()) + text::hex(s.last() as nat, 2, true)
    }
}

/// A FourCC as text: its characters, or its bytes in hexadecimal where they
/// are not printable.
pub open spec fn label(fourcc: Seq<u8>) -> Seq<char> {
    if is_printable(fourcc) {
        fourcc.map_values(|b: u8| b as char)
    } else {
        hex_text(fourcc)
    }
}

/// The codec that a FourCC names.
pub open spec fn video_codec(c: Seq<u8>) -> Seq<char> {
    if c == seq![0x58u8, 0x56, 0x49, 0x44] || c == seq![0x44u8, 0x49, 0x56, 0x58] || c == seq![
        0x44u8,
        0x58,
        0x35,
        0x30,
    ] || c == seq![0x46u8, 0x4d, 0x50, 0x34] || c == seq![0x4du8, 0x50, 0x34, 0x56] {
        "mpeg4"@
    } else if c == seq![0x4du8, 0x4a, 0x50, 0x47] || c == seq![0x4au8, 0x50, 0x45, 0x47] {
        "mjpeg"@
    } else if c == seq![0x48u8, 0x32, 0x36, 0x34] || c == seq![0x58u8, 0x32, 0x36, 0x34] || c
        == seq![0x41u8, 0x56, 0x43, 0x31] || c == seq![0x44u8, 0x41, 0x56, 0x43] {
        "h264"@
    } else {
        "ogm:"@ + label(c)
    }
}

/// The codec that a `wFormatTag` names.
pub open spec fn audio_codec(wformat: u16) -> Seq<char> {
    if wformat == 0x0001 {
        "pcm_s16le"@
    } else if wformat == 0x0055 {
        "mp3"@
    } else if wformat == 0x00ff {
        "aac"@
    } else if wformat == 0x2000 {
        "ac3"@
    } else if wformat == 0x674f || wformat == 0x6771 {
        "vorbis"@
    } else {
        "ogm:0x"@ + text::hex(wformat as nat, 4, true)
    }
}

/// `"video"`.
pub open spec fn video_class() -> Seq<u8> {
    seq![0x76u8, 0x69, 0x64, 0x65, 0x6f]
}

/// `"audio"`.
pub open spec fn audio_class() -> Seq<u8> {
    seq![0x61u8, 0x75, 0x64, 0x69, 0x6f]
}

/// `"text"`.
pub open spec fn text_class() -> Seq<u8> {
    seq![0x74u8, 0x65, 0x78, 0x74]
}

/// The OGM header that a first packet holds, if it holds one.
pub open spec fn parsed(first: Seq<u8>) -> Option<HeaderView> {
    let (time_unit, spu) = timing(first);
    if first.len() == 0 || first[0] != 0x01 {
        None
    } else if bytes::has_at(first, 1, video_class()) {
        if first.len() < 13 {
            None
        } else {
            let fourcc = first.subrange(9, 13);
            Some(
                HeaderView {
                    media_type: MediaType::Video,
                    codec_id: video_codec(fourcc),
                    tag: Some(TagView::Fourcc(fourcc.map_values(|b: u8| media::upper(b)))),
                    width: u32_at(first, 45),
                    height: u32_at(first, 49),
                    channels: None,
                    sample_rate: None,
                    time_unit,
                    spu,
                },
            )
        }
    } else if bytes::has_at(first, 1, text_class()) {
        Some(
            HeaderView {
                media_type: MediaType::Subtitle,
                codec_id: "text"@,
                tag: None,
                width: None,
                height: None,
                channels: None,
                sample_rate: None,
                time_unit,
                spu,
            },
        )
    } else if bytes::has_at(first, 1, audio_class()) {
        if first.len() < 13 {
            None
        } else {
            match hex16(first.subrange(9, 13)) {
                None => None,
                Some(wformat) => Some(
                    HeaderView {
                        media_type: MediaType::Audio,
                        codec_id: audio_codec(wformat),
                        tag: Some(TagView::WaveFormat(wformat)),
                        width: None,
                        height: None,
                        channels: u16_at(first, 45),
                        sample_rate: granule_rate(time_unit, spu),
                        time_unit,
                        spu,
                    },
                ),
            }
        }
    } else {
        None
    }
}

impl HeaderView {
    /// One granule in seconds, where the timing fields are usable.
    pub open spec fn tick(self) -> Option<TimeBase> {
        if 0 < self.time_unit <= i64::MAX && 0 < self.spu * 10_000_000 <= i64::MAX {
            Some(TimeBase { num: self.time_unit as i64, den: (self.spu * 10_000_000) as i64 })
        } else {
            None
        }
    }

    /// Parameters with what this header says put over them.
    pub open spec fn over(self, p: ParamsView) -> ParamsView {
        ParamsView {
            media_type: self.media_type,
            codec_id: self.codec_id,
            width: if self.width is Some {
                self.width
            } else {
                p.width
            },
            height: if self.height is Some {
                self.height
            } else {
                p.height
            },
            channels: if self.channels is Some {
                self.channels
            } else {
                p.channels
            },
            sample_rate: if self.sample_rate is Some {
                self.sample_rate
            } else {
                p.sample_rate
            },
            tag: if self.tag is Some {
                self.tag
            } else {
                p.tag
            },
            ..p
        }
    }
}

/// The view of an optional header.
pub open spec fn opt_header(h: Option<StreamHeader>) -> Option<HeaderView> {
    match h {
        Some(h) => Some(h@),
        None => None,
    }
}

impl StreamHeader {
    /// Parse an OGM identification packet; nothing where `first` is none.
    pub fn parse(first: &[u8]) -> (r: Option<Self>)
        ensures
            opt_header(r) == parsed(first@),
    {
        if first.len() == 0 || first[0] != 0x01 {
            return None;
        }
        let video: [u8; 5] = [0x76, 0x69, 0x64, 0x65, 0x6f];
        let subtitle: [u8; 4] = [0x74, 0x65, 0x78, 0x74];
        let audio: [u8; 5] = [0x61, 0x75, 0x64, 0x69, 0x6f];
        assert(video@ =~= video_class());
        assert(subtitle@ =~= text_class());
        assert(audio@ =~= audio_class());
        let (time_unit, spu) = common_timing(first);
        if bytes::matches_at(first, 1, video.as_slice()) {
            let fourcc: [u8; 4] = match slice4(first, 9) {
                Some(c) => c,
                None => {
                    return None;
                },
            };
            return Some(
                StreamHeader {
                    media_type: MediaType::Video,
                    codec_id: video_codec_id(&fourcc),
                    tag: Some(CodecTag::fourcc(&fourcc)),
                    width: read_u32(first, 45),
                    height: read_u32(first, 49),
                    channels: None,
                    sample_rate: None,
                    time_unit,
                    spu,
                },
            );
        }
        if bytes::matches_at(first, 1, subtitle.as_slice()) {
            return Some(
                StreamHeader {
                    media_type: MediaType::Subtitle,
                    codec_id: CodecId::new("text"),
                    tag: None,
                    width: None,
                    height: None,
                    channels: None,
                    sample_rate: None,
                    time_unit,
                    spu,
                },
            );
        }
        if bytes::matches_at(first, 1, audio.as_slice()) {
            let digits: [u8; 4] = match slice4(first, 9) {
                Some(c) => c,
                None => {
                    return None;
                },
            };
            let wformat: u16 = match hex_u16(digits.as_slice()) {
                Some(w) => w,
                None => {
                    return None;
                },
            };
            return Some(
                StreamHeader {
                    media_type: MediaType::Audio,
                    codec_id: audio_codec_id(wformat),
                    tag: Some(CodecTag::wave_format(wformat)),
                    width: None,
                    height: None,
                    channels: read_u16(first, 45),
                    sample_rate: rate_from_timing(time_unit, spu),
                    time_unit,
                    spu,
                },
            );
        }
        None
    }

    /// One granule in seconds, where the timing fields are usable.
    pub fn time_base(&self) -> (r: Option<TimeBase>)
        ensures
            r == self@.tick(),
    {
        if self.time_unit == 0 || self.time_unit > i64::MAX as u64 {
            return None;
        }
        if self.spu == 0 || self.spu > i64::MAX as u64 / 10_000_000 {
            return None;
        }
        Some(TimeBase::new(self.time_unit as i64, (self.spu * 10_000_000) as i64))
    }

    /// Put what this header says over `params`.
    pub fn apply(&self, params: &mut CodecParameters)
        ensures
            final(params)@ == self@.over(old(params)@),
    {
        params.media_type = self.media_type;
        params.codec_id = self.codec_id.duplicate();
        if self.width.is_some() {
            params.width = self.width;
        }
        if self.height.is_some() {
            params.height = self.height;
        }
        if self.channels.is_some() {
            params.channels = self.channels;
        }
        if self.sample_rate.is_some() {
            params.sample_rate = self.sample_rate;
        }
        if self.tag.is_some() {
            params.tag = self.tag;
        }
    }
}

/// `time_unit` and `spu`, 0 where they are missing.
pub fn common_timing(first: &[u8]) -> (r: (u64, u64))
    ensures
        r == timing(first@),
{
    let time_unit: u64 = match read_u64(first, 17) {
        Some(x) => x,
        None => 0,
    };
    let spu: u64 = match read_u64(first, 25) {
        Some(x) => x,
        None => 0,
    };
    (time_unit, spu)
}

/// Granules per second.
pub fn rate_from_timing(time_unit: u64, spu: u64) -> (r: Option<u32>)
    ensures
        r == granule_rate(time_unit, spu),
{
    if time_unit == 0 || spu > u64::MAX / 10_000_000 {
        return None;
    }
    let rate: u64 = spu * 10_000_000 / time_unit;
    if rate > 0 && rate <= u32::MAX as u64 {
        Some(rate as u32)
    } else {
        None
    }
}

fn is_fourcc(c: &[u8; 4], a: u8, b: u8, d: u8, e: u8) -> (r: bool)
    ensures
        r == (c@ == seq![a, b, d, e]),
{
    let r: bool = c[0] == a && c[1] == b && c[2] == d && c[3] == e;
    proof {
        if r {
            assert(c@ =~= seq![a, b, d, e]);
        }
    }
    r
}

/// The codec that a FourCC names.
pub fn video_codec_id(fourcc: &[u8; 4]) -> (r: CodecId)
    ensures
        r@ == video_codec(fourcc@),
{
    if is_fourcc(fourcc, 0x58, 0x56, 0x49, 0x44) || is_fourcc(fourcc, 0x44, 0x49, 0x56, 0x58)
        || is_fourcc(fourcc, 0x44, 0x58, 0x35, 0x30) || is_fourcc(fourcc, 0x46, 0x4d, 0x50, 0x34)
        || is_fourcc(fourcc, 0x4d, 0x50, 0x34, 0x56) {
        CodecId::new("mpeg4")
    } else if is_fourcc(fourcc, 0x4d, 0x4a, 0x50, 0x47) || is_fourcc(
        fourcc,
        0x4a,
        0x50,
        0x45,
        0x47,
    ) {
        CodecId::new("mjpeg")
    } else if is_fourcc(fourcc, 0x48, 0x32, 0x36, 0x34) || is_fourcc(
        fourcc,
        0x58,
        0x32,
        0x36,
        0x34,
    ) || is_fourcc(fourcc, 0x41, 0x56, 0x43, 0x31) || is_fourcc(
        fourcc,
        0x44,
        0x41,
        0x56,
        0x43,
    ) {
        CodecId::new("h264")
    } else {
        let mut name: String = text::owned("ogm:");
        let rest: String = fourcc_label(fourcc);
        name.append(rest.as_str());
        CodecId(name)
    }
}

/// The codec that a `wFormatTag` names.
pub fn audio_codec_id(wformat: u16) -> (r: CodecId)
    ensures
        r@ == audio_codec(wformat),
{
    if wformat == 0x0001 {
        CodecId::new("pcm_s16le")
    } else if wformat == 0x0055 {
        CodecId::new("mp3")
    } else if wformat == 0x00ff {
        CodecId::new("aac")
    } else if wformat == 0x2000 {
        CodecId::new("ac3")
    } else if wformat == 0x674f || wformat == 0x6771 {
        CodecId::new("vorbis")
    } else {
        let mut name: String = text::owned("ogm:0x");
        text::push_hex(&mut name, wformat as u64, 4, true);
        CodecId(name)
    }
}

/// A FourCC as text.
pub fn fourcc_label(fourcc: &[u8; 4]) -> (r: String)
    ensures
        r@ == label(fourcc@),
{
    let mut printable: bool = true;
    let mut i: usize = 0;
    while i < 4
        invariant
            i <= 4,
            printable == (forall|j: int| 0 <= j < i ==> 0x20 <= #[trigger] fourcc@[j] <= 0x7e),
        decreases 4 - i,
    {
        let b: u8 = fourcc[i];
        if b < 0x20 || b > 0x7e {
            printable = false;
        }
        i = i + 1;
    }
    let mut out: String = String::new();
    let mut k: usize = 0;
    assert(fourcc@.subrange(0, 0) =~= Seq::<u8>::empty());
    while k < 4
        invariant
            k <= 4,
            printable == is_printable(fourcc@),
            printable ==> out@ == fourcc@.subrange(0, k as int).map_values(|b: u8| b as char),
            !printable ==> out@ == hex_text(fourcc@.subrange(0, k as int)),
        decreases 4 - k,
    {
        assert(fourcc@.subrange(0, k + 1).drop_last() =~= fourcc@.subrange(0, k as int));
        let ghost before = out@;
        if printable {
            out.push(fourcc[k] as char);
            assert(out@ =~= fourcc@.subrange(0, k + 1).map_values(|b: u8| b as char));
        } else {
            text::push_hex(&mut out, fourcc[k] as u64, 2, true);
        }
        k = k + 1;
    }
    assert(fourcc@.subrange(0, 4) =~= fourcc@);
    out
}

/// The four bytes at `off`, where there are four.
pub fn slice4(s: &[u8], off: usize) -> (r: Option<[u8; 4]>)
    ensures
        match r {
            Some(c) => off + 4 <= s@.len() && c@ == s@.subrange(off as int, off + 4),
            None => off + 4 > s@.len(),
        },
{
    if off > s.len() || s.len() - off < 4 {
        return None;
    }
    let c: [u8; 4] = [s[off], s[off + 1], s[off + 2], s[off + 3]];
    assert(c@ =~= s@.subrange(off as int, off + 4));
    Some(c)
}

proof fn long_numbers_stay_long(s: Seq<u8>, n: int)
    requires
        0 <= n <= s.len(),
        match hex_number(s.subrange(0, n)) {
            Some(v) => v > 0xffff,
            None => true,
        },
    ensures
        match hex_number(s) {
            Some(v) => v > 0xffff,
            None => true,
        },
    decreases s.len() - n,
{
    if n < s.len() {
        assert(s.subrange(0, n + 1).drop_last() =~= s.subrange(0, n));
        long_numbers_stay_long(s, n + 1);
    } else {
        assert(s.subrange(0, n) =~= s);
    }
}

/// The 16-bit number that `s` writes in hexadecimal.
pub fn hex_u16(s: &[u8]) -> (r: Option<u16>)
    ensures
        r == hex16(s@),
{
    let from: usize = if s.len() > 0 && s[0] == 0x2b {
        1
    } else {
        0
    };
    let ghost digits = if from == 1 {
        s@.skip(1)
    } else {
        s@
    };
    if s.len() == from {
        return None;
    }
    let mut value: u32 = 0;
    let mut i: usize = from;
    assert(digits.subrange(0, 0) =~= Seq::<u8>::empty());
    while i < s.len()
        invariant
            from <= i <= s.len(),
            from <= 1,
            digits == (if from == 1 {
                s@.skip(1)
            } else {
                s@
            }),
            from == 1 <==> s.len() > 0 && s@[0] == 0x2b,
            hex_number(digits.subrange(0, i - from)) == Some(value as int),
            value <= 0xffff,
        decreases s.len() - i,
    {
        let b: u8 = s[i];
        let ghost n = i - from;
        proof {
            assert(digits.subrange(0, n + 1).drop_last() =~= digits.subrange(0, n as int));
            assert(digits[n as int] == b);
        }
        let d: u32 = if 0x30 <= b && b <= 0x39 {
            (b - 0x30) as u32
        } else if 0x41 <= b && b <= 0x46 {
            (b - 0x37) as u32
        } else if 0x61 <= b && b <= 0x66 {
            (b - 0x57) as u32
        } else {
            proof {
                long_numbers_stay_long(digits, n + 1);
            }
            return None;
        };
        value = 16 * value + d;
        if value > 0xffff {
            proof {
                long_numbers_stay_long(digits, n + 1);
            }
            return None;
        }
        i = i + 1;
    }
    assert(digits.subrange(0, i - from) =~= digits);
    Some(value as u16)
}

/// Little-endian 16-bit number at `off`, where there is one.
pub fn read_u16(s: &[u8], off: usize) -> (r: Option<u16>)
    ensures
        r == u16_at(s@, off as int),
{
    if off > s.len() || s.len() - off < 2 {
        None
    } else {
        Some(bytes::le16_at(s, off))
    }
}

/// Little-endian 32-bit number at `off`, where there is one.
pub fn read_u32(s: &[u8], off: usize) -> (r: Option<u32>)
    ensures
        r == u32_at(s@, off as int),
{
    if off > s.len() || s.len() - off < 4 {
        None
    } else {
        Some(bytes::le32_at(s, off))
    }
}

/// Little-endian 64-bit number at `off`, where there is one.
pub fn read_u64(s: &[u8], off: usize) -> (r: Option<u64>)
    ensures
        r == u64_at(s@, off as int),
{
    if off > s.len() || s.len() - off < 8 {
        None
    } else {
        Some(bytes::le64_at(s, off))
    }
}

} // verus!
