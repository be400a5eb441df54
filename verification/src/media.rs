//! Streams and packets as the container describes them.
use crate::text;
use vstd::prelude::*;

verus! {

/// The views of a list of values.
pub open spec fn views<T: View>(s: Seq<T>) -> Seq<T::V> {
    Seq::new(s.len(), |i: int| s[i]@)
}

/// What kind of content a stream has.
#[derive(Clone, Copy, Debug, PartialEq, Eq, Structural)]
pub enum MediaType {
    Audio,
    Video,
    Subtitle,
    Unknown,
}

/// Chroma layout of decoded pictures.
#[derive(Clone, Copy, Debug, PartialEq, Eq, Structural)]
pub enum PixelFormat {
    Yuv420P,
    Yuv422P,
    Yuv444P,
}

/// A fraction, kept as it was written.
#[derive(Clone, Copy, Debug, PartialEq, Eq, Structural)]
pub struct Rational {
    pub num: i64,
    pub den: i64,
}

/// Seconds per tick, as a fraction.
#[derive(Clone, Copy, Debug, PartialEq, Eq, Structural)]
pub struct TimeBase {
    pub num: i64,
    pub den: i64,
}

/// Magnitude of an integer.
pub open spec fn magnitude(x: int) -> int {
    if x < 0 {
        -x
    } else {
        x
    }
}

/// `x` brought into the range of `i64`.
pub open spec fn clamped(x: int) -> i64 {
    if x < i64::MIN {
        i64::MIN
    } else if x > i64::MAX {
        i64::MAX
    } else {
        x as i64
    }
}

/// `ts` ticks of `from`, in ticks of `to`: rounded to the nearest tick, ties
/// away from zero, and brought into range. Where `to` or `from` makes the
/// conversion undefined it is 0. A dividend beyond 128 bits counts as out of
/// range whatever the divisor.
pub open spec fn rescaled(ts: i64, from: TimeBase, to: TimeBase) -> i64 {
    let dividend = ts * (from.num * to.den);
    let divisor = from.den * to.num;
    let p = magnitude(dividend);
    let d = magnitude(divisor);
    let negative = (dividend < 0) != (divisor < 0);
    let q = p / d + if 2 * (p % d) >= d {
        1int
    } else {
        0int
    };
    if divisor == 0 {
        0
    } else if p > u128::MAX {
        if negative {
            i64::MIN
        } else {
            i64::MAX
        }
    } else if p == 0 {
        0
    } else {
        clamped(
            if negative {
                -q
            } else {
                q
            },
        )
    }
}

/// Calls `TimeBase::rescale` of `oxideav_core`, which multiplies in 128 bits,
/// divides, rounds half away from zero and saturates; an undefined factor
/// gives 0, and a product that does not fit 128 bits saturates by its sign.
#[verifier::external_body]
pub(crate) fn rescale(ts: i64, from: TimeBase, to: TimeBase) -> (r: i64)
    ensures
        r == rescaled(ts, from, to),
{
    let target = oxideav_core::TimeBase::new(to.num, to.den);
    oxideav_core::TimeBase::new(from.num, from.den).rescale(ts, target)
}

/// Converting between equal time bases changes nothing.
pub proof fn rescaling_to_the_same_base(ts: i64, base: TimeBase)
    requires
        0 < base.num <= u32::MAX,
        0 < base.den <= u32::MAX,
    ensures
        rescaled(ts, base, base) == ts,
{
    let f = base.num * base.den;
    assert(base.den * base.num == f) by (nonlinear_arith)
        requires
            f == base.num * base.den,
    ;
    assert(0 < f <= 0xffff_fffe_0000_0001) by (nonlinear_arith)
        requires
            f == base.num * base.den,
            0 < base.num <= 0xffff_ffff,
            0 < base.den <= 0xffff_ffff,
    ;
    let p = magnitude(ts * f);
    let m = magnitude(ts as int);
    assert(p == m * f && (ts < 0 <==> ts * f < 0)) by (nonlinear_arith)
        requires
            p == magnitude(ts * f),
            m == magnitude(ts as int),
            f > 0,
    ;
    assert(m * f <= 0x8000_0000_0000_0000 * 0xffff_fffe_0000_0001) by (nonlinear_arith)
        requires
            0 <= m <= 0x8000_0000_0000_0000,
            0 < f <= 0xffff_fffe_0000_0001,
    ;
    assert(0x8000_0000_0000_0000int * 0xffff_fffe_0000_0001int <= u128::MAX);
    vstd::arithmetic::div_mod::lemma_fundamental_div_mod_converse(p, f, m, 0);
}

impl TimeBase {
    /// `num / den` seconds per tick.
    pub fn new(num: i64, den: i64) -> (r: Self)
        ensures
            r == (TimeBase { num, den }),
    {
        TimeBase { num, den }
    }

    /// `ts` ticks of this time base, in ticks of `target`.
    pub fn rescale(&self, ts: i64, target: TimeBase) -> (r: i64)
        ensures
            r == rescaled(ts, *self, target),
    {
        rescale(ts, *self, target)
    }
}

/// The name of a codec.
#[derive(Debug)]
pub struct CodecId(pub String);

impl View for CodecId {
    type V = Seq<char>;

    open spec fn view(&self) -> Seq<char> {
        self.0@
    }
}

impl CodecId {
    pub fn new(name: &str) -> (r: CodecId)
        ensures
            r@ == name@,
    {
        CodecId(text::owned(name))
    }

    pub fn as_str(&self) -> (r: &str)
        ensures
            r@ == self@,
    {
        self.0.as_str()
    }

    /// The same name again.
    pub fn duplicate(&self) -> (r: CodecId)
        ensures
            r@ == self@,
    {
        CodecId::new(self.0.as_str())
    }
}

/// How a container names a codec on the wire.
#[derive(Clone, Copy, Debug, PartialEq, Eq)]
pub enum CodecTag {
    /// Four characters, letters in upper case.
    Fourcc([u8; 4]),
    /// `wFormatTag`.
    WaveFormat(u16),
}

/// A codec tag as a value.
pub enum TagView {
    Fourcc(Seq<u8>),
    WaveFormat(u16),
}

impl View for CodecTag {
    type V = TagView;

    open spec fn view(&self) -> TagView {
        match self {
            CodecTag::Fourcc(c) => TagView::Fourcc(c@),
            CodecTag::WaveFormat(t) => TagView::WaveFormat(*t),
        }
    }
}

/// An ASCII letter in upper case; any other byte as it is.
pub open spec fn upper(b: u8) -> u8 {
    if 0x61 <= b <= 0x7a {
        (b - 0x20) as u8
    } else {
        b
    }
}

fn to_upper(b: u8) -> (r: u8)
    ensures
        r == upper(b),
{
    if 0x61 <= b && b <= 0x7a {
        b - 0x20
    } else {
        b
    }
}

impl CodecTag {
    /// The tag of four characters, letters turned to upper case.
    pub fn fourcc(raw: &[u8; 4]) -> (r: Self)
        ensures
            r@ == TagView::Fourcc(raw@.map_values(|b: u8| upper(b))),
    {
        let c: [u8; 4] = [to_upper(raw[0]), to_upper(raw[1]), to_upper(raw[2]), to_upper(raw[3])];
        assert(c@ =~= raw@.map_values(|b: u8| upper(b)));
        CodecTag::Fourcc(c)
    }

    pub fn wave_format(tag: u16) -> (r: Self)
        ensures
            r@ == TagView::WaveFormat(tag),
    {
        CodecTag::WaveFormat(tag)
    }
}

/// The view of an optional value.
pub open spec fn opt_view<T: View>(o: Option<T>) -> Option<T::V> {
    match o {
        Some(x) => Some(x@),
        None => None,
    }
}

/// What is known of a stream's codec, as a value.
#[verifier::ext_equal]
pub struct ParamsView {
    pub codec_id: Seq<char>,
    pub media_type: MediaType,
    pub sample_rate: Option<u32>,
    pub channels: Option<u16>,
    pub width: Option<u32>,
    pub height: Option<u32>,
    pub pixel_format: Option<PixelFormat>,
    pub frame_rate: Option<Rational>,
    pub extradata: Seq<u8>,
    pub bit_rate: Option<u64>,
    pub tag: Option<TagView>,
}

/// What is known of a stream's codec.
#[derive(Debug)]
pub struct CodecParameters {
    pub codec_id: CodecId,
    pub media_type: MediaType,
    pub sample_rate: Option<u32>,
    pub channels: Option<u16>,
    pub width: Option<u32>,
    pub height: Option<u32>,
    pub pixel_format: Option<PixelFormat>,
    pub frame_rate: Option<Rational>,
    /// Setup bytes for the decoder.
    pub extradata: Vec<u8>,
    pub bit_rate: Option<u64>,
    pub tag: Option<CodecTag>,
}

impl View for CodecParameters {
    type V = ParamsView;

    open spec fn view(&self) -> ParamsView {
        ParamsView {
            codec_id: self.codec_id@,
            media_type: self.media_type,
            sample_rate: self.sample_rate,
            channels: self.channels,
            width: self.width,
            height: self.height,
            pixel_format: self.pixel_format,
            frame_rate: self.frame_rate,
            extradata: self.extradata@,
            bit_rate: self.bit_rate,
            tag: opt_view(self.tag),
        }
    }
}

/// Parameters of which only the codec and the kind of content are known.
pub open spec fn bare_params(codec_id: Seq<char>, media_type: MediaType) -> ParamsView {
    ParamsView {
        codec_id,
        media_type,
        sample_rate: None,
        channels: None,
        width: None,
        height: None,
        pixel_format: None,
        frame_rate: None,
        extradata: Seq::empty(),
        bit_rate: None,
        tag: None,
    }
}

impl CodecParameters {
    /// Parameters of which only the codec and the kind of content are known.
    pub fn bare(codec_id: CodecId, media_type: MediaType) -> (r: Self)
        ensures
            r@ == bare_params(codec_id@, media_type),
    {
        CodecParameters {
            codec_id,
            media_type,
            sample_rate: None,
            channels: None,
            width: None,
            height: None,
            pixel_format: None,
            frame_rate: None,
            extradata: Vec::new(),
            bit_rate: None,
            tag: None,
        }
    }
}

/// A stream as a value.
#[verifier::ext_equal]
pub struct StreamView {
    pub index: u32,
    pub time_base: TimeBase,
    pub start_time: Option<i64>,
    pub params: ParamsView,
}

/// One stream of the container.
#[derive(Debug)]
pub struct StreamInfo {
    pub index: u32,
    /// Unit of the stream's timestamps.
    pub time_base: TimeBase,
    /// Where the stream starts on the playback timeline, in `time_base` ticks.
    pub start_time: Option<i64>,
    pub params: CodecParameters,
}

impl View for StreamInfo {
    type V = StreamView;

    open spec fn view(&self) -> StreamView {
        StreamView {
            index: self.index,
            time_base: self.time_base,
            start_time: self.start_time,
            params: self.params@,
        }
    }
}

/// A packet as a value.
#[verifier::ext_equal]
pub struct PacketView {
    pub stream_index: u32,
    pub time_base: TimeBase,
    pub pts: Option<i64>,
    pub keyframe: bool,
    pub unit_boundary: bool,
    pub data: Seq<u8>,
}

/// One codec packet. Ogg keeps no decoding order apart from presentation
/// order, so `pts` is the decoding timestamp too.
#[derive(Debug)]
pub struct Packet {
    pub stream_index: u32,
    pub time_base: TimeBase,
    pub pts: Option<i64>,
    /// Decoding can start here.
    pub keyframe: bool,
    /// The last packet that ends on its page.
    pub unit_boundary: bool,
    pub data: Vec<u8>,
}

impl View for Packet {
    type V = PacketView;

    open spec fn view(&self) -> PacketView {
        PacketView {
            stream_index: self.stream_index,
            time_base: self.time_base,
            pts: self.pts,
            keyframe: self.keyframe,
            unit_boundary: self.unit_boundary,
            data: self.data@,
        }
    }
}

} // verus!
