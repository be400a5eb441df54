//! What can go wrong.
use vstd::prelude::*;

verus! {

/// Why a bitstream cannot be opened, read or searched.
#[derive(Clone, Copy, Debug, PartialEq, Eq, Structural)]
pub enum Error {
    /// The input holds no logical bitstream.
    NoLogicalStreams,
    /// A beginning-of-stream page holds no packet.
    BosPageWithoutPackets,
    /// The Vorbis identification header is too short.
    VorbisHeaderTooShort,
    /// This Vorbis version is not known.
    VorbisVersion(u32),
    /// The Vorbis identification header has no channels or no sample rate.
    VorbisZeroChannelsOrRate,
    /// The Opus identification header is too short.
    OpusHeaderTooShort,
    /// The Speex identification header is too short.
    SpeexHeaderTooShort,
    /// The Speex identification header has no sample rate.
    SpeexZeroRate,
    /// The Skeleton identification packet is too short.
    SkeletonHeaderTooShort,
    /// There is no stream with this index.
    StreamIndexOutOfRange(u32),
    /// No logical bitstream belongs to this index.
    NoStreamForIndex(u32),
    /// Neither an identification header nor a track description says how
    /// this stream counts frames.
    UnknownFrameLayout(u32),
    /// This stream's codec has no known granule mapping to seek by.
    SeekUnsupported(u32),
    /// The input is empty.
    EmptyInput,
    /// No page of this stream can be seeked to.
    NoSeekablePage(u32),
    /// No packet is left.
    Eof,
}

} // verus!
