//! Which codec a logical bitstream carries, told by the first bytes of its
//! first packet, and how many header packets it starts with.
use crate::bytes;
use crate::media::CodecId;
use crate::text;
use vstd::prelude::*;

verus! {

/// The codecs whose Ogg mapping the container knows.
#[derive(Clone, Copy, Debug, PartialEq, Eq, Structural)]
pub enum Mapping {
    Vorbis,
    Opus,
    Theora,
    Speex,
    Flac,
    Other,
}

/// The mapping of a codec name.
pub open spec fn mapping_of(id: Seq<char>) -> Mapping {
    if id == "vorbis"@ {
        Mapping::Vorbis
    } else if id == "opus"@ {
        Mapping::Opus
    } else if id == "theora"@ {
        Mapping::Theora
    } else if id == "speex"@ {
        Mapping::Speex
    } else if id == "flac"@ {
        Mapping::Flac
    } else {
        Mapping::Other
    }
}

/// `0x01 "vorbis"`.
pub open spec fn vorbis_magic() -> Seq<u8> {
    seq![0x01u8, 0x76, 0x6f, 0x72, 0x62, 0x69, 0x73]
}

/// `"OpusHead"`.
pub open spec fn opus_magic() -> Seq<u8> {
    seq![0x4fu8, 0x70, 0x75, 0x73, 0x48, 0x65, 0x61, 0x64]
}

/// `0x80 "theora"`.
pub open spec fn theora_magic() -> Seq<u8> {
    seq![0x80u8, 0x74, 0x68, 0x65, 0x6f, 0x72, 0x61]
}

/// `"Speex   "`.
pub open spec fn speex_magic() -> Seq<u8> {
    seq![0x53u8, 0x70, 0x65, 0x65, 0x78, 0x20, 0x20, 0x20]
}

/// `0x7f "FLAC"`.
pub open spec fn flac_magic() -> Seq<u8> {
    seq![0x7fu8, 0x46, 0x4c, 0x41, 0x43]
}

/// The codec that a first packet announces.
pub open spec fn detected(first: Seq<u8>) -> Seq<char> {
    if bytes::has_at(first, 0, vorbis_magic()) {
        "vorbis"@
    } else if bytes::has_at(first, 0, opus_magic()) {
        "opus"@
    } else if bytes::has_at(first, 0, theora_magic()) {
        "theora"@
    } else if bytes::has_at(first, 0, speex_magic()) {
        "speex"@
    } else if bytes::has_at(first, 0, flac_magic()) {
        "flac"@
    } else {
        "unknown"@
    }
}

/// How many header packets a stream starts with. FLAC says in its first
/// packet how many follow it.
pub open spec fn header_count(id: Seq<char>, first: Seq<u8>) -> int {
    match mapping_of(id) {
        Mapping::Vorbis => 3,
        Mapping::Theora => 3,
        Mapping::Opus => 2,
        Mapping::Speex => 2,
        Mapping::Flac => if first.len() >= 9 {
            1 + bytes::be(first, 7, 2)
        } else {
            1
        },
        Mapping::Other => 0,
    }
}

/// The mapping of a codec name.
pub fn mapping(id: &CodecId) -> (r: Mapping)
    ensures
        r == mapping_of(id@),
{
    let name: &str = id.as_str();
    if text::same_text(name, "vorbis") {
        Mapping::Vorbis
    } else if text::same_text(name, "opus") {
        Mapping::Opus
    } else if text::same_text(name, "theora") {
        Mapping::Theora
    } else if text::same_text(name, "speex") {
        Mapping::Speex
    } else if text::same_text(name, "flac") {
        Mapping::Flac
    } else {
        Mapping::Other
    }
}

/// The codec that a first packet announces.
pub fn detect(first: &[u8]) -> (r: CodecId)
    ensures
        r@ == detected(first@),
{
    let vorbis: [u8; 7] = [0x01, 0x76, 0x6f, 0x72, 0x62, 0x69, 0x73];
    let opus: [u8; 8] = [0x4f, 0x70, 0x75, 0x73, 0x48, 0x65, 0x61, 0x64];
    let theora: [u8; 7] = [0x80, 0x74, 0x68, 0x65, 0x6f, 0x72, 0x61];
    let speex: [u8; 8] = [0x53, 0x70, 0x65, 0x65, 0x78, 0x20, 0x20, 0x20];
    let flac: [u8; 5] = [0x7f, 0x46, 0x4c, 0x41, 0x43];
    assert(vorbis@ =~= vorbis_magic());
    assert(opus@ =~= opus_magic());
    assert(theora@ =~= theora_magic());
    assert(speex@ =~= speex_magic());
    assert(flac@ =~= flac_magic());
    if bytes::matches_at(first, 0, vorbis.as_slice()) {
        CodecId::new("vorbis")
    } else if bytes::matches_at(first, 0, opus.as_slice()) {
        CodecId::new("opus")
    } else if bytes::matches_at(first, 0, theora.as_slice()) {
        CodecId::new("theora")
    } else if bytes::matches_at(first, 0, speex.as_slice()) {
        CodecId::new("speex")
    } else if bytes::matches_at(first, 0, flac.as_slice()) {
        CodecId::new("flac")
    } else {
        CodecId::new("unknown")
    }
}

/// How many header packets a stream starts with.
pub fn header_packet_count_from_first(id: &CodecId, first: &[u8]) -> (r: usize)
    ensures
        r == header_count(id@, first@),
        r <= 0x1_0000,
{
    match mapping(id) {
        Mapping::Vorbis => 3,
        Mapping::Theora => 3,
        Mapping::Opus => 2,
        Mapping::Speex => 2,
        Mapping::Flac => {
            if first.len() >= 9 {
                let n: u32 = bytes::be_at(first, 7, 2);
                proof {
                    reveal_with_fuel(bytes::be, 3);
                }
                1 + n as usize
            } else {
                1
            }
        },
        Mapping::Other => 0,
    }
}

/// Each built-in magic announces the codec with its mapping, and anything
/// else announces none.
pub proof fn magics_decide_the_mapping(first: Seq<u8>)
    ensures
        mapping_of(detected(first)) is Vorbis == bytes::has_at(first, 0, vorbis_magic()),
        mapping_of(detected(first)) is Opus == bytes::has_at(first, 0, opus_magic()),
        mapping_of(detected(first)) is Theora == bytes::has_at(first, 0, theora_magic()),
        mapping_of(detected(first)) is Speex == bytes::has_at(first, 0, speex_magic()),
        mapping_of(detected(first)) is Flac == bytes::has_at(first, 0, flac_magic()),
{
    reveal_strlit("vorbis");
    reveal_strlit("opus");
    reveal_strlit("theora");
    reveal_strlit("speex");
    reveal_strlit("flac");
    reveal_strlit("unknown");
    assert("unknown"@[0] == 'u');
    assert("vorbis"@[0] == 'v');
    assert("opus"@[0] == 'o');
    assert("theora"@[0] == 't');
    assert("speex"@[0] == 's');
    assert("flac"@[0] == 'f');
    assert(vorbis_magic()[0] == 0x01);
    assert(opus_magic()[0] == 0x4f);
    assert(theora_magic()[0] == 0x80);
    assert(speex_magic()[0] == 0x53);
    assert(flac_magic()[0] == 0x7f);
    if bytes::has_at(first, 0, vorbis_magic()) {
        assert(first[0] == 0x01);
    }
    if bytes::has_at(first, 0, opus_magic()) {
        assert(first[0] == 0x4f);
    }
    if bytes::has_at(first, 0, theora_magic()) {
        assert(first[0] == 0x80);
    }
    if bytes::has_at(first, 0, speex_magic()) {
        assert(first[0] == 0x53);
    }
    if bytes::has_at(first, 0, flac_magic()) {
        assert(first[0] == 0x7f);
    }
}

} // verus!
