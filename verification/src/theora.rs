//! Theora identification header (Theora specification, section 6.2) and the
//! granule layout that it declares (section A.2.3).
use crate::bytes;
use crate::granule;
use vstd::prelude::*;

verus! {

/// How a Theora stream packs frame positions into granules.
#[derive(Clone, Copy, Debug, PartialEq, Eq, Structural)]
pub struct TheoraGranule {
    /// Low bits that hold the offset since the keyframe (`KFGSHIFT`).
    pub shift: u32,
    /// The upper half counts frames from 1 (version 3.2.1 and later) rather
    /// than indexing them from 0.
    pub count_from_one: bool,
}

impl TheoraGranule {
    /// What the counting origin adds to a 0-based frame index.
    pub open spec fn origin(self) -> int {
        if self.count_from_one {
            1
        } else {
            0
        }
    }

    /// 0-based index of the frame that `granule` names; none where it names
    /// no frame of the stream.
    pub open spec fn index_spec(self, granule: int) -> Option<i64> {
        if granule < 0 || granule::frame_no(granule, self.shift as nat) < self.origin() {
            None
        } else {
            Some((granule::frame_no(granule, self.shift as nat) - self.origin()) as i64)
        }
    }

    /// 0-based index of the keyframe that the frame counts from.
    pub open spec fn keyframe_spec(self, granule: int) -> Option<i64> {
        if granule < 0 || self.shift >= 63 || granule::keyframe_half(granule, self.shift as nat)
            < self.origin() {
            None
        } else {
            Some((granule::keyframe_half(granule, self.shift as nat) - self.origin()) as i64)
        }
    }

    /// Number of frames up to and with the one that `granule` names.
    pub open spec fn count_spec(self, granule: int) -> Option<i64> {
        match self.index_spec(granule) {
            Some(i) => Some(
                if i == i64::MAX {
                    i
                } else {
                    (i + 1) as i64
                },
            ),
            None => None,
        }
    }

    fn bias(&self) -> (r: i64)
        ensures
            r == self.origin(),
    {
        if self.count_from_one {
            1
        } else {
            0
        }
    }

    /// 0-based index of the frame that `granule` names.
    pub fn frame_index(&self, granule: i64) -> (r: Option<i64>)
        ensures
            r == self.index_spec(granule as int),
    {
        if granule < 0 {
            return None;
        }
        let no: i64 = granule::theora_frame_no(granule, self.shift);
        if no < self.bias() {
            None
        } else {
            proof {
                granule::frame_no_bound(granule as int, self.shift as nat);
            }
            Some(no - self.bias())
        }
    }

    /// 0-based index of the keyframe that the frame counts from.
    pub fn keyframe_index(&self, granule: i64) -> (r: Option<i64>)
        ensures
            r == self.keyframe_spec(granule as int),
    {
        if granule < 0 || self.shift >= 63 {
            return None;
        }
        proof {
            granule::halves_of_granule(granule as u64, self.shift);
            vstd::arithmetic::power2::lemma2_to64();
        }
        let kf: u64 = (granule as u64) >> self.shift;
        assert(kf <= granule as u64);
        if (kf as i64) < self.bias() {
            None
        } else {
            Some(kf as i64 - self.bias())
        }
    }

    /// Number of frames up to and with the one that `granule` names.
    pub fn frame_count(&self, granule: i64) -> (r: Option<i64>)
        ensures
            r == self.count_spec(granule as int),
    {
        match self.frame_index(granule) {
            Some(i) => {
                if i == i64::MAX {
                    Some(i)
                } else {
                    Some(i + 1)
                }
            },
            None => None,
        }
    }

    /// Whether `granule` names a keyframe.
    pub fn is_keyframe(&self, granule: i64) -> (r: bool)
        ensures
            r == granule::is_keyframe(granule as int, self.shift as nat),
    {
        granule::granule_is_keyframe(granule, self.shift)
    }
}

/// A frame is a keyframe exactly when its index is the keyframe's index.
pub proof fn frame_index_of_a_keyframe(gran: TheoraGranule, granule: i64)
    requires
        0 < gran.shift < 63,
        granule >= 0,
        gran.keyframe_spec(granule as int) is Some,
    ensures
        gran.index_spec(granule as int) is Some,
        granule::is_keyframe(granule as int, gran.shift as nat) <==> gran.index_spec(granule as int)
            == gran.keyframe_spec(granule as int),
{
    granule::halves_of_granule(granule as u64, gran.shift);
    granule::frame_no_bound(granule as int, gran.shift as nat);
}

/// The fields of an identification header that the container needs.
#[derive(Clone, Copy, Debug, PartialEq, Eq, Structural)]
pub struct TheoraIdHeader {
    /// Version revision number.
    pub vrev: u8,
    /// Frame width in macro blocks.
    pub fmbw: u16,
    /// Frame height in macro blocks.
    pub fmbh: u16,
    /// Picture width in pixels.
    pub picw: u32,
    /// Picture height in pixels.
    pub pich: u32,
    /// Frame-rate numerator.
    pub frn: u32,
    /// Frame-rate denominator.
    pub frd: u32,
    /// Nominal bit rate.
    pub nombr: u32,
    /// Keyframe granule shift.
    pub kfgshift: u8,
    /// Pixel format.
    pub pf: u8,
}

/// `0x80 "theora"`.
pub open spec fn id_magic() -> Seq<u8> {
    seq![0x80u8, 0x74, 0x68, 0x65, 0x6f, 0x72, 0x61]
}

/// Whether `s` holds an identification header of a version 3.2 stream with a
/// frame size and a frame rate.
pub open spec fn is_id_header(s: Seq<u8>) -> bool {
    &&& s.len() >= 42
    &&& bytes::has_at(s, 0, id_magic())
    &&& s[7] == 3
    &&& s[8] == 2
    &&& bytes::be(s, 10, 2) > 0
    &&& bytes::be(s, 12, 2) > 0
    &&& bytes::be(s, 22, 4) > 0
    &&& bytes::be(s, 26, 4) > 0
}

/// The identification header in `s`.
pub open spec fn id_header(s: Seq<u8>) -> TheoraIdHeader {
    TheoraIdHeader {
        vrev: s[9],
        fmbw: bytes::be(s, 10, 2) as u16,
        fmbh: bytes::be(s, 12, 2) as u16,
        picw: bytes::be(s, 14, 3) as u32,
        pich: bytes::be(s, 17, 3) as u32,
        frn: bytes::be(s, 22, 4) as u32,
        frd: bytes::be(s, 26, 4) as u32,
        nombr: bytes::be(s, 37, 3) as u32,
        kfgshift: (bytes::be(s, 40, 2) / 32 % 32) as u8,
        pf: (bytes::be(s, 40, 2) / 8 % 4) as u8,
    }
}

/// The identification header in `s`, where there is one.
pub open spec fn parsed_id(s: Seq<u8>) -> Option<TheoraIdHeader> {
    if is_id_header(s) {
        Some(id_header(s))
    } else {
        None
    }
}

impl TheoraIdHeader {
    /// Granule layout of the stream.
    pub open spec fn granule_spec(self) -> TheoraGranule {
        TheoraGranule { shift: self.kfgshift as u32, count_from_one: self.vrev >= 1 }
    }

    /// Parse an identification packet.
    pub fn parse(s: &[u8]) -> (r: Option<TheoraIdHeader>)
        ensures
            r == parsed_id(s@),
    {
        if s.len() < 42 {
            return None;
        }
        let magic: [u8; 7] = [0x80, 0x74, 0x68, 0x65, 0x6f, 0x72, 0x61];
        assert(magic@ =~= id_magic());
        if !bytes::matches_at(s, 0, magic.as_slice()) || s[7] != 3 || s[8] != 2 {
            return None;
        }
        let tail: u32 = bytes::be_at(s, 40, 2);
        let fmbw: u32 = bytes::be_at(s, 10, 2);
        let fmbh: u32 = bytes::be_at(s, 12, 2);
        let frn: u32 = bytes::be_at(s, 22, 4);
        let frd: u32 = bytes::be_at(s, 26, 4);
        if fmbw == 0 || fmbh == 0 || frn == 0 || frd == 0 {
            return None;
        }
        Some(
            TheoraIdHeader {
                vrev: s[9],
                fmbw: fmbw as u16,
                fmbh: fmbh as u16,
                picw: bytes::be_at(s, 14, 3),
                pich: bytes::be_at(s, 17, 3),
                frn,
                frd,
                nombr: bytes::be_at(s, 37, 3),
                kfgshift: (tail / 32 % 32) as u8,
                pf: (tail / 8 % 4) as u8,
            },
        )
    }

    /// Granule layout of the stream.
    pub fn granule(&self) -> (r: TheoraGranule)
        ensures
            r == self.granule_spec(),
    {
        TheoraGranule { shift: self.kfgshift as u32, count_from_one: self.vrev >= 1 }
    }
}

} // verus!
