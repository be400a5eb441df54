//! Granule positions: the packed keyframe layout and the axis that seeking
//! compares pages on.
use crate::theora::TheoraGranule;
use vstd::arithmetic::power2;
use vstd::prelude::*;

verus! {

/// Upper half of a packed granule: the keyframe that the frame counts from.
pub open spec fn keyframe_half(granule: int, shift: nat) -> int {
    granule / (power2::pow2(shift) as int)
}

/// Lower half of a packed granule: frames since that keyframe.
pub open spec fn offset_half(granule: int, shift: nat) -> int {
    granule % (power2::pow2(shift) as int)
}

/// The frame that a granule packed with `shift` low bits names.
///
/// A negative granule names no frame and stands for itself. `shift` 0 leaves
/// the granule as it is, and a shift of 63 or more has no room for a keyframe,
/// which makes the frame 0.
pub open spec fn frame_no(granule: int, shift: nat) -> int {
    if granule < 0 || shift == 0 {
        granule
    } else if shift >= 63 {
        0
    } else {
        keyframe_half(granule, shift) + offset_half(granule, shift)
    }
}

/// Whether the frame that a granule names is a random-access point. Only a
/// nonnegative granule with a usable shift and a nonzero offset is not.
pub open spec fn is_keyframe(granule: int, shift: nat) -> bool {
    granule < 0 || shift == 0 || shift >= 63 || offset_half(granule, shift) == 0
}

/// Both halves of a packed granule are in range, and the bit operations
/// compute them.
pub proof fn halves_of_granule(g: u64, shift: u32)
    requires
        shift < 63,
    ensures
        0 < power2::pow2(shift as nat) <= 0x4000_0000_0000_0000,
        (g >> shift) == keyframe_half(g as int, shift as nat),
        (1u64 << shift) == power2::pow2(shift as nat),
        g & (((1u64 << shift) - 1) as u64) == offset_half(g as int, shift as nat),
        0 <= offset_half(g as int, shift as nat) < power2::pow2(shift as nat),
        0 <= keyframe_half(g as int, shift as nat),
        g == keyframe_half(g as int, shift as nat) * power2::pow2(shift as nat) + offset_half(
            g as int,
            shift as nat,
        ),
        shift > 0 ==> keyframe_half(g as int, shift as nat) <= g / 2,
{
    let n = shift as nat;
    power2::lemma_pow2_pos(n);
    power2::lemma2_to64();
    power2::lemma2_to64_rest();
    vstd::bits::lemma_u64_pow2_no_overflow(n);
    if n < 62 {
        power2::lemma_pow2_strictly_increases(n, 62);
    }
    vstd::bits::lemma_u64_shr_is_div(g, shift as u64);
    vstd::bits::lemma_u64_shl_is_mul(1, shift as u64);
    vstd::bits::lemma_u64_low_bits_mask_is_mod(g, n);
    assert(vstd::bits::low_bits_mask(n) == power2::pow2(n) - 1);
    assert(g >> shift == g >> (shift as u64)) by (bit_vector);
    assert(1u64 << shift == 1u64 << (shift as u64)) by (bit_vector);
    let p = power2::pow2(n) as int;
    let gi = g as int;
    vstd::arithmetic::div_mod::lemma_fundamental_div_mod(gi, p);
    vstd::arithmetic::div_mod::lemma_mod_bound(gi, p);
    vstd::arithmetic::div_mod::lemma_div_pos_is_pos(gi, p);
    vstd::arithmetic::mul::lemma_mul_is_commutative(p, gi / p);
    if shift > 0 {
        if n > 1 {
            power2::lemma_pow2_strictly_increases(1, n);
        }
        vstd::arithmetic::div_mod::lemma_div_is_ordered_by_denominator(gi, 2, p);
    }
}

/// The absolute frame number that `granule` packs.
pub fn theora_frame_no(granule: i64, shift: u32) -> (r: i64)
    ensures
        r == frame_no(granule as int, shift as nat),
{
    if granule < 0 {
        return granule;
    }
    if shift == 0 {
        return granule;
    }
    if shift >= 63 {
        return 0;
    }
    let g: u64 = granule as u64;
    proof {
        halves_of_granule(g, shift);
        frame_no_bound(granule as int, shift as nat);
    }
    let kf: i64 = (g >> shift) as i64;
    let off: i64 = (g & ((1u64 << shift) - 1)) as i64;
    kf + off
}

/// Whether the last frame that ends on a page with this granule is a
/// random-access point.
pub fn granule_is_keyframe(granule: i64, shift: u32) -> (r: bool)
    ensures
        r == is_keyframe(granule as int, shift as nat),
{
    if granule < 0 || shift == 0 || shift >= 63 {
        return true;
    }
    let g: u64 = granule as u64;
    proof {
        halves_of_granule(g, shift);
    }
    g & ((1u64 << shift) - 1) == 0
}

/// A frame number never exceeds the granule that packs it.
pub proof fn frame_no_bound(granule: int, shift: nat)
    requires
        0 <= granule <= i64::MAX,
    ensures
        0 <= frame_no(granule, shift) <= granule,
{
    if shift != 0 && shift < 63 {
        halves_of_granule(granule as u64, shift as u32);
        let p = power2::pow2(shift) as int;
        let k = keyframe_half(granule, shift);
        vstd::arithmetic::mul::lemma_mul_inequality(1, p, k);
        vstd::arithmetic::mul::lemma_mul_is_commutative(p, k);
    }
}

/// A frame is a keyframe exactly when its number is the index of the keyframe
/// that it counts from.
pub proof fn keyframe_decision_agrees_with_frame_number(granule: int, shift: nat)
    requires
        0 <= granule <= i64::MAX,
        0 < shift < 63,
    ensures
        is_keyframe(granule, shift) <==> frame_no(granule, shift) == keyframe_half(granule, shift),
{
    halves_of_granule(granule as u64, shift as u32);
}

/// Packing a keyframe index with an offset and unpacking it again gives both
/// back, and the frame number is their sum.
pub proof fn unpacking_a_packed_granule(keyframe: int, offset: int, shift: nat)
    requires
        0 <= keyframe,
        0 <= offset < power2::pow2(shift),
        0 < shift < 63,
    ensures
        keyframe_half(keyframe * power2::pow2(shift) + offset, shift) == keyframe,
        offset_half(keyframe * power2::pow2(shift) + offset, shift) == offset,
        frame_no(keyframe * power2::pow2(shift) + offset, shift) == keyframe + offset,
        is_keyframe(keyframe * power2::pow2(shift) + offset, shift) <==> offset == 0,
{
    let p = power2::pow2(shift) as int;
    let g = keyframe * p + offset;
    vstd::arithmetic::div_mod::lemma_fundamental_div_mod_converse(g, p, keyframe, offset);
    assert(g >= 0) by (nonlinear_arith)
        requires
            0 <= keyframe,
            0 <= offset,
            0 < p,
            g == keyframe * p + offset,
    ;
}

/// Along one stream, whose later pages count from the same keyframe or from
/// one that is not earlier than the frame before it, frame numbers do not
/// decrease.
pub proof fn frame_numbers_do_not_decrease(g1: int, g2: int, shift: nat)
    requires
        0 <= g1 <= g2 <= i64::MAX,
        0 < shift < 63,
        keyframe_half(g1, shift) == keyframe_half(g2, shift) || keyframe_half(g2, shift)
            >= frame_no(g1, shift),
    ensures
        frame_no(g1, shift) <= frame_no(g2, shift),
{
    halves_of_granule(g1 as u64, shift as u32);
    halves_of_granule(g2 as u64, shift as u32);
}

/// Behind a keyframe's own granule, later granules name later frames.
pub proof fn frames_follow_their_keyframe(g1: int, g2: int, shift: nat)
    requires
        0 <= g1 < g2 <= i64::MAX,
        0 < shift < 63,
        offset_half(g1, shift) == 0,
    ensures
        frame_no(g1, shift) < frame_no(g2, shift),
{
    halves_of_granule(g1 as u64, shift as u32);
    halves_of_granule(g2 as u64, shift as u32);
    let p = power2::pow2(shift) as int;
    let a = keyframe_half(g1, shift);
    let b = keyframe_half(g2, shift);
    if b < a {
        assert(b * p + p <= a * p) by (nonlinear_arith)
            requires
                b + 1 <= a,
                0 < p,
        ;
    }
}

/// The granule of the keyframe that a granule counts from.
pub open spec fn keyframe_granule(granule: int, shift: nat) -> int {
    keyframe_half(granule, shift) * power2::pow2(shift)
}

/// A keyframe's own granule names the keyframe, and comes no later.
pub proof fn keyframes_name_themselves(granule: int, shift: nat)
    requires
        0 <= granule <= i64::MAX,
        0 < shift < 63,
    ensures
        0 <= keyframe_granule(granule, shift) <= granule,
        keyframe_half(keyframe_granule(granule, shift), shift) == keyframe_half(granule, shift),
        offset_half(keyframe_granule(granule, shift), shift) == 0,
        frame_no(keyframe_granule(granule, shift), shift) == keyframe_half(granule, shift),
        offset_half(granule, shift) != 0 ==> keyframe_granule(granule, shift) < granule,
{
    halves_of_granule(granule as u64, shift as u32);
    unpacking_a_packed_granule(keyframe_half(granule, shift), 0, shift);
}

/// How a page granule becomes a number that can be compared with a seek
/// target.
#[derive(Clone, Copy, Debug, PartialEq, Eq, Structural)]
pub enum SeekKeyFlavor {
    /// The granule less a per-stream bias, but not below 0: the position in
    /// samples.
    Identity { granule_offset: i64 },
    /// The frame that the granule packs, less 1 where frames are counted
    /// rather than indexed.
    TheoraFrame { shift: u32, bias: i64 },
}

/// A seek target together with the axis it is compared on.
#[derive(Clone, Copy, Debug, PartialEq, Eq, Structural)]
pub struct SeekKey {
    pub target_key: i64,
    pub flavor: SeekKeyFlavor,
}

/// The comparison key of a granule. Negative granules stand for themselves,
/// so that they sort before every real page.
pub open spec fn key_of(flavor: SeekKeyFlavor, granule: int) -> int {
    match flavor {
        SeekKeyFlavor::Identity { granule_offset } => if granule < 0 {
            granule
        } else if granule < granule_offset {
            0
        } else {
            granule - granule_offset
        },
        SeekKeyFlavor::TheoraFrame { shift, bias } => if frame_no(granule, shift as nat) < 0 {
            frame_no(granule, shift as nat)
        } else {
            frame_no(granule, shift as nat) - bias
        },
    }
}

impl SeekKeyFlavor {
    /// Biases are not negative, so a key never exceeds its granule.
    pub open spec fn wf(self) -> bool {
        match self {
            SeekKeyFlavor::Identity { granule_offset } => granule_offset >= 0,
            SeekKeyFlavor::TheoraFrame { bias, .. } => bias >= 0,
        }
    }
}

impl SeekKey {
    /// Compare raw granules with `target`.
    pub fn identity(target: i64) -> (r: Self)
        ensures
            r.target_key == target,
            r.flavor == (SeekKeyFlavor::Identity { granule_offset: 0 }),
    {
        SeekKey { target_key: target, flavor: SeekKeyFlavor::Identity { granule_offset: 0 } }
    }

    /// Compare granules less `granule_offset` with `target`.
    pub fn identity_offset(target: i64, granule_offset: i64) -> (r: Self)
        ensures
            r.target_key == target,
            r.flavor == (SeekKeyFlavor::Identity { granule_offset }),
    {
        SeekKey { target_key: target, flavor: SeekKeyFlavor::Identity { granule_offset } }
    }

    /// Compare frame numbers with `target_frame`.
    pub fn theora_frame(target_frame: i64, shift: u32) -> (r: Self)
        ensures
            r.target_key == target_frame,
            r.flavor == (SeekKeyFlavor::TheoraFrame { shift, bias: 0 }),
    {
        SeekKey {
            target_key: target_frame,
            flavor: SeekKeyFlavor::TheoraFrame { shift, bias: 0 },
        }
    }

    /// Compare 0-based frame indices with `target_frame`, in the layout that
    /// the identification header declares.
    pub fn theora_frame_biased(target_frame: i64, gran: TheoraGranule) -> (r: Self)
        ensures
            r.target_key == target_frame,
            r.flavor == (SeekKeyFlavor::TheoraFrame {
                shift: gran.shift,
                bias: if gran.count_from_one {
                    1
                } else {
                    0
                },
            }),
    {
        SeekKey {
            target_key: target_frame,
            flavor: SeekKeyFlavor::TheoraFrame {
                shift: gran.shift,
                bias: if gran.count_from_one {
                    1
                } else {
                    0
                },
            },
        }
    }

    /// The comparison key of a page granule.
    pub fn key_of(&self, granule: i64) -> (r: i64)
        requires
            i64::MIN <= key_of(self.flavor, granule as int) <= i64::MAX,
        ensures
            r == key_of(self.flavor, granule as int),
    {
        match self.flavor {
            SeekKeyFlavor::Identity { granule_offset } => {
                if granule < 0 {
                    granule
                } else if granule < granule_offset {
                    0
                } else {
                    granule - granule_offset
                }
            },
            SeekKeyFlavor::TheoraFrame { shift, bias } => {
                let no: i64 = theora_frame_no(granule, shift);
                if no < 0 {
                    no
                } else {
                    no - bias
                }
            },
        }
    }
}

/// With nonnegative biases every granule has a key, and no key exceeds its
/// granule.
pub proof fn keys_are_in_range(flavor: SeekKeyFlavor, granule: i64)
    requires
        flavor.wf(),
    ensures
        i64::MIN <= key_of(flavor, granule as int) <= i64::MAX,
        granule >= 0 ==> key_of(flavor, granule as int) <= granule,
{
    if granule >= 0 {
        if let SeekKeyFlavor::TheoraFrame { shift, .. } = flavor {
            frame_no_bound(granule as int, shift as nat);
        }
    }
}

/// On the sample axis, later granules have later keys: sorting by granule is
/// sorting by key.
pub proof fn sample_keys_do_not_decrease(granule_offset: i64, g1: int, g2: int)
    requires
        0 <= granule_offset,
        g1 <= g2,
    ensures
        key_of(SeekKeyFlavor::Identity { granule_offset }, g1) <= key_of(
            SeekKeyFlavor::Identity { granule_offset },
            g2,
        ),
{
}

} // verus!
