//! The page checksum: CRC-32 with generator 0x04c11db7, most significant
//! bit first, start value 0 and no final inversion (RFC 3533, section 6).
use vstd::prelude::*;

verus! {

/// The generator polynomial, without its leading term.
pub const POLY: u32 = 0x04c1_1db7;

/// One bit of the long division.
pub open spec fn divide_bit(x: u32) -> u32 {
    if x & 0x8000_0000 != 0 {
        (x << 1) ^ POLY
    } else {
        x << 1
    }
}

/// `n` bits of the long division.
pub open spec fn divide_bits(x: u32, n: nat) -> u32
    decreases n,
{
    if n == 0 {
        x
    } else {
        divide_bit(divide_bits(x, (n - 1) as nat))
    }
}

/// The register after one more byte.
pub open spec fn feed(register: u32, byte: u8) -> u32 {
    divide_bits(register ^ ((byte as u32) << 24), 8)
}

/// The register after all bytes of `s`, starting from `start`.
pub open spec fn crc_from(start: u32, s: Seq<u8>) -> u32
    decreases s.len(),
{
    if s.len() == 0 {
        start
    } else {
        feed(crc_from(start, s.drop_last()), s.last())
    }
}

/// The checksum of `s`.
pub open spec fn crc(s: Seq<u8>) -> u32 {
    crc_from(0, s)
}

/// Checksumming in two pieces is checksumming the whole.
pub proof fn crc_of_concatenation(start: u32, a: Seq<u8>, b: Seq<u8>)
    ensures
        crc_from(start, a + b) == crc_from(crc_from(start, a), b),
    decreases b.len(),
{
    if b.len() == 0 {
        assert(a + b =~= a);
    } else {
        assert((a + b).drop_last() =~= a + b.drop_last());
        crc_of_concatenation(start, a, b.drop_last());
    }
}

/// Two byte strings of one length, bit by bit one or the other.
pub open spec fn both(a: Seq<u8>, b: Seq<u8>) -> Seq<u8> {
    Seq::new(a.len(), |i: int| a[i] ^ b[i])
}

proof fn dividing_is_linear(x: u32, y: u32, n: nat)
    ensures
        divide_bits(x ^ y, n) == divide_bits(x, n) ^ divide_bits(y, n),
    decreases n,
{
    if n > 0 {
        let m = (n - 1) as nat;
        dividing_is_linear(x, y, m);
        let u = divide_bits(x, m);
        let v = divide_bits(y, m);
        assert((u ^ v) & 0x8000_0000 != 0 <==> ((u & 0x8000_0000 != 0) != (v & 0x8000_0000 != 0)))
            by (bit_vector);
        assert((u ^ v) << 1 == (u << 1) ^ (v << 1)) by (bit_vector);
        let p = u << 1;
        let q = v << 1;
        let g = POLY;
        assert((p ^ q) ^ g == (p ^ g) ^ q && (p ^ q) ^ g == p ^ (q ^ g) && (p ^ g) ^ (q ^ g) == p
            ^ q) by (bit_vector);
    }
}

/// Checksums are remainders: the checksum of the difference of two byte
/// strings is the difference of their checksums.
pub proof fn checksums_are_linear(x: u32, y: u32, a: Seq<u8>, b: Seq<u8>)
    requires
        a.len() == b.len(),
    ensures
        crc_from(x ^ y, both(a, b)) == crc_from(x, a) ^ crc_from(y, b),
    decreases a.len(),
{
    if a.len() > 0 {
        let c = a.drop_last();
        let d = b.drop_last();
        checksums_are_linear(x, y, c, d);
        assert(both(a, b).drop_last() =~= both(c, d));
        let u = crc_from(x, c);
        let v = crc_from(y, d);
        let i = a.last();
        let j = b.last();
        assert((u ^ v) ^ (((i ^ j) as u32) << 24) == (u ^ ((i as u32) << 24)) ^ (v ^ ((j as u32)
            << 24))) by (bit_vector);
        dividing_is_linear(u ^ ((i as u32) << 24), v ^ ((j as u32) << 24), 8);
    }
}

/// The checksum of a single set bit is the generator 0x04c11db7: each remainder
/// is one of division by `x^32` and what that number stands for.
pub proof fn the_generator_divides()
    ensures
        crc(seq![1u8]) == 0x04c1_1db7,
        forall|x: u32| x < 0x8000_0000 ==> #[trigger] divide_bits(x, 1) == 2 * x,
        forall|x: u32|
            x >= 0x8000_0000 ==> #[trigger] divide_bits(x, 1) == ((2 * x - 0x1_0000_0000) as u32)
                ^ 0x04c1_1db7u32,
{
    reveal_with_fuel(divide_bits, 9);
    reveal_with_fuel(crc_from, 2);
    let one = seq![1u8];
    assert(one.drop_last() =~= Seq::<u8>::empty());
    assert(one.last() == 1u8);
    assert(0u32 ^ ((1u8 as u32) << 24) == 0x0100_0000u32) by (bit_vector);
    assert(0x0100_0000u32 & 0x8000_0000 == 0 && 0x0100_0000u32 << 1 == 0x0200_0000u32 && 0x0200_0000u32
        & 0x8000_0000 == 0 && 0x0200_0000u32 << 1 == 0x0400_0000u32 && 0x0400_0000u32 & 0x8000_0000
        == 0 && 0x0400_0000u32 << 1 == 0x0800_0000u32 && 0x0800_0000u32 & 0x8000_0000 == 0
        && 0x0800_0000u32 << 1 == 0x1000_0000u32 && 0x1000_0000u32 & 0x8000_0000 == 0
        && 0x1000_0000u32 << 1 == 0x2000_0000u32 && 0x2000_0000u32 & 0x8000_0000 == 0
        && 0x2000_0000u32 << 1 == 0x4000_0000u32 && 0x4000_0000u32 & 0x8000_0000 == 0
        && 0x4000_0000u32 << 1 == 0x8000_0000u32 && 0x8000_0000u32 & 0x8000_0000 != 0
        && (0x8000_0000u32 << 1) ^ 0x04c1_1db7 == 0x04c1_1db7u32) by (bit_vector);
    assert forall|x: u32| x < 0x8000_0000 implies #[trigger] divide_bits(x, 1) == 2 * x by {
        assert(x & 0x8000_0000 == 0 && x << 1 == 2 * x) by (bit_vector)
            requires
                x < 0x8000_0000,
        ;
    }
    assert forall|x: u32| x >= 0x8000_0000 implies #[trigger] divide_bits(x, 1) == ((2 * x
        - 0x1_0000_0000) as u32) ^ 0x04c1_1db7u32 by {
        assert(x & 0x8000_0000 != 0 && x << 1 == (2 * x - 0x1_0000_0000) as u32) by (bit_vector)
            requires
                x >= 0x8000_0000,
        ;
    }
}

proof fn dividing_keeps_apart(x: u32, y: u32, n: nat)
    requires
        x != y,
    ensures
        divide_bits(x, n) != divide_bits(y, n),
    decreases n,
{
    if n > 0 {
        let m = (n - 1) as nat;
        dividing_keeps_apart(x, y, m);
        let u = divide_bits(x, m);
        let v = divide_bits(y, m);
        let p = if u & 0x8000_0000 != 0 {
            (u << 1) ^ 0x04c1_1db7
        } else {
            u << 1
        };
        let q = if v & 0x8000_0000 != 0 {
            (v << 1) ^ 0x04c1_1db7
        } else {
            v << 1
        };
        assert(p != q) by (bit_vector)
            requires
                u != v,
                p == if u & 0x8000_0000 != 0 {
                    (u << 1) ^ 0x04c1_1db7
                } else {
                    u << 1
                },
                q == if v & 0x8000_0000 != 0 {
                    (v << 1) ^ 0x04c1_1db7
                } else {
                    v << 1
                },
        ;
    }
}

/// One wrong byte is noticed: byte strings that differ in one byte alone have
/// different checksums.
pub proof fn one_wrong_byte_is_noticed(a: Seq<u8>, i: int, b: u8)
    requires
        0 <= i < a.len(),
        a[i] != b,
    ensures
        crc(a) != crc(a.update(i, b)),
    decreases a.len(),
{
    let c = a.update(i, b);
    if i == a.len() - 1 {
        let x = a.last();
        assert(c.drop_last() =~= a.drop_last());
        let u = crc_from(0, a.drop_last());
        assert(u ^ ((x as u32) << 24) != u ^ ((b as u32) << 24)) by (bit_vector)
            requires
                x != b,
        ;
        dividing_keeps_apart(u ^ ((x as u32) << 24), u ^ ((b as u32) << 24), 8);
    } else {
        one_wrong_byte_is_noticed(a.drop_last(), i, b);
        assert(c.drop_last() =~= a.drop_last().update(i, b));
        let u = crc_from(0, a.drop_last());
        let v = crc_from(0, c.drop_last());
        let x = a.last();
        assert(u ^ ((x as u32) << 24) != v ^ ((x as u32) << 24)) by (bit_vector)
            requires
                u != v,
        ;
        dividing_keeps_apart(u ^ ((x as u32) << 24), v ^ ((x as u32) << 24), 8);
    }
}

fn feed_byte(register: u32, byte: u8) -> (r: u32)
    ensures
        r == feed(register, byte),
{
    let mut x: u32 = register ^ ((byte as u32) << 24);
    let ghost x0 = x;
    let mut i: u32 = 0;
    while i < 8
        invariant
            i <= 8,
            x == divide_bits(x0, i as nat),
        decreases 8 - i,
    {
        if x & 0x8000_0000 != 0 {
            x = (x << 1) ^ POLY;
        } else {
            x = x << 1;
        }
        i = i + 1;
    }
    x
}

/// Continue a checksum over the bytes `s[from..to]`.
pub fn update(start: u32, s: &[u8], from: usize, to: usize) -> (r: u32)
    requires
        from <= to <= s.len(),
    ensures
        r == crc_from(start, s@.subrange(from as int, to as int)),
{
    let mut r: u32 = start;
    let mut i: usize = from;
    while i < to
        invariant
            from <= i <= to <= s.len(),
            r == crc_from(start, s@.subrange(from as int, i as int)),
        decreases to - i,
    {
        r = feed_byte(r, s[i]);
        assert(s@.subrange(from as int, i + 1).drop_last() =~= s@.subrange(from as int, i as int));
        i = i + 1;
    }
    r
}

} // verus!
