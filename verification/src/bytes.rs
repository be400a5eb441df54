//! Fixed-width integers inside byte strings.
use vstd::prelude::*;

verus! {

/// The two bytes at `off`, read as a little-endian number.
pub open spec fn le16(s: Seq<u8>, off: int) -> int {
    s[off] + 0x100 * s[off + 1]
}

/// The four bytes at `off`, read as a little-endian number.
pub open spec fn le32(s: Seq<u8>, off: int) -> int {
    le16(s, off) + 0x1_0000 * le16(s, off + 2)
}

/// The eight bytes at `off`, read as a little-endian number.
pub open spec fn le64(s: Seq<u8>, off: int) -> int {
    le32(s, off) + 0x1_0000_0000 * le32(s, off + 4)
}

/// The two's-complement reading of a number below 2^32.
pub open spec fn signed32(x: int) -> int {
    if x < 0x8000_0000 {
        x
    } else {
        x - 0x1_0000_0000
    }
}

/// The two's-complement reading of a number below 2^64.
pub open spec fn signed64(x: int) -> int {
    if x < 0x8000_0000_0000_0000 {
        x
    } else {
        x - 0x1_0000_0000_0000_0000
    }
}

/// The `n` bytes at `off`, read as a big-endian number.
pub open spec fn be(s: Seq<u8>, off: int, n: nat) -> int
    decreases n,
{
    if n == 0 {
        0
    } else {
        0x100 * be(s, off, (n - 1) as nat) + s[off + n - 1]
    }
}

/// Whether `m` stands in `s` at `off`.
pub open spec fn has_at(s: Seq<u8>, off: int, m: Seq<u8>) -> bool {
    &&& 0 <= off
    &&& off + m.len() <= s.len()
    &&& s.subrange(off, off + m.len()) == m
}

/// Little-endian `u16` at `off`.
pub fn le16_at(s: &[u8], off: usize) -> (r: u16)
    requires
        off + 2 <= s.len(),
    ensures
        r == le16(s@, off as int),
{
    s[off] as u16 + 0x100 * (s[off + 1] as u16)
}

/// Little-endian `u32` at `off`.
pub fn le32_at(s: &[u8], off: usize) -> (r: u32)
    requires
        off + 4 <= s.len(),
    ensures
        r == le32(s@, off as int),
{
    le16_at(s, off) as u32 + 0x1_0000 * (le16_at(s, off + 2) as u32)
}

/// Little-endian `u64` at `off`.
pub fn le64_at(s: &[u8], off: usize) -> (r: u64)
    requires
        off + 8 <= s.len(),
    ensures
        r == le64(s@, off as int),
{
    le32_at(s, off) as u64 + 0x1_0000_0000 * (le32_at(s, off + 4) as u64)
}

/// Little-endian `i32` at `off`.
pub fn le_i32_at(s: &[u8], off: usize) -> (r: i32)
    requires
        off + 4 <= s.len(),
    ensures
        r == signed32(le32(s@, off as int)),
{
    let x: u32 = le32_at(s, off);
    if x < 0x8000_0000 {
        x as i32
    } else {
        (x - 0x8000_0000) as i32 + i32::MIN
    }
}

/// Little-endian `i64` at `off`.
pub fn le_i64_at(s: &[u8], off: usize) -> (r: i64)
    requires
        off + 8 <= s.len(),
    ensures
        r == signed64(le64(s@, off as int)),
{
    let x: u64 = le64_at(s, off);
    if x < 0x8000_0000_0000_0000 {
        x as i64
    } else {
        (x - 0x8000_0000_0000_0000) as i64 + i64::MIN
    }
}

/// The big-endian number of the `n` bytes at `off`, at most four of them.
pub fn be_at(s: &[u8], off: usize, n: usize) -> (r: u32)
    requires
        n <= 4,
        off + n <= s.len(),
    ensures
        r == be(s@, off as int, n as nat),
{
    reveal_with_fuel(be, 5);
    let mut r: u64 = 0;
    let mut i: usize = 0;
    while i < n
        invariant
            i <= n <= 4,
            off + n <= s.len(),
            r == be(s@, off as int, i as nat),
            i == 0 ==> r == 0,
            i == 1 ==> r < 0x100,
            i == 2 ==> r < 0x1_0000,
            i == 3 ==> r < 0x100_0000,
            i == 4 ==> r < 0x1_0000_0000,
        decreases n - i,
    {
        r = 0x100 * r + s[off + i] as u64;
        i = i + 1;
    }
    r as u32
}

/// Whether `m` stands in `s` at `off`.
pub fn matches_at(s: &[u8], off: usize, m: &[u8]) -> (r: bool)
    ensures
        r == has_at(s@, off as int, m@),
{
    if off > s.len() || m.len() > s.len() - off {
        return false;
    }
    let mut i: usize = 0;
    while i < m.len()
        invariant
            i <= m.len(),
            off + m.len() <= s.len(),
            forall|j: int| 0 <= j < i ==> s@[off + j] == m@[j],
        decreases m@.len() - i,
    {
        if s[off + i] != m[i] {
            assert(s@.subrange(off as int, off + m@.len())[i as int] == s@[off + i]);
            return false;
        }
        i = i + 1;
    }
    assert(s@.subrange(off as int, off + m@.len()) =~= m@);
    true
}

} // verus!
