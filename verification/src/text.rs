//! Text: comparing it, and writing numbers into it.
use vstd::prelude::*;
use vstd::string::*;

verus! {

/// `String::push` adds one character at the end.
pub assume_specification[ String::push ](s: &mut String, ch: char)
    ensures
        final(s)@ == old(s)@.push(ch),
;

/// Calls `==` on string slices, which std documents as comparing their
/// contents: two texts are equal exactly when their characters are.
#[verifier::external_body]
pub(crate) fn same_text(a: &str, b: &str) -> (r: bool)
    ensures
        r == (a@ == b@),
{
    a == b
}

/// A text of its own with the characters of `s`.
pub fn owned(s: &str) -> (r: String)
    ensures
        r@ == s@,
{
    String::from_str(s)
}

/// The text that `String::from_utf8_lossy` makes of bytes.
pub uninterp spec fn lossy_text(b: Seq<u8>) -> Seq<char>;

/// Calls `String::from_utf8_lossy`. Which replacement characters stand where
/// is left to std; bytes that are UTF-8 give the text that they encode.
#[verifier::external_body]
pub(crate) fn from_utf8_lossy(b: &[u8]) -> (r: String)
    ensures
        r@ == lossy_text(b@),
        vstd::utf8::valid_utf8(b@) ==> r@ == vstd::utf8::decode_utf8(b@),
{
    String::from_utf8_lossy(b).into_owned()
}

/// The text that bytes stand for: what they encode in UTF-8, or else a text
/// with replacement characters.
pub open spec fn text_of(b: Seq<u8>) -> Seq<char> {
    if vstd::utf8::valid_utf8(b) {
        vstd::utf8::decode_utf8(b)
    } else {
        lossy_text(b)
    }
}

/// The text that bytes stand for.
pub fn decoded(b: &[u8]) -> (r: String)
    ensures
        r@ == text_of(b@),
{
    from_utf8_lossy(b)
}

/// A text in UTF-8.
pub open spec fn bytes_of(t: Seq<char>) -> Seq<u8> {
    vstd::utf8::encode_utf8(t)
}

/// Text written as UTF-8 and read is that text.
pub proof fn text_comes_back(t: Seq<char>)
    ensures
        text_of(bytes_of(t)) == t,
{
    vstd::utf8::encode_utf8_valid_utf8(t);
    vstd::utf8::encode_utf8_decode_utf8(t);
}

/// A character below 0x80 stands in UTF-8 for itself alone: its byte is in no
/// text without it.
pub proof fn ascii_stands_for_itself(t: Seq<char>, b: u8)
    requires
        b < 0x80,
        forall|i: int| 0 <= i < t.len() ==> (#[trigger] t[i]) as u32 != b as u32,
    ensures
        forall|i: int|
            0 <= i < bytes_of(t).len() ==> (
            #[trigger] bytes_of(t)[i]) != b,
    decreases t.len(),
{
    if t.len() > 0 {
        let c = t[0] as u32;
        let head = vstd::utf8::encode_scalar(c);
        let rest = t.drop_first();
        assert forall|i: int| 0 <= i < rest.len() implies (#[trigger] rest[i]) as u32
            != b as u32 by {
            assert(rest[i] == t[i + 1]);
        }
        ascii_stands_for_itself(rest, b);
        assert(t[0] as u32 != b as u32);
        assert(c <= 0x7f ==> (c & 0x7f) as u8 == c) by (bit_vector);
        assert((0xC0u8 | ((c >> 6) & 0x1F) as u8) >= 0x80) by (bit_vector);
        assert((0xE0u8 | ((c >> 12) & 0x0F) as u8) >= 0x80) by (bit_vector);
        assert((0xF0u8 | ((c >> 18) & 0x7) as u8) >= 0x80) by (bit_vector);
        assert((0x80u8 | (c & 0x3F) as u8) >= 0x80) by (bit_vector);
        assert((0x80u8 | ((c >> 6) & 0x3F) as u8) >= 0x80) by (bit_vector);
        assert((0x80u8 | ((c >> 12) & 0x3F) as u8) >= 0x80) by (bit_vector);
        assert forall|i: int| 0 <= i < head.len() implies (#[trigger] head[i]) != b by {}
        let all = bytes_of(t);
        assert(all == head + bytes_of(rest));
        assert forall|i: int| 0 <= i < all.len() implies (#[trigger] all[i]) != b by {
            if i >= head.len() {
                assert(all[i] == bytes_of(rest)[i - head.len()]);
            } else {
                assert(all[i] == head[i]);
            }
        }
    }
}

/// An ASCII capital letter as a small letter; any other character as it is.
pub open spec fn lower(c: char) -> char {
    if 'A' <= c <= 'Z' {
        (c as int + 0x20) as char
    } else {
        c
    }
}

/// Calls `str::to_ascii_lowercase`: the letters A to Z become small letters,
/// all other characters stay.
#[verifier::external_body]
pub(crate) fn to_ascii_lowercase(s: &str) -> (r: String)
    ensures
        r@ == s@.map_values(|c: char| lower(c)),
{
    s.to_ascii_lowercase()
}

/// Whether a character is white space (the Unicode property `White_Space`).
pub open spec fn is_white(c: char) -> bool {
    let x = c as u32;
    ||| 0x9 <= x <= 0xd
    ||| x == 0x20
    ||| x == 0x85
    ||| x == 0xa0
    ||| x == 0x1680
    ||| 0x2000 <= x <= 0x200a
    ||| x == 0x2028
    ||| x == 0x2029
    ||| x == 0x202f
    ||| x == 0x205f
    ||| x == 0x3000
}

/// `s` without white space at its start.
pub open spec fn trimmed_start(s: Seq<char>) -> Seq<char>
    decreases s.len(),
{
    if s.len() > 0 && is_white(s[0]) {
        trimmed_start(s.skip(1))
    } else {
        s
    }
}

/// `s` without white space at its end.
pub open spec fn trimmed_end(s: Seq<char>) -> Seq<char>
    decreases s.len(),
{
    if s.len() > 0 && is_white(s.last()) {
        trimmed_end(s.drop_last())
    } else {
        s
    }
}

/// Whether `s` is not empty and has no white space at either end.
pub open spec fn is_trim(s: Seq<char>) -> bool {
    s.len() > 0 && !is_white(s[0]) && !is_white(s.last())
}

/// `s` without white space at either end.
pub open spec fn trimmed(s: Seq<char>) -> Seq<char> {
    trimmed_end(trimmed_start(s))
}

/// Calls `str::trim`, which takes white space, as Unicode defines it, off
/// both ends.
#[verifier::external_body]
pub(crate) fn trim(s: &str) -> (r: &str)
    ensures
        r@ == trimmed(s@),
{
    s.trim()
}

/// The character for a digit below 16.
pub open spec fn digit(d: int, upper: bool) -> char {
    if d < 10 {
        (0x30 + d) as char
    } else if upper {
        (0x37 + d) as char
    } else {
        (0x57 + d) as char
    }
}

/// `n` in decimal, without leading zeros.
pub open spec fn decimal(n: nat) -> Seq<char>
    decreases n,
{
    if n < 10 {
        seq![digit(n as int, false)]
    } else {
        decimal(n / 10).push(digit((n % 10) as int, false))
    }
}

/// The last `width` hexadecimal digits of `n`.
pub open spec fn hex(n: nat, width: nat, upper: bool) -> Seq<char>
    decreases width,
{
    if width == 0 {
        Seq::empty()
    } else {
        hex(n / 16, (width - 1) as nat, upper).push(digit((n % 16) as int, upper))
    }
}

fn digit_char(d: u8, upper: bool) -> (r: char)
    requires
        d < 16,
    ensures
        r == digit(d as int, upper),
{
    if d < 10 {
        (0x30 + d) as char
    } else if upper {
        (0x37 + d) as char
    } else {
        (0x57 + d) as char
    }
}

/// Append `n` in decimal.
pub fn push_decimal(s: &mut String, n: u64)
    ensures
        final(s)@ == old(s)@ + decimal(n as nat),
    decreases n,
{
    if n < 10 {
        s.push(digit_char(n as u8, false));
        assert(s@ =~= old(s)@ + decimal(n as nat));
    } else {
        push_decimal(s, n / 10);
        s.push(digit_char((n % 10) as u8, false));
        assert(s@ =~= old(s)@ + decimal(n as nat));
    }
}

/// Append the last `width` hexadecimal digits of `n`.
pub fn push_hex(s: &mut String, n: u64, width: u32, upper: bool)
    ensures
        final(s)@ == old(s)@ + hex(n as nat, width as nat, upper),
    decreases width,
{
    if width == 0 {
        assert(s@ =~= old(s)@ + hex(n as nat, width as nat, upper));
    } else {
        push_hex(s, n / 16, width - 1, upper);
        s.push(digit_char((n % 16) as u8, upper));
        assert(s@ =~= old(s)@ + hex(n as nat, width as nat, upper));
    }
}

} // verus!
