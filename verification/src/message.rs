//! Message header fields: lines of `Name: value`, as in mail and HTTP.
use crate::comment;
use crate::comment::Tag;
use crate::text;
use vstd::prelude::*;
use vstd::slice::slice_subrange;

verus! {

/// Length of the first line: up to the first CR LF, or to the end.
pub open spec fn line_len(s: Seq<u8>) -> int
    decreases s.len(),
{
    if s.len() == 0 || (s.len() >= 2 && s[0] == 0x0d && s[1] == 0x0a) {
        0
    } else {
        1 + line_len(s.skip(1))
    }
}

/// What follows a first line of `n` bytes and the CR LF that ends it.
pub open spec fn after_line(s: Seq<u8>, n: int) -> Seq<u8> {
    if 0 <= n && n + 2 <= s.len() {
        s.skip(n + 2)
    } else {
        Seq::empty()
    }
}

/// The field on a line: what stands before the first colon and what stands
/// behind it, both without white space around them. A line without a colon
/// holds none.
pub open spec fn field_on(line: Seq<u8>) -> Seq<Tag> {
    match comment::first_of(line, 0x3a) {
        None => Seq::empty(),
        Some(c) => seq![
            (
                text::trimmed(text::text_of(line.subrange(0, c))),
                text::trimmed(text::text_of(line.subrange(c + 1, line.len() as int))),
            ),
        ],
    }
}

/// The fields of a message header, in order.
pub open spec fn fields(s: Seq<u8>) -> Seq<Tag>
    decreases s.len(),
{
    if s.len() == 0 {
        Seq::empty()
    } else {
        let n = line_len(s);
        field_on(s.take(n)) + fields(after_line(s, n))
    }
}

/// A name in small letters.
pub open spec fn small(name: Seq<char>) -> Seq<char> {
    name.map_values(|c: char| text::lower(c))
}

/// The value of the first field with a name, whatever its capitals.
pub open spec fn value_of(all: Seq<Tag>, name: Seq<char>) -> Option<Seq<char>>
    decreases all.len(),
{
    if all.len() == 0 {
        None
    } else if small(all[0].0) == small(name) {
        Some(all[0].1)
    } else {
        value_of(all.skip(1), name)
    }
}

proof fn line_fits(s: Seq<u8>)
    ensures
        0 <= line_len(s) <= s.len(),
    decreases s.len(),
{
    if s.len() > 0 && !(s.len() >= 2 && s[0] == 0x0d && s[1] == 0x0a) {
        line_fits(s.skip(1));
    }
}

fn first_line(s: &[u8], from: usize) -> (end: usize)
    requires
        from <= s.len(),
    ensures
        from <= end <= s.len(),
        end - from == line_len(s@.skip(from as int)),
{
    let mut i: usize = from;
    let ghost all = s@.skip(from as int);
    assert(all.skip(0) =~= all);
    while i < s.len()
        invariant
            from <= i <= s.len(),
            all == s@.skip(from as int),
            line_len(all) == (i - from) + line_len(all.skip(i - from)),
        decreases s.len() - i,
    {
        let ghost here = all.skip(i - from);
        assert(here.len() == s.len() - i);
        assert(here[0] == s@[i as int]);
        if s.len() - i >= 2 {
            assert(here[1] == s@[i + 1]);
            if s[i] == 0x0d && s[i + 1] == 0x0a {
                return i;
            }
        }
        assert(here.skip(1) =~= all.skip(i + 1 - from));
        i = i + 1;
    }
    i
}

fn add_field(line: &[u8], out: &mut Vec<(String, String)>)
    ensures
        comment::tags(final(out)@) == comment::tags(old(out)@) + field_on(line@),
{
    let ghost before = comment::tags(out@);
    if let Some(c) = comment::position(line, 0x3a) {
        let name: String = text::decoded(slice_subrange(line, 0, c));
        let value: String = text::decoded(slice_subrange(line, c + 1, line.len()));
        let n: String = text::owned(text::trim(name.as_str()));
        let v: String = text::owned(text::trim(value.as_str()));
        comment::push_tag(out, n, v);
    }
    assert(comment::tags(out@) =~= before + field_on(line@));
}

/// Parse a message header.
pub fn parse_fields(s: &[u8]) -> (r: Vec<(String, String)>)
    ensures
        comment::tags(r@) == fields(s@),
{
    let mut out: Vec<(String, String)> = Vec::new();
    let mut at: usize = 0;
    assert(s@.skip(0) =~= s@);
    assert(comment::tags(out@) + fields(s@) =~= fields(s@));
    while at < s.len()
        invariant
            at <= s.len(),
            fields(s@) == comment::tags(out@) + fields(s@.skip(at as int)),
        decreases s.len() - at,
    {
        let ghost here = s@.skip(at as int);
        let ghost had = comment::tags(out@);
        proof {
            line_fits(here);
        }
        let end: usize = first_line(s, at);
        add_field(slice_subrange(s, at, end), &mut out);
        assert(s@.subrange(at as int, end as int) =~= here.take(end - at));
        let next: usize = if s.len() - end >= 2 {
            end + 2
        } else {
            s.len()
        };
        proof {
            assert(s@.skip(next as int) =~= after_line(here, end - at));
            let f = field_on(here.take(end - at));
            let rest = fields(s@.skip(next as int));
            assert(had + (f + rest) =~= (had + f) + rest);
        }
        at = next;
    }
    assert(s@.skip(at as int) =~= Seq::<u8>::empty());
    assert(comment::tags(out@) + Seq::<Tag>::empty() =~= comment::tags(out@));
    out
}

/// The value of the first field with a name, whatever its capitals.
pub fn find_value<'a>(all: &'a Vec<(String, String)>, name: &str) -> (r: Option<&'a str>)
    ensures
        (match r {
            Some(v) => Some(v@),
            None => None,
        }) == value_of(comment::tags(all@), name@),
{
    let ghost tags = comment::tags(all@);
    let wanted: String = text::to_ascii_lowercase(name);
    let mut i: usize = 0;
    assert(tags.skip(0) =~= tags);
    while i < all.len()
        invariant
            i <= all@.len(),
            tags == comment::tags(all@),
            wanted@ == small(name@),
            value_of(tags, name@) == value_of(tags.skip(i as int), name@),
        decreases all@.len() - i,
    {
        assert(tags.skip(i as int)[0] == tags[i as int]);
        let own: String = text::to_ascii_lowercase(all[i].0.as_str());
        if text::same_text(own.as_str(), wanted.as_str()) {
            return Some(all[i].1.as_str());
        }
        assert(tags.skip(i as int).skip(1) =~= tags.skip(i + 1));
        i = i + 1;
    }
    None
}

} // verus!
