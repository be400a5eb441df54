//! Tags: the Vorbis comment structure, and where each codec keeps it.
use crate::bytes;
use crate::codec_id;
use crate::codec_id::Mapping;
use crate::media::CodecId;
use crate::reassembly;
use crate::text;
use vstd::prelude::*;
use vstd::slice::slice_subrange;

verus! {

/// A tag: its name and its value.
pub type Tag = (Seq<char>, Seq<char>);

/// Tags as values.
pub open spec fn tags(v: Seq<(String, String)>) -> Seq<Tag> {
    Seq::new(v.len(), |i: int| (v[i].0@, v[i].1@))
}

/// Where `b` first stands in `s`.
pub open spec fn first_of(s: Seq<u8>, b: u8) -> Option<int>
    decreases s.len(),
{
    if s.len() == 0 {
        None
    } else if s[0] == b {
        Some(0)
    } else {
        match first_of(s.skip(1), b) {
            Some(i) => Some(i + 1),
            None => None,
        }
    }
}

/// The tag that a name and a value give: the name in small letters, both
/// without white space around them. Neither may be empty.
pub open spec fn tag_from(name: Seq<char>, value: Seq<char>) -> Seq<Tag> {
    let n = text::trimmed(name.map_values(|c: char| text::lower(c)));
    let v = text::trimmed(value);
    if n.len() > 0 && v.len() > 0 {
        seq![(n, v)]
    } else {
        Seq::empty()
    }
}

/// The tag that a comment `NAME=value` gives.
pub open spec fn comment_tag(entry: Seq<u8>) -> Seq<Tag> {
    match first_of(entry, 0x3d) {
        None => Seq::empty(),
        Some(eq) => tag_from(
            text::text_of(entry.subrange(0, eq)),
            text::text_of(entry.subrange(eq + 1, entry.len() as int)),
        ),
    }
}

/// The tags of up to `n` comments at `off`, each after its length. Comments
/// that do not lie inside `s` end the list.
pub open spec fn comment_list(s: Seq<u8>, off: int, n: int) -> Seq<Tag>
    decreases n,
{
    if n <= 0 || off + 4 > s.len() {
        Seq::empty()
    } else {
        let end = off + 4 + bytes::le32(s, off);
        if end > s.len() {
            Seq::empty()
        } else {
            comment_tag(s.subrange(off + 4, end)) + comment_list(s, end, n - 1)
        }
    }
}

/// The tags of a comment structure: the vendor, where it is not empty, and
/// then the comments.
pub open spec fn comment_tags(s: Seq<u8>) -> Seq<Tag> {
    if s.len() < 4 || 4 + bytes::le32(s, 0) > s.len() {
        Seq::empty()
    } else {
        let end = 4 + bytes::le32(s, 0);
        let vendor = text::text_of(s.subrange(4, end));
        let head = if vendor.len() > 0 {
            seq![("vendor"@, vendor)]
        } else {
            Seq::empty()
        };
        if end + 4 > s.len() {
            head
        } else {
            head + comment_list(s, end + 4, bytes::le32(s, end))
        }
    }
}

/// Where `b` first stands in `s`.
pub fn position(s: &[u8], b: u8) -> (r: Option<usize>)
    ensures
        match r {
            Some(i) => first_of(s@, b) == Some(i as int) && i < s.len(),
            None => first_of(s@, b) is None,
        },
{
    let mut i: usize = 0;
    assert(s@.skip(0) =~= s@);
    while i < s.len()
        invariant
            i <= s.len(),
            first_of(s@, b) == (match first_of(s@.skip(i as int), b) {
                Some(k) => Some(k + i),
                None => None,
            }),
        decreases s.len() - i,
    {
        if s[i] == b {
            return Some(i);
        }
        assert(s@.skip(i as int).skip(1) =~= s@.skip(i + 1));
        i = i + 1;
    }
    None
}

/// Add one tag.
pub fn push_tag(out: &mut Vec<(String, String)>, name: String, value: String)
    ensures
        tags(final(out)@) == tags(old(out)@).push((name@, value@)),
{
    let ghost before = tags(out@);
    out.push((name, value));
    assert(tags(out@) =~= before.push((name@, value@)));
}

/// Add the tag that a name and a value give.
pub fn push_comment(raw_name: &str, raw_value: &str, out: &mut Vec<(String, String)>)
    ensures
        tags(final(out)@) == tags(old(out)@) + tag_from(raw_name@, raw_value@),
{
    let ghost before = tags(out@);
    let small: String = text::to_ascii_lowercase(raw_name);
    let name: &str = text::trim(small.as_str());
    let value: &str = text::trim(raw_value);
    if !name.is_empty() && !value.is_empty() {
        let n: String = text::owned(name);
        let v: String = text::owned(value);
        push_tag(out, n, v);
    }
    assert(tags(out@) =~= before + tag_from(raw_name@, raw_value@));
}

fn add_comment(entry: &[u8], out: &mut Vec<(String, String)>)
    ensures
        tags(final(out)@) == tags(old(out)@) + comment_tag(entry@),
{
    let ghost before = tags(out@);
    if let Some(eq) = position(entry, 0x3d) {
        let raw_name: String = text::decoded(slice_subrange(entry, 0, eq));
        let raw_value: String = text::decoded(slice_subrange(entry, eq + 1, entry.len()));
        push_comment(raw_name.as_str(), raw_value.as_str(), out);
    }
    assert(tags(out@) =~= before + comment_tag(entry@));
}

/// Add the tags of a comment structure to `out`.
pub fn parse_vorbis_comment(buf: &[u8], out: &mut Vec<(String, String)>)
    ensures
        tags(final(out)@) == tags(old(out)@) + comment_tags(buf@),
{
    let ghost before = tags(out@);
    if buf.len() < 4 {
        assert(tags(out@) =~= before + comment_tags(buf@));
        return;
    }
    let vlen: u32 = bytes::le32_at(buf, 0);
    if vlen as usize > buf.len() - 4 {
        assert(tags(out@) =~= before + comment_tags(buf@));
        return;
    }
    let end: usize = 4 + vlen as usize;
    let vendor: String = text::decoded(slice_subrange(buf, 4, end));
    if !vendor.as_str().is_empty() {
        let name: String = text::owned("vendor");
        push_tag(out, name, vendor);
    }
    let ghost with_vendor = tags(out@);
    if buf.len() - end < 4 {
        assert(tags(out@) =~= before + comment_tags(buf@));
        return;
    }
    let n: u32 = bytes::le32_at(buf, end);
    let mut left: u32 = n;
    let mut off: usize = end + 4;
    assert(with_vendor + comment_list(buf@, off as int, n as int) =~= before + comment_tags(buf@));
    while left > 0
        invariant_except_break
            off <= buf.len(),
            before + comment_tags(buf@) == tags(out@) + comment_list(
                buf@,
                off as int,
                left as int,
            ),
        ensures
            tags(out@) == before + comment_tags(buf@),
        decreases left,
    {
        if buf.len() - off < 4 {
            assert(tags(out@) + comment_list(buf@, off as int, left as int) =~= tags(out@));
            break;
        }
        let clen: u32 = bytes::le32_at(buf, off);
        if clen as usize > buf.len() - off - 4 {
            assert(tags(out@) + comment_list(buf@, off as int, left as int) =~= tags(out@));
            break;
        }
        let next: usize = off + 4 + clen as usize;
        let ghost have = tags(out@);
        let ghost tag = comment_tag(buf@.subrange(off + 4, next as int));
        let ghost rest = comment_list(buf@, next as int, left - 1);
        add_comment(slice_subrange(buf, off + 4, next), out);
        assert((have + tag) + rest =~= have + (tag + rest));
        off = next;
        left = left - 1;
        if left == 0 {
            assert(tags(out@) + rest =~= tags(out@));
        }
    }
}

/// The first packet from `i` on that is a FLAC comment block.
pub open spec fn flac_comment(packets: Seq<Seq<u8>>, i: int) -> Option<Seq<u8>>
    decreases packets.len() - i,
{
    if i < 0 || i >= packets.len() {
        None
    } else if packets[i].len() >= 4 && packets[i][0] % 128 == 4 {
        Some(packets[i].skip(4))
    } else {
        flac_comment(packets, i + 1)
    }
}

/// The comment structure among a stream's header packets. Vorbis, Opus and
/// Theora keep it in the second packet after a magic, Speex without one, and
/// FLAC in a metadata block of type 4.
pub open spec fn comment_body(id: Seq<char>, packets: Seq<Seq<u8>>) -> Option<Seq<u8>> {
    let p = packets[1];
    match codec_id::mapping_of(id) {
        Mapping::Vorbis => if packets.len() >= 2 && p.len() > 7 && bytes::has_at(
            p,
            1,
            seq![0x76u8, 0x6f, 0x72, 0x62, 0x69, 0x73],
        ) {
            Some(p.skip(7))
        } else {
            None
        },
        Mapping::Opus => if packets.len() >= 2 && p.len() > 8 && bytes::has_at(
            p,
            0,
            seq![0x4fu8, 0x70, 0x75, 0x73, 0x54, 0x61, 0x67, 0x73],
        ) {
            Some(p.skip(8))
        } else {
            None
        },
        Mapping::Theora => if packets.len() >= 2 && p.len() > 7 && bytes::has_at(
            p,
            1,
            seq![0x74u8, 0x68, 0x65, 0x6f, 0x72, 0x61],
        ) {
            Some(p.skip(7))
        } else {
            None
        },
        Mapping::Speex => if packets.len() >= 2 {
            Some(p)
        } else {
            None
        },
        Mapping::Flac => flac_comment(packets, 1),
        Mapping::Other => None,
    }
}

/// The tags among a stream's header packets.
pub open spec fn codec_tags(id: Seq<char>, packets: Seq<Seq<u8>>) -> Seq<Tag> {
    match comment_body(id, packets) {
        Some(body) => comment_tags(body),
        None => Seq::empty(),
    }
}

fn after(p: &Vec<u8>, n: usize) -> (r: &[u8])
    requires
        n <= p@.len(),
    ensures
        r@ == p@.skip(n as int),
{
    let r: &[u8] = slice_subrange(p.as_slice(), n, p.len());
    assert(r@ =~= p@.skip(n as int));
    r
}

/// Add the tags among a stream's header packets to `out`.
pub fn parse_codec_comment(
    id: &CodecId,
    packets: &Vec<Vec<u8>>,
    out: &mut Vec<(String, String)>,
)
    ensures
        tags(final(out)@) == tags(old(out)@) + codec_tags(id@, reassembly::contents(packets@)),
{
    let ghost all = reassembly::contents(packets@);
    let ghost before = tags(out@);
    let mapping: Mapping = codec_id::mapping(id);
    if let Mapping::Flac = mapping {
        let mut i: usize = 1;
        while i < packets.len()
            invariant
                1 <= i,
                all == reassembly::contents(packets@),
                flac_comment(all, 1) == flac_comment(all, i as int),
                tags(out@) == before,
                before == tags(old(out)@),
                codec_id::mapping_of(id@) is Flac,
            decreases packets@.len() - i,
        {
            let p: &Vec<u8> = &packets[i];
            assert(all[i as int] == p@);
            if p.len() >= 4 && p[0] % 128 == 4 {
                parse_vorbis_comment(after(p, 4), out);
                return;
            }
            i = i + 1;
        }
        assert(tags(out@) =~= before + codec_tags(id@, all));
        return;
    }
    if packets.len() < 2 {
        assert(tags(out@) =~= before + codec_tags(id@, all));
        return;
    }
    let p: &Vec<u8> = &packets[1];
    assert(all[1] == p@);
    let vorbis: [u8; 6] = [0x76, 0x6f, 0x72, 0x62, 0x69, 0x73];
    let opus: [u8; 8] = [0x4f, 0x70, 0x75, 0x73, 0x54, 0x61, 0x67, 0x73];
    let theora: [u8; 6] = [0x74, 0x68, 0x65, 0x6f, 0x72, 0x61];
    assert(vorbis@ =~= seq![0x76u8, 0x6f, 0x72, 0x62, 0x69, 0x73]);
    assert(opus@ =~= seq![0x4fu8, 0x70, 0x75, 0x73, 0x54, 0x61, 0x67, 0x73]);
    assert(theora@ =~= seq![0x74u8, 0x68, 0x65, 0x6f, 0x72, 0x61]);
    match mapping {
        Mapping::Vorbis => {
            if p.len() > 7 && bytes::matches_at(p.as_slice(), 1, vorbis.as_slice()) {
                parse_vorbis_comment(after(p, 7), out);
                return;
            }
        },
        Mapping::Opus => {
            if p.len() > 8 && bytes::matches_at(p.as_slice(), 0, opus.as_slice()) {
                parse_vorbis_comment(after(p, 8), out);
                return;
            }
        },
        Mapping::Theora => {
            if p.len() > 7 && bytes::matches_at(p.as_slice(), 1, theora.as_slice()) {
                parse_vorbis_comment(after(p, 7), out);
                return;
            }
        },
        Mapping::Speex => {
            parse_vorbis_comment(p.as_slice(), out);
            return;
        },
        _ => {},
    }
    assert(tags(out@) =~= before + codec_tags(id@, all));
}

// ---------------------------------------------------------------------------
// Comments written and read
// ---------------------------------------------------------------------------

/// The four bytes of a number below 2^32, the least significant first.
pub open spec fn le32_bytes(n: int) -> Seq<u8> {
    seq![
        (n % 0x100) as u8,
        (n / 0x100 % 0x100) as u8,
        (n / 0x1_0000 % 0x100) as u8,
        (n / 0x100_0000 % 0x100) as u8,
    ]
}

/// Bytes behind their length.
pub open spec fn sized(b: Seq<u8>) -> Seq<u8> {
    le32_bytes(b.len() as int) + b
}

/// A comment `NAME=value`.
pub open spec fn entry_of(tag: Tag) -> Seq<u8> {
    text::bytes_of(tag.0).push(0x3d) + text::bytes_of(tag.1)
}

/// Comments, each behind its length.
pub open spec fn entries_of(pairs: Seq<Tag>) -> Seq<u8>
    decreases pairs.len(),
{
    if pairs.len() == 0 {
        Seq::empty()
    } else {
        sized(entry_of(pairs[0])) + entries_of(pairs.skip(1))
    }
}

/// A comment structure: the vendor, the number of comments, and the comments.
pub open spec fn written(vendor: Seq<char>, pairs: Seq<Tag>) -> Seq<u8> {
    sized(text::bytes_of(vendor)) + le32_bytes(pairs.len() as int) + entries_of(pairs)
}

/// Whether a comment can be told from what is written: neither part is empty
/// or has white space around it, no `=` stands in the name, and its length
/// can be written.
pub open spec fn is_plain(tag: Tag) -> bool {
    &&& text::is_trim(tag.0)
    &&& text::is_trim(tag.1)
    &&& forall|i: int| 0 <= i < tag.0.len() ==> (#[trigger] tag.0[i]) != '='
    &&& entry_of(tag).len() < 0x1_0000_0000
}

/// A tag with its name in small letters.
pub open spec fn in_small_letters(tag: Tag) -> Tag {
    (tag.0.map_values(|c: char| text::lower(c)), tag.1)
}

proof fn lengths_come_back(s: Seq<u8>, off: int, n: int)
    requires
        0 <= n < 0x1_0000_0000,
        bytes::has_at(s, off, le32_bytes(n)),
    ensures
        bytes::le32(s, off) == n,
{
    let b = s.subrange(off, off + 4);
    assert(b[0] == s[off] && b[1] == s[off + 1] && b[2] == s[off + 2] && b[3] == s[off + 3]);
}

/// The first of a byte behind bytes that are others.
pub proof fn first_is_behind(a: Seq<u8>, b: u8, rest: Seq<u8>)
    requires
        forall|i: int| 0 <= i < a.len() ==> (#[trigger] a[i]) != b,
    ensures
        first_of(a.push(b) + rest, b) == Some(a.len() as int),
    decreases a.len(),
{
    let s = a.push(b) + rest;
    if a.len() > 0 {
        assert(s[0] == a[0]);
        let t = a.skip(1);
        assert forall|i: int| 0 <= i < t.len() implies (#[trigger] t[i]) != b by {
            assert(t[i] == a[i + 1]);
        }
        first_is_behind(t, b, rest);
        assert(s.skip(1) =~= t.push(b) + rest);
    }
}

/// One comment comes back.
proof fn comment_comes_back(tag: Tag)
    requires
        is_plain(tag),
    ensures
        comment_tag(entry_of(tag)) == seq![in_small_letters(tag)],
{
    let name = text::bytes_of(tag.0);
    let value = text::bytes_of(tag.1);
    let entry = entry_of(tag);
    assert forall|i: int| 0 <= i < tag.0.len() implies (#[trigger] tag.0[i]) as u32
        != 0x3du8 as u32 by {
        assert(tag.0[i] != '=');
        vstd::utf8::char_is_scalar(tag.0[i]);
        if tag.0[i] as u32 == 0x3d {
            vstd::utf8::char_u32_cast(tag.0[i], 0x3d);
        }
    }
    text::ascii_stands_for_itself(tag.0, 0x3d);
    first_is_behind(name, 0x3d, value);
    let eq = name.len() as int;
    assert(entry.subrange(0, eq) =~= name);
    assert(entry.subrange(eq + 1, entry.len() as int) =~= value);
    text::text_comes_back(tag.0);
    text::text_comes_back(tag.1);
    let small = in_small_letters(tag).0;
    assert(small[0] == text::lower(tag.0[0]));
    assert(small.last() == text::lower(tag.0.last()));
    assert(text::trimmed_start(small) == small);
    assert(text::trimmed_end(small) == small);
    assert(text::trimmed_start(tag.1) == tag.1);
    assert(text::trimmed_end(tag.1) == tag.1);
}

/// Comments come back from where they stand.
proof fn entries_come_back(s: Seq<u8>, off: int, pairs: Seq<Tag>)
    requires
        bytes::has_at(s, off, entries_of(pairs)),
        forall|i: int| 0 <= i < pairs.len() ==> is_plain(#[trigger] pairs[i]),
    ensures
        comment_list(s, off, pairs.len() as int) == pairs.map_values(
            |t: Tag| in_small_letters(t),
        ),
    decreases pairs.len(),
{
    let all = entries_of(pairs);
    let told = pairs.map_values(|t: Tag| in_small_letters(t));
    if pairs.len() > 0 {
        let entry = entry_of(pairs[0]);
        let later = pairs.skip(1);
        assert(is_plain(pairs[0]));
        assert(all == sized(entry) + entries_of(later));
        let here = s.subrange(off, off + all.len());
        assert(here == all);
        assert(s.subrange(off, off + 4) =~= le32_bytes(entry.len() as int)) by {
            assert(s.subrange(off, off + 4) =~= all.subrange(0, 4));
        }
        lengths_come_back(s, off, entry.len() as int);
        let end = off + 4 + entry.len();
        assert(s.subrange(off + 4, end) =~= entry) by {
            assert(s.subrange(off + 4, end) =~= all.subrange(4, entry.len() + 4int));
        }
        assert(s.subrange(end, end + entries_of(later).len()) =~= entries_of(later)) by {
            assert(s.subrange(end, end + entries_of(later).len()) =~= all.subrange(
                entry.len() + 4int,
                all.len() as int,
            ));
        }
        assert forall|i: int| 0 <= i < later.len() implies is_plain(#[trigger] later[i]) by {
            assert(later[i] == pairs[i + 1]);
        }
        entries_come_back(s, end, later);
        comment_comes_back(pairs[0]);
        assert(told =~= seq![in_small_letters(pairs[0])] + later.map_values(
            |t: Tag| in_small_letters(t),
        ));
    } else {
        assert(comment_list(s, off, 0) =~= told);
    }
}

/// Comments that are written come back: the vendor first, where there is one,
/// and then every comment, in order, its name in small letters. Nothing is
/// lost, and comments of the same name stay. What stands behind them does not
/// matter.
pub proof fn written_comments_come_back(vendor: Seq<char>, pairs: Seq<Tag>, rest: Seq<u8>)
    requires
        text::bytes_of(vendor).len() < 0x1_0000_0000,
        pairs.len() < 0x1_0000_0000,
        forall|i: int| 0 <= i < pairs.len() ==> is_plain(#[trigger] pairs[i]),
    ensures
        comment_tags(written(vendor, pairs) + rest) == (if vendor.len() > 0 {
            seq![("vendor"@, vendor)]
        } else {
            Seq::empty()
        }) + pairs.map_values(|t: Tag| in_small_letters(t)),
{
    let v = text::bytes_of(vendor);
    let count = le32_bytes(pairs.len() as int);
    let all = entries_of(pairs);
    let s = written(vendor, pairs) + rest;
    assert(s.subrange(0, 4) =~= le32_bytes(v.len() as int));
    lengths_come_back(s, 0, v.len() as int);
    let end = 4 + v.len() as int;
    assert(s.subrange(4, end) =~= v);
    assert(s.subrange(end, end + 4) =~= count);
    lengths_come_back(s, end, pairs.len() as int);
    assert(s.subrange(end + 4, end + 4 + all.len()) =~= all);
    text::text_comes_back(vendor);
    entries_come_back(s, end + 4, pairs);
}

} // verus!
