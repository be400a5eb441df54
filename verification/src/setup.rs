//! What is known of streams once a file is open: headers, setup bytes, tags
//! and tracks.
use crate::bytes;
use crate::codec_id;
use crate::comment;
use crate::comment::Tag;
use crate::demux;
use crate::demux::Model;
use crate::faults;
use crate::formats;
use crate::info;
use crate::media::PacketView;
use crate::message;
use crate::ogm;
use crate::page::PageView;
use crate::private;
use crate::process;
use crate::reassembly;
use crate::register;
use crate::error::Error;
use crate::ident;
use crate::reader;
use crate::session;
use crate::skeleton;
use crate::text;
use vstd::prelude::*;

verus! {

// ---------------------------------------------------------------------------
// Headers
// ---------------------------------------------------------------------------

/// The demuxer after it has taken and processed `n` more pages, where it can.
pub open spec fn after_pages(m: Model, n: nat) -> Model
    decreases n,
{
    if n == 0 {
        m
    } else {
        match session::took_page(m) {
            (after, None) => after,
            (after, Some(page)) => after_pages(
                process::processed(after, page).0,
                (n - 1) as nat,
            ),
        }
    }
}

/// Whether a header of some stream has not come, or the end of the Skeleton.
pub open spec fn lacks_headers(m: Model) -> bool {
    ||| exists|i: int| 0 <= i < m.states.len() && (#[trigger] m.states[i]).headers_remaining > 0
    ||| m.skel.skeleton is Some && !m.skel.ended
}

/// Headers are collected page by page, as long as one has not come, a page
/// comes and fewer than `budget` have.
proof fn collecting_goes_page_by_page(m: Model, budget: nat) -> (n: nat)
    requires
        session::headers_collected(m, budget as int).1 is None,
    ensures
        n <= budget,
        session::headers_collected(m, budget as int).0 == after_pages(m, n),
        forall|i: nat| i < n ==> lacks_headers(#[trigger] after_pages(m, i)),
        n == budget || !lacks_headers(after_pages(m, n)) || (n > 0 && exists|last: Model|
            after_pages(m, n) == (#[trigger] session::took_page(last)).0 && session::took_page(
                last,
            ).1 is None),
    decreases budget,
{
    assert(session::awaits_headers(m) == lacks_headers(m));
    if budget == 0 || !lacks_headers(m) {
        assert(after_pages(m, 0) == m);
        0
    } else {
        match session::took_page(m) {
            (after, None) => {
                assert(after_pages(m, 1) == after);
                assert(after_pages(m, 0) == m);
                assert(session::took_page(m).0 == after);
                1
            },
            (after, Some(page)) => {
                let done = process::processed(after, page).0;
                let k = collecting_goes_page_by_page(done, (budget - 1) as nat);
                assert(after_pages(m, (k + 1) as nat) == after_pages(done, k));
                assert forall|i: nat| i < k + 1 implies lacks_headers(
                    #[trigger] after_pages(m, i),
                ) by {
                    if i > 0 {
                        assert(after_pages(m, i) == after_pages(done, (i - 1) as nat));
                    }
                }
                k + 1
            },
        }
    }
}

/// Opening a file reads on behind its first pages until the headers of every
/// stream have come and the Skeleton has ended, unless the input ends or 8192
/// pages have been read. Then setup bytes and tags are taken from the headers.
pub proof fn opening_waits_for_headers(m: Model) -> (n: nat)
    requires
        session::opened(m).1 is None,
    ensures
        ({
            let first = session::bos_section(m).0;
            let last = after_pages(first, n);
            &&& n <= 8192
            &&& session::opened(m).0 == session::with_metadata(session::with_extradata(last))
            &&& forall|i: nat| i < n ==> lacks_headers(#[trigger] after_pages(first, i))
            &&& lacks_headers(last) && n < 8192 ==> exists|x: Model|
                last == (#[trigger] session::took_page(x)).0 && session::took_page(x).1 is None
        }),
{
    collecting_goes_page_by_page(session::bos_section(m).0, 8192)
}

// ---------------------------------------------------------------------------
// Setup bytes
// ---------------------------------------------------------------------------

/// The three headers of a Vorbis or Theora stream can be read out of its setup
/// bytes: a 2, the laced lengths of the first two, and the three.
pub proof fn laced_headers_can_be_read(id: Seq<char>, p: Seq<Seq<u8>>)
    requires
        id == "vorbis"@ || id == "theora"@,
        p.len() == 3,
    ensures
        ({
            let s = private::codec_private(id, p);
            &&& s.len() > 0 && s[0] == 2
            &&& match private::unlaced(s.skip(1)) {
                Some((n, x)) => n == p[0].len() && match private::unlaced(s.skip((1 + x) as int)) {
                    Some((k, y)) => k == p[1].len() && s.skip((1 + x + y) as int) == p[0] + p[1]
                        + p[2],
                    None => false,
                },
                None => false,
            }
        }),
{
    formats::names_are_apart();
    let s = private::codec_private(id, p);
    let x = private::laced_size(p[0].len());
    let y = private::laced_size(p[1].len());
    let rest = y + p[0] + p[1] + p[2];
    private::laced_sizes_can_be_read_back(p[0].len(), rest);
    private::laced_sizes_can_be_read_back(p[1].len(), p[0] + p[1] + p[2]);
    assert(s.skip(1) =~= x + rest);
    assert(s.skip(1 + x.len() as int) =~= y + (p[0] + p[1] + p[2]));
    assert(s.skip((1 + x.len() + y.len()) as int) =~= p[0] + p[1] + p[2]);
    assert(s[0] == 2);
}

/// The setup bytes of an Opus stream are its identification packet, and those
/// of a FLAC or Speex stream its headers one after the other.
pub proof fn other_headers_are_kept(a: Seq<u8>, b: Seq<u8>)
    ensures
        private::codec_private("opus"@, seq![a, b]) == a,
        private::codec_private("flac"@, seq![a, b]) == a + b,
        private::codec_private("speex"@, seq![a, b]) == a + b,
        private::codec_private("flac"@, seq![a]) == a,
{
    formats::names_are_apart();
    reveal_with_fuel(reassembly::flat, 3);
    let two = seq![a, b];
    let one = seq![a];
    assert(two.drop_last() =~= one);
    assert(one.drop_last() =~= Seq::<Seq<u8>>::empty());
    assert(reassembly::flat(one) =~= a);
    assert(reassembly::flat(two) =~= a + b);
}

// ---------------------------------------------------------------------------
// Tags
// ---------------------------------------------------------------------------

/// The tags that comments written for a vendor and pairs give.
pub open spec fn tags_for(vendor: Seq<char>, pairs: Seq<Tag>) -> Seq<Tag> {
    (if vendor.len() > 0 {
        seq![("vendor"@, vendor)]
    } else {
        Seq::empty()
    }) + pairs.map_values(|t: Tag| comment::in_small_letters(t))
}

/// The tags of a stream are the comments of its second header packet, behind
/// the magic that its codec puts before them; a FLAC stream has them in the
/// first metadata block of type 4 behind its first packet.
pub proof fn streams_tell_their_tags(
    vendor: Seq<char>,
    pairs: Seq<Tag>,
    rest: Seq<u8>,
    first: Seq<u8>,
    other: Seq<u8>,
    head: Seq<u8>,
)
    requires
        text::bytes_of(vendor).len() < 0x1_0000_0000,
        pairs.len() < 0x1_0000_0000,
        forall|i: int| 0 <= i < pairs.len() ==> comment::is_plain(#[trigger] pairs[i]),
        head.len() == 4,
        head[0] == 4 || head[0] == 0x84,
        other.len() > 0 ==> other[0] != 4 && other[0] != 0x84,
    ensures
        ({
            let body = comment::written(vendor, pairs) + rest;
            let told = tags_for(vendor, pairs);
            let vorbis = seq![0x03u8, 0x76, 0x6f, 0x72, 0x62, 0x69, 0x73] + body;
            let opus = seq![0x4fu8, 0x70, 0x75, 0x73, 0x54, 0x61, 0x67, 0x73] + body;
            let theora = seq![0x81u8, 0x74, 0x68, 0x65, 0x6f, 0x72, 0x61] + body;
            &&& comment::codec_tags("vorbis"@, seq![first, vorbis, other]) == told
            &&& comment::codec_tags("opus"@, seq![first, opus]) == told
            &&& comment::codec_tags("theora"@, seq![first, theora, other]) == told
            &&& comment::codec_tags("speex"@, seq![first, body]) == told
            &&& comment::codec_tags("flac"@, seq![first, head + body]) == told
            &&& comment::codec_tags("flac"@, seq![first, other, head + body]) == told
        }),
{
    comment::written_comments_come_back(vendor, pairs, rest);
    let body = comment::written(vendor, pairs) + rest;
    assert(body.len() >= 8);
    comments_follow_a_magic(body, first, other);
    comments_fill_a_block(body, first, other, head);
}

proof fn comments_follow_a_magic(body: Seq<u8>, first: Seq<u8>, other: Seq<u8>)
    requires
        body.len() > 0,
    ensures
        ({
            let vorbis = seq![0x03u8, 0x76, 0x6f, 0x72, 0x62, 0x69, 0x73] + body;
            let opus = seq![0x4fu8, 0x70, 0x75, 0x73, 0x54, 0x61, 0x67, 0x73] + body;
            let theora = seq![0x81u8, 0x74, 0x68, 0x65, 0x6f, 0x72, 0x61] + body;
            &&& comment::comment_body("vorbis"@, seq![first, vorbis, other]) == Some(body)
            &&& comment::comment_body("opus"@, seq![first, opus]) == Some(body)
            &&& comment::comment_body("theora"@, seq![first, theora, other]) == Some(body)
            &&& comment::comment_body("speex"@, seq![first, body]) == Some(body)
        }),
{
    formats::names_are_apart();
    let v = seq![0x03u8, 0x76, 0x6f, 0x72, 0x62, 0x69, 0x73];
    let o = seq![0x4fu8, 0x70, 0x75, 0x73, 0x54, 0x61, 0x67, 0x73];
    let t = seq![0x81u8, 0x74, 0x68, 0x65, 0x6f, 0x72, 0x61];
    assert((v + body).subrange(1, 7) =~= seq![0x76u8, 0x6f, 0x72, 0x62, 0x69, 0x73]);
    assert((v + body).skip(7) =~= body);
    assert((o + body).subrange(0, 8) =~= o);
    assert((o + body).skip(8) =~= body);
    assert((t + body).subrange(1, 7) =~= seq![0x74u8, 0x68, 0x65, 0x6f, 0x72, 0x61]);
    assert((t + body).skip(7) =~= body);
}

proof fn comments_fill_a_block(body: Seq<u8>, first: Seq<u8>, other: Seq<u8>, head: Seq<u8>)
    requires
        head.len() == 4,
        head[0] == 4 || head[0] == 0x84,
        other.len() > 0 ==> other[0] != 4 && other[0] != 0x84,
    ensures
        comment::comment_body("flac"@, seq![first, head + body]) == Some(body),
        comment::comment_body("flac"@, seq![first, other, head + body]) == Some(body),
{
    formats::names_are_apart();
    let f = head + body;
    assert(f.skip(4) =~= body);
    assert(f[0] == head[0]);
    reveal_with_fuel(comment::flac_comment, 3);
    let two = seq![first, f];
    let three = seq![first, other, f];
    assert(two[1] == f);
    assert(three[1] == other && three[2] == f);
    assert(comment::flac_comment(three, 2) == Some(body));
    if other.len() > 0 {
        assert(0 <= other[0] < 256);
        assert(other[0] % 128 != 4);
    }
}

// ---------------------------------------------------------------------------
// Message headers
// ---------------------------------------------------------------------------

/// A line `Name: value`.
pub open spec fn line_of(tag: Tag) -> Seq<u8> {
    text::bytes_of(tag.0).push(0x3a) + text::bytes_of(seq![' '] + tag.1)
}

/// Lines of `Name: value`, each ended by CR LF.
pub open spec fn lines_of(pairs: Seq<Tag>) -> Seq<u8>
    decreases pairs.len(),
{
    if pairs.len() == 0 {
        Seq::empty()
    } else {
        line_of(pairs[0]) + seq![0x0du8, 0x0a] + lines_of(pairs.skip(1))
    }
}

/// Whether a field can be told from its line: neither part is empty or has
/// white space around it, no colon stands in the name, and no CR in either.
pub open spec fn is_plain_field(tag: Tag) -> bool {
    &&& text::is_trim(tag.0)
    &&& text::is_trim(tag.1)
    &&& forall|i: int|
        0 <= i < tag.0.len() ==> (#[trigger] tag.0[i]) as u32 != 0x3a && tag.0[i] as u32 != 0x0d
    &&& forall|i: int| 0 <= i < tag.1.len() ==> (#[trigger] tag.1[i]) as u32 != 0x0d
}

proof fn line_ends_at_cr(a: Seq<u8>, rest: Seq<u8>)
    requires
        forall|i: int| 0 <= i < a.len() ==> (#[trigger] a[i]) != 0x0d,
    ensures
        message::line_len(a + seq![0x0du8, 0x0a] + rest) == a.len(),
    decreases a.len(),
{
    let s = a + seq![0x0du8, 0x0a] + rest;
    if a.len() > 0 {
        assert(s[0] == a[0]);
        let t = a.skip(1);
        assert forall|i: int| 0 <= i < t.len() implies (#[trigger] t[i]) != 0x0d by {
            assert(t[i] == a[i + 1]);
        }
        line_ends_at_cr(t, rest);
        assert(s.skip(1) =~= t + seq![0x0du8, 0x0a] + rest);
    } else {
        assert(s[0] == 0x0d && s[1] == 0x0a);
    }
}

proof fn field_comes_back(tag: Tag)
    requires
        is_plain_field(tag),
    ensures
        message::field_on(line_of(tag)) == seq![tag],
        forall|i: int| 0 <= i < line_of(tag).len() ==> (#[trigger] line_of(tag)[i]) != 0x0d,
{
    let name = text::bytes_of(tag.0);
    let spaced = seq![' '] + tag.1;
    let value = text::bytes_of(spaced);
    let line = line_of(tag);
    text::ascii_stands_for_itself(tag.0, 0x3a);
    text::ascii_stands_for_itself(tag.0, 0x0d);
    assert forall|i: int| 0 <= i < spaced.len() implies (#[trigger] spaced[i]) as u32
        != 0x0du8 as u32 by {
        if i > 0 {
            assert(spaced[i] == tag.1[i - 1]);
        } else {
            assert(spaced[0] == ' ');
            assert(' ' as u32 == 0x20);
        }
    }
    text::ascii_stands_for_itself(spaced, 0x0d);
    comment::first_is_behind(name, 0x3a, value);
    let c = name.len() as int;
    assert(line.subrange(0, c) =~= name);
    assert(line.subrange(c + 1, line.len() as int) =~= value);
    text::text_comes_back(tag.0);
    text::text_comes_back(spaced);
    assert(spaced.skip(1) =~= tag.1);
    assert(text::is_white(' ')) by {
        assert(' ' as u32 == 0x20);
    }
    assert(spaced[0] == ' ');
    assert(text::trimmed_start(tag.1) == tag.1);
    assert(text::trimmed_start(spaced) == tag.1);
    assert(text::trimmed_end(tag.1) == tag.1);
    assert(text::trimmed_start(tag.0) == tag.0);
    assert(text::trimmed_end(tag.0) == tag.0);
    assert forall|i: int| 0 <= i < line.len() implies (#[trigger] line[i]) != 0x0d by {
        if i < c {
            assert(line[i] == name[i]);
        } else if i > c {
            assert(line[i] == value[i - c - 1]);
        }
    }
}

/// Message header fields that are written as lines come back, in order.
pub proof fn fields_come_back(pairs: Seq<Tag>)
    requires
        forall|i: int| 0 <= i < pairs.len() ==> is_plain_field(#[trigger] pairs[i]),
    ensures
        message::fields(lines_of(pairs)) == pairs,
    decreases pairs.len(),
{
    if pairs.len() > 0 {
        let tag = pairs[0];
        let later = pairs.skip(1);
        let line = line_of(tag);
        let s = lines_of(pairs);
        assert forall|i: int| 0 <= i < later.len() implies is_plain_field(#[trigger] later[i]) by {
            assert(later[i] == pairs[i + 1]);
        }
        assert(is_plain_field(pairs[0]));
        field_comes_back(tag);
        line_ends_at_cr(line, lines_of(later));
        fields_come_back(later);
        assert(s.take(line.len() as int) =~= line);
        assert(s.skip(line.len() + 2int) =~= lines_of(later));
        assert(seq![tag] + later =~= pairs);
    } else {
        assert(pairs =~= Seq::empty());
    }
}

/// The message header fields of a track description come back. They begin
/// where it says, 8 bytes further on.
pub proof fn track_headers_come_back(s: Seq<u8>, start: int, pairs: Seq<Tag>)
    requires
        formats::stands(s, 0, seq![0x66u8, 0x69, 0x73, 0x62, 0x6f, 0x6e, 0x65, 0]),
        52 <= start <= s.len(),
        start - 8 < 0x1_0000_0000,
        formats::stands(s, 8, formats::le4(start - 8)),
        s.skip(start) == lines_of(pairs),
        forall|i: int| 0 <= i < pairs.len() ==> is_plain_field(#[trigger] pairs[i]),
    ensures
        skeleton::fisbone(s) is Some,
        (skeleton::fisbone(s)->0).headers == pairs,
{
    formats::magic_stands(s, seq![0x66u8, 0x69, 0x73, 0x62, 0x6f, 0x6e, 0x65, 0]);
    assert(skeleton::fisbone_magic() =~= seq![0x66u8, 0x69, 0x73, 0x62, 0x6f, 0x6e, 0x65, 0]);
    formats::four_come_back(s, 8, start - 8);
    fields_come_back(pairs);
}

/// The value of a field is that of the first with its name, whatever its
/// capitals.
pub proof fn first_fields_tell(all: Seq<Tag>, name: Seq<char>, i: int)
    requires
        0 <= i < all.len(),
        message::small(all[i].0) == message::small(name),
        forall|j: int| 0 <= j < i ==> message::small((#[trigger] all[j]).0) != message::small(name),
    ensures
        message::value_of(all, name) == Some(all[i].1),
    decreases all.len(),
{
    if i > 0 {
        assert(message::small(all[0].0) != message::small(name));
        let later = all.skip(1);
        assert forall|j: int| 0 <= j < i - 1 implies message::small((#[trigger] later[j]).0)
            != message::small(name) by {
            assert(message::small(all[j + 1].0) != message::small(name));
        }
        first_fields_tell(later, name, i - 1);
    }
}

// ---------------------------------------------------------------------------
// Tracks
// ---------------------------------------------------------------------------

/// Tracks and their serial numbers: the Skeleton is track 0 where there is
/// one, and the streams follow in order.
pub proof fn tracks_are_in_order(m: Model, i: int)
    requires
        m.wf(),
        0 <= i < m.states.len() < u32::MAX,
    ensures
        m.skel.skeleton is None ==> info::track_count(m) == m.states.len() && info::track_serial(
            m,
            i as u32,
        ) == Some(m.states[i].serial),
        m.skel.skeleton is Some ==> info::track_count(m) == m.states.len() + 1
            && info::track_serial(m, 0) == Some(m.skel.skeleton->0.serial) && info::track_serial(
            m,
            (i + 1) as u32,
        ) == Some(m.states[i].serial),
        info::stream_serial_of(m, i as u32) == Some(m.states[i].serial),
{
}

// ---------------------------------------------------------------------------
// Streams
// ---------------------------------------------------------------------------

/// A first page with an unknown serial number adds one stream behind those
/// that are known, in the present link, with its first packet as setup bytes.
/// Its codec is what the registry answered for that packet, and else what the
/// packet starts with. The streams known before stay as they are.
pub proof fn first_pages_add_a_stream(m: Model, page: PageView, first: Seq<u8>)
    requires
        m.streams.len() == m.states.len(),
        m.streams.len() < u32::MAX,
        reassembly::cut(page.lacing, page.data).first() == Some(first),
        !bytes::has_at(first, 0, seq![0x66u8, 0x69, 0x73, 0x68, 0x65, 0x61, 0x64, 0]),
        m.skeleton_serial() != Some(page.serial),
        register::registered(m, page).1 is None,
        ogm::parsed(first) is None,
    ensures
        ({
            let after = register::registered(m, page).0;
            let n = m.streams.len() as int;
            let stream = after.streams[n];
            let st = after.states[n];
            &&& after.streams.len() == n + 1
            &&& after.states.len() == n + 1
            &&& after.streams.take(n) == m.streams
            &&& after.states.take(n) == m.states
            &&& stream.index == n
            &&& stream.start_time == Some(0i64)
            &&& stream.params.extradata == first
            &&& st.serial == page.serial
            &&& st.bos_at == page.offset
            &&& st.link_index == m.link
            &&& st.header_packets.len() == 0
            &&& (forall|i: int|
                0 <= i < m.answers.len() ==> (#[trigger] m.answers[i]).0 != first)
                ==> stream.params.codec_id == codec_id::detected(first)
            &&& m.answers.len() > 0 && m.answers[0].0 == first ==> stream.params.codec_id
                == m.answers[0].1
            &&& stream.params.codec_id == "opus"@ && first.len() >= 12 ==> st.pre_skip == Some(
                bytes::le16(first, 10) as u16,
            )
        }),
{
    assert(skeleton::fishead_magic() =~= seq![0x66u8, 0x69, 0x73, 0x68, 0x65, 0x61, 0x64, 0]);
    let after = register::registered(m, page).0;
    let n = m.streams.len() as int;
    assert(after.streams.take(n) =~= m.streams);
    assert(after.states.take(n) =~= m.states);
    formats::names_are_apart();
    unanswered(m.answers, first);
}

proof fn unanswered(answers: Seq<demux::Answer>, first: Seq<u8>)
    ensures
        (forall|i: int| 0 <= i < answers.len() ==> (#[trigger] answers[i]).0 != first)
            ==> register::answer_for(answers, first) is None,
    decreases answers.len(),
{
    if answers.len() > 0 {
        let later = answers.skip(1);
        unanswered(later, first);
        if forall|i: int| 0 <= i < answers.len() ==> (#[trigger] answers[i]).0 != first {
            assert(answers[0].0 != first);
            assert forall|i: int| 0 <= i < later.len() implies (#[trigger] later[i]).0
                != first by {
                assert(answers[i + 1].0 != first);
            }
        }
    }
}

/// Once a file is open, every stream has told its tags: those of a stream that
/// had not are found in one piece behind those told before, and nothing told
/// is lost.
pub proof fn every_stream_tells_its_tags(m: Model, n: int, k: int)
    requires
        0 <= k < n <= m.streams.len(),
        m.streams.len() == m.states.len(),
    ensures
        ({
            let after = session::with_tags_of(m, n);
            let own = comment::codec_tags(m.streams[k].params.codec_id, m.states[k].header_packets);
            &&& m.tags.len() <= after.tags.len()
            &&& after.tags.take(m.tags.len() as int) == m.tags
            &&& after.streams == m.streams
            &&& after.states.len() == m.states.len()
            &&& !m.states[k].tagged ==> exists|at: int|
                m.tags.len() <= at && at + own.len() <= after.tags.len()
                    && #[trigger] after.tags.subrange(at, at + own.len()) == own
        }),
    decreases n,
{
    tags_grow(m, n - 1);
    tags_grow(m, n);
    let before = session::with_tags_of(m, n - 1);
    let after = session::with_tags_of(m, n);
    let own = comment::codec_tags(m.streams[k].params.codec_id, m.states[k].header_packets);
    if !m.states[k].tagged {
        if k < n - 1 {
            every_stream_tells_its_tags(m, n - 1, k);
            let at = choose|at: int|
                m.tags.len() <= at && at + own.len() <= before.tags.len()
                    && #[trigger] before.tags.subrange(at, at + own.len()) == own;
            assert(after.tags.subrange(at, at + own.len()) =~= before.tags.subrange(
                at,
                at + own.len(),
            ));
        } else {
            let at = before.tags.len() as int;
            assert(before.states[k] == m.states[k]);
            assert(after.tags == before.tags + own);
            assert(after.tags.subrange(at, at + own.len()) =~= own);
        }
    }
}

proof fn tags_grow(m: Model, n: int)
    requires
        0 <= n <= m.streams.len(),
        m.streams.len() == m.states.len(),
    ensures
        ({
            let after = session::with_tags_of(m, n);
            &&& m.tags.len() <= after.tags.len()
            &&& after.tags.take(m.tags.len() as int) == m.tags
            &&& after.streams == m.streams
            &&& after.states.len() == m.states.len()
            &&& forall|i: int| n <= i < m.states.len() ==> #[trigger] after.states[i] == m.states[i]
            &&& n > 0 ==> {
                let before = session::with_tags_of(m, n - 1);
                &&& before.tags.len() <= after.tags.len()
                &&& after.tags.take(before.tags.len() as int) == before.tags
            }
        }),
    decreases n,
{
    let after = session::with_tags_of(m, n);
    if n > 0 {
        tags_grow(m, n - 1);
        let before = session::with_tags_of(m, n - 1);
        assert(after.tags.take(before.tags.len() as int) =~= before.tags);
        assert(after.tags.take(m.tags.len() as int) =~= before.tags.take(m.tags.len() as int));
    } else {
        assert(after.tags.take(m.tags.len() as int) =~= m.tags);
    }
}

/// Once a file is open, the setup bytes of every stream are those that its
/// headers give, where they give any.
pub proof fn every_stream_has_its_setup_bytes(m: Model, k: int)
    requires
        0 <= k < m.streams.len(),
    ensures
        ({
            let stream = session::with_extradata(m).streams[k];
            let extra = private::codec_private(
                m.streams[k].params.codec_id,
                m.states[k].header_packets,
            );
            &&& extra.len() > 0 ==> stream.params.extradata == extra
            &&& extra.len() == 0 ==> stream.params.extradata == m.streams[k].params.extradata
            &&& stream.params.codec_id == m.streams[k].params.codec_id
            &&& stream.time_base == m.streams[k].time_base
        }),
{
}

/// Each track description and each keyframe index that a Skeleton packet holds
/// is added behind those known, and other packets add nothing.
pub proof fn skeletons_keep_what_they_are_told(
    sk: skeleton::SkeletonView,
    packets: Seq<Seq<u8>>,
    i: int,
)
    requires
        0 <= i < packets.len(),
    ensures
        ({
            let after = skeleton::with_packets(sk, packets);
            let p = packets[i];
            &&& formats::stands(p, 0, seq![0x66u8, 0x69, 0x73, 0x62, 0x6f, 0x6e, 0x65, 0])
                && p.len() >= 52 ==> exists|j: int|
                sk.bones.len() <= j < after.bones.len() && skeleton::fisbone(p) == Some(
                    #[trigger] after.bones[j],
                )
            &&& formats::stands(p, 0, seq![0x69u8, 0x6e, 0x64, 0x65, 0x78, 0])
                && skeleton::skel_index(p) is Some ==> exists|j: int|
                sk.indexes.len() <= j < after.indexes.len() && skeleton::skel_index(p) == Some(
                    #[trigger] after.indexes[j],
                )
            &&& after.serial == sk.serial
            &&& after.head == sk.head
            &&& after.bones.len() + after.indexes.len() <= sk.bones.len() + sk.indexes.len()
                + packets.len()
            &&& sk.bones.len() <= after.bones.len()
            &&& sk.indexes.len() <= after.indexes.len()
            &&& after.bones.take(sk.bones.len() as int) == sk.bones
            &&& after.indexes.take(sk.indexes.len() as int) == sk.indexes
        }),
    decreases packets.len(),
{
    let after = skeleton::with_packets(sk, packets);
    let init = packets.drop_last();
    let last = packets.last();
    let before = skeleton::with_packets(sk, init);
    let bone = seq![0x66u8, 0x69, 0x73, 0x62, 0x6f, 0x6e, 0x65, 0];
    let index = seq![0x69u8, 0x6e, 0x64, 0x65, 0x78, 0];
    assert(skeleton::fisbone_magic() =~= bone);
    assert(skeleton::index_magic() =~= index);
    if init.len() == 0 {
        assert(before == sk);
        assert(sk.bones.take(sk.bones.len() as int) =~= sk.bones);
        assert(sk.indexes.take(sk.indexes.len() as int) =~= sk.indexes);
    } else {
        skeletons_keep_what_they_are_told(
            sk,
            init,
            if i < init.len() {
                i
            } else {
                0
            },
        );
    }
    assert(after.bones.take(sk.bones.len() as int) =~= before.bones.take(sk.bones.len() as int));
    assert(after.indexes.take(sk.indexes.len() as int) =~= before.indexes.take(
        sk.indexes.len() as int,
    ));
    let p = packets[i];
    if i == init.len() {
        formats::magic_stands(p, bone);
        formats::magic_stands(p, index);
        if formats::stands(p, 0, index) {
            assert(p[0int + 0] == index[0]);
            if bytes::has_at(p, 0, bone) {
                assert(p.subrange(0, 8)[0] == bone[0]);
            }
        }
        if formats::stands(p, 0, bone) && p.len() >= 52 {
            let j = before.bones.len() as int;
            assert(skeleton::fisbone(p) == Some(after.bones[j]));
        }
        if formats::stands(p, 0, index) && skeleton::skel_index(p) is Some {
            let j = before.indexes.len() as int;
            assert(skeleton::skel_index(p) == Some(after.indexes[j]));
        }
    } else {
        assert(init[i] == p);
        if formats::stands(p, 0, bone) && p.len() >= 52 {
            let j = choose|j: int|
                sk.bones.len() <= j < before.bones.len() && skeleton::fisbone(p) == Some(
                    #[trigger] before.bones[j],
                );
            assert(after.bones[j] == before.bones[j]);
        }
        if formats::stands(p, 0, index) && skeleton::skel_index(p) is Some {
            let j = choose|j: int|
                sk.indexes.len() <= j < before.indexes.len() && skeleton::skel_index(p) == Some(
                    #[trigger] before.indexes[j],
                );
            assert(after.indexes[j] == before.indexes[j]);
        }
    }
}

/// With the page that brings the last header of a stream, its setup bytes are
/// what its headers give, and its tags are told unless they were; a page that
/// does not bring the last header changes neither.
pub proof fn last_headers_set_up_the_stream(m: Model, page: PageView, k: int)
    requires
        0 <= k < m.states.len(),
        m.streams.len() == m.states.len(),
    ensures
        ({
            let st = m.states[k];
            let after = process::content_page(m, page, k);
            let now = after.states[k];
            let id = m.streams[k].params.codec_id;
            let extra = private::codec_private(id, now.header_packets);
            let is_last = st.headers_remaining > 0 && now.headers_remaining == 0;
            &&& is_last && extra.len() > 0 ==> after.streams[k].params.extradata == extra
            &&& is_last && !st.tagged ==> after.tags == m.tags + comment::codec_tags(
                id,
                now.header_packets,
            )
            &&& !is_last ==> after.streams == m.streams && after.tags == m.tags
            &&& now.header_packets.len() - st.header_packets.len() == st.headers_remaining
                - now.headers_remaining
        }),
{
}

// ---------------------------------------------------------------------------
// Comments that are not plain
// ---------------------------------------------------------------------------

/// Entries, each behind its length.
pub open spec fn entries_written(entries: Seq<Seq<u8>>) -> Seq<u8>
    decreases entries.len(),
{
    if entries.len() == 0 {
        Seq::empty()
    } else {
        comment::sized(entries[0]) + entries_written(entries.skip(1))
    }
}

/// What each entry of a list of comments tells, one after the other.
pub open spec fn entries_told(entries: Seq<Seq<u8>>) -> Seq<Tag>
    decreases entries.len(),
{
    if entries.len() == 0 {
        Seq::empty()
    } else {
        comment::comment_tag(entries[0]) + entries_told(entries.skip(1))
    }
}

/// Whether no whole entry stands in `s` at `off`.
pub open spec fn is_cut_short(s: Seq<u8>, off: int) -> bool {
    off + 4 > s.len() || off + 4 + bytes::le32(s, off) > s.len()
}

/// Every entry of a list of comments tells its tag whatever the others hold:
/// one that holds none does not disturb the rest. Where the list is cut short,
/// the entries before are told all the same.
pub proof fn every_entry_is_told(s: Seq<u8>, off: int, entries: Seq<Seq<u8>>, n: int)
    requires
        0 <= off,
        formats::stands(s, off, entries_written(entries)),
        forall|i: int| 0 <= i < entries.len() ==> (#[trigger] entries[i]).len() < 0x1_0000_0000,
        n == entries.len() || (n > entries.len() && is_cut_short(
            s,
            off + entries_written(entries).len(),
        )),
    ensures
        comment::comment_list(s, off, n) == entries_told(entries),
    decreases entries.len(),
{
    let all = entries_written(entries);
    if entries.len() > 0 {
        let e = entries[0];
        let later = entries.skip(1);
        let head = formats::le4(e.len() as int);
        assert(comment::le32_bytes(e.len() as int) =~= head);
        let rest = entries_written(later);
        assert(all == (head + e) + rest);
        assert(e.len() < 0x1_0000_0000) by {
            assert(entries[0].len() < 0x1_0000_0000);
        }
        assert(formats::stands(s, off, head)) by {
            assert forall|i: int| 0 <= i < 4 implies #[trigger] s[off + i] == head[i] by {
                assert(all[i] == head[i]);
            }
        }
        formats::four_come_back(s, off, e.len() as int);
        let end = off + 4 + e.len();
        assert(s.subrange(off + 4, end) =~= e) by {
            assert forall|i: int| 0 <= i < e.len() implies s[off + 4 + i] == e[i] by {
                assert(s[off + (4 + i)] == all[4 + i]);
            }
        }
        assert(formats::stands(s, end, rest)) by {
            assert forall|i: int| 0 <= i < rest.len() implies #[trigger] s[end + i] == rest[i] by {
                assert(s[off + (4 + e.len() + i)] == all[4 + e.len() + i]);
            }
        }
        assert forall|i: int| 0 <= i < later.len() implies (#[trigger] later[i]).len()
            < 0x1_0000_0000 by {
            assert(later[i] == entries[i + 1]);
        }
        assert(off + all.len() == end + rest.len());
        every_entry_is_told(s, end, later, n - 1);
    }
}

/// An entry tells a tag exactly when it has an `=` with something but white
/// space on either side of the first one: the name in small letters, and the
/// value, both without white space around them.
pub proof fn entries_tell_what_is_around_the_sign(entry: Seq<u8>, at: int)
    requires
        0 <= at < entry.len(),
        entry[at] == 0x3d,
        forall|i: int| 0 <= i < at ==> #[trigger] entry[i] != 0x3d,
    ensures
        ({
            let name = text::trimmed(
                text::text_of(entry.take(at)).map_values(|c: char| text::lower(c)),
            );
            let value = text::trimmed(text::text_of(entry.skip(at + 1)));
            comment::comment_tag(entry) == if name.len() > 0 && value.len() > 0 {
                seq![(name, value)]
            } else {
                Seq::empty()
            }
        }),
{
    let a = entry.take(at);
    let rest = entry.skip(at + 1);
    assert(entry =~= a.push(0x3d) + rest);
    comment::first_is_behind(a, 0x3d, rest);
    assert(entry.subrange(0, at) =~= a);
    assert(entry.subrange(at + 1, entry.len() as int) =~= rest);
}

/// An entry without `=` tells nothing.
pub proof fn entries_without_a_sign_tell_nothing(entry: Seq<u8>)
    requires
        forall|i: int| 0 <= i < entry.len() ==> #[trigger] entry[i] != 0x3d,
    ensures
        comment::comment_tag(entry).len() == 0,
{
    nowhere_is_none(entry, 0x3d);
}

proof fn nowhere_is_none(s: Seq<u8>, b: u8)
    requires
        forall|i: int| 0 <= i < s.len() ==> #[trigger] s[i] != b,
    ensures
        comment::first_of(s, b) is None,
    decreases s.len(),
{
    if s.len() > 0 {
        let t = s.skip(1);
        assert forall|i: int| 0 <= i < t.len() implies #[trigger] t[i] != b by {
            assert(t[i] == s[i + 1]);
        }
        nowhere_is_none(t, b);
    }
}

// ---------------------------------------------------------------------------
// The Skeleton's pages
// ---------------------------------------------------------------------------

/// The packets that a page completes, with `pending` before it.
pub open spec fn completed(pending: Seq<u8>, page: PageView) -> Seq<Seq<u8>> {
    let own = reassembly::ended(page.lacing, page.data);
    if page.is_continued() && own.len() > 0 {
        seq![pending + own[0]] + own.skip(1)
    } else {
        own
    }
}

/// A page of the Skeleton in its place is taken in: every packet that it
/// completes is added to what is known, those that began on pages before it
/// with all their bytes. Streams and damage stay as they are.
pub proof fn skeleton_pages_are_taken_in(m: Model, page: PageView, sk: skeleton::SkeletonView)
    requires
        page.wf(),
        m.skel.skeleton == Some(sk),
        !m.skel.adrift,
        page.is_first() || m.skel.last_seq is None || page.seq_no == faults::next_number(
            m.skel.last_seq->0,
        ),
        page.is_continued() <==> m.skel.pending.len() > 0,
        forall|i: int|
            0 <= i < m.skel.taken.len() ==> (#[trigger] m.skel.taken[i]).0 != page.offset,
    ensures
        ({
            let after = process::skeleton_page(m, page);
            &&& after.skel.skeleton == Some(
                skeleton::with_packets(sk, completed(m.skel.pending, page)),
            )
            &&& after.ledger == m.ledger
            &&& after.streams == m.streams
            &&& after.states == m.states
            &&& after.out_queue == m.out_queue
            &&& page.is_last() ==> after.skel.ended
        }),
{
    none_taken(m.skel.taken, page.offset);
    let packets = process::skeleton_join(m.skel, page).0;
    assert(packets =~= completed(m.skel.pending, page));
    assert(packets.take(packets.len() as int) =~= packets);
    if packets.len() == 0 {
        assert(packets =~= Seq::<Seq<u8>>::empty());
    }
}

proof fn none_taken(taken: Seq<(u64, usize)>, off: u64)
    requires
        forall|i: int| 0 <= i < taken.len() ==> (#[trigger] taken[i]).0 != off,
    ensures
        process::taken_at(taken, off) == 0,
    decreases taken.len(),
{
    if taken.len() > 0 {
        assert(taken[taken.len() - 1].0 != off);
        let init = taken.drop_last();
        assert forall|i: int| 0 <= i < init.len() implies (#[trigger] init[i]).0 != off by {
            assert(taken[i].0 != off);
        }
        none_taken(init, off);
    }
}

/// The first Skeleton identification packet starts the Skeleton, with nothing
/// described yet; it adds no stream. One that is too short is an error.
pub proof fn skeletons_begin_with_their_head(m: Model, page: PageView, first: Seq<u8>)
    requires
        reassembly::cut(page.lacing, page.data).first() == Some(first),
        formats::stands(first, 0, seq![0x66u8, 0x69, 0x73, 0x68, 0x65, 0x61, 0x64, 0]),
        m.skel.skeleton is None,
    ensures
        ({
            let (after, fault) = register::registered(m, page);
            &&& after.streams == m.streams
            &&& after.states == m.states
            &&& skeleton::fishead(first) matches Some(h) ==> fault is None
                && after.skel.skeleton == Some(
                skeleton::SkeletonView {
                    serial: page.serial,
                    head: h,
                    bones: Seq::empty(),
                    indexes: Seq::empty(),
                },
            )
            &&& first.len() < 64 ==> fault == Some(Error::SkeletonHeaderTooShort)
        }),
{
    let magic = seq![0x66u8, 0x69, 0x73, 0x68, 0x65, 0x61, 0x64, 0];
    formats::magic_stands(first, magic);
    assert(skeleton::fishead_magic() =~= magic);
}

// ---------------------------------------------------------------------------
// What cannot be opened, and reading on
// ---------------------------------------------------------------------------

/// Identification packets that cannot be used, and why.
pub proof fn unusable_packets_are_refused(s: Seq<u8>, n: u32)
    ensures
        s.len() < 30 ==> ident::ident_fault("vorbis"@, s) == Some(Error::VorbisHeaderTooShort),
        s.len() >= 30 && formats::stands(s, 7, formats::le4(n as int)) && n != 0
            ==> ident::ident_fault("vorbis"@, s) == Some(Error::VorbisVersion(n)),
        s.len() >= 30 && formats::stands(s, 7, formats::le4(0)) && (s[11] == 0
            || formats::stands(s, 12, formats::le4(0))) ==> ident::ident_fault("vorbis"@, s)
            == Some(Error::VorbisZeroChannelsOrRate),
        s.len() < 19 ==> ident::ident_fault("opus"@, s) == Some(Error::OpusHeaderTooShort),
        s.len() < 52 ==> ident::ident_fault("speex"@, s) == Some(Error::SpeexHeaderTooShort),
        s.len() >= 52 && formats::stands(s, 36, formats::le4(0)) ==> ident::ident_fault(
            "speex"@,
            s,
        ) == Some(Error::SpeexZeroRate),
        ident::ident_fault("flac"@, s) is None,
        ident::ident_fault("theora"@, s) is None,
        ident::ident_fault("unknown"@, s) is None,
{
    formats::names_are_apart();
    if formats::stands(s, 7, formats::le4(n as int)) {
        formats::four_come_back(s, 7, n as int);
    }
    if formats::stands(s, 7, formats::le4(0)) {
        formats::four_come_back(s, 7, 0);
    }
    if formats::stands(s, 12, formats::le4(0)) {
        formats::four_come_back(s, 12, 0);
    }
    if formats::stands(s, 36, formats::le4(0)) {
        formats::four_come_back(s, 36, 0);
    }
}

/// An input without a page cannot be opened, nor one whose first page begins
/// no stream, nor one whose first page begins one without a packet.
pub proof fn inputs_without_streams_are_refused(m: Model)
    requires
        m.input.len() <= usize::MAX,
        m.streams.len() == 0,
        m.states.len() == 0,
    ensures
        reader::after_read(m).1 is None ==> session::opened(m).1 == Some(Error::NoLogicalStreams),
        reader::after_read(m).1 matches Some(page) && !page.is_first() ==> session::opened(m).1
            == Some(Error::NoLogicalStreams),
        reader::after_read(m).1 matches Some(page) && page.is_first() && page.lacing.len() == 0
            ==> session::opened(m).1 == Some(Error::BosPageWithoutPackets),
{
    reader::reading_advances(m);
    let after = reader::after_read(m).0;
    assert(after.streams == m.streams && after.states == m.states);
    if let Some(page) = reader::after_read(m).1 {
        demux::slot_holds(after.states, page.serial);
        assert(!after.knows(page.serial));
        if page.lacing.len() == 0 {
            assert(reassembly::cut(page.lacing, page.data).first() is None);
        }
    }
}

/// Packets that wait are delivered first, in order, and nothing else changes;
/// where none waits and no page is left, reading is at its end.
pub proof fn waiting_packets_come_first(m: Model)
    requires
        m.wf(),
    ensures
        m.out_queue.len() > 0 ==> session::delivered(m) == (
            Model { out_queue: m.out_queue.skip(1), ..m },
            Ok::<PacketView, Error>(m.out_queue[0]),
        ),
        m.out_queue.len() == 0 && m.page_queue.len() == 0 && reader::after_read(m).1 is None
            ==> session::delivered(m).1 == Err::<PacketView, Error>(Error::Eof),
{
}

} // verus!
