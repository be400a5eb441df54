//! Packets out of pages: cutting a page body at its segment table, and
//! joining what runs across page boundaries.
use crate::page;
use crate::page::{Page, PageView};
use vstd::prelude::*;
use vstd::slice::{slice_subrange, slice_to_vec};

verus! {

/// The contents of a list of byte strings.
pub open spec fn contents(v: Seq<Vec<u8>>) -> Seq<Seq<u8>> {
    Seq::new(v.len(), |i: int| v[i]@)
}

/// Whether the last packet of a segment table goes on: a lacing value of 255
/// ends no packet.
pub open spec fn is_open(lacing: Seq<u8>) -> bool {
    lacing.len() > 0 && lacing.last() == 255
}

/// Where the packet that goes on begins; the end of the body if none does.
pub open spec fn open_start(lacing: Seq<u8>) -> int
    decreases lacing.len(),
{
    if is_open(lacing) {
        open_start(lacing.drop_last())
    } else {
        page::body_len(lacing)
    }
}

/// The packets that end inside a body: each lacing value below 255 ends one.
pub open spec fn ended(lacing: Seq<u8>, data: Seq<u8>) -> Seq<Seq<u8>>
    decreases lacing.len(),
{
    if lacing.len() == 0 {
        Seq::empty()
    } else if lacing.last() == 255 {
        ended(lacing.drop_last(), data)
    } else {
        ended(lacing.drop_last(), data).push(
            data.subrange(open_start(lacing.drop_last()), page::body_len(lacing)),
        )
    }
}

/// The bytes of the packet that goes on past the body.
pub open spec fn open_bytes(lacing: Seq<u8>, data: Seq<u8>) -> Seq<u8> {
    data.subrange(open_start(lacing), page::body_len(lacing))
}

/// What a page contributes: the packets that end on it, and the bytes of one
/// that does not.
#[verifier::ext_equal]
pub struct Cut {
    pub ended: Seq<Seq<u8>>,
    pub open: Option<Seq<u8>>,
}

/// A body cut at its segment table.
pub open spec fn cut(lacing: Seq<u8>, data: Seq<u8>) -> Cut {
    Cut {
        ended: ended(lacing, data),
        open: if is_open(lacing) {
            Some(open_bytes(lacing, data))
        } else {
            None
        },
    }
}

impl Cut {
    /// The first packet of the page, ended or not.
    pub open spec fn first(self) -> Option<Seq<u8>> {
        if self.ended.len() > 0 {
            Some(self.ended[0])
        } else {
            self.open
        }
    }
}

/// A partly received packet. `valid` says that `pending` is the true
/// beginning of a packet that the next page may continue; `unknown`, that it
/// is not known whether a packet is open, as after a jump.
#[verifier::ext_equal]
pub struct Partial {
    pub pending: Seq<u8>,
    pub valid: bool,
    pub unknown: bool,
}

/// Nothing is pending.
pub open spec fn nothing() -> Partial {
    Partial { pending: Seq::empty(), valid: false, unknown: false }
}

/// Nothing is known of what is pending.
pub open spec fn anything() -> Partial {
    Partial { pending: Seq::empty(), valid: false, unknown: true }
}

/// One page joined to what was pending: the packets that are now whole, and
/// what is pending after it.
///
/// A continued page adds its first piece to a valid beginning; without one
/// that piece is dropped. Any other page starts afresh, and a page without
/// segments changes nothing. Once a packet has begun or ended, it is known
/// whether one is open.
pub open spec fn join(p: Partial, continued: bool, c: Cut) -> (Seq<Seq<u8>>, Partial) {
    let fresh = match c.open {
        Some(bytes) => Partial { pending: bytes, valid: true, unknown: false },
        None => nothing(),
    };
    if c.first() is None {
        (Seq::empty(), p)
    } else if !continued {
        (c.ended, fresh)
    } else if c.ended.len() > 0 {
        if p.valid {
            (seq![p.pending + c.ended[0]] + c.ended.skip(1), fresh)
        } else {
            (c.ended.skip(1), fresh)
        }
    } else if p.valid {
        (Seq::empty(), Partial { pending: p.pending + c.open->0, valid: true, unknown: false })
    } else {
        (Seq::empty(), Partial { unknown: p.unknown, ..nothing() })
    }
}

/// What a page says about the run of pages it belongs to.
#[derive(Clone, Copy, Debug, PartialEq, Eq, Structural)]
pub enum Continuity {
    /// In sequence, and its `continued` bit agrees with what is pending.
    Clean,
    /// One or more pages before it are missing.
    Hole,
    /// In sequence, but its `continued` bit contradicts what is pending.
    Framing,
}

/// Whether a page leaves a gap after the last page of its stream. The
/// sequence number goes up by one, modulo 2^32; a beginning-of-stream page
/// restarts it.
pub open spec fn leaves_gap(last_seq: Option<u32>, page: PageView) -> bool {
    !page.is_first() && last_seq is Some && page.seq_no != (last_seq->0).wrapping_add(1)
}

/// How a page fits the state of its stream. Where it is not known whether a
/// packet is open, a `continued` bit contradicts nothing.
pub open spec fn continuity(last_seq: Option<u32>, p: Partial, page: PageView) -> Continuity {
    if leaves_gap(last_seq, page) {
        Continuity::Hole
    } else if !page.is_first() && !p.unknown && page.is_continued() != (p.valid
        && p.pending.len() > 0) {
        Continuity::Framing
    } else {
        Continuity::Clean
    }
}

/// What is pending once a gap has been noticed: nothing survives one.
pub open spec fn after_check(p: Partial, c: Continuity) -> Partial {
    if c is Hole {
        nothing()
    } else {
        p
    }
}

// ---------------------------------------------------------------------------
// Facts about cutting
// ---------------------------------------------------------------------------

pub proof fn open_start_bounds(lacing: Seq<u8>)
    ensures
        0 <= open_start(lacing) <= page::body_len(lacing),
        !is_open(lacing) ==> open_start(lacing) == page::body_len(lacing),
    decreases lacing.len(),
{
    page::body_len_nonneg(lacing);
    if is_open(lacing) {
        open_start_bounds(lacing.drop_last());
    }
}

/// Packets that end early in a body depend only on the early part of it.
proof fn ended_of_prefix(lacing: Seq<u8>, data: Seq<u8>, more: Seq<u8>)
    requires
        data.len() == page::body_len(lacing),
    ensures
        ended(lacing, data + more) =~= ended(lacing, data),
        open_bytes(lacing, data + more) =~= open_bytes(lacing, data),
    decreases lacing.len(),
{
    open_start_bounds(lacing);
    if lacing.len() > 0 {
        let l = lacing.drop_last();
        open_start_bounds(l);
        let d = data.subrange(0, page::body_len(l));
        page::body_len_nonneg(l);
        let m = data.subrange(page::body_len(l), data.len() as int);
        assert(data =~= d + m);
        assert(data + more =~= d + (m + more));
        ended_of_prefix(l, d, m);
        ended_of_prefix(l, d, m + more);
        if lacing.last() != 255 {
            assert((data + more).subrange(open_start(l), page::body_len(lacing))
                =~= data.subrange(open_start(l), page::body_len(lacing)));
        }
    }
}

/// Two bodies laid end to end are cut as one: only the packet that runs
/// across the boundary is joined.
pub proof fn cutting_a_concatenation(l1: Seq<u8>, d1: Seq<u8>, l2: Seq<u8>, d2: Seq<u8>)
    requires
        d1.len() == page::body_len(l1),
        d2.len() == page::body_len(l2),
    ensures
        ended(l2, d2).len() == 0 ==> ended(l1 + l2, d1 + d2) == ended(l1, d1),
        ended(l2, d2).len() > 0 ==> ended(l1 + l2, d1 + d2) == ended(l1, d1) + seq![
            open_bytes(l1, d1) + ended(l2, d2)[0],
        ] + ended(l2, d2).skip(1),
        ended(l2, d2).len() == 0 ==> open_bytes(l1 + l2, d1 + d2) == open_bytes(l1, d1)
            + open_bytes(l2, d2),
        ended(l2, d2).len() > 0 ==> open_bytes(l1 + l2, d1 + d2) == open_bytes(l2, d2),
        ended(l2, d2).len() == 0 ==> open_start(l1 + l2) == open_start(l1) && open_start(l2) == 0,
        ended(l2, d2).len() > 0 ==> open_start(l1 + l2) == page::body_len(l1) + open_start(l2),
        is_open(l1 + l2) == (if l2.len() == 0 {
            is_open(l1)
        } else {
            is_open(l2)
        }),
    decreases l2.len(),
{
    open_start_bounds(l1);
    open_start_bounds(l2);
    page::body_len_concat(l1, l2);
    if l2.len() == 0 {
        assert(l1 + l2 =~= l1);
        ended_of_prefix(l1, d1, d2);
        assert(open_bytes(l1, d1) + open_bytes(l2, d2) =~= open_bytes(l1, d1));
    } else {
        let l = l2.drop_last();
        open_start_bounds(l);
        let n = page::body_len(l);
        let d = d2.subrange(0, n);
        let m = d2.subrange(n, d2.len() as int);
        assert(d2 =~= d + m);
        cutting_a_concatenation(l1, d1, l, d);
        page::body_len_concat(l1, l);
        assert((l1 + l2).drop_last() =~= l1 + l);
        assert((l1 + l2).last() == l2.last());
        assert(d1 + d2 =~= (d1 + d) + m);
        ended_of_prefix(l1 + l, d1 + d, m);
        ended_of_prefix(l, d, m);
        let whole = d1 + d2;
        if l2.last() == 255 {
            if ended(l2, d2).len() == 0 {
                assert(open_bytes(l1 + l2, whole) =~= open_bytes(l1, d1) + open_bytes(l2, d2));
            } else {
                assert(open_bytes(l1 + l2, whole) =~= open_bytes(l2, d2));
            }
        } else {
            let last = d2.subrange(open_start(l), page::body_len(l2));
            let joined = whole.subrange(open_start(l1 + l), page::body_len(l1 + l2));
            assert(ended(l2, d2) == ended(l, d).push(last));
            assert(ended(l1 + l2, whole) == ended(l1 + l, d1 + d).push(joined));
            if ended(l, d).len() == 0 {
                assert(joined =~= open_bytes(l1, d1) + last);
                assert(ended(l2, d2).skip(1) =~= Seq::<Seq<u8>>::empty());
                assert(ended(l2, d2)[0] == last);
                assert(ended(l1 + l2, whole) =~= ended(l1, d1) + seq![
                    open_bytes(l1, d1) + ended(l2, d2)[0],
                ] + ended(l2, d2).skip(1));
            } else {
                assert(joined =~= last);
                assert(ended(l2, d2).skip(1) =~= ended(l, d).skip(1).push(last));
                assert(ended(l1 + l2, whole) =~= ended(l1, d1) + seq![
                    open_bytes(l1, d1) + ended(l2, d2)[0],
                ] + ended(l2, d2).skip(1));
            }
            assert(open_bytes(l1 + l2, whole) =~= open_bytes(l2, d2));
        }
    }
}

// ---------------------------------------------------------------------------
// Runs of pages
// ---------------------------------------------------------------------------

/// Segment tables of a run of pages, one after the other.
pub open spec fn all_lacing(pages: Seq<PageView>) -> Seq<u8>
    decreases pages.len(),
{
    if pages.len() == 0 {
        Seq::empty()
    } else {
        all_lacing(pages.drop_last()) + pages.last().lacing
    }
}

/// Bodies of a run of pages, one after the other.
pub open spec fn all_data(pages: Seq<PageView>) -> Seq<u8>
    decreases pages.len(),
{
    if pages.len() == 0 {
        Seq::empty()
    } else {
        all_data(pages.drop_last()) + pages.last().data
    }
}

/// The packets that a run of pages yields page by page, and what is pending
/// after it, starting with nothing pending.
pub open spec fn joined(pages: Seq<PageView>) -> (Seq<Seq<u8>>, Partial)
    decreases pages.len(),
{
    if pages.len() == 0 {
        (Seq::empty(), nothing())
    } else {
        let (done, p) = joined(pages.drop_last());
        let page = pages.last();
        let (more, q) = join(p, page.is_continued(), cut(page.lacing, page.data));
        (done + more, q)
    }
}

/// A run as an encoder writes it: every page is well-formed, and is marked as
/// continued exactly when the pages before it left a packet open.
pub open spec fn is_clean_run(pages: Seq<PageView>) -> bool {
    forall|i: int|
        0 <= i < pages.len() ==> (#[trigger] pages[i]).wf() && pages[i].is_continued() == is_open(
            all_lacing(pages.take(i)),
        )
}

/// A clean run without its last page is one.
pub proof fn clean_runs_are_closed(pages: Seq<PageView>)
    requires
        is_clean_run(pages),
        pages.len() > 0,
    ensures
        is_clean_run(pages.drop_last()),
        pages.last().wf(),
        pages.last().is_continued() == is_open(all_lacing(pages.drop_last())),
{
    let init = pages.drop_last();
    assert forall|i: int| 0 <= i < init.len() implies (#[trigger] init[i]).wf()
        && init[i].is_continued() == is_open(all_lacing(init.take(i))) by {
        assert(pages[i].wf());
        assert(init.take(i) =~= pages.take(i));
    }
    assert(pages[pages.len() - 1].wf());
    assert(pages.take(pages.len() - 1) =~= init);
}

/// Where page boundaries fall does not matter: a clean run of pages yields
/// exactly the packets of its segment tables and bodies laid end to end, and
/// leaves pending exactly the bytes of the packet that is still open.
pub proof fn page_boundaries_do_not_matter(pages: Seq<PageView>)
    requires
        is_clean_run(pages),
    ensures
        all_data(pages).len() == page::body_len(all_lacing(pages)),
        joined(pages).0 == ended(all_lacing(pages), all_data(pages)),
        joined(pages).1.pending == open_bytes(all_lacing(pages), all_data(pages)),
        joined(pages).1.valid == is_open(all_lacing(pages)),
        !joined(pages).1.unknown,
    decreases pages.len(),
{
    if pages.len() == 0 {
        assert(open_bytes(all_lacing(pages), all_data(pages)) =~= Seq::<u8>::empty());
    } else {
        let init = pages.drop_last();
        let page = pages.last();
        clean_runs_are_closed(pages);
        page_boundaries_do_not_matter(init);
        let l1 = all_lacing(init);
        let d1 = all_data(init);
        page::body_len_concat(l1, page.lacing);
        cutting_a_concatenation(l1, d1, page.lacing, page.data);
        open_start_bounds(l1);
        open_start_bounds(page.lacing);
        let c = cut(page.lacing, page.data);
        let (done, p) = joined(init);
        assert(page.is_continued() == p.valid);
        nonempty_table_has_a_first_packet(page.lacing, page.data);
        if page.lacing.len() == 0 {
            assert(l1 + page.lacing =~= l1);
            assert(done + Seq::<Seq<u8>>::empty() =~= done);
            assert(open_bytes(page.lacing, page.data) =~= Seq::<u8>::empty());
            assert(p.pending + Seq::<u8>::empty() =~= p.pending);
        } else if !page.is_continued() {
            assert(p.pending =~= Seq::<u8>::empty());
            if c.ended.len() > 0 {
                assert(p.pending + c.ended[0] =~= c.ended[0]);
                assert(seq![c.ended[0]] + c.ended.skip(1) =~= c.ended);
            } else {
                assert(c.ended =~= Seq::<Seq<u8>>::empty());
                assert(done + c.ended =~= done);
                assert(p.pending + c.open->0 =~= c.open->0);
            }
        } else {
            assert(done + Seq::<Seq<u8>>::empty() =~= done);
        }
        if !is_open(page.lacing) {
            assert(open_bytes(page.lacing, page.data) =~= Seq::<u8>::empty());
        }
        assert(joined(pages).0 =~= ended(all_lacing(pages), all_data(pages)));
    }
}

/// A page with segments has a first packet, ended or not.
pub proof fn nonempty_table_has_a_first_packet(lacing: Seq<u8>, data: Seq<u8>)
    ensures
        lacing.len() > 0 ==> cut(lacing, data).first() is Some,
        lacing.len() == 0 ==> cut(lacing, data).first() is None,
        ended(lacing, data).len() <= lacing.len(),
    decreases lacing.len(),
{
    if lacing.len() > 0 {
        nonempty_table_has_a_first_packet(lacing.drop_last(), data);
    }
}

/// All bytes of a list of packets, one after the other.
pub open spec fn flat(packets: Seq<Seq<u8>>) -> Seq<u8>
    decreases packets.len(),
{
    if packets.len() == 0 {
        Seq::empty()
    } else {
        flat(packets.drop_last()) + packets.last()
    }
}

/// Cutting loses nothing and invents nothing: the packets that end, followed
/// by the open bytes, are the body.
pub proof fn cutting_keeps_every_byte(lacing: Seq<u8>, data: Seq<u8>)
    requires
        data.len() == page::body_len(lacing),
    ensures
        flat(ended(lacing, data)) + open_bytes(lacing, data) == data,
    decreases lacing.len(),
{
    open_start_bounds(lacing);
    if lacing.len() == 0 {
        assert(flat(ended(lacing, data)) + open_bytes(lacing, data) =~= data);
    } else {
        let l = lacing.drop_last();
        open_start_bounds(l);
        let n = page::body_len(l);
        let d = data.subrange(0, n);
        let m = data.subrange(n, data.len() as int);
        assert(data =~= d + m);
        cutting_keeps_every_byte(l, d);
        ended_of_prefix(l, d, m);
        let head = flat(ended(l, d));
        assert(head.len() == open_start(l));
        assert(head =~= data.subrange(0, open_start(l)));
        if lacing.last() == 255 {
            assert(head + open_bytes(lacing, data) =~= data);
        } else {
            let last = data.subrange(open_start(l), page::body_len(lacing));
            let all = ended(lacing, data);
            assert(all.drop_last() =~= ended(l, d));
            assert(flat(all) =~= head + last);
            assert(flat(all) + open_bytes(lacing, data) =~= data);
        }
    }
}

// ---------------------------------------------------------------------------
// Executable side
// ---------------------------------------------------------------------------

/// A page body cut at its segment table.
pub struct PagePackets {
    /// Packets that end on the page.
    pub ended: Vec<Vec<u8>>,
    /// Bytes of a packet that does not.
    pub open: Option<Vec<u8>>,
}

impl View for PagePackets {
    type V = Cut;

    open spec fn view(&self) -> Cut {
        Cut {
            ended: contents(self.ended@),
            open: match self.open {
                Some(v) => Some(v@),
                None => None,
            },
        }
    }
}

/// Cut the body of `page` at its segment table.
pub fn cut_page(page: &Page) -> (r: PagePackets)
    requires
        page@.wf(),
    ensures
        r@ == cut(page@.lacing, page@.data),
        r.ended@.len() <= 255,
{
    let mut ended_here: Vec<Vec<u8>> = Vec::new();
    let mut start: usize = 0;
    let mut pos: usize = 0;
    let mut i: usize = 0;
    let n: usize = page.lacing.len();
    let ghost lacing = page.lacing@;
    proof {
        page::body_len_nonneg(lacing);
        assert(lacing.subrange(0, 0) =~= Seq::<u8>::empty());
    }
    while i < n
        invariant
            i <= n,
            n == lacing.len(),
            lacing == page.lacing@,
            page@.wf(),
            start == open_start(lacing.subrange(0, i as int)),
            pos == page::body_len(lacing.subrange(0, i as int)),
            start <= pos <= page.data@.len() <= 65025,
            contents(ended_here@) == ended(lacing.subrange(0, i as int), page.data@),
            ended_here@.len() <= i,
        decreases n - i,
    {
        let ghost before = lacing.subrange(0, i as int);
        let ghost after = lacing.subrange(0, i + 1);
        let ghost had = ended_here@;
        proof {
            assert(after.drop_last() =~= before);
            let rest = lacing.subrange(i + 1, n as int);
            assert(lacing =~= after + rest);
            page::body_len_concat(after, rest);
            page::body_len_nonneg(rest);
            open_start_bounds(after);
        }
        let v: u8 = page.lacing[i];
        pos = pos + v as usize;
        if v < 255 {
            let packet: Vec<u8> = slice_to_vec(slice_subrange(page.data.as_slice(), start, pos));
            ended_here.push(packet);
            assert(contents(ended_here@) =~= contents(had).push(
                page.data@.subrange(start as int, pos as int),
            ));
            start = pos;
        }
        i = i + 1;
    }
    assert(lacing.subrange(0, n as int) =~= lacing);
    let open: Option<Vec<u8>> = if n > 0 && page.lacing[n - 1] == 255 {
        Some(slice_to_vec(slice_subrange(page.data.as_slice(), start, pos)))
    } else {
        None
    };
    PagePackets { ended: ended_here, open }
}

/// How a page fits the state of its stream.
pub fn check_continuity(
    last_seq: Option<u32>,
    pending: &Vec<u8>,
    valid: bool,
    unknown: bool,
    page: &Page,
) -> (r: Continuity)
    ensures
        r == continuity(last_seq, Partial { pending: pending@, valid, unknown }, page@),
{
    let gap: bool = !page.is_first() && match last_seq {
        Some(last) => page.seq_no != last.wrapping_add(1),
        None => false,
    };
    if gap {
        Continuity::Hole
    } else if !page.is_first() && !unknown && page.is_continued() != (valid && pending.len()
        > 0) {
        Continuity::Framing
    } else {
        Continuity::Clean
    }
}

/// `more` added at the end of `bytes`.
pub fn extended(bytes: Vec<u8>, more: &Vec<u8>) -> (r: Vec<u8>)
    ensures
        r@ == bytes@ + more@,
{
    let mut out: Vec<u8> = bytes;
    let mut i: usize = 0;
    while i < more.len()
        invariant
            i <= more@.len(),
            out@ == bytes@ + more@.subrange(0, i as int),
        decreases more@.len() - i,
    {
        out.push(more[i]);
        assert(more@.subrange(0, i + 1) =~= more@.subrange(0, i as int).push(more@[i as int]));
        i = i + 1;
    }
    assert(more@.subrange(0, i as int) =~= more@);
    out
}

/// The packets that are whole after one more page, and what is pending.
pub struct Joined {
    pub packets: Vec<Vec<u8>>,
    pub pending: Vec<u8>,
    pub valid: bool,
    pub unknown: bool,
}

/// One page joined to what was pending.
pub fn join_page(
    pending: Vec<u8>,
    valid: bool,
    unknown: bool,
    continued: bool,
    parts: PagePackets,
) -> (r: Joined)
    requires
        parts.ended@.len() <= 255,
    ensures
        (
            contents(r.packets@),
            (Partial { pending: r.pending@, valid: r.valid, unknown: r.unknown }),
        ) == join(
            Partial { pending: pending@, valid, unknown },
            continued,
            parts@,
        ),
        r.packets@.len() <= 255,
{
    let ghost p = Partial { pending: pending@, valid, unknown };
    let ghost c = parts@;
    if parts.ended.len() == 0 && parts.open.is_none() {
        let r = Joined { packets: Vec::new(), pending, valid, unknown };
        assert(contents(r.packets@) =~= join(p, continued, c).0);
        return r;
    }
    let mut packets: Vec<Vec<u8>> = parts.ended;
    assert(contents(packets@) =~= c.ended);
    if continued {
        if packets.len() > 0 {
            let head: Vec<u8> = packets.remove(0);
            assert(head@ == c.ended[0]);
            assert(contents(packets@) =~= c.ended.skip(1));
            if valid {
                let whole: Vec<u8> = extended(pending, &head);
                let ghost rest = contents(packets@);
                packets.insert(0, whole);
                assert(contents(packets@) =~= seq![p.pending + c.ended[0]] + c.ended.skip(1));
            }
        } else {
            let more: Vec<u8> = match parts.open {
                Some(v) => v,
                None => Vec::new(),
            };
            assert(contents(packets@) =~= Seq::<Seq<u8>>::empty());
            if valid {
                return Joined {
                    packets,
                    pending: extended(pending, &more),
                    valid: true,
                    unknown: false,
                };
            }
            let r = Joined { packets, pending: Vec::new(), valid: false, unknown };
            assert(r.pending@ =~= Seq::<u8>::empty());
            return r;
        }
    }
    match parts.open {
        Some(v) => Joined { packets, pending: v, valid: true, unknown: false },
        None => {
            let r = Joined { packets, pending: Vec::new(), valid: false, unknown: false };
            assert(r.pending@ =~= Seq::<u8>::empty());
            r
        },
    }
}

} // verus!
