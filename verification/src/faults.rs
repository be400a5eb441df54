//! Damage: what is noticed, and how it is told.
use crate::codec_id;
use crate::damage;
use crate::damage::{DamageEvent, DamageKind, LedgerView};
use crate::demux;
use crate::demux::Model;
use crate::info;
use crate::laws;
use crate::page;
use crate::page::PageView;
use crate::process;
use crate::reader;
use crate::reassembly;
use crate::register;
use crate::scan;
use crate::seek_index;
use crate::text;
use vstd::prelude::*;

verus! {

/// The sequence number behind another: one more, and 0 behind the last.
pub open spec fn next_number(n: u32) -> u32 {
    if n == u32::MAX {
        0
    } else {
        (n + 1) as u32
    }
}

/// Whether `after` is `before` with one more event, which is kept if fewer
/// than 64 are.
pub open spec fn tells_one_more(before: LedgerView, after: LedgerView, e: DamageEvent) -> bool {
    &&& before.total < u64::MAX ==> after.total == before.total + 1
    &&& before.events.len() < 64 ==> after.events == before.events.push(e)
    &&& before.events.len() >= 64 ==> after.events == before.events
}

/// A page that is not the next one after the last of its stream, in either
/// direction, counts as one hole and is told with its stream and its number.
/// The next one does not, nor does any page whose predecessor is not known.
pub proof fn missing_pages_are_counted(m: Model, page: PageView, k: int)
    requires
        0 <= k < m.states.len(),
        !page.is_first(),
        page.wf(),
    ensures
        ({
            let after = process::content_page(m, page, k).ledger;
            let last = m.states[k].last_seq;
            &&& last is Some && page.seq_no != next_number(last->0) ==> {
                &&& m.ledger.holes < u64::MAX ==> after.holes == m.ledger.holes + 1
                &&& after.framing_errors == m.ledger.framing_errors
                &&& after.resyncs == m.ledger.resyncs
                &&& tells_one_more(
                    m.ledger,
                    after,
                    (DamageEvent {
                        kind: DamageKind::Hole,
                        byte_offset: None,
                        serial: Some(page.serial),
                        page_seq: Some(page.seq_no),
                    }),
                )
                &&& process::page_join(m.states[k], page).0 == laws::begun_on(page)
            }
            &&& last is None || page.seq_no == next_number(last->0) ==> after.holes
                == m.ledger.holes
        }),
{
    let last = m.states[k].last_seq;
    if last is Some && page.seq_no != next_number(last->0) {
        laws::nothing_is_spliced_across_a_gap(m.states[k], page);
    }
}

/// So does a page of the Skeleton.
pub proof fn missing_skeleton_pages_are_counted(m: Model, page: PageView)
    requires
        !page.is_first(),
    ensures
        ({
            let after = process::skeleton_page(m, page).ledger;
            let last = m.skel.last_seq;
            &&& last is Some && page.seq_no != next_number(last->0) ==> {
                &&& m.ledger.holes < u64::MAX ==> after.holes == m.ledger.holes + 1
                &&& tells_one_more(
                    m.ledger,
                    after,
                    (DamageEvent {
                        kind: DamageKind::Hole,
                        byte_offset: None,
                        serial: Some(page.serial),
                        page_seq: Some(page.seq_no),
                    }),
                )
            }
            &&& last is None || page.seq_no == next_number(last->0) ==> after == m.ledger
        }),
{
}

/// A page in sequence that is marked as continued though no packet is open, or
/// is not though one is, counts as one framing error, and is told with its
/// stream and its number. Any other page in sequence is no damage.
pub proof fn broken_marks_are_counted(m: Model, page: PageView, k: int)
    requires
        0 <= k < m.states.len(),
        !page.is_first(),
        page.wf(),
        m.states[k].last_seq is Some,
        page.seq_no == next_number(m.states[k].last_seq->0),
        !m.states[k].partial.unknown,
        m.states[k].partial.valid <==> m.states[k].partial.pending.len() > 0,
    ensures
        ({
            let after = process::content_page(m, page, k).ledger;
            let is_open = m.states[k].partial.pending.len() > 0;
            &&& page.is_continued() == is_open ==> after == m.ledger
            &&& page.is_continued() != is_open ==> {
                &&& m.ledger.framing_errors < u64::MAX ==> after.framing_errors
                    == m.ledger.framing_errors + 1
                &&& after.holes == m.ledger.holes
                &&& after.resyncs == m.ledger.resyncs
                &&& tells_one_more(
                    m.ledger,
                    after,
                    (DamageEvent {
                        kind: DamageKind::FramingError,
                        byte_offset: None,
                        serial: Some(page.serial),
                        page_seq: Some(page.seq_no),
                    }),
                )
                &&& process::page_join(m.states[k], page).0 == laws::begun_on(page)
            }
        }),
{
    if page.is_continued() != (m.states[k].partial.pending.len() > 0) {
        laws::broken_continuations_are_dropped(m.states[k], page);
    }
}

/// Bytes that are no page are skipped up to the first page behind them, which
/// is read. That counts as one resync and is told with where that page stands.
pub proof fn skipped_bytes_are_counted(m: Model, q: int)
    requires
        m.input.len() <= usize::MAX,
        m.pos + 27 <= m.input.len(),
        !page::is_page(m.input, m.pos as int),
        page::is_capture(m.input, m.pos as int) ==> page::is_complete(m.input, m.pos as int),
        m.pos < q,
        page::is_page(m.input, q),
        forall|x: int| m.pos < x < q ==> !#[trigger] page::is_page(m.input, x),
    ensures
        ({
            let (after, got) = reader::after_read(m);
            let found = page::page_at(m.input, q);
            &&& got == Some(found)
            &&& after.pos == page::page_end(m.input, q)
            &&& m.ledger.resyncs < u64::MAX ==> after.ledger.resyncs == m.ledger.resyncs + 1
            &&& after.ledger.holes == m.ledger.holes
            &&& after.ledger.framing_errors == m.ledger.framing_errors
            &&& tells_one_more(
                m.ledger,
                after.ledger,
                (DamageEvent {
                    kind: DamageKind::Resync,
                    byte_offset: Some(q as u64),
                    serial: Some(found.serial),
                    page_seq: Some(found.seq_no),
                }),
            )
        }),
{
    let s = m.input;
    let p = m.pos as int;
    reader::next_page_is_the_first(s, p);
    reader::next_page_is_the_first(s, p + 1);
    page::body_len_nonneg(page::lacing_at(s, q));
    if !page::is_capture(s, p) {
        match reader::next_page(s, p) {
            Some(x) => {
                assert(x == q) by {
                    if x < q {
                        assert(page::is_page(s, x));
                    }
                }
            },
            None => {
                assert(!page::is_page(s, q));
            },
        }
    } else {
        match reader::next_page(s, p + 1) {
            Some(x) => {
                assert(x == q) by {
                    if x < q {
                        assert(page::is_page(s, x));
                    }
                }
            },
            None => {
                assert(!page::is_page(s, q));
            },
        }
    }
}

/// An input that ends inside a page has no further page, and that is told with
/// where the page begins. It counts as none of the others.
pub proof fn a_cut_page_is_told(m: Model)
    requires
        m.input.len() <= usize::MAX,
        m.pos + 27 <= m.input.len(),
        page::is_capture(m.input, m.pos as int),
        !page::is_complete(m.input, m.pos as int),
    ensures
        ({
            let (after, got) = reader::after_read(m);
            &&& got is None
            &&& after.pos == m.input.len()
            &&& after.ledger.holes == m.ledger.holes
            &&& after.ledger.framing_errors == m.ledger.framing_errors
            &&& after.ledger.resyncs == m.ledger.resyncs
            &&& tells_one_more(
                m.ledger,
                after.ledger,
                (DamageEvent {
                    kind: DamageKind::TruncatedTail,
                    byte_offset: Some(m.pos),
                    serial: Some(page::serial_at(m.input, m.pos as int)),
                    page_seq: Some(page::seq_no_at(m.input, m.pos as int)),
                }),
            )
        }),
{
}

/// So is a tail too short for a page header, where it starts like one; any
/// other is passed over in silence.
pub proof fn a_short_tail_is_told(m: Model)
    requires
        m.input.len() <= usize::MAX,
        m.pos < m.input.len(),
        m.pos + 27 > m.input.len(),
    ensures
        ({
            let s = m.input;
            let (after, got) = reader::after_read(m);
            let n = s.len() - m.pos;
            let head = seq![0x4fu8, 0x67, 0x67, 0x53];
            let starts = forall|i: int|
                0 <= i < n && i < 4 ==> #[trigger] s[m.pos + i] == head[i];
            &&& got is None
            &&& after.pos == s.len()
            &&& !starts ==> after.ledger == m.ledger
            &&& starts ==> tells_one_more(
                m.ledger,
                after.ledger,
                (DamageEvent {
                    kind: DamageKind::TruncatedTail,
                    byte_offset: Some(m.pos),
                    serial: None,
                    page_seq: None,
                }),
            )
        }),
{
    let s = m.input;
    let p = m.pos as int;
    let n = s.len() - p;
    let head = seq![0x4fu8, 0x67, 0x67, 0x53];
    assert(head[0] == 0x4f && head[1] == 0x67 && head[2] == 0x67 && head[3] == 0x53);
    if forall|i: int| 0 <= i < n && i < 4 ==> #[trigger] s[p + i] == head[i] {
        assert(s[p + 0] == head[0]);
        if n > 1 {
            assert(s[p + 1] == head[1]);
        }
        if n > 2 {
            assert(s[p + 2] == head[2]);
        }
        if n > 3 {
            assert(s[p + 3] == head[3]);
        }
    } else {
        let i = choose|i: int| 0 <= i < n && i < 4 && #[trigger] s[p + i] != head[i];
        assert(s[p + i] != head[i]);
        assert(i == 0 || i == 1 || i == 2 || i == 3);
    }
}

/// A second bitstream under a serial number in use is counted once and told,
/// unless the input has been indexed, which counts it by itself.
pub proof fn second_bitstreams_are_counted(m: Model, page: PageView, k: int)
    requires
        page.is_first(),
        demux::slot(m.states, page.serial) == Some(k),
        0 <= k < m.states.len(),
        m.states[k].bos_at != page.offset,
        m.skeleton_serial() != Some(page.serial),
    ensures
        ({
            let after = process::routed(m, page).0.ledger;
            &&& m.index_built ==> after == m.ledger
            &&& !m.index_built ==> {
                &&& m.ledger.duplicate_serials < u64::MAX ==> after.duplicate_serials
                    == m.ledger.duplicate_serials + 1
                &&& after.holes == m.ledger.holes
                &&& after.framing_errors == m.ledger.framing_errors
                &&& tells_one_more(
                    m.ledger,
                    after,
                    (DamageEvent {
                        kind: DamageKind::DuplicateSerial,
                        byte_offset: None,
                        serial: Some(page.serial),
                        page_seq: Some(page.seq_no),
                    }),
                )
            }
        }),
{
    demux::slot_holds(m.states, page.serial);
}

/// A second bitstream under a serial number in use awaits its headers anew, as
/// many as its codec has, and keeps none of those of the first.
pub proof fn second_bitstreams_await_their_headers(
    m: Model,
    page: PageView,
    k: int,
    first: Seq<u8>,
)
    requires
        m.wf(),
        page.is_first(),
        demux::slot(m.states, page.serial) == Some(k),
        0 <= k < m.states.len(),
        m.states[k].bos_at != page.offset,
        m.skeleton_serial() != Some(page.serial),
        reassembly::cut(page.lacing, page.data).first() == Some(first),
    ensures
        ({
            let after = process::routed(m, page).0;
            let st = after.states[k];
            &&& process::routed(m, page).1 is None
            &&& after.states.len() == m.states.len()
            &&& after.streams == m.streams
            &&& st.serial == page.serial
            &&& st.headers_remaining == codec_id::header_count(
                register::identified(m.answers, first),
                first,
            ) as usize
            &&& st.header_packets.len() == 0
            &&& !st.tagged
            &&& st.last_seq is None
            &&& st.partial.pending.len() == 0
            &&& st.bos_at == page.offset
            &&& forall|i: int|
                0 <= i < m.states.len() && i != k ==> #[trigger] after.states[i] == m.states[i]
        }),
{
    demux::slot_holds(m.states, page.serial);
    let linked = process::next_link(m, page.offset);
    let link = process::link_at(linked, page.offset);
    let re = register::restarted(linked, page, k, link);
    demux::slot_holds(re.states, page.serial);
    demux::slots_stay(linked.states, k, re.states[k], page.serial);
}

/// Only first packets of pages that begin a stream are asked about.
pub proof fn only_first_packets_are_listed(s: Seq<u8>, end: int, i: int)
    requires
        0 <= i < info::first_packets_before(s, end).len(),
    ensures
        exists|p: int|
            0 <= p < end && #[trigger] info::is_bos_at(s, p) && info::first_at(s, p) == Some(
                info::first_packets_before(s, end)[i],
            ),
    decreases end,
{
    let before = info::first_packets_before(s, end - 1);
    let all = info::first_packets_before(s, end);
    if i < before.len() {
        only_first_packets_are_listed(s, end - 1, i);
        assert(all[i] == before[i]);
        let p = choose|p: int|
            0 <= p < end - 1 && #[trigger] info::is_bos_at(s, p) && info::first_at(s, p) == Some(
                before[i],
            );
        assert(info::is_bos_at(s, p));
    } else {
        assert(info::is_bos_at(s, end - 1));
    }
}

/// Once indexed, an input is known to be.
pub proof fn indexing_is_remembered(m: Model)
    ensures
        scan::indexed(m).0.index_built,
        m.input.len() == 0 ==> !scan::indexed(m).1,
{
}

/// Every page that is read is known from then on by its stream, its granule
/// and where it stands, where it has a granule; what was known stays known.
pub proof fn pages_read_are_known(m: Model)
    requires
        m.wf(),
        reader::after_read(m).1 is Some,
    ensures
        ({
            let (after, got) = reader::after_read(m);
            let page = got->0;
            &&& page.granule >= 0 ==> after.index.contains(
                (page.serial, page.granule, page.offset),
            )
            &&& forall|e: seek_index::Entry|
                m.index.contains(e) ==> #[trigger] after.index.contains(e)
            &&& page.granule < 0 ==> after.index == m.index
            &&& page::is_page(m.input, page.offset as int)
            &&& page == page::page_at(m.input, page.offset as int)
            &&& m.pos <= page.offset
        }),
{
    reader::next_page_is_the_first(m.input, m.pos as int);
    reader::next_page_is_the_first(m.input, m.pos + 1);
}

/// Indexing counts a serial number used twice once for each page that begins a
/// stream under it again, and no other page.
pub proof fn indexing_counts_second_bitstreams(m: Model, p: int, seen: Set<u32>)
    requires
        m.skel.skeleton is None,
        m.ledger.duplicate_serials < u64::MAX,
    ensures
        ({
            let serial = page::serial_at(m.input, p);
            let (after, now, _) = scan::met(m, p, seen);
            &&& page::page_at(m.input, p).is_first() && seen.contains(serial)
                ==> after.ledger.duplicate_serials == m.ledger.duplicate_serials + 1
            &&& !page::page_at(m.input, p).is_first() || !seen.contains(serial)
                ==> after.ledger == m.ledger
            &&& page::page_at(m.input, p).is_first() ==> now == seen.insert(serial)
            &&& !page::page_at(m.input, p).is_first() ==> now == seen
        }),
{
    if seen.contains(page::serial_at(m.input, p)) {
        assert(seen.insert(page::serial_at(m.input, p)) =~= seen);
    }
}

// ---------------------------------------------------------------------------
// Text
// ---------------------------------------------------------------------------

/// The number that a digit stands for.
pub open spec fn digit_value(c: char) -> int {
    if '0' <= c <= '9' {
        c as int - 0x30
    } else if 'A' <= c <= 'F' {
        c as int - 0x37
    } else {
        c as int - 0x57
    }
}

/// The number that digits to a base stand for.
pub open spec fn number_of(s: Seq<char>, base: int) -> int
    decreases s.len(),
{
    if s.len() == 0 {
        0
    } else {
        base * number_of(s.drop_last(), base) + digit_value(s.last())
    }
}

proof fn digits_have_values(d: int, upper: bool)
    requires
        0 <= d < 16,
    ensures
        digit_value(text::digit(d, upper)) == d,
        d < 10 ==> '0' <= text::digit(d, upper) <= '9',
        d >= 10 && upper ==> 'A' <= text::digit(d, upper) <= 'F',
        d >= 10 && !upper ==> 'a' <= text::digit(d, upper) <= 'f',
        d > 0 ==> text::digit(d, upper) != '0',
{
    assert('0' as int == 0x30 && '9' as int == 0x39 && 'A' as int == 0x41 && 'F' as int == 0x46
        && 'a' as int == 0x61 && 'f' as int == 0x66);
}

/// A number written in decimal digits is that number, without zeros before it.
pub proof fn decimal_digits_tell_the_number(n: nat)
    ensures
        number_of(text::decimal(n), 10) == n,
        text::decimal(n).len() > 0,
        text::decimal(n)[0] == '0' <==> n == 0,
    decreases n,
{
    digits_have_values((n % 10) as int, false);
    if n < 10 {
        let s = text::decimal(n);
        assert(s.drop_last() =~= Seq::<char>::empty());
        reveal_with_fuel(number_of, 2);
        digits_have_values(n as int, false);
        assert('0' as int == 0x30);
    } else {
        decimal_digits_tell_the_number(n / 10);
        let s = text::decimal(n);
        assert(s.drop_last() =~= text::decimal(n / 10));
        assert(s[0] == text::decimal(n / 10)[0]);
    }
}

/// A number written in hexadecimal digits is that number.
pub proof fn hexadecimal_digits_tell_the_number(n: nat, width: nat, upper: bool)
    requires
        n < vstd::arithmetic::power::pow(16, width),
    ensures
        number_of(text::hex(n, width, upper), 16) == n,
        text::hex(n, width, upper).len() == width,
    decreases width,
{
    vstd::arithmetic::power::lemma_pow0(16);
    if width > 0 {
        let w = (width - 1) as nat;
        vstd::arithmetic::power::lemma_pow_adds(16, 1, w);
        vstd::arithmetic::power::lemma_pow1(16);
        assert(n / 16 < vstd::arithmetic::power::pow(16, w));
        hexadecimal_digits_tell_the_number(n / 16, w, upper);
        digits_have_values((n % 16) as int, upper);
        let s = text::hex(n, width, upper);
        assert(s.drop_last() =~= text::hex(n / 16, w, upper));
    } else {
        assert(n == 0);
    }
}

} // verus!
