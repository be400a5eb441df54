//! Decoder setup bytes out of header packets.
use crate::codec_id;
use crate::codec_id::Mapping;
use crate::media::CodecId;
use crate::reassembly;
use vstd::prelude::*;

verus! {

/// `n` in Xiph lacing: as many bytes of 255 as fit, then the rest.
pub open spec fn laced_size(n: nat) -> Seq<u8>
    decreases n,
{
    if n < 255 {
        seq![n as u8]
    } else {
        seq![255u8] + laced_size((n - 255) as nat)
    }
}

/// Three packets as one: the count less one, the laced sizes of the first
/// two, and the packets.
pub open spec fn laced_three(p: Seq<Seq<u8>>) -> Seq<u8> {
    seq![2u8] + laced_size(p[0].len()) + laced_size(p[1].len()) + p[0] + p[1] + p[2]
}

/// The setup bytes of a codec: all three headers laced for Vorbis and Theora,
/// the identification packet for Opus, and otherwise the headers one after
/// the other.
pub open spec fn codec_private(id: Seq<char>, packets: Seq<Seq<u8>>) -> Seq<u8> {
    let mapping = codec_id::mapping_of(id);
    if (mapping is Vorbis || mapping is Theora) && packets.len() == 3 {
        laced_three(packets)
    } else if mapping is Opus {
        if packets.len() > 0 {
            packets[0]
        } else {
            Seq::empty()
        }
    } else {
        reassembly::flat(packets)
    }
}

/// The number that Xiph lacing at the start of `s` writes, and how many bytes
/// it takes.
pub open spec fn unlaced(s: Seq<u8>) -> Option<(nat, nat)>
    decreases s.len(),
{
    if s.len() == 0 {
        None
    } else if s[0] < 255 {
        Some((s[0] as nat, 1))
    } else {
        match unlaced(s.skip(1)) {
            Some((n, k)) => Some((n + 255, k + 1)),
            None => None,
        }
    }
}

/// Reading a laced size gives back the size, whatever follows it.
pub proof fn laced_sizes_can_be_read_back(n: nat, rest: Seq<u8>)
    ensures
        unlaced(laced_size(n) + rest) == Some((n, laced_size(n).len())),
        laced_size(n).len() == n / 255 + 1,
    decreases n,
{
    let s = laced_size(n) + rest;
    if n >= 255 {
        let m = (n - 255) as nat;
        laced_sizes_can_be_read_back(m, rest);
        assert(s.skip(1) =~= laced_size(m) + rest);
        assert(s[0] == 255);
    } else {
        assert(s[0] == n as u8);
    }
}

/// Three laced packets can be told apart again: different packets never give
/// the same bytes.
pub proof fn laced_packets_can_be_told_apart(a: Seq<Seq<u8>>, b: Seq<Seq<u8>>)
    requires
        a.len() == 3,
        b.len() == 3,
        laced_three(a) == laced_three(b),
    ensures
        a == b,
{
    let s = laced_three(a);
    let ra = laced_size(a[1].len()) + a[0] + a[1] + a[2];
    let rb = laced_size(b[1].len()) + b[0] + b[1] + b[2];
    assert(s.skip(1) =~= laced_size(a[0].len()) + ra);
    assert(s.skip(1) =~= laced_size(b[0].len()) + rb);
    laced_sizes_can_be_read_back(a[0].len(), ra);
    laced_sizes_can_be_read_back(b[0].len(), rb);
    let k = laced_size(a[0].len()).len() as int;
    assert(s.skip(1).skip(k) =~= ra);
    assert(s.skip(1).skip(k) =~= rb);
    let ta = a[0] + a[1] + a[2];
    let tb = b[0] + b[1] + b[2];
    assert(ra =~= laced_size(a[1].len()) + ta);
    assert(rb =~= laced_size(b[1].len()) + tb);
    laced_sizes_can_be_read_back(a[1].len(), ta);
    laced_sizes_can_be_read_back(b[1].len(), tb);
    let j = laced_size(a[1].len()).len() as int;
    assert(ra.skip(j) =~= ta);
    assert(rb.skip(j) =~= tb);
    let n0 = a[0].len() as int;
    let n1 = n0 + a[1].len();
    assert(ta.subrange(0, n0) =~= a[0]);
    assert(tb.subrange(0, n0) =~= b[0]);
    assert(ta.subrange(n0, n1) =~= a[1]);
    assert(tb.subrange(n0, n1) =~= b[1]);
    assert(ta.subrange(n1, ta.len() as int) =~= a[2]);
    assert(tb.subrange(n1, tb.len() as int) =~= b[2]);
    assert(a =~= b);
}

/// `n` in Xiph lacing.
pub fn xiph_lace_size(n: usize) -> (r: Vec<u8>)
    ensures
        r@ == laced_size(n as nat),
{
    let mut v: Vec<u8> = Vec::new();
    let mut left: usize = n;
    while left >= 255
        invariant
            laced_size(n as nat) == v@ + laced_size(left as nat),
        decreases left,
    {
        let ghost before = v@;
        v.push(255);
        assert(before + (seq![255u8] + laced_size((left - 255) as nat)) =~= v@ + laced_size(
            (left - 255) as nat,
        ));
        left = left - 255;
    }
    v.push(left as u8);
    assert(v@ =~= laced_size(n as nat));
    v
}

/// Three packets as one.
pub fn xiph_lace_three(packets: &Vec<Vec<u8>>) -> (r: Vec<u8>)
    requires
        packets@.len() == 3,
    ensures
        r@ == laced_three(reassembly::contents(packets@)),
{
    let mut out: Vec<u8> = Vec::new();
    out.push(2);
    let first: Vec<u8> = xiph_lace_size(packets[0].len());
    let second: Vec<u8> = xiph_lace_size(packets[1].len());
    out = reassembly::extended(out, &first);
    out = reassembly::extended(out, &second);
    out = reassembly::extended(out, &packets[0]);
    out = reassembly::extended(out, &packets[1]);
    out = reassembly::extended(out, &packets[2]);
    assert(out@ =~= laced_three(reassembly::contents(packets@)));
    out
}

fn concatenated(packets: &Vec<Vec<u8>>) -> (r: Vec<u8>)
    ensures
        r@ == reassembly::flat(reassembly::contents(packets@)),
{
    let mut out: Vec<u8> = Vec::new();
    let mut i: usize = 0;
    let ghost all = reassembly::contents(packets@);
    assert(all.subrange(0, 0) =~= Seq::<Seq<u8>>::empty());
    while i < packets.len()
        invariant
            i <= packets@.len(),
            all == reassembly::contents(packets@),
            out@ == reassembly::flat(all.subrange(0, i as int)),
        decreases packets@.len() - i,
    {
        out = reassembly::extended(out, &packets[i]);
        assert(all.subrange(0, i + 1).drop_last() =~= all.subrange(0, i as int));
        i = i + 1;
    }
    assert(all.subrange(0, i as int) =~= all);
    out
}

/// The setup bytes of a codec.
pub fn build_codec_private(id: &CodecId, packets: &Vec<Vec<u8>>) -> (r: Vec<u8>)
    ensures
        r@ == codec_private(id@, reassembly::contents(packets@)),
{
    match codec_id::mapping(id) {
        Mapping::Vorbis | Mapping::Theora => {
            if packets.len() == 3 {
                xiph_lace_three(packets)
            } else {
                concatenated(packets)
            }
        },
        Mapping::Opus => {
            let mut out: Vec<u8> = Vec::new();
            if packets.len() > 0 {
                out = reassembly::extended(out, &packets[0]);
            }
            assert(out@ =~= codec_private(id@, reassembly::contents(packets@)));
            out
        },
        _ => concatenated(packets),
    }
}

} // verus!
