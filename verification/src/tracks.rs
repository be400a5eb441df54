//! What the Skeleton says of tracks along an undamaged bitstream: every
//! keyframe index that is known is one of the file.
use crate::demux::{Model, SkelView};
use crate::laws;
use crate::page::PageView;
use crate::process;
use crate::reassembly;
use crate::reassembly::Partial;
use crate::skeleton;
use crate::skeleton::SkeletonView;
use crate::whole;
use vstd::prelude::*;

verus! {

/// The packets of the bitstream `serial`.
pub open spec fn packets_of(pages: Seq<PageView>, serial: u32) -> Seq<Seq<u8>> {
    reassembly::joined(whole::of_serial(pages, serial)).0
}

/// Whether the `j`th packet of the Skeleton bitstream `k` is a keyframe index
/// of `serial`.
pub open spec fn is_index_of(pages: Seq<PageView>, k: u32, j: int, serial: u32) -> bool {
    &&& whole::is_skeleton_serial(pages, k)
    &&& 0 <= j < packets_of(pages, k).len()
    &&& skeleton::skel_index(packets_of(pages, k)[j]) matches Some(index) && index.serial == serial
}

/// Whether a Skeleton among `pages` has a keyframe index of `serial`.
pub open spec fn is_indexed(pages: Seq<PageView>, serial: u32) -> bool {
    exists|k: u32, j: int| is_index_of(pages, k, j, serial)
}

/// Whether all indexes that are known are those of a Skeleton among `pages`.
pub open spec fn indexes_are_told(sk: SkeletonView, pages: Seq<PageView>) -> bool {
    forall|j: int|
        0 <= j < sk.indexes.len() ==> is_indexed(pages, (#[trigger] sk.indexes[j]).serial)
}

/// Whether what is known of the Skeleton comes from `pages`, and what is
/// pending is what the first `n` of them leave open, unless that is not known.
#[verifier::opaque]
pub open spec fn skeleton_follows(skel: SkelView, pages: Seq<PageView>, n: int) -> bool {
    match skel.skeleton {
        Some(sk) => {
            &&& indexes_are_told(sk, pages)
            &&& skel.adrift || skel.pending == reassembly::joined(
                whole::of_serial(pages.take(n), sk.serial),
            ).1.pending
        },
        None => skel.adrift || skel.pending.len() == 0 && forall|k: u32| #[trigger]
            whole::is_skeleton_serial(pages, k) ==> whole::of_serial(pages.take(n), k).len() == 0,
    }
}

/// A demuxer that has read nothing follows.
pub proof fn nothing_follows(skel: SkelView, pages: Seq<PageView>)
    requires
        skel.skeleton is None,
        skel.pending.len() == 0,
    ensures
        skeleton_follows(skel, pages, 0),
{
    reveal(skeleton_follows);
    assert forall|k: u32| #[trigger] whole::is_skeleton_serial(pages, k) implies whole::of_serial(
        pages.take(0),
        k,
    ).len() == 0 by {
        assert(pages.take(0).len() == 0);
    }
}

/// A jump to anywhere follows.
pub proof fn jumping_follows(skel: SkelView, pages: Seq<PageView>, n: int, after: SkelView, k: int)
    requires
        skeleton_follows(skel, pages, n),
        after.skeleton == skel.skeleton,
        after.adrift,
    ensures
        skeleton_follows(after, pages, k),
{
    reveal(skeleton_follows);
}

/// Pages of streams change nothing.
pub proof fn other_pages_follow(skel: SkelView, pages: Seq<PageView>, n: int)
    requires
        skeleton_follows(skel, pages, n),
        0 <= n < pages.len(),
        match skel.skeleton {
            Some(sk) => pages[n].serial != sk.serial,
            None => skel.adrift || !whole::is_skeleton_serial(pages, pages[n].serial),
        },
    ensures
        skeleton_follows(skel, pages, n + 1),
{
    reveal(skeleton_follows);
    match skel.skeleton {
        Some(sk) => {
            whole::of_serial_step(pages, n, sk.serial);
        },
        None => {
            if !skel.adrift {
                assert forall|k: u32| #[trigger]
                    whole::is_skeleton_serial(pages, k) implies whole::of_serial(
                    pages.take(n + 1),
                    k,
                ).len() == 0 by {
                    whole::of_serial_step(pages, n, k);
                }
            }
        },
    }
}

/// A Skeleton of which only the first packet is known follows.
pub proof fn new_skeleton_follows(skel: SkelView, pages: Seq<PageView>, n: int, after: SkelView)
    requires
        skeleton_follows(skel, pages, n),
        skel.skeleton is None,
        after.skeleton matches Some(sk) && sk.indexes.len() == 0 && whole::is_skeleton_serial(
            pages,
            sk.serial,
        ),
        after.pending == skel.pending,
        after.adrift == skel.adrift,
    ensures
        skeleton_follows(after, pages, n),
{
    reveal(skeleton_follows);
    let sk = after.skeleton->0;
    if !skel.adrift {
        assert(whole::is_skeleton_serial(pages, sk.serial));
        assert(after.pending =~= Seq::<u8>::empty());
    }
}

/// While nothing of a Skeleton is known that has begun, it is not known where
/// it stands.
pub proof fn unseen_skeletons_are_adrift(skel: SkelView, pages: Seq<PageView>, n: int, k: u32)
    requires
        skeleton_follows(skel, pages, n),
        skel.skeleton is None,
        whole::is_skeleton_serial(pages, k),
        whole::of_serial(pages.take(n), k).len() > 0,
    ensures
        skel.adrift,
{
    reveal(skeleton_follows);
}

/// The packets of a run begin with those of its beginning.
proof fn packets_of_a_beginning(run: Seq<PageView>, n: int)
    requires
        0 <= n <= run.len(),
    ensures
        reassembly::joined(run.take(n)).0.is_prefix_of(reassembly::joined(run).0),
    decreases run.len() - n,
{
    if n < run.len() {
        packets_of_a_beginning(run, n + 1);
        assert(run.take(n + 1).drop_last() =~= run.take(n));
        let a = reassembly::joined(run.take(n)).0;
        let b = reassembly::joined(run.take(n + 1)).0;
        let c = reassembly::joined(run).0;
        assert(a =~= b.take(a.len() as int));
        assert(a =~= c.take(a.len() as int));
    } else {
        assert(run.take(n) =~= run);
        let c = reassembly::joined(run).0;
        assert(c =~= c.take(c.len() as int));
    }
}

/// Adding packets of a Skeleton adds only indexes that it has.
proof fn packets_tell(sk: SkeletonView, packets: Seq<Seq<u8>>, pages: Seq<PageView>, k: u32)
    requires
        indexes_are_told(sk, pages),
        whole::is_skeleton_serial(pages, k),
        forall|i: int|
            0 <= i < packets.len() ==> packets_of(pages, k).contains(#[trigger] packets[i]),
    ensures
        indexes_are_told(skeleton::with_packets(sk, packets), pages),
    decreases packets.len(),
{
    if packets.len() > 0 {
        let init = packets.drop_last();
        let last = packets.last();
        assert forall|i: int| 0 <= i < init.len() implies packets_of(pages, k).contains(
            #[trigger] init[i],
        ) by {
            assert(packets[i] == init[i]);
        }
        packets_tell(sk, init, pages, k);
        let before = skeleton::with_packets(sk, init);
        let after = skeleton::with_packet(before, last);
        assert(packets[packets.len() - 1] == last);
        assert forall|j: int| 0 <= j < after.indexes.len() implies is_indexed(
            pages,
            (#[trigger] after.indexes[j]).serial,
        ) by {
            if j < before.indexes.len() {
                assert(after.indexes[j] == before.indexes[j]);
            } else {
                let all = packets_of(pages, k);
                let i = choose|i: int| 0 <= i < all.len() && all[i] == last;
                assert(is_index_of(pages, k, i, after.indexes[j].serial));
            }
        }
    }
}

/// Joining a page to what is pending gives packets of the run, where what is
/// pending is that of the run or not known.
proof fn joining_tells(run: Seq<PageView>, p: Partial)
    requires
        run.len() > 0,
        laws::is_stream_run(run),
        p.unknown == !p.valid,
        p.valid ==> p.pending == reassembly::joined(run.drop_last()).1.pending,
    ensures
        ({
            let page = run.last();
            let (packets, left) = reassembly::join(
                p,
                page.is_continued(),
                reassembly::cut(page.lacing, page.data),
            );
            &&& forall|i: int|
                0 <= i < packets.len() ==> reassembly::joined(run).0.contains(
                    #[trigger] packets[i],
                )
            &&& left.unknown || left.pending == reassembly::joined(run).1.pending
        }),
{
    let init = run.drop_last();
    let page = run.last();
    reassembly::clean_runs_are_closed(run);
    reassembly::page_boundaries_do_not_matter(init);
    let c = reassembly::cut(page.lacing, page.data);
    let (done, q) = reassembly::joined(init);
    assert(run.take(run.len() - 1) =~= init);
    assert(run[run.len() - 1] == page);
    assert(page.is_continued() == q.valid);
    let (more, rest) = reassembly::join(q, page.is_continued(), c);
    let (packets, left) = reassembly::join(p, page.is_continued(), c);
    let all = reassembly::joined(run).0;
    assert(all == done + more);
    assert forall|i: int| 0 <= i < packets.len() implies all.contains(#[trigger] packets[i]) by {
        if packets == more {
            assert(all[done.len() + i] == packets[i]);
        } else {
            assert(packets =~= more.skip(1));
            assert(all[done.len() + i + 1] == packets[i]);
        }
    }
}

/// The packets that a page of the Skeleton completes are packets of it.
proof fn page_tells(m: Model, pages: Seq<PageView>, n: int)
    requires
        skeleton_follows(m.skel, pages, n),
        0 <= n < pages.len(),
        m.skeleton_serial() == Some(pages[n].serial),
        laws::is_stream_run(whole::of_serial(pages, pages[n].serial)),
        !reassembly::leaves_gap(m.skel.last_seq, pages[n]),
    ensures
        ({
            let k = pages[n].serial;
            let (packets, left) = process::skeleton_join(m.skel, pages[n]);
            &&& forall|i: int|
                0 <= i < packets.len() ==> packets_of(pages, k).contains(#[trigger] packets[i])
            &&& left.unknown || left.pending == reassembly::joined(
                whole::of_serial(pages.take(n + 1), k),
            ).1.pending
        }),
{
    reveal(skeleton_follows);
    let k = pages[n].serial;
    let all = whole::of_serial(pages, k);
    let run = whole::of_serial(pages.take(n + 1), k);
    whole::of_serial_step(pages, n, k);
    whole::of_serial_is_a_prefix(pages, n + 1, k);
    assert(run.drop_last() =~= whole::of_serial(pages.take(n), k));
    assert(run =~= all.take(run.len() as int));
    packets_of_a_beginning(all, run.len() as int);
    joining_tells(run, process::skeleton_pending(m.skel, false));
    let packets = process::skeleton_join(m.skel, pages[n]).0;
    let few = reassembly::joined(run).0;
    let told = packets_of(pages, k);
    assert forall|i: int| 0 <= i < packets.len() implies told.contains(#[trigger] packets[i]) by {
        assert(few.contains(packets[i]));
        let j = choose|j: int| 0 <= j < few.len() && few[j] == packets[i];
        assert(few =~= told.take(few.len() as int));
        assert(told[j] == few[j]);
    }
}

/// A page of the Skeleton follows.
pub proof fn skeleton_page_follows(m: Model, pages: Seq<PageView>, n: int)
    requires
        skeleton_follows(m.skel, pages, n),
        0 <= n < pages.len(),
        m.skeleton_serial() == Some(pages[n].serial),
        whole::is_skeleton_serial(pages, pages[n].serial),
        laws::is_stream_run(whole::of_serial(pages, pages[n].serial)),
        !reassembly::leaves_gap(m.skel.last_seq, pages[n]),
    ensures
        skeleton_follows(process::skeleton_page(m, pages[n]).skel, pages, n + 1),
{
    reveal(skeleton_follows);
    let page = pages[n];
    let k = page.serial;
    let sk = m.skel.skeleton->0;
    page_tells(m, pages, n);
    let packets = process::skeleton_join(m.skel, page).0;
    let new = process::untaken(m.skel.taken, page.offset, packets);
    let told = packets_of(pages, k);
    assert forall|i: int| 0 <= i < new.len() implies told.contains(#[trigger] new[i]) by {
        assert(new[i] == packets[i]);
    }
    packets_tell(sk, new, pages, k);
    process::skeleton_keeps_its_serial(sk, new);
}

/// An index that is known of is one of the file.
pub proof fn known_indexes_are_told(skel: SkelView, pages: Seq<PageView>, n: int, serial: u32)
    requires
        skeleton_follows(skel, pages, n),
        skel.skeleton matches Some(sk) && skeleton::first_index(sk.indexes, serial) is Some,
    ensures
        is_indexed(pages, serial),
{
    reveal(skeleton_follows);
    let sk = skel.skeleton->0;
    skeleton::index_found_is_of_the_serial(sk.indexes, serial);
    let j = choose|j: int|
        0 <= j < sk.indexes.len() && Some(sk.indexes[j]) == skeleton::first_index(
            sk.indexes,
            serial,
        );
    assert(sk.indexes[j].serial == serial);
}

} // verus!
