//! End-to-end laws of the wire format.
//!
//! Serialization of a message is modeled by `image` (header bytes),
//! the leaf pairs, the reordering pipeline and `view_backpatch`; the
//! received buffer a peer sees is the back-patched header followed by
//! the segments in transmission order.  The round-trip law states that
//! parsing that buffer yields the serialized message's abstract value,
//! for every datapath reordering.

use crate::datapath::Datapath;
use crate::fwd::{lemma_fwd_round_trip, spec_fwd_bytes};
use crate::hdr::{spec_leaf_pairs, spec_parse_with_ref, HeaderRepr};
use crate::hdr::spec_sum_len;
use crate::leaves::CFBytes;
use crate::varlist::{vl_dyn_size, vl_image, vl_leaves, vl_n_sge, vl_parse_elems, vl_slots, VariableList};
use crate::messages::{spec_single_abs_default, spec_tree1_abs_default, ListAbs, ListCF, SingleBufferAbs, SingleBufferCF, Tree1LCF, Tree2LCF};
use crate::sga::{
    spec_lex_less, view_backpatch, view_count_smaller, view_demoted, view_flatten, view_reorder1,
    view_reorder1_nc, view_reorder2, view_reorder2_nc, view_selected, view_sum, view_zero_copy,
};
use vstd::seq_lib::lemma_multiset_commutative;
use crate::wire::{lemma_splice, splice};
use vstd::bytes::{lemma_auto_spec_u32_to_from_le_bytes, spec_u32_from_le_bytes};
use vstd::prelude::*;

verus! {

/// Round-trip for the single-buffer message: serializing any well-formed
/// `SingleBufferCF` into a header buffer of its own header size and
/// deserializing the back-patched header followed by the reordered
/// segments gives back its abstract value, under any datapath's
/// reordering.
pub proof fn lemma_single_buffer_round_trip<D: Datapath>(m: SingleBufferCF<'_>, h_old: Seq<u8>, d: D)
    requires
        m.wf(),
        h_old.len() == m.dyn_size(),
        d.max_segments_spec() >= 1,
    ensures
        ({
            let h1 = m.image(h_old, 0, m.dyn_start());
            let pairs0 = spec_leaf_pairs(&m, 0, m.dyn_start());
            let nc1 = view_reorder1_nc(d, pairs0);
            let pairs2 = view_reorder2(d, view_reorder1(d, pairs0), nc1);
            let wire = view_backpatch(h1, pairs2, m.dyn_size()) + view_flatten(pairs2);
            SingleBufferCF::parse(wire, 0) == Some(m.abs())
        }),
{
    reveal(Seq::filter);
    lemma_auto_spec_u32_to_from_le_bytes();
    let h1 = m.image(h_old, 0, 16);
    let pairs0 = spec_leaf_pairs(&m, 0, 16);
    let nc1 = view_reorder1_nc(d, pairs0);
    let pairs1 = view_reorder1(d, pairs0);
    let pairs2 = view_reorder2(d, pairs1, nc1);
    let bb = crate::bitmap::spec_bitmap_bytes(m.bitmap@);
    assert(bb.len() == 8);
    let hb = splice(h_old, 0, bb);
    lemma_splice(h_old, 0, bb);
    assert(hb.len() == 16);
    let zcp = |pr: (Seq<u8>, int)| view_zero_copy(d, pr);
    let cpp = |pr: (Seq<u8>, int)| !view_zero_copy(d, pr);
    if m.bitmap@[0] == 1 {
        let bytes = m.message.ptr@;
        assert(pairs0 =~= seq![(bytes, 8int)]);
        let x = (bytes, 8int);
        assert(pairs0.drop_last() =~= Seq::<(Seq<u8>, int)>::empty());
        assert(Seq::<(Seq<u8>, int)>::empty().filter(cpp) =~= Seq::<(Seq<u8>, int)>::empty());
        assert(Seq::<(Seq<u8>, int)>::empty().filter(zcp) =~= Seq::<(Seq<u8>, int)>::empty());
        if zcp(x) {
            assert(pairs0.filter(zcp) =~= seq![x]);
            assert(pairs0.filter(cpp) =~= Seq::<(Seq<u8>, int)>::empty());
        } else {
            assert(pairs0.filter(cpp) =~= seq![x]);
            assert(pairs0.filter(zcp) =~= Seq::<(Seq<u8>, int)>::empty());
        }
        assert(pairs1 =~= seq![x]);
        assert(0 <= nc1 <= 1);
        let tail = pairs1.subrange(nc1, 1);
        assert(tail.len() <= 1);
        assert(tail.len() <= d.max_segments_spec());
        assert(pairs2 == pairs1);
        assert(h1 == m.message.image(hb, 8, 16));
        assert(h1 == hb);
        let fwd = spec_fwd_bytes(bytes.len() as u32, 16u32);
        let patched = splice(h1, 8, fwd);
        assert(view_backpatch(h1, pairs2, 16) == view_backpatch(
            splice(h1, 8, fwd),
            pairs2.drop_first(),
            16 + bytes.len() as int,
        ));
        assert(pairs2.drop_first() =~= Seq::<(Seq<u8>, int)>::empty());
        assert(view_backpatch(h1, pairs2, 16) == patched);
        assert(view_flatten(pairs2) == view_flatten(pairs2.drop_last()) + bytes);
        assert(pairs2.drop_last() =~= Seq::<(Seq<u8>, int)>::empty());
        assert(view_flatten(pairs2) =~= bytes);
        let wire = patched + bytes;
        lemma_fwd_round_trip(h1, 8, bytes.len() as u32, 16u32);
        lemma_splice(h1, 8, fwd);
        assert(wire.len() == 16 + bytes.len());
        // the bitmap region is untouched by the back-patch
        assert(wire.subrange(0, 4) =~= bb.subrange(0, 4));
        assert(bb.subrange(0, 4) =~= vstd::bytes::spec_u32_to_le_bytes(4u32));
        assert(spec_u32_from_le_bytes(bb.subrange(0, 4)) == 4u32);
        assert(crate::bitmap::spec_parse_bitmap(wire, 0) is Some);
        let bm = crate::bitmap::spec_parse_bitmap(wire, 0).unwrap();
        assert(bm =~= m.bitmap@) by {
            assert(forall|k: int| 0 <= k < 4 ==> #[trigger] wire[4 + k] == bb[4 + k]);
            assert(forall|k: int| 0 <= k < 4 ==> #[trigger] bb[4 + k] == m.bitmap@[k]);
        }
        assert(bm.len() == 4 && bm[0] == 1);
        // the leaf slot reads back the patched size and offset
        assert(wire.subrange(8, 16) =~= patched.subrange(8, 16));
        assert(crate::fwd::spec_fwd_size(wire, 8) == crate::fwd::spec_fwd_size(patched, 8)) by {
            assert(wire.subrange(8, 12) =~= patched.subrange(8, 12));
        }
        assert(crate::fwd::spec_fwd_offset(wire, 8) == crate::fwd::spec_fwd_offset(patched, 8))
            by {
            assert(wire.subrange(12, 16) =~= patched.subrange(12, 16));
        }
        assert(crate::fwd::spec_fwd_size(patched, 8) == bytes.len() as u32);
        assert(crate::fwd::spec_fwd_offset(patched, 8) == 16u32);
        assert(CFBytes::parse(wire, 8) is Some);
        assert(CFBytes::parse(wire, 8).unwrap() =~= bytes) by {
            assert(forall|k: int| 0 <= k < bytes.len() ==> #[trigger] wire[16 + k] == bytes[k]);
        }
        assert(SingleBufferCF::parse(wire, 0) == Some(
            SingleBufferAbs { has_message: true, message: bytes },
        ));
        assert(m.abs() == SingleBufferAbs { has_message: true, message: bytes });
    } else {
        assert(pairs0.len() == 0);
        assert(pairs0 =~= Seq::<(Seq<u8>, int)>::empty());
        assert(pairs0.filter(cpp) =~= Seq::<(Seq<u8>, int)>::empty());
        assert(pairs0.filter(zcp) =~= Seq::<(Seq<u8>, int)>::empty());
        assert(pairs1 =~= Seq::<(Seq<u8>, int)>::empty());
        assert(nc1 == 0);
        let tail = pairs1.subrange(0, 0);
        assert(tail.len() == 0);
        assert(pairs2 == pairs1);
        assert(pairs2.len() == 0);
        assert(h1 == hb);
        assert(view_backpatch(h1, pairs2, 16) == h1);
        assert(view_flatten(pairs2) =~= Seq::<u8>::empty());
        let wire = h1 + view_flatten(pairs2);
        assert(wire =~= hb);
        assert(wire.subrange(0, 4) =~= bb.subrange(0, 4));
        assert(bb.subrange(0, 4) =~= vstd::bytes::spec_u32_to_le_bytes(4u32));
        assert(spec_u32_from_le_bytes(bb.subrange(0, 4)) == 4u32);
        assert(crate::bitmap::spec_parse_bitmap(wire, 0) is Some);
        let bm = crate::bitmap::spec_parse_bitmap(wire, 0).unwrap();
        assert(bm =~= m.bitmap@) by {
            assert(forall|k: int| 0 <= k < 4 ==> #[trigger] wire[4 + k] == bb[4 + k]);
            assert(forall|k: int| 0 <= k < 4 ==> #[trigger] bb[4 + k] == m.bitmap@[k]);
        }
        assert(!(bm.len() >= 1 && bm[0] == 1));
        assert(SingleBufferCF::parse(wire, 0) == Some(
            SingleBufferAbs { has_message: false, message: Seq::empty() },
        ));
    }
}

/// Counting examines at most `m` positions and never position `i`
/// itself.
proof fn lemma_view_count_bound(tail: Seq<(Seq<u8>, int)>, i: int, m: int)
    requires
        0 <= i,
        0 <= m <= tail.len(),
    ensures
        0 <= view_count_smaller(tail, i, m) <= m,
        i < m ==> view_count_smaller(tail, i, m) <= m - 1,
    decreases m,
{
    if m > 0 {
        lemma_view_count_bound(tail, i, m - 1);
    }
}

/// If position `j` orders strictly before position `i`, strictly more
/// positions count against `i` than against `j`.
proof fn lemma_view_count_monotone(tail: Seq<(Seq<u8>, int)>, i: int, j: int, m: int)
    requires
        0 <= i < tail.len(),
        0 <= j < tail.len(),
        spec_lex_less(tail[j].0.len() as int, j, tail[i].0.len() as int, i),
    ensures
        view_count_smaller(tail, j, m) + (if j < m {
            1int
        } else {
            0int
        }) <= view_count_smaller(tail, i, m),
    decreases m,
{
    if m > 0 {
        lemma_view_count_monotone(tail, i, j, m - 1);
    }
}

/// Distinct positions have distinct counts: (length, position) orders
/// the tail totally.
proof fn lemma_view_count_injective(tail: Seq<(Seq<u8>, int)>, i: int, j: int)
    requires
        0 <= i < tail.len(),
        0 <= j < tail.len(),
        i != j,
    ensures
        view_count_smaller(tail, i, tail.len() as int) != view_count_smaller(
            tail,
            j,
            tail.len() as int,
        ),
{
    let li = tail[i].0.len() as int;
    let lj = tail[j].0.len() as int;
    if spec_lex_less(lj, j, li, i) {
        lemma_view_count_monotone(tail, i, j, tail.len() as int);
    } else {
        assert(spec_lex_less(li, i, lj, j));
        lemma_view_count_monotone(tail, j, i, tail.len() as int);
    }
}

/// The demoted positions below `m`, as a set.
spec fn demoted_set(tail: Seq<(Seq<u8>, int)>, k: int, m: int) -> Set<int> {
    Set::new(|i: int| 0 <= i < m && view_demoted(tail, k, i))
}

/// The demoted selection holds exactly the demoted positions.
proof fn lemma_selected_len_is_set_len(tail: Seq<(Seq<u8>, int)>, k: int, m: int)
    requires
        0 <= m <= tail.len(),
    ensures
        demoted_set(tail, k, m).finite(),
        view_selected(tail, k, m, true).len() == demoted_set(tail, k, m).len(),
    decreases m,
{
    vstd::set_lib::lemma_int_range(0, m);
    vstd::set_lib::lemma_len_subset(demoted_set(tail, k, m), vstd::set_lib::set_int_range(0, m));
    if m > 0 {
        lemma_selected_len_is_set_len(tail, k, m - 1);
        if view_demoted(tail, k, m - 1) {
            assert(demoted_set(tail, k, m) =~= demoted_set(tail, k, m - 1).insert(m - 1));
            assert(!demoted_set(tail, k, m - 1).contains(m - 1));
        } else {
            assert(demoted_set(tail, k, m) =~= demoted_set(tail, k, m - 1));
        }
    } else {
        assert(demoted_set(tail, k, 0) =~= Set::<int>::empty());
    }
}

/// Demotion takes exactly `k` entries: the count function is a bijection
/// between tail positions and ranks, so exactly `k` positions rank below
/// `k`.
pub proof fn lemma_demotion_exact_count(tail: Seq<(Seq<u8>, int)>, k: int)
    requires
        0 <= k <= tail.len(),
    ensures
        view_selected(tail, k, tail.len() as int, true).len() == k,
{
    let n = tail.len() as int;
    let rank = |i: int| view_count_smaller(tail, i, n);
    let whole = vstd::set_lib::set_int_range(0, n);
    vstd::set_lib::lemma_int_range(0, n);
    assert forall|i: int, j: int|
        whole.contains(i) && whole.contains(j) && i != j implies rank(i) != rank(j) by {
        lemma_view_count_injective(tail, i, j);
    }
    assert(vstd::relations::injective_on(rank, whole));
    let image = whole.map(rank);
    vstd::set_lib::lemma_map_size(whole, image, rank);
    assert forall|v: int| image.contains(v) implies whole.contains(v) by {
        let i = choose|i: int| whole.contains(i) && rank(i) == v;
        lemma_view_count_bound(tail, i, n);
    }
    assert(image.subset_of(whole));
    vstd::set_lib::lemma_subset_equality(image, whole);
    assert(image =~= whole);

    let dem = demoted_set(tail, k, n);
    lemma_selected_len_is_set_len(tail, k, n);
    let small = vstd::set_lib::set_int_range(0, k);
    vstd::set_lib::lemma_int_range(0, k);
    assert(vstd::relations::injective_on(rank, dem)) by {
        assert forall|i: int, j: int|
            dem.contains(i) && dem.contains(j) && i != j implies rank(i) != rank(j) by {
            lemma_view_count_injective(tail, i, j);
        }
    }
    assert(dem.map(rank) =~= small) by {
        assert forall|v: int| dem.map(rank).contains(v) implies small.contains(v) by {
            let i = choose|i: int| dem.contains(i) && rank(i) == v;
            lemma_view_count_bound(tail, i, n);
        }
        assert forall|v: int| small.contains(v) implies dem.map(rank).contains(v) by {
            assert(whole.contains(v));
            assert(image.contains(v));
            let i = choose|i: int| whole.contains(i) && rank(i) == v;
            assert(view_demoted(tail, k, i));
            assert(dem.contains(i));
            assert(dem.map(rank).contains(rank(i)));
        }
    }
    vstd::set_lib::lemma_map_size(dem, small, rank);
}

/// Demotion leaves exactly the datapath's segment limit in the zero-copy
/// tail whenever the tail was over it, and demotes nothing otherwise.
pub proof fn lemma_max_segs_exact_fit<D: Datapath>(d: D, prs: Seq<(Seq<u8>, int)>, nc: int)
    requires
        0 <= nc <= prs.len(),
        d.max_segments_spec() >= 0,
    ensures
        ({
            let tail = prs.subrange(nc, prs.len() as int);
            let max = d.max_segments_spec();
            if tail.len() <= max {
                view_reorder2(d, prs, nc) == prs
            } else {
                view_reorder2(d, prs, nc).len() - view_reorder2_nc(d, prs, nc) == max
            }
        }),
{
    let tail = prs.subrange(nc, prs.len() as int);
    let max = d.max_segments_spec();
    if tail.len() > max {
        let k = tail.len() - max;
        lemma_demotion_exact_count(tail, k);
        crate::hdr::lemma_view_selected_len_pub(tail, k, tail.len() as int);
    }
}

/// Flattening weighs the sum of the segments.
proof fn lemma_flatten_len(prs: Seq<(Seq<u8>, int)>)
    ensures
        view_flatten(prs).len() == view_sum(prs),
    decreases prs.len(),
{
    if prs.len() > 0 {
        lemma_flatten_len(prs.drop_last());
    }
}

/// Segment `j` of a flattened run sits at the sum of the segments before
/// it.
proof fn lemma_flatten_at(prs: Seq<(Seq<u8>, int)>, j: int)
    requires
        0 <= j < prs.len(),
    ensures
        view_sum(prs.subrange(0, j)) + prs[j].0.len() <= view_flatten(prs).len(),
        0 <= view_sum(prs.subrange(0, j)),
        view_flatten(prs).subrange(
            view_sum(prs.subrange(0, j)),
            view_sum(prs.subrange(0, j)) + prs[j].0.len(),
        ) == prs[j].0,
    decreases prs.len(),
{
    lemma_flatten_len(prs);
    lemma_view_sum_nonneg_law(prs.subrange(0, j));
    if j == prs.len() - 1 {
        assert(prs.subrange(0, j) =~= prs.drop_last());
        lemma_flatten_len(prs.drop_last());
        assert(view_flatten(prs).subrange(
            view_sum(prs.drop_last()),
            view_sum(prs.drop_last()) + prs[j].0.len(),
        ) =~= prs[j].0);
    } else {
        lemma_flatten_at(prs.drop_last(), j);
        assert(prs.drop_last().subrange(0, j) =~= prs.subrange(0, j));
        assert(prs.drop_last()[j] == prs[j]);
        lemma_flatten_len(prs.drop_last());
        let lo = view_sum(prs.subrange(0, j));
        let hi = lo + prs[j].0.len();
        assert(view_flatten(prs).subrange(lo, hi) =~= view_flatten(prs.drop_last()).subrange(
            lo,
            hi,
        ));
    }
}

/// Segment sums are never negative.
proof fn lemma_view_sum_nonneg_law(prs: Seq<(Seq<u8>, int)>)
    ensures
        view_sum(prs) >= 0,
    decreases prs.len(),
{
    if prs.len() > 0 {
        lemma_view_sum_nonneg_law(prs.drop_last());
    }
}

/// Whether byte `k` lies in some pair's eight-byte slot.
spec fn in_some_slot(prs: Seq<(Seq<u8>, int)>, k: int) -> bool {
    exists|j: int| 0 <= j < prs.len() && (#[trigger] prs[j]).1 <= k < prs[j].1 + 8
}

/// What back-patching writes, slot by slot: each pair's slot holds its
/// segment length and running transmission offset, and nothing else
/// changes.
proof fn lemma_backpatch_props(h: Seq<u8>, prs: Seq<(Seq<u8>, int)>, cur: int)
    requires
        forall|j: int| 0 <= j < prs.len() ==> 0 <= (#[trigger] prs[j]).1,
        forall|j: int| 0 <= j < prs.len() ==> (#[trigger] prs[j]).1 + 8 <= h.len(),
        forall|j1: int, j2: int|
            0 <= j1 < prs.len() && 0 <= j2 < prs.len() && j1 != j2 ==> (#[trigger] prs[j1]).1 + 8
                <= (#[trigger] prs[j2]).1 || prs[j2].1 + 8 <= prs[j1].1,
        forall|j: int| 0 <= j < prs.len() ==> (#[trigger] prs[j]).0.len() < 0x1_0000_0000,
        0 <= cur,
        cur + view_sum(prs) < 0x1_0000_0000,
    ensures
        view_backpatch(h, prs, cur).len() == h.len(),
        forall|j: int|
            0 <= j < prs.len() ==> view_backpatch(h, prs, cur).subrange(
                (#[trigger] prs[j]).1,
                prs[j].1 + 8,
            ) == spec_fwd_bytes(
                prs[j].0.len() as u32,
                (cur + view_sum(prs.subrange(0, j))) as u32,
            ),
        forall|k: int|
            0 <= k < h.len() && !in_some_slot(prs, k) ==> (#[trigger] view_backpatch(
                h,
                prs,
                cur,
            )[k]) == h[k],
    decreases prs.len(),
{
    lemma_view_sum_nonneg_law(prs);
    if prs.len() > 0 {
        let first = prs[0];
        let rest = prs.drop_first();
        let fwd = spec_fwd_bytes(first.0.len() as u32, cur as u32);
        crate::wire::lemma_u32_le_round_trip(first.0.len() as u32);
        crate::wire::lemma_u32_le_round_trip(cur as u32);
        let h1 = splice(h, first.1, fwd);
        lemma_splice(h, first.1, fwd);
        assert(prs =~= seq![first] + rest);
        crate::sga::lemma_view_sum_add(seq![first], rest);
        assert(seq![first].drop_last() =~= Seq::<(Seq<u8>, int)>::empty());
        assert(view_sum(Seq::<(Seq<u8>, int)>::empty()) == 0);
        assert(seq![first].last() == first);
        assert(view_sum(seq![first]) == view_sum(seq![first].drop_last()) + seq![first].last().0.len());
        assert(view_sum(seq![first]) == first.0.len());
        lemma_view_sum_nonneg_law(rest);
        lemma_backpatch_props(h1, rest, cur + first.0.len());
        let result = view_backpatch(h, prs, cur);
        assert(result == view_backpatch(h1, rest, cur + first.0.len()));
        // the first slot survives the remaining patches
        assert(result.subrange(first.1, first.1 + 8) =~= h1.subrange(first.1, first.1 + 8)) by {
            assert(forall|k: int|
                first.1 <= k < first.1 + 8 ==> !in_some_slot(rest, k));
        }
        assert(h1.subrange(first.1, first.1 + 8) =~= fwd);
        lemma_fwd_round_trip(h, first.1, first.0.len() as u32, cur as u32);
        // every later slot reads what the recursive patch wrote, with the
        // running offset shifted by the first segment
        assert forall|j: int| 1 <= j < prs.len() implies result.subrange(
            (#[trigger] prs[j]).1,
            prs[j].1 + 8,
        ) == spec_fwd_bytes(
            prs[j].0.len() as u32,
            (cur + view_sum(prs.subrange(0, j))) as u32,
        ) by {
            assert(rest[j - 1] == prs[j]);
            assert(prs.subrange(0, j) =~= seq![first] + rest.subrange(0, j - 1));
            crate::sga::lemma_view_sum_add(seq![first], rest.subrange(0, j - 1));
            assert(view_sum(prs.subrange(0, j)) == first.0.len() + view_sum(
                rest.subrange(0, j - 1),
            ));
        }
        // untouched bytes pass through both the first splice and the rest
        assert forall|k: int|
            0 <= k < h.len() && !in_some_slot(prs, k) implies (#[trigger] result[k]) == h[k] by {
            assert(!(first.1 <= k < first.1 + 8));
            assert(!in_some_slot(rest, k)) by {
                if in_some_slot(rest, k) {
                    let j = choose|j: int|
                        0 <= j < rest.len() && (#[trigger] rest[j]).1 <= k < rest[j].1 + 8;
                    assert(prs[j + 1].1 <= k < prs[j + 1].1 + 8);
                }
            }
            assert(result[k] == h1[k]);
            assert(h1[k] == h[k]);
        }
    }
}

/// Complementary filters hold a sequence's pairs exactly, as a multiset.
proof fn lemma_filter_multiset<D: Datapath>(d: D, prs: Seq<(Seq<u8>, int)>)
    ensures
        (prs.filter(|pr: (Seq<u8>, int)| !view_zero_copy(d, pr)) + prs.filter(
            |pr: (Seq<u8>, int)| view_zero_copy(d, pr),
        )).to_multiset() == prs.to_multiset(),
    decreases prs.len(),
{
    broadcast use vstd::seq_lib::group_to_multiset_ensures;

    reveal(Seq::filter);
    let cpp = |pr: (Seq<u8>, int)| !view_zero_copy(d, pr);
    let zcp = |pr: (Seq<u8>, int)| view_zero_copy(d, pr);
    if prs.len() == 0 {
        assert(prs.filter(cpp) + prs.filter(zcp) =~= prs);
    } else {
        lemma_filter_multiset(d, prs.drop_last());
        let x = prs.last();
        let c0 = prs.drop_last().filter(cpp);
        let z0 = prs.drop_last().filter(zcp);
        lemma_multiset_commutative(c0, z0);
        if cpp(x) {
            assert(prs.filter(cpp) == c0.push(x));
            assert(prs.filter(zcp) == z0);
            lemma_multiset_commutative(c0.push(x), z0);
            assert((c0.push(x)).to_multiset() =~= c0.to_multiset().insert(x));
            assert((c0.push(x) + z0).to_multiset() =~= prs.to_multiset()) by {
                assert(prs.drop_last().push(x) =~= prs);
            }
        } else {
            assert(prs.filter(cpp) == c0);
            assert(prs.filter(zcp) == z0.push(x));
            lemma_multiset_commutative(c0, z0.push(x));
            assert((z0.push(x)).to_multiset() =~= z0.to_multiset().insert(x));
            assert((c0 + z0.push(x)).to_multiset() =~= prs.to_multiset()) by {
                assert(prs.drop_last().push(x) =~= prs);
            }
        }
    }
}

/// The demoted and retained selections hold a tail's pairs exactly, as a
/// multiset.
proof fn lemma_selected_multiset(tail: Seq<(Seq<u8>, int)>, k: int, m: int)
    requires
        0 <= m <= tail.len(),
    ensures
        (view_selected(tail, k, m, true) + view_selected(tail, k, m, false)).to_multiset()
            == tail.subrange(0, m).to_multiset(),
    decreases m,
{
    broadcast use vstd::seq_lib::group_to_multiset_ensures;

    if m == 0 {
        assert(view_selected(tail, k, 0, true) + view_selected(tail, k, 0, false) =~= Seq::<
            (Seq<u8>, int),
        >::empty());
        assert(tail.subrange(0, 0) =~= Seq::<(Seq<u8>, int)>::empty());
    } else {
        lemma_selected_multiset(tail, k, m - 1);
        let st0 = view_selected(tail, k, m - 1, true);
        let sf0 = view_selected(tail, k, m - 1, false);
        let x = tail[m - 1];
        lemma_multiset_commutative(st0, sf0);
        assert(tail.subrange(0, m).drop_last() =~= tail.subrange(0, m - 1));
        assert(tail.subrange(0, m) =~= tail.subrange(0, m - 1).push(x));
        if view_demoted(tail, k, m - 1) {
            assert(view_selected(tail, k, m, true) =~= st0.push(x));
            assert(view_selected(tail, k, m, false) =~= sf0);
            lemma_multiset_commutative(st0.push(x), sf0);
            assert((st0.push(x)).to_multiset() =~= st0.to_multiset().insert(x));
        } else {
            assert(view_selected(tail, k, m, true) =~= st0);
            assert(view_selected(tail, k, m, false) =~= sf0.push(x));
            lemma_multiset_commutative(st0, sf0.push(x));
            assert((sf0.push(x)).to_multiset() =~= sf0.to_multiset().insert(x));
        }
    }
}

/// The whole reordering pipeline permutes the pairs: the reordered run
/// holds exactly the original pairs.
pub proof fn lemma_reorder_is_permutation<D: Datapath>(d: D, pairs0: Seq<(Seq<u8>, int)>)
    ensures
        ({
            let nc1 = view_reorder1_nc(d, pairs0);
            let pairs2 = view_reorder2(d, view_reorder1(d, pairs0), nc1);
            pairs2.to_multiset() == pairs0.to_multiset()
        }),
{
    broadcast use vstd::seq_lib::group_to_multiset_ensures;

    let cpp = |pr: (Seq<u8>, int)| !view_zero_copy(d, pr);
    let zcp = |pr: (Seq<u8>, int)| view_zero_copy(d, pr);
    let nc1 = view_reorder1_nc(d, pairs0);
    let pairs1 = view_reorder1(d, pairs0);
    lemma_filter_multiset(d, pairs0);
    crate::sga::lemma_filter_complement(pairs0, cpp, zcp);
    let tail = pairs1.subrange(nc1, pairs1.len() as int);
    let max = d.max_segments_spec();
    let pairs2 = view_reorder2(d, pairs1, nc1);
    if tail.len() <= max {
        assert(pairs2 == pairs1);
    } else {
        let k = tail.len() - max;
        lemma_selected_multiset(tail, k, tail.len() as int);
        assert(tail.subrange(0, tail.len() as int) =~= tail);
        let head = pairs1.subrange(0, nc1);
        let st = view_selected(tail, k, tail.len() as int, true);
        let sf = view_selected(tail, k, tail.len() as int, false);
        lemma_multiset_commutative(head, st + sf);
        lemma_multiset_commutative(st, sf);
        lemma_multiset_commutative(head, tail);
        assert(head + tail =~= pairs1);
        assert(pairs2 =~= head + (st + sf)) by {
            assert(pairs2 == head + st + sf);
            assert(head + st + sf =~= head + (st + sf));
        }
    }
}

/// Byte-string list elements put one slot per element in the table, 8
/// bytes apart.
proof fn lemma_vl_slots_cf(elts: Seq<CFBytes<'_>>, i: int, table: int, cur: int)
    requires
        0 <= i <= elts.len(),
    ensures
        vl_slots(elts, i, table, cur) =~= Seq::new(
            (elts.len() - i) as nat,
            |j: int| table + (i + j) * 8,
        ),
    decreases elts.len() - i,
{
    if i < elts.len() {
        lemma_vl_slots_cf(elts, i + 1, table, cur);
        assert(vl_slots(elts, i, table, cur) =~= Seq::new(
            (elts.len() - i) as nat,
            |j: int| table + (i + j) * 8,
        ));
    }
}

/// Byte-string list elements contribute one leaf each, in order.
proof fn lemma_vl_leaves_cf(elts: Seq<CFBytes<'_>>, i: int)
    requires
        0 <= i <= elts.len(),
    ensures
        vl_leaves(elts, i) =~= Seq::new((elts.len() - i) as nat, |j: int| elts[i + j].ptr@),
    decreases elts.len() - i,
{
    if i < elts.len() {
        lemma_vl_leaves_cf(elts, i + 1);
        assert(vl_leaves(elts, i) =~= Seq::new(
            (elts.len() - i) as nat,
            |j: int| elts[i + j].ptr@,
        ));
    }
}

/// Byte-string list elements write no header bytes of their own.
proof fn lemma_vl_image_cf(elts: Seq<CFBytes<'_>>, i: int, h: Seq<u8>, table: int, cur: int)
    requires
        0 <= i <= elts.len(),
    ensures
        vl_image(elts, i, h, table, cur) == h,
    decreases elts.len() - i,
{
    if i < elts.len() {
        lemma_vl_image_cf(elts, i + 1, h, table, cur);
    }
}

/// Byte-string list elements cost one scatter-gather entry and eight
/// table bytes each.
proof fn lemma_vl_counts_cf(elts: Seq<CFBytes<'_>>, i: int)
    requires
        0 <= i <= elts.len(),
    ensures
        vl_n_sge(elts, i) == elts.len() - i,
        vl_dyn_size(elts, i) == (elts.len() - i) * 8,
    decreases elts.len() - i,
{
    if i < elts.len() {
        lemma_vl_counts_cf(elts, i + 1);
        assert((elts.len() - i) * 8 == (elts.len() - i - 1) * 8 + 8) by (nonlinear_arith);
    }
}

/// If every table slot parses to its expected bytes, the whole element
/// run parses to them in order.
proof fn lemma_vl_parse_cf(buffer: Seq<u8>, table: int, n: int, vals: Seq<Seq<u8>>)
    requires
        0 <= n,
        vals.len() == n,
        forall|j: int|
            0 <= j < n ==> CFBytes::parse(buffer, table + j * 8) == Some(#[trigger] vals[j]),
    ensures
        vl_parse_elems::<CFBytes<'_>>(buffer, table, n) == Some(vals),
    decreases n,
{
    if n == 0 {
        assert(vals =~= Seq::<Seq<u8>>::empty());
    } else {
        lemma_vl_parse_cf(buffer, table, n - 1, vals.subrange(0, n - 1));
        assert(CFBytes::parse(buffer, table + (n - 1) * 8) == Some(vals[n - 1]));
        assert(vals.subrange(0, n - 1).push(vals[n - 1]) =~= vals);
    }
}


/// After back-patching, the slot a pair names parses to the bytes the
/// pair carries: the forward pointer holds the segment's length and its
/// running offset into the flattened tail.
#[verifier::rlimit(100)]
#[verifier::spinoff_prover]
proof fn lemma_patched_slot_parses(
    h1: Seq<u8>,
    pairs2: Seq<(Seq<u8>, int)>,
    hlen: int,
    s: int,
    bytes: Seq<u8>,
)
    requires
        h1.len() == hlen,
        hlen < 0x1_0000_0000,
        pairs2.contains((bytes, s)),
        forall|j: int| 0 <= j < pairs2.len() ==> 0 <= (#[trigger] pairs2[j]).1,
        forall|j: int| 0 <= j < pairs2.len() ==> (#[trigger] pairs2[j]).1 + 8 <= hlen,
        forall|j1: int, j2: int|
            0 <= j1 < pairs2.len() && 0 <= j2 < pairs2.len() && j1 != j2 ==> (
            #[trigger] pairs2[j1]).1 + 8 <= (#[trigger] pairs2[j2]).1 || pairs2[j2].1 + 8
                <= pairs2[j1].1,
        forall|j: int| 0 <= j < pairs2.len() ==> (#[trigger] pairs2[j]).0.len() < 0x1_0000_0000,
        hlen + view_sum(pairs2) < 0x1_0000_0000,
    ensures
        CFBytes::parse(view_backpatch(h1, pairs2, hlen) + view_flatten(pairs2), s) == Some(bytes),
{
    lemma_backpatch_props(h1, pairs2, hlen);
    let patched = view_backpatch(h1, pairs2, hlen);
    let flat = view_flatten(pairs2);
    lemma_flatten_len(pairs2);
    lemma_view_sum_nonneg_law(pairs2);
    let wire = patched + flat;
    let j = choose|j: int| 0 <= j < pairs2.len() && pairs2[j] == (bytes, s);
    assert(pairs2[j].1 == s && pairs2[j].0 == bytes);
    let presum = view_sum(pairs2.subrange(0, j));
    let off = hlen + presum;
    assert(patched.subrange(s, s + 8) == spec_fwd_bytes(pairs2[j].0.len() as u32, off as u32));
    assert(wire.subrange(s, s + 8) =~= patched.subrange(s, s + 8));
    lemma_view_sum_nonneg_law(pairs2.subrange(0, j));
    assert(pairs2 =~= pairs2.subrange(0, j) + pairs2.skip(j));
    crate::sga::lemma_view_sum_add(pairs2.subrange(0, j), pairs2.skip(j));
    assert(pairs2.skip(j) =~= seq![pairs2[j]] + pairs2.skip(j + 1));
    crate::sga::lemma_view_sum_add(seq![pairs2[j]], pairs2.skip(j + 1));
    lemma_view_sum_nonneg_law(pairs2.skip(j + 1));
    assert(seq![pairs2[j]].drop_last() =~= Seq::<(Seq<u8>, int)>::empty());
    assert(view_sum(Seq::<(Seq<u8>, int)>::empty()) == 0);
    assert(seq![pairs2[j]].last() == pairs2[j]);
    assert(view_sum(seq![pairs2[j]]) == pairs2[j].0.len());
    assert(presum + pairs2[j].0.len() <= view_sum(pairs2));
    assert(off + pairs2[j].0.len() <= wire.len());
    assert(off < 0x1_0000_0000);
    crate::wire::lemma_u32_le_round_trip(pairs2[j].0.len() as u32);
    crate::wire::lemma_u32_le_round_trip(off as u32);
    assert(crate::fwd::spec_fwd_size(wire, s) == pairs2[j].0.len() as u32) by {
        assert(wire.subrange(s, s + 4) =~= patched.subrange(s, s + 8).subrange(0, 4));
        assert(patched.subrange(s, s + 8).subrange(0, 4) =~= vstd::bytes::spec_u32_to_le_bytes(
            pairs2[j].0.len() as u32,
        ));
    }
    assert(crate::fwd::spec_fwd_offset(wire, s) == off as u32) by {
        assert(wire.subrange(s + 4, s + 8) =~= patched.subrange(s, s + 8).subrange(4, 8));
        assert(patched.subrange(s, s + 8).subrange(4, 8) =~= vstd::bytes::spec_u32_to_le_bytes(
            off as u32,
        ));
    }
    lemma_flatten_at(pairs2, j);
    assert(wire.subrange(off, off + pairs2[j].0.len()) =~= flat.subrange(
        presum,
        presum + pairs2[j].0.len(),
    ));
    assert(wire.subrange(off, off + pairs2[j].0.len()) == bytes);
    assert(CFBytes::parse(wire, s) == Some(bytes));
}


/// The reordering pipeline keeps exactly the original pairs: lengths and
/// sums are preserved, every pair survives, and per-pair slot bounds and
/// slot disjointness carry over.
#[verifier::rlimit(100)]
#[verifier::spinoff_prover]
proof fn lemma_reorder_preserves_pairs<D: Datapath>(
    d: D,
    pairs0: Seq<(Seq<u8>, int)>,
    lo: int,
    hi: int,
)
    requires
        pairs0.no_duplicates(),
        forall|i: int|
            0 <= i < pairs0.len() ==> lo <= (#[trigger] pairs0[i]).1 && pairs0[i].1 + 8 <= hi
                && pairs0[i].0.len() < 0x1_0000_0000,
        forall|i1: int, i2: int|
            0 <= i1 < pairs0.len() && 0 <= i2 < pairs0.len() && i1 != i2 ==> (
            #[trigger] pairs0[i1]).1 + 8 <= (#[trigger] pairs0[i2]).1 || pairs0[i2].1 + 8
                <= pairs0[i1].1,
    ensures
        ({
            let nc1 = view_reorder1_nc(d, pairs0);
            let pairs2 = view_reorder2(d, view_reorder1(d, pairs0), nc1);
            &&& pairs2.len() == pairs0.len()
            &&& view_sum(pairs2) == view_sum(pairs0)
            &&& (forall|j: int| 0 <= j < pairs2.len() ==> pairs0.contains(#[trigger] pairs2[j]))
            &&& (forall|i: int| 0 <= i < pairs0.len() ==> pairs2.contains(#[trigger] pairs0[i]))
            &&& (forall|j: int|
                0 <= j < pairs2.len() ==> lo <= (#[trigger] pairs2[j]).1 && pairs2[j].1 + 8 <= hi
                    && pairs2[j].0.len() < 0x1_0000_0000)
            &&& (forall|j1: int, j2: int|
                0 <= j1 < pairs2.len() && 0 <= j2 < pairs2.len() && j1 != j2 ==> (
                #[trigger] pairs2[j1]).1 + 8 <= (#[trigger] pairs2[j2]).1 || pairs2[j2].1 + 8
                    <= pairs2[j1].1)
        }),
{
    broadcast use vstd::seq_lib::group_to_multiset_ensures;

    reveal(Seq::filter);
    let cpp = |pr: (Seq<u8>, int)| !view_zero_copy(d, pr);
    let zcp = |pr: (Seq<u8>, int)| view_zero_copy(d, pr);
    let nc1 = view_reorder1_nc(d, pairs0);
    let pairs1 = view_reorder1(d, pairs0);
    let pairs2 = view_reorder2(d, pairs1, nc1);
    lemma_reorder_is_permutation(d, pairs0);
    pairs0.lemma_multiset_has_no_duplicates();
    assert(forall|x: (Seq<u8>, int)|
        pairs2.to_multiset().contains(x) ==> pairs2.to_multiset().count(x) == 1);
    pairs2.lemma_multiset_has_no_duplicates_conv();
    assert(pairs0.to_multiset().len() == pairs0.len());
    assert(pairs2.to_multiset().len() == pairs2.len());
    assert forall|j: int| 0 <= j < pairs2.len() implies pairs0.contains(#[trigger] pairs2[j]) by {
        assert(pairs2.contains(pairs2[j]));
        assert(pairs2.to_multiset().count(pairs2[j]) > 0);
        assert(pairs0.to_multiset().count(pairs2[j]) > 0);
    }
    assert forall|i: int| 0 <= i < pairs0.len() implies pairs2.contains(#[trigger] pairs0[i]) by {
        assert(pairs0.contains(pairs0[i]));
        assert(pairs0.to_multiset().count(pairs0[i]) > 0);
        assert(pairs2.to_multiset().count(pairs0[i]) > 0);
    }
    assert forall|j: int|
        0 <= j < pairs2.len() implies lo <= (#[trigger] pairs2[j]).1 && pairs2[j].1 + 8 <= hi
            && pairs2[j].0.len() < 0x1_0000_0000 by {
        let i = choose|i: int| 0 <= i < pairs0.len() && pairs0[i] == pairs2[j];
    }
    assert forall|j1: int, j2: int|
        0 <= j1 < pairs2.len() && 0 <= j2 < pairs2.len() && j1 != j2 implies (
    #[trigger] pairs2[j1]).1 + 8 <= (#[trigger] pairs2[j2]).1 || pairs2[j2].1 + 8
        <= pairs2[j1].1 by {
        let i1 = choose|i: int| 0 <= i < pairs0.len() && pairs0[i] == pairs2[j1];
        let i2 = choose|i: int| 0 <= i < pairs0.len() && pairs0[i] == pairs2[j2];
        assert(pairs2[j1] != pairs2[j2]);
        assert(i1 != i2);
    }
    // segment sums survive both reorderings
    crate::sga::lemma_view_sum_filter(d, pairs0);
    crate::sga::lemma_view_sum_add(pairs0.filter(cpp), pairs0.filter(zcp));
    assert(view_sum(pairs1) == view_sum(pairs0));
    let tail = pairs1.subrange(nc1, pairs1.len() as int);
    let max = d.max_segments_spec();
    if tail.len() <= max {
        assert(pairs2 == pairs1);
    } else {
        let k = tail.len() - max;
        let st = view_selected(tail, k, tail.len() as int, true);
        let sf = view_selected(tail, k, tail.len() as int, false);
        crate::sga::lemma_view_sum_selected(tail, k, tail.len() as int);
        assert(tail.subrange(0, tail.len() as int) =~= tail);
        crate::sga::lemma_view_sum_add(pairs1.subrange(0, nc1), st);
        crate::sga::lemma_view_sum_add(pairs1.subrange(0, nc1) + st, sf);
        crate::sga::lemma_view_sum_add(pairs1.subrange(0, nc1), tail);
        assert(pairs1.subrange(0, nc1) + tail =~= pairs1);
        assert((pairs1.subrange(0, nc1) + st) + sf =~= pairs2);
        assert(view_sum(pairs2) == view_sum(pairs1));
    }
}

/// Round-trip for the list message: serializing any well-formed `ListCF`
/// into a header buffer of its own header size and deserializing the
/// back-patched header followed by the reordered segments gives back its
/// abstract value, under any datapath's reordering.
#[verifier::rlimit(100)]
#[verifier::spinoff_prover]
pub proof fn lemma_list_round_trip<D: Datapath>(m: ListCF<'_>, h_old: Seq<u8>, d: D)
    requires
        m.wf(),
        h_old.len() == m.dyn_size(),
        m.dyn_size() + spec_sum_len(m.leaves()) < 0x1_0000_0000,
    ensures
        ({
            let h1 = m.image(h_old, 0, m.dyn_start());
            let pairs0 = spec_leaf_pairs(&m, 0, m.dyn_start());
            let nc1 = view_reorder1_nc(d, pairs0);
            let pairs2 = view_reorder2(d, view_reorder1(d, pairs0), nc1);
            let wire = view_backpatch(h1, pairs2, m.dyn_size()) + view_flatten(pairs2);
            ListCF::parse(wire, 0) == Some(m.abs())
        }),
{
    reveal(Seq::filter);
    lemma_auto_spec_u32_to_from_le_bytes();
    let h1 = m.image(h_old, 0, 16);
    let pairs0 = spec_leaf_pairs(&m, 0, 16);
    let nc1 = view_reorder1_nc(d, pairs0);
    let pairs1 = view_reorder1(d, pairs0);
    let pairs2 = view_reorder2(d, pairs1, nc1);
    let bb = crate::bitmap::spec_bitmap_bytes(m.bitmap@);
    assert(bb.len() == 8);
    let cpp = |pr: (Seq<u8>, int)| !view_zero_copy(d, pr);
    let zcp = |pr: (Seq<u8>, int)| view_zero_copy(d, pr);
    if m.bitmap@[0] == 1 {
        let elts = m.messages.elts@;
        let n = elts.len() as int;
        lemma_vl_counts_cf(elts, 0);
        lemma_vl_slots_cf(elts, 0, 16, 16 + 8 * n);
        lemma_vl_leaves_cf(elts, 0);
        assert(m.dyn_size() == 16 + n * 8);
        assert(h_old.len() == 16 + n * 8);
        let fwd = spec_fwd_bytes(n as u32, 16u32);
        let hb = splice(h_old, 0, bb);
        lemma_splice(h_old, 0, bb);
        let h1e = splice(hb, 8, fwd);
        lemma_splice(hb, 8, fwd);
        lemma_fwd_round_trip(hb, 8, n as u32, 16u32);
        assert(h1 == h1e) by {
            lemma_vl_image_cf(elts, 0, h1e, 16, 16 + 8 * n);
        }
        assert(h1.len() == 16 + n * 8);
        // the leaf pairs: element bytes, slots eight bytes apart
        assert(pairs0.len() == n);
        assert(forall|i: int|
            0 <= i < n ==> (#[trigger] pairs0[i]) == (elts[i].ptr@, 16 + i * 8));
        // the reordered pairs hold exactly the same (bytes, slot) pairs
        assert(pairs0.no_duplicates()) by {
            assert(forall|i: int, j: int|
                0 <= i < n && 0 <= j < n && i != j ==> (#[trigger] pairs0[i]).1 != (
                #[trigger] pairs0[j]).1);
        }
        assert forall|i: int|
            0 <= i < pairs0.len() implies 16 <= (#[trigger] pairs0[i]).1 && pairs0[i].1 + 8 <= 16
                + n * 8 && pairs0[i].0.len() < 0x1_0000_0000 by {
            assert(0 <= i * 8 && i * 8 + 8 <= n * 8) by (nonlinear_arith)
                requires
                    0 <= i < n,
            ;
        }
        assert forall|i1: int, i2: int|
            0 <= i1 < pairs0.len() && 0 <= i2 < pairs0.len() && i1 != i2 implies (
        #[trigger] pairs0[i1]).1 + 8 <= (#[trigger] pairs0[i2]).1 || pairs0[i2].1 + 8
            <= pairs0[i1].1 by {
            assert(i1 * 8 + 8 <= i2 * 8 || i2 * 8 + 8 <= i1 * 8) by (nonlinear_arith)
                requires
                    i1 != i2,
            ;
        }
        lemma_reorder_preserves_pairs(d, pairs0, 16, 16 + n * 8);
        assert(pairs2.len() == n);
        // segment sums survive both reorderings
        crate::hdr::lemma_leaf_pairs_sum(m.leaves(), m.slots(0, 16), m.n_sge());
        assert(m.leaves().subrange(0, m.n_sge()) =~= m.leaves());
        assert(view_sum(pairs0) == spec_sum_len(m.leaves()));
        assert(view_sum(pairs2) == spec_sum_len(m.leaves()));
        // back-patch every slot
        lemma_backpatch_props(h1, pairs2, 16 + n * 8);
        let patched = view_backpatch(h1, pairs2, 16 + n * 8);
        let flat = view_flatten(pairs2);
        lemma_flatten_len(pairs2);
        lemma_view_sum_nonneg_law(pairs2);
        let wire = patched + flat;
        assert(wire.len() == 16 + n * 8 + view_sum(pairs2));
        // the bitmap and the list forward pointer are untouched
        assert(forall|k: int| 0 <= k < 16 ==> !in_some_slot(pairs2, k));
        assert(forall|k: int| 0 <= k < 16 ==> (#[trigger] wire[k]) == h1[k]);
        assert(wire.subrange(0, 4) =~= bb.subrange(0, 4));
        assert(bb.subrange(0, 4) =~= vstd::bytes::spec_u32_to_le_bytes(4u32));
        assert(spec_u32_from_le_bytes(bb.subrange(0, 4)) == 4u32);
        assert(crate::bitmap::spec_parse_bitmap(wire, 0) is Some);
        let bm = crate::bitmap::spec_parse_bitmap(wire, 0).unwrap();
        assert(bm =~= m.bitmap@) by {
            assert(forall|k: int| 0 <= k < 4 ==> #[trigger] wire[4 + k] == h1[4 + k]);
            assert(forall|k: int| 0 <= k < 4 ==> #[trigger] h1[4 + k] == m.bitmap@[k]);
        }
        assert(bm.len() == 4 && bm[0] == 1);
        // the list forward pointer reads back (count, table offset)
        assert(wire.subrange(8, 12) =~= h1.subrange(8, 12));
        assert(wire.subrange(12, 16) =~= h1.subrange(12, 16));
        assert(crate::fwd::spec_fwd_size(wire, 8) == n as u32) by {
            assert(h1.subrange(8, 12) =~= vstd::bytes::spec_u32_to_le_bytes(n as u32));
        }
        assert(crate::fwd::spec_fwd_offset(wire, 8) == 16u32) by {
            assert(h1.subrange(12, 16) =~= vstd::bytes::spec_u32_to_le_bytes(16u32));
        }
        // each element's table slot parses to its bytes
        assert forall|i: int| 0 <= i < n implies CFBytes::parse(wire, 16 + i * 8) == Some(
            #[trigger] elts[i].ptr@,
        ) by {
            assert(pairs2.contains(pairs0[i]));
            assert(pairs0[i] == (elts[i].ptr@, 16 + i * 8));
            lemma_patched_slot_parses(h1, pairs2, 16 + n * 8, 16 + i * 8, elts[i].ptr@);
        }
        let vals = Seq::new(n as nat, |i: int| elts[i].ptr@);
        lemma_vl_parse_cf(wire, 16, n, vals);
        assert(VariableList::<CFBytes<'_>>::parse(wire, 8) == Some(vals));
        assert(vals =~= m.messages.abs());
        assert(ListCF::parse(wire, 0) == Some(ListAbs { has_messages: true, messages: vals }));
        assert(m.abs() == ListAbs { has_messages: true, messages: vals });
    } else {
        assert(pairs0.len() == 0);
        assert(pairs0 =~= Seq::<(Seq<u8>, int)>::empty());
        assert(pairs0.filter(cpp) =~= Seq::<(Seq<u8>, int)>::empty());
        assert(pairs0.filter(zcp) =~= Seq::<(Seq<u8>, int)>::empty());
        assert(pairs1 =~= Seq::<(Seq<u8>, int)>::empty());
        assert(nc1 == 0);
        let tail = pairs1.subrange(0, 0);
        assert(tail.len() == 0);
        assert(pairs2 == pairs1);
        assert(pairs2.len() == 0);
        assert(m.dyn_size() == 16);
        let hb = splice(h_old, 0, bb);
        lemma_splice(h_old, 0, bb);
        assert(h1 == hb);
        assert(view_backpatch(h1, pairs2, 16) == h1);
        assert(view_flatten(pairs2) =~= Seq::<u8>::empty());
        let wire = h1 + view_flatten(pairs2);
        assert(wire =~= hb);
        assert(wire.subrange(0, 4) =~= bb.subrange(0, 4));
        assert(bb.subrange(0, 4) =~= vstd::bytes::spec_u32_to_le_bytes(4u32));
        assert(spec_u32_from_le_bytes(bb.subrange(0, 4)) == 4u32);
        assert(crate::bitmap::spec_parse_bitmap(wire, 0) is Some);
        let bm = crate::bitmap::spec_parse_bitmap(wire, 0).unwrap();
        assert(bm =~= m.bitmap@) by {
            assert(forall|k: int| 0 <= k < 4 ==> #[trigger] wire[4 + k] == bb[4 + k]);
            assert(forall|k: int| 0 <= k < 4 ==> #[trigger] bb[4 + k] == m.bitmap@[k]);
        }
        assert(!(bm.len() >= 1 && bm[0] == 1));
        assert(ListCF::parse(wire, 0) == Some(
            ListAbs { has_messages: false, messages: Seq::empty() },
        ));
        assert(m.abs() == ListAbs { has_messages: false, messages: Seq::<Seq<u8>>::empty() });
    }
}

/// A nested single-buffer child parses back out of the patched wire: its
/// bitmap sits untouched at its own header start, and its one leaf slot,
/// when present, was back-patched with the leaf's position.
#[verifier::rlimit(100)]
#[verifier::spinoff_prover]
proof fn lemma_patched_child_parses(
    h1: Seq<u8>,
    pairs2: Seq<(Seq<u8>, int)>,
    hlen: int,
    dl: int,
    child: SingleBufferCF<'_>,
)
    requires
        child.wf(),
        h1.len() == hlen,
        hlen < 0x1_0000_0000,
        0 <= dl,
        dl + 16 <= hlen,
        h1.subrange(dl, dl + 8) == crate::bitmap::spec_bitmap_bytes(child.bitmap@),
        child.bitmap@[0] == 1 ==> pairs2.contains((child.message.ptr@, dl + 8)),
        forall|j: int| 0 <= j < pairs2.len() ==> 0 <= (#[trigger] pairs2[j]).1,
        forall|j: int| 0 <= j < pairs2.len() ==> (#[trigger] pairs2[j]).1 + 8 <= hlen,
        forall|j: int|
            0 <= j < pairs2.len() ==> (#[trigger] pairs2[j]).1 >= dl + 8 || pairs2[j].1 + 8 <= dl,
        forall|j1: int, j2: int|
            0 <= j1 < pairs2.len() && 0 <= j2 < pairs2.len() && j1 != j2 ==> (
            #[trigger] pairs2[j1]).1 + 8 <= (#[trigger] pairs2[j2]).1 || pairs2[j2].1 + 8
                <= pairs2[j1].1,
        forall|j: int| 0 <= j < pairs2.len() ==> (#[trigger] pairs2[j]).0.len() < 0x1_0000_0000,
        hlen + view_sum(pairs2) < 0x1_0000_0000,
    ensures
        SingleBufferCF::parse(view_backpatch(h1, pairs2, hlen) + view_flatten(pairs2), dl)
            == Some(child.abs()),
{
    lemma_auto_spec_u32_to_from_le_bytes();
    lemma_backpatch_props(h1, pairs2, hlen);
    let patched = view_backpatch(h1, pairs2, hlen);
    let flat = view_flatten(pairs2);
    lemma_flatten_len(pairs2);
    lemma_view_sum_nonneg_law(pairs2);
    let wire = patched + flat;
    let bb = crate::bitmap::spec_bitmap_bytes(child.bitmap@);
    assert(bb.len() == 8);
    assert(forall|k: int| dl <= k < dl + 8 ==> !in_some_slot(pairs2, k));
    assert(forall|k: int| dl <= k < dl + 8 ==> (#[trigger] wire[k]) == h1[k]);
    assert(forall|k: int| 0 <= k < 8 ==> #[trigger] h1[dl + k] == bb[k]) by {
        assert(forall|k: int|
            0 <= k < 8 ==> #[trigger] h1.subrange(dl, dl + 8)[k] == h1[dl + k]);
    }
    assert(wire.subrange(dl, dl + 4) =~= bb.subrange(0, 4));
    assert(bb.subrange(0, 4) =~= vstd::bytes::spec_u32_to_le_bytes(4u32));
    assert(spec_u32_from_le_bytes(bb.subrange(0, 4)) == 4u32);
    assert(crate::bitmap::spec_parse_bitmap(wire, dl) is Some);
    let bm = crate::bitmap::spec_parse_bitmap(wire, dl).unwrap();
    assert(bm == child.bitmap@) by {
        assert(bm =~= wire.subrange(dl + 4, dl + 8));
        assert(wire.subrange(dl + 4, dl + 8) =~= h1.subrange(dl + 4, dl + 8));
        assert(h1.subrange(dl + 4, dl + 8) =~= h1.subrange(dl, dl + 8).subrange(4, 8));
        assert(bb.subrange(4, 8) =~= child.bitmap@);
    }
    if child.bitmap@[0] == 1 {
        assert(bm.len() == 4 && bm[0] == 1);
        lemma_patched_slot_parses(h1, pairs2, hlen, dl + 8, child.message.ptr@);
        assert(SingleBufferCF::parse(wire, dl) == Some(
            SingleBufferAbs { has_message: true, message: child.message.ptr@ },
        ));
    } else {
        assert(!(bm.len() >= 1 && bm[0] == 1));
        assert(SingleBufferCF::parse(wire, dl) == Some(
            SingleBufferAbs { has_message: false, message: Seq::empty() },
        ));
    }
}

/// The header image of a one-level tree, written out: the bitmap, then
/// for each present child its pointer's offset half and the child's own
/// bitmap at its header start.
pub open spec fn spec_tree1_image_explicit(m: Tree1LCF<'_>, h_old: Seq<u8>) -> Seq<u8> {
    let bb = crate::bitmap::spec_bitmap_bytes(m.bitmap@);
    let hb = splice(h_old, 0, bb);
    let dl = 24int;
    let dr = 24 + if m.bitmap@[0] == 1 {
        16int
    } else {
        0
    };
    let h_after_l = if m.bitmap@[0] == 1 {
        splice(
            splice(hb, 12, vstd::bytes::spec_u32_to_le_bytes(dl as u32)),
            dl,
            crate::bitmap::spec_bitmap_bytes(m.left.bitmap@),
        )
    } else {
        hb
    };
    if m.bitmap@[1] == 1 {
        splice(
            splice(h_after_l, 20, vstd::bytes::spec_u32_to_le_bytes(dr as u32)),
            dr,
            crate::bitmap::spec_bitmap_bytes(m.right.bitmap@),
        )
    } else {
        h_after_l
    }
}

/// The tree's serialization image equals its written-out form, and keeps
/// the buffer length.
#[verifier::rlimit(100)]
#[verifier::spinoff_prover]
proof fn lemma_tree1_image_shape(m: Tree1LCF<'_>, h_old: Seq<u8>)
    requires
        m.wf(),
        h_old.len() == m.dyn_size(),
        h_old.len() < 0x1_0000_0000,
    ensures
        m.image(h_old, 0, 24) == spec_tree1_image_explicit(m, h_old),
        spec_tree1_image_explicit(m, h_old).len() == h_old.len(),
{
    lemma_auto_spec_u32_to_from_le_bytes();
    m.lemma_basic_facts();
    let bb = crate::bitmap::spec_bitmap_bytes(m.bitmap@);
    assert(bb.len() == 8);
    let hb = splice(h_old, 0, bb);
    lemma_splice(h_old, 0, bb);
    let dl = 24int;
    let dr = 24 + if m.bitmap@[0] == 1 {
        16int
    } else {
        0
    };
    let h_after_l = if m.bitmap@[0] == 1 {
        let lp = vstd::bytes::spec_u32_to_le_bytes(dl as u32);
        lemma_splice(hb, 12, lp);
        let lb = crate::bitmap::spec_bitmap_bytes(m.left.bitmap@);
        assert(lb.len() == 8);
        lemma_splice(splice(hb, 12, lp), dl, lb);
        splice(splice(hb, 12, lp), dl, lb)
    } else {
        hb
    };
    if m.bitmap@[1] == 1 {
        let rp = vstd::bytes::spec_u32_to_le_bytes(dr as u32);
        lemma_splice(h_after_l, 20, rp);
        let rb = crate::bitmap::spec_bitmap_bytes(m.right.bitmap@);
        assert(rb.len() == 8);
        lemma_splice(splice(h_after_l, 20, rp), dr, rb);
    }
}

/// Round-trip for the one-level tree message: serializing any
/// well-formed `Tree1LCF` into a header buffer of its own header size
/// and deserializing the back-patched header followed by the reordered
/// segments gives back its abstract value, under any datapath's
/// reordering.
#[verifier::rlimit(100)]
#[verifier::spinoff_prover]
pub proof fn lemma_tree1_round_trip<D: Datapath>(m: Tree1LCF<'_>, h_old: Seq<u8>, d: D)
    requires
        m.wf(),
        h_old.len() == m.dyn_size(),
        m.dyn_size() + spec_sum_len(m.leaves()) < 0x1_0000_0000,
    ensures
        ({
            let h1 = m.image(h_old, 0, m.dyn_start());
            let pairs0 = spec_leaf_pairs(&m, 0, m.dyn_start());
            let nc1 = view_reorder1_nc(d, pairs0);
            let pairs2 = view_reorder2(d, view_reorder1(d, pairs0), nc1);
            let wire = view_backpatch(h1, pairs2, m.dyn_size()) + view_flatten(pairs2);
            Tree1LCF::parse(wire, 0) == Some(m.abs())
        }),
{
    lemma_auto_spec_u32_to_from_le_bytes();
    m.lemma_basic_facts();
    lemma_leaf_sum_nonneg(m.leaves());
    let hl = m.bitmap@[0] == 1;
    let hr = m.bitmap@[1] == 1;
    let lm = hl && m.left.bitmap@[0] == 1;
    let rm = hr && m.right.bitmap@[0] == 1;
    let dl = 24int;
    let dr = 24 + if hl {
        16int
    } else {
        0
    };
    let hlen = m.dyn_size();
    let h1 = m.image(h_old, 0, 24);
    let pairs0 = spec_leaf_pairs(&m, 0, 24);
    let nc1 = view_reorder1_nc(d, pairs0);
    let pairs1 = view_reorder1(d, pairs0);
    let pairs2 = view_reorder2(d, pairs1, nc1);
    let lb = m.left.message.ptr@;
    let rb = m.right.message.ptr@;
    // the leaf pairs, by presence of each child's field
    let expected: Seq<(Seq<u8>, int)> = if lm && rm {
        seq![(lb, dl + 8), (rb, dr + 8)]
    } else if lm {
        seq![(lb, dl + 8)]
    } else if rm {
        seq![(rb, dr + 8)]
    } else {
        Seq::empty()
    };
    assert(pairs0 =~= expected);
    // the reordered pairs hold exactly the same (bytes, slot) pairs
    assert(pairs0.no_duplicates());
    assert(forall|i: int|
        0 <= i < pairs0.len() ==> 32 <= (#[trigger] pairs0[i]).1 && pairs0[i].1 + 8 <= hlen
            && pairs0[i].0.len() < 0x1_0000_0000);
    assert(forall|i1: int, i2: int|
        0 <= i1 < pairs0.len() && 0 <= i2 < pairs0.len() && i1 != i2 ==> (
        #[trigger] pairs0[i1]).1 + 8 <= (#[trigger] pairs0[i2]).1 || pairs0[i2].1 + 8
            <= pairs0[i1].1);
    lemma_reorder_preserves_pairs(d, pairs0, 32, hlen);
    // segment sums match the leaves
    crate::hdr::lemma_leaf_pairs_sum(m.leaves(), m.slots(0, 24), m.n_sge());
    assert(m.leaves().subrange(0, m.n_sge()) =~= m.leaves());
    assert(view_sum(pairs2) == spec_sum_len(m.leaves()));
    // the header image, written out
    lemma_tree1_image_shape(m, h_old);
    let he = spec_tree1_image_explicit(m, h_old);
    assert(h1 == he);
    assert(h1.len() == hlen);
    // back-patch and flatten
    lemma_backpatch_props(h1, pairs2, hlen);
    let patched = view_backpatch(h1, pairs2, hlen);
    let flat = view_flatten(pairs2);
    lemma_flatten_len(pairs2);
    lemma_view_sum_nonneg_law(pairs2);
    let wire = patched + flat;
    // the bitmap and both field slots are untouched by the back-patch
    assert(forall|k: int| 0 <= k < 24 ==> !in_some_slot(pairs2, k));
    assert(forall|k: int| 0 <= k < 24 ==> (#[trigger] wire[k]) == h1[k]);
    let bb = crate::bitmap::spec_bitmap_bytes(m.bitmap@);
    assert(bb.len() == 8);
    assert(forall|k: int| 0 <= k < 8 ==> #[trigger] h1[k] == bb[k]);
    assert(wire.subrange(0, 4) =~= bb.subrange(0, 4));
    assert(bb.subrange(0, 4) =~= vstd::bytes::spec_u32_to_le_bytes(4u32));
    assert(spec_u32_from_le_bytes(bb.subrange(0, 4)) == 4u32);
    assert(crate::bitmap::spec_parse_bitmap(wire, 0) is Some);
    let bm = crate::bitmap::spec_parse_bitmap(wire, 0).unwrap();
    assert(bm =~= m.bitmap@) by {
        assert(forall|k: int| 0 <= k < 4 ==> #[trigger] wire[4 + k] == bb[4 + k]);
        assert(forall|k: int| 0 <= k < 4 ==> #[trigger] bb[4 + k] == m.bitmap@[k]);
    }
    assert(bm.len() == 4);
    assert((bm.len() >= 1 && bm[0] == 1) == hl);
    assert((bm.len() >= 2 && bm[1] == 1) == hr);
    if hl {
        assert(wire.subrange(12, 16) =~= h1.subrange(12, 16));
        assert(h1.subrange(12, 16) =~= vstd::bytes::spec_u32_to_le_bytes(dl as u32));
        assert(crate::fwd::spec_fwd_offset(wire, 8) == dl as u32);
        assert(h1.subrange(dl, dl + 8) =~= crate::bitmap::spec_bitmap_bytes(m.left.bitmap@));
        lemma_patched_child_parses(h1, pairs2, hlen, dl, m.left);
        assert(spec_parse_with_ref::<SingleBufferCF<'_>>(wire, 8, true) == Some(m.left.abs()));
    }
    if hr {
        assert(wire.subrange(20, 24) =~= h1.subrange(20, 24));
        assert(h1.subrange(20, 24) =~= vstd::bytes::spec_u32_to_le_bytes(dr as u32));
        assert(crate::fwd::spec_fwd_offset(wire, 16) == dr as u32);
        assert(h1.subrange(dr, dr + 8) =~= crate::bitmap::spec_bitmap_bytes(m.right.bitmap@));
        lemma_patched_child_parses(h1, pairs2, hlen, dr, m.right);
        assert(spec_parse_with_ref::<SingleBufferCF<'_>>(wire, 16, true) == Some(m.right.abs()));
    }
    assert(Tree1LCF::parse(wire, 0) == Some(m.abs())) by {
        let la = if hl {
            spec_parse_with_ref::<SingleBufferCF<'_>>(wire, 8, true)
        } else {
            Some(spec_single_abs_default())
        };
        let ra = if hr {
            spec_parse_with_ref::<SingleBufferCF<'_>>(wire, 16, true)
        } else {
            Some(spec_single_abs_default())
        };
        assert(la == Some(m.abs().left));
        assert(ra == Some(m.abs().right));
    }
}

/// Leaf sums are never negative.
proof fn lemma_leaf_sum_nonneg(ls: Seq<Seq<u8>>)
    ensures
        spec_sum_len(ls) >= 0,
    decreases ls.len(),
{
    if ls.len() > 0 {
        lemma_leaf_sum_nonneg(ls.drop_last());
    }
}

/// The header image of a one-level tree written with its constant header
/// at `c_off` and its dynamic region at `d`: the tree's bitmap, then for
/// each present child its pointer's offset half and the child's own
/// bitmap at the child's header start.
pub open spec fn spec_tree1_image_at(
    t: Tree1LCF<'_>,
    prior: Seq<u8>,
    c_off: int,
    d: int,
) -> Seq<u8> {
    let hb = splice(prior, c_off, crate::bitmap::spec_bitmap_bytes(t.bitmap@));
    let drr = d + if t.bitmap@[0] == 1 {
        16int
    } else {
        0
    };
    let h_after_l = if t.bitmap@[0] == 1 {
        splice(
            splice(hb, c_off + 12, vstd::bytes::spec_u32_to_le_bytes(d as u32)),
            d,
            crate::bitmap::spec_bitmap_bytes(t.left.bitmap@),
        )
    } else {
        hb
    };
    if t.bitmap@[1] == 1 {
        splice(
            splice(h_after_l, c_off + 20, vstd::bytes::spec_u32_to_le_bytes(drr as u32)),
            drr,
            crate::bitmap::spec_bitmap_bytes(t.right.bitmap@),
        )
    } else {
        h_after_l
    }
}

/// A one-level tree's serialization image equals its written-out form;
/// the written-out form keeps the buffer length, places the bitmaps and
/// pointer halves at their offsets, and leaves every other byte of the
/// buffer alone.
#[verifier::rlimit(100)]
#[verifier::spinoff_prover]
proof fn lemma_tree1_image_at_facts(t: Tree1LCF<'_>, prior: Seq<u8>, c_off: int, d: int)
    requires
        t.wf(),
        0 <= c_off,
        c_off + 24 <= d,
        d + t.dyn_size() - 24 <= prior.len(),
        prior.len() < 0x1_0000_0000,
    ensures
        t.image(prior, c_off, d) == spec_tree1_image_at(t, prior, c_off, d),
        ({
            let img = spec_tree1_image_at(t, prior, c_off, d);
            let drr = d + if t.bitmap@[0] == 1 {
                16int
            } else {
                0
            };
            &&& img.len() == prior.len()
            &&& img.subrange(c_off, c_off + 8) == crate::bitmap::spec_bitmap_bytes(t.bitmap@)
            &&& (t.bitmap@[0] == 1 ==> img.subrange(c_off + 12, c_off + 16)
                == vstd::bytes::spec_u32_to_le_bytes(d as u32))
            &&& (t.bitmap@[0] == 1 ==> img.subrange(d, d + 8) == crate::bitmap::spec_bitmap_bytes(
                t.left.bitmap@,
            ))
            &&& (t.bitmap@[1] == 1 ==> img.subrange(c_off + 20, c_off + 24)
                == vstd::bytes::spec_u32_to_le_bytes(drr as u32))
            &&& (t.bitmap@[1] == 1 ==> img.subrange(drr, drr + 8)
                == crate::bitmap::spec_bitmap_bytes(t.right.bitmap@))
            &&& forall|k: int|
                0 <= k < prior.len() && !(c_off <= k < c_off + 24) && !(d <= k < d + t.dyn_size()
                    - 24) ==> (#[trigger] img[k]) == prior[k]
        }),
{
    lemma_auto_spec_u32_to_from_le_bytes();
    t.lemma_basic_facts();
    let bb = crate::bitmap::spec_bitmap_bytes(t.bitmap@);
    assert(bb.len() == 8);
    let hb = splice(prior, c_off, bb);
    lemma_splice(prior, c_off, bb);
    let drr = d + if t.bitmap@[0] == 1 {
        16int
    } else {
        0
    };
    let h_after_l = if t.bitmap@[0] == 1 {
        let lp = vstd::bytes::spec_u32_to_le_bytes(d as u32);
        lemma_splice(hb, c_off + 12, lp);
        let lb = crate::bitmap::spec_bitmap_bytes(t.left.bitmap@);
        assert(lb.len() == 8);
        lemma_splice(splice(hb, c_off + 12, lp), d, lb);
        splice(splice(hb, c_off + 12, lp), d, lb)
    } else {
        hb
    };
    if t.bitmap@[1] == 1 {
        let rp = vstd::bytes::spec_u32_to_le_bytes(drr as u32);
        lemma_splice(h_after_l, c_off + 20, rp);
        let rb = crate::bitmap::spec_bitmap_bytes(t.right.bitmap@);
        assert(rb.len() == 8);
        lemma_splice(splice(h_after_l, c_off + 20, rp), drr, rb);
    }
    let img = spec_tree1_image_at(t, prior, c_off, d);
    assert(img.subrange(c_off, c_off + 8) =~= bb);
    if t.bitmap@[0] == 1 {
        assert(img.subrange(c_off + 12, c_off + 16) =~= vstd::bytes::spec_u32_to_le_bytes(
            d as u32,
        ));
        assert(img.subrange(d, d + 8) =~= crate::bitmap::spec_bitmap_bytes(t.left.bitmap@));
    }
    if t.bitmap@[1] == 1 {
        assert(img.subrange(c_off + 20, c_off + 24) =~= vstd::bytes::spec_u32_to_le_bytes(
            drr as u32,
        ));
        assert(img.subrange(drr, drr + 8) =~= crate::bitmap::spec_bitmap_bytes(t.right.bitmap@));
    }
}

/// After back-patching, a one-level tree child whose header region the
/// patch left alone parses back to its abstract value: its bitmap, both
/// pointer halves and each present grandchild's bitmap still read as the
/// image wrote them, and each present grandchild's leaf slot holds a
/// patched forward pointer into the flattened tail.
#[verifier::rlimit(100)]
#[verifier::spinoff_prover]
proof fn lemma_patched_tree1_parses(
    h1: Seq<u8>,
    pairs2: Seq<(Seq<u8>, int)>,
    hlen: int,
    dt: int,
    child: Tree1LCF<'_>,
)
    requires
        child.wf(),
        h1.len() == hlen,
        hlen < 0x1_0000_0000,
        0 <= dt,
        dt + child.dyn_size() <= hlen,
        h1.subrange(dt, dt + 8) == crate::bitmap::spec_bitmap_bytes(child.bitmap@),
        child.bitmap@[0] == 1 ==> h1.subrange(dt + 12, dt + 16) == vstd::bytes::spec_u32_to_le_bytes(
            (dt + 24) as u32,
        ),
        child.bitmap@[0] == 1 ==> h1.subrange(dt + 24, dt + 32) == crate::bitmap::spec_bitmap_bytes(
            child.left.bitmap@,
        ),
        child.bitmap@[0] == 1 && child.left.bitmap@[0] == 1 ==> pairs2.contains(
            (child.left.message.ptr@, dt + 32),
        ),
        child.bitmap@[1] == 1 ==> h1.subrange(dt + 20, dt + 24) == vstd::bytes::spec_u32_to_le_bytes(
            (dt + 24 + if child.bitmap@[0] == 1 {
                16int
            } else {
                0
            }) as u32,
        ),
        child.bitmap@[1] == 1 ==> ({
            let drr = dt + 24 + if child.bitmap@[0] == 1 {
                16int
            } else {
                0
            };
            h1.subrange(drr, drr + 8) == crate::bitmap::spec_bitmap_bytes(child.right.bitmap@)
        }),
        child.bitmap@[1] == 1 && child.right.bitmap@[0] == 1 ==> ({
            let drr = dt + 24 + if child.bitmap@[0] == 1 {
                16int
            } else {
                0
            };
            pairs2.contains((child.right.message.ptr@, drr + 8))
        }),
        forall|j: int| 0 <= j < pairs2.len() ==> 0 <= (#[trigger] pairs2[j]).1,
        forall|j: int| 0 <= j < pairs2.len() ==> (#[trigger] pairs2[j]).1 + 8 <= hlen,
        forall|j: int|
            0 <= j < pairs2.len() ==> (#[trigger] pairs2[j]).1 >= dt + 32 || pairs2[j].1 + 8 <= dt,
        child.bitmap@[1] == 1 ==> ({
            let drr = dt + 24 + if child.bitmap@[0] == 1 {
                16int
            } else {
                0
            };
            forall|j: int|
                0 <= j < pairs2.len() ==> (#[trigger] pairs2[j]).1 >= drr + 8 || pairs2[j].1 + 8
                    <= drr
        }),
        forall|j1: int, j2: int|
            0 <= j1 < pairs2.len() && 0 <= j2 < pairs2.len() && j1 != j2 ==> (
            #[trigger] pairs2[j1]).1 + 8 <= (#[trigger] pairs2[j2]).1 || pairs2[j2].1 + 8
                <= pairs2[j1].1,
        forall|j: int| 0 <= j < pairs2.len() ==> (#[trigger] pairs2[j]).0.len() < 0x1_0000_0000,
        hlen + view_sum(pairs2) < 0x1_0000_0000,
    ensures
        Tree1LCF::parse(view_backpatch(h1, pairs2, hlen) + view_flatten(pairs2), dt) == Some(
            child.abs(),
        ),
{
    lemma_auto_spec_u32_to_from_le_bytes();
    child.lemma_basic_facts();
    lemma_backpatch_props(h1, pairs2, hlen);
    let patched = view_backpatch(h1, pairs2, hlen);
    let flat = view_flatten(pairs2);
    lemma_flatten_len(pairs2);
    lemma_view_sum_nonneg_law(pairs2);
    let wire = patched + flat;
    let hl = child.bitmap@[0] == 1;
    let hr = child.bitmap@[1] == 1;
    let dll = dt + 24;
    let drr = dll + if hl {
        16int
    } else {
        0
    };
    // the tree's own header and the grandchild bitmaps sit in no slot
    assert(forall|k: int| dt <= k < dt + 24 ==> !in_some_slot(pairs2, k));
    assert(forall|k: int| dt <= k < dt + 24 ==> (#[trigger] wire[k]) == h1[k]);
    if hr {
        assert(forall|k: int| drr <= k < drr + 8 ==> !in_some_slot(pairs2, k));
        assert(forall|k: int| drr <= k < drr + 8 ==> (#[trigger] wire[k]) == h1[k]);
    }
    if hl {
        assert(forall|k: int| dll <= k < dll + 8 ==> !in_some_slot(pairs2, k));
        assert(forall|k: int| dll <= k < dll + 8 ==> (#[trigger] wire[k]) == h1[k]);
    }
    // the tree's bitmap parses back
    let bb = crate::bitmap::spec_bitmap_bytes(child.bitmap@);
    assert(bb.len() == 8);
    assert(forall|k: int| 0 <= k < 8 ==> #[trigger] h1[dt + k] == bb[k]) by {
        assert(forall|k: int|
            0 <= k < 8 ==> #[trigger] h1.subrange(dt, dt + 8)[k] == h1[dt + k]);
    }
    assert(wire.subrange(dt, dt + 4) =~= bb.subrange(0, 4));
    assert(bb.subrange(0, 4) =~= vstd::bytes::spec_u32_to_le_bytes(4u32));
    assert(spec_u32_from_le_bytes(bb.subrange(0, 4)) == 4u32);
    assert(crate::bitmap::spec_parse_bitmap(wire, dt) is Some);
    let bm = crate::bitmap::spec_parse_bitmap(wire, dt).unwrap();
    assert(bm == child.bitmap@) by {
        assert(bm =~= wire.subrange(dt + 4, dt + 8));
        assert(wire.subrange(dt + 4, dt + 8) =~= h1.subrange(dt + 4, dt + 8));
        assert(h1.subrange(dt + 4, dt + 8) =~= h1.subrange(dt, dt + 8).subrange(4, 8));
        assert(bb.subrange(4, 8) =~= child.bitmap@);
    }
    assert(bm.len() == 4);
    assert((bm.len() >= 1 && bm[0] == 1) == hl);
    assert((bm.len() >= 2 && bm[1] == 1) == hr);
    // each present grandchild parses through its pointer
    if hl {
        assert(wire.subrange(dt + 12, dt + 16) =~= h1.subrange(dt + 12, dt + 16));
        assert(crate::fwd::spec_fwd_offset(wire, dt + 8) == dll as u32);
        assert(h1.subrange(dll, dll + 8) == crate::bitmap::spec_bitmap_bytes(
            child.left.bitmap@,
        ));
        lemma_patched_child_parses(h1, pairs2, hlen, dll, child.left);
        assert(spec_parse_with_ref::<SingleBufferCF<'_>>(wire, dt + 8, true) == Some(
            child.left.abs(),
        ));
    }
    if hr {
        assert(wire.subrange(dt + 20, dt + 24) =~= h1.subrange(dt + 20, dt + 24));
        assert(crate::fwd::spec_fwd_offset(wire, dt + 16) == drr as u32);
        lemma_patched_child_parses(h1, pairs2, hlen, drr, child.right);
        assert(spec_parse_with_ref::<SingleBufferCF<'_>>(wire, dt + 16, true) == Some(
            child.right.abs(),
        ));
    }
    assert(Tree1LCF::parse(wire, dt) == Some(child.abs())) by {
        let la = if hl {
            spec_parse_with_ref::<SingleBufferCF<'_>>(wire, dt + 8, true)
        } else {
            Some(spec_single_abs_default())
        };
        let ra = if hr {
            spec_parse_with_ref::<SingleBufferCF<'_>>(wire, dt + 16, true)
        } else {
            Some(spec_single_abs_default())
        };
        assert(la == Some(child.abs().left));
        assert(ra == Some(child.abs().right));
    }
}

/// The leaf pairs of a one-level tree with its dynamic region at `d`,
/// written out: one pair per present grandchild message, each slot eight
/// bytes into the grandchild's sixteen-byte region.
pub open spec fn spec_tree1_pairs_explicit(t: Tree1LCF<'_>, d: int) -> Seq<(Seq<u8>, int)> {
    let lm = t.bitmap@[0] == 1 && t.left.bitmap@[0] == 1;
    let rm = t.bitmap@[1] == 1 && t.right.bitmap@[0] == 1;
    let drr = d + if t.bitmap@[0] == 1 {
        16int
    } else {
        0
    };
    if lm && rm {
        seq![(t.left.message.ptr@, d + 8), (t.right.message.ptr@, drr + 8)]
    } else if lm {
        seq![(t.left.message.ptr@, d + 8)]
    } else if rm {
        seq![(t.right.message.ptr@, drr + 8)]
    } else {
        Seq::<(Seq<u8>, int)>::empty()
    }
}

/// A one-level tree's leaves, slots and leaf pairs equal their written-out
/// forms.
proof fn lemma_tree1_pairs(t: Tree1LCF<'_>, c_off: int, d: int)
    requires
        t.wf(),
    ensures
        t.leaves() == spec_tree1_pairs_explicit(t, d).map_values(|pr: (Seq<u8>, int)| pr.0),
        t.slots(c_off, d) == spec_tree1_pairs_explicit(t, d).map_values(
            |pr: (Seq<u8>, int)| pr.1,
        ),
        spec_leaf_pairs(&t, c_off, d) == spec_tree1_pairs_explicit(t, d),
        spec_tree1_pairs_explicit(t, d).len() == t.n_sge(),
{
    t.lemma_basic_facts();
    let ex = spec_tree1_pairs_explicit(t, d);
    assert(t.leaves() =~= ex.map_values(|pr: (Seq<u8>, int)| pr.0));
    assert(t.slots(c_off, d) =~= ex.map_values(|pr: (Seq<u8>, int)| pr.1));
    assert(spec_leaf_pairs(&t, c_off, d) =~= ex);
}

/// The header image of a two-level tree, written out: the tree's bitmap,
/// then for each present one-level child its pointer's offset half and
/// the child's own written-out image.
pub open spec fn spec_tree2_image_explicit(m: Tree2LCF<'_>, h_old: Seq<u8>) -> Seq<u8> {
    let hb = splice(h_old, 0, crate::bitmap::spec_bitmap_bytes(m.bitmap@));
    let dr = 24 + if m.bitmap@[0] == 1 {
        m.left.dyn_size()
    } else {
        0
    };
    let h_after_l = if m.bitmap@[0] == 1 {
        spec_tree1_image_at(
            m.left,
            splice(hb, 12, vstd::bytes::spec_u32_to_le_bytes(24u32)),
            24,
            48,
        )
    } else {
        hb
    };
    if m.bitmap@[1] == 1 {
        spec_tree1_image_at(
            m.right,
            splice(h_after_l, 20, vstd::bytes::spec_u32_to_le_bytes(dr as u32)),
            dr,
            dr + 24,
        )
    } else {
        h_after_l
    }
}

/// The two-level tree's serialization image equals its written-out form,
/// and keeps the buffer length.
#[verifier::rlimit(100)]
#[verifier::spinoff_prover]
proof fn lemma_tree2_image_shape(m: Tree2LCF<'_>, h_old: Seq<u8>)
    requires
        m.wf(),
        h_old.len() == m.dyn_size(),
        h_old.len() < 0x1_0000_0000,
    ensures
        m.image(h_old, 0, 24) == spec_tree2_image_explicit(m, h_old),
        spec_tree2_image_explicit(m, h_old).len() == h_old.len(),
{
    lemma_auto_spec_u32_to_from_le_bytes();
    m.lemma_basic_facts();
    let bb = crate::bitmap::spec_bitmap_bytes(m.bitmap@);
    assert(bb.len() == 8);
    let hb = splice(h_old, 0, bb);
    lemma_splice(h_old, 0, bb);
    let dr = 24 + if m.bitmap@[0] == 1 {
        m.left.dyn_size()
    } else {
        0
    };
    let h_after_l = if m.bitmap@[0] == 1 {
        let lp = vstd::bytes::spec_u32_to_le_bytes(24u32);
        lemma_splice(hb, 12, lp);
        lemma_tree1_image_at_facts(m.left, splice(hb, 12, lp), 24, 48);
        spec_tree1_image_at(m.left, splice(hb, 12, lp), 24, 48)
    } else {
        hb
    };
    if m.bitmap@[1] == 1 {
        let rp = vstd::bytes::spec_u32_to_le_bytes(dr as u32);
        lemma_splice(h_after_l, 20, rp);
        lemma_tree1_image_at_facts(m.right, splice(h_after_l, 20, rp), dr, dr + 24);
    }
}

/// The regions of a two-level tree's header image, read back: the tree's
/// bitmap and pointer halves, and inside each present child the child's
/// written-out header regions.
#[verifier::rlimit(100)]
#[verifier::spinoff_prover]
proof fn lemma_tree2_header_facts(m: Tree2LCF<'_>, h_old: Seq<u8>)
    requires
        m.wf(),
        h_old.len() == m.dyn_size(),
        h_old.len() < 0x1_0000_0000,
    ensures
        ({
            let h1 = m.image(h_old, 0, 24);
            let hl = m.bitmap@[0] == 1;
            let hr = m.bitmap@[1] == 1;
            let lb0 = m.left.bitmap@[0] == 1;
            let lb1 = m.left.bitmap@[1] == 1;
            let rb0 = m.right.bitmap@[0] == 1;
            let rb1 = m.right.bitmap@[1] == 1;
            let dr = 24 + if hl {
                m.left.dyn_size()
            } else {
                0int
            };
            let drr1 = 48 + if lb0 {
                16int
            } else {
                0
            };
            let drr2 = dr + 24 + if rb0 {
                16int
            } else {
                0
            };
            &&& h1.len() == h_old.len()
            &&& h1.subrange(0, 8) == crate::bitmap::spec_bitmap_bytes(m.bitmap@)
            &&& (hl ==> h1.subrange(12, 16) == vstd::bytes::spec_u32_to_le_bytes(24u32))
            &&& (hl ==> h1.subrange(24, 32) == crate::bitmap::spec_bitmap_bytes(m.left.bitmap@))
            &&& (hl && lb0 ==> h1.subrange(36, 40) == vstd::bytes::spec_u32_to_le_bytes(48u32)
                && h1.subrange(48, 56) == crate::bitmap::spec_bitmap_bytes(m.left.left.bitmap@))
            &&& (hl && lb1 ==> h1.subrange(44, 48) == vstd::bytes::spec_u32_to_le_bytes(
                drr1 as u32,
            ) && h1.subrange(drr1, drr1 + 8) == crate::bitmap::spec_bitmap_bytes(
                m.left.right.bitmap@,
            ))
            &&& (hr ==> h1.subrange(20, 24) == vstd::bytes::spec_u32_to_le_bytes(dr as u32))
            &&& (hr ==> h1.subrange(dr, dr + 8) == crate::bitmap::spec_bitmap_bytes(
                m.right.bitmap@,
            ))
            &&& (hr && rb0 ==> h1.subrange(dr + 12, dr + 16) == vstd::bytes::spec_u32_to_le_bytes(
                (dr + 24) as u32,
            ) && h1.subrange(dr + 24, dr + 32) == crate::bitmap::spec_bitmap_bytes(
                m.right.left.bitmap@,
            ))
            &&& (hr && rb1 ==> h1.subrange(dr + 20, dr + 24) == vstd::bytes::spec_u32_to_le_bytes(
                drr2 as u32,
            ) && h1.subrange(drr2, drr2 + 8) == crate::bitmap::spec_bitmap_bytes(
                m.right.right.bitmap@,
            ))
        }),
{
    lemma_auto_spec_u32_to_from_le_bytes();
    m.lemma_basic_facts();
    let hl = m.bitmap@[0] == 1;
    let hr = m.bitmap@[1] == 1;
    let lb0 = m.left.bitmap@[0] == 1;
    let lb1 = m.left.bitmap@[1] == 1;
    let dr = 24 + if hl {
        m.left.dyn_size()
    } else {
        0int
    };
    let drr1 = 48 + if lb0 {
        16int
    } else {
        0
    };
    let h1 = m.image(h_old, 0, 24);
    lemma_tree2_image_shape(m, h_old);
    let bb = crate::bitmap::spec_bitmap_bytes(m.bitmap@);
    assert(bb.len() == 8);
    let hb = splice(h_old, 0, bb);
    lemma_splice(h_old, 0, bb);
    let hbl = if hl {
        splice(hb, 12, vstd::bytes::spec_u32_to_le_bytes(24u32))
    } else {
        hb
    };
    if hl {
        lemma_splice(hb, 12, vstd::bytes::spec_u32_to_le_bytes(24u32));
    }
    let x = if hl {
        lemma_tree1_image_at_facts(m.left, hbl, 24, 48);
        spec_tree1_image_at(m.left, hbl, 24, 48)
    } else {
        hbl
    };
    let xr = if hr {
        splice(x, 20, vstd::bytes::spec_u32_to_le_bytes(dr as u32))
    } else {
        x
    };
    if hr {
        lemma_splice(x, 20, vstd::bytes::spec_u32_to_le_bytes(dr as u32));
        lemma_tree1_image_at_facts(m.right, xr, dr, dr + 24);
    }
    // the right child's writes start at byte 20 and resume at `dr`, so the
    // left child's regions and the tree's own bitmap survive them
    assert(forall|k: int| 24 <= k < dr ==> #[trigger] h1[k] == x[k]);
    assert(forall|k: int| 0 <= k < 8 ==> #[trigger] h1[k] == bb[k]);
    assert(h1.subrange(0, 8) =~= bb);
    if hl {
        assert(h1.subrange(12, 16) =~= vstd::bytes::spec_u32_to_le_bytes(24u32));
        assert(h1.subrange(24, 32) =~= x.subrange(24, 32));
        if lb0 {
            assert(h1.subrange(36, 40) =~= x.subrange(36, 40));
            assert(h1.subrange(48, 56) =~= x.subrange(48, 56));
        }
        if lb1 {
            assert(h1.subrange(44, 48) =~= x.subrange(44, 48));
            assert(h1.subrange(drr1, drr1 + 8) =~= x.subrange(drr1, drr1 + 8));
        }
    }
    if hr {
        assert(h1.subrange(20, 24) =~= vstd::bytes::spec_u32_to_le_bytes(dr as u32));
    }
}

/// The leaf pairs of a two-level tree: one pair per present grandchild
/// message on each side, with distinct slots behind every header region,
/// eight bytes clear of one another and of each region a parse reads.
#[verifier::rlimit(100)]
#[verifier::spinoff_prover]
proof fn lemma_tree2_pairs_facts(m: Tree2LCF<'_>)
    requires
        m.wf(),
    ensures
        ({
            let pairs0 = spec_leaf_pairs(&m, 0, 24);
            let hl = m.bitmap@[0] == 1;
            let hr = m.bitmap@[1] == 1;
            let lb0 = m.left.bitmap@[0] == 1;
            let lb1 = m.left.bitmap@[1] == 1;
            let rb0 = m.right.bitmap@[0] == 1;
            let rb1 = m.right.bitmap@[1] == 1;
            let dr = 24 + if hl {
                m.left.dyn_size()
            } else {
                0int
            };
            let drr1 = 48 + if lb0 {
                16int
            } else {
                0
            };
            let drr2 = dr + 24 + if rb0 {
                16int
            } else {
                0
            };
            &&& pairs0.no_duplicates()
            &&& (forall|i: int|
                0 <= i < pairs0.len() ==> 56 <= (#[trigger] pairs0[i]).1 && pairs0[i].1 + 8
                    <= m.dyn_size() && pairs0[i].0.len() < 0x1_0000_0000)
            &&& (forall|i1: int, i2: int|
                0 <= i1 < pairs0.len() && 0 <= i2 < pairs0.len() && i1 != i2 ==> (
                #[trigger] pairs0[i1]).1 + 8 <= (#[trigger] pairs0[i2]).1 || pairs0[i2].1 + 8
                    <= pairs0[i1].1)
            &&& (hl && lb0 && m.left.left.bitmap@[0] == 1 ==> pairs0.contains(
                (m.left.left.message.ptr@, 56int),
            ))
            &&& (hl && lb1 && m.left.right.bitmap@[0] == 1 ==> pairs0.contains(
                (m.left.right.message.ptr@, drr1 + 8),
            ))
            &&& (hr && rb0 && m.right.left.bitmap@[0] == 1 ==> pairs0.contains(
                (m.right.left.message.ptr@, dr + 32),
            ))
            &&& (hr && rb1 && m.right.right.bitmap@[0] == 1 ==> pairs0.contains(
                (m.right.right.message.ptr@, drr2 + 8),
            ))
            &&& (hl && lb1 ==> forall|i: int|
                0 <= i < pairs0.len() ==> (#[trigger] pairs0[i]).1 >= drr1 + 8 || pairs0[i].1
                    + 8 <= drr1)
            &&& (hr ==> forall|i: int|
                0 <= i < pairs0.len() ==> (#[trigger] pairs0[i]).1 >= dr + 32 || pairs0[i].1
                    + 8 <= dr)
            &&& (hr && rb1 ==> forall|i: int|
                0 <= i < pairs0.len() ==> (#[trigger] pairs0[i]).1 >= drr2 + 8 || pairs0[i].1
                    + 8 <= drr2)
        }),
{
    m.lemma_basic_facts();
    m.left.lemma_basic_facts();
    m.right.lemma_basic_facts();
    let hl = m.bitmap@[0] == 1;
    let hr = m.bitmap@[1] == 1;
    let dr = 24 + if hl {
        m.left.dyn_size()
    } else {
        0int
    };
    let pairs0 = spec_leaf_pairs(&m, 0, 24);
    let lp = spec_tree1_pairs_explicit(m.left, 48);
    let rp = spec_tree1_pairs_explicit(m.right, dr + 24);
    lemma_tree1_pairs(m.left, 24, 48);
    lemma_tree1_pairs(m.right, dr, dr + 24);
    let lpe: Seq<(Seq<u8>, int)> = if hl {
        lp
    } else {
        Seq::empty()
    };
    let rpe: Seq<(Seq<u8>, int)> = if hr {
        rp
    } else {
        Seq::empty()
    };
    let expected = lpe + rpe;
    assert(pairs0 =~= expected) by {
        assert(m.leaves() =~= (if hl {
            m.left.leaves()
        } else {
            Seq::empty()
        }) + (if hr {
            m.right.leaves()
        } else {
            Seq::empty()
        }));
        assert(m.slots(0, 24) =~= (if hl {
            m.left.slots(24, 48)
        } else {
            Seq::empty()
        }) + (if hr {
            m.right.slots(dr, dr + 24)
        } else {
            Seq::empty()
        }));
    }
    assert(forall|i: int|
        0 <= i < lpe.len() ==> 56 <= (#[trigger] lpe[i]).1 && lpe[i].1 + 8 <= 24
            + m.left.dyn_size() && lpe[i].0.len() < 0x1_0000_0000);
    assert(forall|i: int|
        0 <= i < rpe.len() ==> dr + 32 <= (#[trigger] rpe[i]).1 && rpe[i].1 + 8 <= dr
            + m.right.dyn_size() && rpe[i].0.len() < 0x1_0000_0000);
    assert(forall|i1: int, i2: int|
        0 <= i1 < pairs0.len() && 0 <= i2 < pairs0.len() && i1 != i2 ==> (
        #[trigger] pairs0[i1]).1 + 8 <= (#[trigger] pairs0[i2]).1 || pairs0[i2].1 + 8
            <= pairs0[i1].1) by {
        assert(forall|i1: int, i2: int|
            0 <= i1 < i2 < pairs0.len() ==> (#[trigger] pairs0[i1]).1 + 8 <= (
            #[trigger] pairs0[i2]).1);
    }
    let lb0 = m.left.bitmap@[0] == 1;
    let lb1 = m.left.bitmap@[1] == 1;
    let rb0 = m.right.bitmap@[0] == 1;
    let rb1 = m.right.bitmap@[1] == 1;
    let drr1 = 48 + if lb0 {
        16int
    } else {
        0
    };
    let drr2 = dr + 24 + if rb0 {
        16int
    } else {
        0
    };
    let lpn: int = lpe.len() as int;
    // point at each present grandchild's pair
    if hl && lb0 && m.left.left.bitmap@[0] == 1 {
        assert(pairs0[0] == (m.left.left.message.ptr@, 56int));
        assert(pairs0.contains((m.left.left.message.ptr@, 56int)));
    }
    if hl && lb1 && m.left.right.bitmap@[0] == 1 {
        let idx: int = if lb0 && m.left.left.bitmap@[0] == 1 {
            1
        } else {
            0
        };
        assert(pairs0[idx] == (m.left.right.message.ptr@, drr1 + 8));
        assert(pairs0.contains((m.left.right.message.ptr@, drr1 + 8)));
    }
    if hr && rb0 && m.right.left.bitmap@[0] == 1 {
        assert(pairs0[lpn] == (m.right.left.message.ptr@, dr + 32));
        assert(pairs0.contains((m.right.left.message.ptr@, dr + 32)));
    }
    if hr && rb1 && m.right.right.bitmap@[0] == 1 {
        let idx: int = lpn + if rb0 && m.right.left.bitmap@[0] == 1 {
            1int
        } else {
            0
        };
        assert(pairs0[idx] == (m.right.right.message.ptr@, drr2 + 8));
        assert(pairs0.contains((m.right.right.message.ptr@, drr2 + 8)));
    }
    // each region a parse reads is eight bytes clear of every slot
    if hl && lb1 {
        assert(forall|i: int|
            0 <= i < pairs0.len() ==> (#[trigger] pairs0[i]).1 >= drr1 + 8 || pairs0[i].1 + 8
                <= drr1) by {
            assert(forall|i: int| 0 <= i < lpn ==> pairs0[i] == lpe[i]);
            assert(forall|i: int| lpn <= i < pairs0.len() ==> pairs0[i] == rpe[i - lpn]);
        }
    }
    if hr {
        assert(forall|i: int|
            0 <= i < pairs0.len() ==> (#[trigger] pairs0[i]).1 >= dr + 32 || pairs0[i].1 + 8
                <= dr) by {
            assert(forall|i: int| 0 <= i < lpn ==> pairs0[i] == lpe[i]);
            assert(forall|i: int| lpn <= i < pairs0.len() ==> pairs0[i] == rpe[i - lpn]);
        }
    }
    if hr && rb1 {
        assert(forall|i: int|
            0 <= i < pairs0.len() ==> (#[trigger] pairs0[i]).1 >= drr2 + 8 || pairs0[i].1 + 8
                <= drr2) by {
            assert(forall|i: int| 0 <= i < lpn ==> pairs0[i] == lpe[i]);
            assert(forall|i: int| lpn <= i < pairs0.len() ==> pairs0[i] == rpe[i - lpn]);
        }
    }
}

/// Round-trip for the two-level tree message: serializing any
/// well-formed `Tree2LCF` into a header buffer of its own header size
/// and deserializing the back-patched header followed by the reordered
/// segments gives back its abstract value, under any datapath's
/// reordering.
#[verifier::rlimit(100)]
#[verifier::spinoff_prover]
pub proof fn lemma_tree2_round_trip<D: Datapath>(m: Tree2LCF<'_>, h_old: Seq<u8>, d: D)
    requires
        m.wf(),
        h_old.len() == m.dyn_size(),
        m.dyn_size() + spec_sum_len(m.leaves()) < 0x1_0000_0000,
    ensures
        ({
            let h1 = m.image(h_old, 0, m.dyn_start());
            let pairs0 = spec_leaf_pairs(&m, 0, m.dyn_start());
            let nc1 = view_reorder1_nc(d, pairs0);
            let pairs2 = view_reorder2(d, view_reorder1(d, pairs0), nc1);
            let wire = view_backpatch(h1, pairs2, m.dyn_size()) + view_flatten(pairs2);
            Tree2LCF::parse(wire, 0) == Some(m.abs())
        }),
{
    lemma_auto_spec_u32_to_from_le_bytes();
    m.lemma_basic_facts();
    lemma_leaf_sum_nonneg(m.leaves());
    let hl = m.bitmap@[0] == 1;
    let hr = m.bitmap@[1] == 1;
    let dr = 24 + if hl {
        m.left.dyn_size()
    } else {
        0int
    };
    let hlen = m.dyn_size();
    let h1 = m.image(h_old, 0, 24);
    let pairs0 = spec_leaf_pairs(&m, 0, 24);
    let nc1 = view_reorder1_nc(d, pairs0);
    let pairs1 = view_reorder1(d, pairs0);
    let pairs2 = view_reorder2(d, pairs1, nc1);
    lemma_tree2_pairs_facts(m);
    lemma_reorder_preserves_pairs(d, pairs0, 56, hlen);
    // segment sums match the leaves
    crate::hdr::lemma_leaf_pairs_sum(m.leaves(), m.slots(0, 24), m.n_sge());
    assert(m.leaves().subrange(0, m.n_sge()) =~= m.leaves());
    assert(view_sum(pairs2) == spec_sum_len(m.leaves()));
    // the header image's regions
    lemma_tree2_header_facts(m, h_old);
    assert(h1.len() == hlen);
    // back-patch and flatten
    lemma_backpatch_props(h1, pairs2, hlen);
    let patched = view_backpatch(h1, pairs2, hlen);
    let flat = view_flatten(pairs2);
    lemma_flatten_len(pairs2);
    lemma_view_sum_nonneg_law(pairs2);
    let wire = patched + flat;
    // the tree's bitmap and both pointer slots are untouched by the patch
    assert(forall|k: int| 0 <= k < 24 ==> !in_some_slot(pairs2, k));
    assert(forall|k: int| 0 <= k < 24 ==> (#[trigger] wire[k]) == h1[k]);
    let bb = crate::bitmap::spec_bitmap_bytes(m.bitmap@);
    assert(bb.len() == 8);
    assert(forall|k: int| 0 <= k < 8 ==> #[trigger] h1[k] == bb[k]) by {
        assert(forall|k: int| 0 <= k < 8 ==> #[trigger] h1.subrange(0, 8)[k] == h1[k]);
    }
    assert(wire.subrange(0, 4) =~= bb.subrange(0, 4));
    assert(bb.subrange(0, 4) =~= vstd::bytes::spec_u32_to_le_bytes(4u32));
    assert(spec_u32_from_le_bytes(bb.subrange(0, 4)) == 4u32);
    assert(crate::bitmap::spec_parse_bitmap(wire, 0) is Some);
    let bm = crate::bitmap::spec_parse_bitmap(wire, 0).unwrap();
    assert(bm =~= m.bitmap@) by {
        assert(forall|k: int| 0 <= k < 4 ==> #[trigger] wire[4 + k] == bb[4 + k]);
        assert(forall|k: int| 0 <= k < 4 ==> #[trigger] bb[4 + k] == m.bitmap@[k]);
    }
    assert(bm.len() == 4);
    assert((bm.len() >= 1 && bm[0] == 1) == hl);
    assert((bm.len() >= 2 && bm[1] == 1) == hr);
    if hl {
        let lb1 = m.left.bitmap@[1] == 1;
        let drr1 = 48 + if m.left.bitmap@[0] == 1 {
            16int
        } else {
            0
        };
        assert(wire.subrange(12, 16) =~= h1.subrange(12, 16));
        assert(crate::fwd::spec_fwd_offset(wire, 8) == 24u32);
        if lb1 {
            assert(forall|j: int|
                0 <= j < pairs2.len() ==> (#[trigger] pairs2[j]).1 >= drr1 + 8 || pairs2[j].1
                    + 8 <= drr1) by {
                assert forall|j: int| 0 <= j < pairs2.len() implies (
                #[trigger] pairs2[j]).1 >= drr1 + 8 || pairs2[j].1 + 8 <= drr1 by {
                    assert(pairs0.contains(pairs2[j]));
                    let i = choose|i: int| 0 <= i < pairs0.len() && pairs0[i] == pairs2[j];
                }
            }
        }
        lemma_patched_tree1_parses(h1, pairs2, hlen, 24, m.left);
        assert(spec_parse_with_ref::<Tree1LCF<'_>>(wire, 8, true) == Some(m.left.abs()));
    }
    if hr {
        let rb1 = m.right.bitmap@[1] == 1;
        let drr2 = dr + 24 + if m.right.bitmap@[0] == 1 {
            16int
        } else {
            0
        };
        assert(wire.subrange(20, 24) =~= h1.subrange(20, 24));
        assert(crate::fwd::spec_fwd_offset(wire, 16) == dr as u32);
        assert(forall|j: int|
            0 <= j < pairs2.len() ==> (#[trigger] pairs2[j]).1 >= dr + 32 || pairs2[j].1 + 8
                <= dr) by {
            assert forall|j: int| 0 <= j < pairs2.len() implies (#[trigger] pairs2[j]).1 >= dr
                + 32 || pairs2[j].1 + 8 <= dr by {
                assert(pairs0.contains(pairs2[j]));
                let i = choose|i: int| 0 <= i < pairs0.len() && pairs0[i] == pairs2[j];
            }
        }
        if rb1 {
            assert(forall|j: int|
                0 <= j < pairs2.len() ==> (#[trigger] pairs2[j]).1 >= drr2 + 8 || pairs2[j].1
                    + 8 <= drr2) by {
                assert forall|j: int| 0 <= j < pairs2.len() implies (
                #[trigger] pairs2[j]).1 >= drr2 + 8 || pairs2[j].1 + 8 <= drr2 by {
                    assert(pairs0.contains(pairs2[j]));
                    let i = choose|i: int| 0 <= i < pairs0.len() && pairs0[i] == pairs2[j];
                }
            }
        }
        lemma_patched_tree1_parses(h1, pairs2, hlen, dr, m.right);
        assert(spec_parse_with_ref::<Tree1LCF<'_>>(wire, 16, true) == Some(m.right.abs()));
    }
    assert(Tree2LCF::parse(wire, 0) == Some(m.abs())) by {
        let la = if hl {
            spec_parse_with_ref::<Tree1LCF<'_>>(wire, 8, true)
        } else {
            Some(spec_tree1_abs_default())
        };
        let ra = if hr {
            spec_parse_with_ref::<Tree1LCF<'_>>(wire, 16, true)
        } else {
            Some(spec_tree1_abs_default())
        };
        assert(la == Some(m.abs().left));
        assert(ra == Some(m.abs().right));
    }
}

} // verus!
