//! Scatter-gather assembly.
//!
//! Serialization produces one [`Sge`] per variable-length leaf.  Before
//! transmission the entries are reordered: every entry that is both above
//! the datapath's copying threshold and backed by registered memory moves
//! to a contiguous trailing run (the zero-copy tail), in original relative
//! order; everything else stays ahead of them, also in original order, to
//! be copied into one buffer.  The parallel array of forward-pointer slot
//! positions is permuted identically so back-patching still targets the
//! right header slot.

use crate::datapath::Datapath;
use vstd::prelude::*;

verus! {

/// One scatter-gather entry: a view of the bytes of one send segment.
#[derive(Clone, Copy)]
pub struct Sge<'a> {
    /// The bytes this segment transmits.
    pub buf: &'a [u8],
}

impl<'a> Sge<'a> {
    /// An entry over `bytes`.
    pub fn new(bytes: &'a [u8]) -> (r: Sge<'a>)
        ensures
            r.buf@ == bytes@,
    {
        Sge { buf: bytes }
    }

    /// Byte length of the segment.
    pub fn len(&self) -> (r: usize)
        ensures
            r == self.buf@.len(),
    {
        self.buf.len()
    }

    /// The bytes of the segment.
    pub fn addr(&self) -> (r: &'a [u8])
        ensures
            r@ == self.buf@,
    {
        self.buf
    }
}

/// Whether `d` would send `e` zero-copy: at least the copying threshold
/// long and backed by registered memory.
pub open spec fn spec_zero_copy<'a, D: Datapath>(d: D, e: Sge<'a>) -> bool {
    e.buf@.len() >= d.copying_threshold_spec() && d.registered_spec(e.buf@)
}

/// Entries zipped with their forward-pointer slot positions.
pub open spec fn zip_eo<'a>(es: Seq<Sge<'a>>, os: Seq<usize>) -> Seq<(Sge<'a>, usize)>
    recommends
        es.len() == os.len(),
{
    Seq::new(es.len(), |i: int| (es[i], os[i]))
}

/// The pairs `d` would copy, in their original order.
pub open spec fn spec_copy_part<'a, D: Datapath>(d: D, prs: Seq<(Sge<'a>, usize)>) -> Seq<
    (Sge<'a>, usize),
> {
    prs.filter(|pr: (Sge<'a>, usize)| !spec_zero_copy(d, pr.0))
}

/// The pairs `d` would send zero-copy, in their original order.
pub open spec fn spec_zc_part<'a, D: Datapath>(d: D, prs: Seq<(Sge<'a>, usize)>) -> Seq<
    (Sge<'a>, usize),
> {
    prs.filter(|pr: (Sge<'a>, usize)| spec_zero_copy(d, pr.0))
}

/// How `filter` treats one appended element.
pub proof fn lemma_filter_push<A>(s: Seq<A>, x: A, p: spec_fn(A) -> bool)
    ensures
        s.push(x).filter(p) == if p(x) {
            s.filter(p).push(x)
        } else {
            s.filter(p)
        },
{
    reveal(Seq::filter);
    assert(s.push(x).drop_last() =~= s);
    assert(s.push(x).last() == x);
}

/// Whether `d` would send `e` zero-copy.
pub fn is_zero_copy<'a, D: Datapath>(d: &D, e: &Sge<'a>) -> (r: bool)
    ensures
        r == spec_zero_copy(*d, *e),
{
    e.buf.len() >= d.get_copying_threshold() && d.is_registered(e.buf)
}

/// Stably partitions the entries into a copy run followed by a zero-copy
/// run, permuting `offsets` identically; returns the length of the copy
/// run.  Running it again on its own output changes nothing, which
/// `lemma_reorder_idempotent` states.
pub fn reorder_entries_by_size_and_registration<'a, D: Datapath>(
    d: &D,
    entries: &mut Vec<Sge<'a>>,
    offsets: &mut Vec<usize>,
) -> (num_copy: usize)
    requires
        old(entries)@.len() == old(offsets)@.len(),
    ensures
        final(entries)@.len() == old(entries)@.len(),
        final(offsets)@.len() == old(offsets)@.len(),
        zip_eo(final(entries)@, final(offsets)@) == spec_copy_part(
            *d,
            zip_eo(old(entries)@, old(offsets)@),
        ) + spec_zc_part(*d, zip_eo(old(entries)@, old(offsets)@)),
        num_copy == spec_copy_part(*d, zip_eo(old(entries)@, old(offsets)@)).len(),
{
    let ghost all = zip_eo(old(entries)@, old(offsets)@);
    let ghost zcp = |pr: (Sge<'a>, usize)| spec_zero_copy(*d, pr.0);
    let ghost cpp = |pr: (Sge<'a>, usize)| !spec_zero_copy(*d, pr.0);
    let n: usize = entries.len();
    let mut copy_es: Vec<Sge<'a>> = Vec::new();
    let mut copy_os: Vec<usize> = Vec::new();
    let mut zc_es: Vec<Sge<'a>> = Vec::new();
    let mut zc_os: Vec<usize> = Vec::new();
    let mut i: usize = 0;
    proof {
        assert(all.subrange(0, 0) =~= Seq::<(Sge<'a>, usize)>::empty());
        assert(Seq::<(Sge<'a>, usize)>::empty().filter(cpp) =~= Seq::<(Sge<'a>, usize)>::empty());
        assert(Seq::<(Sge<'a>, usize)>::empty().filter(zcp) =~= Seq::<(Sge<'a>, usize)>::empty());
    }
    while i < n
        invariant
            i <= n,
            n == entries@.len(),
            n == offsets@.len(),
            entries@ == old(entries)@,
            offsets@ == old(offsets)@,
            all == zip_eo(old(entries)@, old(offsets)@),
            zcp == |pr: (Sge<'a>, usize)| spec_zero_copy(*d, pr.0),
            cpp == |pr: (Sge<'a>, usize)| !spec_zero_copy(*d, pr.0),
            copy_es@.len() == copy_os@.len(),
            zc_es@.len() == zc_os@.len(),
            zip_eo(copy_es@, copy_os@) == all.subrange(0, i as int).filter(cpp),
            zip_eo(zc_es@, zc_os@) == all.subrange(0, i as int).filter(zcp),
        decreases n - i,
    {
        let e = entries[i];
        let o = offsets[i];
        let ghost pre = all.subrange(0, i as int);
        proof {
            assert(all.subrange(0, i + 1) =~= pre.push((entries@[i as int], offsets@[i as int])));
            lemma_filter_push(pre, all[i as int], cpp);
            lemma_filter_push(pre, all[i as int], zcp);
        }
        if is_zero_copy(d, &e) {
            zc_es.push(e);
            zc_os.push(o);
            proof {
                assert(zip_eo(zc_es@, zc_os@) =~= pre.filter(zcp).push((e, o)));
                assert(zip_eo(copy_es@, copy_os@) =~= pre.filter(cpp));
            }
        } else {
            copy_es.push(e);
            copy_os.push(o);
            proof {
                assert(zip_eo(copy_es@, copy_os@) =~= pre.filter(cpp).push((e, o)));
                assert(zip_eo(zc_es@, zc_os@) =~= pre.filter(zcp));
            }
        }
        i = i + 1;
    }
    proof {
        assert(all.subrange(0, n as int) =~= all);
        lemma_filter_complement(all, cpp, zcp);
    }
    let num_copy: usize = copy_es.len();
    let mut out_es = copy_es;
    let mut out_os = copy_os;
    out_es.append(&mut zc_es);
    out_os.append(&mut zc_os);
    proof {
        assert(zip_eo(out_es@, out_os@) =~= all.filter(cpp) + all.filter(zcp));
    }
    *entries = out_es;
    *offsets = out_os;
    num_copy
}

/// Re-running the stable partition on an already-partitioned sequence
/// changes nothing: the reordering is idempotent.
pub proof fn lemma_reorder_idempotent<'a, D: Datapath>(d: D, prs: Seq<(Sge<'a>, usize)>)
    ensures
        ({
            let once = spec_copy_part(d, prs) + spec_zc_part(d, prs);
            spec_copy_part(d, once) + spec_zc_part(d, once) == once
        }),
{
    let zcp = |pr: (Sge<'a>, usize)| spec_zero_copy(d, pr.0);
    let cpp = |pr: (Sge<'a>, usize)| !spec_zero_copy(d, pr.0);
    let c = prs.filter(cpp);
    let z = prs.filter(zcp);
    let once = c + z;
    Seq::filter_distributes_over_add(c, z, cpp);
    Seq::filter_distributes_over_add(c, z, zcp);
    lemma_filter_all(c, cpp);
    lemma_filter_none(c, zcp);
    lemma_filter_all(z, zcp);
    lemma_filter_none(z, cpp);
    assert(once.filter(cpp) =~= c);
    assert(once.filter(zcp) =~= z);
    assert(spec_copy_part(d, once) + spec_zc_part(d, once) =~= once);
}

/// Strict order on (segment length, position): shorter first, earlier
/// position breaking ties.  Demotion picks its victims in this order, so
/// the segments that gain least from avoiding a copy go first.
pub open spec fn spec_lex_less(l1: int, i1: int, l2: int, i2: int) -> bool {
    l1 < l2 || (l1 == l2 && i1 < i2)
}

/// How many of the first `m` positions of `tail` order strictly before
/// position `i`.
pub open spec fn spec_count_smaller<'a>(tail: Seq<(Sge<'a>, usize)>, i: int, m: int) -> int
    decreases m,
{
    if m <= 0 {
        0
    } else {
        spec_count_smaller(tail, i, m - 1) + if spec_lex_less(
            tail[m - 1].0.buf@.len() as int,
            m - 1,
            tail[i].0.buf@.len() as int,
            i,
        ) {
            1int
        } else {
            0int
        }
    }
}

/// Whether position `i` of `tail` is one of the `k` lexicographically
/// smallest, and so is demoted to the copy run.
pub open spec fn spec_demoted<'a>(tail: Seq<(Sge<'a>, usize)>, k: int, i: int) -> bool {
    spec_count_smaller(tail, i, tail.len() as int) < k
}

/// The pairs of `tail` whose demotion status is `demoted`, kept in their
/// original relative order.
pub open spec fn spec_selected<'a>(
    tail: Seq<(Sge<'a>, usize)>,
    k: int,
    m: int,
    demoted: bool,
) -> Seq<(Sge<'a>, usize)>
    decreases m,
{
    if m <= 0 {
        Seq::empty()
    } else {
        spec_selected(tail, k, m - 1, demoted) + if spec_demoted(tail, k, m - 1) == demoted {
            seq![tail[m - 1]]
        } else {
            Seq::empty()
        }
    }
}

/// If position `j` orders strictly before position `i`, at least one more
/// position counts against `i` than against `j`.
proof fn lemma_count_smaller_monotone<'a>(tail: Seq<(Sge<'a>, usize)>, i: int, j: int, m: int)
    requires
        0 <= i < tail.len(),
        0 <= j < tail.len(),
        spec_lex_less(
            tail[j].0.buf@.len() as int,
            j,
            tail[i].0.buf@.len() as int,
            i,
        ),
    ensures
        spec_count_smaller(tail, j, m) + (if j < m {
            1int
        } else {
            0int
        }) <= spec_count_smaller(tail, i, m),
    decreases m,
{
    if m > 0 {
        lemma_count_smaller_monotone(tail, i, j, m - 1);
    }
}

/// Every demoted position orders strictly before every retained one:
/// demotion takes the smallest segments first, earliest first among equal
/// lengths.
pub proof fn lemma_demotion_takes_smallest<'a>(
    tail: Seq<(Sge<'a>, usize)>,
    k: int,
    i: int,
    j: int,
)
    requires
        0 <= i < tail.len(),
        0 <= j < tail.len(),
        spec_demoted(tail, k, i),
        !spec_demoted(tail, k, j),
    ensures
        spec_lex_less(
            tail[i].0.buf@.len() as int,
            i,
            tail[j].0.buf@.len() as int,
            j,
        ),
{
    if !spec_lex_less(tail[i].0.buf@.len() as int, i, tail[j].0.buf@.len() as int, j) {
        assert(i != j);
        assert(spec_lex_less(tail[j].0.buf@.len() as int, j, tail[i].0.buf@.len() as int, i));
        lemma_count_smaller_monotone(tail, i, j, tail.len() as int);
        assert(false);
    }
}

/// Demotes the lexicographically smallest entries of the zero-copy tail
/// back into the copy run until at most `max_segs` remain, keeping both
/// the copy run and the surviving tail in their original relative order
/// and moving offsets in lockstep; returns the new copy-run length.
pub fn reorder_entries_by_max_segs<'a, D: Datapath>(
    d: &D,
    entries: &mut Vec<Sge<'a>>,
    offsets: &mut Vec<usize>,
    num_copy: usize,
) -> (new_num_copy: usize)
    requires
        old(entries)@.len() == old(offsets)@.len(),
        num_copy <= old(entries)@.len(),
    ensures
        final(entries)@.len() == old(entries)@.len(),
        final(offsets)@.len() == old(offsets)@.len(),
        num_copy <= new_num_copy <= final(entries)@.len(),
        ({
            let all = zip_eo(old(entries)@, old(offsets)@);
            let tail = all.subrange(num_copy as int, all.len() as int);
            let max = d.max_segments_spec();
            if tail.len() <= max {
                zip_eo(final(entries)@, final(offsets)@) == all && new_num_copy == num_copy
            } else {
                let k = tail.len() - max;
                zip_eo(final(entries)@, final(offsets)@) == all.subrange(0, num_copy as int)
                    + spec_selected(tail, k, tail.len() as int, true) + spec_selected(
                    tail,
                    k,
                    tail.len() as int,
                    false,
                ) && new_num_copy == num_copy + spec_selected(
                    tail,
                    k,
                    tail.len() as int,
                    true,
                ).len()
            }
        }),
{
    let n: usize = entries.len();
    let tail_len: usize = n - num_copy;
    let max_segs: usize = d.get_max_segments();
    let ghost all = zip_eo(old(entries)@, old(offsets)@);
    let ghost tail = all.subrange(num_copy as int, all.len() as int);
    if tail_len <= max_segs {
        return num_copy;
    }
    let k: usize = tail_len - max_segs;
    let mut dem_es: Vec<Sge<'a>> = Vec::new();
    let mut dem_os: Vec<usize> = Vec::new();
    let mut ret_es: Vec<Sge<'a>> = Vec::new();
    let mut ret_os: Vec<usize> = Vec::new();
    let mut i: usize = 0;
    while i < tail_len
        invariant
            i <= tail_len,
            n == entries@.len(),
            n == offsets@.len(),
            entries@ == old(entries)@,
            offsets@ == old(offsets)@,
            num_copy + tail_len == n,
            all == zip_eo(old(entries)@, old(offsets)@),
            tail == all.subrange(num_copy as int, n as int),
            tail.len() == tail_len,
            dem_es@.len() == dem_os@.len(),
            ret_es@.len() == ret_os@.len(),
            zip_eo(dem_es@, dem_os@) == spec_selected(tail, k as int, i as int, true),
            zip_eo(ret_es@, ret_os@) == spec_selected(tail, k as int, i as int, false),
        decreases tail_len - i,
    {
        let li: usize = entries[num_copy + i].len();
        let mut cnt: usize = 0;
        let mut j: usize = 0;
        while j < tail_len
            invariant
                j <= tail_len,
                cnt <= j,
                n == entries@.len(),
                n == offsets@.len(),
                entries@ == old(entries)@,
                offsets@ == old(offsets)@,
                num_copy + tail_len == n,
                i < tail_len,
                all == zip_eo(old(entries)@, old(offsets)@),
                tail == all.subrange(num_copy as int, n as int),
                tail.len() == tail_len,
                li == tail[i as int].0.buf@.len(),
                cnt as int == spec_count_smaller(tail, i as int, j as int),
            decreases tail_len - j,
        {
            let lj: usize = entries[num_copy + j].len();
            if lj < li || (lj == li && j < i) {
                cnt = cnt + 1;
            }
            j = j + 1;
        }
        let e = entries[num_copy + i];
        let o = offsets[num_copy + i];
        proof {
            assert(tail[i as int] == (entries@[num_copy + i as int], offsets@[num_copy + i as int]));
        }
        if cnt < k {
            dem_es.push(e);
            dem_os.push(o);
            proof {
                assert(spec_demoted(tail, k as int, i as int));
                assert(zip_eo(dem_es@, dem_os@) =~= spec_selected(tail, k as int, i as int, true)
                    + seq![tail[i as int]]);
                assert(zip_eo(ret_es@, ret_os@) =~= spec_selected(tail, k as int, i + 1, false));
            }
        } else {
            ret_es.push(e);
            ret_os.push(o);
            proof {
                assert(!spec_demoted(tail, k as int, i as int));
                assert(zip_eo(ret_es@, ret_os@) =~= spec_selected(tail, k as int, i as int, false)
                    + seq![tail[i as int]]);
                assert(zip_eo(dem_es@, dem_os@) =~= spec_selected(tail, k as int, i + 1, true));
            }
        }
        i = i + 1;
    }
    proof {
        lemma_selected_len(tail, k as int, tail_len as int);
    }
    let new_num_copy: usize = num_copy + dem_es.len();
    let mut out_es: Vec<Sge<'a>> = Vec::new();
    let mut out_os: Vec<usize> = Vec::new();
    let mut h: usize = 0;
    proof {
        assert(zip_eo(out_es@, out_os@) =~= all.subrange(0, 0));
    }
    while h < num_copy
        invariant
            h <= num_copy,
            num_copy <= n,
            n == entries@.len(),
            n == offsets@.len(),
            entries@ == old(entries)@,
            offsets@ == old(offsets)@,
            all == zip_eo(old(entries)@, old(offsets)@),
            out_es@.len() == out_os@.len(),
            zip_eo(out_es@, out_os@) == all.subrange(0, h as int),
        decreases num_copy - h,
    {
        let ghost oes = out_es@;
        let ghost oos = out_os@;
        out_es.push(entries[h]);
        out_os.push(offsets[h]);
        proof {
            assert(all[h as int] == (entries@[h as int], offsets@[h as int]));
            assert(zip_eo(out_es@, out_os@) =~= zip_eo(oes, oos).push(all[h as int]));
            assert(zip_eo(oes, oos).push(all[h as int]) =~= all.subrange(0, h as int + 1));
        }
        h = h + 1;
    }
    out_es.append(&mut dem_es);
    out_os.append(&mut dem_os);
    out_es.append(&mut ret_es);
    out_os.append(&mut ret_os);
    proof {
        assert(zip_eo(out_es@, out_os@) =~= all.subrange(0, num_copy as int) + spec_selected(
            tail,
            k as int,
            tail_len as int,
            true,
        ) + spec_selected(tail, k as int, tail_len as int, false));
        lemma_selected_len(tail, k as int, tail_len as int);
    }
    *entries = out_es;
    *offsets = out_os;
    new_num_copy
}

/// The demoted and retained selections of `tail` together hold all of its
/// pairs.
proof fn lemma_selected_len<'a>(tail: Seq<(Sge<'a>, usize)>, k: int, m: int)
    requires
        m >= 0,
    ensures
        spec_selected(tail, k, m, true).len() + spec_selected(tail, k, m, false).len() == m,
    decreases m,
{
    if m > 0 {
        lemma_selected_len(tail, k, m - 1);
    }
}

/// Complementary filters of one sequence account for all of its elements.
pub proof fn lemma_filter_complement<A>(s: Seq<A>, p: spec_fn(A) -> bool, q: spec_fn(A) -> bool)
    requires
        forall|x: A| #[trigger] q(x) == !p(x),
    ensures
        s.filter(p).len() + s.filter(q).len() == s.len(),
    decreases s.len(),
{
    reveal(Seq::filter);
    if s.len() > 0 {
        lemma_filter_complement(s.drop_last(), p, q);
    }
}

/// Filtering keeps a sequence whose elements all satisfy the predicate.
pub proof fn lemma_filter_all<A>(s: Seq<A>, p: spec_fn(A) -> bool)
    requires
        forall|i: int| 0 <= i < s.len() ==> p(#[trigger] s[i]),
    ensures
        s.filter(p) == s,
    decreases s.len(),
{
    reveal(Seq::filter);
    if s.len() > 0 {
        lemma_filter_all(s.drop_last(), p);
        assert(s.drop_last().push(s.last()) =~= s);
    }
}

/// Filtering empties a sequence none of whose elements satisfy the
/// predicate.
pub proof fn lemma_filter_none<A>(s: Seq<A>, p: spec_fn(A) -> bool)
    requires
        forall|i: int| 0 <= i < s.len() ==> !p(#[trigger] s[i]),
    ensures
        s.filter(p) == Seq::<A>::empty(),
    decreases s.len(),
{
    reveal(Seq::filter);
    if s.len() > 0 {
        lemma_filter_none(s.drop_last(), p);
    } else {
        assert(s.filter(p) =~= Seq::<A>::empty());
    }
}


/// The concatenated bytes of a run of entries, in order.
pub open spec fn spec_flatten_entries<'a>(es: Seq<Sge<'a>>) -> Seq<u8>
    decreases es.len(),
{
    if es.len() == 0 {
        Seq::empty()
    } else {
        spec_flatten_entries(es.drop_last()) + es.last().buf@
    }
}

/// Appends the bytes of `b` to `out`.
pub fn push_bytes(out: &mut Vec<u8>, b: &[u8])
    ensures
        final(out)@ == old(out)@ + b@,
{
    let n: usize = b.len();
    let mut i: usize = 0;
    proof {
        assert(out@ =~= old(out)@ + b@.subrange(0, 0));
    }
    while i < n
        invariant
            i <= n,
            n == b@.len(),
            out@ == old(out)@ + b@.subrange(0, i as int),
        decreases n - i,
    {
        out.push(*vstd::slice::slice_index_get(b, i));
        proof {
            assert(out@ =~= old(out)@ + b@.subrange(0, i as int + 1));
        }
        i = i + 1;
    }
    proof {
        assert(out@ =~= old(out)@ + b@);
    }
}

/// A capacity-bounded run of scatter-gather entries: the reserved head
/// slot, then a copy run, then the zero-copy tail.
///
/// Slot 0 is reserved for the serialized header buffer itself;
/// serialization replaces it with an entry viewing the completed header,
/// so the array alone carries every segment of the outgoing message.
/// The reorderings permute only the payload entries behind the head
/// slot.
pub struct OrderedSga<'a> {
    /// Entry 0 is the head slot; the payload entries follow, copy run
    /// first.
    pub entries: Vec<Sge<'a>>,
    /// How many leading entries, the head slot included, belong to the
    /// run that is copied together; the rest form the zero-copy tail.
    pub num_copy_entries: usize,
}

impl<'a> OrderedSga<'a> {
    /// Whether the copy-run boundary lies within the entries.
    pub open spec fn wf(&self) -> bool {
        self.num_copy_entries <= self.entries@.len()
    }

    /// An array of `size` empty entries, ready for serialization to fill.
    pub fn allocate(size: usize) -> (r: OrderedSga<'a>)
        ensures
            r.entries@.len() == size,
            forall|i: int| 0 <= i < size ==> (#[trigger] r.entries@[i]).buf@.len() == 0,
            r.num_copy_entries == 0,
            r.wf(),
    {
        let mut entries: Vec<Sge<'a>> = Vec::with_capacity(size);
        let mut i: usize = 0;
        while i < size
            invariant
                i <= size,
                entries@.len() == i,
                forall|k: int| 0 <= k < i ==> (#[trigger] entries@[k]).buf@.len() == 0,
            decreases size - i,
        {
            entries.push(Sge::new(&[]));
            i = i + 1;
        }
        OrderedSga { entries, num_copy_entries: 0 }
    }

    /// Number of entries held.
    pub fn len(&self) -> (r: usize)
        ensures
            r == self.entries@.len(),
    {
        self.entries.len()
    }

    /// Number of entries that will be copied together.
    pub fn num_copy_entries(&self) -> (r: usize)
        ensures
            r == self.num_copy_entries,
    {
        self.num_copy_entries
    }

    /// Number of entries in the zero-copy tail.
    pub fn num_zero_copy_entries(&self) -> (r: usize)
        requires
            self.wf(),
        ensures
            r as int == self.entries@.len() - self.num_copy_entries,
    {
        self.entries.len() - self.num_copy_entries
    }

    /// Stably moves the zero-copy payload entries behind the copy
    /// entries, leaving the head slot in place and permuting `offsets`
    /// identically; `offsets` holds one back-patch position per payload
    /// entry.
    pub fn reorder_by_size_and_registration<D: Datapath>(
        &mut self,
        datapath: &D,
        offsets: &mut Vec<usize>,
    )
        requires
            old(self).entries@.len() >= 1,
            old(self).entries@.len() == old(offsets)@.len() + 1,
        ensures
            final(self).entries@.len() == old(self).entries@.len(),
            final(offsets)@.len() == old(offsets)@.len(),
            final(self).entries@[0] == old(self).entries@[0],
            ({
                let old_tail = old(self).entries@.subrange(1, old(self).entries@.len() as int);
                let new_tail = final(self).entries@.subrange(
                    1,
                    final(self).entries@.len() as int,
                );
                &&& zip_eo(new_tail, final(offsets)@) == spec_copy_part(
                    *datapath,
                    zip_eo(old_tail, old(offsets)@),
                ) + spec_zc_part(*datapath, zip_eo(old_tail, old(offsets)@))
                &&& final(self).num_copy_entries as int == 1 + spec_copy_part(
                    *datapath,
                    zip_eo(old_tail, old(offsets)@),
                ).len()
            }),
            final(self).wf(),
    {
        let ghost old_tail = old(self).entries@.subrange(1, old(self).entries@.len() as int);
        let n: usize = self.entries.len();
        let mut tail: Vec<Sge<'a>> = Vec::new();
        let mut i: usize = 1;
        proof {
            assert(tail@ =~= old(self).entries@.subrange(1, 1));
        }
        while i < n
            invariant
                1 <= i <= n,
                n == self.entries@.len(),
                self.entries@ == old(self).entries@,
                tail@ == old(self).entries@.subrange(1, i as int),
            decreases n - i,
        {
            tail.push(self.entries[i]);
            proof {
                assert(tail@ =~= old(self).entries@.subrange(1, i as int + 1));
            }
            i = i + 1;
        }
        proof {
            assert(tail@ == old_tail);
            let all_pairs = zip_eo(old_tail, old(offsets)@);
            lemma_filter_complement(
                all_pairs,
                |pr: (Sge<'a>, usize)| !spec_zero_copy(*datapath, pr.0),
                |pr: (Sge<'a>, usize)| spec_zero_copy(*datapath, pr.0),
            );
        }
        let nc = reorder_entries_by_size_and_registration(datapath, &mut tail, offsets);
        let head = self.entries[0];
        let mut all: Vec<Sge<'a>> = Vec::new();
        all.push(head);
        let ghost reordered = tail@;
        all.append(&mut tail);
        self.entries = all;
        self.num_copy_entries = nc + 1;
        proof {
            assert(final(self).entries@.subrange(1, final(self).entries@.len() as int)
                =~= reordered);
        }
    }

    /// Demotes the smallest zero-copy payload entries until the tail
    /// fits the datapath's segment limit, leaving the head slot in place
    /// and permuting `offsets` identically.
    pub fn reorder_by_max_segs<D: Datapath>(&mut self, datapath: &D, offsets: &mut Vec<usize>)
        requires
            old(self).wf(),
            1 <= old(self).num_copy_entries,
            old(self).entries@.len() == old(offsets)@.len() + 1,
        ensures
            final(self).entries@.len() == old(self).entries@.len(),
            final(offsets)@.len() == old(offsets)@.len(),
            final(self).entries@[0] == old(self).entries@[0],
            final(self).wf(),
            ({
                let old_tail = old(self).entries@.subrange(1, old(self).entries@.len() as int);
                let new_tail = final(self).entries@.subrange(
                    1,
                    final(self).entries@.len() as int,
                );
                let all = zip_eo(old_tail, old(offsets)@);
                let nc = old(self).num_copy_entries as int - 1;
                let zc_run = all.subrange(nc, all.len() as int);
                let max = datapath.max_segments_spec();
                if zc_run.len() <= max {
                    zip_eo(new_tail, final(offsets)@) == all && final(self).num_copy_entries
                        == old(self).num_copy_entries
                } else {
                    let k = zc_run.len() - max;
                    zip_eo(new_tail, final(offsets)@) == all.subrange(0, nc) + spec_selected(
                        zc_run,
                        k,
                        zc_run.len() as int,
                        true,
                    ) + spec_selected(zc_run, k, zc_run.len() as int, false)
                        && final(self).num_copy_entries as int == 1 + nc + spec_selected(
                        zc_run,
                        k,
                        zc_run.len() as int,
                        true,
                    ).len()
                }
            }),
    {
        let ghost old_tail = old(self).entries@.subrange(1, old(self).entries@.len() as int);
        let n: usize = self.entries.len();
        let mut tail: Vec<Sge<'a>> = Vec::new();
        let mut i: usize = 1;
        proof {
            assert(tail@ =~= old(self).entries@.subrange(1, 1));
        }
        while i < n
            invariant
                1 <= i <= n,
                n == self.entries@.len(),
                self.entries@ == old(self).entries@,
                tail@ == old(self).entries@.subrange(1, i as int),
            decreases n - i,
        {
            tail.push(self.entries[i]);
            proof {
                assert(tail@ =~= old(self).entries@.subrange(1, i as int + 1));
            }
            i = i + 1;
        }
        proof {
            assert(tail@ == old_tail);
        }
        let nc = reorder_entries_by_max_segs(
            datapath,
            &mut tail,
            offsets,
            self.num_copy_entries - 1,
        );
        let head = self.entries[0];
        let mut all: Vec<Sge<'a>> = Vec::new();
        all.push(head);
        let ghost reordered = tail@;
        all.append(&mut tail);
        self.entries = all;
        self.num_copy_entries = nc + 1;
        proof {
            assert(final(self).entries@.subrange(1, final(self).entries@.len() as int)
                =~= reordered);
        }
    }

    /// The whole outgoing message as one contiguous buffer: every
    /// entry's bytes in order, the head slot's completed header first.
    /// This is what a peer receives once the datapath has gathered the
    /// segments.
    pub fn contiguous_repr(&self) -> (r: Vec<u8>)
        ensures
            r@ == spec_flatten_entries(self.entries@),
    {
        let mut out: Vec<u8> = Vec::new();
        let n: usize = self.entries.len();
        let mut i: usize = 0;
        proof {
            assert(self.entries@.subrange(0, 0) =~= Seq::<Sge<'a>>::empty());
            assert(out@ =~= spec_flatten_entries(self.entries@.subrange(0, 0)));
        }
        while i < n
            invariant
                i <= n,
                n == self.entries@.len(),
                out@ == spec_flatten_entries(self.entries@.subrange(0, i as int)),
            decreases n - i,
        {
            push_bytes(&mut out, self.entries[i].buf);
            proof {
                let pre = self.entries@.subrange(0, i as int);
                let cur = self.entries@.subrange(0, i as int + 1);
                assert(cur.drop_last() =~= pre);
                assert(spec_flatten_entries(cur) == spec_flatten_entries(pre)
                    + self.entries@[i as int].buf@);
            }
            i = i + 1;
        }
        proof {
            assert(self.entries@.subrange(0, n as int) =~= self.entries@);
        }
        out
    }

}


/// The view of one entry-slot pair: the segment's bytes and the header
/// position of its forward pointer.
pub open spec fn pview<'a>(prs: Seq<(Sge<'a>, usize)>) -> Seq<(Seq<u8>, int)> {
    prs.map_values(|p: (Sge<'a>, usize)| (p.0.buf@, p.1 as int))
}

/// Whether `d` would send a segment with these bytes zero-copy.
pub open spec fn view_zero_copy<D: Datapath>(d: D, pr: (Seq<u8>, int)) -> bool {
    pr.0.len() >= d.copying_threshold_spec() && d.registered_spec(pr.0)
}

/// View-level stable partition: copy pairs first, zero-copy pairs last.
pub open spec fn view_reorder1<D: Datapath>(d: D, prs: Seq<(Seq<u8>, int)>) -> Seq<(Seq<u8>, int)> {
    prs.filter(|pr: (Seq<u8>, int)| !view_zero_copy(d, pr)) + prs.filter(
        |pr: (Seq<u8>, int)| view_zero_copy(d, pr),
    )
}

/// Length of the view-level copy run after the stable partition.
pub open spec fn view_reorder1_nc<D: Datapath>(d: D, prs: Seq<(Seq<u8>, int)>) -> int {
    prs.filter(|pr: (Seq<u8>, int)| !view_zero_copy(d, pr)).len() as int
}

/// View-level count of positions of `tail` ordering strictly before
/// position `i`.
pub open spec fn view_count_smaller(tail: Seq<(Seq<u8>, int)>, i: int, m: int) -> int
    decreases m,
{
    if m <= 0 {
        0
    } else {
        view_count_smaller(tail, i, m - 1) + if spec_lex_less(
            tail[m - 1].0.len() as int,
            m - 1,
            tail[i].0.len() as int,
            i,
        ) {
            1int
        } else {
            0int
        }
    }
}

/// View-level demotion status of position `i`.
pub open spec fn view_demoted(tail: Seq<(Seq<u8>, int)>, k: int, i: int) -> bool {
    view_count_smaller(tail, i, tail.len() as int) < k
}

/// View-level selection of the demoted or retained pairs, in original
/// order.
pub open spec fn view_selected(
    tail: Seq<(Seq<u8>, int)>,
    k: int,
    m: int,
    demoted: bool,
) -> Seq<(Seq<u8>, int)>
    decreases m,
{
    if m <= 0 {
        Seq::empty()
    } else {
        view_selected(tail, k, m - 1, demoted) + if view_demoted(tail, k, m - 1) == demoted {
            seq![tail[m - 1]]
        } else {
            Seq::empty()
        }
    }
}

/// View-level demotion of the smallest zero-copy pairs until at most the
/// datapath's segment limit remains.
pub open spec fn view_reorder2<D: Datapath>(
    d: D,
    prs: Seq<(Seq<u8>, int)>,
    nc: int,
) -> Seq<(Seq<u8>, int)> {
    let tail = prs.subrange(nc, prs.len() as int);
    let max = d.max_segments_spec();
    if tail.len() <= max {
        prs
    } else {
        let k = tail.len() - max;
        prs.subrange(0, nc) + view_selected(tail, k, tail.len() as int, true) + view_selected(
            tail,
            k,
            tail.len() as int,
            false,
        )
    }
}

/// Length of the view-level copy run after demotion.
pub open spec fn view_reorder2_nc<D: Datapath>(d: D, prs: Seq<(Seq<u8>, int)>, nc: int) -> int {
    let tail = prs.subrange(nc, prs.len() as int);
    let max = d.max_segments_spec();
    if tail.len() <= max {
        nc
    } else {
        let k = tail.len() - max;
        nc + view_selected(tail, k, tail.len() as int, true).len() as int
    }
}

/// The header bytes after each pair's forward pointer is back-patched
/// with its final size and a running transmission offset that starts at
/// `cur`.
pub open spec fn view_backpatch(h: Seq<u8>, prs: Seq<(Seq<u8>, int)>, cur: int) -> Seq<u8>
    decreases prs.len(),
{
    if prs.len() == 0 {
        h
    } else {
        view_backpatch(
            crate::wire::splice(
                h,
                prs[0].1,
                crate::fwd::spec_fwd_bytes(prs[0].0.len() as u32, cur as u32),
            ),
            prs.drop_first(),
            cur + prs[0].0.len(),
        )
    }
}

/// Total byte length of the pairs' segments.
pub open spec fn view_sum(prs: Seq<(Seq<u8>, int)>) -> int
    decreases prs.len(),
{
    if prs.len() == 0 {
        0
    } else {
        view_sum(prs.drop_last()) + prs.last().0.len()
    }
}

/// The view of a filtered pair run is the filtered view, for any
/// predicate that depends only on the view.
pub proof fn lemma_pview_filter<'a, D: Datapath>(d: D, prs: Seq<(Sge<'a>, usize)>, zc: bool)
    ensures
        zc ==> pview(prs.filter(|pr: (Sge<'a>, usize)| spec_zero_copy(d, pr.0))) == pview(
            prs,
        ).filter(|pr: (Seq<u8>, int)| view_zero_copy(d, pr)),
        !zc ==> pview(prs.filter(|pr: (Sge<'a>, usize)| !spec_zero_copy(d, pr.0))) == pview(
            prs,
        ).filter(|pr: (Seq<u8>, int)| !view_zero_copy(d, pr)),
    decreases prs.len(),
{
    reveal(Seq::filter);
    if prs.len() > 0 {
        lemma_pview_filter(d, prs.drop_last(), zc);
        assert(pview(prs).drop_last() =~= pview(prs.drop_last()));
        assert(pview(prs).last() == (prs.last().0.buf@, prs.last().1 as int));
        if zc {
            let p = |pr: (Sge<'a>, usize)| spec_zero_copy(d, pr.0);
            let q = |pr: (Seq<u8>, int)| view_zero_copy(d, pr);
            if p(prs.last()) {
                assert(pview(prs.filter(p)) =~= pview(prs.drop_last().filter(p)).push(
                    (prs.last().0.buf@, prs.last().1 as int),
                ));
            }
            assert(pview(prs.filter(p)) =~= pview(prs).filter(q));
        } else {
            let p = |pr: (Sge<'a>, usize)| !spec_zero_copy(d, pr.0);
            let q = |pr: (Seq<u8>, int)| !view_zero_copy(d, pr);
            if p(prs.last()) {
                assert(pview(prs.filter(p)) =~= pview(prs.drop_last().filter(p)).push(
                    (prs.last().0.buf@, prs.last().1 as int),
                ));
            }
            assert(pview(prs.filter(p)) =~= pview(prs).filter(q));
        }
    } else {
        assert(pview(prs) =~= Seq::<(Seq<u8>, int)>::empty());
        reveal(Seq::filter);
    }
}

/// Counting commutes with taking views.
pub proof fn lemma_pview_count<'a>(tail: Seq<(Sge<'a>, usize)>, i: int, m: int)
    requires
        0 <= i < tail.len(),
        m <= tail.len(),
    ensures
        spec_count_smaller(tail, i, m) == view_count_smaller(pview(tail), i, m),
    decreases m,
{
    if m > 0 {
        lemma_pview_count(tail, i, m - 1);
        if 0 <= m - 1 < tail.len() {
            assert(pview(tail)[m - 1] == (tail[m - 1].0.buf@, tail[m - 1].1 as int));
        }
    }
}

/// Selection commutes with taking views.
pub proof fn lemma_pview_selected<'a>(tail: Seq<(Sge<'a>, usize)>, k: int, m: int, demoted: bool)
    requires
        0 <= m <= tail.len(),
    ensures
        pview(spec_selected(tail, k, m, demoted)) == view_selected(pview(tail), k, m, demoted),
    decreases m,
{
    if m > 0 {
        lemma_pview_selected(tail, k, m - 1, demoted);
        lemma_pview_count(tail, m - 1, tail.len() as int);
        assert(spec_demoted(tail, k, m - 1) == view_demoted(pview(tail), k, m - 1));
        if spec_demoted(tail, k, m - 1) == demoted {
            assert(pview(spec_selected(tail, k, m, demoted)) =~= pview(
                spec_selected(tail, k, m - 1, demoted),
            ) + seq![(tail[m - 1].0.buf@, tail[m - 1].1 as int)]);
            assert(view_selected(pview(tail), k, m, demoted) =~= view_selected(
                pview(tail),
                k,
                m - 1,
                demoted,
            ) + seq![(tail[m - 1].0.buf@, tail[m - 1].1 as int)]);
        } else {
            assert(pview(spec_selected(tail, k, m, demoted)) =~= pview(
                spec_selected(tail, k, m - 1, demoted),
            ));
            assert(view_selected(pview(tail), k, m, demoted) =~= view_selected(
                pview(tail),
                k,
                m - 1,
                demoted,
            ));
        }
    } else {
        assert(pview(spec_selected(tail, k, m, demoted)) =~= Seq::<(Seq<u8>, int)>::empty());
    }
}

/// Sums split over complementary filters.
pub proof fn lemma_view_sum_filter<D: Datapath>(d: D, prs: Seq<(Seq<u8>, int)>)
    ensures
        view_sum(prs.filter(|pr: (Seq<u8>, int)| !view_zero_copy(d, pr))) + view_sum(
            prs.filter(|pr: (Seq<u8>, int)| view_zero_copy(d, pr)),
        ) == view_sum(prs),
    decreases prs.len(),
{
    reveal(Seq::filter);
    if prs.len() > 0 {
        lemma_view_sum_filter(d, prs.drop_last());
        let p = |pr: (Seq<u8>, int)| !view_zero_copy(d, pr);
        let q = |pr: (Seq<u8>, int)| view_zero_copy(d, pr);
        if p(prs.last()) {
            assert(prs.filter(p).drop_last() =~= prs.drop_last().filter(p));
            assert(prs.filter(q) =~= prs.drop_last().filter(q));
        } else {
            assert(prs.filter(q).drop_last() =~= prs.drop_last().filter(q));
            assert(prs.filter(p) =~= prs.drop_last().filter(p));
        }
    }
}

/// Sums split over concatenation.
pub proof fn lemma_view_sum_add(a: Seq<(Seq<u8>, int)>, b: Seq<(Seq<u8>, int)>)
    ensures
        view_sum(a + b) == view_sum(a) + view_sum(b),
    decreases b.len(),
{
    if b.len() == 0 {
        assert(a + b =~= a);
    } else {
        lemma_view_sum_add(a, b.drop_last());
        assert((a + b).drop_last() =~= a + b.drop_last());
        assert((a + b).last() == b.last());
    }
}

/// Sums split over the demoted/retained selections.
pub proof fn lemma_view_sum_selected(tail: Seq<(Seq<u8>, int)>, k: int, m: int)
    requires
        0 <= m <= tail.len(),
    ensures
        view_sum(view_selected(tail, k, m, true)) + view_sum(view_selected(tail, k, m, false))
            == view_sum(tail.subrange(0, m)),
    decreases m,
{
    if m > 0 {
        lemma_view_sum_selected(tail, k, m - 1);
        let st = view_selected(tail, k, m, true);
        let sf = view_selected(tail, k, m, false);
        if view_demoted(tail, k, m - 1) {
            lemma_view_sum_add(view_selected(tail, k, m - 1, true), seq![tail[m - 1]]);
            assert(sf == view_selected(tail, k, m - 1, false) + Seq::<(Seq<u8>, int)>::empty());
            assert(sf =~= view_selected(tail, k, m - 1, false));
        } else {
            lemma_view_sum_add(view_selected(tail, k, m - 1, false), seq![tail[m - 1]]);
            assert(st == view_selected(tail, k, m - 1, true) + Seq::<(Seq<u8>, int)>::empty());
            assert(st =~= view_selected(tail, k, m - 1, true));
        }
        assert(tail.subrange(0, m).drop_last() =~= tail.subrange(0, m - 1));
        assert(seq![tail[m - 1]].drop_last() =~= Seq::<(Seq<u8>, int)>::empty());
        assert(view_sum(Seq::<(Seq<u8>, int)>::empty()) == 0);
        assert(seq![tail[m - 1]].last() == tail[m - 1]);
        assert(view_sum(seq![tail[m - 1]]) == view_sum(seq![tail[m - 1]].drop_last()) + seq![
            tail[m - 1],
        ].last().0.len());
        assert(view_sum(seq![tail[m - 1]]) == tail[m - 1].0.len());
    } else {
        assert(tail.subrange(0, 0) =~= Seq::<(Seq<u8>, int)>::empty());
    }
}

/// Filtering keeps any per-element property.
pub proof fn lemma_filter_property<A>(
    s: Seq<A>,
    p: spec_fn(A) -> bool,
    property: spec_fn(A) -> bool,
)
    requires
        forall|i: int| 0 <= i < s.len() ==> property(#[trigger] s[i]),
    ensures
        forall|i: int| 0 <= i < s.filter(p).len() ==> property(#[trigger] s.filter(p)[i]),
    decreases s.len(),
{
    reveal(Seq::filter);
    if s.len() > 0 {
        assert(forall|i: int|
            0 <= i < s.drop_last().len() ==> property(#[trigger] s.drop_last()[i]));
        lemma_filter_property(s.drop_last(), p, property);
        let f = s.filter(p);
        let f0 = s.drop_last().filter(p);
        if p(s.last()) {
            assert(f == f0.push(s.last()));
            assert forall|i: int| 0 <= i < f.len() implies property(#[trigger] f[i]) by {
                if i < f0.len() {
                    assert(f[i] == f0[i]);
                } else {
                    assert(f[i] == s.last());
                    assert(property(s[s.len() - 1]));
                }
            }
        } else {
            assert(f == f0);
        }
    }
}

/// Selection keeps any per-element property.
pub proof fn lemma_selected_property(
    tail: Seq<(Seq<u8>, int)>,
    k: int,
    m: int,
    demoted: bool,
    property: spec_fn((Seq<u8>, int)) -> bool,
)
    requires
        0 <= m <= tail.len(),
        forall|i: int| 0 <= i < tail.len() ==> property(#[trigger] tail[i]),
    ensures
        forall|i: int|
            0 <= i < view_selected(tail, k, m, demoted).len() ==> property(
                #[trigger] view_selected(tail, k, m, demoted)[i],
            ),
        view_selected(tail, k, m, demoted).len() <= m,
    decreases m,
{
    if m > 0 {
        lemma_selected_property(tail, k, m - 1, demoted, property);
    }
}


/// The concatenated segment bytes of a pair run, in order.
pub open spec fn view_flatten(prs: Seq<(Seq<u8>, int)>) -> Seq<u8>
    decreases prs.len(),
{
    if prs.len() == 0 {
        Seq::empty()
    } else {
        view_flatten(prs.drop_last()) + prs.last().0
    }
}

/// Flattening the entries is flattening their views.
pub proof fn lemma_flatten_view<'a>(es: Seq<Sge<'a>>, os: Seq<usize>)
    requires
        es.len() == os.len(),
    ensures
        spec_flatten_entries(es) == view_flatten(pview(zip_eo(es, os))),
    decreases es.len(),
{
    if es.len() > 0 {
        lemma_flatten_view(es.drop_last(), os.drop_last());
        assert(zip_eo(es.drop_last(), os.drop_last()) =~= zip_eo(es, os).drop_last());
        assert(pview(zip_eo(es, os)).drop_last() =~= pview(zip_eo(es, os).drop_last()));
        assert(pview(zip_eo(es, os)).last().0 == es.last().buf@);
    } else {
        assert(pview(zip_eo(es, os)) =~= Seq::<(Seq<u8>, int)>::empty());
    }
}

} // verus!
