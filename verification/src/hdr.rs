//! The header-representation contract: the uniform interface every leaf
//! type, list container and message struct implements.
//!
//! Each implementation fixes a ghost model of itself: an abstract value
//! (`abs`), the byte transformation its serialization performs (`image`),
//! the payload bytes it hands to the scatter-gather array (`leaves`), the
//! header positions whose forward pointers are back-patched after
//! reordering (`slots`), and a parser over received bytes (`parse`).  The
//! executable serialize and deserialize methods are proved against those
//! models, so the models compose: a container reasons about its elements
//! through their models alone.
//!
//! Layout conventions, fixed here for every type:
//! - a type occupying its parent's constant region "contiguously"
//!   (messages: bitmap, then one always-reserved slot per field) starts its
//!   own header where its forward pointer aims, and its out-of-line data
//!   begins `dyn_start` bytes later;
//! - a non-contiguous type (string, bytes and list leaves) keeps only a
//!   forward pointer in the parent slot, aimed at data that may live
//!   anywhere after it.

use crate::sga::Sge;
use crate::WireError;
use vstd::prelude::*;

verus! {

/// Total byte length of a run of leaves.
pub open spec fn spec_sum_len(ls: Seq<Seq<u8>>) -> int
    decreases ls.len(),
{
    if ls.len() == 0 {
        0
    } else {
        spec_sum_len(ls.drop_last()) + ls.last().len()
    }
}

/// The larger of two integers.
pub open spec fn spec_max(a: int, b: int) -> int {
    if a >= b {
        a
    } else {
        b
    }
}

/// The smaller of two integers.
pub open spec fn spec_min(a: int, b: int) -> int {
    if a <= b {
        a
    } else {
        b
    }
}

/// Bytes serialization writes at the constant-header position, given the
/// type's contiguity, constant header size and the instance's dynamic
/// start.
pub open spec fn spec_cwrite(contig: bool, chs: int, dstart: int) -> int {
    if contig {
        dstart
    } else {
        chs
    }
}

/// Bytes serialization writes at the dynamic position.
pub open spec fn spec_dwrite(contig: bool, dstart: int, dsize: int) -> int {
    if contig {
        dsize - dstart
    } else {
        dsize
    }
}

/// One past the last header byte serialization may touch.
pub open spec fn spec_write_end(
    contig: bool,
    chs: int,
    dstart: int,
    dsize: int,
    c_off: int,
    d: int,
) -> int {
    spec_max(
        c_off + spec_max(spec_cwrite(contig, chs, dstart), chs),
        d + spec_dwrite(contig, dstart, dsize),
    )
}

/// Whether serialization may change byte `k` of the header.
pub open spec fn spec_touches(
    contig: bool,
    chs: int,
    dstart: int,
    dsize: int,
    c_off: int,
    d: int,
    k: int,
) -> bool {
    (c_off <= k < c_off + spec_cwrite(contig, chs, dstart)) || (d <= k < d + spec_dwrite(
        contig,
        dstart,
        dsize,
    ))
}

/// What a call to `inner_serialize` demands of its position arguments:
/// both write regions inside the header buffer, a buffer whose offsets
/// fit the wire's u32 fields, and — for contiguous types — the dynamic
/// region starting right after the object's own constant part.
pub open spec fn spec_ser_bounds(
    contig: bool,
    chs: int,
    dstart: int,
    dsize: int,
    hlen: int,
    c_off: int,
    d: int,
) -> bool {
    &&& hlen < 0x1_0000_0000
    &&& 0 <= c_off
    &&& 0 <= d
    &&& c_off + spec_cwrite(contig, chs, dstart) <= hlen
    &&& c_off + chs <= hlen
    &&& d + spec_dwrite(contig, dstart, dsize) <= hlen
    &&& (contig ==> d == c_off + dstart)
}

/// The uniform serialization interface.  `'a` is the lifetime of the
/// buffers a deserialized object borrows from.
pub trait HeaderRepr<'a>: Sized {
    /// The abstract value this object represents: presence plus payload
    /// bytes, free of any buffer identity.
    type Abs;

    /// The abstract value of this object.
    spec fn abs(&self) -> Self::Abs;

    /// Structural well-formedness: capacity bounds hold and every leaf
    /// fits a u32 size field.
    spec fn wf(&self) -> bool;

    /// Bytes this type occupies in its parent's constant region.
    spec fn const_hdr_size() -> int;

    /// Whether serialization lays the whole object down at its constant
    /// offset (messages) rather than only a forward pointer (leaves,
    /// lists).
    spec fn contiguous() -> bool;

    /// Whether this type is a list container, which encodes its own
    /// indirection.
    spec fn is_list_type() -> bool;

    /// Bytes this instance needs beyond its parent's constant slot: its
    /// own bitmap, slots and nested structure.
    spec fn dyn_size(&self) -> int;

    /// Offset, relative to this object's header start, where its
    /// out-of-line data begins.
    spec fn dyn_start(&self) -> int;

    /// Number of scatter-gather entries serialization produces.
    spec fn n_sge(&self) -> int;

    /// The payload bytes of each scatter-gather entry, in traversal
    /// order.
    spec fn leaves(&self) -> Seq<Seq<u8>>;

    /// Header position of the forward pointer that must be back-patched
    /// for each leaf, in the same order as `leaves`.
    spec fn slots(&self, c_off: int, d: int) -> Seq<int>;

    /// The header bytes after this object serializes into `prior` at the
    /// given positions.
    spec fn image(&self, prior: Seq<u8>, c_off: int, d: int) -> Seq<u8>;

    /// Reads one object of this type at `header_offset`; `None` exactly
    /// when a length, slot or pointed-to range runs past the buffer.
    spec fn parse(buffer: Seq<u8>, header_offset: int) -> Option<Self::Abs>;

    /// What a freshly deserialized value satisfies beyond `wf`: its
    /// storage mirrors the wire exactly (a deserialized list's capacity
    /// is the wire's element count, with no spare slots).
    spec fn deser_wf(&self) -> bool;

    /// Consequences of well-formedness every implementation must prove.
    proof fn lemma_basic_facts(&self)
        requires
            self.wf(),
        ensures
            0 <= self.dyn_start() <= self.dyn_size(),
            self.leaves().len() == self.n_sge(),
            Self::const_hdr_size() == 8,
            Self::contiguous() ==> self.dyn_start() >= 8,
            forall|i: int|
                0 <= i < self.n_sge() ==> (#[trigger] self.leaves()[i]).len() < 0x1_0000_0000,
    ;

    /// A successful parse only ever starts at a position inside the
    /// buffer; non-contiguous types read a whole eight-byte forward
    /// pointer there.
    proof fn lemma_parse_bounds(buffer: Seq<u8>, header_offset: int)
        ensures
            Self::parse(buffer, header_offset).is_some() ==> 0 <= header_offset && header_offset
                + 4 <= buffer.len(),
            Self::parse(buffer, header_offset).is_some() && !Self::contiguous()
                ==> header_offset + 8 <= buffer.len(),
    ;

    /// What every serialization image satisfies: it preserves the buffer
    /// length, touches only its own regions, and records one in-bounds
    /// slot per leaf.
    proof fn lemma_serialize_props(&self, prior: Seq<u8>, c_off: int, d: int)
        requires
            self.wf(),
            spec_ser_bounds(
                Self::contiguous(),
                Self::const_hdr_size(),
                self.dyn_start(),
                self.dyn_size(),
                prior.len() as int,
                c_off,
                d,
            ),
        ensures
            self.image(prior, c_off, d).len() == prior.len(),
            forall|k: int|
                0 <= k < prior.len() && !spec_touches(
                    Self::contiguous(),
                    Self::const_hdr_size(),
                    self.dyn_start(),
                    self.dyn_size(),
                    c_off,
                    d,
                    k,
                ) ==> (#[trigger] self.image(prior, c_off, d)[k]) == prior[k],
            self.slots(c_off, d).len() == self.n_sge(),
            forall|i: int|
                0 <= i < self.n_sge() ==> spec_min(c_off, d) <= (#[trigger] self.slots(c_off, d)[i])
                    && self.slots(
                    c_off,
                    d,
                )[i] + 8 <= spec_write_end(
                    Self::contiguous(),
                    Self::const_hdr_size(),
                    self.dyn_start(),
                    self.dyn_size(),
                    c_off,
                    d,
                ),
    ;

    /// Bytes this type occupies in its parent's constant region.
    fn constant_header_size() -> (r: usize)
        ensures
            r as int == Self::const_hdr_size(),
    ;

    /// Whether serialization lays the whole object down at its constant
    /// offset.
    fn is_contiguous() -> (r: bool)
        ensures
            r == Self::contiguous(),
    ;

    /// Whether this object is a list container.
    fn is_list(&self) -> (r: bool)
        ensures
            r == Self::is_list_type(),
    ;

    /// Bytes this instance needs beyond its parent's constant slot.
    fn dynamic_header_size(&self) -> (r: usize)
        requires
            self.wf(),
            self.dyn_size() <= usize::MAX,
        ensures
            r as int == self.dyn_size(),
    ;

    /// Offset where this object's out-of-line data begins, relative to
    /// its own header start.
    fn dynamic_header_start(&self) -> (r: usize)
        requires
            self.wf(),
            self.dyn_size() <= usize::MAX,
        ensures
            r as int == self.dyn_start(),
    ;

    /// Number of scatter-gather entries serialization will produce.
    fn num_scatter_gather_entries(&self) -> (r: usize)
        requires
            self.wf(),
            self.n_sge() <= usize::MAX,
        ensures
            r as int == self.n_sge(),
    ;

    /// Writes this object's constant-position data at
    /// `constant_header_offset` and its out-of-line data at
    /// `dynamic_header_start`, appending one scatter-gather entry and one
    /// back-patch slot position per leaf.
    fn inner_serialize(
        &self,
        header: &mut Vec<u8>,
        constant_header_offset: usize,
        dynamic_header_start: usize,
        sges: &mut Vec<Sge<'a>>,
        offsets: &mut Vec<usize>,
    )
        requires
            self.wf(),
            spec_ser_bounds(
                Self::contiguous(),
                Self::const_hdr_size(),
                self.dyn_start(),
                self.dyn_size(),
                old(header)@.len() as int,
                constant_header_offset as int,
                dynamic_header_start as int,
            ),
            old(sges)@.len() == old(offsets)@.len(),
        ensures
            final(header)@ == self.image(
                old(header)@,
                constant_header_offset as int,
                dynamic_header_start as int,
            ),
            final(header)@.len() == old(header)@.len(),
            final(sges)@.len() == old(sges)@.len() + self.n_sge(),
            final(offsets)@.len() == old(offsets)@.len() + self.n_sge(),
            final(sges)@.subrange(0, old(sges)@.len() as int) == old(sges)@,
            final(offsets)@.subrange(0, old(offsets)@.len() as int) == old(offsets)@,
            forall|i: int|
                0 <= i < self.n_sge() ==> (#[trigger] final(sges)@[old(sges)@.len() + i]).buf@
                    == self.leaves()[i],
            forall|i: int|
                0 <= i < self.n_sge() ==> (#[trigger] final(offsets)@[old(offsets)@.len() + i])
                    as int == self.slots(
                    constant_header_offset as int,
                    dynamic_header_start as int,
                )[i],
    ;

    /// Reads this object back out of `buffer` at `header_offset`,
    /// borrowing payload bytes rather than copying them; fails exactly
    /// when `parse` does.
    fn inner_deserialize(&mut self, buffer: &'a [u8], header_offset: usize) -> (r: Result<
        (),
        WireError,
    >)
        ensures
            r.is_ok() <==> Self::parse(buffer@, header_offset as int).is_some(),
            r.is_ok() ==> final(self).wf() && final(self).deser_wf() && final(self).abs()
                == Self::parse(buffer@, header_offset as int).unwrap(),
    ;
}

/// What deserializing at `header_offset` through a forward pointer reads:
/// without the indirection it is a plain `parse`; with it, the offset half
/// of the pointer at `header_offset` says where to parse.
pub open spec fn spec_parse_with_ref<'a, T: HeaderRepr<'a>>(
    buffer: Seq<u8>,
    header_offset: int,
    with_ref: bool,
) -> Option<T::Abs> {
    if !with_ref {
        T::parse(buffer, header_offset)
    } else if 0 <= header_offset && header_offset + 8 <= buffer.len() {
        T::parse(buffer, crate::fwd::spec_fwd_offset(buffer, header_offset) as int)
    } else {
        None
    }
}

/// Serializes `obj` for a call site that reaches it through a forward
/// pointer when `with_ref` is set: the pointer's offset half is written at
/// `constant_header_offset`, aimed at `dynamic_header_start`, and the
/// object itself starts there.
pub fn inner_serialize_with_ref<'a, T: HeaderRepr<'a>>(
    obj: &T,
    header: &mut Vec<u8>,
    constant_header_offset: usize,
    dynamic_header_start: usize,
    sges: &mut Vec<Sge<'a>>,
    offsets: &mut Vec<usize>,
    with_ref: bool,
)
    requires
        old(sges)@.len() == old(offsets)@.len(),
        obj.wf(),
        obj.dyn_size() <= usize::MAX,
        if with_ref {
            &&& T::contiguous()
            &&& constant_header_offset + 8 <= old(header)@.len()
            &&& old(header)@.len() < 0x1_0000_0000
            &&& dynamic_header_start + obj.dyn_size() <= old(header)@.len()
        } else {
            spec_ser_bounds(
                T::contiguous(),
                T::const_hdr_size(),
                obj.dyn_start(),
                obj.dyn_size(),
                old(header)@.len() as int,
                constant_header_offset as int,
                dynamic_header_start as int,
            )
        },
    ensures
        final(sges)@.len() == old(sges)@.len() + obj.n_sge(),
        final(offsets)@.len() == old(offsets)@.len() + obj.n_sge(),
        final(header)@.len() == old(header)@.len(),
        final(sges)@.subrange(0, old(sges)@.len() as int) == old(sges)@,
        final(offsets)@.subrange(0, old(offsets)@.len() as int) == old(offsets)@,
        ({
            let c = constant_header_offset as int;
            let d = dynamic_header_start as int;
            if with_ref {
                let h1 = crate::wire::splice(
                    old(header)@,
                    c + 4,
                    vstd::bytes::spec_u32_to_le_bytes(dynamic_header_start as u32),
                );
                &&& final(header)@ == obj.image(h1, d, d + obj.dyn_start())
                &&& (forall|i: int|
                    0 <= i < obj.n_sge() ==> (#[trigger] final(sges)@[old(sges)@.len() + i]).buf@
                        == obj.leaves()[i])
                &&& (forall|i: int|
                    0 <= i < obj.n_sge() ==> (#[trigger] final(offsets)@[old(offsets)@.len() + i])
                        as int == obj.slots(d, d + obj.dyn_start())[i])
            } else {
                &&& final(header)@ == obj.image(old(header)@, c, d)
                &&& (forall|i: int|
                    0 <= i < obj.n_sge() ==> (#[trigger] final(sges)@[old(sges)@.len() + i]).buf@
                        == obj.leaves()[i])
                &&& (forall|i: int|
                    0 <= i < obj.n_sge() ==> (#[trigger] final(offsets)@[old(offsets)@.len() + i])
                        as int == obj.slots(c, d)[i])
            }
        }),
{
    if with_ref {
        proof {
            obj.lemma_basic_facts();
        }
        crate::fwd::write_fwd_offset(header, constant_header_offset, dynamic_header_start as u32);
        let ds = obj.dynamic_header_start();
        obj.inner_serialize(header, dynamic_header_start, dynamic_header_start + ds, sges, offsets);
    } else {
        obj.inner_serialize(header, constant_header_offset, dynamic_header_start, sges, offsets);
    }
}

/// Deserializes an object reached through a forward pointer when
/// `with_ref` is set; fails exactly when `spec_parse_with_ref` does.
pub fn inner_deserialize_with_ref<'a, T: HeaderRepr<'a>>(
    obj: &mut T,
    buffer: &'a [u8],
    header_offset: usize,
    with_ref: bool,
) -> (r: Result<(), WireError>)
    ensures
        r.is_ok() <==> spec_parse_with_ref::<T>(buffer@, header_offset as int, with_ref).is_some(),
        r.is_ok() ==> final(obj).wf() && final(obj).deser_wf() && final(obj).abs()
            == spec_parse_with_ref::<T>(buffer@, header_offset as int, with_ref).unwrap(),
{
    if with_ref {
        if buffer.len() < 8 || header_offset > buffer.len() - 8 {
            return Err(WireError::Malformed);
        }
        let target = crate::fwd::read_fwd_offset(buffer, header_offset);
        obj.inner_deserialize(buffer, target as usize)
    } else {
        obj.inner_deserialize(buffer, header_offset)
    }
}

/// Total header bytes an object needs when serialized at the top of a
/// buffer (`with_ref` false) or behind a forward pointer slot.
pub fn total_header_size<'a, T: HeaderRepr<'a>>(obj: &T, with_ref: bool) -> (r: usize)
    requires
        obj.wf(),
        obj.dyn_size() + T::const_hdr_size() <= usize::MAX,
    ensures
        r as int == obj.dyn_size() + if with_ref {
            T::const_hdr_size()
        } else {
            0
        },
{
    proof {
        obj.lemma_basic_facts();
    }
    let d = obj.dynamic_header_size();
    if with_ref {
        d + T::constant_header_size()
    } else {
        d
    }
}


/// Pairs of (leaf bytes, back-patch slot) an object hands to the
/// scatter-gather array, in traversal order.
pub open spec fn spec_leaf_pairs<'a, T: HeaderRepr<'a>>(obj: &T, c_off: int, d: int) -> Seq<
    (Seq<u8>, int),
> {
    Seq::new(obj.n_sge() as nat, |i: int| (obj.leaves()[i], obj.slots(c_off, d)[i]))
}

/// Segment sums are never negative.
proof fn lemma_view_sum_nonneg(prs: Seq<(Seq<u8>, int)>)
    ensures
        crate::sga::view_sum(prs) >= 0,
    decreases prs.len(),
{
    if prs.len() > 0 {
        lemma_view_sum_nonneg(prs.drop_last());
    }
}

/// The segments of the leaf pairs weigh exactly the leaves.
pub proof fn lemma_leaf_pairs_sum(ls: Seq<Seq<u8>>, ss: Seq<int>, n: int)
    requires
        0 <= n <= ls.len(),
        n <= ss.len(),
    ensures
        crate::sga::view_sum(Seq::new(n as nat, |i: int| (ls[i], ss[i]))) == spec_sum_len(
            ls.subrange(0, n),
        ),
    decreases n,
{
    let cur = Seq::new(n as nat, |i: int| (ls[i], ss[i]));
    if n > 0 {
        lemma_leaf_pairs_sum(ls, ss, n - 1);
        assert(cur.drop_last() =~= Seq::new((n - 1) as nat, |i: int| (ls[i], ss[i])));
        assert(ls.subrange(0, n).drop_last() =~= ls.subrange(0, n - 1));
    } else {
        assert(ls.subrange(0, 0) =~= Seq::<Seq<u8>>::empty());
    }
}

/// Both selections of a tail together hold all of its pairs.
pub proof fn lemma_view_selected_len_pub(tail: Seq<(Seq<u8>, int)>, k: int, m: int)
    requires
        m >= 0,
    ensures
        crate::sga::view_selected(tail, k, m, true).len() + crate::sga::view_selected(
            tail,
            k,
            m,
            false,
        ).len() == m,
{
    lemma_view_selected_len(tail, k, m);
}

/// Both selections of a tail together hold all of its pairs.
proof fn lemma_view_selected_len(tail: Seq<(Seq<u8>, int)>, k: int, m: int)
    requires
        m >= 0,
    ensures
        crate::sga::view_selected(tail, k, m, true).len() + crate::sga::view_selected(
            tail,
            k,
            m,
            false,
        ).len() == m,
    decreases m,
{
    if m > 0 {
        lemma_view_selected_len(tail, k, m - 1);
    }
}

/// Appending one pair adds its segment length to the sum.
proof fn lemma_view_sum_push(s: Seq<(Seq<u8>, int)>, x: (Seq<u8>, int))
    ensures
        crate::sga::view_sum(s.push(x)) == crate::sga::view_sum(s) + x.0.len(),
{
    assert(s.push(x).drop_last() =~= s);
    assert(s.push(x).last() == x);
}

/// Leaf sums are never negative.
proof fn lemma_sum_len_nonneg(ls: Seq<Seq<u8>>)
    ensures
        spec_sum_len(ls) >= 0,
    decreases ls.len(),
{
    if ls.len() > 0 {
        lemma_sum_len_nonneg(ls.drop_last());
    }
}

/// Serializes `obj` into `header_buffer` and `ordered_sga`: lays down the
/// header image, reorders the entries by the datapath's copy heuristics
/// and segment limit, then back-patches each leaf's forward pointer with
/// its final size and running transmission offset.  Fails, before any
/// mutation, exactly when the header buffer cannot hold the header or is
/// too large for the wire's u32 offsets.
#[verifier::rlimit(100)]
pub fn serialize_into_sga<'a, T: HeaderRepr<'a>, D: crate::datapath::Datapath>(
    obj: &T,
    header_buffer: &'a mut Vec<u8>,
    ordered_sga: &mut crate::sga::OrderedSga<'a>,
    datapath: &D,
) -> (r: Result<(), WireError>)
    requires
        obj.wf(),
        T::contiguous(),
        obj.dyn_size() + spec_sum_len(obj.leaves()) < 0x1_0000_0000,
        obj.n_sge() < 0x1_0000_0000,
    ensures
        r.is_ok() <==> obj.n_sge() + 1 <= old(ordered_sga).entries@.len() && obj.dyn_size() <= old(
            header_buffer,
        )@.len() && old(header_buffer)@.len() < 0x1_0000_0000,
        final(header_buffer)@.len() == old(header_buffer)@.len(),
        r.is_err() ==> final(header_buffer)@ == old(header_buffer)@ && *final(ordered_sga)
            == *old(ordered_sga),
        r.is_ok() ==> ({
            let h1 = obj.image(old(header_buffer)@, 0, obj.dyn_start());
            let pairs0 = spec_leaf_pairs(obj, 0, obj.dyn_start());
            let nc1 = crate::sga::view_reorder1_nc(*datapath, pairs0);
            let pairs1 = crate::sga::view_reorder1(*datapath, pairs0);
            let pairs2 = crate::sga::view_reorder2(*datapath, pairs1, nc1);
            &&& final(header_buffer)@ == crate::sga::view_backpatch(h1, pairs2, obj.dyn_size())
            &&& final(ordered_sga).entries@.len() == obj.n_sge() + 1
            &&& final(ordered_sga).entries@[0].buf@ == final(header_buffer)@.subrange(
                0,
                obj.dyn_size(),
            )
            &&& final(ordered_sga).entries@.subrange(
                1,
                final(ordered_sga).entries@.len() as int,
            ).map_values(|e: Sge<'a>| e.buf@) == pairs2.map_values(|p: (Seq<u8>, int)| p.0)
            &&& final(ordered_sga).num_copy_entries as int == 1 + crate::sga::view_reorder2_nc(
                *datapath,
                pairs1,
                nc1,
            )
            &&& final(ordered_sga).wf()
        }),
{
    proof {
        obj.lemma_basic_facts();
        lemma_sum_len_nonneg(obj.leaves());
    }
    let required = obj.num_scatter_gather_entries();
    let header_size = obj.dynamic_header_size();
    let hlen: usize = header_buffer.len();
    if ordered_sga.len() <= required || hlen < header_size || (hlen as u64)
        >= 0x1_0000_0000u64 {
        return Err(WireError::Capacity);
    }
    let ghost h_old = old(header_buffer)@;
    let ghost d = *datapath;
    let ghost dstart = obj.dyn_start();
    let ghost dsize = obj.dyn_size();
    let ghost pairs0 = spec_leaf_pairs(obj, 0, dstart);
    let ghost property = |pr: (Seq<u8>, int)|
        0 <= pr.1 && pr.1 + 8 <= hlen as int && pr.0.len() < 0x1_0000_0000;
    let ds = obj.dynamic_header_start();
    let mut sges: Vec<Sge<'a>> = Vec::new();
    let mut offsets: Vec<usize> = Vec::new();
    proof {
        obj.lemma_serialize_props(h_old, 0, dstart);
        assert(spec_write_end(true, 8, dstart, dsize, 0, dstart) <= hlen as int);
    }
    obj.inner_serialize(header_buffer, 0, ds, &mut sges, &mut offsets);
    let ghost h1 = obj.image(h_old, 0, dstart);
    proof {
        assert forall|i: int| 0 <= i < pairs0.len() implies crate::sga::pview(
            crate::sga::zip_eo(sges@, offsets@),
        )[i] == pairs0[i] by {
            assert(sges@[0 + i].buf@ == obj.leaves()[i]);
            assert(offsets@[0 + i] as int == obj.slots(0, dstart)[i]);
            assert(crate::sga::zip_eo(sges@, offsets@)[i] == (sges@[i], offsets@[i]));
        }
        assert(crate::sga::pview(crate::sga::zip_eo(sges@, offsets@)) =~= pairs0);
        assert(forall|i: int| 0 <= i < pairs0.len() ==> property(#[trigger] pairs0[i]));
        lemma_leaf_pairs_sum(obj.leaves(), obj.slots(0, dstart), obj.n_sge());
        assert(obj.leaves().subrange(0, obj.n_sge()) =~= obj.leaves());
        assert(crate::sga::view_sum(pairs0) == spec_sum_len(obj.leaves()));
    }
    let ghost zip0 = crate::sga::zip_eo(sges@, offsets@);
    let nc = crate::sga::reorder_entries_by_size_and_registration(datapath, &mut sges, &mut offsets);
    let ghost pairs1 = crate::sga::view_reorder1(d, pairs0);
    let ghost nc1 = crate::sga::view_reorder1_nc(d, pairs0);
    proof {
        let zcp = |pr: (Sge<'a>, usize)| crate::sga::spec_zero_copy(d, pr.0);
        let cpp = |pr: (Sge<'a>, usize)| !crate::sga::spec_zero_copy(d, pr.0);
        let vzc = |pr: (Seq<u8>, int)| crate::sga::view_zero_copy(d, pr);
        let vcp = |pr: (Seq<u8>, int)| !crate::sga::view_zero_copy(d, pr);
        crate::sga::lemma_pview_filter(d, zip0, true);
        crate::sga::lemma_pview_filter(d, zip0, false);
        assert(crate::sga::pview(zip0.filter(cpp) + zip0.filter(zcp)) =~= crate::sga::pview(
            zip0.filter(cpp),
        ) + crate::sga::pview(zip0.filter(zcp)));
        assert(crate::sga::pview(crate::sga::zip_eo(sges@, offsets@)) =~= pairs1);
        assert(nc as int == nc1);
        crate::sga::lemma_filter_property(pairs0, vcp, property);
        crate::sga::lemma_filter_property(pairs0, vzc, property);
        assert(forall|i: int| 0 <= i < pairs1.len() ==> property(#[trigger] pairs1[i])) by {
            assert(forall|i: int|
                0 <= i < pairs1.len() ==> pairs1[i] == if i < pairs0.filter(vcp).len() {
                    pairs0.filter(vcp)[i]
                } else {
                    pairs0.filter(vzc)[i - pairs0.filter(vcp).len()]
                });
        }
        crate::sga::lemma_view_sum_filter(d, pairs0);
        crate::sga::lemma_view_sum_add(pairs0.filter(vcp), pairs0.filter(vzc));
        assert(crate::sga::view_sum(pairs1) == crate::sga::view_sum(pairs0));
        crate::sga::lemma_filter_complement(pairs0, vcp, vzc);
        assert(nc1 <= pairs1.len());
    }
    let ghost zip1 = crate::sga::zip_eo(sges@, offsets@);
    let nc2 = crate::sga::reorder_entries_by_max_segs(datapath, &mut sges, &mut offsets, nc);
    let ghost pairs2 = crate::sga::view_reorder2(d, pairs1, nc1);
    let ghost nc2v = crate::sga::view_reorder2_nc(d, pairs1, nc1);
    proof {
        let tail_s = zip1.subrange(nc as int, zip1.len() as int);
        let tail_v = pairs1.subrange(nc1, pairs1.len() as int);
        assert(crate::sga::pview(tail_s) =~= tail_v);
        assert(forall|i: int| 0 <= i < tail_v.len() ==> property(#[trigger] tail_v[i]));
        if tail_s.len() <= d.max_segments_spec() {
            assert(crate::sga::zip_eo(sges@, offsets@) == zip1);
            assert(pairs2 == pairs1);
            assert(nc2 as int == nc2v);
            assert(crate::sga::pview(crate::sga::zip_eo(sges@, offsets@)) == pairs2);
            assert(crate::sga::view_sum(pairs2) == crate::sga::view_sum(pairs1));
        } else {
            let k = tail_s.len() - d.max_segments_spec();
            crate::sga::lemma_pview_selected(tail_s, k, tail_s.len() as int, true);
            crate::sga::lemma_pview_selected(tail_s, k, tail_s.len() as int, false);
            assert(crate::sga::pview(zip1.subrange(0, nc as int)) =~= pairs1.subrange(0, nc1));
            assert(crate::sga::pview(
                zip1.subrange(0, nc as int) + crate::sga::spec_selected(
                    tail_s,
                    k,
                    tail_s.len() as int,
                    true,
                ) + crate::sga::spec_selected(tail_s, k, tail_s.len() as int, false),
            ) =~= pairs1.subrange(0, nc1) + crate::sga::view_selected(
                tail_v,
                k,
                tail_v.len() as int,
                true,
            ) + crate::sga::view_selected(tail_v, k, tail_v.len() as int, false));
            assert(crate::sga::pview(crate::sga::zip_eo(sges@, offsets@)) =~= pairs2);
            assert(nc2 as int == nc2v) by {
                crate::sga::lemma_pview_selected(tail_s, k, tail_s.len() as int, true);
            }
            crate::sga::lemma_selected_property(tail_v, k, tail_v.len() as int, true, property);
            crate::sga::lemma_selected_property(tail_v, k, tail_v.len() as int, false, property);
            lemma_view_selected_len(tail_v, k, tail_v.len() as int);
            let st = crate::sga::view_selected(tail_v, k, tail_v.len() as int, true);
            let sf = crate::sga::view_selected(tail_v, k, tail_v.len() as int, false);
            assert(forall|i: int| 0 <= i < pairs2.len() ==> property(#[trigger] pairs2[i])) by {
                assert(forall|i: int|
                    0 <= i < pairs2.len() ==> pairs2[i] == if i < nc1 {
                        pairs1.subrange(0, nc1)[i]
                    } else if i < nc1 + st.len() {
                        st[i - nc1]
                    } else {
                        sf[i - nc1 - st.len()]
                    });
                assert(forall|i: int|
                    0 <= i < nc1 ==> property(#[trigger] pairs1.subrange(0, nc1)[i]));
            }
            crate::sga::lemma_view_sum_selected(tail_v, k, tail_v.len() as int);
            assert(tail_v.subrange(0, tail_v.len() as int) =~= tail_v);
            crate::sga::lemma_view_sum_add(pairs1.subrange(0, nc1), st);
            crate::sga::lemma_view_sum_add(pairs1.subrange(0, nc1) + st, sf);
            crate::sga::lemma_view_sum_add(pairs1.subrange(0, nc1), tail_v);
            assert(pairs1.subrange(0, nc1) + tail_v =~= pairs1);
            assert((pairs1.subrange(0, nc1) + st) + sf =~= pairs2);
            assert(crate::sga::view_sum(pairs2) == crate::sga::view_sum(pairs1));
        }
    }
    let n2: usize = sges.len();
    let ghost es2 = sges@;
    let ghost os2 = offsets@;
    let ghost pv = crate::sga::pview(crate::sga::zip_eo(es2, os2));
    let mut cur: usize = header_size;
    let mut i: usize = 0;
    proof {
        assert(pv =~= pairs2);
        assert(pv.skip(0) =~= pv);
        assert(pv.subrange(0, 0) =~= Seq::<(Seq<u8>, int)>::empty());
        assert(crate::sga::view_sum(Seq::<(Seq<u8>, int)>::empty()) == 0);
    }
    while i < n2
        invariant
            i <= n2,
            sges@ == es2,
            offsets@ == os2,
            n2 == es2.len(),
            n2 == os2.len(),
            pv == crate::sga::pview(crate::sga::zip_eo(es2, os2)),
            pv == pairs2,
            pv.len() == n2,
            header_buffer@.len() == hlen,
            (hlen as int) < 0x1_0000_0000,
            header_size as int == dsize,
            forall|j: int| 0 <= j < pv.len() ==> property(#[trigger] pv[j]),
            property == (|pr: (Seq<u8>, int)|
                0 <= pr.1 && pr.1 + 8 <= hlen as int && pr.0.len() < 0x1_0000_0000),
            dsize + crate::sga::view_sum(pv) < 0x1_0000_0000,
            cur as int == dsize + crate::sga::view_sum(pv.subrange(0, i as int)),
            crate::sga::view_backpatch(h1, pairs2, dsize) == crate::sga::view_backpatch(
                header_buffer@,
                pv.skip(i as int),
                cur as int,
            ),
        decreases n2 - i,
    {
        proof {
            assert(pv[i as int] == (es2[i as int].buf@, os2[i as int] as int)) by {
                assert(crate::sga::zip_eo(es2, os2)[i as int] == (es2[i as int], os2[i as int]));
            }
        }
        let slot = offsets[i];
        let e_len = sges[i].len();
        proof {
            assert(property(pv[i as int]));
            assert(pv[i as int].1 == slot as int);
            assert(pv[i as int].0 == es2[i as int].buf@);
            assert(e_len as int == pv[i as int].0.len());
            assert(pv =~= pv.subrange(0, i as int) + pv.skip(i as int));
            crate::sga::lemma_view_sum_add(pv.subrange(0, i as int), pv.skip(i as int));
            lemma_view_sum_nonneg(pv.skip(i as int));
            lemma_view_sum_nonneg(pv.subrange(0, i as int));
            assert(pv.skip(i as int) =~= seq![pv[i as int]] + pv.skip(i as int + 1));
            crate::sga::lemma_view_sum_add(seq![pv[i as int]], pv.skip(i as int + 1));
            lemma_view_sum_nonneg(pv.skip(i as int + 1));
            assert(seq![pv[i as int]].drop_last() =~= Seq::<(Seq<u8>, int)>::empty());
            assert(crate::sga::view_sum(Seq::<(Seq<u8>, int)>::empty()) == 0);
            assert(seq![pv[i as int]].last() == pv[i as int]);
            assert(crate::sga::view_sum(seq![pv[i as int]]) == pv[i as int].0.len());
            assert((cur as int) + (e_len as int) < 0x1_0000_0000);
        }
        crate::fwd::write_fwd(header_buffer, slot, e_len as u32, cur as u32);
        proof {
            let rest = pv.skip(i as int);
            assert(rest[0] == pv[i as int]);
            assert(rest.drop_first() =~= pv.skip(i as int + 1));
            assert(crate::sga::view_backpatch(
                crate::wire::splice(
                    header_buffer@,
                    pv[i as int].1,
                    crate::fwd::spec_fwd_bytes(pv[i as int].0.len() as u32, cur as u32),
                ),
                pv.skip(i as int + 1),
                cur as int + pv[i as int].0.len(),
            ) == crate::sga::view_backpatch(header_buffer@, rest, cur as int));
            assert(pv.subrange(0, i as int + 1) =~= pv.subrange(0, i as int).push(pv[i as int]));
            lemma_view_sum_push(pv.subrange(0, i as int), pv[i as int]);
        }
        cur = cur + e_len;
        i = i + 1;
    }
    proof {
        assert(pv.skip(n2 as int) =~= Seq::<(Seq<u8>, int)>::empty());
        assert(crate::sga::view_backpatch(
            header_buffer@,
            Seq::<(Seq<u8>, int)>::empty(),
            cur as int,
        ) == header_buffer@);
    }
    let completed: &'a Vec<u8> = header_buffer;
    let head = Sge::new(vstd::slice::slice_subrange(completed.as_slice(), 0, header_size));
    let mut all_entries: Vec<Sge<'a>> = Vec::new();
    all_entries.push(head);
    let mut payloads = sges;
    all_entries.append(&mut payloads);
    *ordered_sga = crate::sga::OrderedSga { entries: all_entries, num_copy_entries: nc2 + 1 };
    proof {
        assert(final(ordered_sga).entries@.subrange(
            1,
            final(ordered_sga).entries@.len() as int,
        ) =~= es2);
        assert(final(ordered_sga).entries@.subrange(
            1,
            final(ordered_sga).entries@.len() as int,
        ).map_values(|e: Sge<'a>| e.buf@) =~= pairs2.map_values(|p: (Seq<u8>, int)| p.0));
    }
    Ok(())
}


/// Deserializes a whole received buffer into `obj`: the object's header
/// starts at offset zero.  Fails exactly when `parse` does.
pub fn deserialize<'a, T: HeaderRepr<'a>>(obj: &mut T, buffer: &'a [u8]) -> (r: Result<
    (),
    WireError,
>)
    ensures
        r.is_ok() <==> T::parse(buffer@, 0).is_some(),
        r.is_ok() ==> final(obj).wf() && final(obj).deser_wf() && final(obj).abs() == T::parse(
            buffer@,
            0,
        ).unwrap(),
{
    obj.inner_deserialize(buffer, 0)
}

/// Allocates the serialization context `obj` needs: a zeroed header
/// buffer of its total header size, and an ordered scatter-gather array
/// with one slot per leaf plus the head slot.
pub fn alloc_context<'a, T: HeaderRepr<'a>>(obj: &T) -> (r: (Vec<u8>, crate::sga::OrderedSga<'a>))
    requires
        obj.wf(),
        obj.dyn_size() <= usize::MAX,
        obj.n_sge() < usize::MAX,
    ensures
        r.0@.len() == obj.dyn_size(),
        forall|i: int| 0 <= i < r.0@.len() ==> r.0@[i] == 0u8,
        r.1.entries@.len() == obj.n_sge() + 1,
        r.1.num_copy_entries == 0,
        r.1.wf(),
{
    let size = obj.dynamic_header_size();
    let n = obj.num_scatter_gather_entries();
    (crate::bitmap::new_bitmap(size), crate::sga::OrderedSga::allocate(n + 1))
}

/// Two consecutive appends to a run, seen through a projection: the
/// original prefix survives, and the appended stretch projects to the
/// concatenation of the two appended value runs.
pub proof fn lemma_appended_pair_run<A, B>(
    olds: Seq<A>,
    mids: Seq<A>,
    finals: Seq<A>,
    proj: spec_fn(A) -> B,
    lv: Seq<B>,
    rv: Seq<B>,
)
    requires
        mids.len() == olds.len() + lv.len(),
        finals.len() == mids.len() + rv.len(),
        finals.subrange(0, mids.len() as int) == mids,
        mids.subrange(0, olds.len() as int) == olds,
        forall|i: int| 0 <= i < lv.len() ==> proj(mids[olds.len() + i]) == #[trigger] lv[i],
        forall|i: int| 0 <= i < rv.len() ==> proj(finals[mids.len() + i]) == #[trigger] rv[i],
    ensures
        finals.subrange(0, olds.len() as int) == olds,
        forall|i: int|
            0 <= i < lv.len() + rv.len() ==> proj(finals[olds.len() + i]) == #[trigger] (lv + rv)[
            i],
{
    assert(forall|k: int|
        0 <= k < mids.len() ==> #[trigger] finals[k] == mids[k]) by {
        assert(forall|k: int|
            0 <= k < mids.len() ==> #[trigger] finals.subrange(0, mids.len() as int)[k]
                == finals[k]);
    }
    assert(forall|k: int|
        0 <= k < olds.len() ==> #[trigger] mids[k] == olds[k]) by {
        assert(forall|k: int|
            0 <= k < olds.len() ==> #[trigger] mids.subrange(0, olds.len() as int)[k] == mids[k]);
    }
    assert(finals.subrange(0, olds.len() as int) =~= olds);
    assert forall|i: int| 0 <= i < lv.len() + rv.len() implies proj(finals[olds.len() + i]) == (
    lv + rv)[i] by {
        if i < lv.len() {
            assert(finals[olds.len() + i] == mids[olds.len() + i]);
        } else {
            assert(proj(finals[mids.len() + (i - lv.len())]) == rv[i - lv.len()]);
        }
    }
}

} // verus!
