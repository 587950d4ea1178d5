//! Variable-length lists of nested serializable objects.
//!
//! A `VariableList<T>` owns up to `num_space` elements, each itself a
//! header representation.  On the wire the list keeps one forward pointer
//! in its parent slot (element count, offset of its slot table); the slot
//! table holds one eight-byte slot per populated element, and the
//! elements' own out-of-line data follows the table back-to-back.
//! Contiguous elements (nested messages) are reached from their table
//! slot through a forward pointer; leaf elements use the table slot
//! itself.

use crate::fwd::{read_fwd_offset, read_fwd_size, spec_fwd_bytes, spec_fwd_offset, spec_fwd_size, write_fwd};
use crate::hdr::{
    inner_deserialize_with_ref, inner_serialize_with_ref, spec_parse_with_ref, HeaderRepr,
};
use crate::sga::Sge;
use crate::wire::splice;
use crate::WireError;
use vstd::bytes::spec_u32_to_le_bytes;
use vstd::prelude::*;

verus! {

/// Remaining serialized footprint of elements `i..`: eight table bytes
/// plus the element's own dynamic bytes for each.
pub open spec fn vl_dyn_size<'a, T: HeaderRepr<'a>>(elts: Seq<T>, i: int) -> int
    decreases elts.len() - i,
{
    if i < 0 || i >= elts.len() {
        0
    } else {
        8 + elts[i].dyn_size() + vl_dyn_size(elts, i + 1)
    }
}

/// Remaining scatter-gather entries of elements `i..`.
pub open spec fn vl_n_sge<'a, T: HeaderRepr<'a>>(elts: Seq<T>, i: int) -> int
    decreases elts.len() - i,
{
    if i < 0 || i >= elts.len() {
        0
    } else {
        elts[i].n_sge() + vl_n_sge(elts, i + 1)
    }
}

/// Leaves of elements `i..`, in traversal order.
pub open spec fn vl_leaves<'a, T: HeaderRepr<'a>>(elts: Seq<T>, i: int) -> Seq<Seq<u8>>
    decreases elts.len() - i,
{
    if i < 0 || i >= elts.len() {
        Seq::empty()
    } else {
        elts[i].leaves() + vl_leaves(elts, i + 1)
    }
}

/// Back-patch slots of elements `i..`, with the slot table at `table` and
/// element `i`'s dynamic data at `cur`.
pub open spec fn vl_slots<'a, T: HeaderRepr<'a>>(
    elts: Seq<T>,
    i: int,
    table: int,
    cur: int,
) -> Seq<int>
    decreases elts.len() - i,
{
    if i < 0 || i >= elts.len() {
        Seq::empty()
    } else {
        let own = if T::contiguous() {
            elts[i].slots(cur, cur + elts[i].dyn_start())
        } else {
            elts[i].slots(table + i * 8, cur)
        };
        own + vl_slots(elts, i + 1, table, cur + elts[i].dyn_size())
    }
}

/// The header bytes after elements `i..` serialize, starting from `h`,
/// with the slot table at `table` and element `i`'s dynamic data at
/// `cur`.
pub open spec fn vl_image<'a, T: HeaderRepr<'a>>(
    elts: Seq<T>,
    i: int,
    h: Seq<u8>,
    table: int,
    cur: int,
) -> Seq<u8>
    decreases elts.len() - i,
{
    if i < 0 || i >= elts.len() {
        h
    } else {
        let h1 = if T::contiguous() {
            elts[i].image(
                splice(h, table + i * 8 + 4, spec_u32_to_le_bytes(cur as u32)),
                cur,
                cur + elts[i].dyn_start(),
            )
        } else {
            elts[i].image(h, table + i * 8, cur)
        };
        vl_image(elts, i + 1, h1, table, cur + elts[i].dyn_size())
    }
}

/// The abstract values of elements `0..n` read from the slot table at
/// `table`; `None` as soon as one element fails.
pub open spec fn vl_parse_elems<'a, T: HeaderRepr<'a>>(
    buffer: Seq<u8>,
    table: int,
    n: int,
) -> Option<Seq<T::Abs>>
    decreases n,
{
    if n <= 0 {
        Some(Seq::empty())
    } else {
        match vl_parse_elems::<T>(buffer, table, n - 1) {
            None => None,
            Some(s) => match spec_parse_with_ref::<T>(
                buffer,
                table + (n - 1) * 8,
                T::contiguous(),
            ) {
                None => None,
                Some(a) => Some(s.push(a)),
            },
        }
    }
}

/// An ordered sequence of up to `num_space` nested objects.
pub struct VariableList<'a, T: HeaderRepr<'a> + Default> {
    /// Capacity declared at `init`; `append` past it is a programmer
    /// error.
    pub num_space: usize,
    /// The populated elements, in order.
    pub elts: Vec<T>,
    /// Ties the list to the buffer lifetime its elements borrow from.
    pub _marker: core::marker::PhantomData<&'a [u8]>,
}

impl<'a, T: HeaderRepr<'a> + Default> VariableList<'a, T> {
    /// The populated elements.
    pub open spec fn elts_view(&self) -> Seq<T> {
        self.elts@
    }

    /// Declared capacity.
    pub open spec fn num_space_view(&self) -> int {
        self.num_space as int
    }

    /// A list with room for `num` elements and none populated.
    pub fn init(num: usize) -> (r: Self)
        ensures
            r.elts_view().len() == 0,
            r.num_space_view() == num,
            r.wf(),
    {
        VariableList {
            num_space: num,
            elts: Vec::with_capacity(num),
            _marker: core::marker::PhantomData,
        }
    }

    /// Appends one element.  Appending past the declared capacity is a
    /// programmer error and is excluded by contract.
    pub fn append(&mut self, val: T)
        requires
            old(self).wf(),
            val.wf(),
            old(self).elts_view().len() < old(self).num_space_view(),
        ensures
            final(self).elts_view() == old(self).elts_view().push(val),
            final(self).num_space_view() == old(self).num_space_view(),
            final(self).wf(),
            final(self).abs() == old(self).abs().push(val.abs()),
    {
        self.elts.push(val);
        proof {
            assert(final(self).abs() =~= old(self).abs().push(val.abs()));
        }
    }

    /// Replaces the element at `idx`.
    pub fn replace(&mut self, idx: usize, val: T)
        requires
            old(self).wf(),
            val.wf(),
            idx < old(self).elts_view().len(),
        ensures
            final(self).elts_view() == old(self).elts_view().update(idx as int, val),
            final(self).num_space_view() == old(self).num_space_view(),
            final(self).wf(),
            final(self).abs() == old(self).abs().update(idx as int, val.abs()),
    {
        self.elts[idx] = val;
        proof {
            assert(final(self).abs() =~= old(self).abs().update(idx as int, val.abs()));
        }
    }

    /// Number of populated elements.
    pub fn len(&self) -> (r: usize)
        ensures
            r == self.elts_view().len(),
    {
        self.elts.len()
    }

    /// The element at `idx`.
    pub fn index(&self, idx: usize) -> (r: &T)
        requires
            idx < self.elts_view().len(),
        ensures
            *r == self.elts_view()[idx as int],
    {
        &self.elts[idx]
    }
}

impl<'a, T: HeaderRepr<'a> + Default> Default for VariableList<'a, T> {
    /// The empty list with no capacity.
    fn default() -> (r: Self)
        ensures
            r.elts_view().len() == 0,
            r.num_space_view() == 0,
            r.wf(),
    {
        VariableList { num_space: 0, elts: Vec::new(), _marker: core::marker::PhantomData }
    }
}

/// Splitting the remaining footprint at any element.
proof fn lemma_vl_dyn_split<'a, T: HeaderRepr<'a>>(elts: Seq<T>, i: int, j: int)
    requires
        0 <= i <= j <= elts.len(),
    ensures
        vl_dyn_size(elts, i) == vl_dyn_size(elts, j) + vl_dyn_partial(elts, i, j),
    decreases j - i,
{
    if i < j {
        lemma_vl_dyn_split(elts, i + 1, j);
    }
}

/// Footprint of elements `i..j`.
pub open spec fn vl_dyn_partial<'a, T: HeaderRepr<'a>>(elts: Seq<T>, i: int, j: int) -> int
    decreases j - i,
{
    if i >= j {
        0
    } else {
        8 + elts[i].dyn_size() + vl_dyn_partial(elts, i + 1, j)
    }
}

/// Every element's footprint and entry count is nonnegative, so partial
/// footprints never exceed the whole.
proof fn lemma_vl_dyn_nonneg<'a, T: HeaderRepr<'a>>(elts: Seq<T>, i: int)
    requires
        forall|k: int| 0 <= k < elts.len() ==> (#[trigger] elts[k]).wf(),
    ensures
        vl_dyn_size(elts, i) >= 0,
        vl_n_sge(elts, i) >= 0,
        i >= 0 ==> vl_dyn_size(elts, i) >= 8 * (elts.len() - i) || i >= elts.len(),
    decreases elts.len() - i,
{
    if 0 <= i && i < elts.len() {
        elts[i].lemma_basic_facts();
        lemma_vl_dyn_nonneg(elts, i + 1);
    } else if i < 0 {
    } else {
    }
}

impl<'a, T: HeaderRepr<'a> + Default> HeaderRepr<'a> for VariableList<'a, T> {
    type Abs = Seq<T::Abs>;

    open spec fn abs(&self) -> Seq<T::Abs> {
        self.elts@.map_values(|e: T| e.abs())
    }

    open spec fn wf(&self) -> bool {
        &&& self.elts@.len() <= self.num_space
        &&& forall|k: int| 0 <= k < self.elts@.len() ==> (#[trigger] self.elts@[k]).wf()
    }

    open spec fn const_hdr_size() -> int {
        8
    }

    open spec fn contiguous() -> bool {
        false
    }

    open spec fn is_list_type() -> bool {
        true
    }

    open spec fn dyn_size(&self) -> int {
        vl_dyn_size(self.elts@, 0)
    }

    open spec fn dyn_start(&self) -> int {
        8 * (self.elts@.len() as int)
    }

    open spec fn n_sge(&self) -> int {
        vl_n_sge(self.elts@, 0)
    }

    open spec fn leaves(&self) -> Seq<Seq<u8>> {
        vl_leaves(self.elts@, 0)
    }

    open spec fn slots(&self, c_off: int, d: int) -> Seq<int> {
        vl_slots(self.elts@, 0, d, d + 8 * self.elts@.len())
    }

    open spec fn image(&self, prior: Seq<u8>, c_off: int, d: int) -> Seq<u8> {
        vl_image(
            self.elts@,
            0,
            splice(
                prior,
                c_off,
                spec_fwd_bytes(self.elts@.len() as u32, d as u32),
            ),
            d,
            d + 8 * self.elts@.len(),
        )
    }

    open spec fn parse(buffer: Seq<u8>, header_offset: int) -> Option<Seq<T::Abs>> {
        if 0 <= header_offset && header_offset + 8 <= buffer.len() {
            let n = spec_fwd_size(buffer, header_offset) as int;
            let table = spec_fwd_offset(buffer, header_offset) as int;
            vl_parse_elems::<T>(buffer, table, n)
        } else {
            None
        }
    }

    open spec fn deser_wf(&self) -> bool {
        self.elts@.len() == self.num_space
    }

    proof fn lemma_basic_facts(&self) {
        lemma_vl_dyn_nonneg(self.elts@, 0);
        lemma_vl_basic(self.elts@, 0);
    }

    proof fn lemma_parse_bounds(buffer: Seq<u8>, header_offset: int) {
    }

    proof fn lemma_serialize_props(&self, prior: Seq<u8>, c_off: int, d: int) {
        lemma_vl_dyn_nonneg(self.elts@, 0);
        lemma_vl_basic(self.elts@, 0);
        vstd::bytes::lemma_auto_spec_u32_to_from_le_bytes();
        let fwd = spec_fwd_bytes(self.elts@.len() as u32, d as u32);
        assert(fwd.len() == 8);
        crate::wire::lemma_splice(prior, c_off, fwd);
        let h0 = splice(prior, c_off, fwd);
        let len = self.elts@.len() as int;
        lemma_vl_image_props(self.elts@, 0, h0, d, d + 8 * len, prior.len() as int);
        lemma_vl_slot_props(self.elts@, 0, d, d + 8 * len, prior.len() as int);
        assert(d + 8 * len + vl_dyn_size(self.elts@, 0) - 8 * len == d + self.dyn_size());
    }

    fn constant_header_size() -> (r: usize) {
        8
    }

    fn is_contiguous() -> (r: bool) {
        false
    }

    fn is_list(&self) -> (r: bool) {
        true
    }

    fn dynamic_header_size(&self) -> (r: usize) {
        let n: usize = self.elts.len();
        let mut total: usize = 0;
        let mut i: usize = 0;
        proof {
            lemma_vl_dyn_nonneg(self.elts@, 0);
            lemma_vl_dyn_split(self.elts@, 0, 0);
        }
        while i < n
            invariant
                i <= n,
                n == self.elts@.len(),
                self.wf(),
                self.dyn_size() <= usize::MAX,
                total as int == vl_dyn_partial(self.elts@, 0, i as int),
                vl_dyn_size(self.elts@, 0) == vl_dyn_partial(self.elts@, 0, i as int)
                    + vl_dyn_size(self.elts@, i as int),
            decreases n - i,
        {
            proof {
                assert(self.elts@[i as int].wf());
                self.elts@[i as int].lemma_basic_facts();
                lemma_vl_dyn_nonneg(self.elts@, i + 1);
                lemma_vl_dyn_partial_step(self.elts@, 0, i as int);
            }
            let e_dyn = self.elts[i].dynamic_header_size();
            total = total + 8 + e_dyn;
            i = i + 1;
        }
        proof {
            assert(vl_dyn_size(self.elts@, n as int) == 0);
        }
        total
    }

    fn dynamic_header_start(&self) -> (r: usize) {
        proof {
            lemma_vl_dyn_nonneg(self.elts@, 0);
        }
        8 * self.elts.len()
    }

    fn num_scatter_gather_entries(&self) -> (r: usize) {
        let n: usize = self.elts.len();
        let mut total: usize = 0;
        let mut i: usize = 0;
        proof {
            lemma_vl_nsge_nonneg(self.elts@, 0);
        }
        while i < n
            invariant
                i <= n,
                n == self.elts@.len(),
                self.wf(),
                self.n_sge() <= usize::MAX,
                total as int == vl_n_sge(self.elts@, 0) - vl_n_sge(self.elts@, i as int),
                vl_n_sge(self.elts@, i as int) >= 0,
                total as int <= vl_n_sge(self.elts@, 0),
            decreases n - i,
        {
            proof {
                assert(self.elts@[i as int].wf());
                self.elts@[i as int].lemma_basic_facts();
                lemma_vl_nsge_nonneg(self.elts@, i + 1);
            }
            let e_n = self.elts[i].num_scatter_gather_entries();
            total = total + e_n;
            i = i + 1;
        }
        total
    }

    fn inner_serialize(
        &self,
        header: &mut Vec<u8>,
        constant_header_offset: usize,
        dynamic_header_start: usize,
        sges: &mut Vec<Sge<'a>>,
        offsets: &mut Vec<usize>,
    ) {
        let ghost elts = self.elts@;
        let ghost h_initial = old(header)@;
        let ghost old_sges = old(sges)@;
        let ghost old_offsets = old(offsets)@;
        let n: usize = self.elts.len();
        proof {
            lemma_vl_dyn_nonneg(elts, 0);
            lemma_vl_basic(elts, 0);
            assert(8 * (n as int) <= vl_dyn_size(elts, 0) || n == 0);
            assert((n as int) < 0x1_0000_0000);
            assert((dynamic_header_start as int) < 0x1_0000_0000);
        }
        write_fwd(header, constant_header_offset, n as u32, dynamic_header_start as u32);
        let hlen: usize = header.len();
        let ghost h0 = header@;
        let ghost table = dynamic_header_start as int;
        let mut slot: usize = dynamic_header_start;
        let mut cur: usize = dynamic_header_start + 8 * n;
        let mut i: usize = 0;
        proof {
            lemma_vl_dyn_split(elts, 0, 0);
        }
        while i < n
            invariant
                i <= n,
                n == elts.len(),
                self.wf(),
                elts == self.elts@,
                hlen == header@.len(),
                hlen == h_initial.len(),
                hlen < 0x1_0000_0000,
                table == dynamic_header_start as int,
                table >= 0,
                table + vl_dyn_size(elts, 0) <= hlen,
                slot as int == table + 8 * i,
                cur as int == table + 8 * n + vl_dyn_partial(elts, 0, i as int) - 8 * i,
                vl_dyn_size(elts, 0) == vl_dyn_partial(elts, 0, i as int) + vl_dyn_size(
                    elts,
                    i as int,
                ),
                vl_image(elts, 0, h0, table, table + 8 * n) == vl_image(
                    elts,
                    i as int,
                    header@,
                    table,
                    cur as int,
                ),
                sges@.len() == old_sges.len() + (vl_n_sge(elts, 0) - vl_n_sge(elts, i as int)),
                old_sges.len() <= sges@.len(),
                offsets@.len() == sges@.len(),
                old_sges.len() == old_offsets.len(),
                sges@.subrange(0, old_sges.len() as int) == old_sges,
                offsets@.subrange(0, old_offsets.len() as int) == old_offsets,
                vl_n_sge(elts, i as int) >= 0,
                vl_leaves(elts, 0) == sges@.subrange(old_sges.len() as int, sges@.len() as int)
                    .map_values(|e: Sge<'a>| e.buf@) + vl_leaves(elts, i as int),
                vl_slots(elts, 0, table, table + 8 * n) == offsets@.subrange(
                    old_offsets.len() as int,
                    offsets@.len() as int,
                ).map_values(|o: usize| o as int) + vl_slots(elts, i as int, table, cur as int),
            decreases n - i,
        {
            let ghost sges_pre = sges@;
            let ghost offsets_pre = offsets@;
            proof {
                assert(elts[i as int].wf());
                elts[i as int].lemma_basic_facts();
                lemma_vl_dyn_nonneg(elts, i + 1);
                lemma_vl_dyn_partial_step(elts, 0, i as int);
                lemma_vl_dyn_nonneg(elts, i as int);
                assert(vl_dyn_size(elts, i as int) == 8 + elts[i as int].dyn_size() + vl_dyn_size(
                    elts,
                    i + 1,
                ));
                assert(vl_dyn_size(elts, i + 1) >= 8 * (n - i - 1));
                assert(cur as int + elts[i as int].dyn_size() <= hlen);
                assert(slot as int + 8 <= table + 8 * n);
                lemma_vl_dyn_partial_nonneg(elts, 0, i as int);
                assert(table + 8 * n <= cur as int);
                assert(elts[i as int].dyn_size() <= usize::MAX as int);
            }
            let e = &self.elts[i];
            inner_serialize_with_ref(e, header, slot, cur, sges, offsets, T::is_contiguous());
            proof {
                lemma_vl_nsge_nonneg(elts, i + 1);
                let en = elts[i as int].n_sge();
                elts[i as int].lemma_basic_facts();
                let ol = old_sges.len() as int;
                let pl = sges_pre.len() as int;
                let pre_cnt = pl - ol;
                assert(forall|k: int|
                    0 <= k < pl ==> sges@[k] == #[trigger] sges_pre[k]) by {
                    assert(forall|k: int|
                        0 <= k < pl ==> #[trigger] sges@.subrange(0, pl)[k] == sges@[k]);
                }
                assert(forall|k: int|
                    0 <= k < pl ==> offsets@[k] == #[trigger] offsets_pre[k]) by {
                    assert(forall|k: int|
                        0 <= k < pl ==> #[trigger] offsets@.subrange(0, pl)[k] == offsets@[k]);
                }
                assert(forall|k: int|
                    0 <= k < ol ==> sges_pre[k] == #[trigger] old_sges[k]) by {
                    assert(forall|k: int|
                        0 <= k < ol ==> #[trigger] sges_pre.subrange(0, ol)[k] == sges_pre[k]);
                }
                assert(forall|k: int|
                    0 <= k < ol ==> offsets_pre[k] == #[trigger] old_offsets[k]) by {
                    assert(forall|k: int|
                        0 <= k < ol ==> #[trigger] offsets_pre.subrange(0, ol)[k]
                            == offsets_pre[k]);
                }
                assert(sges@.subrange(0, ol) =~= old_sges);
                assert(offsets@.subrange(0, ol) =~= old_offsets);
                let got = sges@.subrange(ol, sges@.len() as int).map_values(|x: Sge<'a>| x.buf@);
                let pre_got = sges_pre.subrange(ol, pl).map_values(|x: Sge<'a>| x.buf@);
                let elt_leaves = elts[i as int].leaves();
                assert(got.len() == pre_cnt + en);
                assert forall|j: int| 0 <= j < got.len() implies got[j] == (pre_got
                    + elt_leaves)[j] by {
                    if j < pre_cnt {
                        assert(got[j] == sges@[ol + j].buf@);
                        assert(sges@[ol + j] == sges_pre[ol + j]);
                    } else {
                        assert(got[j] == sges@[ol + j].buf@);
                        assert(ol + j == pl + (j - pre_cnt));
                        assert(sges@[pl + (j - pre_cnt)].buf@ == elt_leaves[j - pre_cnt]);
                    }
                }
                assert(got =~= pre_got + elt_leaves);
                assert(vl_leaves(elts, i as int) == elt_leaves + vl_leaves(elts, i + 1));
                assert(pre_got + vl_leaves(elts, i as int) =~= got + vl_leaves(elts, i + 1));
                let got_o = offsets@.subrange(ol, offsets@.len() as int).map_values(
                    |o: usize| o as int,
                );
                let pre_got_o = offsets_pre.subrange(ol, pl).map_values(|o: usize| o as int);
                let own = if T::contiguous() {
                    elts[i as int].slots(cur as int, cur as int + elts[i as int].dyn_start())
                } else {
                    elts[i as int].slots(table + i * 8, cur as int)
                };
                assert(header@.len() == hlen);
                assert(table + i * 8 == slot as int);
                elts[i as int].lemma_serialize_props(
                    header@,
                    if T::contiguous() {
                        cur as int
                    } else {
                        table + i * 8
                    },
                    if T::contiguous() {
                        cur as int + elts[i as int].dyn_start()
                    } else {
                        cur as int
                    },
                );
                assert(own.len() == en);
                assert(got_o.len() == pre_cnt + en);
                assert forall|j: int| 0 <= j < got_o.len() implies got_o[j] == (pre_got_o
                    + own)[j] by {
                    if j < pre_cnt {
                        assert(got_o[j] == offsets@[ol + j] as int);
                        assert(offsets@[ol + j] == offsets_pre[ol + j]);
                    } else {
                        assert(got_o[j] == offsets@[ol + j] as int);
                        assert(ol + j == pl + (j - pre_cnt));
                        assert(offsets@[pl + (j - pre_cnt)] as int == own[j - pre_cnt]);
                    }
                }
                assert(got_o =~= pre_got_o + own);
                assert(vl_slots(elts, i as int, table, cur as int) == own + vl_slots(
                    elts,
                    i + 1,
                    table,
                    cur as int + elts[i as int].dyn_size(),
                ));
                assert(pre_got_o + vl_slots(elts, i as int, table, cur as int) =~= got_o
                    + vl_slots(elts, i + 1, table, cur as int + elts[i as int].dyn_size()));
            }
            proof {
                assert(slot as int + 8 <= cur as int);
                assert(cur as int + elts[i as int].dyn_size() <= hlen);
            }
            slot = slot + 8;
            let e_dyn = self.elts[i].dynamic_header_size();
            cur = cur + e_dyn;
            i = i + 1;
        }
        proof {
            assert(vl_dyn_size(elts, n as int) == 0);
            assert(vl_n_sge(elts, n as int) == 0);
            assert(vl_leaves(elts, n as int) =~= Seq::<Seq<u8>>::empty());
            assert(vl_image(elts, n as int, header@, table, cur as int) == header@);
            assert(vl_slots(elts, n as int, table, cur as int) =~= Seq::<int>::empty());
            let got = sges@.subrange(old_sges.len() as int, sges@.len() as int).map_values(
                |x: Sge<'a>| x.buf@,
            );
            assert(vl_leaves(elts, 0) =~= got);
            let got_o = offsets@.subrange(old_offsets.len() as int, offsets@.len() as int)
                .map_values(|o: usize| o as int);
            assert(vl_slots(elts, 0, table, table + 8 * n) =~= got_o);
            assert(forall|j: int|
                0 <= j < self.n_sge() ==> (#[trigger] sges@[old_sges.len() + j]).buf@ == got[j]);
            assert(forall|j: int|
                0 <= j < self.n_sge() ==> (#[trigger] offsets@[old_offsets.len() + j]) as int
                    == got_o[j]);
        }
    }

    fn inner_deserialize(&mut self, buffer: &'a [u8], header_offset: usize) -> (r: Result<
        (),
        WireError,
    >) {
        if buffer.len() < 8 || header_offset > buffer.len() - 8 {
            return Err(WireError::Malformed);
        }
        let blen: usize = buffer.len();
        let n = read_fwd_size(buffer, header_offset) as usize;
        let table = read_fwd_offset(buffer, header_offset) as usize;
        let ghost gtable = table as int;
        let mut elts: Vec<T> = Vec::new();
        let mut i: usize = 0;
        let mut slot: usize = table;
        proof {
            assert(elts@.map_values(|e: T| e.abs()) =~= Seq::<T::Abs>::empty());
        }
        while i < n
            invariant
                i <= n,
                slot as int == gtable + 8 * i,
                gtable == table as int,
                blen == buffer@.len(),
                gtable == spec_fwd_offset(buffer@, header_offset as int) as int,
                n as int == spec_fwd_size(buffer@, header_offset as int) as int,
                header_offset + 8 <= blen,
                elts@.len() == i,
                forall|k: int| 0 <= k < i ==> (#[trigger] elts@[k]).wf(),
                vl_parse_elems::<T>(buffer@, gtable, i as int) == Some(
                    elts@.map_values(|e: T| e.abs()),
                ),
            decreases n - i,
        {
            let mut e = T::default();
            let ghost pre_abs = elts@.map_values(|x: T| x.abs());
            match inner_deserialize_with_ref(&mut e, buffer, slot, T::is_contiguous()) {
                Ok(()) => {
                    elts.push(e);
                    proof {
                        assert(elts@.map_values(|x: T| x.abs()) =~= pre_abs.push(e.abs()));
                        if T::contiguous() {
                            assert(spec_parse_with_ref::<T>(buffer@, slot as int, true).is_some());
                        } else {
                            T::lemma_parse_bounds(buffer@, slot as int);
                        }
                        assert(slot as int + 8 <= blen as int);
                    }
                },
                Err(e2) => {
                    proof {
                        assert(spec_parse_with_ref::<T>(
                            buffer@,
                            gtable + (i as int) * 8,
                            T::contiguous(),
                        ).is_none());
                        lemma_vl_parse_fail::<T>(buffer@, gtable, i as int, n as int);
                        assert(vl_parse_elems::<T>(buffer@, gtable, n as int).is_none());
                        assert(Self::parse(buffer@, header_offset as int).is_none());
                    }
                    return Err(e2);
                },
            }
            slot = slot + 8;
            i = i + 1;
        }
        self.num_space = n;
        self.elts = elts;
        Ok(())
    }
}

/// If element `i` fails to parse while the first `i` succeed, the whole
/// list fails.
proof fn lemma_vl_parse_fail<'a, T: HeaderRepr<'a>>(buffer: Seq<u8>, table: int, i: int, n: int)
    requires
        0 <= i < n,
        vl_parse_elems::<T>(buffer, table, i).is_some(),
        spec_parse_with_ref::<T>(buffer, table + i * 8, T::contiguous()).is_none(),
    ensures
        vl_parse_elems::<T>(buffer, table, n).is_none(),
    decreases n - i,
{
    if n == i + 1 {
    } else {
        lemma_vl_parse_fail::<T>(buffer, table, i, n - 1);
    }
}

/// Nonnegative entry counts for any suffix of well-formed elements.
proof fn lemma_vl_nsge_nonneg<'a, T: HeaderRepr<'a>>(elts: Seq<T>, i: int)
    requires
        forall|k: int| 0 <= k < elts.len() ==> (#[trigger] elts[k]).wf(),
    ensures
        vl_n_sge(elts, i) >= 0,
    decreases elts.len() - i,
{
    if 0 <= i && i < elts.len() {
        elts[i].lemma_basic_facts();
        lemma_vl_nsge_nonneg(elts, i + 1);
    }
}

/// Prefix footprints of well-formed elements cover at least their table
/// slots.
proof fn lemma_vl_dyn_partial_nonneg<'a, T: HeaderRepr<'a>>(elts: Seq<T>, lo: int, i: int)
    requires
        forall|k: int| 0 <= k < elts.len() ==> (#[trigger] elts[k]).wf(),
        0 <= lo <= i <= elts.len(),
    ensures
        vl_dyn_partial(elts, lo, i) >= 8 * (i - lo),
    decreases i - lo,
{
    if lo < i {
        elts[lo].lemma_basic_facts();
        lemma_vl_dyn_partial_nonneg(elts, lo + 1, i);
    }
}

/// One step of the prefix footprint.
proof fn lemma_vl_dyn_partial_step<'a, T: HeaderRepr<'a>>(elts: Seq<T>, lo: int, i: int)
    requires
        0 <= lo <= i < elts.len(),
    ensures
        vl_dyn_partial(elts, lo, i + 1) == vl_dyn_partial(elts, lo, i) + 8 + elts[i].dyn_size(),
    decreases i - lo,
{
    if lo < i {
        lemma_vl_dyn_partial_step(elts, lo + 1, i);
    } else {
        assert(vl_dyn_partial(elts, i, i) == 0);
        assert(vl_dyn_partial(elts, i + 1, i + 1) == 0);
        assert(vl_dyn_partial(elts, i, i + 1) == 8 + elts[i].dyn_size() + vl_dyn_partial(
            elts,
            i + 1,
            i + 1,
        ));
    }
}

/// Leaf counts and lengths for any suffix of well-formed elements.
proof fn lemma_vl_basic<'a, T: HeaderRepr<'a>>(elts: Seq<T>, i: int)
    requires
        forall|k: int| 0 <= k < elts.len() ==> (#[trigger] elts[k]).wf(),
    ensures
        vl_leaves(elts, i).len() == vl_n_sge(elts, i),
        vl_n_sge(elts, i) >= 0,
        forall|j: int|
            0 <= j < vl_leaves(elts, i).len() ==> (#[trigger] vl_leaves(elts, i)[j]).len()
                < 0x1_0000_0000,
    decreases elts.len() - i,
{
    if 0 <= i && i < elts.len() {
        elts[i].lemma_basic_facts();
        lemma_vl_basic(elts, i + 1);
        assert(vl_leaves(elts, i) == elts[i].leaves() + vl_leaves(elts, i + 1));
    }
}

/// Serializing elements `i..` preserves the header length and changes
/// nothing outside the rest of the slot table and the rest of the dynamic
/// region.
proof fn lemma_vl_image_props<'a, T: HeaderRepr<'a>>(
    elts: Seq<T>,
    i: int,
    h: Seq<u8>,
    table: int,
    cur: int,
    hlen: int,
)
    requires
        forall|k: int| 0 <= k < elts.len() ==> (#[trigger] elts[k]).wf(),
        h.len() == hlen,
        hlen < 0x1_0000_0000,
        0 <= i <= elts.len(),
        0 <= table,
        table + 8 * elts.len() <= cur,
        cur + vl_dyn_size(elts, i) - 8 * (elts.len() - i) <= hlen,
        cur <= hlen,
    ensures
        vl_image(elts, i, h, table, cur).len() == hlen,
        forall|k: int|
            0 <= k < hlen && !(table + 8 * i <= k < table + 8 * elts.len()) && !(cur <= k < cur
                + vl_dyn_size(elts, i) - 8 * (elts.len() - i)) ==> (#[trigger] vl_image(
                elts,
                i,
                h,
                table,
                cur,
            )[k]) == h[k],
    decreases elts.len() - i,
{
    if 0 <= i && i < elts.len() {
        elts[i].lemma_basic_facts();
        lemma_vl_dyn_nonneg(elts, i + 1);
        assert(vl_dyn_size(elts, i + 1) >= 8 * (elts.len() - i - 1));
        vstd::bytes::lemma_auto_spec_u32_to_from_le_bytes();
        let h1 = if T::contiguous() {
            elts[i].image(
                splice(h, table + i * 8 + 4, spec_u32_to_le_bytes(cur as u32)),
                cur,
                cur + elts[i].dyn_start(),
            )
        } else {
            elts[i].image(h, table + i * 8, cur)
        };
        if T::contiguous() {
            let hs = splice(h, table + i * 8 + 4, spec_u32_to_le_bytes(cur as u32));
            crate::wire::lemma_splice(h, table + i * 8 + 4, spec_u32_to_le_bytes(cur as u32));
            elts[i].lemma_serialize_props(hs, cur, cur + elts[i].dyn_start());
        } else {
            elts[i].lemma_serialize_props(h, table + i * 8, cur);
        }
        assert(h1.len() == hlen);
        lemma_vl_image_props(elts, i + 1, h1, table, cur + elts[i].dyn_size(), hlen);
    }
}

/// Every recorded slot lies inside the buffer region the list occupies.
proof fn lemma_vl_slot_props<'a, T: HeaderRepr<'a>>(
    elts: Seq<T>,
    i: int,
    table: int,
    cur: int,
    hlen: int,
)
    requires
        forall|k: int| 0 <= k < elts.len() ==> (#[trigger] elts[k]).wf(),
        hlen < 0x1_0000_0000,
        0 <= i <= elts.len(),
        0 <= table,
        table + 8 * elts.len() <= cur,
        cur + vl_dyn_size(elts, i) - 8 * (elts.len() - i) <= hlen,
        cur <= hlen,
    ensures
        vl_slots(elts, i, table, cur).len() == vl_n_sge(elts, i),
        forall|j: int|
            0 <= j < vl_slots(elts, i, table, cur).len() ==> table <= (#[trigger] vl_slots(
                elts,
                i,
                table,
                cur,
            )[j]) && vl_slots(elts, i, table, cur)[j] + 8 <= cur + vl_dyn_size(elts, i) - 8 * (
            elts.len() - i),
    decreases elts.len() - i,
{
    if 0 <= i && i < elts.len() {
        elts[i].lemma_basic_facts();
        lemma_vl_dyn_nonneg(elts, i + 1);
        assert(vl_dyn_size(elts, i + 1) >= 8 * (elts.len() - i - 1));
        assert(cur + elts[i].dyn_size() <= hlen);
        let own = if T::contiguous() {
            elts[i].slots(cur, cur + elts[i].dyn_start())
        } else {
            elts[i].slots(table + i * 8, cur)
        };
        let ghost_prior = Seq::<u8>::new(hlen as nat, |k: int| 0u8);
        if T::contiguous() {
            elts[i].lemma_serialize_props(ghost_prior, cur, cur + elts[i].dyn_start());
        } else {
            elts[i].lemma_serialize_props(ghost_prior, table + i * 8, cur);
        }
        let end = cur + vl_dyn_size(elts, i) - 8 * (elts.len() - i);
        assert(cur + elts[i].dyn_size() <= end);
        assert(table + i * 8 + 8 <= table + 8 * elts.len());
        assert(forall|j: int|
            0 <= j < own.len() ==> table <= (#[trigger] own[j]) && own[j] + 8 <= end);
        lemma_vl_slot_props(elts, i + 1, table, cur + elts[i].dyn_size(), hlen);
        assert(cur + elts[i].dyn_size() + vl_dyn_size(elts, i + 1) - 8 * (elts.len() - i - 1)
            == end);
    }
}

} // verus!
