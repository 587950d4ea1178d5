//! Memory-pool sizing rules: how a requested element size and count are
//! rounded into whole registered pages.

use crate::util::{align_up, spec_align_up};
use crate::WireError;
use vstd::prelude::*;

verus! {

/// A 4 KiB page.
pub const PGSIZE_4KB: usize = 4096;

/// A 2 MiB page.
pub const PGSIZE_2MB: usize = 2097152;

/// A 1 GiB page.
pub const PGSIZE_1GB: usize = 1073741824;

/// How a memory pool is carved out of registered pages: fixed-size items
/// packed into data pages, registered with the NIC in equal units.
#[derive(Debug, Clone, PartialEq, Eq, Structural)]
pub struct MempoolAllocationParams {
    /// Size of one allocatable item.
    pub item_len: usize,
    /// Size of one backing data page.
    pub data_pgsize: usize,
    /// Total number of items the pool holds.
    pub num_items: usize,
    /// Number of backing data pages.
    pub num_data_pages: usize,
    /// How many registration calls cover the data pages.
    pub num_registrations: usize,
}

impl MempoolAllocationParams {
    /// Size of one allocatable item.
    pub fn get_item_len(&self) -> (r: usize)
        ensures
            r == self.item_len,
    {
        self.item_len
    }

    /// Bytes covered by one registration call.
    pub fn get_registration_unit(&self) -> (r: usize)
        requires
            self.num_registrations >= 1,
            (self.num_data_pages as int / self.num_registrations as int) * (
            self.data_pgsize as int) <= usize::MAX,
        ensures
            r as int == (self.num_data_pages as int / self.num_registrations as int)
                * self.data_pgsize as int,
    {
        (self.num_data_pages / self.num_registrations) * self.data_pgsize
    }

    /// Total number of items the pool holds.
    pub fn get_num_items(&self) -> (r: usize)
        ensures
            r == self.num_items,
    {
        self.num_items
    }

    /// Size of one backing data page.
    pub fn get_data_pgsize(&self) -> (r: usize)
        ensures
            r == self.data_pgsize,
    {
        self.data_pgsize
    }

    /// Computes pool parameters: the item count is rounded up to whole
    /// pages of items, and the pages must divide evenly among the
    /// registrations.  Fails exactly when the page size is not one of the
    /// three supported sizes, the item size does not divide the page, or
    /// the resulting pages cannot be split evenly across the requested
    /// registrations.
    pub fn new(min_items: usize, data_pgsize: usize, item_size: usize, num_registrations: usize) -> (r:
        Result<MempoolAllocationParams, WireError>)
        requires
            1 <= item_size,
            1 <= num_registrations,
            min_items + data_pgsize <= usize::MAX,
        ensures
            ({
                let pg_ok = data_pgsize == PGSIZE_4KB || data_pgsize == PGSIZE_2MB || data_pgsize
                    == PGSIZE_1GB;
                let per_page = data_pgsize as int / item_size as int;
                let aligned = spec_align_up(min_items as int, per_page);
                let pages = aligned / per_page;
                if !pg_ok || (data_pgsize as int % item_size as int) != 0 {
                    r is Err
                } else if pages % num_registrations as int != 0 || pages < num_registrations as int {
                    r is Err
                } else {
                    &&& r is Ok
                    &&& r.unwrap().item_len == item_size
                    &&& r.unwrap().data_pgsize == data_pgsize
                    &&& r.unwrap().num_items as int == aligned
                    &&& r.unwrap().num_data_pages as int == pages
                    &&& r.unwrap().num_registrations == num_registrations
                }
            }),
    {
        if data_pgsize != PGSIZE_4KB && data_pgsize != PGSIZE_2MB && data_pgsize != PGSIZE_1GB {
            return Err(WireError::Malformed);
        }
        if data_pgsize % item_size != 0 {
            return Err(WireError::Malformed);
        }
        let data_items_per_page = data_pgsize / item_size;
        proof {
            assert(item_size <= data_pgsize) by {
                if item_size > data_pgsize {
                    vstd::arithmetic::div_mod::lemma_small_mod(
                        data_pgsize as nat,
                        item_size as nat,
                    );
                }
            }
            assert(data_items_per_page >= 1) by {
                vstd::arithmetic::div_mod::lemma_div_is_ordered(
                    item_size as int,
                    data_pgsize as int,
                    item_size as int,
                );
                vstd::arithmetic::div_mod::lemma_div_by_self(item_size as int);
            }
            assert(min_items + data_items_per_page <= usize::MAX) by {
                vstd::arithmetic::div_mod::lemma_div_is_ordered_by_denominator(
                    data_pgsize as int,
                    1,
                    item_size as int,
                );
                vstd::arithmetic::div_mod::lemma_div_basics(data_pgsize as int);
            }
        }
        let num_items = align_up(min_items, data_items_per_page);
        let num_data_pages = num_items / data_items_per_page;
        if num_data_pages % num_registrations != 0 || num_data_pages < num_registrations {
            return Err(WireError::Malformed);
        }
        Ok(
            MempoolAllocationParams {
                item_len: item_size,
                data_pgsize,
                num_items,
                num_data_pages,
                num_registrations,
            },
        )
    }
}

} // verus!
