//! The page-addressable heap and its partition header.
//!
//! The heap is a flat sequence of pages of `PAGE_SIZE` bytes. Page 0 is the
//! reserved header: its byte `j` names the region that owns data page
//! `j + 1`, or `FREE_OWNER` while that page is not yet allocated. Growth is
//! append-only and monotonic: a page, once allocated to a region, is never
//! reassigned and never returned to a free list, so the heap's length and
//! the header are the whole truth about allocation. The partition table
//! therefore caps the heap at `PAGE_SIZE` data pages; past that, growth
//! fails with `CapacityExhausted`.

use vstd::prelude::*;
use crate::StoreError;

verus! {

/// Bytes in one page, the unit of storage, growth and write-through.
pub const PAGE_SIZE: usize = 4096;

/// Number of named regions the heap is partitioned into.
pub const NUM_REGIONS: u8 = 4;

/// Region of the user store.
pub const REGION_USERS: u8 = 0;

/// Region of the post store.
pub const REGION_POSTS: u8 = 1;

/// Region of the comment store.
pub const REGION_COMMENTS: u8 = 2;

/// Region of the id-counter store.
pub const REGION_COUNTERS: u8 = 3;

/// Header byte of a data page that no region owns yet.
pub const FREE_OWNER: u8 = 255;

/// The persistent heap: page 0 is the partition header, the rest are data
/// pages, each owned by exactly one region.
pub struct PageHeap {
    pub pages: Vec<Vec<u8>>,
}

impl PageHeap {
    /// Owner byte of data page `p` (with `1 <= p`), read from the header.
    pub open spec fn page_owner(self, p: int) -> u8 {
        self.pages@[0]@[p - 1]
    }

    /// Well-formed heap: every page is page-sized, the header covers the
    /// heap, every allocated data page is owned by a real region, and every
    /// header byte past the heap's end is unallocated.
    pub open spec fn wf(self) -> bool {
        &&& 1 <= self.pages@.len() <= PAGE_SIZE + 1
        &&& (forall|i: int| 0 <= i < self.pages@.len() ==> #[trigger] self.pages@[i]@.len()
            == PAGE_SIZE)
        &&& (forall|p: int| 1 <= p < self.pages@.len() ==> #[trigger] self.page_owner(p)
            < NUM_REGIONS)
        &&& (forall|j: int| self.pages@.len() - 1 <= j < PAGE_SIZE ==> #[trigger] self.pages@[0]@[j]
            == FREE_OWNER)
    }

    /// A fresh heap: one all-unallocated header page, no data pages.
    pub fn new() -> (h: Self)
        ensures
            h.wf(),
            h.pages@.len() == 1,
    {
        let mut header: Vec<u8> = Vec::new();
        while header.len() < PAGE_SIZE
            invariant
                header@.len() <= PAGE_SIZE,
                forall|j: int| 0 <= j < header@.len() ==> header@[j] == FREE_OWNER,
            decreases PAGE_SIZE - header@.len(),
        {
            header.push(FREE_OWNER);
        }
        let mut pages: Vec<Vec<u8>> = Vec::new();
        pages.push(header);
        PageHeap { pages }
    }

    /// Reads a page.
    pub fn read_page(&self, p: usize) -> (r: &Vec<u8>)
        requires
            p < self.pages@.len(),
        ensures
            r@ == self.pages@[p as int]@,
    {
        &self.pages[p]
    }

    /// Number of pages, header included.
    pub fn page_count(&self) -> (n: usize)
        ensures
            n == self.pages@.len(),
    {
        self.pages.len()
    }

    /// Overwrites one data page, leaving every other page — the header and
    /// with it the whole partition table included — untouched.
    pub fn write_data_page(&mut self, p: usize, bytes: Vec<u8>)
        requires
            old(self).wf(),
            1 <= p < old(self).pages@.len(),
            bytes@.len() == PAGE_SIZE,
        ensures
            final(self).wf(),
            final(self).pages@.len() == old(self).pages@.len(),
            final(self).pages@[p as int]@ == bytes@,
            forall|q: int|
                0 <= q < old(self).pages@.len() && q != p ==> #[trigger] final(self).pages@[q]@
                    == old(self).pages@[q]@,
            forall|q: int|
                1 <= q < old(self).pages@.len() ==> #[trigger] final(self).page_owner(q) == old(
                    self,
                ).page_owner(q),
    {
        let ghost b = bytes@;
        self.pages[p] = bytes;
        proof {
            assert(self.pages@ =~= old(self).pages@.update(p as int, self.pages@[p as int]));
            assert(self.pages@[0]@ == old(self).pages@[0]@);
            assert forall|i: int|
                0 <= i < self.pages@.len() implies #[trigger] self.pages@[i]@.len()
                == PAGE_SIZE by {
                if i != p {
                    assert(self.pages@[i]@ == old(self).pages@[i]@);
                } else {
                    assert(self.pages@[i]@ == b);
                }
            }
            assert forall|q: int|
                1 <= q < self.pages@.len() implies #[trigger] self.page_owner(q)
                < NUM_REGIONS by {
                assert(self.page_owner(q) == old(self).page_owner(q));
            }
        }
    }

    /// Allocates one more data page to region `r`: appends a free page and
    /// records the owner in the header. Fails, changing nothing, exactly
    /// when the partition table is full.
    pub fn alloc_page(&mut self, r: u8) -> (res: Result<usize, StoreError>)
        requires
            old(self).wf(),
            r < NUM_REGIONS,
        ensures
            final(self).wf(),
            res is Err <==> old(self).pages@.len() == PAGE_SIZE + 1,
            match res {
                Ok(p) => {
                    &&& p == old(self).pages@.len()
                    &&& final(self).pages@.len() == old(self).pages@.len() + 1
                    &&& final(self).page_owner(p as int) == r
                    &&& is_free_page(final(self).pages@[p as int]@)
                    &&& (forall|q: int|
                        1 <= q < old(self).pages@.len() ==> #[trigger] final(self).pages@[q]@
                            == old(self).pages@[q]@)
                    &&& (forall|q: int|
                        1 <= q < old(self).pages@.len() ==> #[trigger] final(self).page_owner(q)
                            == old(self).page_owner(q))
                },
                Err(e) => e == StoreError::CapacityExhausted && *final(self) == *old(self),
            },
    {
        if self.pages.len() >= 1 + PAGE_SIZE {
            return Err(StoreError::CapacityExhausted);
        }
        let p = self.pages.len();
        let page = make_free_page();
        self.pages.push(page);
        self.pages[0][p - 1] = r;
        proof {
            assert(self.pages@[0]@ =~= old(self).pages@[0]@.update(p - 1, r));
            assert forall|i: int|
                0 <= i < self.pages@.len() implies #[trigger] self.pages@[i]@.len()
                == PAGE_SIZE by {
                if 1 <= i < p {
                    assert(self.pages@[i]@ == old(self).pages@[i]@);
                }
            }
            assert forall|q: int|
                1 <= q < self.pages@.len() implies #[trigger] self.page_owner(q)
                < NUM_REGIONS by {
                if q != p {
                    assert(self.page_owner(q) == old(self).page_owner(q));
                    assert(old(self).page_owner(q) < NUM_REGIONS);
                } else {
                    assert(self.page_owner(q) == r);
                }
            }
        }
        Ok(p)
    }
}

/// A data page holding no record: its first byte is zero.
pub open spec fn is_free_page(p: Seq<u8>) -> bool {
    p.len() == PAGE_SIZE && p[0] == 0u8
}

/// Builds a free page.
pub fn make_free_page() -> (r: Vec<u8>)
    ensures
        is_free_page(r@),
        forall|j: int| 0 <= j < PAGE_SIZE ==> r@[j] == 0u8,
{
    let mut page: Vec<u8> = Vec::new();
    while page.len() < PAGE_SIZE
        invariant
            page@.len() <= PAGE_SIZE,
            forall|j: int| 0 <= j < page@.len() ==> page@[j] == 0u8,
        decreases PAGE_SIZE - page@.len(),
    {
        page.push(0u8);
    }
    page
}

/// A mutation through region `r` leaves every page of every other region,
/// and every owner already assigned, exactly as it was; new pages, if any,
/// belong to `r`.
pub open spec fn preserves_other_regions(h0: PageHeap, h1: PageHeap, r: u8) -> bool {
    &&& h0.pages@.len() <= h1.pages@.len()
    &&& (forall|p: int|
        1 <= p < h0.pages@.len() ==> #[trigger] h1.page_owner(p) == h0.page_owner(p))
    &&& (forall|p: int|
        1 <= p < h0.pages@.len() && h0.page_owner(p) != r ==> #[trigger] h1.pages@[p]@
            == h0.pages@[p]@)
    &&& (forall|p: int|
        h0.pages@.len() <= p < h1.pages@.len() ==> #[trigger] h1.page_owner(p) == r)
}

/// Law: partition isolation. A mutation through one region never alters a
/// byte addressable through any other region's pages, however much the
/// mutating region grows.
pub proof fn law_partition_isolation(h0: PageHeap, h1: PageHeap, r: u8, r2: u8, p: int)
    requires
        preserves_other_regions(h0, h1, r),
        r2 != r,
        1 <= p < h0.pages@.len(),
        h0.page_owner(p) == r2,
    ensures
        h1.pages@[p]@ == h0.pages@[p]@,
        h1.page_owner(p) == r2,
{
}


} // verus!
