//! The first-fit allocator that the platform connectors use for their own
//! memory regions: address-ordered free list, neighbours merged on release.
//!
//! The allocator hands out addresses and does not touch the memory behind
//! them: its free list is a `Vec` of blocks on the program's own heap, not
//! headers written into the managed area. Keeping that list allocates, so
//! the allocator cannot itself serve as the program's global allocator
//! (growing the list would re-enter it); it serves areas that are handed
//! out by address.

use vstd::prelude::*;
use crate::allocator::AllocError;
use crate::allocator::free_list::{
    FreeBlock, FREE_BLOCK_SIZE, FREE_BLOCK_ALIGN, take_first_fit, insert_by_address, coalesce,
    wf_blocks, is_first_fit, fits_nowhere, aligned_start, carve, cut_first_fit, is_insertion_point, coalesced,
    range_free_of, lemma_carve, lemma_aligned_start, lemma_insert_wf, lemma_covered_insert, covered, block_range, lemma_coalesced, block_size, block_align,
};

verus! {

/// First-fit allocator over the area `[start, end)` handed to `initialize`.
pub struct SimpleAllocator {
    start: Option<usize>,
    end: Option<usize>,
    free: Vec<FreeBlock>,
}

impl SimpleAllocator {
    /// The managed area `(start, end)`, once the allocator is initialized.
    pub closed spec fn region(&self) -> Option<(int, int)> {
        match (self.start, self.end) {
            (Some(s), Some(e)) => Some((s as int, e as int)),
            _ => None,
        }
    }

    /// The free blocks, ordered by address.
    pub closed spec fn free_blocks(&self) -> Seq<FreeBlock> {
        self.free@
    }

    /// The allocator's invariant: the area is set all at once, and the free
    /// list is well formed for it (and empty before it is set).
    pub closed spec fn wf(&self) -> bool {
        &&& self.start.is_some() == self.end.is_some()
        &&& match self.region() {
            Some((s, e)) => s <= e && wf_blocks(self.free@, s, e),
            None => self.free@.len() == 0,
        }
    }

    /// An allocator with no area yet: every allocation fails until
    /// `initialize` is called.
    pub fn new() -> (a: Self)
        ensures
            a.wf(),
            a.region() is None,
            a.free_blocks() == Seq::<FreeBlock>::empty(),
    {
        SimpleAllocator { start: None, end: None, free: Vec::new() }
    }

    /// Hands the area `[start, end)` to the allocator, as one free block.
    /// The area can be set once, and must hold at least a header.
    pub fn initialize(&mut self, start: usize, end: usize)
        requires
            old(self).wf(),
            old(self).region() is None,
            start <= end,
            end - start >= FREE_BLOCK_SIZE,
        ensures
            final(self).wf(),
            final(self).region() == Some((start as int, end as int)),
            final(self).free_blocks() == seq![FreeBlock { addr: start, size: (end - start) as usize }],
    {
        self.start = Some(start);
        self.end = Some(end);
        let size = end - start;
        let mut free: Vec<FreeBlock> = Vec::new();
        free.push(FreeBlock { addr: start, size });
        self.free = free;
        assert(self.free@ =~= seq![FreeBlock { addr: start, size: (end - start) as usize }]);
    }

    /// Merges touching free blocks.
    fn coalesce_blocks(&mut self)
        requires
            old(self).region() is Some,
            forall|i: int| 0 <= i < old(self).free_blocks().len() ==> (#[trigger] old(self).free_blocks()[i]).end() <= usize::MAX,
        ensures
            final(self).region() == old(self).region(),
            final(self).free_blocks() == coalesced(old(self).free_blocks()),
    {
        assert forall|i: int| 0 <= i < self.free@.len() implies (#[trigger] self.free@[i]).end() <= usize::MAX by {
            assert(old(self).free_blocks()[i] == self.free@[i]);
        }
        coalesce(&mut self.free);
    }

    /// Allocates `size` bytes aligned to `align` from the first free block
    /// that can hold them, and returns the start address and the length
    /// handed out (at least a header). Fails, changing nothing, when no free
    /// block can hold the allocation.
    pub fn allocate(&mut self, size: usize, align: usize) -> (r: Result<(usize, usize), AllocError>)
        requires
            old(self).wf(),
        ensures
            final(self).wf(),
            final(self).region() == old(self).region(),
            match r {
                Ok((addr, len)) => {
                    &&& len == block_size(size)
                    &&& cut_first_fit(old(self).free_blocks(), final(self).free_blocks(), addr as int, len as int, block_align(align) as int)
                    &&& final(self).region() matches Some((start, end)) && start <= addr && addr + len <= end
                    &&& addr % block_align(align) == 0
                    &&& range_free_of(final(self).free_blocks(), addr as int, len as int)
                },
                Err(_) => {
                    &&& fits_nowhere(old(self).free_blocks(), block_size(size) as int, block_align(align) as int)
                    &&& final(self).free_blocks() == old(self).free_blocks()
                },
            },
    {
        let ghost old_align = align;
        let size = if size < FREE_BLOCK_SIZE { FREE_BLOCK_SIZE } else { size };
        let align = if align < FREE_BLOCK_ALIGN { FREE_BLOCK_ALIGN } else { align };
        let ghost before = self.free@;
        proof {
            if let Some((s, e)) = self.region() {
                assert forall|i: int| 0 <= i < before.len() implies (#[trigger] before[i]).end() <= usize::MAX by {
                    assert(before[i].end() <= e);
                }
            }
        }
        match take_first_fit(&mut self.free, size, align) {
            Some(addr) => {
                proof {
                    let i = choose|i: int| {
                        &&& is_first_fit(before, i, size as int, align as int)
                        &&& addr == aligned_start(before[i], align as int)
                        &&& self.free@ == carve(before, i, size as int, align as int)
                    };
                    let (s, e) = self.region()->0;
                    lemma_carve(before, i, size as int, align as int, s, e);
                    lemma_aligned_start(before[i], align as int);
                    assert(align == block_align(old_align));
                    assert(self.wf());
                }
                Ok((addr, size))
            },
            None => Err(AllocError),
        }
    }

    /// Gives back the `size` bytes at `addr`, allocated earlier with this
    /// size: the block goes into the free list at its place by address, and
    /// touching free blocks are merged.
    pub fn deallocate(&mut self, addr: usize, size: usize, align: usize)
        requires
            old(self).wf(),
            old(self).region() matches Some((start, end)) && start <= addr < end && addr + block_size(size) <= end,
            range_free_of(old(self).free_blocks(), addr as int, block_size(size) as int),
        ensures
            final(self).wf(),
            final(self).region() == old(self).region(),
            exists|k: int| {
                &&& is_insertion_point(old(self).free_blocks(), addr as int, k)
                &&& final(self).free_blocks() == coalesced(
                    old(self).free_blocks().insert(k, FreeBlock { addr, size: block_size(size) }),
                )
            },
            covered(final(self).free_blocks()) == covered(old(self).free_blocks()).union(
                block_range(FreeBlock { addr, size: block_size(size) }),
            ),
    {
        let size = if size < FREE_BLOCK_SIZE { FREE_BLOCK_SIZE } else { size };
        let b = FreeBlock { addr, size };
        let ghost before = self.free@;
        let ghost (s, e) = self.region()->0;
        insert_by_address(&mut self.free, b);
        let ghost k = choose|k: int| is_insertion_point(before, addr as int, k) && self.free@ == before.insert(k, b);
        proof {
            lemma_insert_wf(before, k, b, s, e);
            assert forall|i: int| 0 <= i < self.free@.len() implies (#[trigger] self.free@[i]).end() <= usize::MAX by {
                assert(self.free@[i].end() <= e);
            }
        }
        self.coalesce_blocks();
        proof {
            lemma_coalesced(before.insert(k, b), s, e);
            lemma_covered_insert(before, k, b);
        }
    }
}

} // verus!
