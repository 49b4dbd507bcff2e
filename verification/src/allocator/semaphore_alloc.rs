//! The first-fit allocator shared between cores behind a semaphore.

use vstd::prelude::*;
use crate::allocator::AllocError;
use crate::allocator::sdd_os_alloc::SimpleAllocator;
use crate::allocator::free_list::{
    FreeBlock, FREE_BLOCK_SIZE, cut_first_fit, fits_nowhere, block_size, block_align, range_free_of,
    is_insertion_point, coalesced, covered, block_range,
};
use crate::shared::semaphore::Semaphore;

verus! {

/// A `SimpleAllocator` reached through a semaphore.
pub struct SemaphoreAllocator {
    semaphore: Semaphore<SimpleAllocator>,
}

impl SemaphoreAllocator {
    /// The guarded allocator, once `init` has made it.
    pub closed spec fn allocator(&self) -> Option<SimpleAllocator> {
        self.semaphore.value()
    }

    /// A semaphore allocator with no allocator behind it yet.
    pub fn new() -> (a: Self)
        ensures
            a.allocator() is None,
    {
        SemaphoreAllocator { semaphore: Semaphore::new() }
    }

    /// Puts a fresh allocator for the area `[start, end)` behind the
    /// semaphore, replacing any earlier one.
    pub fn init(&mut self, start: usize, end: usize)
        requires
            start <= end,
            end - start >= FREE_BLOCK_SIZE,
        ensures
            final(self).allocator() matches Some(a) && {
                &&& a.wf()
                &&& a.region() == Some((start as int, end as int))
                &&& a.free_blocks() == seq![FreeBlock { addr: start, size: (end - start) as usize }]
            },
    {
        self.semaphore.init(SimpleAllocator::new());
        let guard = self.semaphore.lock();
        guard.initialize(start, end);
    }

    /// Allocates through the guarded allocator; see `SimpleAllocator::allocate`.
    pub fn allocate(&mut self, size: usize, align: usize) -> (r: Result<(usize, usize), AllocError>)
        requires
            old(self).allocator() matches Some(a) && a.wf(),
        ensures
            final(self).allocator() matches Some(a) && {
                let before = old(self).allocator()->0;
                &&& a.wf()
                &&& a.region() == before.region()
                &&& match r {
                    Ok((addr, len)) => {
                        &&& len == block_size(size)
                        &&& cut_first_fit(before.free_blocks(), a.free_blocks(), addr as int, len as int, block_align(align) as int)
                        &&& a.region() matches Some((start, end)) && start <= addr && addr + len <= end
                        &&& addr % block_align(align) == 0
                        &&& range_free_of(a.free_blocks(), addr as int, len as int)
                    },
                    Err(_) => {
                        &&& fits_nowhere(before.free_blocks(), block_size(size) as int, block_align(align) as int)
                        &&& a.free_blocks() == before.free_blocks()
                    },
                }
            },
    {
        let guard = self.semaphore.lock();
        guard.allocate(size, align)
    }

    /// Frees through the guarded allocator; see `SimpleAllocator::deallocate`.
    pub fn deallocate(&mut self, addr: usize, size: usize, align: usize)
        requires
            old(self).allocator() matches Some(a) && {
                &&& a.wf()
                &&& a.region() matches Some((start, end)) && start <= addr < end && addr + block_size(size) <= end
                &&& range_free_of(a.free_blocks(), addr as int, block_size(size) as int)
            },
        ensures
            final(self).allocator() matches Some(a) && {
                let before = old(self).allocator()->0;
                &&& a.wf()
                &&& a.region() == before.region()
                &&& exists|k: int| {
                    &&& is_insertion_point(before.free_blocks(), addr as int, k)
                    &&& a.free_blocks() == coalesced(
                        before.free_blocks().insert(k, FreeBlock { addr, size: block_size(size) }),
                    )
                }
                &&& covered(a.free_blocks()) == covered(before.free_blocks()).union(
                    block_range(FreeBlock { addr, size: block_size(size) }),
                )
            },
    {
        let guard = self.semaphore.lock();
        guard.deallocate(addr, size, align);
    }
}

} // verus!
