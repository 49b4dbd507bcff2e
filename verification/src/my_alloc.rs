//! The first-fit allocator meant as the program-wide allocator: it
//! takes its area once, and never takes memory back.
//!
//! The allocator hands out addresses and does not touch the memory behind
//! them: its free list is a `Vec` of blocks on the program's own heap, not
//! headers written into the managed area. Keeping that list allocates, so
//! the allocator cannot itself serve as the program's global allocator
//! (growing the list would re-enter it); it serves areas that are handed
//! out by address.

use vstd::prelude::*;
use vstd::arithmetic::power2::{pow2, lemma_pow2_pos};
use vstd::arithmetic::div_mod::lemma_mod_self_0;
use vstd::bits::{low_bits_mask, lemma_usize_low_bits_mask_is_mod};
use crate::allocator::free_list::{
    FreeBlock, FREE_BLOCK_SIZE, FREE_BLOCK_ALIGN, take_first_fit, wf_blocks, fits_nowhere,
    cut_first_fit, block_align, block_size, lemma_carve, lemma_aligned_start, range_free_of, is_first_fit, aligned_start, carve,
};

verus! {

/// First-fit allocator over the area handed to its first `initialize`.
pub struct SimpleAllocator {
    start: Option<usize>,
    end: Option<usize>,
    free: Vec<FreeBlock>,
}

/// Whether `x` is a power of two that fits in a `usize`.
pub open spec fn is_power_of_two(x: usize) -> bool {
    exists|n: nat| n < usize::BITS && x == pow2(n)
}

/// `addr` rounded up to the next multiple of `align`, computed as the
/// bit mask does it.
pub open spec fn align_up_spec(addr: usize, align: usize) -> usize {
    ((addr + (align - 1)) as usize) & !((align - 1) as usize)
}

/// For a power of two, the bits below it are the remainder by it, and the
/// power itself has none of them set.
proof fn lemma_power_of_two_mask(x: usize, align: usize)
    requires
        is_power_of_two(align),
    ensures
        align >= 1,
        x & ((align - 1) as usize) == x % align,
        align & ((align - 1) as usize) == 0,
{
    let n = choose|n: nat| n < usize::BITS && align == pow2(n);
    lemma_pow2_pos(n);
    assert(low_bits_mask(n) == align - 1);
    lemma_usize_low_bits_mask_is_mod(x, n);
    lemma_usize_low_bits_mask_is_mod(align, n);
    assert(align % align == 0) by {
        lemma_mod_self_0(align as int);
    }
}

/// Rounds `addr` up to the next multiple of `align`, a power of two: the
/// least multiple of `align` that is not below `addr`.
pub fn align_up(addr: usize, align: usize) -> (r: usize)
    requires
        is_power_of_two(align),
        addr + (align - 1) <= usize::MAX,
    ensures
        r == align_up_spec(addr, align),
        r % align == 0,
        addr <= r,
        r < addr + align,
{
    proof {
        lemma_power_of_two_mask(addr, align);
    }
    let mask = align - 1;
    let sum = addr + mask;
    let r = sum & !mask;
    assert(r & mask == 0 && sum - mask <= r && r <= sum) by (bit_vector)
        requires
            align != 0,
            align & ((align - 1) as usize) == 0,
            mask == align - 1,
            sum == addr + mask,
            r == sum & !mask;
    proof {
        lemma_power_of_two_mask(r, align);
    }
    r
}

/// Law: rounding up a value already rounded up changes nothing.
pub proof fn lemma_align_up_idempotent(addr: usize, align: usize)
    requires
        is_power_of_two(align),
        addr + (align - 1) <= usize::MAX,
        align_up_spec(addr, align) + (align - 1) <= usize::MAX,
    ensures
        align_up_spec(align_up_spec(addr, align), align) == align_up_spec(addr, align),
{
    lemma_power_of_two_mask(addr, align);
    let mask = (align - 1) as usize;
    let sum = (addr + mask) as usize;
    let r = sum & !mask;
    let sum2 = (r + mask) as usize;
    assert(sum2 & !mask == r) by (bit_vector)
        requires
            align != 0,
            align & mask == 0,
            mask == align - 1,
            sum == addr + mask,
            r == sum & !mask,
            sum2 == r + mask;
}

/// Law: rounding up keeps order.
pub proof fn lemma_align_up_monotone(a: usize, b: usize, align: usize)
    requires
        is_power_of_two(align),
        a <= b,
        b + (align - 1) <= usize::MAX,
    ensures
        align_up_spec(a, align) <= align_up_spec(b, align),
{
    lemma_power_of_two_mask(a, align);
    let mask = (align - 1) as usize;
    let sa = (a + mask) as usize;
    let sb = (b + mask) as usize;
    assert(sa & !mask <= sb & !mask) by (bit_vector)
        requires
            align != 0,
            align & mask == 0,
            mask == align - 1,
            a <= b,
            sa == a + mask,
            sb == b + mask;
}

impl SimpleAllocator {
    /// The managed area `(start, end)`, once the allocator is initialized.
    pub closed spec fn region(&self) -> Option<(int, int)> {
        match (self.start, self.end) {
            (Some(s), Some(e)) => Some((s as int, e as int)),
            _ => None,
        }
    }

    /// The free blocks, ordered by address.
    pub closed spec fn free_blocks(&self) -> Seq<FreeBlock> {
        self.free@
    }

    /// The allocator's invariant: the area is set all at once, and the free
    /// list is well formed for it (and empty before it is set).
    pub closed spec fn wf(&self) -> bool {
        &&& self.start.is_some() == self.end.is_some()
        &&& match self.region() {
            Some((s, e)) => s <= e && wf_blocks(self.free@, s, e),
            None => self.free@.len() == 0,
        }
    }

    /// An allocator with no area yet: every allocation fails until
    /// `initialize` is called.
    pub fn new() -> (a: Self)
        ensures
            a.wf(),
            a.region() is None,
            a.free_blocks() == Seq::<FreeBlock>::empty(),
    {
        SimpleAllocator { start: None, end: None, free: Vec::new() }
    }

    /// Hands the area `[start, end)` to the allocator. Only the first call
    /// counts; later ones change nothing. An area too small for a header
    /// leaves the free list empty.
    pub fn initialize(&mut self, start: usize, end: usize)
        requires
            old(self).wf(),
            old(self).region() is None ==> start <= end,
        ensures
            final(self).wf(),
            old(self).region() is Some ==> final(self).region() == old(self).region()
                && final(self).free_blocks() == old(self).free_blocks(),
            old(self).region() is None ==> {
                &&& final(self).region() == Some((start as int, end as int))
                &&& final(self).free_blocks() == if end - start >= FREE_BLOCK_SIZE {
                    seq![FreeBlock { addr: start, size: (end - start) as usize }]
                } else {
                    Seq::<FreeBlock>::empty()
                }
            },
    {
        if self.start.is_some() {
            return;
        }
        self.start = Some(start);
        self.end = Some(end);
        let size = end - start;
        if size >= FREE_BLOCK_SIZE {
            let mut free: Vec<FreeBlock> = Vec::new();
            free.push(FreeBlock { addr: start, size });
            self.free = free;
            assert(self.free@ =~= seq![FreeBlock { addr: start, size: (end - start) as usize }]);
        }
    }

    /// Allocates `size` bytes aligned to `align` from the first free block
    /// that can hold them (at least a header's worth), and returns the start
    /// address; returns `None`, changing nothing, when no block can hold it.
    pub fn allocate(&mut self, size: usize, align: usize) -> (r: Option<usize>)
        requires
            old(self).wf(),
        ensures
            final(self).wf(),
            final(self).region() == old(self).region(),
            match r {
                Some(addr) => {
                    &&& cut_first_fit(
                        old(self).free_blocks(),
                        final(self).free_blocks(),
                        addr as int,
                        block_size(size) as int,
                        block_align(align) as int,
                    )
                    &&& final(self).region() matches Some((start, end)) && start <= addr && addr + block_size(size) <= end
                    &&& addr % block_align(align) == 0
                    &&& range_free_of(final(self).free_blocks(), addr as int, block_size(size) as int)
                },
                None => {
                    &&& fits_nowhere(old(self).free_blocks(), block_size(size) as int, block_align(align) as int)
                    &&& final(self).free_blocks() == old(self).free_blocks()
                },
            },
    {
        let ghost old_align = align;
        let size = if size < FREE_BLOCK_SIZE { FREE_BLOCK_SIZE } else { size };
        let align = if align < FREE_BLOCK_ALIGN { FREE_BLOCK_ALIGN } else { align };
        let ghost before = self.free@;
        proof {
            if let Some((s, e)) = self.region() {
                assert forall|i: int| 0 <= i < before.len() implies (#[trigger] before[i]).end() <= usize::MAX by {
                    assert(before[i].end() <= e);
                }
            }
        }
        let r = take_first_fit(&mut self.free, size, align);
        proof {
            if let Some(addr) = r {
                let i = choose|i: int| {
                    &&& is_first_fit(before, i, size as int, align as int)
                    &&& addr == aligned_start(before[i], align as int)
                    &&& self.free@ == carve(before, i, size as int, align as int)
                };
                let (s, e) = self.region()->0;
                lemma_carve(before, i, size as int, align as int, s, e);
                lemma_aligned_start(before[i], align as int);
                assert(align == block_align(old_align));
            }
        }
        r
    }
}

} // verus!
