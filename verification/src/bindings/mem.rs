//! The memory region that the platform gives each core, and the bump
//! reservation of its front part for fixed buffers.

use vstd::prelude::*;

verus! {

/// Gap left behind every reservation.
pub const RESERVE_GAP: usize = 8;

/// A core's memory region `[start, end)`; the part from `free_start` on is
/// not reserved yet. Address 0 stands for the null address.
pub struct MemoryRegion {
    pub start: usize,
    pub end: usize,
    pub free_start: usize,
}

impl MemoryRegion {
    /// The region of `size` bytes at `start`, nothing reserved yet.
    pub fn new(start: usize, size: usize) -> (r: Self)
        requires
            start + size <= usize::MAX,
        ensures
            r.start == start,
            r.end == start + size,
            r.free_start == start,
    {
        MemoryRegion { start, end: start + size, free_start: start }
    }

    /// Reserves `size` bytes at the front of the free part and returns
    /// where they start; the free part then begins `RESERVE_GAP` bytes
    /// behind them. Returns `None`, changing nothing, when the free part
    /// starts at the null address or is too small.
    pub fn reserve(&mut self, size: usize) -> (r: Option<usize>)
        requires
            old(self).free_start + size + RESERVE_GAP <= usize::MAX,
        ensures
            final(self).start == old(self).start,
            final(self).end == old(self).end,
            match r {
                Some(at) => {
                    &&& old(self).free_start != 0
                    &&& old(self).free_start + size + RESERVE_GAP <= old(self).end
                    &&& at == old(self).free_start
                    &&& final(self).free_start == old(self).free_start + size + RESERVE_GAP
                },
                None => {
                    &&& (old(self).free_start == 0 || old(self).free_start + size + RESERVE_GAP > old(self).end)
                    &&& final(self).free_start == old(self).free_start
                },
            },
    {
        if self.free_start == 0 {
            return None;
        }
        let res = self.free_start;
        let free_start = self.free_start + size + RESERVE_GAP;
        if free_start > self.end {
            return None;
        }
        self.free_start = free_start;
        Some(res)
    }
}

} // verus!
