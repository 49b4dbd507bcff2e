//! The free list shared by the first-fit allocators: the free regions of a
//! memory area, kept as blocks ordered by address.
//!
//! The allocator hands out addresses and does not touch the memory behind
//! them: its free list is a `Vec` of blocks on the program's own heap, not
//! headers written into the managed area. Keeping that list allocates, so
//! the allocator cannot itself serve as the program's global allocator
//! (growing the list would re-enter it); it serves areas that are handed
//! out by address.

use vstd::prelude::*;
use vstd::arithmetic::div_mod::{lemma_fundamental_div_mod, lemma_mod_mod, lemma_mod_multiples_basic, lemma_small_mod};

verus! {

/// Size in bytes of the header that every free block carries in memory:
/// its size and the link to the next free block, two words on the target.
/// No free block is ever smaller than this, and no allocation either.
pub const FREE_BLOCK_SIZE: usize = 8;

/// Alignment of a free-block header; every allocation is at least this aligned.
pub const FREE_BLOCK_ALIGN: usize = 4;

/// The size an allocation of `size` bytes really takes: never less than a
/// free-block header, so that it can be put back on the list.
pub open spec fn block_size(size: usize) -> usize {
    if size < FREE_BLOCK_SIZE { FREE_BLOCK_SIZE } else { size }
}

/// The alignment an allocation really gets: never less than a header's.
pub open spec fn block_align(align: usize) -> usize {
    if align < FREE_BLOCK_ALIGN { FREE_BLOCK_ALIGN } else { align }
}

/// A free region: `size` bytes starting at address `addr`.
#[derive(Clone, Copy, Debug, PartialEq, Eq, Structural)]
pub struct FreeBlock {
    pub addr: usize,
    pub size: usize,
}

impl FreeBlock {
    /// One past the last address of the block.
    pub open spec fn end(self) -> int {
        self.addr + self.size
    }

    /// Whether address `x` lies inside the block.
    pub open spec fn contains(self, x: int) -> bool {
        self.addr <= x < self.end()
    }
}

/// How far `addr` must be moved up to reach a multiple of `align`.
pub open spec fn align_offset(addr: int, align: int) -> int {
    (align - addr % align) % align
}

/// The first address at or above the start of `b` that is a multiple of `align`.
pub open spec fn aligned_start(b: FreeBlock, align: int) -> int {
    b.addr + align_offset(b.addr as int, align)
}

/// Whether an allocation of `size` bytes aligned to `align` fits in `b`.
pub open spec fn fits(b: FreeBlock, size: int, align: int) -> bool {
    aligned_start(b, align) + size <= b.end()
}

/// `i` is the first block of `s` in which the allocation fits.
pub open spec fn is_first_fit(s: Seq<FreeBlock>, i: int, size: int, align: int) -> bool {
    &&& 0 <= i < s.len()
    &&& fits(s[i], size, align)
    &&& forall|j: int| 0 <= j < i ==> !fits(#[trigger] s[j], size, align)
}

/// `after` is `before` with an allocation of `size` bytes aligned to
/// `align` cut out of its first block that can hold it, and `addr` is the
/// allocation's start.
pub open spec fn cut_first_fit(before: Seq<FreeBlock>, after: Seq<FreeBlock>, addr: int, size: int, align: int) -> bool {
    exists|i: int| {
        &&& is_first_fit(before, i, size, align)
        &&& addr == aligned_start(before[i], align)
        &&& after == carve(before, i, size, align)
    }
}

/// No block of `s` can hold the allocation.
pub open spec fn fits_nowhere(s: Seq<FreeBlock>, size: int, align: int) -> bool {
    forall|j: int| 0 <= j < s.len() ==> !fits(#[trigger] s[j], size, align)
}

/// The free list after the allocation has been cut out of block `i`: the
/// part of the block behind the allocation stays free if it can hold a
/// header; otherwise the whole block leaves the list. The part in front of
/// the aligned start is given up either way.
pub open spec fn carve(s: Seq<FreeBlock>, i: int, size: int, align: int) -> Seq<FreeBlock> {
    let b = s[i];
    let alloc_end = aligned_start(b, align) + size;
    let remaining = b.end() - alloc_end;
    if remaining >= FREE_BLOCK_SIZE {
        s.update(i, FreeBlock { addr: alloc_end as usize, size: remaining as usize })
    } else {
        s.remove(i)
    }
}

/// `k` is where a block starting at `addr` goes in `s`: in front of the
/// first block whose address is not below `addr`.
pub open spec fn is_insertion_point(s: Seq<FreeBlock>, addr: int, k: int) -> bool {
    &&& 0 <= k <= s.len()
    &&& forall|j: int| 0 <= j < k ==> (#[trigger] s[j]).addr < addr
    &&& k < s.len() ==> s[k].addr >= addr
}

/// Adds `b` behind the blocks of `acc`, merging it into the last one when
/// that one ends exactly where `b` starts.
pub open spec fn merge_into(acc: Seq<FreeBlock>, b: FreeBlock) -> Seq<FreeBlock> {
    if acc.len() > 0 && acc.last().end() == b.addr {
        acc.drop_last().push(FreeBlock { addr: acc.last().addr, size: (acc.last().size + b.size) as usize })
    } else {
        acc.push(b)
    }
}

/// The list with every run of touching neighbours merged into one block.
pub open spec fn coalesced(s: Seq<FreeBlock>) -> Seq<FreeBlock>
    decreases s.len(),
{
    if s.len() == 0 {
        Seq::empty()
    } else {
        merge_into(coalesced(s.drop_last()), s.last())
    }
}

/// The addresses that the blocks of `s` cover.
pub open spec fn covered(s: Seq<FreeBlock>) -> Set<int>
    decreases s.len(),
{
    if s.len() == 0 {
        Set::empty()
    } else {
        covered(s.drop_last()).union(block_range(s.last()))
    }
}

/// The addresses of one block.
pub open spec fn block_range(b: FreeBlock) -> Set<int> {
    Set::new(|x: int| b.contains(x))
}

/// The list is well formed for the area `[lo, hi)`: every block lies in the
/// area and can hold a header, and the blocks are ordered by address
/// without overlapping.
pub open spec fn wf_blocks(s: Seq<FreeBlock>, lo: int, hi: int) -> bool {
    &&& hi <= usize::MAX
    &&& forall|i: int|
        0 <= i < s.len() ==> {
            &&& lo <= (#[trigger] s[i]).addr
            &&& s[i].end() <= hi
            &&& s[i].size >= FREE_BLOCK_SIZE
        }
    &&& forall|i: int, j: int| 0 <= i < j < s.len() ==> (#[trigger] s[i]).end() <= (#[trigger] s[j]).addr
}

/// No two neighbours in the list touch: nothing is left to merge.
pub open spec fn separated(s: Seq<FreeBlock>) -> bool {
    forall|i: int, j: int| 0 <= i < j < s.len() ==> (#[trigger] s[i]).end() < (#[trigger] s[j]).addr
}

/// `b` shares no address with any block of `s`.
pub open spec fn disjoint_from_all(s: Seq<FreeBlock>, b: FreeBlock) -> bool {
    forall|j: int| 0 <= j < s.len() ==> (#[trigger] s[j]).end() <= b.addr || b.end() <= s[j].addr
}

/// The range `[start, start + len)` shares no address with any block of `s`.
pub open spec fn range_free_of(s: Seq<FreeBlock>, start: int, len: int) -> bool {
    forall|j: int| 0 <= j < s.len() ==> (#[trigger] s[j]).end() <= start || start + len <= s[j].addr
}

/// Law: the aligned start of a block is a multiple of the alignment, and
/// lies less than one alignment above the block's address.
pub proof fn lemma_aligned_start(b: FreeBlock, align: int)
    requires
        align > 0,
    ensures
        aligned_start(b, align) % align == 0,
        b.addr <= aligned_start(b, align) < b.addr + align,
{
    let a = b.addr as int;
    let r = a % align;
    lemma_fundamental_div_mod(a, align);
    let q = a / align;
    if r == 0 {
        assert(align_offset(a, align) == 0) by {
            lemma_mod_multiples_basic(1, align);
        }
        assert(a == q * align) by (nonlinear_arith)
            requires a == align * q + r, r == 0;
        lemma_mod_multiples_basic(q, align);
    } else {
        assert(0 < align - r < align);
        lemma_small_mod((align - r) as nat, align as nat);
        assert(align_offset(a, align) == align - r);
        assert(a + (align - r) == (q + 1) * align) by (nonlinear_arith)
            requires a == align * q + r;
        lemma_mod_multiples_basic(q + 1, align);
    }
}

/// Law: cutting an allocation out of the first block that holds it keeps
/// the list well formed, places the allocation inside the area, and leaves
/// no free block that shares an address with the allocation.
pub proof fn lemma_carve(s: Seq<FreeBlock>, i: int, size: int, align: int, lo: int, hi: int)
    requires
        wf_blocks(s, lo, hi),
        is_first_fit(s, i, size, align),
        align > 0,
        size >= 0,
    ensures
        wf_blocks(carve(s, i, size, align), lo, hi),
        s[i].addr <= aligned_start(s[i], align),
        aligned_start(s[i], align) + size <= s[i].end(),
        lo <= aligned_start(s[i], align),
        aligned_start(s[i], align) + size <= hi,
        range_free_of(carve(s, i, size, align), aligned_start(s[i], align), size),
{
    lemma_aligned_start(s[i], align);
    let b = s[i];
    let start = aligned_start(b, align);
    let alloc_end = start + size;
    let remaining = b.end() - alloc_end;
    let c = carve(s, i, size, align);
    if remaining >= FREE_BLOCK_SIZE {
        let nb = FreeBlock { addr: alloc_end as usize, size: remaining as usize };
        assert(c == s.update(i, nb));
        assert forall|x: int, y: int| 0 <= x < y < c.len() implies (#[trigger] c[x]).end() <= (#[trigger] c[y]).addr by {
            assert(s[x].end() <= s[y].addr);
            if x == i {
                assert(c[x].end() == s[i].end());
            }
            if y == i {
                assert(s[x].end() <= s[i].addr);
            }
        }
        assert forall|j: int| 0 <= j < c.len() implies (#[trigger] c[j]).end() <= start || start + size <= c[j].addr by {
            if j < i {
                assert(s[j].end() <= s[i].addr);
            } else if j > i {
                assert(s[i].end() <= s[j].addr);
            }
        }
    } else {
        assert(c == s.remove(i));
        assert forall|x: int, y: int| 0 <= x < y < c.len() implies (#[trigger] c[x]).end() <= (#[trigger] c[y]).addr by {
            let sx = if x < i { x } else { x + 1 };
            let sy = if y < i { y } else { y + 1 };
            assert(c[x] == s[sx]);
            assert(c[y] == s[sy]);
            assert(s[sx].end() <= s[sy].addr);
        }
        assert forall|j: int| 0 <= j < c.len() implies (#[trigger] c[j]).end() <= start || start + size <= c[j].addr by {
            if j < i {
                assert(c[j] == s[j]);
                assert(s[j].end() <= s[i].addr);
            } else {
                assert(c[j] == s[j + 1]);
                assert(s[i].end() <= s[j + 1].addr);
            }
        }
        assert forall|j: int| 0 <= j < c.len() implies {
            &&& lo <= (#[trigger] c[j]).addr
            &&& c[j].end() <= hi
            &&& c[j].size >= FREE_BLOCK_SIZE
        } by {
            if j < i {
                assert(c[j] == s[j]);
            } else {
                assert(c[j] == s[j + 1]);
            }
        }
    }
}

/// Law: two allocations cut one after the other from the list share no
/// address: the second one comes out of what the first one left free.
pub proof fn lemma_allocations_disjoint(
    s: Seq<FreeBlock>,
    i: int,
    size1: int,
    align1: int,
    j: int,
    size2: int,
    align2: int,
    lo: int,
    hi: int,
)
    requires
        wf_blocks(s, lo, hi),
        align1 > 0,
        align2 > 0,
        size1 >= 0,
        size2 >= 0,
        is_first_fit(s, i, size1, align1),
        is_first_fit(carve(s, i, size1, align1), j, size2, align2),
    ensures
        ({
            let a1 = aligned_start(s[i], align1);
            let a2 = aligned_start(carve(s, i, size1, align1)[j], align2);
            a1 + size1 <= a2 || a2 + size2 <= a1
        }),
{
    let c = carve(s, i, size1, align1);
    lemma_carve(s, i, size1, align1, lo, hi);
    lemma_carve(c, j, size2, align2, lo, hi);
    assert(c[j].end() <= aligned_start(s[i], align1) || aligned_start(s[i], align1) + size1 <= c[j].addr);
}

/// Every free block starts at, and spans, a multiple of a header's alignment.
pub open spec fn blocks_aligned(s: Seq<FreeBlock>) -> bool {
    forall|i: int|
        0 <= i < s.len() ==> (#[trigger] s[i]).addr % FREE_BLOCK_ALIGN == 0 && s[i].size % FREE_BLOCK_ALIGN == 0
}

/// The live allocations `live` (start, length) share no address with one
/// another nor with any free block of `s`.
pub open spec fn live_disjoint(s: Seq<FreeBlock>, live: Seq<(int, int)>) -> bool {
    &&& forall|k: int| 0 <= k < live.len() ==> range_free_of(s, (#[trigger] live[k]).0, live[k].1)
    &&& forall|a: int, b: int|
        0 <= a < b < live.len() ==> (#[trigger] live[a]).0 + live[a].1 <= (#[trigger] live[b]).0 || live[b].0 + live[b].1
            <= live[a].0
}

/// A multiple of `align`, itself a multiple of a header's alignment, is a
/// multiple of a header's alignment.
proof fn lemma_multiple_of_header_align(x: int, align: int)
    requires
        align > 0,
        align % (FREE_BLOCK_ALIGN as int) == 0,
        x % align == 0,
    ensures
        x % (FREE_BLOCK_ALIGN as int) == 0,
{
    let m = align / (FREE_BLOCK_ALIGN as int);
    lemma_fundamental_div_mod(align, FREE_BLOCK_ALIGN as int);
    assert(align == 4 * m);
    assert(m > 0);
    lemma_mod_mod(x, 4, m);
}

/// Law: cutting an allocation whose size and alignment are multiples of a
/// header's alignment out of an aligned free list keeps the list aligned
/// and well formed, and the new allocation shares no address with the
/// live allocations, which stay apart from the free list as well.
pub proof fn lemma_allocation_safe(
    before: Seq<FreeBlock>,
    after: Seq<FreeBlock>,
    addr: int,
    size: int,
    align: int,
    lo: int,
    hi: int,
    live: Seq<(int, int)>,
)
    requires
        wf_blocks(before, lo, hi),
        blocks_aligned(before),
        live_disjoint(before, live),
        cut_first_fit(before, after, addr, size, align),
        align > 0,
        align % (FREE_BLOCK_ALIGN as int) == 0,
        size >= 0,
        size % (FREE_BLOCK_ALIGN as int) == 0,
    ensures
        wf_blocks(after, lo, hi),
        blocks_aligned(after),
        addr % align == 0,
        lo <= addr,
        addr + size <= hi,
        live_disjoint(after, live.push((addr, size))),
{
    let i = choose|i: int| {
        &&& is_first_fit(before, i, size, align)
        &&& addr == aligned_start(before[i], align)
        &&& after == carve(before, i, size, align)
    };
    lemma_carve(before, i, size, align, lo, hi);
    lemma_aligned_start(before[i], align);
    lemma_multiple_of_header_align(addr, align);
    let b = before[i];
    let alloc_end = addr + size;
    let remaining = b.end() - alloc_end;
    assert(b.addr % 4 == 0 && b.size % 4 == 0);
    if remaining >= FREE_BLOCK_SIZE {
        assert(after == before.update(i, FreeBlock { addr: alloc_end as usize, size: remaining as usize }));
        assert forall|j: int| 0 <= j < after.len() implies (#[trigger] after[j]).addr % FREE_BLOCK_ALIGN == 0
            && after[j].size % FREE_BLOCK_ALIGN == 0 by {
            if j != i {
                assert(after[j] == before[j]);
            }
        }
    } else {
        assert(after == before.remove(i));
        assert forall|j: int| 0 <= j < after.len() implies (#[trigger] after[j]).addr % FREE_BLOCK_ALIGN == 0
            && after[j].size % FREE_BLOCK_ALIGN == 0 by {
            if j < i {
                assert(after[j] == before[j]);
            } else {
                assert(after[j] == before[j + 1]);
            }
        }
    }
    let nl = live.push((addr, size));
    assert forall|k: int| 0 <= k < nl.len() implies range_free_of(after, (#[trigger] nl[k]).0, nl[k].1) by {
        if k < live.len() {
            assert(nl[k] == live[k]);
            assert(range_free_of(before, live[k].0, live[k].1));
            assert forall|j: int| 0 <= j < after.len() implies (#[trigger] after[j]).end() <= nl[k].0
                || nl[k].0 + nl[k].1 <= after[j].addr by {
                if remaining >= FREE_BLOCK_SIZE {
                    if j != i {
                        assert(after[j] == before[j]);
                    } else {
                        assert(before[i].end() <= nl[k].0 || nl[k].0 + nl[k].1 <= before[i].addr);
                    }
                } else if j < i {
                    assert(after[j] == before[j]);
                } else {
                    assert(after[j] == before[j + 1]);
                }
            }
        }
    }
    assert forall|a: int, c: int| 0 <= a < c < nl.len() implies (#[trigger] nl[a]).0 + nl[a].1 <= (#[trigger] nl[c]).0
        || nl[c].0 + nl[c].1 <= nl[a].0 by {
        if c == live.len() {
            assert(nl[a] == live[a]);
            assert(range_free_of(before, live[a].0, live[a].1));
            assert(before[i].end() <= live[a].0 || live[a].0 + live[a].1 <= before[i].addr);
        } else {
            assert(nl[a] == live[a] && nl[c] == live[c]);
        }
    }
}

/// The covered addresses of a concatenation are those of its parts.
proof fn lemma_covered_append(s1: Seq<FreeBlock>, s2: Seq<FreeBlock>)
    ensures
        covered(s1 + s2) == covered(s1).union(covered(s2)),
    decreases s2.len(),
{
    if s2.len() == 0 {
        assert(s1 + s2 =~= s1);
        assert(covered(s1).union(covered(s2)) =~= covered(s1));
    } else {
        lemma_covered_append(s1, s2.drop_last());
        assert((s1 + s2).drop_last() =~= s1 + s2.drop_last());
        assert((s1 + s2).last() == s2.last());
        assert(covered(s1 + s2) =~= covered(s1).union(covered(s2)));
    }
}

/// An address is covered by the list exactly when one of its blocks
/// contains it.
proof fn lemma_covered_member(s: Seq<FreeBlock>)
    ensures
        forall|x: int| #[trigger] covered(s).contains(x) <==> exists|j: int| 0 <= j < s.len() && #[trigger] s[j].contains(x),
    decreases s.len(),
{
    if s.len() > 0 {
        let r = s.drop_last();
        lemma_covered_member(r);
        assert(covered(s) == covered(r).union(block_range(s.last())));
        assert(s.last() == s[s.len() - 1]);
        assert forall|x: int| #[trigger] covered(s).contains(x) <==> exists|j: int| 0 <= j < s.len() && #[trigger] s[j].contains(x) by {
            assert(block_range(s.last()).contains(x) == s.last().contains(x));
            if covered(s).contains(x) {
                if covered(r).contains(x) {
                    let j = choose|j: int| 0 <= j < r.len() && #[trigger] r[j].contains(x);
                    assert(s[j] == r[j]);
                } else {
                    assert(s[s.len() - 1].contains(x));
                }
            }
            if exists|j: int| 0 <= j < s.len() && #[trigger] s[j].contains(x) {
                let j = choose|j: int| 0 <= j < s.len() && #[trigger] s[j].contains(x);
                if j < s.len() - 1 {
                    assert(r[j] == s[j]);
                    assert(r[j].contains(x));
                } else {
                    assert(block_range(s.last()).contains(x));
                }
            }
        }
    }
}

/// Law: cutting an allocation out of block `i` frees no address and takes
/// from the free addresses exactly those of that block up to the end of the
/// allocation: the part in front of the aligned start and the allocation
/// itself. The part behind the allocation stays free when it can hold a
/// header; otherwise it goes with the allocation.
pub proof fn lemma_carve_coverage(s: Seq<FreeBlock>, i: int, size: int, align: int, lo: int, hi: int)
    requires
        wf_blocks(s, lo, hi),
        is_first_fit(s, i, size, align),
        align > 0,
        size >= 0,
    ensures
        ({
            let b = s[i];
            let alloc_end = aligned_start(b, align) + size;
            let taken_to = if b.end() - alloc_end >= FREE_BLOCK_SIZE { alloc_end } else { b.end() };
            forall|x: int| #[trigger] covered(carve(s, i, size, align)).contains(x) <==> (covered(s).contains(x) && !(
                b.addr <= x < taken_to))
        }),
{
    let b = s[i];
    lemma_aligned_start(b, align);
    let alloc_end = aligned_start(b, align) + size;
    let remaining = b.end() - alloc_end;
    let taken_to = if remaining >= FREE_BLOCK_SIZE { alloc_end } else { b.end() };
    let c = carve(s, i, size, align);
    lemma_covered_member(s);
    lemma_covered_member(c);
    assert forall|x: int| #[trigger] covered(c).contains(x) <==> (covered(s).contains(x) && !(b.addr <= x < taken_to)) by {
        if covered(c).contains(x) {
            let j = choose|j: int| 0 <= j < c.len() && #[trigger] c[j].contains(x);
            if remaining >= FREE_BLOCK_SIZE {
                if j == i {
                    assert(s[i].contains(x));
                } else {
                    assert(c[j] == s[j]);
                    assert(s[j].contains(x));
                    if j < i {
                        assert(s[j].end() <= s[i].addr);
                    } else {
                        assert(s[i].end() <= s[j].addr);
                    }
                }
            } else {
                let sj = if j < i { j } else { j + 1 };
                assert(c[j] == s[sj]);
                assert(s[sj].contains(x));
                if sj < i {
                    assert(s[sj].end() <= s[i].addr);
                } else {
                    assert(s[i].end() <= s[sj].addr);
                }
            }
        }
        if covered(s).contains(x) && !(b.addr <= x < taken_to) {
            let j = choose|j: int| 0 <= j < s.len() && #[trigger] s[j].contains(x);
            if j == i {
                assert(remaining >= FREE_BLOCK_SIZE);
                assert(c[i].contains(x));
            } else if remaining >= FREE_BLOCK_SIZE {
                assert(c[j] == s[j]);
                assert(c[j].contains(x));
            } else if j < i {
                assert(c[j] == s[j]);
                assert(c[j].contains(x));
            } else {
                assert(c[j - 1] == s[j]);
                assert(c[j - 1].contains(x));
            }
        }
    }
}

/// Law: inserting a block adds exactly its addresses to those covered.
pub proof fn lemma_covered_insert(s: Seq<FreeBlock>, k: int, b: FreeBlock)
    requires
        0 <= k <= s.len(),
    ensures
        covered(s.insert(k, b)) == covered(s).union(block_range(b)),
{
    let front = s.subrange(0, k);
    let back = s.subrange(k, s.len() as int);
    assert(s.insert(k, b) =~= (front.push(b)) + back);
    assert(s =~= front + back);
    lemma_covered_append(front.push(b), back);
    lemma_covered_append(front, back);
    assert(front.push(b).drop_last() =~= front);
    assert(covered(front.push(b)) == covered(front).union(block_range(b)));
    assert(covered(s.insert(k, b)) =~= covered(s).union(block_range(b)));
}

/// Law: a block placed at its insertion point, and sharing no address
/// with the list, keeps the list well formed.
pub proof fn lemma_insert_wf(s: Seq<FreeBlock>, k: int, b: FreeBlock, lo: int, hi: int)
    requires
        wf_blocks(s, lo, hi),
        is_insertion_point(s, b.addr as int, k),
        disjoint_from_all(s, b),
        lo <= b.addr,
        b.end() <= hi,
        b.size >= FREE_BLOCK_SIZE,
    ensures
        wf_blocks(s.insert(k, b), lo, hi),
{
    let t = s.insert(k, b);
    assert forall|j: int| 0 <= j < k implies (#[trigger] s[j]).end() <= b.addr by {
        assert(s[j].addr < b.addr);
    }
    assert forall|j: int| k <= j < s.len() implies b.end() <= (#[trigger] s[j]).addr by {
        if j > k {
            assert(s[k].end() <= s[j].addr);
        }
        assert(s[j].addr >= b.addr);
    }
    assert forall|x: int, y: int| 0 <= x < y < t.len() implies (#[trigger] t[x]).end() <= (#[trigger] t[y]).addr by {
        if x < k && y < k {
            assert(t[x] == s[x] && t[y] == s[y]);
        } else if x < k && y == k {
            assert(t[x] == s[x]);
        } else if x < k {
            assert(t[x] == s[x] && t[y] == s[y - 1]);
            assert(s[x].end() <= s[y - 1].addr);
        } else if x == k {
            assert(t[y] == s[y - 1]);
        } else {
            assert(t[x] == s[x - 1] && t[y] == s[y - 1]);
            assert(s[x - 1].end() <= s[y - 1].addr);
        }
    }
    assert forall|j: int| 0 <= j < t.len() implies {
        &&& lo <= (#[trigger] t[j]).addr
        &&& t[j].end() <= hi
        &&& t[j].size >= FREE_BLOCK_SIZE
    } by {
        if j < k {
            assert(t[j] == s[j]);
        } else if j > k {
            assert(t[j] == s[j - 1]);
        }
    }
}

/// Law: merging touching neighbours keeps the list well formed, leaves no
/// two neighbours touching, and covers exactly the same addresses.
pub proof fn lemma_coalesced(s: Seq<FreeBlock>, lo: int, hi: int)
    requires
        wf_blocks(s, lo, hi),
    ensures
        wf_blocks(coalesced(s), lo, hi),
        separated(coalesced(s)),
        covered(coalesced(s)) == covered(s),
        s.len() > 0 ==> coalesced(s).len() > 0 && coalesced(s).last().end() == s.last().end(),
    decreases s.len(),
{
    if s.len() == 0 {
        return;
    }
    let p = s.drop_last();
    let b = s.last();
    assert(wf_blocks(p, lo, hi)) by {
        assert forall|x: int, y: int| 0 <= x < y < p.len() implies (#[trigger] p[x]).end() <= (#[trigger] p[y]).addr by {
            assert(s[x].end() <= s[y].addr);
        }
        assert forall|j: int| 0 <= j < p.len() implies {
            &&& lo <= (#[trigger] p[j]).addr
            &&& p[j].end() <= hi
            &&& p[j].size >= FREE_BLOCK_SIZE
        } by {
            assert(p[j] == s[j]);
        }
    }
    lemma_coalesced(p, lo, hi);
    let c0 = coalesced(p);
    let c = coalesced(s);
    assert(c == merge_into(c0, b));
    assert(p.len() > 0 ==> p.last().end() <= b.addr) by {
        if p.len() > 0 {
            assert(s[p.len() - 1].end() <= s[s.len() - 1].addr);
        }
    }
    if c0.len() > 0 && c0.last().end() == b.addr {
        let l = c0.last();
        let m = FreeBlock { addr: l.addr, size: (l.size + b.size) as usize };
        assert(c =~= c0.drop_last().push(m));
        assert forall|x: int, y: int| 0 <= x < y < c.len() implies (#[trigger] c[x]).end() < (#[trigger] c[y]).addr by {
            assert(c0[x].end() < c0[y].addr);
        }
        assert forall|x: int, y: int| 0 <= x < y < c.len() implies (#[trigger] c[x]).end() <= (#[trigger] c[y]).addr by {
            assert(c0[x].end() < c0[y].addr);
        }
        assert forall|j: int| 0 <= j < c.len() implies {
            &&& lo <= (#[trigger] c[j]).addr
            &&& c[j].end() <= hi
            &&& c[j].size >= FREE_BLOCK_SIZE
        } by {
            assert(lo <= c0[j].addr);
        }
        assert(c.drop_last() =~= c0.drop_last());
        assert(c.last() == m);
        assert(c0.drop_last().push(l) =~= c0);
        assert(block_range(m) =~= block_range(l).union(block_range(b)));
        assert(covered(c0) == covered(c0.drop_last()).union(block_range(l)));
        assert(covered(c) =~= covered(s));
    } else {
        assert(c =~= c0.push(b));
        assert forall|x: int| 0 <= x < c0.len() implies (#[trigger] c0[x]).end() <= c0.last().end() by {
            if x < c0.len() - 1 {
                assert(c0[x].end() <= c0[c0.len() - 1].addr);
            }
        }
        assert forall|x: int, y: int| 0 <= x < y < c.len() implies (#[trigger] c[x]).end() < (#[trigger] c[y]).addr by {
            if y == c.len() - 1 {
                assert(c[x] == c0[x]);
                if x < c0.len() - 1 {
                    assert(c0[x].end() < c0[c0.len() - 1].addr);
                }
            } else {
                assert(c0[x].end() < c0[y].addr);
            }
        }
        assert forall|x: int, y: int| 0 <= x < y < c.len() implies (#[trigger] c[x]).end() <= (#[trigger] c[y]).addr by {
            assert(c[x].end() < c[y].addr);
        }
        assert forall|j: int| 0 <= j < c.len() implies {
            &&& lo <= (#[trigger] c[j]).addr
            &&& c[j].end() <= hi
            &&& c[j].size >= FREE_BLOCK_SIZE
        } by {
            if j < c0.len() {
                assert(c[j] == c0[j]);
            }
        }
        assert(c.drop_last() =~= c0);
        assert(covered(c) =~= covered(s));
    }
}

/// Cuts an allocation of `size` bytes aligned to `align` out of the first
/// block that can hold it, and returns its aligned start address; returns
/// `None`, leaving the list as it was, when no block can hold it.
pub fn take_first_fit(blocks: &mut Vec<FreeBlock>, size: usize, align: usize) -> (r: Option<usize>)
    requires
        align > 0,
        forall|i: int| 0 <= i < old(blocks)@.len() ==> (#[trigger] old(blocks)@[i]).end() <= usize::MAX,
    ensures
        match r {
            Some(addr) => cut_first_fit(old(blocks)@, final(blocks)@, addr as int, size as int, align as int),
            None => {
                &&& fits_nowhere(old(blocks)@, size as int, align as int)
                &&& final(blocks)@ == old(blocks)@
            },
        },
{
    let ghost s = blocks@;
    let mut i: usize = 0;
    while i < blocks.len()
        invariant
            align > 0,
            blocks@ == s,
            s == old(blocks)@,
            i <= s.len(),
            forall|k: int| 0 <= k < s.len() ==> (#[trigger] s[k]).end() <= usize::MAX,
            forall|j: int| 0 <= j < i ==> !fits(#[trigger] s[j], size as int, align as int),
        decreases s.len() - i,
    {
        let b = blocks[i];
        let offset = (align - b.addr % align) % align;
        assert(offset == align_offset(b.addr as int, align as int));
        let block_end = b.addr + b.size;
        if let Some(aligned) = b.addr.checked_add(offset) {
            if let Some(alloc_end) = aligned.checked_add(size) {
                if alloc_end <= block_end {
                    let remaining = block_end - alloc_end;
                    if remaining >= FREE_BLOCK_SIZE {
                        blocks.set(i, FreeBlock { addr: alloc_end, size: remaining });
                    } else {
                        blocks.remove(i);
                    }
                    assert(is_first_fit(s, i as int, size as int, align as int));
                    assert(aligned == aligned_start(s[i as int], align as int));
                    assert(blocks@ =~= carve(s, i as int, size as int, align as int));
                    return Some(aligned);
                }
            }
        }
        i = i + 1;
    }
    None
}

/// Puts `b` into the list in front of the first block whose address is not
/// below its own.
pub fn insert_by_address(blocks: &mut Vec<FreeBlock>, b: FreeBlock)
    ensures
        exists|k: int|
            is_insertion_point(old(blocks)@, b.addr as int, k) && final(blocks)@ == old(blocks)@.insert(k, b),
{
    let ghost s = blocks@;
    let mut k: usize = 0;
    while k < blocks.len() && blocks[k].addr < b.addr
        invariant
            blocks@ == s,
            k <= s.len(),
            forall|j: int| 0 <= j < k ==> (#[trigger] s[j]).addr < b.addr,
        decreases s.len() - k,
    {
        k = k + 1;
    }
    blocks.insert(k, b);
    assert(is_insertion_point(s, b.addr as int, k as int));
}

/// Merges every run of touching neighbours into a single block.
pub fn coalesce(blocks: &mut Vec<FreeBlock>)
    requires
        forall|i: int| 0 <= i < old(blocks)@.len() ==> (#[trigger] old(blocks)@[i]).end() <= usize::MAX,
    ensures
        final(blocks)@ == coalesced(old(blocks)@),
{
    let ghost s = blocks@;
    let mut out: Vec<FreeBlock> = Vec::new();
    let mut i: usize = 0;
    assert(s.subrange(0, 0) =~= Seq::<FreeBlock>::empty());
    while i < blocks.len()
        invariant
            blocks@ == s,
            i <= s.len(),
            forall|k: int| 0 <= k < s.len() ==> (#[trigger] s[k]).end() <= usize::MAX,
            out@ == coalesced(s.subrange(0, i as int)),
            forall|k: int| 0 <= k < out@.len() ==> (#[trigger] out@[k]).end() <= usize::MAX,
        decreases s.len() - i,
    {
        let b = blocks[i];
        let n = out.len();
        assert(s.subrange(0, i + 1).drop_last() =~= s.subrange(0, i as int));
        assert(s.subrange(0, i + 1).last() == b);
        if n > 0 && out[n - 1].addr + out[n - 1].size == b.addr {
            let last = out[n - 1];
            out.set(n - 1, FreeBlock { addr: last.addr, size: last.size + b.size });
            assert(out@ =~= merge_into(coalesced(s.subrange(0, i as int)), b));
        } else {
            out.push(b);
            assert(out@ =~= merge_into(coalesced(s.subrange(0, i as int)), b));
        }
        i = i + 1;
    }
    assert(s.subrange(0, s.len() as int) =~= s);
    *blocks = out;
}

} // verus!
