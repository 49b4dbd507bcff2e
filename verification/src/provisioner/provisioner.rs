//! The provisioner: it keeps, for every LUN of every channel, which erase
//! blocks are free, in use, or partly written, and hands out blocks and
//! pages round-robin over the channels and LUNs.

use vstd::prelude::*;
use vstd::arithmetic::div_mod::{lemma_small_mod, lemma_mod_add_multiples_vanish};
use vstd::seq_lib::lemma_multiset_commutative;
use std::collections::VecDeque;
use crate::bbt::bbt::{BadBlockStatus, BadBlockTable, StatusTable, addr_in_table, status_at};
use crate::media_manager::media_manager::Geometry;
use crate::shared::addresses::{PhysicalBlockAddress, PhysicalPageAddress};

verus! {

/// A page handed out: its number in its block, and the block's plane and number.
#[derive(Clone, Copy, Debug, PartialEq, Eq, Structural)]
pub struct Page {
    pub id: usize,
    pub plane_id: usize,
    pub block_id: usize,
}

/// An erase block of a LUN: its number and its plane.
#[derive(Clone, Copy, Debug, PartialEq, Eq, Structural)]
pub struct Block {
    pub id: usize,
    pub plane_id: usize,
}

/// A block whose pages are being handed out, and how many already were.
#[derive(Clone, Copy, Debug, PartialEq, Eq, Structural)]
pub struct BlockWithPageInfo {
    pub id: usize,
    pub plane_id: usize,
    pub pages_reserved: u16,
}

/// Why nothing could be handed out.
#[derive(Clone, Copy, Debug, PartialEq, Eq, Structural)]
pub enum ProvisionError {
    AlreadyInit,
    NoFreeBlock,
    NoFreePage,
}

/// The state of one LUN, as sequences.
pub struct LunView {
    pub free: Seq<Block>,
    pub used: Seq<Block>,
    pub partially_used: Seq<BlockWithPageInfo>,
    pub pages_per_block: u16,
    pub blocks_per_lun: u16,
}

/// The state of one channel: its LUNs, and the LUN picked last.
pub struct ChannelView {
    pub luns: Seq<LunView>,
    pub last_picked_lun: int,
}

/// The state of the provisioner: its channels, and the channel picked last.
pub struct ProvisionerView {
    pub channels: Seq<ChannelView>,
    pub last_picked_channel: int,
}

/// The blocks of one LUN. The free list holds only blocks fit for writing
/// (neither bad nor reserved).
pub struct Lun {
    pub free: VecDeque<Block>,
    pub used: VecDeque<Block>,
    pub partially_used: VecDeque<BlockWithPageInfo>,
    pages_per_block: u16,
    blocks_per_lun: u16,
}

/// The LUNs of one channel.
pub struct Channel {
    pub luns: Vec<Lun>,
    last_picked_lun: usize,
}

/// The free, used and partly written blocks of the whole media.
pub struct Provisioner {
    pub channels: Vec<Channel>,
    last_picked_channel: usize,
}

impl View for Lun {
    type V = LunView;

    closed spec fn view(&self) -> LunView {
        LunView {
            free: self.free@,
            used: self.used@,
            partially_used: self.partially_used@,
            pages_per_block: self.pages_per_block,
            blocks_per_lun: self.blocks_per_lun,
        }
    }
}

impl View for Channel {
    type V = ChannelView;

    closed spec fn view(&self) -> ChannelView {
        ChannelView { luns: self.luns@.map_values(|l: Lun| l@), last_picked_lun: self.last_picked_lun as int }
    }
}

impl View for Provisioner {
    type V = ProvisionerView;

    closed spec fn view(&self) -> ProvisionerView {
        ProvisionerView {
            channels: self.channels@.map_values(|c: Channel| c@),
            last_picked_channel: self.last_picked_channel as int,
        }
    }
}

/// A LUN is well formed when every partly written block still has a page
/// left to hand out.
pub open spec fn lun_wf(l: LunView) -> bool {
    forall|i: int| 0 <= i < l.partially_used.len() ==> (#[trigger] l.partially_used[i]).pages_reserved < l.pages_per_block
}

/// What handing out a block does to a LUN: the first free block moves to
/// the back of the used blocks.
pub open spec fn lun_provision_block(l: LunView) -> (LunView, Result<Block, ProvisionError>) {
    if l.free.len() == 0 {
        (l, Err(ProvisionError::NoFreeBlock))
    } else {
        (LunView { free: l.free.drop_first(), used: l.used.push(l.free[0]), ..l }, Ok(l.free[0]))
    }
}

/// What handing out a page does to a LUN. Pages come from the first partly
/// written block, taking the first free block when there is none; the page
/// is the next one of that block, and a block whose last page goes out
/// moves to the used blocks.
pub open spec fn lun_provision_page(l: LunView) -> (LunView, Result<Page, ProvisionError>) {
    if l.partially_used.len() == 0 && l.free.len() == 0 {
        (l, Err(ProvisionError::NoFreePage))
    } else {
        let (free, pu) = if l.partially_used.len() == 0 {
            (l.free.drop_first(), seq![BlockWithPageInfo { id: l.free[0].id, plane_id: l.free[0].plane_id, pages_reserved: 0 }])
        } else {
            (l.free, l.partially_used)
        };
        let b = pu[0];
        let page = Page { id: b.pages_reserved as usize, plane_id: b.plane_id, block_id: b.id };
        if b.pages_reserved + 1 == l.pages_per_block {
            (
                LunView { free, partially_used: pu.drop_first(), used: l.used.push(Block { id: b.id, plane_id: b.plane_id }), ..l },
                Ok(page),
            )
        } else {
            (
                LunView { free, partially_used: pu.update(0, BlockWithPageInfo { pages_reserved: (b.pages_reserved + 1) as u16, ..b }), ..l },
                Ok(page),
            )
        }
    }
}

/// A LUN whose every block, numbered from 0 in plane 0, has been put at
/// the back of its free blocks.
pub open spec fn lun_all_free(l: LunView) -> LunView {
    LunView {
        free: l.free + Seq::new(l.blocks_per_lun as nat, |i: int| Block { id: i as usize, plane_id: 0 }),
        ..l
    }
}

/// The good blocks among the first `n` blocks of plane `p` of LUN `l` of
/// channel `c`, in block order.
pub open spec fn good_blocks_in_plane(t: StatusTable, c: int, l: int, p: int, n: nat) -> Seq<Block>
    decreases n,
{
    if n == 0 {
        Seq::empty()
    } else {
        let prev = good_blocks_in_plane(t, c, l, p, (n - 1) as nat);
        if t[c][l][p][n - 1] == BadBlockStatus::Good {
            prev.push(Block { id: (n - 1) as usize, plane_id: p as usize })
        } else {
            prev
        }
    }
}

/// The good blocks among the first `blocks` blocks of each of the first
/// `planes` planes of LUN `l` of channel `c`, plane after plane.
pub open spec fn good_blocks(t: StatusTable, c: int, l: int, planes: nat, blocks: nat) -> Seq<Block>
    decreases planes,
{
    if planes == 0 {
        Seq::empty()
    } else {
        good_blocks(t, c, l, (planes - 1) as nat, blocks) + good_blocks_in_plane(t, c, l, planes - 1, blocks)
    }
}

/// Block `a` comes before block `b`: in an earlier plane, or in the same
/// plane with a lower number.
pub open spec fn block_before(a: Block, b: Block) -> bool {
    a.plane_id < b.plane_id || (a.plane_id == b.plane_id && a.id < b.id)
}

/// The good blocks of a plane are exactly its blocks below `n` that the
/// table marks good, each named by its plane and number.
proof fn lemma_good_blocks_in_plane(t: StatusTable, c: int, l: int, p: int, n: nat)
    requires
        0 <= p <= usize::MAX,
        n <= usize::MAX + 1,
    ensures
        ({
            let g = good_blocks_in_plane(t, c, l, p, n);
            &&& forall|k: int| 0 <= k < g.len() ==> {
                &&& (#[trigger] g[k]).plane_id as int == p
                &&& (g[k].id as int) < n
                &&& t[c][l][p][g[k].id as int] == BadBlockStatus::Good
            }
            &&& forall|b: int| 0 <= b < n && #[trigger] t[c][l][p][b] == BadBlockStatus::Good ==> g.contains(
                Block { id: b as usize, plane_id: p as usize },
            )
            &&& forall|j: int, k: int| 0 <= j < k < g.len() ==> (#[trigger] g[j]).id < (#[trigger] g[k]).id
        }),
    decreases n,
{
    if n > 0 {
        let prev = good_blocks_in_plane(t, c, l, p, (n - 1) as nat);
        lemma_good_blocks_in_plane(t, c, l, p, (n - 1) as nat);
        let g = good_blocks_in_plane(t, c, l, p, n);
        assert forall|b: int| 0 <= b < n && #[trigger] t[c][l][p][b] == BadBlockStatus::Good implies g.contains(
            Block { id: b as usize, plane_id: p as usize },
        ) by {
            if b < n - 1 {
                let k = choose|k: int| 0 <= k < prev.len() && prev[k] == Block { id: b as usize, plane_id: p as usize };
                assert(g[k] == prev[k]);
            } else {
                assert(g[g.len() - 1] == Block { id: b as usize, plane_id: p as usize });
            }
        }
        assert forall|k: int| 0 <= k < g.len() implies {
            &&& (#[trigger] g[k]).plane_id as int == p
            &&& (g[k].id as int) < n
            &&& t[c][l][p][g[k].id as int] == BadBlockStatus::Good
        } by {
            if k < prev.len() {
                assert(g[k] == prev[k]);
            }
        }
        assert forall|j: int, k: int| 0 <= j < k < g.len() implies (#[trigger] g[j]).id < (#[trigger] g[k]).id by {
            assert(g[j] == prev[j]);
            if k < prev.len() {
                assert(g[k] == prev[k]);
            }
        }
    }
}

/// The good blocks of a LUN are exactly its blocks below `blocks` in its
/// planes below `planes` that the table marks good.
proof fn lemma_good_blocks(t: StatusTable, c: int, l: int, planes: nat, blocks: nat)
    requires
        planes <= usize::MAX + 1,
        blocks <= usize::MAX + 1,
    ensures
        ({
            let g = good_blocks(t, c, l, planes, blocks);
            &&& forall|k: int| 0 <= k < g.len() ==> {
                &&& ((#[trigger] g[k]).plane_id as int) < planes
                &&& (g[k].id as int) < blocks
                &&& t[c][l][g[k].plane_id as int][g[k].id as int] == BadBlockStatus::Good
            }
            &&& forall|p: int, b: int|
                0 <= p < planes && 0 <= b < blocks && #[trigger] t[c][l][p][b] == BadBlockStatus::Good ==> g.contains(
                    Block { id: b as usize, plane_id: p as usize },
                )
            &&& forall|j: int, k: int| 0 <= j < k < g.len() ==> block_before(#[trigger] g[j], #[trigger] g[k])
        }),
    decreases planes,
{
    if planes > 0 {
        let prev = good_blocks(t, c, l, (planes - 1) as nat, blocks);
        let last = good_blocks_in_plane(t, c, l, planes - 1, blocks);
        lemma_good_blocks(t, c, l, (planes - 1) as nat, blocks);
        lemma_good_blocks_in_plane(t, c, l, planes - 1, blocks);
        let g = good_blocks(t, c, l, planes, blocks);
        assert(g == prev + last);
        assert forall|k: int| 0 <= k < g.len() implies {
            &&& ((#[trigger] g[k]).plane_id as int) < planes
            &&& (g[k].id as int) < blocks
            &&& t[c][l][g[k].plane_id as int][g[k].id as int] == BadBlockStatus::Good
        } by {
            if k < prev.len() {
                assert(g[k] == prev[k]);
            } else {
                assert(g[k] == last[k - prev.len()]);
            }
        }
        assert forall|p: int, b: int|
            0 <= p < planes && 0 <= b < blocks && #[trigger] t[c][l][p][b] == BadBlockStatus::Good implies g.contains(
                Block { id: b as usize, plane_id: p as usize },
            ) by {
            if p < planes - 1 {
                let k = choose|k: int| 0 <= k < prev.len() && prev[k] == Block { id: b as usize, plane_id: p as usize };
                assert(g[k] == prev[k]);
            } else {
                let k = choose|k: int| 0 <= k < last.len() && last[k] == Block { id: b as usize, plane_id: p as usize };
                assert(g[prev.len() + k] == last[k]);
            }
        }
        assert forall|j: int, k: int| 0 <= j < k < g.len() implies block_before(#[trigger] g[j], #[trigger] g[k]) by {
            if k < prev.len() {
                assert(g[j] == prev[j] && g[k] == prev[k]);
            } else if j < prev.len() {
                assert(g[j] == prev[j] && g[k] == last[k - prev.len()]);
            } else {
                assert(g[j] == last[j - prev.len()] && g[k] == last[k - prev.len()]);
            }
        }
    }
}

/// Law: filling a LUN from the bad block table keeps its free blocks and
/// puts behind them only blocks that the table marks good at this channel
/// and LUN, within the planes and blocks asked for, and every such block,
/// each once, plane by plane in block order; the rest of the LUN is unchanged.
pub proof fn lemma_with_good_blocks(lun: LunView, t: StatusTable, c: int, l: int, planes: nat, blocks: nat)
    requires
        planes <= usize::MAX + 1,
        blocks <= usize::MAX + 1,
    ensures
        ({
            let w = with_good_blocks(lun, t, c, l, planes, blocks);
            let n = lun.free.len() as int;
            &&& w.free.len() >= n
            &&& w.free.subrange(0, n) == lun.free
            &&& w.used == lun.used
            &&& w.partially_used == lun.partially_used
            &&& w.pages_per_block == lun.pages_per_block
            &&& w.blocks_per_lun == lun.blocks_per_lun
            &&& forall|k: int| n <= k < w.free.len() ==> {
                &&& ((#[trigger] w.free[k]).plane_id as int) < planes
                &&& (w.free[k].id as int) < blocks
                &&& t[c][l][w.free[k].plane_id as int][w.free[k].id as int] == BadBlockStatus::Good
            }
            &&& forall|p: int, b: int|
                0 <= p < planes && 0 <= b < blocks && #[trigger] t[c][l][p][b] == BadBlockStatus::Good ==> w.free.subrange(
                    n,
                    w.free.len() as int,
                ).contains(Block { id: b as usize, plane_id: p as usize })
            &&& forall|j: int, k: int| n <= j < k < w.free.len() ==> block_before(#[trigger] w.free[j], #[trigger] w.free[k])
        }),
{
    let w = with_good_blocks(lun, t, c, l, planes, blocks);
    let g = good_blocks(t, c, l, planes, blocks);
    let n = lun.free.len() as int;
    lemma_good_blocks(t, c, l, planes, blocks);
    assert(w.free == lun.free + g);
    assert(w.free.subrange(0, n) =~= lun.free);
    assert(w.free.subrange(n, w.free.len() as int) =~= g);
    assert forall|k: int| n <= k < w.free.len() implies {
        &&& ((#[trigger] w.free[k]).plane_id as int) < planes
        &&& (w.free[k].id as int) < blocks
        &&& t[c][l][w.free[k].plane_id as int][w.free[k].id as int] == BadBlockStatus::Good
    } by {
        assert(w.free[k] == g[k - n]);
    }
    assert forall|j: int, k: int| n <= j < k < w.free.len() implies block_before(#[trigger] w.free[j], #[trigger] w.free[k]) by {
        assert(w.free[j] == g[j - n] && w.free[k] == g[k - n]);
    }
}

/// A LUN with the good blocks of channel `c`, LUN `l` of the table (see
/// `good_blocks`) put at the back of its free blocks.
pub open spec fn with_good_blocks(lun: LunView, t: StatusTable, c: int, l: int, planes: nat, blocks: nat) -> LunView {
    LunView { free: lun.free + good_blocks(t, c, l, planes, blocks), ..lun }
}

/// The table holds every block of the first `planes` planes (of `blocks`
/// blocks) of the first `luns` LUNs of the first `channels` channels.
pub open spec fn table_covers(t: StatusTable, channels: int, luns: int, planes: int, blocks: int) -> bool {
    &&& channels <= t.len()
    &&& forall|c: int| 0 <= c < channels ==> luns <= (#[trigger] t[c]).len()
    &&& forall|c: int, l: int| 0 <= c < channels && 0 <= l < luns ==> planes <= (#[trigger] t[c][l]).len()
    &&& forall|c: int, l: int, p: int|
        0 <= c < channels && 0 <= l < luns && 0 <= p < planes ==> blocks <= (#[trigger] t[c][l][p]).len()
}

/// Blocks per plane when a LUN's `blk_per_lun` blocks are spread over its planes.
pub open spec fn blocks_per_plane(g: Geometry) -> nat {
    if g.n_of_planes == 0 { 0 } else { (g.blk_per_lun / (g.n_of_planes as u16)) as nat }
}

impl Lun {
    /// Puts every block the LUN was made for, numbered from 0 in plane 0,
    /// at the back of its free blocks.
    fn fill_free(&mut self)
        ensures
            final(self)@ == lun_all_free(old(self)@),
    {
        let n = self.blocks_per_lun;
        let mut i: u16 = 0;
        while i < n
            invariant
                n == old(self)@.blocks_per_lun,
                i <= n,
                self@ == (LunView {
                    free: old(self)@.free + Seq::new(i as nat, |k: int| Block { id: k as usize, plane_id: 0 }),
                    ..old(self)@
                }),
            decreases n - i,
        {
            self.free.push_back(Block { id: i as usize, plane_id: 0 });
            i = i + 1;
            assert(self.free@ =~= old(self)@.free + Seq::new(i as nat, |k: int| Block { id: k as usize, plane_id: 0 }));
        }
    }

    /// Puts the good blocks of channel `c`, LUN `l` of the bad block table
    /// at the back of the free blocks: for each of the first `planes`
    /// planes, its first `blocks` blocks that are good.
    fn push_good_blocks(&mut self, bbt: &BadBlockTable, c: u8, l: u8, planes: u8, blocks: u16)
        requires
            bbt.is_initialized(),
            table_covers(bbt.table(), c + 1, l + 1, planes as int, blocks as int),
        ensures
            final(self)@ == with_good_blocks(old(self)@, bbt.table(), c as int, l as int, planes as nat, blocks as nat),
    {
        let ghost t = bbt.table();
        let mut p: u8 = 0;
        while p < planes
            invariant
                bbt.is_initialized(),
                t == bbt.table(),
                table_covers(t, c + 1, l + 1, planes as int, blocks as int),
                p <= planes,
                self@ == (LunView { free: old(self)@.free + good_blocks(t, c as int, l as int, p as nat, blocks as nat), ..old(self)@ }),
            decreases planes - p,
        {
            let ghost at_plane = self@.free;
            let mut b: u16 = 0;
            while b < blocks
                invariant
                    bbt.is_initialized(),
                    t == bbt.table(),
                    table_covers(t, c + 1, l + 1, planes as int, blocks as int),
                    p < planes,
                    b <= blocks,
                    self@ == (LunView { free: at_plane + good_blocks_in_plane(t, c as int, l as int, p as int, b as nat), ..old(self)@ }),
                decreases blocks - b,
            {
                let pba = PhysicalBlockAddress { channel: c as u64, lun: l as u64, plane: p as u64, block: b as u64 };
                assert(t[c as int].len() >= l + 1);
                assert(t[c as int][l as int].len() >= planes);
                assert(t[c as int][l as int][p as int].len() >= blocks);
                assert(addr_in_table(t, pba));
                if let BadBlockStatus::Good = bbt.get_block_status(&pba) {
                    self.free.push_back(Block { id: pba.block as usize, plane_id: pba.plane as usize });
                }
                b = b + 1;
                assert(self.free@ =~= at_plane + good_blocks_in_plane(t, c as int, l as int, p as int, b as nat));
            }
            p = p + 1;
            assert(self.free@ =~= old(self)@.free + good_blocks(t, c as int, l as int, p as nat, blocks as nat));
        }
    }
}

impl Lun {
    /// An empty LUN made for `blocks_per_lun` blocks of `pages_per_block` pages.
    pub fn new(blocks_per_lun: u16, pages_per_block: u16) -> (l: Lun)
        ensures
            l@ == (LunView {
                free: Seq::empty(),
                used: Seq::empty(),
                partially_used: Seq::empty(),
                pages_per_block,
                blocks_per_lun,
            }),
    {
        Lun {
            free: VecDeque::with_capacity(blocks_per_lun as usize),
            used: VecDeque::with_capacity(blocks_per_lun as usize),
            partially_used: VecDeque::with_capacity(pages_per_block as usize),
            pages_per_block,
            blocks_per_lun,
        }
    }

    /// Hands out the first free block, which becomes used.
    fn provision_block(&mut self) -> (r: Result<Block, ProvisionError>)
        ensures
            (final(self)@, r) == lun_provision_block(old(self)@),
    {
        let block = match self.free.pop_front() {
            Some(block) => block,
            None => { return Err(ProvisionError::NoFreeBlock); },
        };
        self.used.push_back(block);
        Ok(block)
    }

    /// Hands out the next page of the first partly written block, starting
    /// a fresh block from the free list when none is partly written.
    fn provision_page(&mut self) -> (r: Result<Page, ProvisionError>)
        requires
            lun_wf(old(self)@),
            has_free_page(old(self)@) ==> old(self)@.pages_per_block > 0,
        ensures
            (final(self)@, r) == lun_provision_page(old(self)@),
            lun_wf(final(self)@),
    {
        let ghost l = self@;
        if self.partially_used.len() == 0 {
            let block = match self.free.pop_front() {
                Some(block) => block,
                None => { return Err(ProvisionError::NoFreePage); },
            };
            self.partially_used.push_back(BlockWithPageInfo { id: block.id, plane_id: block.plane_id, pages_reserved: 0 });
        }
        let mut block = self.partially_used.pop_front().unwrap();
        let page_id = block.pages_reserved;
        block.pages_reserved = page_id + 1;
        let page = Page { id: page_id as usize, plane_id: block.plane_id, block_id: block.id };
        if page_id == self.pages_per_block - 1 {
            self.used.push_back(Block { id: page.block_id, plane_id: page.plane_id });
        } else {
            self.partially_used.push_front(block);
        }
        proof {
            let (free, pu) = if l.partially_used.len() == 0 {
                (l.free.drop_first(), seq![BlockWithPageInfo { id: l.free[0].id, plane_id: l.free[0].plane_id, pages_reserved: 0 }])
            } else {
                (l.free, l.partially_used)
            };
            assert(self.free@ == free);
            if page_id + 1 != l.pages_per_block {
                assert(self.partially_used@ =~= pu.update(0, BlockWithPageInfo { pages_reserved: (page_id + 1) as u16, ..pu[0] }));
            } else {
                assert(self.partially_used@ =~= pu.drop_first());
            }
        }
        Ok(page)
    }
}

/// The LUN `l` of channel `c`.
pub open spec fn lun_at(v: ProvisionerView, c: int, l: int) -> LunView {
    v.channels[c].luns[l]
}

/// The provisioner is well formed: at most 255 channels of at most 255
/// LUNs (the geometry counts them in bytes), the last picks point at a
/// channel and a LUN that exist, and every LUN is well formed.
pub open spec fn prov_wf(v: ProvisionerView) -> bool {
    &&& v.channels.len() <= 255
    &&& 0 <= v.last_picked_channel
    &&& v.channels.len() > 0 ==> v.last_picked_channel < v.channels.len()
    &&& forall|c: int|
        0 <= c < v.channels.len() ==> {
            &&& (#[trigger] v.channels[c]).luns.len() <= 255
            &&& 0 <= v.channels[c].last_picked_lun
            &&& v.channels[c].luns.len() > 0 ==> v.channels[c].last_picked_lun < v.channels[c].luns.len()
        }
    &&& forall|c: int, l: int|
        0 <= c < v.channels.len() && 0 <= l < v.channels[c].luns.len() ==> lun_wf(#[trigger] lun_at(v, c, l))
}

/// The channel visited `ci`-th by a round-robin search: the search starts
/// at the channel picked last.
pub open spec fn rr_channel(v: ProvisionerView, ci: int) -> int {
    (v.last_picked_channel + ci) % (v.channels.len() as int)
}

/// The LUN of channel `c` visited `li`-th: the search starts at the LUN of
/// that channel picked last.
pub open spec fn rr_lun(v: ProvisionerView, c: int, li: int) -> int {
    (v.channels[c].last_picked_lun + li) % (v.channels[c].luns.len() as int)
}

/// The LUN visited at step `(ci, li)` of a round-robin search.
pub open spec fn rr_slot(v: ProvisionerView, ci: int, li: int) -> LunView {
    lun_at(v, rr_channel(v, ci), rr_lun(v, rr_channel(v, ci), li))
}

/// `(ci, li)` is a step of the round-robin search.
pub open spec fn rr_step(v: ProvisionerView, ci: int, li: int) -> bool {
    0 <= ci < v.channels.len() && 0 <= li < v.channels[rr_channel(v, ci)].luns.len()
}

/// A LUN with a free block.
pub open spec fn has_free_block(l: LunView) -> bool {
    l.free.len() > 0
}

/// A LUN that can hand out a page.
pub open spec fn has_free_page(l: LunView) -> bool {
    l.partially_used.len() > 0 || l.free.len() > 0
}

/// No step of the search before `(ci, li)` reaches a LUN with a free block.
pub open spec fn no_free_block_before(v: ProvisionerView, ci: int, li: int) -> bool {
    forall|ci2: int, li2: int|
        rr_step(v, ci2, li2) && (ci2 < ci || (ci2 == ci && li2 < li)) ==> !has_free_block(#[trigger] rr_slot(v, ci2, li2))
}

/// No step of the search before `(ci, li)` reaches a LUN that can give a page.
pub open spec fn no_free_page_before(v: ProvisionerView, ci: int, li: int) -> bool {
    forall|ci2: int, li2: int|
        rr_step(v, ci2, li2) && (ci2 < ci || (ci2 == ci && li2 < li)) ==> !has_free_page(#[trigger] rr_slot(v, ci2, li2))
}

/// The provisioner with LUN `l` of channel `c` replaced by `nl`.
pub open spec fn with_lun(v: ProvisionerView, c: int, l: int, nl: LunView) -> ProvisionerView {
    ProvisionerView {
        channels: v.channels.update(c, ChannelView { luns: v.channels[c].luns.update(l, nl), ..v.channels[c] }),
        ..v
    }
}

/// The provisioner with channel `c` and its LUN `l` recorded as picked last.
pub open spec fn with_picks(v: ProvisionerView, c: int, l: int) -> ProvisionerView {
    ProvisionerView {
        channels: v.channels.update(c, ChannelView { last_picked_lun: l, ..v.channels[c] }),
        last_picked_channel: c,
    }
}

/// Handing out a block from the LUN found at step `(ci, li)`: the state
/// afterwards and the block's address. The search remembers where it found it.
pub open spec fn block_from(v: ProvisionerView, ci: int, li: int) -> (ProvisionerView, PhysicalBlockAddress) {
    let c = rr_channel(v, ci);
    let l = rr_lun(v, c, li);
    let (nl, r) = lun_provision_block(lun_at(v, c, l));
    let b = r->Ok_0;
    (
        with_picks(with_lun(v, c, l, nl), c, l),
        PhysicalBlockAddress { channel: c as u64, lun: l as u64, plane: b.plane_id as u64, block: b.id as u64 },
    )
}

/// `after` and `pba` are what handing out a block from `v` gives: the block
/// comes from the first LUN with a free block in round-robin order.
pub open spec fn block_provisioned(v: ProvisionerView, after: ProvisionerView, pba: PhysicalBlockAddress) -> bool {
    exists|ci: int, li: int| {
        &&& rr_step(v, ci, li)
        &&& has_free_block(#[trigger] rr_slot(v, ci, li))
        &&& no_free_block_before(v, ci, li)
        &&& (after, pba) == block_from(v, ci, li)
    }
}

/// Handing out a page from the LUN found at step `(ci, li)`: the state
/// afterwards and the page's address. Where it was found is not remembered.
pub open spec fn page_from(v: ProvisionerView, ci: int, li: int) -> (ProvisionerView, PhysicalPageAddress) {
    let c = rr_channel(v, ci);
    let l = rr_lun(v, c, li);
    let (nl, r) = lun_provision_page(lun_at(v, c, l));
    let p = r->Ok_0;
    (
        with_lun(v, c, l, nl),
        PhysicalPageAddress {
            channel: c as u64,
            lun: l as u64,
            plane: p.plane_id as u64,
            block: p.block_id as u64,
            page: p.id as u64,
        },
    )
}

/// `after` and `ppa` are what handing out a page from `v` gives: the page
/// comes from the first LUN in round-robin order that can give one.
pub open spec fn page_provisioned(v: ProvisionerView, after: ProvisionerView, ppa: PhysicalPageAddress) -> bool {
    exists|ci: int, li: int| {
        &&& rr_step(v, ci, li)
        &&& has_free_page(#[trigger] rr_slot(v, ci, li))
        &&& no_free_page_before(v, ci, li)
        &&& (after, ppa) == page_from(v, ci, li)
    }
}

impl Provisioner {
    /// A provisioner for the geometry `geometry`: `n_of_ch` channels of
    /// `lun_per_ch` empty LUNs, each made for `blk_per_lun` blocks of
    /// `pg_per_blk` pages; the round-robin search starts at channel 0, LUN 0.
    pub fn new(geometry: &Geometry) -> (p: Self)
        ensures
            prov_wf(p@),
            p@.last_picked_channel == 0,
            p@.channels.len() == geometry.n_of_ch,
            forall|c: int| 0 <= c < geometry.n_of_ch ==> {
                &&& (#[trigger] p@.channels[c]).luns.len() == geometry.lun_per_ch
                &&& p@.channels[c].last_picked_lun == 0
            },
            forall|c: int, l: int| 0 <= c < geometry.n_of_ch && 0 <= l < geometry.lun_per_ch ==>
                #[trigger] lun_at(p@, c, l) == (LunView {
                    free: Seq::empty(),
                    used: Seq::empty(),
                    partially_used: Seq::empty(),
                    pages_per_block: geometry.pg_per_blk,
                    blocks_per_lun: geometry.blk_per_lun,
                }),
    {
        let ghost empty = LunView {
            free: Seq::empty(),
            used: Seq::empty(),
            partially_used: Seq::empty(),
            pages_per_block: geometry.pg_per_blk,
            blocks_per_lun: geometry.blk_per_lun,
        };
        let mut channels: Vec<Channel> = Vec::with_capacity(geometry.n_of_ch as usize);
        let mut c: u8 = 0;
        while c < geometry.n_of_ch
            invariant
                c <= geometry.n_of_ch,
                channels@.len() == c,
                empty == (LunView {
                    free: Seq::empty(),
                    used: Seq::empty(),
                    partially_used: Seq::empty(),
                    pages_per_block: geometry.pg_per_blk,
                    blocks_per_lun: geometry.blk_per_lun,
                }),
                forall|k: int| 0 <= k < c ==> {
                    &&& (#[trigger] channels@[k]).luns@.len() == geometry.lun_per_ch
                    &&& channels@[k].last_picked_lun == 0
                    &&& forall|l: int| 0 <= l < geometry.lun_per_ch ==> (#[trigger] channels@[k].luns@[l])@ == empty
                },
            decreases geometry.n_of_ch - c,
        {
            let mut luns: Vec<Lun> = Vec::with_capacity(geometry.lun_per_ch as usize);
            let mut l: u8 = 0;
            while l < geometry.lun_per_ch
                invariant
                    l <= geometry.lun_per_ch,
                    luns@.len() == l,
                    empty == (LunView {
                    free: Seq::empty(),
                    used: Seq::empty(),
                    partially_used: Seq::empty(),
                    pages_per_block: geometry.pg_per_blk,
                    blocks_per_lun: geometry.blk_per_lun,
                }),
                    forall|k: int| 0 <= k < l ==> (#[trigger] luns@[k])@ == empty,
                decreases geometry.lun_per_ch - l,
            {
                luns.push(Lun::new(geometry.blk_per_lun, geometry.pg_per_blk));
                l = l + 1;
            }
            channels.push(Channel { luns, last_picked_lun: 0 });
            c = c + 1;
        }
        let p = Provisioner { channels, last_picked_channel: 0 };
        assert forall|c: int, l: int| 0 <= c < geometry.n_of_ch && 0 <= l < geometry.lun_per_ch implies
            #[trigger] lun_at(p@, c, l) == empty by {
            assert(p@.channels[c] == p.channels@[c]@);
            assert(p@.channels[c].luns[l] == p.channels@[c].luns@[l]@);
        }
        assert forall|c: int, l: int| 0 <= c < p@.channels.len() && 0 <= l < p@.channels[c].luns.len() implies
            lun_wf(#[trigger] lun_at(p@, c, l)) by {
            assert(p@.channels[c] == p.channels@[c]@);
            assert(p@.channels[c].luns[l] == p.channels@[c].luns@[l]@);
        }
        p
    }
}

/// Law: the round-robin search reaches every LUN of every channel, from
/// whatever channel and LUN it starts.
pub proof fn lemma_rr_covers(v: ProvisionerView, c: int, l: int)
    requires
        prov_wf(v),
        0 <= c < v.channels.len(),
        0 <= l < v.channels[c].luns.len(),
    ensures
        exists|ci: int, li: int| rr_step(v, ci, li) && #[trigger] rr_channel(v, ci) == c && #[trigger] rr_lun(v, c, li) == l,
{
    let n = v.channels.len() as int;
    let start = v.last_picked_channel;
    let ci = if c >= start { c - start } else { c - start + n };
    if c >= start {
        lemma_small_mod(c as nat, n as nat);
    } else {
        lemma_small_mod(c as nat, n as nat);
        lemma_mod_add_multiples_vanish(c, n);
    }
    assert(rr_channel(v, ci) == c);
    let nl = v.channels[c].luns.len() as int;
    let first = v.channels[c].last_picked_lun;
    let li = if l >= first { l - first } else { l - first + nl };
    if l >= first {
        lemma_small_mod(l as nat, nl as nat);
    } else {
        lemma_small_mod(l as nat, nl as nat);
        lemma_mod_add_multiples_vanish(l, nl);
    }
    assert(rr_lun(v, c, li) == l);
    assert(rr_step(v, ci, li));
}

/// Law: when no block can be handed out, no LUN has a free block.
pub proof fn lemma_no_free_block_anywhere(v: ProvisionerView, c: int, l: int)
    requires
        prov_wf(v),
        no_free_block_before(v, v.channels.len() as int, 0),
        0 <= c < v.channels.len(),
        0 <= l < v.channels[c].luns.len(),
    ensures
        !has_free_block(lun_at(v, c, l)),
{
    lemma_rr_covers(v, c, l);
    let (ci, li) = choose|ci: int, li: int| rr_step(v, ci, li) && #[trigger] rr_channel(v, ci) == c && #[trigger] rr_lun(v, c, li) == l;
    assert(!has_free_block(rr_slot(v, ci, li)));
}

/// Law: when no page can be handed out, no LUN has a free or partly
/// written block.
pub proof fn lemma_no_free_page_anywhere(v: ProvisionerView, c: int, l: int)
    requires
        prov_wf(v),
        no_free_page_before(v, v.channels.len() as int, 0),
        0 <= c < v.channels.len(),
        0 <= l < v.channels[c].luns.len(),
    ensures
        !has_free_page(lun_at(v, c, l)),
{
    lemma_rr_covers(v, c, l);
    let (ci, li) = choose|ci: int, li: int| rr_step(v, ci, li) && #[trigger] rr_channel(v, ci) == c && #[trigger] rr_lun(v, c, li) == l;
    assert(!has_free_page(rr_slot(v, ci, li)));
}

/// Law: handing out a block neither makes nor loses a block: the free and
/// used blocks of the LUN together stay the same.
pub proof fn lemma_block_conserved(l: LunView)
    ensures
        ({
            let nl = lun_provision_block(l).0;
            (nl.free + nl.used).to_multiset() == (l.free + l.used).to_multiset()
        }),
{
    broadcast use vstd::seq_lib::group_to_multiset_ensures;

    let nl = lun_provision_block(l).0;
    if l.free.len() > 0 {
        lemma_multiset_commutative(nl.free, nl.used);
        lemma_multiset_commutative(l.free, l.used);
        assert(l.free =~= seq![l.free[0]] + l.free.drop_first());
        lemma_multiset_commutative(seq![l.free[0]], l.free.drop_first());
        assert((nl.free + nl.used).to_multiset() =~= (l.free + l.used).to_multiset());
    }
}

/// Law: pages of a block go out one after the other: two pages handed out
/// in a row from a LUN whose first partly written block has at least two
/// pages left are consecutive pages of that block.
pub proof fn lemma_pages_in_order(l: LunView)
    requires
        lun_wf(l),
        l.partially_used.len() > 0,
        l.partially_used[0].pages_reserved + 2 <= l.pages_per_block,
    ensures
        ({
            let (l1, r1) = lun_provision_page(l);
            let (l2, r2) = lun_provision_page(l1);
            &&& r1 is Ok && r2 is Ok
            &&& r2->Ok_0.block_id == r1->Ok_0.block_id
            &&& r2->Ok_0.plane_id == r1->Ok_0.plane_id
            &&& r2->Ok_0.id == r1->Ok_0.id + 1
        }),
{
}

/// Page `page` of block `block` in plane `plane` can still be handed out
/// by LUN `l`: the block is free, or it is partly written and the page is
/// not handed out yet; either way the page lies in the block.
pub open spec fn page_avail(l: LunView, plane: int, block: int, page: int) -> bool {
    ||| (exists|j: int| 0 <= j < l.free.len() && #[trigger] l.free[j].plane_id == plane && l.free[j].id == block)
        && 0 <= page < l.pages_per_block
    ||| exists|j: int|
        0 <= j < l.partially_used.len() && #[trigger] l.partially_used[j].plane_id == plane
            && l.partially_used[j].id == block && l.partially_used[j].pages_reserved <= page < l.pages_per_block
}

/// No block appears twice among the free and partly written blocks of `l`.
pub open spec fn lun_blocks_distinct(l: LunView) -> bool {
    &&& forall|i: int, j: int|
        0 <= i < j < l.free.len() ==> !((#[trigger] l.free[i]).plane_id == (#[trigger] l.free[j]).plane_id
            && l.free[i].id == l.free[j].id)
    &&& forall|i: int, j: int|
        0 <= i < j < l.partially_used.len() ==> !((#[trigger] l.partially_used[i]).plane_id
            == (#[trigger] l.partially_used[j]).plane_id && l.partially_used[i].id == l.partially_used[j].id)
    &&& forall|i: int, j: int|
        0 <= i < l.free.len() && 0 <= j < l.partially_used.len() ==> !((#[trigger] l.free[i]).plane_id
            == (#[trigger] l.partially_used[j]).plane_id && l.free[i].id == l.partially_used[j].id)
}

/// Law: a LUN whose free and partly written blocks are distinct hands out
/// a page that it still had, and afterwards has every such page but that
/// one; its blocks stay distinct. So a run of pages from one LUN never
/// repeats a page, and every page lies below the LUN's page count in a
/// block that was free or partly written when the run began.
pub proof fn lemma_page_taken(l: LunView)
    requires
        lun_wf(l),
        lun_blocks_distinct(l),
        has_free_page(l),
        l.pages_per_block > 0,
    ensures
        ({
            let (nl, r) = lun_provision_page(l);
            let p = r->Ok_0;
            &&& r is Ok
            &&& p.id < l.pages_per_block
            &&& page_avail(l, p.plane_id as int, p.block_id as int, p.id as int)
            &&& lun_wf(nl)
            &&& lun_blocks_distinct(nl)
            &&& nl.pages_per_block == l.pages_per_block
            &&& forall|plane: int, block: int, page: int| #[trigger] page_avail(nl, plane, block, page) <==> (
                page_avail(l, plane, block, page)
                    && !(plane == p.plane_id as int && block == p.block_id as int && page == p.id as int))
        }),
{
    let (nl, r) = lun_provision_page(l);
    let p = r->Ok_0;
    let f = l.free;
    let q = l.partially_used;
    let ppb = l.pages_per_block as int;
    let pp = p.plane_id as int;
    let pb = p.block_id as int;
    let pg = p.id as int;
    if q.len() > 0 {
        assert(q[0].plane_id == pp && q[0].id == pb && pg == q[0].pages_reserved);
    } else {
        assert(f[0].plane_id == pp && f[0].id == pb && pg == 0);
    }
    assert(page_avail(l, pp, pb, pg));
    assert forall|plane: int, block: int, page: int| #[trigger] page_avail(nl, plane, block, page) implies (
        page_avail(l, plane, block, page) && !(plane == pp && block == pb && page == pg)) by {
        if exists|j: int| 0 <= j < nl.free.len() && #[trigger] nl.free[j].plane_id == plane && nl.free[j].id == block {
            let j = choose|j: int| 0 <= j < nl.free.len() && #[trigger] nl.free[j].plane_id == plane && nl.free[j].id == block;
            if q.len() > 0 {
                assert(nl.free[j] == f[j]);
                assert(f[j].plane_id == plane);
                assert(!(f[j].plane_id == q[0].plane_id && f[j].id == q[0].id));
            } else {
                assert(nl.free[j] == f[j + 1]);
                assert(f[j + 1].plane_id == plane);
                assert(!(f[0].plane_id == f[j + 1].plane_id && f[0].id == f[j + 1].id));
            }
        } else {
            let j = choose|j: int|
                0 <= j < nl.partially_used.len() && #[trigger] nl.partially_used[j].plane_id == plane
                    && nl.partially_used[j].id == block && nl.partially_used[j].pages_reserved <= page < nl.pages_per_block;
            if q.len() > 0 {
                if q[0].pages_reserved + 1 == l.pages_per_block {
                    assert(nl.partially_used[j] == q[j + 1]);
                    assert(q[j + 1].plane_id == plane);
                    assert(!(q[0].plane_id == q[j + 1].plane_id && q[0].id == q[j + 1].id));
                } else if j == 0 {
                    assert(q[0].plane_id == plane);
                } else {
                    assert(nl.partially_used[j] == q[j]);
                    assert(q[j].plane_id == plane);
                    assert(!(q[0].plane_id == q[j].plane_id && q[0].id == q[j].id));
                }
            } else {
                assert(j == 0);
                assert(f[0].plane_id == plane);
            }
        }
    }
    assert forall|plane: int, block: int, page: int|
        page_avail(l, plane, block, page) && !(plane == pp && block == pb && page == pg) implies
        #[trigger] page_avail(nl, plane, block, page) by {
        if exists|k: int| 0 <= k < f.len() && #[trigger] f[k].plane_id == plane && f[k].id == block && 0 <= page < ppb {
            let k = choose|k: int| 0 <= k < f.len() && #[trigger] f[k].plane_id == plane && f[k].id == block && 0 <= page < ppb;
            if q.len() > 0 {
                assert(nl.free[k] == f[k]);
                assert(nl.free[k].plane_id == plane);
            } else if k == 0 {
                assert(page >= 1);
                assert(nl.partially_used[0].plane_id == plane);
            } else {
                assert(nl.free[k - 1] == f[k]);
                assert(nl.free[k - 1].plane_id == plane);
            }
        } else {
            let k = choose|k: int|
                0 <= k < q.len() && #[trigger] q[k].plane_id == plane && q[k].id == block
                    && q[k].pages_reserved <= page < ppb;
            if q[0].pages_reserved + 1 == l.pages_per_block {
                if k == 0 {
                    assert(false);
                } else {
                    assert(nl.partially_used[k - 1] == q[k]);
                    assert(nl.partially_used[k - 1].plane_id == plane);
                }
            } else if k == 0 {
                assert(nl.partially_used[0].plane_id == plane);
            } else {
                assert(nl.partially_used[k] == q[k]);
                assert(nl.partially_used[k].plane_id == plane);
            }
        }
    }
    if q.len() == 0 {
        assert forall|i: int, j: int|
            0 <= i < nl.free.len() && 0 <= j < nl.partially_used.len() implies !((#[trigger] nl.free[i]).plane_id
                == (#[trigger] nl.partially_used[j]).plane_id && nl.free[i].id == nl.partially_used[j].id) by {
            assert(nl.free[i] == f[i + 1]);
            assert(!(f[0].plane_id == f[i + 1].plane_id && f[0].id == f[i + 1].id));
        }
        assert forall|i: int, j: int|
            0 <= i < j < nl.free.len() implies !((#[trigger] nl.free[i]).plane_id == (#[trigger] nl.free[j]).plane_id
                && nl.free[i].id == nl.free[j].id) by {
            assert(nl.free[i] == f[i + 1] && nl.free[j] == f[j + 1]);
        }
    } else if q[0].pages_reserved + 1 == l.pages_per_block {
        assert forall|i: int, j: int|
            0 <= i < j < nl.partially_used.len() implies !((#[trigger] nl.partially_used[i]).plane_id
                == (#[trigger] nl.partially_used[j]).plane_id && nl.partially_used[i].id == nl.partially_used[j].id) by {
            assert(nl.partially_used[i] == q[i + 1] && nl.partially_used[j] == q[j + 1]);
        }
        assert forall|i: int, j: int|
            0 <= i < nl.free.len() && 0 <= j < nl.partially_used.len() implies !((#[trigger] nl.free[i]).plane_id
                == (#[trigger] nl.partially_used[j]).plane_id && nl.free[i].id == nl.partially_used[j].id) by {
            assert(nl.partially_used[j] == q[j + 1]);
            assert(nl.free[i] == f[i]);
        }
    } else {
        assert forall|i: int, j: int|
            0 <= i < j < nl.partially_used.len() implies !((#[trigger] nl.partially_used[i]).plane_id
                == (#[trigger] nl.partially_used[j]).plane_id && nl.partially_used[i].id == nl.partially_used[j].id) by {
            assert(q[i].plane_id == nl.partially_used[i].plane_id && q[i].id == nl.partially_used[i].id);
            assert(q[j].plane_id == nl.partially_used[j].plane_id && q[j].id == nl.partially_used[j].id);
        }
        assert forall|i: int, j: int|
            0 <= i < nl.free.len() && 0 <= j < nl.partially_used.len() implies !((#[trigger] nl.free[i]).plane_id
                == (#[trigger] nl.partially_used[j]).plane_id && nl.free[i].id == nl.partially_used[j].id) by {
            assert(q[j].plane_id == nl.partially_used[j].plane_id && q[j].id == nl.partially_used[j].id);
            assert(nl.free[i] == f[i]);
        }
    }
}

/// The provisioner can still hand out the page at `x`: its channel and LUN
/// exist, and that LUN can still hand out the page (see `page_avail`).
pub open spec fn prov_page_avail(v: ProvisionerView, x: PhysicalPageAddress) -> bool {
    let c = x.channel as int;
    let l = x.lun as int;
    &&& 0 <= c < v.channels.len()
    &&& 0 <= l < v.channels[c].luns.len()
    &&& page_avail(lun_at(v, c, l), x.plane as int, x.block as int, x.page as int)
}

/// In every LUN, no block appears twice among the free and partly written ones.
pub open spec fn prov_blocks_distinct(v: ProvisionerView) -> bool {
    forall|c: int, l: int|
        0 <= c < v.channels.len() && 0 <= l < v.channels[c].luns.len() ==> lun_blocks_distinct(#[trigger] lun_at(v, c, l))
}

/// Law: a page handed out by the provisioner is one it could still hand
/// out, below its LUN's page count, and afterwards it can hand out every
/// such page but that one; the state stays well formed with distinct
/// blocks. So the pages of any run of calls are pairwise distinct, each in
/// a block that was free or partly written when the run began.
pub proof fn lemma_page_provisioned_taken(v: ProvisionerView, after: ProvisionerView, ppa: PhysicalPageAddress)
    requires
        prov_wf(v),
        blocks_have_pages(v),
        prov_blocks_distinct(v),
        page_provisioned(v, after, ppa),
    ensures
        prov_page_avail(v, ppa),
        ppa.page < lun_at(v, ppa.channel as int, ppa.lun as int).pages_per_block,
        prov_wf(after),
        blocks_have_pages(after),
        prov_blocks_distinct(after),
        forall|x: PhysicalPageAddress| #[trigger] prov_page_avail(after, x) <==> (prov_page_avail(v, x) && x != ppa),
{
    let (ci, li) = choose|ci: int, li: int| {
        &&& rr_step(v, ci, li)
        &&& has_free_page(#[trigger] rr_slot(v, ci, li))
        &&& no_free_page_before(v, ci, li)
        &&& (after, ppa) == page_from(v, ci, li)
    };
    let c = rr_channel(v, ci);
    let l = rr_lun(v, c, li);
    let old_lun = lun_at(v, c, l);
    let (nl, r) = lun_provision_page(old_lun);
    let p = r->Ok_0;
    assert(0 <= c < v.channels.len());
    assert(0 <= l < v.channels[c].luns.len());
    assert(lun_wf(old_lun));
    assert(lun_blocks_distinct(old_lun));
    assert(old_lun.pages_per_block > 0);
    lemma_page_taken(old_lun);
    assert(after == with_lun(v, c, l, nl));
    assert(ppa.channel as int == c && ppa.lun as int == l);
    assert(lun_at(after, c, l) == nl);
    lemma_wf_with_lun(v, c, l, nl);
    lemma_positive_with_lun(v, c, l, nl);
    assert forall|c2: int, l2: int| 0 <= c2 < after.channels.len() && 0 <= l2 < after.channels[c2].luns.len() implies
        lun_blocks_distinct(#[trigger] lun_at(after, c2, l2)) by {
        if c2 != c || l2 != l {
            assert(lun_at(after, c2, l2) == lun_at(v, c2, l2));
        }
    }
    assert forall|x: PhysicalPageAddress| #[trigger] prov_page_avail(after, x) <==> (prov_page_avail(v, x) && x != ppa) by {
        let c2 = x.channel as int;
        let l2 = x.lun as int;
        if c2 != c || l2 != l {
            if 0 <= c2 < v.channels.len() && 0 <= l2 < v.channels[c2].luns.len() {
                assert(lun_at(after, c2, l2) == lun_at(v, c2, l2));
            }
        } else {
            assert(page_avail(nl, x.plane as int, x.block as int, x.page as int) <==> (
                page_avail(old_lun, x.plane as int, x.block as int, x.page as int)
                    && !(x.plane as int == p.plane_id as int && x.block as int == p.block_id as int && x.page as int == p.id as int)));
        }
    }
}

/// Law: two pages handed out one after the other differ.
pub proof fn lemma_pages_distinct(
    v: ProvisionerView,
    a1: ProvisionerView,
    p1: PhysicalPageAddress,
    a2: ProvisionerView,
    p2: PhysicalPageAddress,
)
    requires
        prov_wf(v),
        blocks_have_pages(v),
        prov_blocks_distinct(v),
        page_provisioned(v, a1, p1),
        page_provisioned(a1, a2, p2),
    ensures
        p1 != p2,
{
    lemma_page_provisioned_taken(v, a1, p1);
    lemma_page_provisioned_taken(a1, a2, p2);
    assert(!prov_page_avail(a1, p1));
}

/// `pages` were handed out one after another, going through `states`:
/// call `k` took the provisioner from `states[k]` to `states[k + 1]`.
pub open spec fn page_run(states: Seq<ProvisionerView>, pages: Seq<PhysicalPageAddress>) -> bool {
    &&& states.len() == pages.len() + 1
    &&& forall|k: int| 0 <= k < pages.len() ==> page_provisioned(states[k], states[k + 1], #[trigger] pages[k])
}

/// After `k` calls of a run, the state is well formed with distinct blocks,
/// and the pages it can hand out are those it could at the start, less the
/// pages handed out.
proof fn lemma_page_run_prefix(states: Seq<ProvisionerView>, pages: Seq<PhysicalPageAddress>, k: int)
    requires
        prov_wf(states[0]),
        blocks_have_pages(states[0]),
        prov_blocks_distinct(states[0]),
        page_run(states, pages),
        0 <= k <= pages.len(),
    ensures
        prov_wf(states[k]),
        blocks_have_pages(states[k]),
        prov_blocks_distinct(states[k]),
        forall|x: PhysicalPageAddress| #[trigger] prov_page_avail(states[k], x) <==> (
            prov_page_avail(states[0], x) && forall|j: int| 0 <= j < k ==> x != #[trigger] pages[j]),
    decreases k,
{
    if k > 0 {
        lemma_page_run_prefix(states, pages, k - 1);
        assert(page_provisioned(states[k - 1], states[k], pages[k - 1]));
        lemma_page_provisioned_taken(states[k - 1], states[k], pages[k - 1]);
        assert forall|x: PhysicalPageAddress| #[trigger] prov_page_avail(states[k], x) <==> (
            prov_page_avail(states[0], x) && forall|j: int| 0 <= j < k ==> x != #[trigger] pages[j]) by {
            if prov_page_avail(states[0], x) && forall|j: int| 0 <= j < k - 1 ==> x != #[trigger] pages[j] {
                if x != pages[k - 1] {
                    assert forall|j: int| 0 <= j < k implies x != #[trigger] pages[j] by {
                        if j < k - 1 {
                            assert(x != pages[j]);
                        }
                    }
                }
            }
        }
    }
}

/// Law: the pages of any run of calls are pairwise distinct, and each is a
/// page the provisioner could hand out when the run began: it lies below
/// its LUN's page count, in a block that was then free or partly written.
pub proof fn lemma_page_run(states: Seq<ProvisionerView>, pages: Seq<PhysicalPageAddress>)
    requires
        prov_wf(states[0]),
        blocks_have_pages(states[0]),
        prov_blocks_distinct(states[0]),
        page_run(states, pages),
    ensures
        forall|k: int| 0 <= k < pages.len() ==> #[trigger] prov_page_avail(states[0], pages[k]),
        forall|i: int, j: int| 0 <= i < j < pages.len() ==> #[trigger] pages[i] != #[trigger] pages[j],
{
    assert forall|k: int| 0 <= k < pages.len() implies #[trigger] prov_page_avail(states[0], pages[k])
        && forall|i: int| 0 <= i < k ==> pages[k] != #[trigger] pages[i] by {
        lemma_page_run_prefix(states, pages, k);
        assert(page_provisioned(states[k], states[k + 1], pages[k]));
        lemma_page_provisioned_taken(states[k], states[k + 1], pages[k]);
        assert(prov_page_avail(states[k], pages[k]));
    }
    assert forall|i: int, j: int| 0 <= i < j < pages.len() implies #[trigger] pages[i] != #[trigger] pages[j] by {
        assert(prov_page_avail(states[0], pages[j]));
        assert(pages[j] != pages[i]);
    }
}

/// `w` has the channels, LUNs and last picks of `v`.
pub open spec fn same_shape(v: ProvisionerView, w: ProvisionerView) -> bool {
    &&& w.channels.len() == v.channels.len()
    &&& w.last_picked_channel == v.last_picked_channel
    &&& forall|c: int| 0 <= c < v.channels.len() ==> {
        &&& (#[trigger] w.channels[c]).luns.len() == v.channels[c].luns.len()
        &&& w.channels[c].last_picked_lun == v.channels[c].last_picked_lun
    }
}

/// Every LUN that holds a free or partly written block has blocks of at
/// least one page.
pub open spec fn blocks_have_pages(v: ProvisionerView) -> bool {
    forall|c: int, l: int|
        0 <= c < v.channels.len() && 0 <= l < v.channels[c].luns.len() && has_free_page(#[trigger] lun_at(v, c, l))
            ==> lun_at(v, c, l).pages_per_block > 0
}

/// Replacing a LUN by one whose blocks, if it holds any, have at least one
/// page keeps every LUN so.
proof fn lemma_positive_with_lun(v: ProvisionerView, c: int, l: int, nl: LunView)
    requires
        blocks_have_pages(v),
        0 <= c < v.channels.len(),
        0 <= l < v.channels[c].luns.len(),
        has_free_page(nl) ==> nl.pages_per_block > 0,
    ensures
        blocks_have_pages(with_lun(v, c, l, nl)),
{
    let w = with_lun(v, c, l, nl);
    assert forall|c2: int, l2: int| 0 <= c2 < w.channels.len() && 0 <= l2 < w.channels[c2].luns.len()
        && has_free_page(#[trigger] lun_at(w, c2, l2)) implies lun_at(w, c2, l2).pages_per_block > 0 by {
        if c2 != c || l2 != l {
            assert(lun_at(w, c2, l2) == lun_at(v, c2, l2));
        }
    }
}

/// Replacing a LUN by itself changes nothing.
proof fn lemma_with_lun_same(v: ProvisionerView, c: int, l: int)
    requires
        0 <= c < v.channels.len(),
        0 <= l < v.channels[c].luns.len(),
    ensures
        with_lun(v, c, l, lun_at(v, c, l)) == v,
{
    assert(v.channels[c].luns.update(l, lun_at(v, c, l)) =~= v.channels[c].luns);
    assert(with_lun(v, c, l, lun_at(v, c, l)).channels =~= v.channels);
}

/// Replacing a LUN by a well-formed one, and moving the last picks to
/// existing places, keeps the provisioner well formed.
proof fn lemma_wf_with_lun(v: ProvisionerView, c: int, l: int, nl: LunView)
    requires
        prov_wf(v),
        0 <= c < v.channels.len(),
        0 <= l < v.channels[c].luns.len(),
        lun_wf(nl),
    ensures
        prov_wf(with_lun(v, c, l, nl)),
        prov_wf(with_picks(with_lun(v, c, l, nl), c, l)),
{
    let w = with_lun(v, c, l, nl);
    assert forall|c2: int, l2: int| 0 <= c2 < w.channels.len() && 0 <= l2 < w.channels[c2].luns.len() implies
        lun_wf(#[trigger] lun_at(w, c2, l2)) by {
        if c2 != c || l2 != l {
            assert(lun_at(w, c2, l2) == lun_at(v, c2, l2));
        }
    }
    let x = with_picks(w, c, l);
    assert forall|c2: int, l2: int| 0 <= c2 < x.channels.len() && 0 <= l2 < x.channels[c2].luns.len() implies
        lun_wf(#[trigger] lun_at(x, c2, l2)) by {
        assert(lun_at(x, c2, l2) == lun_at(w, c2, l2));
    }
}

impl Provisioner {
    /// After a change to LUN `l` of channel `c` alone, the view is the old
    /// one with that LUN replaced.
    proof fn lemma_lun_replaced(p1: &Provisioner, p2: &Provisioner, c: int, l: int)
        requires
            0 <= c < p1.channels@.len(),
            0 <= l < p1.channels@[c].luns@.len(),
            p2.channels@ == p1.channels@.update(c, p2.channels@[c]),
            p2.channels@[c].luns@ == p1.channels@[c].luns@.update(l, p2.channels@[c].luns@[l]),
            p2.channels@[c].last_picked_lun == p1.channels@[c].last_picked_lun,
            p2.last_picked_channel == p1.last_picked_channel,
        ensures
            p2@ == with_lun(p1@, c, l, p2.channels@[c].luns@[l]@),
    {
        let w = with_lun(p1@, c, l, p2.channels@[c].luns@[l]@);
        assert(p2@.channels[c].luns =~= w.channels[c].luns);
        assert(p2@.channels =~= w.channels);
    }

    /// Puts the block at `pba` at the back of its LUN's free blocks; the
    /// provisioner must have that channel and LUN.
    pub fn push_free_block(&mut self, pba: &PhysicalBlockAddress)
        requires
            prov_wf(old(self)@),
            (pba.channel as usize) < old(self)@.channels.len(),
            (pba.lun as usize) < old(self)@.channels[pba.channel as usize as int].luns.len(),
        ensures
            prov_wf(final(self)@),
            final(self)@ == with_lun(
                old(self)@,
                pba.channel as usize as int,
                pba.lun as usize as int,
                LunView {
                    free: lun_at(old(self)@, pba.channel as usize as int, pba.lun as usize as int).free.push(
                        Block { id: pba.block as usize, plane_id: pba.plane as usize },
                    ),
                    ..lun_at(old(self)@, pba.channel as usize as int, pba.lun as usize as int)
                },
            ),
    {
        let c = pba.channel as usize;
        let l = pba.lun as usize;
        assert(self.channels@[c as int]@ == self@.channels[c as int]);
        assert(self.channels@[c as int].luns@[l as int]@ == lun_at(self@, c as int, l as int));
        self.channels[c].luns[l].free.push_back(Block { id: pba.block as usize, plane_id: pba.plane as usize });
        proof {
            Self::lemma_lun_replaced(old(self), self, c as int, l as int);
            assert(lun_wf(lun_at(old(self)@, c as int, l as int)));
            assert(self.channels@[c as int].luns@[l as int]@.partially_used == lun_at(old(self)@, c as int, l as int).partially_used);
            lemma_wf_with_lun(old(self)@, c as int, l as int, self.channels@[c as int].luns@[l as int]@);
        }
    }

    /// Hands out a block: the first free block of the first LUN that has
    /// one, searching the channels round-robin from the channel picked last,
    /// and within a channel its LUNs round-robin from its LUN picked last.
    /// The block becomes used, and the search remembers where it found it.
    pub fn provision_block(&mut self) -> (r: Result<PhysicalBlockAddress, ProvisionError>)
        requires
            prov_wf(old(self)@),
        ensures
            prov_wf(final(self)@),
            match r {
                Ok(pba) => block_provisioned(old(self)@, final(self)@, pba),
                Err(e) => {
                    &&& e == ProvisionError::NoFreeBlock
                    &&& no_free_block_before(old(self)@, old(self)@.channels.len() as int, 0)
                    &&& final(self)@ == old(self)@
                },
            },
    {
        let ghost v = self@;
        let n = self.channels.len();
        let mut ci: usize = 0;
        while ci < n
            invariant
                self@ == v,
                v == old(self)@,
                prov_wf(v),
                n == v.channels.len(),
                ci <= n,
                no_free_block_before(v, ci as int, 0),
            decreases n - ci,
        {
            let ch_idx = (self.last_picked_channel + ci) % n;
            assert(ch_idx == rr_channel(v, ci as int));
            assert(self.channels@[ch_idx as int]@ == v.channels[ch_idx as int]);
            let nl = self.channels[ch_idx].luns.len();
            let mut li: usize = 0;
            while li < nl
                invariant
                    self@ == v,
                    v == old(self)@,
                    prov_wf(v),
                    n == v.channels.len(),
                    ci < n,
                    ch_idx == rr_channel(v, ci as int),
                    nl == v.channels[ch_idx as int].luns.len(),
                    li <= nl,
                    no_free_block_before(v, ci as int, li as int),
                decreases nl - li,
            {
                assert(self.channels@[ch_idx as int]@ == v.channels[ch_idx as int]);
                let lun_idx = (self.channels[ch_idx].last_picked_lun + li) % nl;
                assert(lun_idx == rr_lun(v, ch_idx as int, li as int));
                assert(self.channels@[ch_idx as int].luns@[lun_idx as int]@ == rr_slot(v, ci as int, li as int));
                let ghost before = *self;
                match self.channels[ch_idx].luns[lun_idx].provision_block() {
                    Ok(block) => {
                        proof {
                            Self::lemma_lun_replaced(&before, self, ch_idx as int, lun_idx as int);
                        }
                        let ghost mid = self@;
                        self.last_picked_channel = ch_idx;
                        self.channels[ch_idx].last_picked_lun = lun_idx;
                        proof {
                            assert(self@.channels =~= with_picks(mid, ch_idx as int, lun_idx as int).channels);
                            lemma_wf_with_lun(v, ch_idx as int, lun_idx as int, mid.channels[ch_idx as int].luns[lun_idx as int]);
                            let pba = PhysicalBlockAddress {
                                channel: ch_idx as u64,
                                lun: lun_idx as u64,
                                plane: block.plane_id as u64,
                                block: block.id as u64,
                            };
                            assert((self@, pba) == block_from(v, ci as int, li as int));
                            assert(has_free_block(rr_slot(v, ci as int, li as int)));
                            assert(rr_step(v, ci as int, li as int));
                            assert(block_provisioned(v, self@, pba));
                        }
                        return Ok(PhysicalBlockAddress {
                            channel: ch_idx as u64,
                            lun: lun_idx as u64,
                            plane: block.plane_id as u64,
                            block: block.id as u64,
                        });
                    },
                    Err(_) => {
                        proof {
                            Self::lemma_lun_replaced(&before, self, ch_idx as int, lun_idx as int);
                            lemma_with_lun_same(v, ch_idx as int, lun_idx as int);
                        }
                    },
                }
                li = li + 1;
            }
            ci = ci + 1;
        }
        Err(ProvisionError::NoFreeBlock)
    }

    /// Hands out a page: the next page of the first LUN that can give one,
    /// searching round-robin as `provision_block` does (without moving the
    /// starting points). Within the LUN, pages come from its first partly
    /// written block, taking a free block when none is partly written.
    pub fn provision_page(&mut self) -> (r: Result<PhysicalPageAddress, ProvisionError>)
        requires
            prov_wf(old(self)@),
            blocks_have_pages(old(self)@),
        ensures
            prov_wf(final(self)@),
            blocks_have_pages(final(self)@),
            match r {
                Ok(ppa) => page_provisioned(old(self)@, final(self)@, ppa),
                Err(e) => {
                    &&& e == ProvisionError::NoFreePage
                    &&& no_free_page_before(old(self)@, old(self)@.channels.len() as int, 0)
                    &&& final(self)@ == old(self)@
                },
            },
    {
        let ghost v = self@;
        let n = self.channels.len();
        let mut ci: usize = 0;
        while ci < n
            invariant
                self@ == v,
                v == old(self)@,
                prov_wf(v),
                blocks_have_pages(v),
                n == v.channels.len(),
                ci <= n,
                no_free_page_before(v, ci as int, 0),
            decreases n - ci,
        {
            let ch_idx = (self.last_picked_channel + ci) % n;
            assert(ch_idx == rr_channel(v, ci as int));
            assert(self.channels@[ch_idx as int]@ == v.channels[ch_idx as int]);
            let nl = self.channels[ch_idx].luns.len();
            let mut li: usize = 0;
            while li < nl
                invariant
                    self@ == v,
                    v == old(self)@,
                    prov_wf(v),
                    blocks_have_pages(v),
                    n == v.channels.len(),
                    ci < n,
                    ch_idx == rr_channel(v, ci as int),
                    nl == v.channels[ch_idx as int].luns.len(),
                    li <= nl,
                    no_free_page_before(v, ci as int, li as int),
                decreases nl - li,
            {
                assert(self.channels@[ch_idx as int]@ == v.channels[ch_idx as int]);
                let lun_idx = (self.channels[ch_idx].last_picked_lun + li) % nl;
                assert(lun_idx == rr_lun(v, ch_idx as int, li as int));
                assert(self.channels@[ch_idx as int].luns@[lun_idx as int]@ == rr_slot(v, ci as int, li as int));
                assert(lun_wf(lun_at(v, ch_idx as int, lun_idx as int)));
                assert(has_free_page(lun_at(v, ch_idx as int, lun_idx as int)) ==> lun_at(v, ch_idx as int, lun_idx as int).pages_per_block > 0);
                let ghost before = *self;
                match self.channels[ch_idx].luns[lun_idx].provision_page() {
                    Ok(page) => {
                        proof {
                            Self::lemma_lun_replaced(&before, self, ch_idx as int, lun_idx as int);
                            lemma_wf_with_lun(v, ch_idx as int, lun_idx as int, self@.channels[ch_idx as int].luns[lun_idx as int]);
                            lemma_positive_with_lun(v, ch_idx as int, lun_idx as int, self@.channels[ch_idx as int].luns[lun_idx as int]);
                            let ppa = PhysicalPageAddress {
                                channel: ch_idx as u64,
                                lun: lun_idx as u64,
                                plane: page.plane_id as u64,
                                block: page.block_id as u64,
                                page: page.id as u64,
                            };
                            assert((self@, ppa) == page_from(v, ci as int, li as int));
                            assert(has_free_page(rr_slot(v, ci as int, li as int)));
                            assert(rr_step(v, ci as int, li as int));
                            assert(page_provisioned(v, self@, ppa));
                        }
                        return Ok(PhysicalPageAddress {
                            channel: ch_idx as u64,
                            lun: lun_idx as u64,
                            plane: page.plane_id as u64,
                            block: page.block_id as u64,
                            page: page.id as u64,
                        });
                    },
                    Err(_) => {
                        proof {
                            Self::lemma_lun_replaced(&before, self, ch_idx as int, lun_idx as int);
                            lemma_with_lun_same(v, ch_idx as int, lun_idx as int);
                        }
                    },
                }
                li = li + 1;
            }
            ci = ci + 1;
        }
        Err(ProvisionError::NoFreePage)
    }

    /// Puts every block of every LUN, numbered from 0 in plane 0 up to the
    /// number of blocks the LUN was made for, at the back of its free blocks.
    pub fn init_all_free(&mut self)
        requires
            prov_wf(old(self)@),
        ensures
            prov_wf(final(self)@),
            same_shape(old(self)@, final(self)@),
            forall|c: int, l: int| 0 <= c < old(self)@.channels.len() && 0 <= l < old(self)@.channels[c].luns.len() ==>
                #[trigger] lun_at(final(self)@, c, l) == lun_all_free(lun_at(old(self)@, c, l)),
    {
        let ghost v = self@;
        let n = self.channels.len();
        let mut c: usize = 0;
        while c < n
            invariant
                v == old(self)@,
                prov_wf(v),
                n == v.channels.len(),
                c <= n,
                same_shape(v, self@),
                forall|c2: int, l2: int| 0 <= c2 < n && 0 <= l2 < v.channels[c2].luns.len() ==>
                    #[trigger] lun_at(self@, c2, l2) == if c2 < c { lun_all_free(lun_at(v, c2, l2)) } else { lun_at(v, c2, l2) },
            decreases n - c,
        {
            assert(self.channels@[c as int]@ == self@.channels[c as int]);
            let nl = self.channels[c].luns.len();
            let mut l: usize = 0;
            while l < nl
                invariant
                    v == old(self)@,
                    prov_wf(v),
                    n == v.channels.len(),
                    c < n,
                    nl == v.channels[c as int].luns.len(),
                    l <= nl,
                    same_shape(v, self@),
                    forall|c2: int, l2: int| 0 <= c2 < n && 0 <= l2 < v.channels[c2].luns.len() ==>
                        #[trigger] lun_at(self@, c2, l2) == if c2 < c || (c2 == c && l2 < l) {
                            lun_all_free(lun_at(v, c2, l2))
                        } else {
                            lun_at(v, c2, l2)
                        },
                decreases nl - l,
            {
                let ghost before = *self;
                assert(self.channels@[c as int]@ == self@.channels[c as int]);
                assert(self.channels@[c as int].luns@[l as int]@ == lun_at(self@, c as int, l as int));
                self.channels[c].luns[l].fill_free();
                proof {
                    Self::lemma_lun_replaced(&before, self, c as int, l as int);
                    assert forall|c2: int, l2: int| 0 <= c2 < n && 0 <= l2 < v.channels[c2].luns.len() implies
                        #[trigger] lun_at(self@, c2, l2) == if c2 < c || (c2 == c && l2 <= l) {
                            lun_all_free(lun_at(v, c2, l2))
                        } else {
                            lun_at(v, c2, l2)
                        } by {
                        if c2 != c || l2 != l {
                            assert(lun_at(self@, c2, l2) == lun_at(before@, c2, l2));
                        }
                    }
                }
                l = l + 1;
            }
            c = c + 1;
        }
        proof {
            assert forall|c: int, l: int| 0 <= c < self@.channels.len() && 0 <= l < self@.channels[c].luns.len() implies
                lun_wf(#[trigger] lun_at(self@, c, l)) by {
                assert(lun_wf(lun_at(v, c, l)));
            }
        }
    }

    /// Puts the good blocks of the media at the back of the free blocks of
    /// their LUNs: for every channel and LUN of the geometry, plane after
    /// plane, the good ones among the plane's first `blk_per_lun /
    /// n_of_planes` blocks in the bad block table. The provisioner and the
    /// table must have every channel and LUN of the geometry.
    pub fn init_free_from_bbt(&mut self, geo: &Geometry, bbt: &BadBlockTable)
        requires
            prov_wf(old(self)@),
            bbt.is_initialized(),
            table_covers(bbt.table(), geo.n_of_ch as int, geo.lun_per_ch as int, geo.n_of_planes as int, blocks_per_plane(*geo) as int),
            geo.n_of_ch <= old(self)@.channels.len(),
            forall|c: int| 0 <= c < geo.n_of_ch ==> geo.lun_per_ch <= (#[trigger] old(self)@.channels[c]).luns.len(),
        ensures
            prov_wf(final(self)@),
            same_shape(old(self)@, final(self)@),
            forall|c: int, l: int| 0 <= c < old(self)@.channels.len() && 0 <= l < old(self)@.channels[c].luns.len() ==>
                #[trigger] lun_at(final(self)@, c, l) == if c < geo.n_of_ch && l < geo.lun_per_ch {
                    with_good_blocks(lun_at(old(self)@, c, l), bbt.table(), c, l, geo.n_of_planes as nat, blocks_per_plane(*geo))
                } else {
                    lun_at(old(self)@, c, l)
                },
    {
        let ghost v = self@;
        let ghost t = bbt.table();
        let bpp: u16 = if geo.n_of_planes == 0 { 0 } else { geo.blk_per_lun / (geo.n_of_planes as u16) };
        let mut c: u8 = 0;
        while c < geo.n_of_ch
            invariant
                v == old(self)@,
                t == bbt.table(),
                bbt.is_initialized(),
                prov_wf(v),
                bpp == blocks_per_plane(*geo),
                table_covers(t, geo.n_of_ch as int, geo.lun_per_ch as int, geo.n_of_planes as int, bpp as int),
                geo.n_of_ch <= v.channels.len(),
                forall|c2: int| 0 <= c2 < geo.n_of_ch ==> geo.lun_per_ch <= (#[trigger] v.channels[c2]).luns.len(),
                c <= geo.n_of_ch,
                same_shape(v, self@),
                forall|c2: int, l2: int| 0 <= c2 < v.channels.len() && 0 <= l2 < v.channels[c2].luns.len() ==>
                    #[trigger] lun_at(self@, c2, l2) == if c2 < c && l2 < geo.lun_per_ch { with_good_blocks(lun_at(v, c2, l2), t, c2, l2, geo.n_of_planes as nat, blocks_per_plane(*geo)) } else { lun_at(v, c2, l2) },
            decreases geo.n_of_ch - c,
        {
            let mut l: u8 = 0;
            while l < geo.lun_per_ch
                invariant
                    v == old(self)@,
                    t == bbt.table(),
                    bbt.is_initialized(),
                    prov_wf(v),
                    bpp == blocks_per_plane(*geo),
                    table_covers(t, geo.n_of_ch as int, geo.lun_per_ch as int, geo.n_of_planes as int, bpp as int),
                    geo.n_of_ch <= v.channels.len(),
                    forall|c2: int| 0 <= c2 < geo.n_of_ch ==> geo.lun_per_ch <= (#[trigger] v.channels[c2]).luns.len(),
                    c < geo.n_of_ch,
                    l <= geo.lun_per_ch,
                    same_shape(v, self@),
                    forall|c2: int, l2: int| 0 <= c2 < v.channels.len() && 0 <= l2 < v.channels[c2].luns.len() ==>
                        #[trigger] lun_at(self@, c2, l2) == if (c2 < c && l2 < geo.lun_per_ch) || (c2 == c && l2 < l) {
                            with_good_blocks(lun_at(v, c2, l2), t, c2, l2, geo.n_of_planes as nat, blocks_per_plane(*geo))
                        } else {
                            lun_at(v, c2, l2)
                        },
                decreases geo.lun_per_ch - l,
            {
                let ghost before = *self;
                assert(geo.lun_per_ch <= v.channels[c as int].luns.len());
                assert(self.channels@[c as int]@ == self@.channels[c as int]);
                assert(self.channels@[c as int].luns@[l as int]@ == lun_at(self@, c as int, l as int));
                assert(table_covers(t, c + 1, l + 1, geo.n_of_planes as int, bpp as int));
                self.channels[c as usize].luns[l as usize].push_good_blocks(bbt, c, l, geo.n_of_planes, bpp);
                proof {
                    Self::lemma_lun_replaced(&before, self, c as int, l as int);
                    assert forall|c2: int, l2: int| 0 <= c2 < v.channels.len() && 0 <= l2 < v.channels[c2].luns.len() implies
                        #[trigger] lun_at(self@, c2, l2) == if (c2 < c && l2 < geo.lun_per_ch) || (c2 == c && l2 <= l) {
                            with_good_blocks(lun_at(v, c2, l2), t, c2, l2, geo.n_of_planes as nat, blocks_per_plane(*geo))
                        } else {
                            lun_at(v, c2, l2)
                        } by {
                        if c2 != c || l2 != l {
                            assert(lun_at(self@, c2, l2) == lun_at(before@, c2, l2));
                        }
                    }
                }
                l = l + 1;
            }
            c = c + 1;
        }
        proof {
            assert forall|c: int, l: int| 0 <= c < self@.channels.len() && 0 <= l < self@.channels[c].luns.len() implies
                lun_wf(#[trigger] lun_at(self@, c, l)) by {
                assert(lun_wf(lun_at(v, c, l)));
            }
        }
    }
}

} // verus!
