//! The bad block table: the status of every erase block of the media,
//! organised as channels of LUNs of planes of blocks. It is filled once,
//! from the media geometry, and then marks blocks bad as they fail.

use vstd::prelude::*;
use crate::bindings::nvm_mmgr_geometry;
use crate::shared::addresses::PhysicalBlockAddress;

verus! {

/// What a block may be used for.
#[derive(Clone, Copy, Debug, PartialEq, Eq, Structural)]
pub enum BadBlockStatus {
    Bad,
    Good,
    Reserved,
}

/// Why the table refused to be set up.
#[derive(Clone, Copy, Debug, PartialEq, Eq, Structural)]
pub enum BBTError {
    /// The table was set up already.
    AlreadyInit,
}

/// The blocks of one plane.
pub struct Plane {
    pub blocks: Vec<BadBlockStatus>,
}

/// The planes of one LUN.
pub struct Lun {
    pub planes: Vec<Plane>,
}

/// The LUNs of one channel.
pub struct Channel {
    pub luns: Vec<Lun>,
}

impl View for Plane {
    type V = Seq<BadBlockStatus>;

    open spec fn view(&self) -> Seq<BadBlockStatus> {
        self.blocks@
    }
}

impl View for Lun {
    type V = Seq<Seq<BadBlockStatus>>;

    open spec fn view(&self) -> Seq<Seq<BadBlockStatus>> {
        planes_view(self.planes@)
    }
}

impl View for Channel {
    type V = Seq<Seq<Seq<BadBlockStatus>>>;

    open spec fn view(&self) -> Seq<Seq<Seq<BadBlockStatus>>> {
        luns_view(self.luns@)
    }
}

/// The status of every block, indexed by channel, LUN, plane and block.
pub type StatusTable = Seq<Seq<Seq<Seq<BadBlockStatus>>>>;

/// The view of a list of planes.
pub open spec fn planes_view(planes: Seq<Plane>) -> Seq<Seq<BadBlockStatus>> {
    planes.map_values(|p: Plane| p@)
}

/// The view of a list of LUNs.
pub open spec fn luns_view(luns: Seq<Lun>) -> Seq<Seq<Seq<BadBlockStatus>>> {
    luns.map_values(|l: Lun| l@)
}

/// The view of a list of channels.
pub open spec fn channels_view(channels: Seq<Channel>) -> StatusTable {
    channels.map_values(|c: Channel| c@)
}

/// `n` good blocks.
pub open spec fn good_plane_spec(n_blocks: nat) -> Seq<BadBlockStatus> {
    Seq::new(n_blocks, |i: int| BadBlockStatus::Good)
}

/// `n_planes` planes of `n_blocks` good blocks.
pub open spec fn good_lun_spec(n_planes: nat, n_blocks: nat) -> Seq<Seq<BadBlockStatus>> {
    Seq::new(n_planes, |i: int| good_plane_spec(n_blocks))
}

/// `n_luns` LUNs of good planes.
pub open spec fn good_channel_spec(n_luns: nat, n_planes: nat, n_blocks: nat) -> Seq<Seq<Seq<BadBlockStatus>>> {
    Seq::new(n_luns, |i: int| good_lun_spec(n_planes, n_blocks))
}

/// The table of a fresh media with geometry `g`: every block good, with
/// `blk_per_lun` blocks in each plane.
pub open spec fn all_good(g: nvm_mmgr_geometry) -> StatusTable {
    Seq::new(
        g.n_of_ch as nat,
        |i: int| good_channel_spec(g.lun_per_ch as nat, g.n_of_planes as nat, g.blk_per_lun as nat),
    )
}

/// The position of `pba` in the table: channel, LUN, plane and block.
pub open spec fn table_index(pba: PhysicalBlockAddress) -> (int, int, int, int) {
    (pba.channel as usize as int, pba.lun as usize as int, pba.plane as usize as int, pba.block as usize as int)
}

/// Whether the table holds a block at `pba`.
pub open spec fn addr_in_table(t: StatusTable, pba: PhysicalBlockAddress) -> bool {
    let (c, l, p, b) = table_index(pba);
    &&& c < t.len()
    &&& l < t[c].len()
    &&& p < t[c][l].len()
    &&& b < t[c][l][p].len()
}

/// The status that the table holds for `pba`.
pub open spec fn status_at(t: StatusTable, pba: PhysicalBlockAddress) -> BadBlockStatus {
    let (c, l, p, b) = table_index(pba);
    t[c][l][p][b]
}

/// The table with the block at `pba` set to `s`.
pub open spec fn with_status(t: StatusTable, pba: PhysicalBlockAddress, s: BadBlockStatus) -> StatusTable {
    let (c, l, p, b) = table_index(pba);
    t.update(c, t[c].update(l, t[c][l].update(p, t[c][l][p].update(b, s))))
}

/// Law: once a block's status is set, reading it gives that status back;
/// every other block keeps its status, and the table keeps its shape.
pub proof fn lemma_status_after_set(t: StatusTable, pba: PhysicalBlockAddress, s: BadBlockStatus, other: PhysicalBlockAddress)
    requires
        addr_in_table(t, pba),
    ensures
        addr_in_table(with_status(t, pba, s), pba),
        status_at(with_status(t, pba, s), pba) == s,
        addr_in_table(with_status(t, pba, s), other) == addr_in_table(t, other),
        addr_in_table(t, other) && table_index(other) != table_index(pba)
            ==> status_at(with_status(t, pba, s), other) == status_at(t, other),
{
}

/// Law: a freshly set-up table holds a block exactly at the positions that
/// the geometry has, and every one of them is good.
pub proof fn lemma_all_good(g: nvm_mmgr_geometry, pba: PhysicalBlockAddress)
    ensures
        addr_in_table(all_good(g), pba) <==> ({
            let (c, l, p, b) = table_index(pba);
            &&& c < g.n_of_ch
            &&& l < g.lun_per_ch
            &&& p < g.n_of_planes
            &&& b < g.blk_per_lun
        }),
        addr_in_table(all_good(g), pba) ==> status_at(all_good(g), pba) == BadBlockStatus::Good,
{
}

/// A plane of `n_blocks` good blocks.
pub fn good_plane(n_blocks: u16) -> (p: Plane)
    ensures
        p@ == good_plane_spec(n_blocks as nat),
{
    let mut blocks: Vec<BadBlockStatus> = Vec::with_capacity(n_blocks as usize);
    let mut i: u16 = 0;
    while i < n_blocks
        invariant
            i <= n_blocks,
            blocks@ == good_plane_spec(i as nat),
        decreases n_blocks - i,
    {
        blocks.push(BadBlockStatus::Good);
        i = i + 1;
        assert(blocks@ =~= good_plane_spec(i as nat));
    }
    Plane { blocks }
}

/// A LUN of `n_planes` planes of `n_blocks` good blocks.
pub fn good_lun(n_planes: u8, n_blocks: u16) -> (l: Lun)
    ensures
        l@ == good_lun_spec(n_planes as nat, n_blocks as nat),
{
    let mut planes: Vec<Plane> = Vec::with_capacity(n_planes as usize);
    let mut i: u8 = 0;
    while i < n_planes
        invariant
            i <= n_planes,
            planes_view(planes@) == good_lun_spec(i as nat, n_blocks as nat),
        decreases n_planes - i,
    {
        let ghost before = planes@;
        let p = good_plane(n_blocks);
        planes.push(p);
        i = i + 1;
        assert(planes@ == before.push(p));
        assert(planes_view(planes@) =~= good_lun_spec(i as nat, n_blocks as nat)) by {
            assert(planes_view(before) == good_lun_spec((i - 1) as nat, n_blocks as nat));
            assert(planes_view(before).len() == i - 1);
            assert(before.len() == i - 1);
            assert(planes@.len() == i);
            assert(planes_view(planes@).len() == i);
            assert forall|k: int| 0 <= k < i implies #[trigger] planes_view(planes@)[k] == good_plane_spec(n_blocks as nat) by {
                assert(planes_view(planes@)[k] == planes@[k]@);
                if k < i - 1 {
                    assert(planes@[k] == before[k]);
                    assert(planes_view(before)[k] == before[k]@);
                    assert(planes_view(before)[k] == good_plane_spec(n_blocks as nat));
                } else {
                    assert(planes@[k] == p);
                }
            }
        }
    }
    Lun { planes }
}

/// A channel of `n_luns` LUNs of good planes.
pub fn good_channel(n_luns: u8, n_planes: u8, n_blocks: u16) -> (c: Channel)
    ensures
        c@ == good_channel_spec(n_luns as nat, n_planes as nat, n_blocks as nat),
{
    let mut luns: Vec<Lun> = Vec::with_capacity(n_luns as usize);
    let mut i: u8 = 0;
    while i < n_luns
        invariant
            i <= n_luns,
            luns_view(luns@) == good_channel_spec(i as nat, n_planes as nat, n_blocks as nat),
        decreases n_luns - i,
    {
        let ghost before = luns@;
        let l = good_lun(n_planes, n_blocks);
        luns.push(l);
        i = i + 1;
        assert(luns@ == before.push(l));
        assert(luns_view(luns@) =~= good_channel_spec(i as nat, n_planes as nat, n_blocks as nat)) by {
            assert(luns_view(before) == good_channel_spec((i - 1) as nat, n_planes as nat, n_blocks as nat));
            assert(luns_view(before).len() == i - 1);
            assert(before.len() == i - 1);
            assert(luns_view(luns@).len() == i);
            assert forall|k: int| 0 <= k < i implies #[trigger] luns_view(luns@)[k] == good_lun_spec(n_planes as nat, n_blocks as nat) by {
                assert(luns_view(luns@)[k] == luns@[k]@);
                if k < i - 1 {
                    assert(luns@[k] == before[k]);
                    assert(luns_view(before)[k] == before[k]@);
                    assert(luns_view(before)[k] == good_lun_spec(n_planes as nat, n_blocks as nat));
                } else {
                    assert(luns@[k] == l);
                }
            }
        }
    }
    Channel { luns }
}

/// The channels of a fresh media with geometry `geometry`, every block good.
pub fn good_channels(geometry: &nvm_mmgr_geometry) -> (v: Vec<Channel>)
    ensures
        channels_view(v@) == all_good(*geometry),
{
    let mut channels: Vec<Channel> = Vec::with_capacity(geometry.n_of_ch as usize);
    let mut i: u8 = 0;
    while i < geometry.n_of_ch
        invariant
            i <= geometry.n_of_ch,
            channels_view(channels@) == Seq::new(
                i as nat,
                |k: int| good_channel_spec(geometry.lun_per_ch as nat, geometry.n_of_planes as nat, geometry.blk_per_lun as nat),
            ),
        decreases geometry.n_of_ch - i,
    {
        let ghost before = channels@;
        let c = good_channel(geometry.lun_per_ch, geometry.n_of_planes, geometry.blk_per_lun);
        channels.push(c);
        i = i + 1;
        assert(channels@ == before.push(c));
        assert(channels_view(before).len() == i - 1);
        assert(before.len() == i - 1);
        assert(channels_view(channels@).len() == i);
        assert(channels_view(channels@) =~= Seq::new(
            i as nat,
            |k: int| good_channel_spec(geometry.lun_per_ch as nat, geometry.n_of_planes as nat, geometry.blk_per_lun as nat),
        )) by {
            assert forall|k: int| 0 <= k < i implies #[trigger] channels_view(channels@)[k] == good_channel_spec(
                geometry.lun_per_ch as nat,
                geometry.n_of_planes as nat,
                geometry.blk_per_lun as nat,
            ) by {
                assert(channels_view(channels@)[k] == channels@[k]@);
                if k < i - 1 {
                    assert(channels@[k] == before[k]);
                    assert(channels_view(before)[k] == before[k]@);
                    assert(channels_view(before)[k] == good_channel_spec(
                        geometry.lun_per_ch as nat,
                        geometry.n_of_planes as nat,
                        geometry.blk_per_lun as nat,
                    ));
                } else {
                    assert(channels@[k] == c);
                }
            }
        }
    }
    channels
}

/// Reads the status of the block at `pba` in a list of channels.
pub fn channels_status(channels: &Vec<Channel>, pba: &PhysicalBlockAddress) -> (s: BadBlockStatus)
    requires
        addr_in_table(channels_view(channels@), *pba),
    ensures
        s == status_at(channels_view(channels@), *pba),
{
    channels[pba.channel as usize].luns[pba.lun as usize].planes[pba.plane as usize].blocks[pba.block as usize]
}

/// Marks the block at `pba` bad in a list of channels.
pub fn mark_bad(channels: &mut Vec<Channel>, pba: &PhysicalBlockAddress)
    requires
        addr_in_table(channels_view(old(channels)@), *pba),
    ensures
        channels_view(final(channels)@) == with_status(channels_view(old(channels)@), *pba, BadBlockStatus::Bad),
{
    let ghost t = channels_view(channels@);
    let c = pba.channel as usize;
    let l = pba.lun as usize;
    let p = pba.plane as usize;
    let b = pba.block as usize;
    channels[c].luns[l].planes[p].blocks[b] = BadBlockStatus::Bad;
    assert(channels_view(channels@) =~= with_status(t, *pba, BadBlockStatus::Bad)) by {
        assert(luns_view(channels@[c as int].luns@) =~= t[c as int].update(
            l as int,
            t[c as int][l as int].update(p as int, t[c as int][l as int][p as int].update(b as int, BadBlockStatus::Bad)),
        )) by {
            assert(planes_view(channels@[c as int].luns@[l as int].planes@) =~= t[c as int][l as int].update(
                p as int,
                t[c as int][l as int][p as int].update(b as int, BadBlockStatus::Bad),
            ));
        }
    }
}

/// The bad block table, set up once from the media geometry.
pub struct BadBlockTable {
    channels: Vec<Channel>,
    initialized: bool,
}

impl BadBlockTable {
    /// The status of every block.
    pub closed spec fn table(&self) -> StatusTable {
        channels_view(self.channels@)
    }

    /// Whether `init` has set the table up.
    pub closed spec fn is_initialized(&self) -> bool {
        self.initialized
    }

    /// A table that is not set up yet.
    pub fn new() -> (t: Self)
        ensures
            !t.is_initialized(),
            t.table() == Seq::<Seq<Seq<Seq<BadBlockStatus>>>>::empty(),
    {
        let t = BadBlockTable { channels: Vec::new(), initialized: false };
        assert(t.table() =~= Seq::<Seq<Seq<Seq<BadBlockStatus>>>>::empty());
        t
    }

    /// Sets the table up for a media of geometry `geometry`, every block
    /// good. Refuses, changing nothing, when it was set up already.
    pub fn init(&mut self, geometry: &nvm_mmgr_geometry) -> (r: Result<(), BBTError>)
        ensures
            match r {
                Ok(()) => {
                    &&& !old(self).is_initialized()
                    &&& final(self).is_initialized()
                    &&& final(self).table() == all_good(*geometry)
                },
                Err(e) => {
                    &&& old(self).is_initialized()
                    &&& e == BBTError::AlreadyInit
                    &&& final(self).is_initialized()
                    &&& final(self).table() == old(self).table()
                },
            },
    {
        if self.initialized {
            return Err(BBTError::AlreadyInit);
        }
        self.initialized = true;
        self.channels = good_channels(geometry);
        Ok(())
    }

    /// The channels of the table; it must be set up.
    pub fn get_channel_cell(&self) -> (r: &Vec<Channel>)
        requires
            self.is_initialized(),
        ensures
            channels_view(r@) == self.table(),
    {
        &self.channels
    }

    /// Marks the block at `pba` bad; the table must be set up and hold it.
    pub fn set_bad_block(&mut self, pba: &PhysicalBlockAddress)
        requires
            old(self).is_initialized(),
            addr_in_table(old(self).table(), *pba),
        ensures
            final(self).is_initialized(),
            final(self).table() == with_status(old(self).table(), *pba, BadBlockStatus::Bad),
    {
        mark_bad(&mut self.channels, pba);
    }

    /// The status of the block at `pba`; the table must be set up and hold it.
    pub fn get_block_status(&self, pba: &PhysicalBlockAddress) -> (s: BadBlockStatus)
        requires
            self.is_initialized(),
            addr_in_table(self.table(), *pba),
        ensures
            s == status_at(self.table(), *pba),
    {
        channels_status(&self.channels, pba)
    }
}

} // verus!
