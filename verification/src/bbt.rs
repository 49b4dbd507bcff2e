//! A bad block table that can be rebuilt: every `init` starts it afresh
//! from the media geometry.

pub mod bbt;

use vstd::prelude::*;
use crate::bindings::nvm_mmgr_geometry;
use crate::shared::addresses::PhysicalBlockAddress;
use crate::bbt::bbt::{
    good_channels, channels_status, mark_bad, channels_view, all_good, addr_in_table, status_at,
    with_status, StatusTable,
};
pub use crate::bbt::bbt::{BadBlockStatus, Channel, Lun, Plane};

verus! {

/// The status of every erase block, by channel, LUN, plane and block.
pub struct BadBlockTable {
    channels: Vec<Channel>,
}

impl BadBlockTable {
    /// The status of every block.
    pub closed spec fn table(&self) -> StatusTable {
        channels_view(self.channels@)
    }

    /// An empty table: it holds no block until `init`.
    pub fn new() -> (t: Self)
        ensures
            t.table() == Seq::<Seq<Seq<Seq<BadBlockStatus>>>>::empty(),
    {
        let t = BadBlockTable { channels: Vec::new() };
        assert(t.table() =~= Seq::<Seq<Seq<Seq<BadBlockStatus>>>>::empty());
        t
    }

    /// Replaces the table with one for a media of geometry `geometry`, every
    /// block good.
    pub fn init(&mut self, geometry: &nvm_mmgr_geometry)
        ensures
            final(self).table() == all_good(*geometry),
    {
        self.channels = good_channels(geometry);
    }

    /// Marks the block at `pba` bad; the table must hold it.
    pub fn set_bad_block(&mut self, pba: &PhysicalBlockAddress)
        requires
            addr_in_table(old(self).table(), *pba),
        ensures
            final(self).table() == with_status(old(self).table(), *pba, BadBlockStatus::Bad),
    {
        mark_bad(&mut self.channels, pba);
    }

    /// The status of the block at `pba`; the table must hold it.
    pub fn get_block_status(&self, pba: &PhysicalBlockAddress) -> (s: BadBlockStatus)
        requires
            addr_in_table(self.table(), *pba),
        ensures
            s == status_at(self.table(), *pba),
    {
        channels_status(&self.channels, pba)
    }
}

} // verus!
