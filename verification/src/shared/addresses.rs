//! Addresses on the flash media.

use vstd::prelude::*;

verus! {

/// The address of an erase block: channel, LUN, plane and block number.
#[derive(Clone, Copy, Debug, PartialEq, Eq, Structural)]
pub struct PhysicalBlockAddress {
    pub channel: u64,
    pub lun: u64,
    pub plane: u64,
    pub block: u64,
}

/// The address of a page: its block's address and the page number in it.
#[derive(Clone, Copy, Debug, PartialEq, Eq, Structural)]
pub struct PhysicalPageAddress {
    pub channel: u64,
    pub lun: u64,
    pub plane: u64,
    pub block: u64,
    pub page: u64,
}

} // verus!
