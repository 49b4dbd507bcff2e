#![allow(non_camel_case_types)]

pub mod allocator;
pub mod apps;
pub mod bbt;
pub mod bindings;
pub mod l2p;
pub mod media_manager;
pub mod my_alloc;
pub mod provisioner;
pub mod requester;
pub mod shared;
pub mod ssd_os;
