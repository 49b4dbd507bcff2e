pub mod addresses;
pub mod core_local_cell;
pub mod semaphore;
