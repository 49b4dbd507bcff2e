pub mod free_list;
pub mod linked_list_alloc;
pub mod sdd_os_alloc;
pub mod semaphore_alloc;

use vstd::prelude::*;

verus! {

/// The allocation could not be served: no free block can hold it.
#[derive(Clone, Copy, Debug, PartialEq, Eq, Structural)]
pub struct AllocError;

} // verus!
