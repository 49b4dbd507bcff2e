//! What the platform's ring calls answer, as the library reads it.

use vstd::prelude::*;

verus! {

/// Why a ring operation failed; the number is the platform's error code.
#[derive(Clone, Copy, Debug, PartialEq, Eq, Structural)]
pub enum LRingErr {
    Enqueue(i32),
    Dequeue(i32),
    AlreadyInit(i32),
    NoCtx,
}

/// The outcome of an enqueue whose platform call returned `code`: 0 is
/// success, anything else the error.
pub fn enqueue_result(code: i32) -> (r: Result<(), LRingErr>)
    ensures
        r == if code == 0 { Ok::<(), LRingErr>(()) } else { Err(LRingErr::Enqueue(code)) },
{
    if code == 0 { Ok(()) } else { Err(LRingErr::Enqueue(code)) }
}

/// The outcome of a dequeue whose platform call returned `code`: 0 is
/// success, anything else the error.
pub fn dequeue_result(code: i32) -> (r: Result<(), LRingErr>)
    ensures
        r == if code == 0 { Ok::<(), LRingErr>(()) } else { Err(LRingErr::Dequeue(code)) },
{
    if code == 0 { Ok(()) } else { Err(LRingErr::Dequeue(code)) }
}

/// What a connector's ring function returns after handing an entry to its
/// ring: 0 when it was queued, the platform's code when the enqueue failed,
/// and -1 for any other failure.
pub fn ring_return_code(r: Result<(), LRingErr>) -> (code: i32)
    ensures
        code == match r {
            Ok(()) => 0,
            Err(LRingErr::Enqueue(i)) => i as int,
            Err(_) => -1,
        },
{
    match r {
        Ok(()) => 0,
        Err(LRingErr::Enqueue(i)) => i,
        Err(_) => -1,
    }
}

} // verus!
