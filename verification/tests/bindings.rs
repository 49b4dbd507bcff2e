use lib::bindings::lring::{dequeue_result, enqueue_result, ring_return_code, LRingErr};
use lib::bindings::mem::{MemoryRegion, RESERVE_GAP};
use lib::bindings::nvm_io_status;

#[test]
fn reserve_bumps_free_start_with_gap() {
    let mut m = MemoryRegion::new(0x1000, 0x100);
    assert_eq!((m.start, m.end, m.free_start), (0x1000, 0x1100, 0x1000));
    assert_eq!(m.reserve(0x20), Some(0x1000));
    assert_eq!(m.free_start, 0x1000 + 0x20 + RESERVE_GAP);
    assert_eq!(m.reserve(0x20), Some(0x1028));
    assert_eq!(m.free_start, 0x1050);
}

#[test]
fn reserve_refuses_when_too_small() {
    let mut m = MemoryRegion::new(0x1000, 0x40);
    assert_eq!(m.reserve(0x39), None);
    assert_eq!(m.free_start, 0x1000);
    assert_eq!(m.reserve(0x38), Some(0x1000));
    assert_eq!(m.free_start, 0x1040);
    assert_eq!(m.reserve(0), None);
}

#[test]
fn reserve_refuses_null_region() {
    let mut m = MemoryRegion::new(0, 0x100);
    assert_eq!(m.reserve(1), None);
    assert_eq!(m.free_start, 0);
}

#[test]
fn ring_codes() {
    assert_eq!(enqueue_result(0), Ok(()));
    assert_eq!(enqueue_result(-3), Err(LRingErr::Enqueue(-3)));
    assert_eq!(dequeue_result(0), Ok(()));
    assert_eq!(dequeue_result(2), Err(LRingErr::Dequeue(2)));
    assert_eq!(ring_return_code(Ok(())), 0);
    assert_eq!(ring_return_code(Err(LRingErr::Enqueue(-7))), -7);
    assert_eq!(ring_return_code(Err(LRingErr::Dequeue(-7))), -1);
    assert_eq!(ring_return_code(Err(LRingErr::NoCtx)), -1);
}

#[test]
fn io_status_is_plain_data() {
    let s = nvm_io_status {
        status: 1,
        nvme_status: 2,
        pg_errors: 0,
        total_pgs: 4,
        pgs_p: 4,
        pgs_s: 0,
        ret_t: 0,
        pg_map: [0; 8],
    };
    let t = s;
    assert_eq!(t.total_pgs, 4);
}
