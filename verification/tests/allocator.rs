use lib::allocator::free_list::{coalesce, insert_by_address, take_first_fit, FreeBlock};
use lib::allocator::linked_list_alloc::LinkedListAllocator;
use lib::allocator::sdd_os_alloc::SimpleAllocator as OsAllocator;
use lib::allocator::semaphore_alloc::SemaphoreAllocator;
use lib::allocator::AllocError;
use lib::my_alloc::{align_up, SimpleAllocator};

fn fb(addr: usize, size: usize) -> FreeBlock {
    FreeBlock { addr, size }
}

#[test]
fn first_allocation_starts_at_area_start() {
    let mut a = LinkedListAllocator::new();
    a.initialize(1000, 1100);
    assert_eq!(a.allocate(10, 1), Ok((1000, 10)));
}

#[test]
fn allocation_is_aligned_and_at_least_a_header() {
    let mut a = LinkedListAllocator::new();
    a.initialize(1000, 1100);
    assert_eq!(a.allocate(10, 1), Ok((1000, 10)));
    // free block now starts at 1010; aligned to 4 gives 1012, size rounds up to 8
    assert_eq!(a.allocate(4, 4), Ok((1012, 8)));
    assert_eq!(a.allocate(1, 16), Ok((1024, 8)));
}

#[test]
fn allocation_larger_than_area_fails() {
    let mut a = LinkedListAllocator::new();
    a.initialize(1000, 1100);
    assert_eq!(a.allocate(101, 1), Err(AllocError));
    assert_eq!(a.allocate(100, 1), Ok((1000, 100)));
    assert_eq!(a.allocate(1, 1), Err(AllocError));
}

#[test]
fn uninitialized_allocator_refuses_everything() {
    let mut a = LinkedListAllocator::new();
    assert_eq!(a.allocate(1, 1), Err(AllocError));
}

#[test]
fn freed_neighbours_merge_back_into_whole_area() {
    let mut a = LinkedListAllocator::new();
    a.initialize(1000, 1096);
    let (p1, l1) = a.allocate(32, 4).unwrap();
    let (p2, l2) = a.allocate(32, 4).unwrap();
    let (p3, l3) = a.allocate(32, 4).unwrap();
    assert_eq!((p1, p2, p3), (1000, 1032, 1064));
    assert_eq!(a.allocate(8, 4), Err(AllocError));
    a.deallocate(p2, l2, 4);
    a.deallocate(p1, l1, 4);
    a.deallocate(p3, l3, 4);
    assert_eq!(a.allocate(96, 4), Ok((1000, 96)));
}

#[test]
fn small_tail_is_handed_out_with_the_allocation() {
    let mut a = LinkedListAllocator::new();
    a.initialize(1000, 1020);
    // 20 - 16 = 4 bytes left: too small for a header, so the block leaves the list
    assert_eq!(a.allocate(16, 4), Ok((1000, 16)));
    assert_eq!(a.allocate(1, 1), Err(AllocError));
}

#[test]
fn take_first_fit_skips_blocks_too_small() {
    let mut v = vec![fb(0, 8), fb(100, 64)];
    assert_eq!(take_first_fit(&mut v, 16, 4), Some(100));
    assert_eq!(v, vec![fb(0, 8), fb(116, 48)]);
    assert_eq!(take_first_fit(&mut v, 64, 4), None);
    assert_eq!(v, vec![fb(0, 8), fb(116, 48)]);
}

#[test]
fn insert_by_address_keeps_order_and_coalesce_merges() {
    let mut v = vec![fb(0, 8), fb(32, 8)];
    insert_by_address(&mut v, fb(8, 8));
    assert_eq!(v, vec![fb(0, 8), fb(8, 8), fb(32, 8)]);
    coalesce(&mut v);
    assert_eq!(v, vec![fb(0, 16), fb(32, 8)]);
    insert_by_address(&mut v, fb(16, 16));
    coalesce(&mut v);
    assert_eq!(v, vec![fb(0, 40)]);
}

#[test]
fn os_allocator_behaves_as_first_fit() {
    let mut a = OsAllocator::new();
    a.initialize(2000, 2064);
    assert_eq!(a.allocate(3, 2), Ok((2000, 8)));
    assert_eq!(a.allocate(8, 8), Ok((2008, 8)));
    a.deallocate(2000, 8, 2);
    assert_eq!(a.allocate(8, 1), Ok((2000, 8)));
}

#[test]
fn semaphore_allocator_serves_through_its_allocator() {
    let mut a = SemaphoreAllocator::new();
    a.init(64, 128);
    assert_eq!(a.allocate(16, 4), Ok((64, 16)));
    assert_eq!(a.allocate(64, 4), Err(AllocError));
    a.deallocate(64, 16, 4);
    assert_eq!(a.allocate(64, 4), Ok((64, 64)));
}

#[test]
fn global_allocator_takes_only_its_first_area() {
    let mut a = SimpleAllocator::new();
    a.initialize(4096, 4160);
    a.initialize(0, 1_000_000);
    assert_eq!(a.allocate(64, 4), Some(4096));
    assert_eq!(a.allocate(1, 1), None);
}

#[test]
fn global_allocator_with_tiny_area_has_nothing() {
    let mut a = SimpleAllocator::new();
    a.initialize(4096, 4100);
    assert_eq!(a.allocate(1, 1), None);
}

#[test]
fn align_up_rounds_to_power_of_two() {
    assert_eq!(align_up(0, 8), 0);
    assert_eq!(align_up(1, 8), 8);
    assert_eq!(align_up(8, 8), 8);
    assert_eq!(align_up(13, 4), 16);
    assert_eq!(align_up(13, 1), 13);
}

#[test]
fn align_up_is_idempotent_and_monotone() {
    for align in [1usize, 2, 4, 8, 64] {
        for a in 0..200usize {
            let r = align_up(a, align);
            assert_eq!(r % align, 0);
            assert_eq!(align_up(r, align), r);
            assert!(align_up(a + 1, align) >= r);
        }
    }
}

#[test]
fn aligned_allocations_keep_free_blocks_aligned() {
    let mut v = vec![fb(1000, 100)];
    assert_eq!(take_first_fit(&mut v, 12, 8), Some(1000));
    assert_eq!(v, vec![fb(1012, 88)]);
    assert_eq!(take_first_fit(&mut v, 16, 8), Some(1016));
    assert_eq!(v, vec![fb(1032, 68)]);
    assert!(v.iter().all(|b| b.addr % 4 == 0));
}
