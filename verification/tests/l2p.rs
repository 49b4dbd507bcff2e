use lib::l2p::l2p::L2pMapper;

#[test]
fn new_table_maps_nothing() {
    let m: L2pMapper<8> = L2pMapper::new();
    assert_eq!(m.len(), 8);
    assert!(!m.is_empty());
    for la in 0..8u32 {
        assert_eq!(m.lookup(la), None);
    }
}

#[test]
fn lookup_after_map_gives_mapped_address() {
    let mut m: L2pMapper<8> = L2pMapper::new();
    m.map(3, 42);
    assert_eq!(m.lookup(3), Some(42));
    assert_eq!(m.lookup(2), None);
    assert_eq!(m.lookup(4), None);
}

#[test]
fn second_map_overwrites_first() {
    let mut m: L2pMapper<4> = L2pMapper::new();
    m.map(1, 10);
    m.map(1, 11);
    assert_eq!(m.lookup(1), Some(11));
}

#[test]
fn unmap_returns_previous_and_clears() {
    let mut m: L2pMapper<4> = L2pMapper::new();
    m.map(2, 7);
    m.map(3, 9);
    assert_eq!(m.unmap(2), Some(7));
    assert_eq!(m.lookup(2), None);
    assert_eq!(m.lookup(3), Some(9));
    assert_eq!(m.unmap(2), None);
}

#[test]
fn clear_leaves_an_empty_table() {
    let mut m: L2pMapper<4> = L2pMapper::new();
    m.clear();
    assert_eq!(m.len(), 0);
    assert!(m.is_empty());
}

#[test]
fn zero_capacity_table_is_empty() {
    let m: L2pMapper<0> = L2pMapper::new();
    assert!(m.is_empty());
}

#[test]
fn prepare_for_benchmark_maps_identity_prefix() {
    let mut m: L2pMapper<6> = L2pMapper::new();
    m.map(5, 99);
    m.prepare_for_benchmark(4);
    for la in 0..4u32 {
        assert_eq!(m.lookup(la), Some(la));
    }
    assert_eq!(m.lookup(4), None);
    assert_eq!(m.lookup(5), Some(99));
}

#[test]
fn table_length_is_kept_by_every_operation() {
    let mut m: L2pMapper<6> = L2pMapper::new();
    m.map(1, 2);
    let _ = m.lookup(1);
    let _ = m.unmap(1);
    m.prepare_for_benchmark(6);
    assert_eq!(m.len(), 6);
    m.clear();
    assert_eq!(m.len(), 0);
}
