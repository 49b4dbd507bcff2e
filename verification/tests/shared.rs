use lib::shared::core_local_cell::CoreLocalCell;
use lib::shared::semaphore::Semaphore;

#[test]
fn core_local_cell_gives_back_what_was_set() {
    let mut c: CoreLocalCell<u32> = CoreLocalCell::new();
    c.set(5);
    assert_eq!(*c.get(), 5);
    *c.get_mut() += 2;
    assert_eq!(*c.get(), 7);
    c.set(1);
    assert_eq!(*c.get(), 1);
}

#[test]
fn semaphore_lock_reaches_the_guarded_value() {
    let mut s: Semaphore<Vec<u8>> = Semaphore::new();
    s.init(vec![1, 2]);
    s.lock().push(3);
    assert_eq!(*s.lock(), vec![1, 2, 3]);
    s.init(Vec::new());
    assert!(s.lock().is_empty());
}

#[test]
fn with_lock_runs_closure_on_guarded_value() {
    let mut s: Semaphore<Vec<u8>> = Semaphore::new();
    s.init(vec![1]);
    let n = s.with_lock(|v| {
        v.push(2);
        v.len()
    });
    assert_eq!(n, 2);
    assert_eq!(*s.lock(), vec![1, 2]);
}
