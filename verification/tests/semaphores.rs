use futures_tutorial::semaphore::{Increment, Semaphore};

#[test]
fn grants_up_to_max_then_queues() {
    let mut sem = Semaphore::new(2);
    let g1 = match sem.increment(1) {
        Increment::Granted(g) => g,
        Increment::Queued => panic!("slot expected"),
    };
    assert_eq!(g1.holder(), 1);
    assert!(matches!(sem.increment(2), Increment::Granted(_)));
    assert_eq!(sem.in_use(), 2);
    assert!(matches!(sem.increment(3), Increment::Queued));
    assert!(matches!(sem.increment(4), Increment::Queued));
    assert_eq!(sem.in_use(), 2);
}

#[test]
fn release_serves_waiters_in_order() {
    let mut sem = Semaphore::new(1);
    let g = match sem.increment(10) {
        Increment::Granted(g) => g,
        Increment::Queued => panic!("slot expected"),
    };
    assert!(matches!(sem.increment(11), Increment::Queued));
    assert!(matches!(sem.increment(12), Increment::Queued));
    assert!(sem.holds(&g));
    let g11 = sem.release(g).expect("first waiter served");
    assert!(sem.holds(&g11));
    assert_eq!(g11.holder(), 11);
    assert_eq!(sem.in_use(), 1);
    let g12 = sem.release(g11).expect("second waiter served");
    assert_eq!(g12.holder(), 12);
    assert!(sem.release(g12).is_none());
    assert_eq!(sem.in_use(), 0);
}

#[test]
fn grant_then_release_restores() {
    let mut sem = Semaphore::new(3);
    let g = match sem.increment(7) {
        Increment::Granted(g) => g,
        Increment::Queued => panic!("slot expected"),
    };
    assert_eq!(sem.in_use(), 1);
    assert!(sem.release(g).is_none());
    assert_eq!(sem.in_use(), 0);
}

#[test]
fn zero_slots_always_queue() {
    let mut sem = Semaphore::new(0);
    assert!(matches!(sem.increment(1), Increment::Queued));
    assert!(matches!(sem.increment(2), Increment::Queued));
    assert_eq!(sem.in_use(), 0);
}

#[test]
fn holders_are_tracked() {
    let mut a = Semaphore::new(2);
    let mut b = Semaphore::new(2);
    let ga = match a.increment(1) {
        Increment::Granted(g) => g,
        Increment::Queued => panic!("slot expected"),
    };
    let gb = match b.increment(2) {
        Increment::Granted(g) => g,
        Increment::Queued => panic!("slot expected"),
    };
    assert!(a.holds(&ga));
    assert!(!a.holds(&gb));
    assert!(b.holds(&gb));
    assert!(a.release(ga).is_none());
    assert_eq!(a.in_use(), 0);
    assert_eq!(b.in_use(), 1);
}
