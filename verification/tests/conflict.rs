use vector_clock_rs::conflict::{ConflictDetector, ConflictResult};
use vector_clock_rs::vector::VectorClock;

#[test]
fn test_ordered_events() {
    let mut det = ConflictDetector::new();
    let mut vc1 = VectorClock::new();
    vc1.increment(1);
    let mut vc2 = vc1.clone();
    vc2.increment(2);
    let a = det.register(vc1);
    let b = det.register(vc2);
    assert_eq!(det.check(a, b), ConflictResult::Ordered { first: 0, second: 1 });
}

#[test]
fn test_conflicting_events() {
    let mut det = ConflictDetector::new();
    let mut vc1 = VectorClock::new();
    vc1.increment(1);
    let mut vc2 = VectorClock::new();
    vc2.increment(2);
    let a = det.register(vc1);
    let b = det.register(vc2);
    assert_eq!(det.check(a, b), ConflictResult::Conflict { a: 0, b: 1 });
}

#[test]
fn test_identical_events() {
    let mut det = ConflictDetector::new();
    let mut vc1 = VectorClock::new();
    vc1.increment(1);
    let vc2 = vc1.clone();
    let a = det.register(vc1);
    let b = det.register(vc2);
    assert_eq!(det.check(a, b), ConflictResult::Identical);
}

#[test]
fn test_find_all_conflicts() {
    let mut det = ConflictDetector::new();
    // Three concurrent events
    let mut vc1 = VectorClock::new(); vc1.increment(1);
    let mut vc2 = VectorClock::new(); vc2.increment(2);
    let mut vc3 = VectorClock::new(); vc3.increment(3);
    det.register(vc1);
    det.register(vc2);
    det.register(vc3);
    let conflicts = det.find_all_conflicts();
    assert_eq!(conflicts.len(), 3); // (0,1), (0,2), (1,2)
}

#[test]
fn test_no_conflicts_in_chain() {
    let mut det = ConflictDetector::new();
    let mut vc1 = VectorClock::new(); vc1.increment(1);
    let mut vc2 = vc1.clone(); vc2.increment(2);
    let mut vc3 = vc2.clone(); vc3.increment(1);
    det.register(vc1);
    det.register(vc2);
    det.register(vc3);
    let conflicts = det.find_all_conflicts();
    assert!(conflicts.is_empty());
}
