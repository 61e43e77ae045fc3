use vector_clock_rs::merge::{clock_difference, merge_all, merge_clocks, merge_with_dominance};
use vector_clock_rs::vector::VectorClock;

#[test]
fn test_merge_clocks_basic() {
    let mut a = VectorClock::new();
    a.increment(1);
    let mut b = VectorClock::new();
    b.increment(2);
    let merged = merge_clocks(&a, &b);
    assert_eq!(merged.get(1), 1);
    assert_eq!(merged.get(2), 1);
}

#[test]
fn test_merge_takes_max() {
    let mut a = VectorClock::new();
    a.increment(1);
    a.increment(1); // pid 1 = 2
    let mut b = VectorClock::new();
    b.increment(1); // pid 1 = 1
    let merged = merge_clocks(&a, &b);
    assert_eq!(merged.get(1), 2);
}

#[test]
fn test_merge_with_dominance_a_dominates() {
    let mut a = VectorClock::new();
    a.increment(1);
    a.increment(2);
    let mut b = VectorClock::new();
    b.increment(1);
    let result = merge_with_dominance(&a, &b);
    assert_eq!(result, a);
}

#[test]
fn test_merge_all() {
    let mut a = VectorClock::new(); a.increment(1);
    let mut b = VectorClock::new(); b.increment(2);
    let mut c = VectorClock::new(); c.increment(1); c.increment(1); // pid 1 = 2
    let merged = merge_all(&[a, b, c]);
    assert_eq!(merged.get(1), 2);
    assert_eq!(merged.get(2), 1);
}

#[test]
fn test_clock_difference() {
    let mut a = VectorClock::new();
    a.increment(1);
    a.increment(1);
    a.increment(1); // pid 1 = 3
    let mut b = VectorClock::new();
    b.increment(1); // pid 1 = 1
    let diff = clock_difference(&a, &b);
    assert_eq!(diff.get(1), 2); // 3 - 1
}
