use vector_clock_rs::ordering::{are_concurrent, causal_sort, compare_clocks, happens_before, CausalOrder};
use vector_clock_rs::vector::VectorClock;

#[test]
fn test_happens_before_relation() {
    let mut a = VectorClock::new();
    a.increment(1);
    let mut b = a.clone();
    b.increment(2);
    assert!(happens_before(&a, &b));
    assert!(!happens_before(&b, &a));
}

#[test]
fn test_concurrent_detection() {
    let mut a = VectorClock::new();
    a.increment(1);
    let mut b = VectorClock::new();
    b.increment(2);
    assert!(are_concurrent(&a, &b));
}

#[test]
fn test_compare_before() {
    let mut a = VectorClock::new();
    a.increment(1);
    let mut b = a.clone();
    b.increment(1);
    assert_eq!(compare_clocks(&a, &b), CausalOrder::Before);
}

#[test]
fn test_compare_equal() {
    let mut a = VectorClock::new();
    a.increment(1);
    let b = a.clone();
    assert_eq!(compare_clocks(&a, &b), CausalOrder::Equal);
}

#[test]
fn test_causal_sort() {
    let mut vc1 = VectorClock::new(); vc1.increment(1);
    let vc3 = vc1.clone();
    let mut vc2 = vc1.clone(); vc2.increment(2);
    // vc1 < vc2, vc3 == vc1, so sorted should put vc1/vc3 before vc2
    let sorted = causal_sort(&[vc2.clone(), vc1.clone(), vc3.clone()]);
    // vc2 should come after vc1
    let pos_vc1 = sorted.iter().position(|&i| i == 1).unwrap();
    let pos_vc2 = sorted.iter().position(|&i| i == 0).unwrap();
    assert!(pos_vc1 < pos_vc2);
}
