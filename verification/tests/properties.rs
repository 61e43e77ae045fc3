use std::cmp::Ordering;
use std::collections::HashMap;
use vector_clock_rs::conflict::{ConflictDetector, ConflictResult};
use vector_clock_rs::lamport::LamportClock;
use vector_clock_rs::merge::{clock_difference, merge_all, merge_clocks, merge_with_dominance};
use vector_clock_rs::ordering::{are_concurrent, causal_sort, compare_clocks, happens_before, CausalOrder};
use vector_clock_rs::vector::VectorClock;

fn clock_of(pairs: &[(u64, u64)]) -> VectorClock {
    let mut m = HashMap::new();
    for &(pid, ts) in pairs {
        m.insert(pid, ts);
    }
    VectorClock::from_map(m)
}

#[test]
fn lamport_default_and_compare() {
    let a = LamportClock::default();
    let b = LamportClock::with_timestamp(3);
    assert_eq!(a.timestamp(), 0);
    assert_eq!(a.compare(&b), Ordering::Less);
    assert_eq!(b.compare(&a), Ordering::Greater);
    assert_eq!(b.compare(&b.clone()), Ordering::Equal);
}

#[test]
fn lamport_receive_is_later_than_both() {
    let mut clock = LamportClock::with_timestamp(7);
    let ts = clock.receive(7);
    assert_eq!(ts, 8);
    assert!(ts > 7);
    let ts2 = clock.receive(0);
    assert_eq!(ts2, 9);
}

#[test]
fn lamport_receive_near_limit() {
    let mut clock = LamportClock::with_timestamp(u64::MAX - 2);
    assert_eq!(clock.receive(u64::MAX - 1), u64::MAX);
}

#[test]
fn vector_get_absent_is_zero_and_increment_returns_new_value() {
    let mut vc = VectorClock::default();
    assert_eq!(vc.get(42), 0);
    assert_eq!(vc.increment(42), 1);
    assert_eq!(vc.increment(42), 2);
    assert_eq!(vc.get(7), 0);
}

#[test]
fn vector_processes_sorted() {
    let vc = clock_of(&[(5, 1), (1, 2), (3, 9)]);
    assert_eq!(vc.processes(), vec![1, 3, 5]);
    assert_eq!(VectorClock::new().processes(), Vec::<u64>::new());
}

#[test]
fn vector_as_map_and_from_map() {
    let vc = clock_of(&[(2, 4)]);
    assert_eq!(vc.as_map().get(&2), Some(&4));
    assert_eq!(vc.as_map().len(), 1);
}

#[test]
fn vector_equality_is_map_equality() {
    // A clock that mentions a process with count 0 differs from one that does not mention it.
    let zero = clock_of(&[(1, 0)]);
    assert!(zero != VectorClock::new());
    assert_eq!(clock_of(&[(1, 2), (3, 1)]), clock_of(&[(3, 1), (1, 2)]));
    assert!(clock_of(&[(1, 2)]) != clock_of(&[(1, 3)]));
    assert!(clock_of(&[(1, 2)]) != clock_of(&[(1, 2), (2, 1)]));
}

#[test]
fn vector_merge_in_place() {
    let mut a = clock_of(&[(1, 3), (2, 1)]);
    let b = clock_of(&[(2, 5), (4, 2)]);
    a.merge(&b);
    assert_eq!(a, clock_of(&[(1, 3), (2, 5), (4, 2)]));
}

#[test]
fn merge_laws_on_values() {
    let a = clock_of(&[(1, 3), (2, 1)]);
    let b = clock_of(&[(2, 5), (4, 2)]);
    let c = clock_of(&[(1, 1), (4, 7)]);
    assert_eq!(a.merged(&b), b.merged(&a));
    assert_eq!(a.merged(&b).merged(&c), a.merged(&b.merged(&c)));
    assert_eq!(a.merged(&a), a);
    let m = merge_clocks(&a, &b);
    assert!(!happens_before(&m, &a));
    assert!(!happens_before(&m, &b));
    assert!(happens_before(&a, &m));
}

#[test]
fn happens_before_is_irreflexive_and_asymmetric() {
    let a = clock_of(&[(1, 1)]);
    let b = clock_of(&[(1, 2)]);
    assert!(!a.happened_before(&a));
    assert!(a.happened_before(&b));
    assert!(!b.happened_before(&a));
    assert!(!are_concurrent(&a, &a));
}

#[test]
fn happens_before_needs_every_component() {
    // Keys only in `a` count too.
    let a = clock_of(&[(1, 1), (2, 1)]);
    let b = clock_of(&[(1, 2)]);
    assert!(!a.happened_before(&b));
    assert!(!b.happened_before(&a));
    assert!(a.is_concurrent_with(&b));
    assert!(b.is_concurrent_with(&a));
}

#[test]
fn happens_before_is_transitive() {
    let a = clock_of(&[(1, 1)]);
    let b = clock_of(&[(1, 1), (2, 1)]);
    let c = clock_of(&[(1, 2), (2, 1)]);
    assert!(a.happened_before(&b));
    assert!(b.happened_before(&c));
    assert!(a.happened_before(&c));
}

#[test]
fn increment_advances_clock() {
    let a = clock_of(&[(1, 4), (9, 2)]);
    let mut b = a.clone();
    b.increment(9);
    assert!(a.happened_before(&b));
    assert_eq!(b.get(9), 3);
}

#[test]
fn compare_after_and_concurrent() {
    let a = clock_of(&[(1, 2)]);
    let b = clock_of(&[(1, 1)]);
    let c = clock_of(&[(2, 1)]);
    assert_eq!(compare_clocks(&a, &b), CausalOrder::After);
    assert_eq!(compare_clocks(&b, &a), CausalOrder::Before);
    assert_eq!(compare_clocks(&a, &c), CausalOrder::Concurrent);
    assert_eq!(compare_clocks(&c, &a), CausalOrder::Concurrent);
}

#[test]
fn dominance_b_dominates() {
    let a = clock_of(&[(1, 1)]);
    let b = clock_of(&[(1, 2), (2, 1)]);
    assert_eq!(merge_with_dominance(&a, &b), b);
}

#[test]
fn dominance_neither_merges() {
    let a = clock_of(&[(1, 3)]);
    let b = clock_of(&[(2, 1)]);
    assert_eq!(merge_with_dominance(&a, &b), clock_of(&[(1, 3), (2, 1)]));
}

#[test]
fn dominance_looks_at_every_component() {
    // `a` is ahead on process 1 but behind on process 2, which only `b` mentions.
    let a = clock_of(&[(1, 2)]);
    let b = clock_of(&[(1, 1), (2, 5)]);
    assert_eq!(merge_with_dominance(&a, &b), clock_of(&[(1, 2), (2, 5)]));
}

#[test]
fn merge_all_empty_and_bounds() {
    let empty: [VectorClock; 0] = [];
    assert_eq!(merge_all(&empty), VectorClock::new());
    let a = clock_of(&[(1, 3)]);
    let b = clock_of(&[(1, 1), (2, 4)]);
    let m = merge_all(&[a.clone(), b.clone()]);
    assert_eq!(m, clock_of(&[(1, 3), (2, 4)]));
}

#[test]
fn clock_difference_only_where_ahead() {
    let a = clock_of(&[(1, 5), (2, 1), (3, 2)]);
    let b = clock_of(&[(1, 2), (2, 4), (4, 9)]);
    let diff = clock_difference(&a, &b);
    assert_eq!(diff, clock_of(&[(1, 3), (3, 2)]));
    assert_eq!(diff.get(2), 0);
    assert_eq!(diff.get(4), 0);
}

#[test]
fn causal_sort_moves_later_clock_back() {
    let early = clock_of(&[(1, 1)]);
    let late = clock_of(&[(1, 2)]);
    assert_eq!(causal_sort(&[late, early]), vec![1, 0]);
}

#[test]
fn causal_sort_keeps_concurrent_order() {
    let a = clock_of(&[(1, 1)]);
    let b = clock_of(&[(2, 1)]);
    let c = clock_of(&[(3, 1)]);
    assert_eq!(causal_sort(&[a, b, c]), vec![0, 1, 2]);
    assert_eq!(causal_sort(&[]), Vec::<usize>::new());
}

#[test]
fn causal_sort_chain_reversed() {
    let c1 = clock_of(&[(1, 1)]);
    let c2 = clock_of(&[(1, 2)]);
    let c3 = clock_of(&[(1, 3)]);
    assert_eq!(causal_sort(&[c3, c2, c1]), vec![2, 1, 0]);
}

#[test]
fn conflict_check_both_ways() {
    let mut det = ConflictDetector::default();
    assert!(det.is_empty());
    let first = clock_of(&[(1, 1)]);
    let second = clock_of(&[(1, 2)]);
    let other = clock_of(&[(2, 1)]);
    det.register(first);
    det.register(second);
    det.register(other);
    assert_eq!(det.len(), 3);
    assert!(!det.is_empty());
    assert_eq!(det.check(1, 0), ConflictResult::Ordered { first: 0, second: 1 });
    assert_eq!(det.check(0, 1), ConflictResult::Ordered { first: 0, second: 1 });
    assert_eq!(det.check(2, 0), ConflictResult::Conflict { a: 2, b: 0 });
    assert_eq!(det.check(1, 1), ConflictResult::Identical);
    assert_eq!(det.find_all_conflicts(), vec![(0, 2), (1, 2)]);
}

#[test]
fn conflict_pairs_in_lexicographic_order() {
    let mut det = ConflictDetector::new();
    for pid in 1..=4u64 {
        det.register(clock_of(&[(pid, 1)]));
    }
    assert_eq!(
        det.find_all_conflicts(),
        vec![(0, 1), (0, 2), (0, 3), (1, 2), (1, 3), (2, 3)]
    );
}

#[test]
fn causal_sort_places_predecessor_ahead_of_non_neighbour() {
    // The third clock happened before the first; the second is concurrent with both.
    let c0 = clock_of(&[(1, 2)]);
    let c1 = clock_of(&[(2, 1)]);
    let c2 = clock_of(&[(1, 1)]);
    assert_eq!(causal_sort(&[c0, c1, c2]), vec![1, 2, 0]);
}

#[test]
fn causal_sort_is_topological() {
    let clocks = [
        clock_of(&[(1, 3), (2, 1)]),
        clock_of(&[(3, 1)]),
        clock_of(&[(1, 1)]),
        clock_of(&[(1, 2), (2, 1)]),
        clock_of(&[(3, 1), (4, 1)]),
    ];
    let sorted = causal_sort(&clocks);
    assert_eq!(sorted, vec![1, 2, 3, 0, 4]);
    for i in 0..sorted.len() {
        for j in (i + 1)..sorted.len() {
            assert!(!clocks[sorted[j]].happened_before(&clocks[sorted[i]]));
        }
    }
}
