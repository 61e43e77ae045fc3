//! Conflict detection between concurrent events.
use crate::ordering::{clock_maps, lemma_precedes_asymmetric};
use crate::vector::{concurrent, precedes, VectorClock};
use vstd::prelude::*;

verus! {

/// Result of conflict detection.
#[derive(Debug, PartialEq, Eq, Structural)]
pub enum ConflictResult {
    /// No conflict: one happened before the other.
    Ordered { first: usize, second: usize },
    /// Conflict: events are concurrent.
    Conflict { a: usize, b: usize },
    /// Identical clocks — same event or merge.
    Identical,
}

impl Clone for ConflictResult {
    fn clone(&self) -> (r: Self)
        ensures
            r == *self,
    {
        match self {
            ConflictResult::Ordered { first, second } => ConflictResult::Ordered {
                first: *first,
                second: *second,
            },
            ConflictResult::Conflict { a, b } => ConflictResult::Conflict { a: *a, b: *b },
            ConflictResult::Identical => ConflictResult::Identical,
        }
    }
}

/// What checking events `a` and `b`, with clocks `x` and `y`, reports.
pub open spec fn conflict_result(x: Map<u64, u64>, y: Map<u64, u64>, a: usize, b: usize) -> ConflictResult {
    if x == y {
        ConflictResult::Identical
    } else if precedes(x, y) {
        ConflictResult::Ordered { first: a, second: b }
    } else if precedes(y, x) {
        ConflictResult::Ordered { first: b, second: a }
    } else {
        ConflictResult::Conflict { a, b }
    }
}

/// `p` names two registered events, the first listed before the second, whose
/// clocks are concurrent.
pub open spec fn is_conflict_pair(events: Seq<Map<u64, u64>>, p: (usize, usize)) -> bool {
    &&& p.0 < p.1
    &&& p.1 < events.len()
    &&& concurrent(events[p.0 as int], events[p.1 as int])
}

/// Lexicographic order on index pairs.
pub open spec fn pair_lt(p: (usize, usize), q: (usize, usize)) -> bool {
    p.0 < q.0 || (p.0 == q.0 && p.1 < q.1)
}

/// Detects conflicts between events using vector clocks.
#[derive(Debug)]
pub struct ConflictDetector {
    events: Vec<VectorClock>,
}

impl View for ConflictDetector {
    type V = Seq<Map<u64, u64>>;

    /// The clocks of the registered events, in registration order.
    closed spec fn view(&self) -> Seq<Map<u64, u64>> {
        clock_maps(self.events@)
    }
}

impl ConflictDetector {
    /// A detector with no registered events.
    pub fn new() -> (d: Self)
        ensures
            d@ == Seq::<Map<u64, u64>>::empty(),
    {
        let d = ConflictDetector { events: Vec::new() };
        assert(d@ =~= Seq::<Map<u64, u64>>::empty());
        d
    }

    /// Register an event's vector clock, returning its index.
    pub fn register(&mut self, clock: VectorClock) -> (idx: usize)
        ensures
            idx == old(self)@.len(),
            final(self)@ == old(self)@.push(clock@),
    {
        let idx = self.events.len();
        let ghost c = clock@;
        self.events.push(clock);
        assert(self@ =~= old(self)@.push(c));
        idx
    }

    /// Check for conflict between two registered events.
    pub fn check(&self, a: usize, b: usize) -> (r: ConflictResult)
        requires
            a < self@.len(),
            b < self@.len(),
        ensures
            r == conflict_result(self@[a as int], self@[b as int], a, b),
            self@[a as int] != self@[b as int] && precedes(self@[a as int], self@[b as int]) ==> r
                == (ConflictResult::Ordered { first: a, second: b }),
            self@[a as int] != self@[b as int] && precedes(self@[b as int], self@[a as int]) ==> r
                == (ConflictResult::Ordered { first: b, second: a }),
            r is Conflict ==> concurrent(self@[a as int], self@[b as int]),
    {
        proof {
            lemma_check_follows_causality(self@[a as int], self@[b as int], a, b);
        }
        let vc_a = &self.events[a];
        let vc_b = &self.events[b];

        if vc_a == vc_b {
            return ConflictResult::Identical;
        }
        if vc_a.happened_before(vc_b) {
            return ConflictResult::Ordered { first: a, second: b };
        }
        if vc_b.happened_before(vc_a) {
            return ConflictResult::Ordered { first: b, second: a };
        }
        ConflictResult::Conflict { a, b }
    }

    /// Find all conflicting pairs among registered events, in increasing
    /// lexicographic order.
    pub fn find_all_conflicts(&self) -> (r: Vec<(usize, usize)>)
        ensures
            forall|k: int| 0 <= k < r@.len() ==> is_conflict_pair(self@, #[trigger] r@[k]),
            forall|i: usize, j: usize|
                is_conflict_pair(self@, (i, j)) ==> #[trigger] r@.contains((i, j)),
            forall|k: int, l: int| 0 <= k < l < r@.len() ==> pair_lt(r@[k], r@[l]),
    {
        let mut conflicts: Vec<(usize, usize)> = Vec::new();
        let n = self.events.len();
        for i in 0..n
            invariant
                n == self@.len(),
                forall|k: int|
                    0 <= k < conflicts@.len() ==> is_conflict_pair(self@, #[trigger] conflicts@[k])
                        && conflicts@[k].0 < i,
                forall|p: usize, q: usize|
                    p < i && is_conflict_pair(self@, (p, q)) ==> #[trigger] conflicts@.contains(
                        (p, q),
                    ),
                forall|k: int, l: int|
                    0 <= k < l < conflicts@.len() ==> pair_lt(conflicts@[k], conflicts@[l]),
        {
            for j in (i + 1)..n
                invariant
                    n == self@.len(),
                    i < n,
                    forall|k: int|
                        0 <= k < conflicts@.len() ==> is_conflict_pair(
                            self@,
                            #[trigger] conflicts@[k],
                        ) && pair_lt(conflicts@[k], (i, j)),
                    forall|p: usize, q: usize|
                        (p < i || (p == i && q < j)) && is_conflict_pair(self@, (p, q))
                            ==> #[trigger] conflicts@.contains((p, q)),
                    forall|k: int, l: int|
                        0 <= k < l < conflicts@.len() ==> pair_lt(conflicts@[k], conflicts@[l]),
            {
                if let ConflictResult::Conflict { a: _, b: _ } = self.check(i, j) {
                    let ghost before = conflicts@;
                    conflicts.push((i, j));
                    proof {
                        assert(conflicts@[before.len() as int] == (i, j));
                        assert forall|p: usize, q: usize|
                            (p < i || (p == i && q < j + 1)) && is_conflict_pair(self@, (p, q))
                                implies #[trigger] conflicts@.contains((p, q)) by {
                            if p == i && q == j {
                                assert(conflicts@[before.len() as int] == (p, q));
                            } else {
                                assert(before.contains((p, q)));
                                let k = choose|k: int| 0 <= k < before.len() && before[k] == (p, q);
                                assert(conflicts@[k] == (p, q));
                            }
                        }
                    }
                } else {
                    proof {
                        assert forall|p: usize, q: usize|
                            (p < i || (p == i && q < j + 1)) && is_conflict_pair(self@, (p, q))
                                implies #[trigger] conflicts@.contains((p, q)) by {
                            if p == i && q == j {
                                assert(!concurrent(self@[i as int], self@[j as int]));
                            }
                        }
                    }
                }
            }
            proof {
                assert forall|p: usize, q: usize|
                    p < i + 1 && is_conflict_pair(self@, (p, q)) implies #[trigger] conflicts@.contains(
                        (p, q),
                    ) by {
                    if p == i {
                        assert(q < n);
                    }
                }
            }
        }
        conflicts
    }

    /// Number of registered events.
    pub fn len(&self) -> (n: usize)
        ensures
            n == self@.len(),
    {
        self.events.len()
    }

    /// Is the detector empty?
    pub fn is_empty(&self) -> (r: bool)
        ensures
            r == (self@.len() == 0),
    {
        self.events.len() == 0
    }
}

impl Default for ConflictDetector {
    fn default() -> (d: Self)
        ensures
            d@ == Seq::<Map<u64, u64>>::empty(),
    {
        Self::new()
    }
}

/// What `check` reports follows the causal relation of the two clocks alone,
/// whatever the two indices are: identical clocks are `Identical`; when one
/// clock happened before the other, the pair is `Ordered` with the earlier
/// event first; otherwise the pair is a `Conflict` of the two events.
pub proof fn lemma_check_follows_causality(x: Map<u64, u64>, y: Map<u64, u64>, a: usize, b: usize)
    ensures
        x == y ==> conflict_result(x, y, a, b) == ConflictResult::Identical,
        x != y && precedes(x, y) ==> conflict_result(x, y, a, b) == (ConflictResult::Ordered {
            first: a,
            second: b,
        }),
        x != y && precedes(y, x) ==> conflict_result(x, y, a, b) == (ConflictResult::Ordered {
            first: b,
            second: a,
        }),
        x != y && !precedes(x, y) && !precedes(y, x) ==> conflict_result(x, y, a, b) == (
        ConflictResult::Conflict { a, b }),
        conflict_result(x, y, a, b) is Conflict ==> concurrent(x, y),
{
    if precedes(x, y) {
        lemma_precedes_asymmetric(x, y);
    }
}

/// Checking a pair the other way round reports the same relation: identical
/// stays identical, an ordered pair keeps its first and second event, and a
/// conflict names the same two events; an ordered pair always puts the event
/// that happened first in `first`.
pub proof fn lemma_check_symmetric(x: Map<u64, u64>, y: Map<u64, u64>, a: usize, b: usize)
    ensures
        (conflict_result(x, y, a, b) == ConflictResult::Identical) == (conflict_result(y, x, b, a)
            == ConflictResult::Identical),
        conflict_result(x, y, a, b) is Ordered ==> conflict_result(y, x, b, a) == conflict_result(
            x,
            y,
            a,
            b,
        ),
        conflict_result(x, y, a, b) == (ConflictResult::Conflict { a, b }) <==> conflict_result(
            y,
            x,
            b,
            a,
        ) == (ConflictResult::Conflict { a: b, b: a }),
        conflict_result(x, y, a, b) == (ConflictResult::Ordered { first: a, second: b }) && a != b
            ==> precedes(x, y),
        conflict_result(x, y, a, b) == (ConflictResult::Ordered { first: b, second: a }) && a != b
            ==> precedes(y, x),
{
    if precedes(x, y) {
        lemma_precedes_asymmetric(x, y);
    }
    if precedes(y, x) {
        lemma_precedes_asymmetric(y, x);
    }
}

} // verus!
