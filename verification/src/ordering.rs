//! Causal ordering: happens-before relation, concurrent detection.
use crate::vector::{clock_value, concurrent, precedes, VectorClock};
use vstd::prelude::*;

verus! {

/// Causal ordering between two vector clocks.
#[derive(Debug, Clone, Copy, PartialEq, Eq, Structural)]
pub enum CausalOrder {
    /// First happened before second.
    Before,
    /// Second happened before first.
    After,
    /// Events are concurrent (no causal relation).
    Concurrent,
    /// Clocks are equal.
    Equal,
}

/// The causal relation between two clock maps.
pub open spec fn causal_order(a: Map<u64, u64>, b: Map<u64, u64>) -> CausalOrder {
    if a == b {
        CausalOrder::Equal
    } else if precedes(a, b) {
        CausalOrder::Before
    } else if precedes(b, a) {
        CausalOrder::After
    } else {
        CausalOrder::Concurrent
    }
}

/// The clock maps of a sequence of vector clocks.
pub open spec fn clock_maps(clocks: Seq<VectorClock>) -> Seq<Map<u64, u64>> {
    clocks.map_values(|c: VectorClock| c@)
}

/// `s` lists each of `0..n` exactly once.
pub open spec fn is_index_permutation(s: Seq<usize>, n: nat) -> bool {
    &&& s.len() == n
    &&& forall|k: int| 0 <= k < s.len() ==> #[trigger] s[k] < n
    &&& s.no_duplicates()
}

/// No clock listed in `s` happened before a clock listed ahead of it.
pub open spec fn topologically_ordered(c: Seq<Map<u64, u64>>, s: Seq<usize>) -> bool {
    forall|i: int, j: int|
        0 <= i < j < s.len() ==> !precedes(c[#[trigger] s[j] as int], c[#[trigger] s[i] as int])
}

/// Index `i` is not yet listed in `done`, and every clock that happened before
/// clock `i` is.
pub open spec fn ready(c: Seq<Map<u64, u64>>, done: Seq<usize>, i: int) -> bool {
    &&& 0 <= i < c.len()
    &&& !done.contains(i as usize)
    &&& forall|m: int| 0 <= m < c.len() && #[trigger] precedes(c[m], c[i]) ==> done.contains(m as usize)
}

/// Index `i` is the smallest index that is ready after `done`.
pub open spec fn next_in_causal_order(c: Seq<Map<u64, u64>>, done: Seq<usize>, i: int) -> bool {
    &&& ready(c, done, i)
    &&& forall|j: int| 0 <= j < i ==> !#[trigger] ready(c, done, j)
}

/// `s` lists, at each position, the smallest index that is ready after the
/// indices listed ahead of it: a topological order in which concurrent clocks
/// keep their insertion order wherever causality allows.
pub open spec fn smallest_ready_first(c: Seq<Map<u64, u64>>, s: Seq<usize>) -> bool {
    forall|k: int| 0 <= k < s.len() ==> next_in_causal_order(c, s.take(k), #[trigger] s[k] as int)
}

/// Determine causal ordering between two vector clocks.
pub fn compare_clocks(a: &VectorClock, b: &VectorClock) -> (r: CausalOrder)
    ensures
        r == causal_order(a@, b@),
{
    if a == b {
        return CausalOrder::Equal;
    }
    if a.happened_before(b) {
        return CausalOrder::Before;
    }
    if b.happened_before(a) {
        return CausalOrder::After;
    }
    CausalOrder::Concurrent
}

/// Check if `a` happened before `b`.
pub fn happens_before(a: &VectorClock, b: &VectorClock) -> (r: bool)
    ensures
        r == precedes(a@, b@),
{
    a.happened_before(b)
}

/// Check if two events are concurrent (neither happened before the other).
pub fn are_concurrent(a: &VectorClock, b: &VectorClock) -> (r: bool)
    ensures
        r == concurrent(a@, b@),
{
    a.is_concurrent_with(b)
}

/// Happens-before never relates a clock to itself.
pub proof fn lemma_precedes_irreflexive(a: Map<u64, u64>)
    ensures
        !precedes(a, a),
{
}

/// Happens-before is transitive.
pub proof fn lemma_precedes_transitive(a: Map<u64, u64>, b: Map<u64, u64>, c: Map<u64, u64>)
    requires
        precedes(a, b),
        precedes(b, c),
    ensures
        precedes(a, c),
{
    assert forall|pid: u64| clock_value(a, pid) <= #[trigger] clock_value(c, pid) by {
        assert(clock_value(a, pid) <= clock_value(b, pid));
        assert(clock_value(b, pid) <= clock_value(c, pid));
    }
    let pid = choose|pid: u64| clock_value(a, pid) < #[trigger] clock_value(b, pid);
    assert(clock_value(b, pid) <= clock_value(c, pid));
    assert(clock_value(a, pid) < clock_value(c, pid));
}

/// Happens-before never holds both ways.
pub proof fn lemma_precedes_asymmetric(a: Map<u64, u64>, b: Map<u64, u64>)
    requires
        precedes(a, b),
    ensures
        !precedes(b, a),
{
    let pid = choose|pid: u64| clock_value(a, pid) < #[trigger] clock_value(b, pid);
    if precedes(b, a) {
        assert(clock_value(b, pid) <= clock_value(a, pid));
    }
}

/// Concurrency is symmetric and never relates a clock to itself.
pub proof fn lemma_concurrent_symmetric(a: Map<u64, u64>, b: Map<u64, u64>)
    ensures
        concurrent(a, b) == concurrent(b, a),
        !concurrent(a, a),
{
}

/// Any two clocks are related in exactly one way: equal, one before the
/// other, or concurrent; and swapping them swaps `Before` and `After`.
pub proof fn lemma_causal_order_trichotomy(a: Map<u64, u64>, b: Map<u64, u64>)
    ensures
        (causal_order(a, b) == CausalOrder::Equal) == (a == b),
        (causal_order(a, b) == CausalOrder::Before) == precedes(a, b),
        (causal_order(a, b) == CausalOrder::After) == precedes(b, a),
        (causal_order(a, b) == CausalOrder::Concurrent) == concurrent(a, b),
        causal_order(a, b) == CausalOrder::Before <==> causal_order(b, a) == CausalOrder::After,
        causal_order(a, b) == CausalOrder::Equal <==> causal_order(b, a) == CausalOrder::Equal,
        causal_order(a, b) == CausalOrder::Concurrent <==> causal_order(b, a)
            == CausalOrder::Concurrent,
{
    if precedes(a, b) {
        lemma_precedes_asymmetric(a, b);
    }
    if precedes(b, a) {
        lemma_precedes_asymmetric(b, a);
    }
}

// ---------------------------------------------------------------------------
// Heights: a clock is taller than every clock that happened before it.
// ---------------------------------------------------------------------------

/// How many of the first `m` clocks of `c` happened before clock `k`.
pub open spec fn preceders(c: Seq<Map<u64, u64>>, k: int, m: nat) -> nat
    decreases m,
{
    if m == 0 {
        0
    } else {
        preceders(c, k, (m - 1) as nat) + if precedes(c[m - 1], c[k]) {
            1nat
        } else {
            0nat
        }
    }
}

/// The height of clock `k` among all clocks of `c`.
pub open spec fn height(c: Seq<Map<u64, u64>>, k: int) -> nat {
    preceders(c, k, c.len())
}

proof fn lemma_preceders_monotone(c: Seq<Map<u64, u64>>, a: int, b: int, m: nat)
    requires
        0 <= a < c.len(),
        0 <= b < c.len(),
        m <= c.len(),
        precedes(c[b], c[a]),
    ensures
        preceders(c, a, m) >= preceders(c, b, m) + if b < m {
            1nat
        } else {
            0nat
        },
    decreases m,
{
    if m > 0 {
        lemma_preceders_monotone(c, a, b, (m - 1) as nat);
        let j = m - 1;
        if precedes(c[j], c[b]) {
            lemma_precedes_transitive(c[j], c[b], c[a]);
        }
        if j == b {
            lemma_precedes_irreflexive(c[b]);
        }
    }
}

proof fn lemma_height_grows(c: Seq<Map<u64, u64>>, a: int, b: int)
    requires
        0 <= a < c.len(),
        0 <= b < c.len(),
        precedes(c[b], c[a]),
    ensures
        height(c, a) > height(c, b),
{
    lemma_preceders_monotone(c, a, b, c.len());
}

/// In a list that places the smallest ready index first, every smaller index
/// that is still unplaced at a position waits on a predecessor that is also
/// still unplaced; and every clock that happened before the one placed there is
/// already placed.
pub proof fn lemma_smallest_ready_first_waits_only_on_predecessors(
    c: Seq<Map<u64, u64>>,
    s: Seq<usize>,
)
    requires
        smallest_ready_first(c, s),
    ensures
        forall|k: int, j: int|
            #![trigger s[k], s.take(k).contains(j as usize)]
            0 <= k < s.len() && 0 <= j < s[k] && !s.take(k).contains(j as usize) ==> exists|m: int|
                0 <= m < c.len() && #[trigger] precedes(c[m], c[j]) && !s.take(k).contains(
                    m as usize,
                ),
        forall|k: int, m: int|
            0 <= k < s.len() && 0 <= m < c.len() && #[trigger] precedes(c[m], c[s[k] as int])
                ==> s.take(k).contains(m as usize),
        forall|k: int| 0 <= k < s.len() ==> !s.take(k).contains(#[trigger] s[k]),
{
    assert forall|k: int, j: int|
        #![trigger s[k], s.take(k).contains(j as usize)]
        0 <= k < s.len() && 0 <= j < s[k] && !s.take(k).contains(j as usize) implies exists|m: int|
        0 <= m < c.len() && #[trigger] precedes(c[m], c[j]) && !s.take(k).contains(m as usize) by {
        assert(next_in_causal_order(c, s.take(k), s[k] as int));
        assert(!ready(c, s.take(k), j));
    }
    assert forall|k: int, m: int|
        0 <= k < s.len() && 0 <= m < c.len() && #[trigger] precedes(c[m], c[s[k] as int]) implies s.take(
        k,
    ).contains(m as usize) by {
        assert(next_in_causal_order(c, s.take(k), s[k] as int));
    }
    assert forall|k: int| 0 <= k < s.len() implies !s.take(k).contains(#[trigger] s[k]) by {
        assert(next_in_causal_order(c, s.take(k), s[k] as int));
    }
}

/// Among the clocks not listed in `done`, one is ready: follow the clocks
/// that happened before `u` down to one with no unlisted predecessor.
proof fn lemma_ready_exists(c: Seq<Map<u64, u64>>, done: Seq<usize>, u: int)
    requires
        0 <= u < c.len(),
        !done.contains(u as usize),
    ensures
        exists|i: int| ready(c, done, i),
    decreases height(c, u),
{
    if !ready(c, done, u) {
        let m = choose|m: int|
            0 <= m < c.len() && #[trigger] precedes(c[m], c[u]) && !done.contains(m as usize);
        lemma_height_grows(c, u, m);
        lemma_ready_exists(c, done, m);
    } else {
        assert(ready(c, done, u));
    }
}

/// A list of distinct indices below `n` that is shorter than `n` misses one.
proof fn lemma_missing_index(s: Seq<usize>, n: usize)
    requires
        s.no_duplicates(),
        forall|k: int| 0 <= k < s.len() ==> #[trigger] s[k] < n,
        s.len() < n,
    ensures
        exists|i: usize| i < n && !s.contains(i),
    decreases n,
{
    let top = (n - 1) as usize;
    if s.contains(top) {
        let p = choose|p: int| 0 <= p < s.len() && s[p] == top;
        let t = s.remove(p);
        assert forall|k: int| 0 <= k < t.len() implies #[trigger] t[k] < (n - 1) as usize by {
            if k < p {
                assert(t[k] == s[k]);
            } else {
                assert(t[k] == s[k + 1]);
            }
        }
        assert(t.no_duplicates()) by {
            assert forall|x: int, y: int| 0 <= x < t.len() && 0 <= y < t.len() && x != y implies t[x]
                != t[y] by {
                let fx = if x < p {
                    x
                } else {
                    x + 1
                };
                let fy = if y < p {
                    y
                } else {
                    y + 1
                };
                assert(t[x] == s[fx]);
                assert(t[y] == s[fy]);
            }
        }
        lemma_missing_index(t, (n - 1) as usize);
        let i = choose|i: usize| i < n - 1 && !t.contains(i);
        if s.contains(i) {
            let q = choose|q: int| 0 <= q < s.len() && s[q] == i;
            if q < p {
                assert(t[q] == s[q]);
            } else if q > p {
                assert(t[q - 1] == s[q]);
            }
        }
    } else {
        assert(!s.contains((n - 1) as usize));
    }
}

/// Whether clock `i` has no clock that is not yet placed and happened before it.
fn all_predecessors_placed(clocks: &[VectorClock], placed: &Vec<bool>, i: usize) -> (r: bool)
    requires
        placed@.len() == clocks@.len(),
        i < clocks@.len(),
    ensures
        r == (forall|m: int|
            0 <= m < clocks@.len() && #[trigger] precedes(
                clock_maps(clocks@)[m],
                clock_maps(clocks@)[i as int],
            ) ==> placed@[m]),
{
    let ghost c = clock_maps(clocks@);
    let n = clocks.len();
    for m in 0..n
        invariant
            n == clocks@.len(),
            placed@.len() == n,
            i < n,
            c == clock_maps(clocks@),
            forall|k: int| 0 <= k < m && #[trigger] precedes(c[k], c[i as int]) ==> placed@[k],
    {
        proof {
            assert(c[m as int] == clocks@[m as int]@);
            assert(c[i as int] == clocks@[i as int]@);
        }
        if !placed[m] && clocks[m].happened_before(&clocks[i]) {
            return false;
        }
    }
    true
}

/// Sort a list of vector clocks in causal order (topological sort).
///
/// Returns the indices `0..clocks.len()` so that no clock is listed after a
/// clock that happened before it. Concurrent events keep their insertion
/// order as far as causality allows: each position takes the smallest index
/// whose predecessors are all listed already.
pub fn causal_sort(clocks: &[VectorClock]) -> (r: Vec<usize>)
    ensures
        is_index_permutation(r@, clocks@.len()),
        topologically_ordered(clock_maps(clocks@), r@),
        smallest_ready_first(clock_maps(clocks@), r@),
        forall|k: int, j: int|
            #![trigger r@[k], r@.take(k).contains(j as usize)]
            0 <= k < r@.len() && 0 <= j < r@[k] && !r@.take(k).contains(j as usize) ==> exists|
                m: int,
            |
                0 <= m < clocks@.len() && #[trigger] precedes(clocks@[m]@, clocks@[j]@)
                    && !r@.take(k).contains(m as usize),
{
    let ghost c = clock_maps(clocks@);
    let n = clocks.len();
    let mut placed: Vec<bool> = Vec::new();
    for k in 0..n
        invariant
            placed@.len() == k,
            forall|j: int| 0 <= j < k ==> !#[trigger] placed@[j],
    {
        placed.push(false);
    }
    let mut result: Vec<usize> = Vec::new();
    for step in 0..n
        invariant
            n == clocks@.len(),
            c == clock_maps(clocks@),
            c.len() == n,
            placed@.len() == n,
            result@.len() == step,
            forall|j: int| 0 <= j < n ==> #[trigger] placed@[j] == result@.contains(j as usize),
            forall|k: int| 0 <= k < result@.len() ==> #[trigger] result@[k] < n,
            result@.no_duplicates(),
            smallest_ready_first(c, result@),
    {
        let ghost done = result@;
        proof {
            lemma_missing_index(done, n);
            let u = choose|u: usize| u < n && !done.contains(u);
            lemma_ready_exists(c, done, u as int);
        }
        let mut i: usize = 0;
        let mut found = false;
        while i < n
            invariant
                n == clocks@.len(),
                c == clock_maps(clocks@),
                c.len() == n,
                placed@.len() == n,
                result@ == done,
                forall|j: int| 0 <= j < n ==> #[trigger] placed@[j] == done.contains(j as usize),
                exists|j: int| ready(c, done, j),
                i <= n,
                found ==> i < n && ready(c, done, i as int),
                forall|j: int| 0 <= j < i ==> !#[trigger] ready(c, done, j),
            ensures
                found,
                i < n,
                next_in_causal_order(c, done, i as int),
            decreases n - i, if found {
                0int
            } else {
                1int
            },
        {
            if !placed[i] && all_predecessors_placed(clocks, &placed, i) {
                proof {
                    assert forall|m: int| 0 <= m < c.len() && #[trigger] precedes(c[m], c[i as int])
                        implies done.contains(m as usize) by {
                        assert(placed@[m]);
                    }
                }
                found = true;
                break;
            }
            proof {
                if ready(c, done, i as int) {
                    let m = choose|m: int|
                        0 <= m < clocks@.len() && #[trigger] precedes(c[m], c[i as int])
                            && !placed@[m];
                    assert(done.contains(m as usize));
                }
            }
            i = i + 1;
        }
        proof {
            assert(result@.push(i).take(step as int) =~= done);
        }
        result.push(i);
        placed.set(i, true);
        proof {
            assert forall|k: int| 0 <= k < result@.len() implies next_in_causal_order(
                c,
                result@.take(k),
                #[trigger] result@[k] as int,
            ) by {
                if k < step {
                    assert(result@.take(k) =~= done.take(k));
                    assert(result@[k] == done[k]);
                } else {
                    assert(result@.take(k) =~= done);
                }
            }
            assert forall|j: int| 0 <= j < n implies #[trigger] placed@[j] == result@.contains(
                j as usize,
            ) by {
                if j == i {
                    assert(result@[step as int] == i);
                } else {
                    if result@.contains(j as usize) {
                        let q = choose|q: int| 0 <= q < result@.len() && result@[q] == j as usize;
                        assert(q < step);
                        assert(done[q] == j as usize);
                    }
                    if done.contains(j as usize) {
                        let q = choose|q: int| 0 <= q < done.len() && done[q] == j as usize;
                        assert(result@[q] == j as usize);
                    }
                }
            }
            assert(result@.no_duplicates()) by {
                assert forall|x: int, y: int|
                    0 <= x < result@.len() && 0 <= y < result@.len() && x != y implies result@[x]
                    != result@[y] by {
                    if x == step {
                        assert(done[y] == result@[y]);
                    } else if y == step {
                        assert(done[x] == result@[x]);
                    }
                }
            }
        }
    }
    proof {
        lemma_smallest_ready_first_waits_only_on_predecessors(c, result@);
        assert forall|k: int, j: int|
            #![trigger result@[k], result@.take(k).contains(j as usize)]
            0 <= k < result@.len() && 0 <= j < result@[k] && !result@.take(k).contains(
                j as usize,
            ) implies exists|m: int|
            0 <= m < clocks@.len() && #[trigger] precedes(clocks@[m]@, clocks@[j]@)
                && !result@.take(k).contains(m as usize) by {
            let m = choose|m: int|
                0 <= m < c.len() && #[trigger] precedes(c[m], c[j]) && !result@.take(k).contains(
                    m as usize,
                );
            assert(c[m] == clocks@[m]@);
            assert(c[j] == clocks@[j]@);
        }
        assert forall|i: int, j: int| 0 <= i < j < result@.len() implies !precedes(
            c[#[trigger] result@[j] as int],
            c[#[trigger] result@[i] as int],
        ) by {
            assert(next_in_causal_order(c, result@.take(i), result@[i] as int));
            if precedes(c[result@[j] as int], c[result@[i] as int]) {
                assert(result@.take(i).contains(result@[j]));
                let q = choose|q: int| 0 <= q < i && result@.take(i)[q] == result@[j];
                assert(result@[q] == result@[j]);
            }
        }
    }
    result
}

} // verus!
