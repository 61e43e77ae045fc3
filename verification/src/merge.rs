//! Clock merging and synchronization.
use crate::ordering::clock_maps;
use crate::vector::{all_leq, clock_value, max_u64, merge_maps, VectorClock};
use vstd::prelude::*;

verus! {

/// The merge of a whole sequence of clocks, folded from the empty clock.
pub open spec fn merge_seq(s: Seq<Map<u64, u64>>) -> Map<u64, u64>
    decreases s.len(),
{
    if s.len() == 0 {
        Map::empty()
    } else {
        merge_maps(merge_seq(s.drop_last()), s.last())
    }
}

/// What merging `a` with `b` under dominance yields: `a` when it is at least
/// `b` in every component, else `b` when it is at least `a` in every
/// component, else the component-wise maximum.
pub open spec fn dominance_merge(a: Map<u64, u64>, b: Map<u64, u64>) -> Map<u64, u64> {
    if all_leq(b, a) {
        a
    } else if all_leq(a, b) {
        b
    } else {
        merge_maps(a, b)
    }
}

/// The components where `a` is ahead of `b`, each holding by how much.
pub open spec fn difference_map(a: Map<u64, u64>, b: Map<u64, u64>) -> Map<u64, u64> {
    Map::new(
        |pid: u64| a.contains_key(pid) && a[pid] > clock_value(b, pid),
        |pid: u64| (a[pid] - clock_value(b, pid)) as u64,
    )
}

/// `difference_map` restricted to the processes listed in `keys`.
pub open spec fn difference_on_keys(a: Map<u64, u64>, b: Map<u64, u64>, keys: Seq<u64>) -> Map<
    u64,
    u64,
> {
    difference_map(a, b).restrict(keys.to_set())
}

/// Merging under dominance gives every process the same counter as a plain merge.
pub proof fn lemma_dominance_merge_agrees(a: Map<u64, u64>, b: Map<u64, u64>, pid: u64)
    ensures
        clock_value(dominance_merge(a, b), pid) == clock_value(merge_maps(a, b), pid),
{
    if all_leq(b, a) {
        assert(clock_value(b, pid) <= clock_value(a, pid));
    } else if all_leq(a, b) {
        assert(clock_value(a, pid) <= clock_value(b, pid));
    }
}

/// The merge of a sequence holds, for each process, the largest counter any
/// clock of the sequence holds for it (0 when none mentions it).
pub proof fn lemma_merge_seq_is_max(s: Seq<Map<u64, u64>>, pid: u64)
    ensures
        forall|i: int| 0 <= i < s.len() ==> clock_value(#[trigger] s[i], pid) <= clock_value(
            merge_seq(s),
            pid,
        ),
        clock_value(merge_seq(s), pid) == 0 || exists|i: int|
            0 <= i < s.len() && clock_value(#[trigger] s[i], pid) == clock_value(merge_seq(s), pid),
    decreases s.len(),
{
    if s.len() > 0 {
        let t = s.drop_last();
        lemma_merge_seq_is_max(t, pid);
        assert forall|i: int| 0 <= i < s.len() implies clock_value(#[trigger] s[i], pid)
            <= clock_value(merge_seq(s), pid) by {
            if i < t.len() {
                assert(s[i] == t[i]);
            }
        }
        if clock_value(merge_seq(s), pid) != 0 {
            if clock_value(merge_seq(s), pid) == clock_value(s.last(), pid) {
                assert(s[s.len() - 1] == s.last());
            } else {
                let i = choose|i: int|
                    0 <= i < t.len() && clock_value(#[trigger] t[i], pid) == clock_value(
                        merge_seq(t),
                        pid,
                    );
                assert(s[i] == t[i]);
            }
        }
    }
}

/// The difference holds, for each process, how far `a` is ahead of `b`
/// (0 where it is not ahead).
pub proof fn lemma_difference_values(a: Map<u64, u64>, b: Map<u64, u64>, pid: u64)
    ensures
        clock_value(difference_map(a, b), pid) == if clock_value(a, pid) > clock_value(b, pid) {
            clock_value(a, pid) - clock_value(b, pid)
        } else {
            0
        },
{
}

/// Merge two vector clocks by taking component-wise maximum.
pub fn merge_clocks(a: &VectorClock, b: &VectorClock) -> (r: VectorClock)
    ensures
        r@ == merge_maps(a@, b@),
{
    a.merged(b)
}

/// Whether every process listed in `pids` has in `a` at least its count in `b`.
fn at_least_on(a: &VectorClock, b: &VectorClock, pids: &Vec<u64>) -> (r: bool)
    ensures
        r == (forall|k: int|
            0 <= k < pids@.len() ==> clock_value(b@, #[trigger] pids@[k]) <= clock_value(
                a@,
                pids@[k],
            )),
{
    let n = pids.len();
    for i in 0..n
        invariant
            n == pids@.len(),
            forall|k: int|
                0 <= k < i ==> clock_value(b@, #[trigger] pids@[k]) <= clock_value(a@, pids@[k]),
    {
        let pid = pids[i];
        if a.get(pid) < b.get(pid) {
            return false;
        }
    }
    true
}

/// Whether `a` is at least `b` in every component of either clock.
fn dominates(a: &VectorClock, b: &VectorClock) -> (r: bool)
    ensures
        r == all_leq(b@, a@),
{
    let pa = a.processes();
    let pb = b.processes();
    let on_a = at_least_on(a, b, &pa);
    let on_b = at_least_on(a, b, &pb);
    proof {
        if on_a && on_b {
            assert forall|pid: u64| clock_value(b@, pid) <= #[trigger] clock_value(a@, pid) by {
                if a@.contains_key(pid) {
                    assert(pa@.to_set().contains(pid));
                    let k = choose|k: int| 0 <= k < pa@.len() && pa@[k] == pid;
                    assert(clock_value(b@, pa@[k]) <= clock_value(a@, pa@[k]));
                } else if b@.contains_key(pid) {
                    assert(pb@.to_set().contains(pid));
                    let k = choose|k: int| 0 <= k < pb@.len() && pb@[k] == pid;
                    assert(clock_value(b@, pb@[k]) <= clock_value(a@, pb@[k]));
                }
            }
        }
        if !on_a {
            let k = choose|k: int|
                0 <= k < pa@.len() && !(clock_value(b@, #[trigger] pa@[k]) <= clock_value(
                    a@,
                    pa@[k],
                ));
            assert(!(clock_value(b@, pa@[k]) <= clock_value(a@, pa@[k])));
        }
        if !on_b {
            let k = choose|k: int|
                0 <= k < pb@.len() && !(clock_value(b@, #[trigger] pb@[k]) <= clock_value(
                    a@,
                    pb@[k],
                ));
            assert(!(clock_value(b@, pb@[k]) <= clock_value(a@, pb@[k])));
        }
    }
    on_a && on_b
}

/// Merge clocks where one dominates: if one clock has at least the other's
/// value in every component, return (a copy of) it; otherwise merge.
pub fn merge_with_dominance(a: &VectorClock, b: &VectorClock) -> (r: VectorClock)
    ensures
        r@ == dominance_merge(a@, b@),
{
    let all_a_ge = dominates(a, b);
    let all_b_ge = dominates(b, a);
    if all_a_ge {
        a.clone()
    } else if all_b_ge {
        b.clone()
    } else {
        merge_clocks(a, b)
    }
}

/// Merge a list of clocks into one.
pub fn merge_all(clocks: &[VectorClock]) -> (r: VectorClock)
    ensures
        r@ == merge_seq(clock_maps(clocks@)),
{
    let ghost c = clock_maps(clocks@);
    let mut result = VectorClock::new();
    let n = clocks.len();
    for i in 0..n
        invariant
            n == clocks@.len(),
            c == clock_maps(clocks@),
            result@ == merge_seq(c.take(i as int)),
    {
        proof {
            assert(c.take(i + 1).drop_last() =~= c.take(i as int));
        }
        result.merge(&clocks[i]);
    }
    proof {
        assert(c.take(n as int) =~= c);
    }
    result
}

/// Compute the "difference" between two clocks: for each process where `a`
/// is ahead of `b`, by how much.
pub fn clock_difference(a: &VectorClock, b: &VectorClock) -> (r: VectorClock)
    ensures
        r@ == difference_map(a@, b@),
{
    let mut diff = VectorClock::new();
    let pids = a.processes();
    let n = pids.len();
    proof {
        assert(difference_on_keys(a@, b@, pids@.take(0)) =~= Map::empty());
        assert(pids@.no_duplicates()) by {
            assert forall|x: int, y: int|
                0 <= x < pids@.len() && 0 <= y < pids@.len() && x != y implies pids@[x]
                != pids@[y] by {
                if x < y {
                    assert(pids@[x] < pids@[y]);
                } else {
                    assert(pids@[y] < pids@[x]);
                }
            }
        }
    }
    for i in 0..n
        invariant
            n == pids@.len(),
            pids@.no_duplicates(),
            pids@.to_set() == a@.dom(),
            diff@ == difference_on_keys(a@, b@, pids@.take(i as int)),
    {
        let pid = pids[i];
        let va = a.get(pid);
        let vb = b.get(pid);
        let ghost base = diff@;
        proof {
            assert(!pids@.take(i as int).contains(pid)) by {
                if pids@.take(i as int).contains(pid) {
                    let j = choose|j: int| 0 <= j < i && pids@.take(i as int)[j] == pid;
                    assert(pids@[j] == pids@[i as int]);
                }
            }
            assert(!base.contains_key(pid));
            assert(pids@.take(i + 1) =~= pids@.take(i as int).push(pid));
            pids@.take(i as int).lemma_push_to_set_commute(pid);
            assert(a@.contains_key(pid)) by {
                assert(pids@.to_set().contains(pid));
            }
        }
        if va > vb {
            let steps = va - vb;
            for k in 0..steps
                invariant
                    steps == va - vb,
                    !base.contains_key(pid),
                    k == 0 ==> diff@ == base,
                    k > 0 ==> diff@ == base.insert(pid, k),
            {
                proof {
                    assert(clock_value(diff@, pid) == k);
                }
                diff.increment(pid);
                proof {
                    assert(diff@ =~= base.insert(pid, (k + 1) as u64));
                }
            }
            proof {
                assert(diff@ =~= difference_on_keys(a@, b@, pids@.take(i + 1)));
            }
        } else {
            proof {
                assert(diff@ =~= difference_on_keys(a@, b@, pids@.take(i + 1)));
            }
        }
    }
    proof {
        assert(pids@.take(n as int) =~= pids@);
        assert(diff@ =~= difference_map(a@, b@));
    }
    diff
}

} // verus!
