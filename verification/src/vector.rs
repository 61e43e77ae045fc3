//! Vector clock implementation.
use std::collections::HashMap;
use vstd::prelude::*;
use vstd::std_specs::iter::IteratorSpec;

verus! {

broadcast use vstd::std_specs::hash::group_hash_axioms;

/// Identifier of a process whose events a vector clock counts.
pub type ProcessId = u64;

/// The counter a clock map holds for `pid`; a process it does not mention counts as 0.
pub open spec fn clock_value(m: Map<u64, u64>, pid: u64) -> u64 {
    if m.contains_key(pid) {
        m[pid]
    } else {
        0
    }
}

/// The larger of two counters.
pub open spec fn max_u64(a: u64, b: u64) -> u64 {
    if a >= b {
        a
    } else {
        b
    }
}

/// Every component of `a` is at most the matching component of `b`.
pub open spec fn all_leq(a: Map<u64, u64>, b: Map<u64, u64>) -> bool {
    forall|pid: u64| clock_value(a, pid) <= #[trigger] clock_value(b, pid)
}

/// Some component of `a` is strictly below the matching component of `b`.
pub open spec fn some_lt(a: Map<u64, u64>, b: Map<u64, u64>) -> bool {
    exists|pid: u64| clock_value(a, pid) < #[trigger] clock_value(b, pid)
}

/// The happens-before relation: `a` is component-wise at most `b`, and
/// strictly below it somewhere.
pub open spec fn precedes(a: Map<u64, u64>, b: Map<u64, u64>) -> bool {
    all_leq(a, b) && some_lt(a, b)
}

/// Neither clock happened before the other, and they differ.
pub open spec fn concurrent(a: Map<u64, u64>, b: Map<u64, u64>) -> bool {
    !precedes(a, b) && !precedes(b, a) && a != b
}

/// The component-wise maximum of two clocks: it mentions every process that
/// either clock mentions.
pub open spec fn merge_maps(a: Map<u64, u64>, b: Map<u64, u64>) -> Map<u64, u64> {
    Map::new(
        |pid: u64| a.contains_key(pid) || b.contains_key(pid),
        |pid: u64| max_u64(clock_value(a, pid), clock_value(b, pid)),
    )
}

/// `start` after taking, for each process in `keys`, the larger of its own
/// counter and the one in `other`.
pub open spec fn merge_on_keys(start: Map<u64, u64>, other: Map<u64, u64>, keys: Seq<u64>) -> Map<
    u64,
    u64,
> {
    Map::new(
        |pid: u64| start.contains_key(pid) || keys.contains(pid),
        |pid: u64|
            if keys.contains(pid) {
                max_u64(clock_value(start, pid), clock_value(other, pid))
            } else {
                start[pid]
            },
    )
}

/// Taking the larger counter for one more, new, process extends the partial
/// merge by that process alone.
proof fn lemma_merge_on_keys_push(
    start: Map<u64, u64>,
    other: Map<u64, u64>,
    keys: Seq<u64>,
    pid: u64,
)
    requires
        !keys.contains(pid),
    ensures
        merge_on_keys(start, other, keys.push(pid)) == merge_on_keys(start, other, keys).insert(
            pid,
            max_u64(clock_value(start, pid), clock_value(other, pid)),
        ),
{
    assert forall|k: u64| keys.push(pid).contains(k) <==> (keys.contains(k) || k == pid) by {
        if keys.push(pid).contains(k) && k != pid {
            let j = choose|j: int| 0 <= j < keys.len() + 1 && keys.push(pid)[j] == k;
            assert(keys[j] == k);
        }
        if keys.contains(k) {
            let j = choose|j: int| 0 <= j < keys.len() && keys[j] == k;
            assert(keys.push(pid)[j] == k);
        }
        if k == pid {
            assert(keys.push(pid)[keys.len() as int] == k);
        }
    }
    assert(merge_on_keys(start, other, keys.push(pid)) =~= merge_on_keys(start, other, keys).insert(
        pid,
        max_u64(clock_value(start, pid), clock_value(other, pid)),
    ));
}

/// Happens-before, read off the entries of the two maps: every process `a`
/// mentions with a nonzero count, `b` mentions with at least that count, and
/// some process `b` mentions has a positive count above `a`'s (a process a map
/// does not mention counts as 0).
pub proof fn lemma_precedes_componentwise(a: Map<u64, u64>, b: Map<u64, u64>)
    ensures
        precedes(a, b) <==> ((forall|pid: u64|
            #[trigger] a.contains_key(pid) ==> a[pid] == 0 || (b.contains_key(pid) && a[pid]
                <= b[pid])) && (exists|pid: u64|
            #[trigger] b.contains_key(pid) && 0 < b[pid] && (!a.contains_key(pid) || a[pid]
                < b[pid]))),
{
    let lhs = precedes(a, b);
    let leq_p = forall|pid: u64|
        #[trigger] a.contains_key(pid) ==> a[pid] == 0 || (b.contains_key(pid) && a[pid] <= b[pid]);
    let lt_p = exists|pid: u64|
        #[trigger] b.contains_key(pid) && 0 < b[pid] && (!a.contains_key(pid) || a[pid] < b[pid]);
    if leq_p {
        assert forall|pid: u64| clock_value(a, pid) <= #[trigger] clock_value(b, pid) by {
            if a.contains_key(pid) {
                assert(a[pid] == 0 || (b.contains_key(pid) && a[pid] <= b[pid]));
            }
        }
    }
    if all_leq(a, b) {
        assert forall|pid: u64| #[trigger] a.contains_key(pid) implies a[pid] == 0 || (
        b.contains_key(pid) && a[pid] <= b[pid]) by {
            assert(clock_value(a, pid) <= clock_value(b, pid));
        }
    }
    if lt_p {
        let pid = choose|pid: u64|
            #[trigger] b.contains_key(pid) && 0 < b[pid] && (!a.contains_key(pid) || a[pid] < b[pid]);
        assert(clock_value(a, pid) < clock_value(b, pid));
    }
    if some_lt(a, b) {
        let pid = choose|pid: u64| clock_value(a, pid) < #[trigger] clock_value(b, pid);
        assert(b.contains_key(pid));
    }
}

/// Merging is commutative.
pub proof fn lemma_merge_commutative(a: Map<u64, u64>, b: Map<u64, u64>)
    ensures
        merge_maps(a, b) == merge_maps(b, a),
{
    assert(merge_maps(a, b) =~= merge_maps(b, a));
}

/// Merging is associative.
pub proof fn lemma_merge_associative(a: Map<u64, u64>, b: Map<u64, u64>, c: Map<u64, u64>)
    ensures
        merge_maps(merge_maps(a, b), c) == merge_maps(a, merge_maps(b, c)),
{
    assert(merge_maps(merge_maps(a, b), c) =~= merge_maps(a, merge_maps(b, c)));
}

/// Merging a clock with itself changes nothing.
pub proof fn lemma_merge_idempotent(a: Map<u64, u64>)
    ensures
        merge_maps(a, a) == a,
{
    assert(merge_maps(a, a) =~= a);
}

/// The merge is the least upper bound of the two clocks: it is at least each
/// of them in every component, and at most any clock that is at least both.
pub proof fn lemma_merge_least_upper_bound(a: Map<u64, u64>, b: Map<u64, u64>, c: Map<u64, u64>)
    ensures
        all_leq(a, merge_maps(a, b)),
        all_leq(b, merge_maps(a, b)),
        all_leq(a, c) && all_leq(b, c) ==> all_leq(merge_maps(a, b), c),
{
    let m = merge_maps(a, b);
    assert forall|pid: u64| clock_value(a, pid) <= #[trigger] clock_value(m, pid) by {}
    assert forall|pid: u64| clock_value(b, pid) <= #[trigger] clock_value(m, pid) by {}
    if all_leq(a, c) && all_leq(b, c) {
        assert forall|pid: u64| clock_value(m, pid) <= #[trigger] clock_value(c, pid) by {
            assert(clock_value(a, pid) <= clock_value(c, pid));
            assert(clock_value(b, pid) <= clock_value(c, pid));
        }
    }
}

/// Merging in a clock that is behind (or equal) everywhere leaves every
/// component unchanged.
pub proof fn lemma_merge_with_smaller(a: Map<u64, u64>, b: Map<u64, u64>, pid: u64)
    requires
        all_leq(a, b),
    ensures
        clock_value(merge_maps(a, b), pid) == clock_value(b, pid),
{
    assert(clock_value(a, pid) <= clock_value(b, pid));
}

/// A local event makes the old clock happen before the new one.
pub proof fn lemma_increment_advances(m: Map<u64, u64>, pid: u64)
    requires
        clock_value(m, pid) < u64::MAX,
    ensures
        precedes(m, m.insert(pid, (clock_value(m, pid) + 1) as u64)),
{
    let n = m.insert(pid, (clock_value(m, pid) + 1) as u64);
    assert forall|q: u64| clock_value(m, q) <= #[trigger] clock_value(n, q) by {}
    assert(clock_value(m, pid) < clock_value(n, pid));
}

/// A merge never happened before either of its inputs.
pub proof fn lemma_merge_not_before_inputs(a: Map<u64, u64>, b: Map<u64, u64>)
    ensures
        !precedes(merge_maps(a, b), a),
        !precedes(merge_maps(a, b), b),
{
    lemma_merge_least_upper_bound(a, b, a);
    let m = merge_maps(a, b);
    if precedes(m, a) {
        let pid = choose|pid: u64| clock_value(m, pid) < #[trigger] clock_value(a, pid);
        assert(clock_value(a, pid) <= clock_value(m, pid));
    }
    if precedes(m, b) {
        let pid = choose|pid: u64| clock_value(m, pid) < #[trigger] clock_value(b, pid);
        assert(clock_value(b, pid) <= clock_value(m, pid));
    }
}

/// A sequence in strictly increasing order.
pub open spec fn strictly_sorted(s: Seq<u64>) -> bool {
    forall|i: int, j: int| 0 <= i < j < s.len() ==> s[i] < s[j]
}

/// A vector clock tracking causal history across processes.
#[derive(Debug, Eq)]
pub struct VectorClock {
    clock: HashMap<ProcessId, u64>,
}

impl View for VectorClock {
    type V = Map<u64, u64>;

    /// The counter of each process the clock mentions.
    closed spec fn view(&self) -> Map<u64, u64> {
        self.clock@
    }
}

/// The keys of `m`, each once, in the order the map hands them out.
fn keys_of(m: &HashMap<u64, u64>) -> (v: Vec<u64>)
    ensures
        v@.to_set() == m@.dom(),
        v@.no_duplicates(),
{
    let ghost all = vstd::std_specs::hash::spec_keys_iter(m).remaining().unref();
    let mut v: Vec<u64> = Vec::new();
    for k in it: m.keys()
        invariant
            it.seq().unref() == all,
            v@ == all.take(it.index()),
    {
        proof {
            assert(all.take(it.index() + 1) =~= all.take(it.index()).push(*k));
        }
        v.push(*k);
    }
    proof {
        assert(all.take(all.len() as int) =~= all);
    }
    v
}

/// The counter `m` holds for `pid`, 0 where it holds none.
fn value_in(m: &HashMap<u64, u64>, pid: u64) -> (v: u64)
    ensures
        v == clock_value(m@, pid),
{
    match m.get(&pid) {
        Some(v) => *v,
        None => 0,
    }
}

/// Whether two clock maps hold exactly the same entries.
fn same_entries(a: &HashMap<u64, u64>, b: &HashMap<u64, u64>) -> (r: bool)
    ensures
        r == (a@ == b@),
{
    if a.len() != b.len() {
        return false;
    }
    let ks = keys_of(a);
    let n = ks.len();
    for i in 0..n
        invariant
            n == ks@.len(),
            ks@.to_set() == a@.dom(),
            a@.len() == b@.len(),
            forall|j: int|
                0 <= j < i ==> b@.contains_key(#[trigger] ks@[j]) && b@[ks@[j]] == a@[ks@[j]],
    {
        let pid = ks[i];
        assert(ks@.to_set().contains(pid));
        match b.get(&pid) {
            Some(w) => {
                if *w != value_in(a, pid) {
                    return false;
                }
            },
            None => {
                return false;
            },
        }
    }
    proof {
        assert(a@.dom().subset_of(b@.dom())) by {
            assert forall|k: u64| a@.dom().contains(k) implies b@.dom().contains(k) by {
                assert(ks@.to_set().contains(k));
                let j = choose|j: int| 0 <= j < ks@.len() && ks@[j] == k;
                assert(b@.contains_key(ks@[j]));
            }
        }
        vstd::set_lib::lemma_subset_equality(a@.dom(), b@.dom());
        assert forall|k: u64| a@.contains_key(k) implies a@[k] == b@[k] by {
            assert(ks@.to_set().contains(k));
            let j = choose|j: int| 0 <= j < ks@.len() && ks@[j] == k;
            assert(b@.contains_key(ks@[j]));
        }
        assert(a@ =~= b@);
    }
    true
}

/// The keys of `v` in increasing order.
fn sorted_keys(v: &Vec<u64>) -> (r: Vec<u64>)
    ensures
        strictly_sorted(r@),
        r@.to_set() == v@.to_set(),
{
    let mut r: Vec<u64> = Vec::new();
    let n = v.len();
    for i in 0..n
        invariant
            n == v@.len(),
            strictly_sorted(r@),
            forall|x: u64| r@.contains(x) <==> v@.take(i as int).contains(x),
    {
        let x = v[i];
        let mut p: usize = 0;
        while p < r.len() && r[p] < x
            invariant
                p <= r@.len(),
                forall|q: int| 0 <= q < p ==> r@[q] < x,
            decreases r@.len() - p,
        {
            p = p + 1;
        }
        let ghost before = r@;
        if p < r.len() && r[p] == x {
            proof {
                assert(v@.take(i + 1) =~= v@.take(i as int).push(x));
                assert(r@[p as int] == x);
                assert forall|y: u64| r@.contains(y) <==> v@.take(i + 1).contains(y) by {
                    if y == x {
                        assert(r@.contains(x));
                    }
                }
            }
        } else {
            r.insert(p, x);
            proof {
                assert(v@.take(i + 1) =~= v@.take(i as int).push(x));
                assert forall|a: int, b: int| 0 <= a < b < r@.len() implies r@[a] < r@[b] by {
                    if b < p {
                    } else if b == p {
                    } else if a < p {
                        assert(r@[b] == before[b - 1]);
                        if p < before.len() {
                            assert(x < before[p as int]);
                        }
                    } else if a == p {
                        assert(r@[b] == before[b - 1]);
                        assert(x < before[p as int]);
                        assert(before[p as int] <= before[b - 1]);
                    } else {
                        assert(r@[b] == before[b - 1]);
                        assert(r@[a] == before[a - 1]);
                    }
                }
                assert(r@[p as int] == x);
                assert forall|y: u64| r@.contains(y) <==> v@.take(i + 1).contains(y) by {
                    if r@.contains(y) {
                        let k = choose|k: int| 0 <= k < r@.len() && r@[k] == y;
                        if k < p {
                            assert(before[k] == y);
                            assert(before.contains(y));
                        } else if k > p {
                            assert(before[k - 1] == y);
                            assert(before.contains(y));
                        }
                        let t = v@.take(i as int).push(x);
                        if y == x {
                            assert(t[i as int] == y);
                        } else {
                            assert(v@.take(i as int).contains(y));
                            let kk = choose|kk: int| 0 <= kk < i && v@.take(i as int)[kk] == y;
                            assert(t[kk] == y);
                        }
                    }
                    if v@.take(i + 1).contains(y) {
                        assert(v@.take(i as int).push(x).contains(y));
                        if y != x {
                            assert(v@.take(i as int).contains(y));
                            assert(before.contains(y));
                            let k = choose|k: int| 0 <= k < before.len() && before[k] == y;
                            if k < p {
                                assert(r@[k] == y);
                            } else {
                                assert(r@[k + 1] == y);
                            }
                        }
                    }
                }
            }
        }
    }
    proof {
        assert(v@.take(n as int) =~= v@);
        assert(r@.to_set() =~= v@.to_set());
    }
    r
}

impl Clone for VectorClock {
    fn clone(&self) -> (c: Self)
        ensures
            c@ == self@,
    {
        VectorClock { clock: self.clock.clone() }
    }
}

impl PartialEq for VectorClock {
    fn eq(&self, other: &Self) -> (r: bool) {
        same_entries(&self.clock, &other.clock)
    }
}

impl vstd::std_specs::cmp::PartialEqSpecImpl for VectorClock {
    open spec fn obeys_eq_spec() -> bool {
        true
    }

    open spec fn eq_spec(&self, other: &Self) -> bool {
        self@ == other@
    }
}

impl VectorClock {
    /// A clock that mentions no process.
    pub fn new() -> (c: Self)
        ensures
            c@ == Map::<u64, u64>::empty(),
    {
        VectorClock { clock: HashMap::new() }
    }

    /// Create from a map.
    pub fn from_map(clock: HashMap<ProcessId, u64>) -> (c: Self)
        ensures
            c@ == clock@,
    {
        VectorClock { clock }
    }

    /// Increment clock for a local event on process `pid`; returns the new count.
    ///
    /// The count must have room to grow: at `u64::MAX` the addition would overflow.
    pub fn increment(&mut self, pid: ProcessId) -> (v: u64)
        requires
            clock_value(old(self)@, pid) < u64::MAX,
        ensures
            v == clock_value(old(self)@, pid) + 1,
            final(self)@ == old(self)@.insert(pid, v),
    {
        let v = value_in(&self.clock, pid) + 1;
        self.clock.insert(pid, v);
        v
    }

    /// Get the clock value for a process (0 for a process the clock does not mention).
    pub fn get(&self, pid: ProcessId) -> (v: u64)
        ensures
            v == clock_value(self@, pid),
    {
        value_in(&self.clock, pid)
    }

    /// Merge with another clock (take component-wise max).
    pub fn merge(&mut self, other: &VectorClock)
        ensures
            final(self)@ == merge_maps(old(self)@, other@),
    {
        let ghost start = self@;
        let ks = keys_of(&other.clock);
        proof {
            assert(merge_on_keys(start, other@, ks@.take(0)) =~= start);
        }
        let n = ks.len();
        for i in 0..n
            invariant
                n == ks@.len(),
                ks@.to_set() == other@.dom(),
                ks@.no_duplicates(),
                self@ == merge_on_keys(start, other@, ks@.take(i as int)),
        {
            let pid = ks[i];
            let ts = value_in(&other.clock, pid);
            let cur = value_in(&self.clock, pid);
            proof {
                assert(!ks@.take(i as int).contains(pid)) by {
                    if ks@.take(i as int).contains(pid) {
                        let j = choose|j: int| 0 <= j < i && ks@.take(i as int)[j] == pid;
                        assert(ks@[j] == ks@[i as int]);
                    }
                }
                assert(ks@.take(i + 1) =~= ks@.take(i as int).push(pid));
            }
            let m = if cur >= ts {
                cur
            } else {
                ts
            };
            proof {
                let prev = merge_on_keys(start, other@, ks@.take(i as int));
                assert(clock_value(prev, pid) == clock_value(start, pid));
                lemma_merge_on_keys_push(start, other@, ks@.take(i as int), pid);
            }
            self.clock.insert(pid, m);
        }
        proof {
            assert(ks@.take(n as int) =~= ks@);
            assert forall|pid: u64| ks@.contains(pid) <==> other@.contains_key(pid) by {
                assert(ks@.to_set().contains(pid) == ks@.contains(pid));
            }
            assert(self@ =~= merge_maps(start, other@));
        }
    }

    /// Create a merged copy without modifying self.
    pub fn merged(&self, other: &VectorClock) -> (r: VectorClock)
        ensures
            r@ == merge_maps(self@, other@),
    {
        let mut result = self.clone();
        result.merge(other);
        result
    }

    /// Check if self happened-before other (strict: all components <=, at least one <).
    pub fn happened_before(&self, other: &VectorClock) -> (r: bool)
        ensures
            r == precedes(self@, other@),
            r <==> ((forall|pid: u64|
                #[trigger] self@.contains_key(pid) ==> self@[pid] == 0 || (other@.contains_key(pid)
                    && self@[pid] <= other@[pid])) && (exists|pid: u64|
                #[trigger] other@.contains_key(pid) && 0 < other@[pid] && (!self@.contains_key(pid)
                    || self@[pid] < other@[pid]))),
    {
        proof {
            lemma_precedes_componentwise(self@, other@);
        }
        let ka = keys_of(&self.clock);
        let kb = keys_of(&other.clock);
        let mut leq = true;
        let mut lt = false;
        let na = ka.len();
        for i in 0..na
            invariant
                na == ka@.len(),
                leq == (forall|j: int|
                    0 <= j < i ==> clock_value(self@, #[trigger] ka@[j]) <= clock_value(
                        other@,
                        ka@[j],
                    )),
                lt == (exists|j: int|
                    0 <= j < i && clock_value(self@, #[trigger] ka@[j]) < clock_value(
                        other@,
                        ka@[j],
                    )),
        {
            let x = self.get(ka[i]);
            let y = other.get(ka[i]);
            if x > y {
                leq = false;
            }
            if x < y {
                lt = true;
            }
        }
        let nb = kb.len();
        for i in 0..nb
            invariant
                nb == kb@.len(),
                leq == ((forall|j: int|
                    0 <= j < na ==> clock_value(self@, #[trigger] ka@[j]) <= clock_value(
                        other@,
                        ka@[j],
                    )) && (forall|j: int|
                    0 <= j < i ==> clock_value(self@, #[trigger] kb@[j]) <= clock_value(
                        other@,
                        kb@[j],
                    ))),
                lt == ((exists|j: int|
                    0 <= j < na && clock_value(self@, #[trigger] ka@[j]) < clock_value(
                        other@,
                        ka@[j],
                    )) || (exists|j: int|
                    0 <= j < i && clock_value(self@, #[trigger] kb@[j]) < clock_value(
                        other@,
                        kb@[j],
                    ))),
        {
            let x = self.get(kb[i]);
            let y = other.get(kb[i]);
            if x > y {
                leq = false;
            }
            if x < y {
                lt = true;
            }
        }
        proof {
            if leq {
                assert forall|pid: u64|
                    clock_value(self@, pid) <= #[trigger] clock_value(other@, pid) by {
                    if self@.contains_key(pid) {
                        assert(ka@.to_set().contains(pid));
                        let j = choose|j: int| 0 <= j < ka@.len() && ka@[j] == pid;
                        assert(clock_value(self@, ka@[j]) <= clock_value(other@, ka@[j]));
                    } else if other@.contains_key(pid) {
                        assert(kb@.to_set().contains(pid));
                        let j = choose|j: int| 0 <= j < kb@.len() && kb@[j] == pid;
                        assert(clock_value(self@, kb@[j]) <= clock_value(other@, kb@[j]));
                    }
                }
            } else {
                if exists|j: int|
                    0 <= j < na && clock_value(self@, #[trigger] ka@[j]) > clock_value(
                        other@,
                        ka@[j],
                    ) {
                    let j = choose|j: int|
                        0 <= j < na && clock_value(self@, #[trigger] ka@[j]) > clock_value(
                            other@,
                            ka@[j],
                        );
                    assert(!(clock_value(self@, ka@[j]) <= clock_value(other@, ka@[j])));
                } else {
                    let j = choose|j: int|
                        0 <= j < nb && clock_value(self@, #[trigger] kb@[j]) > clock_value(
                            other@,
                            kb@[j],
                        );
                    assert(!(clock_value(self@, kb@[j]) <= clock_value(other@, kb@[j])));
                }
            }
            if !lt {
                assert forall|pid: u64|
                    !(clock_value(self@, pid) < #[trigger] clock_value(other@, pid)) by {
                    if clock_value(self@, pid) < clock_value(other@, pid) {
                        assert(kb@.to_set().contains(pid));
                        let j = choose|j: int| 0 <= j < kb@.len() && kb@[j] == pid;
                        assert(clock_value(self@, kb@[j]) < clock_value(other@, kb@[j]));
                    }
                }
            }
        }
        leq && lt
    }

    /// Check if concurrent (neither happened before the other, and not equal).
    pub fn is_concurrent_with(&self, other: &VectorClock) -> (r: bool)
        ensures
            r == concurrent(self@, other@),
    {
        !self.happened_before(other) && !other.happened_before(self) && !same_entries(
            &self.clock,
            &other.clock,
        )
    }

    /// Get all process IDs in this clock, in increasing order.
    pub fn processes(&self) -> (r: Vec<ProcessId>)
        ensures
            strictly_sorted(r@),
            r@.to_set() == self@.dom(),
    {
        let ks = keys_of(&self.clock);
        sorted_keys(&ks)
    }

    /// Get the inner map reference.
    pub fn as_map(&self) -> (r: &HashMap<ProcessId, u64>)
        ensures
            r@ == self@,
    {
        &self.clock
    }
}

impl Default for VectorClock {
    fn default() -> (c: Self)
        ensures
            c@ == Map::<u64, u64>::empty(),
    {
        Self::new()
    }
}

} // verus!
