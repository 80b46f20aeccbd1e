//! Reachability of automaton states, and the catalogue of possible table rows.

use vstd::prelude::*;
use crate::annealer::{
    NUM_AUTOS, NUM_STATES, AutoEntry, AutoTable, AutoSet, entry_wf, table_wf, set_wf, table_next_in_range,
    set_next_in_range,
};
use crate::annealer::sim::lemma_distinct_in_range_short;

verus! {

/// `b` is a successor of state `a` (with or without a wall ahead).
pub open spec fn edge(t: Seq<AutoEntry>, a: int, b: int) -> bool {
    b == t[a].1 as int || b == t[a].3 as int
}

/// `p` is a walk through the transition graph starting in state 0.
pub open spec fn is_path(t: Seq<AutoEntry>, p: Seq<int>) -> bool {
    &&& p.len() >= 1
    &&& p[0] == 0
    &&& forall|i: int, j: int| 0 <= i && j == i + 1 && j < p.len() ==> #[trigger] edge(t, p[i], p[j])
}

/// State `s` can be reached from state 0.
pub open spec fn reachable(t: Seq<AutoEntry>, s: int) -> bool {
    exists|p: Seq<int>| #[trigger] is_path(t, p) && p.last() == s
}

/// Every state of the automaton can be reached from state 0.
pub open spec fn table_connected(t: Seq<AutoEntry>) -> bool {
    forall|s: int| 0 <= s < NUM_STATES ==> #[trigger] reachable(t, s)
}

/// Every state reachable from state 0 is a valid state (so the search never
/// leaves the table).
pub open spec fn reach_in_range(t: Seq<AutoEntry>) -> bool {
    forall|s: int| #[trigger] reachable(t, s) ==> 0 <= s < NUM_STATES
}

/// Every automaton of the set is connected.
pub open spec fn set_connected(a: AutoSet) -> bool {
    forall|k: int| 0 <= k < NUM_AUTOS ==> #[trigger] table_connected(a[k]@)
}

/// Tables whose next states are in range keep the search inside the table.
pub proof fn lemma_reach_in_range(t: AutoTable)
    requires
        table_next_in_range(t),
    ensures
        reach_in_range(t@),
{
    assert forall|s: int| #[trigger] reachable(t@, s) implies 0 <= s < NUM_STATES by {
        let p = choose|p: Seq<int>| #[trigger] is_path(t@, p) && p.last() == s;
        if p.len() > 1 {
            let i = p.len() - 2;
            let j = p.len() - 1;
            assert(edge(t@, p[i], p[j]));
            lemma_path_valid(t, p, i);
            assert(t[p[i]].1 < NUM_STATES);
        }
    }
}

/// On a table whose next states are in range every element of a walk is a
/// valid state.
pub proof fn lemma_path_valid(t: AutoTable, p: Seq<int>, i: int)
    requires
        table_next_in_range(t),
        is_path(t@, p),
        0 <= i < p.len(),
    ensures
        0 <= p[i] < NUM_STATES,
    decreases i,
{
    if i > 0 {
        lemma_path_valid(t, p, i - 1);
        assert(edge(t@, p[i - 1], p[i]));
        assert(t[p[i - 1]].1 < NUM_STATES);
    }
}

/// Extending a walk by one edge.
pub proof fn lemma_path_push(t: Seq<AutoEntry>, p: Seq<int>, y: int)
    requires
        is_path(t, p),
        edge(t, p.last(), y),
    ensures
        is_path(t, p.push(y)),
        p.push(y).last() == y,
{
    let q = p.push(y);
    assert forall|i: int, j: int| 0 <= i && j == i + 1 && j < q.len() implies #[trigger] edge(t, q[i], q[j]) by {
        if j < p.len() {
            assert(edge(t, p[i], p[j]));
        }
    }
}

/// A set of states containing 0 and closed under successors contains every
/// state of every walk.
pub proof fn lemma_closed_contains_path(t: Seq<AutoEntry>, marked: spec_fn(int) -> bool, p: Seq<int>, i: int)
    requires
        is_path(t, p),
        marked(0),
        forall|a: int, b: int| marked(a) && #[trigger] edge(t, a, b) ==> marked(b),
        0 <= i < p.len(),
    ensures
        marked(p[i]),
    decreases i,
{
    if i > 0 {
        lemma_closed_contains_path(t, marked, p, i - 1);
        assert(edge(t, p[i - 1], p[i]));
    }
}

/// Whether every state is reachable from state 0 (breadth-first search over
/// the transition graph).
pub fn is_auto_table_valid(table: &AutoTable) -> (res: bool)
    requires
        reach_in_range(table@),
    ensures
        res == table_connected(table@),
{
    let ghost t = table@;
    let mut reached = [false; NUM_STATES];
    reached[0] = true;
    let mut queue = [0usize; NUM_STATES];
    let mut head: usize = 0;
    let mut tail: usize = 1;
    queue[0] = 0;
    proof {
        let p0 = seq![0int];
        assert(is_path(t, p0));
        assert(reachable(t, 0));
        assert forall|x: int| 0 <= x < NUM_STATES implies (#[trigger] reached[x] <==> exists|q: int|
            0 <= q < tail && queue[q] == x) by {
            if x == 0 {
                assert(queue[0] == 0);
            }
        }
    }
    while head < tail
        invariant
            t == table@,
            reach_in_range(t),
            head <= tail <= NUM_STATES,
            1 <= tail,
            queue[0] == 0,
            forall|q: int| 0 <= q < tail ==> (#[trigger] queue[q]) < NUM_STATES,
            forall|q: int| 0 <= q < tail ==> reachable(t, #[trigger] queue[q] as int),
            forall|p: int, q: int| 0 <= p < q < tail ==> queue[p] != queue[q],
            forall|x: int|
                0 <= x < NUM_STATES ==> (#[trigger] reached[x] <==> exists|q: int| 0 <= q < tail && queue[q] == x),
            forall|q: int, y: int|
                0 <= q < head && #[trigger] edge(t, queue[q] as int, y) ==> 0 <= y < NUM_STATES && reached[y],
        decreases NUM_STATES - head,
    {
        let s = queue[head];
        head += 1;
        let ghost ps = choose|p: Seq<int>| #[trigger] is_path(t, p) && p.last() == s as int;
        let succ = [table[s].1, table[s].3];
        let mut w: usize = 0;
        while w < 2
            invariant
                t == table@,
                reach_in_range(t),
                w <= 2,
                0 < head <= tail <= NUM_STATES,
                s == queue[head - 1],
                s < NUM_STATES,
                succ@ == seq![t[s as int].1, t[s as int].3],
                is_path(t, ps),
                ps.last() == s as int,
                queue[0] == 0,
                forall|q: int| 0 <= q < tail ==> (#[trigger] queue[q]) < NUM_STATES,
                forall|q: int| 0 <= q < tail ==> reachable(t, #[trigger] queue[q] as int),
                forall|p: int, q: int| 0 <= p < q < tail ==> queue[p] != queue[q],
                forall|x: int|
                    0 <= x < NUM_STATES ==> (#[trigger] reached[x] <==> exists|q: int| 0 <= q < tail && queue[q] == x),
                forall|q: int, y: int|
                    0 <= q < head - 1 && #[trigger] edge(t, queue[q] as int, y) ==> 0 <= y < NUM_STATES && reached[y],
                forall|v: int| 0 <= v < w ==> 0 <= succ[v] < NUM_STATES && reached[succ[v] as int],
            decreases 2 - w,
        {
            let next = succ[w];
            proof {
                assert(edge(t, s as int, next as int));
                lemma_path_push(t, ps, next as int);
                assert(reachable(t, next as int));
            }
            if !reached[next] {
                proof {
                    let sq = queue@.take(tail as int).map_values(|v: usize| v as int);
                    assert(sq.no_duplicates());
                    assert(!sq.contains(next as int)) by {
                        if sq.contains(next as int) {
                            let q = choose|q: int| 0 <= q < sq.len() && sq[q] == next as int;
                            assert(queue[q] == next);
                        }
                    }
                    lemma_distinct_in_range_short(sq, NUM_STATES as int, next as int);
                }
                let ghost old_queue = queue;
                let ghost old_reached = reached;
                reached[next] = true;
                queue[tail] = next;
                tail += 1;
                proof {
                    assert forall|x: int| 0 <= x < NUM_STATES implies (#[trigger] reached[x] <==> exists|q: int|
                        0 <= q < tail && queue[q] == x) by {
                        if x == next as int {
                            assert(queue[tail - 1] == x);
                        } else {
                            if old_reached[x] {
                                let q = choose|q: int| 0 <= q < tail - 1 && old_queue[q] == x;
                                assert(queue[q] == x);
                            }
                            if exists|q: int| 0 <= q < tail && queue[q] == x {
                                let q = choose|q: int| 0 <= q < tail && queue[q] == x;
                                assert(q != tail - 1);
                                assert(old_queue[q] == x);
                            }
                        }
                    }
                }
            }
            w += 1;
        }
        proof {
            assert forall|q: int, y: int| 0 <= q < head && #[trigger] edge(t, queue[q] as int, y)
                implies 0 <= y < NUM_STATES && reached[y] by {
                if q == head - 1 {
                    assert(y == succ[0] || y == succ[1]);
                }
            }
        }
    }
    let mut all = true;
    let mut x: usize = 0;
    while x < NUM_STATES
        invariant
            x <= NUM_STATES,
            all <==> forall|z: int| 0 <= z < x ==> reached[z],
        decreases NUM_STATES - x,
    {
        if !reached[x] {
            all = false;
        }
        x += 1;
    }
    proof {
        if all {
            assert forall|z: int| 0 <= z < NUM_STATES implies #[trigger] reachable(t, z) by {
                assert(reached[z]);
                let q = choose|q: int| 0 <= q < tail && queue[q] == z;
                assert(reachable(t, queue[q] as int));
            }
        } else {
            let z = choose|z: int| 0 <= z < NUM_STATES && !reached[z];
            let marked = |v: int| 0 <= v < NUM_STATES && reached[v];
            assert(marked(0)) by {
                assert(queue[0] == 0);
            }
            assert forall|a: int, b: int| marked(a) && #[trigger] edge(t, a, b) implies marked(b) by {
                let q = choose|q: int| 0 <= q < tail && queue[q] == a;
                assert(edge(t, queue[q] as int, b));
            }
            if reachable(t, z) {
                let p = choose|p: Seq<int>| #[trigger] is_path(t, p) && p.last() == z;
                lemma_closed_contains_path(t, marked, p, p.len() - 1);
            }
            assert(!reachable(t, z));
        }
    }
    all
}

/// The set is valid when every automaton is connected (checked in order; the
/// check stops at the first automaton that is not).
pub open spec fn set_checkable(a: AutoSet) -> bool {
    forall|k: int|
        0 <= k < NUM_AUTOS ==> (forall|j: int| 0 <= j < k ==> table_connected(#[trigger] a[j]@))
            ==> reach_in_range(#[trigger] a[k]@)
}

/// Whether every automaton of the set is connected.
pub fn is_auto_set_valid(auto_set: &AutoSet) -> (res: bool)
    requires
        set_checkable(*auto_set),
    ensures
        res == set_connected(*auto_set),
{
    let mut k: usize = 0;
    while k < NUM_AUTOS
        invariant
            k <= NUM_AUTOS,
            set_checkable(*auto_set),
            forall|j: int| 0 <= j < k ==> table_connected(#[trigger] auto_set[j]@),
        decreases NUM_AUTOS - k,
    {
        assert(reach_in_range(auto_set[k as int]@));
        if !is_auto_table_valid(&auto_set[k]) {
            return false;
        }
        k += 1;
    }
    true
}

/// A well-formed set names only states in range.
pub proof fn lemma_wf_next_in_range(a: AutoSet)
    requires
        set_wf(a),
    ensures
        set_next_in_range(a),
{
    assert forall|k: int| 0 <= k < NUM_AUTOS implies #[trigger] table_next_in_range(a[k]) by {
        assert(table_wf(a[k]));
        assert forall|s: int| 0 <= s < NUM_STATES implies (#[trigger] a[k][s]).1 < NUM_STATES && a[k][s].3
            < NUM_STATES by {
            assert(entry_wf(a[k][s]));
        }
    }
}

/// Sets whose next states are in range can be checked.
pub proof fn lemma_next_in_range_checkable(a: AutoSet)
    requires
        set_next_in_range(a),
    ensures
        set_checkable(a),
{
    assert forall|k: int| 0 <= k < NUM_AUTOS implies reach_in_range(#[trigger] a[k]@) by {
        assert(table_next_in_range(a[k]));
        lemma_reach_in_range(a[k]);
    }
}

/// Well-formed sets can be checked.
pub proof fn lemma_wf_checkable(a: AutoSet)
    requires
        set_wf(a),
    ensures
        set_checkable(a),
{
    lemma_wf_next_in_range(a);
    lemma_next_in_range_checkable(a);
}

/// The letter of an action: 0 is `F` (forward), 1 is `R` (turn right), 2 is `L` (turn left).
pub fn action_char(a: u8) -> (c: char)
    requires
        a < 3,
    ensures
        a == 0 ==> c == 'F',
        a == 1 ==> c == 'R',
        a == 2 ==> c == 'L',
{
    if a == 0 {
        'F'
    } else if a == 1 {
        'R'
    } else {
        'L'
    }
}

/// Known good automaton sets to start the search from (none at present).
pub fn predefined_seed_sets() -> (r: Vec<AutoSet>)
    ensures
        r@.len() == 0,
{
    Vec::new()
}

} // verus!
