//! Pools of table rows and the list of elite automaton sets.

use vstd::prelude::*;
use crate::annealer::{NUM_AUTOS, NUM_STATES, AutoEntry, AutoSet, entry_wf};
use crate::annealer::eval::EvalStats;

verus! {

/// Lexicographic order of table rows (the order of tuples).
pub open spec fn entry_lt(x: AutoEntry, y: AutoEntry) -> bool {
    ||| x.0 < y.0
    ||| x.0 == y.0 && x.1 < y.1
    ||| x.0 == y.0 && x.1 == y.1 && x.2 < y.2
    ||| x.0 == y.0 && x.1 == y.1 && x.2 == y.2 && x.3 < y.3
}

/// Strictly increasing, hence without duplicates.
pub open spec fn strictly_sorted(s: Seq<AutoEntry>) -> bool {
    forall|i: int, j: int| 0 <= i < j < s.len() ==> entry_lt(#[trigger] s[i], #[trigger] s[j])
}

/// Whether `x` comes before `y` in the order of tuples.
pub fn entry_less(x: &AutoEntry, y: &AutoEntry) -> (r: bool)
    ensures
        r == entry_lt(*x, *y),
{
    x.0 < y.0 || (x.0 == y.0 && (x.1 < y.1 || (x.1 == y.1 && (x.2 < y.2 || (x.2 == y.2 && x.3 < y.3)))))
}

/// Whether two rows are equal.
pub fn entry_same(x: &AutoEntry, y: &AutoEntry) -> (r: bool)
    ensures
        r == (*x == *y),
{
    x.0 == y.0 && x.1 == y.1 && x.2 == y.2 && x.3 == y.3
}

/// The row with number `i` in the catalogue of all well-formed rows.
pub open spec fn entry_of_code(i: int) -> AutoEntry {
    ((i / 72) as u8, ((i / 12) % 6) as usize, ((i / 6) % 2 + 1) as u8, (i % 6) as usize)
}

/// The number of a well-formed row in the catalogue.
pub open spec fn code_of_entry(e: AutoEntry) -> int {
    72 * e.0 + 12 * e.1 + 6 * (e.2 - 1) + e.3
}

/// Numbering and un-numbering rows are inverse to each other.
pub proof fn lemma_entry_code(e: AutoEntry)
    requires
        entry_wf(e),
    ensures
        0 <= code_of_entry(e) < 216,
        entry_of_code(code_of_entry(e)) == e,
{
    let i = code_of_entry(e);
    vstd::arithmetic::div_mod::lemma_fundamental_div_mod_converse(i, 72, e.0 as int, 12 * e.1 + 6 * (e.2 - 1) + e.3);
    vstd::arithmetic::div_mod::lemma_fundamental_div_mod_converse(i, 12, 6 * e.0 + e.1, 6 * (e.2 - 1) + e.3);
    vstd::arithmetic::div_mod::lemma_fundamental_div_mod_converse(6 * e.0 + e.1, 6, e.0 as int, e.1 as int);
    vstd::arithmetic::div_mod::lemma_fundamental_div_mod_converse(i, 6, 12 * e.0 + 2 * e.1 + (e.2 - 1), e.3 as int);
    vstd::arithmetic::div_mod::lemma_fundamental_div_mod_converse(12 * e.0 + 2 * e.1 + (e.2 - 1), 2, 6 * e.0 + e.1, e.2 - 1);
}

/// Rows of the catalogue are well formed and numbered back to their place.
pub proof fn lemma_code_entry(i: int)
    requires
        0 <= i < 216,
    ensures
        entry_wf(entry_of_code(i)),
        code_of_entry(entry_of_code(i)) == i,
{
    vstd::arithmetic::div_mod::lemma_fundamental_div_mod(i, 6);
    vstd::arithmetic::div_mod::lemma_fundamental_div_mod(i / 6, 2);
    vstd::arithmetic::div_mod::lemma_fundamental_div_mod(i / 12, 6);
    vstd::arithmetic::div_mod::lemma_div_denominator(i, 6, 2);
    vstd::arithmetic::div_mod::lemma_div_denominator(i, 12, 6);
    assert(i / 72 < 3);
}

/// Well-formed rows are ordered as their numbers.
pub proof fn lemma_code_monotone(x: AutoEntry, y: AutoEntry)
    requires
        entry_wf(x),
        entry_wf(y),
        entry_lt(x, y),
    ensures
        code_of_entry(x) < code_of_entry(y),
{
}

/// Every well-formed row, in increasing order.
pub fn all_possible_entries() -> (out: Vec<AutoEntry>)
    ensures
        out.len() == 216,
        forall|i: int| 0 <= i < 216 ==> #[trigger] out[i] == entry_of_code(i),
        forall|i: int| 0 <= i < 216 ==> entry_wf(#[trigger] out[i]),
        forall|e: AutoEntry| entry_wf(e) ==> out@.contains(e),
        strictly_sorted(out@),
{
    let mut out: Vec<AutoEntry> = Vec::with_capacity(216);
    let mut a0: u8 = 0;
    while a0 < 3
        invariant
            a0 <= 3,
            out.len() == 72 * a0,
            forall|i: int| 0 <= i < out.len() ==> #[trigger] out[i] == entry_of_code(i),
        decreases 3 - a0,
    {
        let mut b0: usize = 0;
        while b0 < NUM_STATES
            invariant
                a0 < 3,
                b0 <= NUM_STATES,
                out.len() == 72 * a0 + 12 * b0,
                forall|i: int| 0 <= i < out.len() ==> #[trigger] out[i] == entry_of_code(i),
            decreases NUM_STATES - b0,
        {
            let mut a1: u8 = 1;
            while a1 <= 2
                invariant
                    a0 < 3,
                    b0 < NUM_STATES,
                    1 <= a1 <= 3,
                    out.len() == 72 * a0 + 12 * b0 + 6 * (a1 - 1),
                    forall|i: int| 0 <= i < out.len() ==> #[trigger] out[i] == entry_of_code(i),
                decreases 3 - a1,
            {
                let mut b1: usize = 0;
                while b1 < NUM_STATES
                    invariant
                        a0 < 3,
                        b0 < NUM_STATES,
                        1 <= a1 <= 2,
                        b1 <= NUM_STATES,
                        out.len() == 72 * a0 + 12 * b0 + 6 * (a1 - 1) + b1,
                        forall|i: int| 0 <= i < out.len() ==> #[trigger] out[i] == entry_of_code(i),
                    decreases NUM_STATES - b1,
                {
                    proof {
                        lemma_entry_code((a0, b0, a1, b1));
                    }
                    out.push((a0, b0, a1, b1));
                    b1 += 1;
                }
                a1 += 1;
            }
            b0 += 1;
        }
        a0 += 1;
    }
    proof {
        assert forall|i: int| 0 <= i < 216 implies entry_wf(#[trigger] out[i]) by {
            lemma_code_entry(i);
        }
        assert forall|e: AutoEntry| entry_wf(e) implies out@.contains(e) by {
            lemma_entry_code(e);
            assert(out[code_of_entry(e)] == e);
        }
        assert forall|i: int, j: int| 0 <= i < j < out.len() implies entry_lt(#[trigger] out@[i], #[trigger] out@[j]) by {
            lemma_code_entry(i);
            lemma_code_entry(j);
            if !entry_lt(out@[i], out@[j]) {
                if out@[j] == out@[i] {
                } else {
                    assert(entry_lt(out@[j], out@[i]));
                    lemma_code_monotone(out@[j], out@[i]);
                }
            }
        }
    }
    out
}

/// Inserts `e` into a strictly increasing list, unless it is already there.
pub fn insert_sorted(v: &mut Vec<AutoEntry>, e: AutoEntry)
    requires
        strictly_sorted(old(v)@),
    ensures
        strictly_sorted(final(v)@),
        final(v)@.to_set() == old(v)@.to_set().insert(e),
{
    let mut p: usize = 0;
    while p < v.len() && entry_less(&v[p], &e)
        invariant
            p <= v.len(),
            v@ == old(v)@,
            strictly_sorted(v@),
            forall|i: int| 0 <= i < p ==> entry_lt(#[trigger] v@[i], e),
        decreases v.len() - p,
    {
        p += 1;
    }
    if p < v.len() && entry_same(&v[p], &e) {
        proof {
            assert(v@.to_set() =~= v@.to_set().insert(e));
        }
        return;
    }
    proof {
        assert forall|j: int| p <= j < v.len() implies entry_lt(e, #[trigger] v@[j]) by {
            if p < v.len() {
                assert(!entry_lt(v@[p as int], e));
                assert(v@[p as int] != e);
                if j > p {
                    assert(entry_lt(v@[p as int], v@[j]));
                }
            }
        }
    }
    let ghost before = v@;
    v.insert(p, e);
    proof {
        assert(v@ =~= before.insert(p as int, e));
        assert forall|i: int, j: int| 0 <= i < j < v.len() implies entry_lt(#[trigger] v@[i], #[trigger] v@[j]) by {
            if j < p {
                assert(v@[i] == before[i] && v@[j] == before[j]);
            } else if j == p {
                assert(v@[i] == before[i]);
            } else if i < p {
                assert(v@[i] == before[i] && v@[j] == before[j - 1]);
                assert(entry_lt(before[i], e));
                assert(entry_lt(e, before[j - 1]));
            } else if i == p {
                assert(v@[j] == before[j - 1]);
            } else {
                assert(v@[i] == before[i - 1] && v@[j] == before[j - 1]);
            }
        }
        assert(v@.to_set() =~= before.to_set().insert(e)) by {
            assert forall|x: AutoEntry| v@.to_set().contains(x) implies before.to_set().insert(e).contains(x) by {
                let i = choose|i: int| 0 <= i < v.len() && v@[i] == x;
                if i < p {
                    assert(before[i] == x);
                } else if i > p {
                    assert(before[i - 1] == x);
                }
            }
            assert forall|x: AutoEntry| before.to_set().insert(e).contains(x) implies v@.to_set().contains(x) by {
                if x == e {
                    assert(v@[p as int] == e);
                } else {
                    let i = choose|i: int| 0 <= i < before.len() && before[i] == x;
                    if i < p {
                        assert(v@[i] == x);
                    } else {
                        assert(v@[i + 1] == x);
                    }
                }
            }
        }
    }
}

/// Adds every row of `extra` to a strictly increasing list: the result is the
/// sorted list of the distinct rows of both.
pub fn extend_pool(pool: &mut Vec<AutoEntry>, extra: &Vec<AutoEntry>)
    requires
        strictly_sorted(old(pool)@),
    ensures
        strictly_sorted(final(pool)@),
        final(pool)@.to_set() == old(pool)@.to_set() + extra@.to_set(),
{
    let mut i: usize = 0;
    while i < extra.len()
        invariant
            i <= extra.len(),
            strictly_sorted(pool@),
            pool@.to_set() == old(pool)@.to_set() + extra@.take(i as int).to_set(),
        decreases extra.len() - i,
    {
        insert_sorted(pool, extra[i]);
        proof {
            assert(extra@.take(i + 1).to_set() =~= extra@.take(i as int).to_set().insert(extra@[i as int])) by {
                assert(extra@.take(i + 1) =~= extra@.take(i as int).push(extra@[i as int]));
                extra@.take(i as int).lemma_push_to_set_commute(extra@[i as int]);
            }
        }
        i += 1;
    }
    proof {
        assert(extra@.take(extra.len() as int) =~= extra@);
    }
}

/// The rows of every automaton of a set, automaton by automaton.
pub open spec fn set_rows(a: AutoSet) -> Seq<AutoEntry> {
    Seq::new(36, |i: int| a[i / 6][i % 6])
}

/// Rows of a set as a vector.
pub fn rows_of_set(a: &AutoSet) -> (out: Vec<AutoEntry>)
    ensures
        out@ == set_rows(*a),
{
    let mut out: Vec<AutoEntry> = Vec::with_capacity(36);
    let mut k: usize = 0;
    while k < NUM_AUTOS
        invariant
            k <= NUM_AUTOS,
            out.len() == 6 * k,
            forall|i: int| 0 <= i < out.len() ==> #[trigger] out@[i] == set_rows(*a)[i],
        decreases NUM_AUTOS - k,
    {
        let mut s: usize = 0;
        while s < NUM_STATES
            invariant
                k < NUM_AUTOS,
                s <= NUM_STATES,
                out.len() == 6 * k + s,
                forall|i: int| 0 <= i < out.len() ==> #[trigger] out@[i] == set_rows(*a)[i],
            decreases NUM_STATES - s,
        {
            proof {
                let i = 6 * k + s;
                vstd::arithmetic::div_mod::lemma_fundamental_div_mod_converse(i, 6, k as int, s as int);
            }
            out.push(a[k][s]);
            s += 1;
        }
        k += 1;
    }
    proof {
        assert(out@ =~= set_rows(*a));
    }
    out
}

/// One elite automaton set with its evaluation.
#[derive(Clone, Copy)]
pub struct Elite {
    pub set: AutoSet,
    pub stats: EvalStats,
    pub combined: usize,
}

/// Every row of every elite set and of every seed set.
pub open spec fn pool_rows(elites: Seq<Elite>, seed_sets: Seq<AutoSet>) -> Set<AutoEntry> {
    Set::new(
        |e: AutoEntry|
            (exists|i: int, k: int, s: int|
                0 <= i < elites.len() && 0 <= k < NUM_AUTOS && 0 <= s < NUM_STATES && #[trigger] elites[i].set[k][s]
                    == e) || (exists|i: int, k: int, s: int|
                0 <= i < seed_sets.len() && 0 <= k < NUM_AUTOS && 0 <= s < NUM_STATES && #[trigger] seed_sets[i][k][s]
                    == e),
    )
}

/// The rows of all sets `sets[..n]`.
pub open spec fn sets_rows(sets: Seq<AutoSet>, n: int) -> Set<AutoEntry> {
    Set::new(
        |e: AutoEntry|
            exists|i: int, k: int, s: int|
                0 <= i < n && 0 <= k < NUM_AUTOS && 0 <= s < NUM_STATES && #[trigger] sets[i][k][s] == e,
    )
}

/// The rows of `set_rows` are those of the set.
pub proof fn lemma_set_rows(a: AutoSet)
    ensures
        set_rows(a).to_set() == Set::new(
            |e: AutoEntry| exists|k: int, s: int| 0 <= k < NUM_AUTOS && 0 <= s < NUM_STATES && #[trigger] a[k][s] == e,
        ),
{
    let rhs = Set::new(
        |e: AutoEntry| exists|k: int, s: int| 0 <= k < NUM_AUTOS && 0 <= s < NUM_STATES && #[trigger] a[k][s] == e,
    );
    assert forall|e: AutoEntry| set_rows(a).to_set().contains(e) implies rhs.contains(e) by {
        let i = choose|i: int| 0 <= i < 36 && set_rows(a)[i] == e;
        assert(a[i / 6][i % 6] == e);
    }
    assert forall|e: AutoEntry| rhs.contains(e) implies set_rows(a).to_set().contains(e) by {
        let (k, s) = choose|k: int, s: int| 0 <= k < NUM_AUTOS && 0 <= s < NUM_STATES && #[trigger] a[k][s] == e;
        vstd::arithmetic::div_mod::lemma_fundamental_div_mod_converse(6 * k + s, 6, k, s);
        assert(set_rows(a)[6 * k + s] == e);
    }
    assert(set_rows(a).to_set() =~= rhs);
}

/// Adds the rows of all sets to a strictly increasing pool.
fn add_sets_to_pool(pool: &mut Vec<AutoEntry>, sets: &Vec<AutoSet>)
    requires
        strictly_sorted(old(pool)@),
    ensures
        strictly_sorted(final(pool)@),
        final(pool)@.to_set() == old(pool)@.to_set() + sets_rows(sets@, sets.len() as int),
{
    let mut i: usize = 0;
    proof {
        assert(sets_rows(sets@, 0) =~= Set::<AutoEntry>::empty());
        assert(pool@.to_set() =~= old(pool)@.to_set() + sets_rows(sets@, 0));
    }
    while i < sets.len()
        invariant
            i <= sets.len(),
            strictly_sorted(pool@),
            pool@.to_set() == old(pool)@.to_set() + sets_rows(sets@, i as int),
        decreases sets.len() - i,
    {
        let rows = rows_of_set(&sets[i]);
        extend_pool(pool, &rows);
        proof {
            lemma_set_rows(sets@[i as int]);
            let a = sets@[i as int];
            assert(sets_rows(sets@, i + 1) =~= sets_rows(sets@, i as int) + rows@.to_set()) by {
                assert forall|e: AutoEntry| sets_rows(sets@, i + 1).contains(e) implies (sets_rows(sets@, i as int)
                    + rows@.to_set()).contains(e) by {
                    let (j, k, s) = choose|j: int, k: int, s: int|
                        0 <= j < i + 1 && 0 <= k < NUM_AUTOS && 0 <= s < NUM_STATES && #[trigger] sets@[j][k][s] == e;
                    if j == i {
                        assert(a[k][s] == e);
                    }
                }
                assert forall|e: AutoEntry| (sets_rows(sets@, i as int) + rows@.to_set()).contains(e) implies sets_rows(
                    sets@,
                    i + 1,
                ).contains(e) by {
                    if !sets_rows(sets@, i as int).contains(e) {
                        let (k, s) = choose|k: int, s: int|
                            0 <= k < NUM_AUTOS && 0 <= s < NUM_STATES && #[trigger] a[k][s] == e;
                        assert(sets@[i as int][k][s] == e);
                    } else {
                        let (j, k, s) = choose|j: int, k: int, s: int|
                            0 <= j < i && 0 <= k < NUM_AUTOS && 0 <= s < NUM_STATES && #[trigger] sets@[j][k][s] == e;
                        assert(sets@[j][k][s] == e);
                    }
                }
            }
        }
        i += 1;
    }
}

/// The sets of the elites.
pub open spec fn elite_sets(elites: Seq<Elite>) -> Seq<AutoSet> {
    Seq::new(elites.len(), |i: int| elites[i].set)
}

/// The sets of the elites, as a vector.
fn sets_of_elites(elites: &[Elite]) -> (out: Vec<AutoSet>)
    ensures
        out@ == elite_sets(elites@),
{
    let mut out: Vec<AutoSet> = Vec::new();
    let mut i: usize = 0;
    while i < elites.len()
        invariant
            i <= elites.len(),
            out.len() == i,
            forall|j: int| 0 <= j < i ==> #[trigger] out@[j] == elites@[j].set,
        decreases elites.len() - i,
    {
        out.push(elites[i].set);
        i += 1;
    }
    proof {
        assert(out@ =~= elite_sets(elites@));
    }
    out
}

/// Every distinct row of the elite sets and of the seed sets, in increasing order.
pub fn build_row_pool(elites: &[Elite], seed_sets: &[AutoSet]) -> (pool: Vec<AutoEntry>)
    ensures
        strictly_sorted(pool@),
        pool@.to_set() == pool_rows(elites@, seed_sets@),
{
    let mut pool: Vec<AutoEntry> = Vec::new();
    let es = sets_of_elites(elites);
    let mut seeds: Vec<AutoSet> = Vec::new();
    let mut i: usize = 0;
    while i < seed_sets.len()
        invariant
            i <= seed_sets.len(),
            seeds@ == seed_sets@.take(i as int),
        decreases seed_sets.len() - i,
    {
        seeds.push(seed_sets[i]);
        proof {
            assert(seed_sets@.take(i + 1) =~= seed_sets@.take(i as int).push(seed_sets@[i as int]));
        }
        i += 1;
    }
    proof {
        assert(seeds@ =~= seed_sets@);
        assert(pool@.to_set() =~= Set::<AutoEntry>::empty());
    }
    add_sets_to_pool(&mut pool, &es);
    add_sets_to_pool(&mut pool, &seeds);
    proof {
        let target = pool_rows(elites@, seed_sets@);
        let r1 = sets_rows(es@, es.len() as int);
        let r2 = sets_rows(seeds@, seeds.len() as int);
        assert(pool@.to_set() =~= target) by {
            assert forall|e: AutoEntry| target.contains(e) implies (r1 + r2).contains(e) by {
                if exists|i: int, k: int, s: int|
                    0 <= i < elites.len() && 0 <= k < NUM_AUTOS && 0 <= s < NUM_STATES && #[trigger] elites@[i].set[k][s]
                        == e {
                    let (i, k, s) = choose|i: int, k: int, s: int|
                        0 <= i < elites.len() && 0 <= k < NUM_AUTOS && 0 <= s < NUM_STATES
                            && #[trigger] elites@[i].set[k][s] == e;
                    assert(es@[i][k][s] == e);
                } else {
                    let (i, k, s) = choose|i: int, k: int, s: int|
                        0 <= i < seed_sets.len() && 0 <= k < NUM_AUTOS && 0 <= s < NUM_STATES
                            && #[trigger] seed_sets@[i][k][s] == e;
                    assert(seeds@[i][k][s] == e);
                }
            }
            assert forall|e: AutoEntry| (r1 + r2).contains(e) implies target.contains(e) by {
                if r1.contains(e) {
                    let (i, k, s) = choose|i: int, k: int, s: int|
                        0 <= i < es.len() && 0 <= k < NUM_AUTOS && 0 <= s < NUM_STATES && #[trigger] es@[i][k][s] == e;
                    assert(elites@[i].set[k][s] == e);
                } else {
                    let (i, k, s) = choose|i: int, k: int, s: int|
                        0 <= i < seeds.len() && 0 <= k < NUM_AUTOS && 0 <= s < NUM_STATES
                            && #[trigger] seeds@[i][k][s] == e;
                    assert(seed_sets@[i][k][s] == e);
                }
            }
        }
    }
    pool
}

/// The rows found at slot (k, s) in the elite sets and in the seed sets.
pub open spec fn slot_rows(elites: Seq<Elite>, seed_sets: Seq<AutoSet>, k: int, s: int) -> Set<AutoEntry> {
    Set::new(
        |e: AutoEntry|
            (exists|i: int| 0 <= i < elites.len() && #[trigger] elites[i].set[k][s] == e) || (exists|i: int|
                0 <= i < seed_sets.len() && #[trigger] seed_sets[i][k][s] == e),
    )
}

/// The distinct rows of slot (k, s).
fn slot_pool(elites: &[Elite], seed_sets: &[AutoSet], k: usize, s: usize) -> (v: Vec<AutoEntry>)
    requires
        k < NUM_AUTOS,
        s < NUM_STATES,
    ensures
        strictly_sorted(v@),
        v@.to_set() == slot_rows(elites@, seed_sets@, k as int, s as int),
{
    let mut v: Vec<AutoEntry> = Vec::new();
    let mut i: usize = 0;
    proof {
        assert(v@.to_set() =~= Set::<AutoEntry>::empty());
    }
    while i < elites.len()
        invariant
            i <= elites.len(),
            k < NUM_AUTOS,
            s < NUM_STATES,
            strictly_sorted(v@),
            v@.to_set() == Set::new(|e: AutoEntry| exists|j: int| 0 <= j < i && #[trigger] elites@[j].set[k as int][s as int] == e),
        decreases elites.len() - i,
    {
        insert_sorted(&mut v, elites[i].set[k][s]);
        proof {
            assert(v@.to_set() =~= Set::new(|e: AutoEntry| exists|j: int| 0 <= j < i + 1 && #[trigger] elites@[j].set[k as int][s as int] == e)) by {
                assert(elites@[i as int].set[k as int][s as int] == elites[i as int].set[k as int][s as int]);
            }
        }
        i += 1;
    }
    let mut j: usize = 0;
    while j < seed_sets.len()
        invariant
            j <= seed_sets.len(),
            k < NUM_AUTOS,
            s < NUM_STATES,
            strictly_sorted(v@),
            v@.to_set() == Set::new(
                |e: AutoEntry|
                    (exists|i: int| 0 <= i < elites.len() && #[trigger] elites@[i].set[k as int][s as int] == e) || (
                    exists|i: int| 0 <= i < j && #[trigger] seed_sets@[i][k as int][s as int] == e),
            ),
        decreases seed_sets.len() - j,
    {
        insert_sorted(&mut v, seed_sets[j][k][s]);
        proof {
            assert(v@.to_set() =~= Set::new(
                |e: AutoEntry|
                    (exists|i: int| 0 <= i < elites.len() && #[trigger] elites@[i].set[k as int][s as int] == e) || (
                    exists|i: int| 0 <= i < j + 1 && #[trigger] seed_sets@[i][k as int][s as int] == e),
            )) by {
                assert(seed_sets@[j as int][k as int][s as int] == seed_sets[j as int][k as int][s as int]);
            }
        }
        j += 1;
    }
    proof {
        assert(v@.to_set() =~= slot_rows(elites@, seed_sets@, k as int, s as int));
    }
    v
}

/// For each slot (automaton k, state s), the distinct rows found at that slot in
/// the elite sets and in the seed sets, in increasing order.
pub fn build_slot_pool(elites: &[Elite], seed_sets: &[AutoSet]) -> (pool: Vec<Vec<Vec<AutoEntry>>>)
    ensures
        pool.len() == NUM_AUTOS,
        forall|k: int| 0 <= k < NUM_AUTOS ==> (#[trigger] pool@[k]).len() == NUM_STATES,
        forall|k: int, s: int|
            0 <= k < NUM_AUTOS && 0 <= s < NUM_STATES ==> strictly_sorted(#[trigger] pool@[k]@[s]@)
                && pool@[k]@[s]@.to_set() == slot_rows(elites@, seed_sets@, k, s),
{
    let mut pool: Vec<Vec<Vec<AutoEntry>>> = Vec::new();
    let mut k: usize = 0;
    while k < NUM_AUTOS
        invariant
            k <= NUM_AUTOS,
            pool.len() == k,
            forall|kk: int| 0 <= kk < k ==> (#[trigger] pool@[kk]).len() == NUM_STATES,
            forall|kk: int, s: int|
                0 <= kk < k && 0 <= s < NUM_STATES ==> strictly_sorted(#[trigger] pool@[kk]@[s]@)
                    && pool@[kk]@[s]@.to_set() == slot_rows(elites@, seed_sets@, kk, s),
        decreases NUM_AUTOS - k,
    {
        let mut row: Vec<Vec<AutoEntry>> = Vec::new();
        let mut s: usize = 0;
        while s < NUM_STATES
            invariant
                k < NUM_AUTOS,
                s <= NUM_STATES,
                row.len() == s,
                forall|ss: int|
                    0 <= ss < s ==> strictly_sorted(#[trigger] row@[ss]@) && row@[ss]@.to_set() == slot_rows(
                        elites@,
                        seed_sets@,
                        k as int,
                        ss,
                    ),
            decreases NUM_STATES - s,
        {
            let v = slot_pool(elites, seed_sets, k, s);
            row.push(v);
            s += 1;
        }
        pool.push(row);
        k += 1;
    }
    pool
}

/// Two elites are considered the same when both their combined score and
/// their total cover agree.
pub open spec fn same_score(e: Elite, c: Elite) -> bool {
    e.combined == c.combined && e.stats.total == c.stats.total
}

/// Inserting `x` into a list, after every element whose combined score is at
/// least `x`'s when scanning from the end (one step of a stable insertion sort,
/// best first).
pub open spec fn insert_desc(l: Seq<Elite>, x: Elite) -> Seq<Elite>
    decreases l.len(),
{
    if l.len() == 0 {
        seq![x]
    } else if l.last().combined >= x.combined {
        l.push(x)
    } else {
        insert_desc(l.drop_last(), x).push(l.last())
    }
}

/// Stable sort by combined score, best first.
pub open spec fn sort_desc(s: Seq<Elite>) -> Seq<Elite>
    decreases s.len(),
{
    if s.len() == 0 {
        s
    } else {
        insert_desc(sort_desc(s.drop_last()), s.last())
    }
}

/// Sorted by combined score, best first.
pub open spec fn sorted_desc(s: Seq<Elite>) -> bool {
    forall|i: int, j: int| 0 <= i < j < s.len() ==> (#[trigger] s[i]).combined >= (#[trigger] s[j]).combined
}

/// No two elites have the same pair of scores (combined, total).
pub open spec fn scores_distinct(s: Seq<Elite>) -> bool {
    forall|i: int, j: int| 0 <= i < j < s.len() ==> !same_score(#[trigger] s[i], #[trigger] s[j])
}

/// Inserting an elite whose scores no listed elite has keeps the scores
/// distinct.
proof fn lemma_insert_desc_distinct(l: Seq<Elite>, x: Elite)
    requires
        scores_distinct(l),
        forall|k: int| 0 <= k < l.len() ==> !same_score(#[trigger] l[k], x),
    ensures
        scores_distinct(insert_desc(l, x)),
    decreases l.len(),
{
    if l.len() == 0 {
    } else if l.last().combined >= x.combined {
        let r = l.push(x);
        assert forall|i: int, j: int| 0 <= i < j < r.len() implies !same_score(#[trigger] r[i], #[trigger] r[j]) by {
            if j == l.len() {
                assert(r[i] == l[i]);
            } else {
                assert(r[i] == l[i] && r[j] == l[j]);
            }
        }
    } else {
        let d = l.drop_last();
        assert forall|i: int, j: int| 0 <= i < j < d.len() implies !same_score(#[trigger] d[i], #[trigger] d[j]) by {
            assert(d[i] == l[i] && d[j] == l[j]);
        }
        assert forall|k: int| 0 <= k < d.len() implies !same_score(#[trigger] d[k], x) by {
            assert(d[k] == l[k]);
        }
        lemma_insert_desc_distinct(d, x);
        lemma_insert_desc_elems(d, x);
        let m = insert_desc(d, x);
        let r = m.push(l.last());
        assert forall|i: int, j: int| 0 <= i < j < r.len() implies !same_score(#[trigger] r[i], #[trigger] r[j]) by {
            if j == m.len() {
                assert(r[i] == m[i] && r[j] == l.last());
                assert(l.last() == l[l.len() - 1]);
                if m[i] != x {
                    let k = choose|k: int| 0 <= k < d.len() && d[k] == m[i];
                    assert(l[k] == m[i]);
                }
            } else {
                assert(r[i] == m[i] && r[j] == m[j]);
            }
        }
    }
}

/// Sorting keeps distinct scores distinct and takes its elites from the list.
proof fn lemma_sort_desc_distinct(s: Seq<Elite>)
    requires
        scores_distinct(s),
    ensures
        scores_distinct(sort_desc(s)),
        forall|i: int| 0 <= i < sort_desc(s).len() ==> exists|k: int| 0 <= k < s.len() && s[k] == #[trigger] sort_desc(s)[i],
    decreases s.len(),
{
    lemma_sort_desc(s);
    if s.len() > 0 {
        let d = s.drop_last();
        assert forall|i: int, j: int| 0 <= i < j < d.len() implies !same_score(#[trigger] d[i], #[trigger] d[j]) by {
            assert(d[i] == s[i] && d[j] == s[j]);
        }
        lemma_sort_desc_distinct(d);
        let t = sort_desc(d);
        let x = s.last();
        assert forall|k: int| 0 <= k < t.len() implies !same_score(#[trigger] t[k], x) by {
            let m = choose|m: int| 0 <= m < d.len() && d[m] == t[k];
            assert(d[m] == s[m]);
            assert(x == s[s.len() - 1]);
        }
        lemma_insert_desc_distinct(t, x);
        lemma_insert_desc_elems(t, x);
        assert forall|i: int| 0 <= i < sort_desc(s).len() implies exists|k: int| 0 <= k < s.len() && s[k] == #[trigger] sort_desc(s)[i] by {
            let e = sort_desc(s)[i];
            if e == x {
                assert(s[s.len() - 1] == e);
            } else {
                let m = choose|m: int| 0 <= m < t.len() && t[m] == e;
                let k = choose|k: int| 0 <= k < d.len() && d[k] == t[m];
                assert(s[k] == e);
            }
        }
    }
}

/// Updating the elites keeps their score pairs distinct: no two elites ever
/// share both the combined score and the total cover.
pub proof fn lemma_update_elites_keeps_scores_distinct(s: Seq<Elite>, c: Elite)
    requires
        scores_distinct(s),
    ensures
        scores_distinct(update_elites_spec(s, c)),
{
    if exists|q: int| 0 <= q < s.len() && same_score(#[trigger] s[q], c) {
        let q = choose|q: int|
            0 <= q < s.len() && same_score(#[trigger] s[q], c) && forall|r: int|
                0 <= r < q ==> !same_score(#[trigger] s[r], c);
        if c.stats.full > s[q].stats.full {
            let u = s.update(q, c);
            assert forall|i: int, j: int| 0 <= i < j < u.len() implies !same_score(#[trigger] u[i], #[trigger] u[j]) by {
                assert(!same_score(s[i], s[j]));
            }
        }
    } else {
        let p = s.push(c);
        assert forall|i: int, j: int| 0 <= i < j < p.len() implies !same_score(#[trigger] p[i], #[trigger] p[j]) by {
            if j == s.len() {
                assert(p[i] == s[i]);
            } else {
                assert(p[i] == s[i] && p[j] == s[j]);
            }
        }
        lemma_sort_desc_distinct(p);
        let t = sort_desc(p);
        if t.len() > 8 {
            assert forall|i: int, j: int| 0 <= i < j < t.take(8).len() implies !same_score(#[trigger] t.take(8)[i], #[trigger] t.take(8)[j]) by {
                assert(!same_score(t[i], t[j]));
            }
        }
    }
}

/// What `update_elites` does: an elite with the same scores is replaced when
/// the candidate covers more boards fully (and kept otherwise); a new
/// candidate is added, the list sorted best first and cut to 8 elites.
pub open spec fn update_elites_spec(s: Seq<Elite>, c: Elite) -> Seq<Elite> {
    if exists|q: int| 0 <= q < s.len() && same_score(#[trigger] s[q], c) {
        let q = choose|q: int|
            0 <= q < s.len() && same_score(#[trigger] s[q], c) && forall|r: int|
                0 <= r < q ==> !same_score(#[trigger] s[r], c);
        if c.stats.full > s[q].stats.full {
            s.update(q, c)
        } else {
            s
        }
    } else {
        let t = sort_desc(s.push(c));
        if t.len() > 8 {
            t.take(8)
        } else {
            t
        }
    }
}

/// Inserting keeps the length and the elements.
pub proof fn lemma_insert_desc(l: Seq<Elite>, x: Elite)
    ensures
        insert_desc(l, x).len() == l.len() + 1,
        sorted_desc(l) ==> sorted_desc(insert_desc(l, x)),
    decreases l.len(),
{
    if l.len() > 0 && l.last().combined < x.combined {
        lemma_insert_desc(l.drop_last(), x);
        let r = insert_desc(l.drop_last(), x);
        if sorted_desc(l) {
            assert(sorted_desc(l.drop_last()));
            lemma_insert_desc_elems(l.drop_last(), x);
            assert forall|i: int, j: int| 0 <= i < j < r.push(l.last()).len() implies (#[trigger] r.push(
                l.last(),
            )[i]).combined >= (#[trigger] r.push(l.last())[j]).combined by {
                if j == r.len() {
                    let e = r[i];
                    if e != x {
                        let k = choose|k: int| 0 <= k < l.len() - 1 && l.drop_last()[k] == e;
                        assert(l[k].combined >= l.last().combined);
                    }
                }
            }
        }
    }
}

/// Every element of an insertion comes from the list or is the new one.
pub proof fn lemma_insert_desc_elems(l: Seq<Elite>, x: Elite)
    ensures
        insert_desc(l, x).len() == l.len() + 1,
        forall|i: int|
            0 <= i < insert_desc(l, x).len() ==> (#[trigger] insert_desc(l, x)[i] == x || exists|k: int|
                0 <= k < l.len() && l[k] == insert_desc(l, x)[i]),
    decreases l.len(),
{
    if l.len() > 0 && l.last().combined < x.combined {
        lemma_insert_desc_elems(l.drop_last(), x);
        let r = insert_desc(l.drop_last(), x);
        assert forall|i: int| 0 <= i < r.push(l.last()).len() implies (#[trigger] r.push(l.last())[i] == x
            || exists|k: int| 0 <= k < l.len() && l[k] == r.push(l.last())[i]) by {
            if i == r.len() {
                assert(l[l.len() - 1] == l.last());
            } else if r[i] != x {
                let k = choose|k: int| 0 <= k < l.len() - 1 && l.drop_last()[k] == r[i];
                assert(l[k] == r[i]);
            }
        }
    } else if l.len() > 0 {
        assert forall|i: int| 0 <= i < l.push(x).len() implies (#[trigger] l.push(x)[i] == x || exists|k: int|
            0 <= k < l.len() && l[k] == l.push(x)[i]) by {
            if i < l.len() {
                assert(l[i] == l.push(x)[i]);
            }
        }
    }
}

/// Sorting gives a sorted list of the same length.
pub proof fn lemma_sort_desc(s: Seq<Elite>)
    ensures
        sort_desc(s).len() == s.len(),
        sorted_desc(sort_desc(s)),
    decreases s.len(),
{
    if s.len() > 0 {
        lemma_sort_desc(s.drop_last());
        lemma_insert_desc(sort_desc(s.drop_last()), s.last());
    }
}

/// Where scanning from the end stops: the insertion point of `insert_desc`.
pub proof fn lemma_insert_desc_at(l: Seq<Elite>, x: Elite, p: int)
    requires
        0 <= p <= l.len(),
        forall|i: int| p <= i < l.len() ==> (#[trigger] l[i]).combined < x.combined,
        p == 0 || l[p - 1].combined >= x.combined,
    ensures
        insert_desc(l, x) == l.insert(p, x),
    decreases l.len(),
{
    if l.len() == 0 {
        assert(l.insert(p, x) =~= seq![x]);
    } else if p == l.len() {
        assert(l.insert(p, x) =~= l.push(x));
    } else {
        assert(l.last().combined < x.combined);
        lemma_insert_desc_at(l.drop_last(), x, p);
        assert(l.drop_last().insert(p, x).push(l.last()) =~= l.insert(p, x));
    }
}

/// One step of insertion sort.
fn insert_desc_exec(v: &mut Vec<Elite>, x: Elite)
    ensures
        final(v)@ == insert_desc(old(v)@, x),
{
    let mut p = v.len();
    while p > 0 && v[p - 1].combined < x.combined
        invariant
            p <= v.len(),
            v@ == old(v)@,
            forall|i: int| p <= i < v.len() ==> (#[trigger] v@[i]).combined < x.combined,
        decreases p,
    {
        p -= 1;
    }
    proof {
        lemma_insert_desc_at(v@, x, p as int);
    }
    v.insert(p, x);
}

/// Records a candidate among the elites: an elite with the same combined score
/// and total is replaced when the candidate covers more boards fully, and kept
/// otherwise; a new candidate is added, the list is sorted best first (stable)
/// and cut to its 8 best elites.
pub fn update_elites(elites: &mut Vec<Elite>, cand: Elite)
    ensures
        final(elites)@ == update_elites_spec(old(elites)@, cand),
        sorted_desc(old(elites)@) ==> sorted_desc(final(elites)@),
        old(elites)@.len() <= 8 ==> final(elites)@.len() <= 8,
        scores_distinct(old(elites)@) ==> scores_distinct(final(elites)@),
{
    proof {
        if scores_distinct(elites@) {
            lemma_update_elites_keeps_scores_distinct(elites@, cand);
        }
    }
    let ghost s = elites@;
    let mut q: usize = 0;
    while q < elites.len()
        invariant
            q <= elites.len(),
            elites@ == s,
            s == old(elites)@,
            forall|r: int| 0 <= r < q ==> !same_score(#[trigger] s[r], cand),
        decreases elites.len() - q,
    {
        if elites[q].combined == cand.combined && elites[q].stats.total == cand.stats.total {
            proof {
                let c = choose|r: int|
                    0 <= r < s.len() && same_score(#[trigger] s[r], cand) && forall|t: int|
                        0 <= t < r ==> !same_score(#[trigger] s[t], cand);
                assert(same_score(s[q as int], cand));
                if c < q {
                } else if c > q {
                    assert(!same_score(s[q as int], cand));
                }
                assert(c == q);
            }
            if cand.stats.full > elites[q].stats.full {
                elites.set(q, cand);
                proof {
                    let u = s.update(q as int, cand);
                    assert(elites@ == u);
                    if sorted_desc(s) {
                        assert forall|a: int, b: int| 0 <= a < b < u.len() implies (#[trigger] u[a]).combined
                            >= (#[trigger] u[b]).combined by {
                            assert(s[a].combined >= s[b].combined);
                        }
                    }
                }
            }
            return;
        }
        q += 1;
    }
    elites.push(cand);
    let mut sorted: Vec<Elite> = Vec::new();
    let mut i: usize = 0;
    while i < elites.len()
        invariant
            i <= elites.len(),
            elites@ == s.push(cand),
            sorted@ == sort_desc(elites@.take(i as int)),
        decreases elites.len() - i,
    {
        proof {
            assert(elites@.take(i + 1).drop_last() =~= elites@.take(i as int));
        }
        insert_desc_exec(&mut sorted, elites[i]);
        i += 1;
    }
    proof {
        assert(elites@.take(elites.len() as int) =~= s.push(cand));
        lemma_sort_desc(s.push(cand));
    }
    if sorted.len() > 8 {
        sorted.truncate(8);
    }
    *elites = sorted;
    proof {
        let t = sort_desc(s.push(cand));
        if t.len() > 8 {
            assert forall|a: int, b: int| 0 <= a < b < t.take(8).len() implies (#[trigger] t.take(8)[a]).combined
                >= (#[trigger] t.take(8)[b]).combined by {
                assert(t[a].combined >= t[b].combined);
            }
        }
    }
}

} // verus!
