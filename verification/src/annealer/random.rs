//! The xorshift generator and the random construction and mutation of automaton sets.

use vstd::prelude::*;
use crate::annealer::{
    NUM_AUTOS, NUM_STATES, AutoEntry, AutoTable, AutoSet, entry_wf, table_wf, set_wf, table_next_in_range,
    set_next_in_range,
};
use crate::annealer::automata::{
    edge, is_path, reachable, table_connected, set_connected, is_auto_set_valid, lemma_wf_checkable,
    lemma_next_in_range_checkable, lemma_wf_next_in_range,
};

verus! {

/// One step of the generator.
pub open spec fn xorshift(s: u64) -> u64 {
    let a = s ^ (s << 7u64);
    a ^ (a >> 9u64)
}

/// A draw in `[0, n)`: the next generator value, as a `usize`, modulo `n`,
/// together with the new seed.
pub open spec fn draw(s: u64, n: int) -> (int, u64) {
    let t = xorshift(s);
    ((t as usize) as int % n, t)
}

/// Advances the generator and returns the new value.
pub fn xorshift64(seed: &mut u64) -> (r: u64)
    ensures
        *final(seed) == xorshift(*old(seed)),
        r == *final(seed),
{
    *seed = *seed ^ (*seed << 7u64);
    *seed = *seed ^ (*seed >> 9u64);
    *seed
}

/// A pseudo-random number in `[0, n)`.
pub fn rand_range(seed: &mut u64, n: usize) -> (r: usize)
    requires
        n > 0,
    ensures
        (r as int, *final(seed)) == draw(*old(seed), n as int),
        r < n,
{
    (xorshift64(seed) as usize) % n
}

/// A random table row: action without wall in {0, 1, 2}, next state,
/// action with wall in {1, 2}, next state, drawn in this order.
pub open spec fn draw_entry(s: u64) -> (AutoEntry, u64) {
    let (a0, s1) = draw(s, 3);
    let (b0, s2) = draw(s1, NUM_STATES as int);
    let (a1, s3) = draw(s2, 2);
    let (b1, s4) = draw(s3, NUM_STATES as int);
    ((a0 as u8, b0 as usize, (a1 + 1) as u8, b1 as usize), s4)
}

/// `n` random rows drawn one after the other.
pub open spec fn draw_entries(s: u64, n: int) -> (Seq<AutoEntry>, u64)
    decreases n,
{
    if n <= 0 {
        (Seq::empty(), s)
    } else {
        let (prev, s1) = draw_entries(s, n - 1);
        let (e, s2) = draw_entry(s1);
        (prev.push(e), s2)
    }
}

/// A set of automata as a sequence of tables, each a sequence of rows.
pub type SetModel = Seq<Seq<AutoEntry>>;

/// The model of an automaton set.
pub open spec fn set_view(a: AutoSet) -> SetModel {
    Seq::new(NUM_AUTOS as nat, |k: int| a[k]@)
}

/// Every automaton of the model is connected.
pub open spec fn model_connected(m: SetModel) -> bool {
    forall|k: int| 0 <= k < NUM_AUTOS ==> table_connected(#[trigger] m[k])
}

/// A model with the right shape and well-formed rows.
pub open spec fn model_wf(m: SetModel) -> bool {
    &&& m.len() == NUM_AUTOS
    &&& forall|k: int| 0 <= k < NUM_AUTOS ==> (#[trigger] m[k]).len() == NUM_STATES
    &&& forall|k: int, s: int| 0 <= k < NUM_AUTOS && 0 <= s < NUM_STATES ==> entry_wf(#[trigger] m[k][s])
}

/// A model with the right shape whose next states are all in range.
pub open spec fn model_next_in_range(m: SetModel) -> bool {
    &&& m.len() == NUM_AUTOS
    &&& forall|k: int| 0 <= k < NUM_AUTOS ==> (#[trigger] m[k]).len() == NUM_STATES
    &&& forall|k: int, s: int|
        0 <= k < NUM_AUTOS && 0 <= s < NUM_STATES ==> (#[trigger] m[k][s]).1 < NUM_STATES && m[k][s].3 < NUM_STATES
}

/// A random candidate set: 36 rows drawn automaton by automaton, state by state.
pub open spec fn draw_candidate(s: u64) -> (SetModel, u64) {
    let (es, s2) = draw_entries(s, 36);
    (Seq::new(NUM_AUTOS as nat, |k: int| Seq::new(NUM_STATES as nat, |st: int| es[6 * k + st])), s2)
}

/// Number of candidates `random_auto_set` draws at most.
pub const ATTEMPT_LIMIT: u64 = 0xffff_ffff_ffff_ffff;

/// Row `s` of the ring automaton: on to state `s + 1` (state 0 after the
/// last), forward without a wall ahead and turning right at one.
pub open spec fn ring_entry(s: int) -> AutoEntry {
    (0u8, ((s + 1) % NUM_STATES as int) as usize, 1u8, ((s + 1) % NUM_STATES as int) as usize)
}

/// The set in which every automaton is the ring automaton.
pub open spec fn ring_model() -> SetModel {
    Seq::new(NUM_AUTOS as nat, |k: int| Seq::new(NUM_STATES as nat, |st: int| ring_entry(st)))
}

/// Drawing candidates until one is connected, at most `fuel` of them; when
/// the last one drawn is not connected either, the ring set stands in.
pub open spec fn random_set_from(s: u64, fuel: int) -> (SetModel, u64)
    decreases fuel,
{
    let (c, s2) = draw_candidate(s);
    if model_connected(c) {
        (c, s2)
    } else if fuel <= 1 {
        (ring_model(), s2)
    } else {
        random_set_from(s2, fuel - 1)
    }
}

/// What `random_auto_set` returns for a seed.
pub open spec fn random_set(s: u64) -> (SetModel, u64) {
    random_set_from(s, ATTEMPT_LIMIT as int)
}

/// Replacing row `st` of automaton `k`.
pub open spec fn with_entry(m: SetModel, k: int, st: int, e: AutoEntry) -> SetModel {
    m.update(k, m[k].update(st, e))
}

/// One mutation attempt: a small (one field), medium (one row), large
/// (one automaton) or full (whole set) change, chosen by a draw in [0, 100).
pub open spec fn mutate_attempt(m: SetModel, s: u64) -> (SetModel, u64) {
    let (mode, s1) = draw(s, 100);
    if mode < 60 {
        let (k, s2) = draw(s1, NUM_AUTOS as int);
        let (st, s3) = draw(s2, NUM_STATES as int);
        let (field, s4) = draw(s3, 4);
        let e = m[k][st];
        if field == 0 {
            let (v, s5) = draw(s4, 3);
            (with_entry(m, k, st, (v as u8, e.1, e.2, e.3)), s5)
        } else if field == 1 {
            let (v, s5) = draw(s4, NUM_STATES as int);
            (with_entry(m, k, st, (e.0, v as usize, e.2, e.3)), s5)
        } else if field == 2 {
            let (v, s5) = draw(s4, 2);
            (with_entry(m, k, st, (e.0, e.1, (v + 1) as u8, e.3)), s5)
        } else {
            let (v, s5) = draw(s4, NUM_STATES as int);
            (with_entry(m, k, st, (e.0, e.1, e.2, v as usize)), s5)
        }
    } else if mode < 85 {
        let (k, s2) = draw(s1, NUM_AUTOS as int);
        let (st, s3) = draw(s2, NUM_STATES as int);
        let (e, s4) = draw_entry(s3);
        (with_entry(m, k, st, e), s4)
    } else if mode < 97 {
        let (k, s2) = draw(s1, NUM_AUTOS as int);
        let (es, s3) = draw_entries(s2, NUM_STATES as int);
        (m.update(k, es), s3)
    } else {
        random_set(s1)
    }
}

/// Mutation attempts from `m` until one gives a connected set, at most
/// `tries` of them; `m` itself when none does.
pub open spec fn mutate_from(m: SetModel, s: u64, tries: int) -> (SetModel, u64)
    decreases tries,
{
    if tries <= 0 {
        (m, s)
    } else {
        let (c, s2) = mutate_attempt(m, s);
        if model_connected(c) {
            (c, s2)
        } else {
            mutate_from(m, s2, tries - 1)
        }
    }
}

/// What `mutate` returns: at most 1000 attempts.
pub open spec fn mutate_spec(m: SetModel, s: u64) -> (SetModel, u64) {
    mutate_from(m, s, 1000)
}

/// `n` successive mutations.
pub open spec fn mutate_n(m: SetModel, s: u64, n: int) -> (SetModel, u64)
    decreases n,
{
    if n <= 0 {
        (m, s)
    } else {
        let (m1, s1) = mutate_n(m, s, n - 1);
        mutate_spec(m1, s1)
    }
}

/// Row-level crossover of one automaton: for each state, the row of `b` replaces
/// the current one when a draw in [0, 2) gives 1.
pub open spec fn cross_states(row: Seq<AutoEntry>, brow: Seq<AutoEntry>, s: u64, n: int) -> (Seq<AutoEntry>, u64)
    decreases n,
{
    if n <= 0 {
        (row, s)
    } else {
        let (r, s1) = cross_states(row, brow, s, n - 1);
        let (d, s2) = draw(s1, 2);
        (if d == 1 { r.update(n - 1, brow[n - 1]) } else { r }, s2)
    }
}

/// Crossover of the first `n` automata: for each automaton, `b`'s whole table
/// is taken when a draw gives 1, then rows are crossed one by one.
pub open spec fn cross_autos(a: SetModel, b: SetModel, s: u64, n: int) -> (SetModel, u64)
    decreases n,
{
    if n <= 0 {
        (a, s)
    } else {
        let (o, s1) = cross_autos(a, b, s, n - 1);
        let (d, s2) = draw(s1, 2);
        let row = if d == 1 { b[n - 1] } else { o[n - 1] };
        let (row2, s3) = cross_states(row, b[n - 1], s2, NUM_STATES as int);
        (o.update(n - 1, row2), s3)
    }
}

/// What `crossover_auto_set` returns: the crossed set when it is connected,
/// otherwise one of the parents chosen by a draw (0 gives `a`).
pub open spec fn crossover_spec(a: SetModel, b: SetModel, s: u64) -> (SetModel, u64) {
    let (o, s1) = cross_autos(a, b, s, NUM_AUTOS as int);
    if model_connected(o) {
        (o, s1)
    } else {
        let (d, s2) = draw(s1, 2);
        (if d == 0 { a } else { b }, s2)
    }
}

/// A draw modulo `n` is below `n`.
pub proof fn lemma_draw_bound(s: u64, n: int)
    requires
        n > 0,
    ensures
        0 <= draw(s, n).0 < n,
{
}

/// Drawn rows are well formed.
pub proof fn lemma_draw_entries_wf(s: u64, n: int)
    requires
        n >= 0,
    ensures
        draw_entries(s, n).0.len() == n,
        forall|i: int| 0 <= i < n ==> entry_wf(#[trigger] draw_entries(s, n).0[i]),
    decreases n,
{
    if n > 0 {
        lemma_draw_entries_wf(s, n - 1);
    }
}

/// A candidate set is well formed.
pub proof fn lemma_candidate_wf(s: u64)
    ensures
        model_wf(draw_candidate(s).0),
{
    lemma_draw_entries_wf(s, 36);
    let es = draw_entries(s, 36).0;
    let m = draw_candidate(s).0;
    assert forall|k: int, st: int| 0 <= k < NUM_AUTOS && 0 <= st < NUM_STATES implies entry_wf(#[trigger] m[k][st]) by {
        assert(m[k][st] == es[6 * k + st]);
    }
}

/// The ring set is well formed and each of its automata is connected.
pub proof fn lemma_ring_model()
    ensures
        model_wf(ring_model()),
        model_connected(ring_model()),
{
    let m = ring_model();
    assert forall|k: int| 0 <= k < NUM_AUTOS implies table_connected(#[trigger] m[k]) by {
        let t = m[k];
        assert forall|s: int| 0 <= s < NUM_STATES implies #[trigger] reachable(t, s) by {
            let p = Seq::new((s + 1) as nat, |i: int| i);
            assert forall|i: int, j: int| 0 <= i && j == i + 1 && j < p.len() implies #[trigger] edge(t, p[i], p[j]) by {
                assert(t[i] == ring_entry(i));
            }
            assert(is_path(t, p));
            assert(p.last() == s);
        }
    }
}

/// `random_set` gives a well-formed set whose automata are all connected.
pub proof fn lemma_random_set_from_wf(s: u64, fuel: int)
    ensures
        model_wf(random_set_from(s, fuel).0),
        model_connected(random_set_from(s, fuel).0),
    decreases fuel,
{
    lemma_candidate_wf(s);
    lemma_ring_model();
    let (c, s2) = draw_candidate(s);
    if !model_connected(c) && fuel > 1 {
        lemma_random_set_from_wf(s2, fuel - 1);
    }
}

/// A mutation attempt keeps the set well formed.
pub proof fn lemma_mutate_attempt_wf(m: SetModel, s: u64)
    requires
        model_wf(m),
    ensures
        model_wf(mutate_attempt(m, s).0),
{
    let (mode, s1) = draw(s, 100);
    let (k, s2) = draw(s1, NUM_AUTOS as int);
    let (st, s3) = draw(s2, NUM_STATES as int);
    let r = mutate_attempt(m, s).0;
    if mode < 60 {
        assert(entry_wf(m[k][st]));
        assert forall|kk: int, ss: int| 0 <= kk < NUM_AUTOS && 0 <= ss < NUM_STATES implies entry_wf(#[trigger] r[kk][ss]) by {
            if kk != k || ss != st {
                assert(r[kk][ss] == m[kk][ss]);
            }
        }
    } else if mode < 85 {
        assert forall|kk: int, ss: int| 0 <= kk < NUM_AUTOS && 0 <= ss < NUM_STATES implies entry_wf(#[trigger] r[kk][ss]) by {
            if kk != k || ss != st {
                assert(r[kk][ss] == m[kk][ss]);
            }
        }
    } else if mode < 97 {
        lemma_draw_entries_wf(s2, NUM_STATES as int);
        assert forall|kk: int, ss: int| 0 <= kk < NUM_AUTOS && 0 <= ss < NUM_STATES implies entry_wf(#[trigger] r[kk][ss]) by {
            if kk != k {
                assert(r[kk][ss] == m[kk][ss]);
            }
        }
    } else {
        lemma_random_set_from_wf(s1, ATTEMPT_LIMIT as int);
    }
}

/// A mutation attempt keeps the next states in range.
pub proof fn lemma_mutate_attempt_next(m: SetModel, s: u64)
    requires
        model_next_in_range(m),
    ensures
        model_next_in_range(mutate_attempt(m, s).0),
{
    let (mode, s1) = draw(s, 100);
    let (k, s2) = draw(s1, NUM_AUTOS as int);
    let (st, s3) = draw(s2, NUM_STATES as int);
    let r = mutate_attempt(m, s).0;
    if mode < 85 {
        assert forall|kk: int, ss: int| 0 <= kk < NUM_AUTOS && 0 <= ss < NUM_STATES implies (#[trigger] r[kk][ss]).1
            < NUM_STATES && r[kk][ss].3 < NUM_STATES by {
            if kk != k || ss != st {
                assert(r[kk][ss] == m[kk][ss]);
            }
        }
    } else if mode < 97 {
        lemma_draw_entries_wf(s2, NUM_STATES as int);
        assert forall|kk: int, ss: int| 0 <= kk < NUM_AUTOS && 0 <= ss < NUM_STATES implies (#[trigger] r[kk][ss]).1
            < NUM_STATES && r[kk][ss].3 < NUM_STATES by {
            if kk != k {
                assert(r[kk][ss] == m[kk][ss]);
            } else {
                assert(entry_wf(r[kk][ss]));
            }
        }
    } else {
        let r = random_set_from(s1, ATTEMPT_LIMIT as int).0;
        lemma_random_set_from_wf(s1, ATTEMPT_LIMIT as int);
        assert forall|kk: int, ss: int| 0 <= kk < NUM_AUTOS && 0 <= ss < NUM_STATES implies (#[trigger] r[kk][ss]).1
            < NUM_STATES && r[kk][ss].3 < NUM_STATES by {
            assert(entry_wf(r[kk][ss]));
        }
    }
}

/// The model of a set has its next states in range exactly when the set has.
pub proof fn lemma_set_view_next(a: AutoSet)
    ensures
        set_next_in_range(a) <==> model_next_in_range(set_view(a)),
{
    if set_next_in_range(a) {
        assert forall|k: int, st: int| 0 <= k < NUM_AUTOS && 0 <= st < NUM_STATES implies (
        #[trigger] set_view(a)[k][st]).1 < NUM_STATES && set_view(a)[k][st].3 < NUM_STATES by {
            assert(table_next_in_range(a[k]));
        }
    }
    if model_next_in_range(set_view(a)) {
        assert forall|k: int| 0 <= k < NUM_AUTOS implies #[trigger] table_next_in_range(a[k]) by {
            assert forall|st: int| 0 <= st < NUM_STATES implies (#[trigger] a[k][st]).1 < NUM_STATES && a[k][st].3
                < NUM_STATES by {
                assert(set_view(a)[k][st] == a[k][st]);
            }
        }
    }
}

/// The model of a set is well formed exactly when the set is.
pub proof fn lemma_set_view_wf(a: AutoSet)
    ensures
        set_wf(a) <==> model_wf(set_view(a)),
        model_connected(set_view(a)) <==> set_connected(a),
{
    if set_wf(a) {
        assert forall|k: int, st: int| 0 <= k < NUM_AUTOS && 0 <= st < NUM_STATES implies entry_wf(
            #[trigger] set_view(a)[k][st],
        ) by {
            assert(table_wf(a[k]));
        }
    }
    if model_wf(set_view(a)) {
        assert forall|k: int| 0 <= k < NUM_AUTOS implies #[trigger] table_wf(a[k]) by {
            assert forall|st: int| 0 <= st < NUM_STATES implies #[trigger] entry_wf(a[k][st]) by {
                assert(entry_wf(set_view(a)[k][st]));
            }
        }
    }
    assert(model_connected(set_view(a)) <==> set_connected(a)) by {
        if set_connected(a) {
            assert forall|k: int| 0 <= k < NUM_AUTOS implies table_connected(#[trigger] set_view(a)[k]) by {
                assert(table_connected(a[k]@));
            }
        }
        if model_connected(set_view(a)) {
            assert forall|k: int| 0 <= k < NUM_AUTOS implies table_connected(#[trigger] a[k]@) by {
                assert(table_connected(set_view(a)[k]));
            }
        }
    }
}

/// Sets with equal models are equal.
pub proof fn lemma_set_view_injective(a: AutoSet, b: AutoSet)
    requires
        set_view(a) == set_view(b),
    ensures
        a == b,
{
    assert forall|k: int| 0 <= k < NUM_AUTOS implies a[k] == b[k] by {
        assert(set_view(a)[k] == set_view(b)[k]);
        assert(a[k]@ == b[k]@);
        assert(a[k] =~= b[k]);
    }
    assert(a =~= b);
}

/// A random table row.
pub fn random_entry(seed: &mut u64) -> (r: AutoEntry)
    ensures
        (r, *final(seed)) == draw_entry(*old(seed)),
        entry_wf(r),
{
    (
        rand_range(seed, 3) as u8,
        rand_range(seed, NUM_STATES),
        (rand_range(seed, 2) + 1) as u8,
        rand_range(seed, NUM_STATES),
    )
}

/// Fills every row of `result` with random rows, automaton by automaton.
fn random_candidate(seed: &mut u64) -> (r: AutoSet)
    ensures
        (set_view(r), *final(seed)) == draw_candidate(*old(seed)),
        set_wf(r),
{
    let ghost s0 = *seed;
    let mut result: AutoSet = [[(0u8, 0usize, 1u8, 0usize); NUM_STATES]; NUM_AUTOS];
    let mut k: usize = 0;
    while k < NUM_AUTOS
        invariant
            k <= NUM_AUTOS,
            *seed == draw_entries(s0, 6 * k).1,
            forall|kk: int, ss: int|
                0 <= kk < k && 0 <= ss < NUM_STATES ==> #[trigger] result[kk][ss] == draw_entries(s0, 6 * k).0[6 * kk + ss],
        decreases NUM_AUTOS - k,
    {
        let mut st: usize = 0;
        while st < NUM_STATES
            invariant
                k < NUM_AUTOS,
                st <= NUM_STATES,
                *seed == draw_entries(s0, 6 * k + st).1,
                forall|kk: int, ss: int|
                    0 <= kk < k && 0 <= ss < NUM_STATES ==> #[trigger] result[kk][ss] == draw_entries(s0, 6 * k + st).0[6 * kk + ss],
                forall|ss: int| 0 <= ss < st ==> #[trigger] result[k as int][ss] == draw_entries(s0, 6 * k + st).0[6 * k + ss],
            decreases NUM_STATES - st,
        {
            let ghost n = 6 * k + st;
            let e = random_entry(seed);
            result[k][st] = e;
            proof {
                lemma_draw_entries_wf(s0, n);
                assert(draw_entries(s0, n + 1).0 == draw_entries(s0, n).0.push(e));
            }
            st += 1;
        }
        k += 1;
    }
    proof {
        let (es, s2) = draw_entries(s0, 36);
        lemma_draw_entries_wf(s0, 36);
        let m = draw_candidate(s0).0;
        assert forall|kk: int| 0 <= kk < NUM_AUTOS implies #[trigger] set_view(result)[kk] =~= m[kk] by {
            assert forall|ss: int| 0 <= ss < NUM_STATES implies set_view(result)[kk][ss] == m[kk][ss] by {
                assert(result[kk][ss] == es[6 * kk + ss]);
            }
        }
        assert(set_view(result) =~= m);
        lemma_candidate_wf(s0);
        lemma_set_view_wf(result);
    }
    result
}

/// The set in which every automaton is the ring automaton.
fn ring_set() -> (r: AutoSet)
    ensures
        set_view(r) == ring_model(),
        set_wf(r),
{
    let row: AutoTable = [(0u8, 1usize, 1u8, 1usize), (0u8, 2usize, 1u8, 2usize), (0u8, 3usize, 1u8, 3usize),
        (0u8, 4usize, 1u8, 4usize), (0u8, 5usize, 1u8, 5usize), (0u8, 0usize, 1u8, 0usize)];
    let r: AutoSet = [row; NUM_AUTOS];
    proof {
        assert(row@ =~= Seq::new(NUM_STATES as nat, |st: int| ring_entry(st)));
        assert(set_view(r) =~= ring_model());
    }
    r
}

/// A random set of automata in which every automaton is connected: candidates
/// are drawn until one is connected. The number of draws is counted in a
/// `u64`: when `ATTEMPT_LIMIT` candidates were all unconnected, the ring set
/// is returned.
pub fn random_auto_set(seed: &mut u64) -> (r: AutoSet)
    ensures
        (set_view(r), *final(seed)) == random_set(*old(seed)),
        set_wf(r),
        set_connected(r),
{
    let ghost s0 = *seed;
    let mut attempts: u64 = 0;
    loop
        invariant
            attempts < ATTEMPT_LIMIT,
            s0 == *old(seed),
            random_set_from(*seed, ATTEMPT_LIMIT - attempts) == random_set(s0),
        decreases ATTEMPT_LIMIT - attempts,
    {
        let ghost s = *seed;
        let ghost a = attempts;
        let result = random_candidate(seed);
        attempts += 1;
        proof {
            let fuel = ATTEMPT_LIMIT - a;
            assert(random_set_from(s, fuel) == (if model_connected(set_view(result)) {
                (set_view(result), *seed)
            } else if fuel <= 1 {
                (ring_model(), *seed)
            } else {
                random_set_from(*seed, fuel - 1)
            }));
            lemma_wf_checkable(result);
            lemma_set_view_wf(result);
        }
        if is_auto_set_valid(&result) {
            return result;
        }
        if attempts == ATTEMPT_LIMIT {
            let ring = ring_set();
            proof {
                lemma_ring_model();
                lemma_set_view_wf(ring);
            }
            return ring;
        }
    }
}

/// Copies the rows drawn for one automaton into `set[k]`.
fn random_table(seed: &mut u64) -> (r: AutoTable)
    ensures
        (r@, *final(seed)) == draw_entries(*old(seed), NUM_STATES as int),
        table_wf(r),
{
    let ghost s0 = *seed;
    let mut t: AutoTable = [(0u8, 0usize, 1u8, 0usize); NUM_STATES];
    let mut st: usize = 0;
    while st < NUM_STATES
        invariant
            st <= NUM_STATES,
            *seed == draw_entries(s0, st as int).1,
            forall|ss: int| 0 <= ss < st ==> #[trigger] t[ss] == draw_entries(s0, st as int).0[ss],
        decreases NUM_STATES - st,
    {
        let e = random_entry(seed);
        t[st] = e;
        proof {
            lemma_draw_entries_wf(s0, st as int);
        }
        st += 1;
    }
    proof {
        lemma_draw_entries_wf(s0, NUM_STATES as int);
        assert(t@ =~= draw_entries(s0, NUM_STATES as int).0);
    }
    t
}

/// Mutates the set at one random place. Only mutations after which every
/// automaton is still connected are returned; after 1000 failed attempts the
/// set is returned unchanged.
pub fn mutate(auto_set: &AutoSet, seed: &mut u64) -> (r: AutoSet)
    requires
        set_next_in_range(*auto_set),
    ensures
        (set_view(r), *final(seed)) == mutate_spec(set_view(*auto_set), *old(seed)),
        set_next_in_range(r),
        set_wf(*auto_set) ==> set_wf(r),
        set_connected(r) || r == *auto_set,
{
    let ghost m = set_view(*auto_set);
    let ghost s0 = *seed;
    let mut i: u32 = 0;
    while i < 1000
        invariant
            i <= 1000,
            m == set_view(*auto_set),
            set_next_in_range(*auto_set),
            mutate_from(m, *seed, 1000 - i) == mutate_spec(m, s0),
            s0 == *old(seed),
        decreases 1000 - i,
    {
        let ghost s = *seed;
        let mut new_set = *auto_set;
        let mode = rand_range(seed, 100);
        if mode < 60 {
            let k = rand_range(seed, NUM_AUTOS);
            let st = rand_range(seed, NUM_STATES);
            let field = rand_range(seed, 4);
            if field == 0 {
                new_set[k][st].0 = rand_range(seed, 3) as u8;
            } else if field == 1 {
                new_set[k][st].1 = rand_range(seed, NUM_STATES);
            } else if field == 2 {
                new_set[k][st].2 = (rand_range(seed, 2) + 1) as u8;
            } else {
                new_set[k][st].3 = rand_range(seed, NUM_STATES);
            }
            proof {
                assert(set_view(new_set) =~= mutate_attempt(m, s).0);
            }
        } else if mode < 85 {
            let k = rand_range(seed, NUM_AUTOS);
            let st = rand_range(seed, NUM_STATES);
            new_set[k][st] = (
                rand_range(seed, 3) as u8,
                rand_range(seed, NUM_STATES),
                (rand_range(seed, 2) + 1) as u8,
                rand_range(seed, NUM_STATES),
            );
            proof {
                assert(set_view(new_set) =~= mutate_attempt(m, s).0);
            }
        } else if mode < 97 {
            let k = rand_range(seed, NUM_AUTOS);
            new_set[k] = random_table(seed);
            proof {
                assert(set_view(new_set) =~= mutate_attempt(m, s).0);
            }
        } else {
            new_set = random_auto_set(seed);
        }
        proof {
            assert((set_view(new_set), *seed) == mutate_attempt(m, s));
            assert(mutate_from(m, s, 1000 - i) == (if model_connected(set_view(new_set)) {
                (set_view(new_set), *seed)
            } else {
                mutate_from(m, *seed, 1000 - i - 1)
            }));
            lemma_set_view_wf(*auto_set);
            lemma_set_view_next(*auto_set);
            lemma_mutate_attempt_next(m, s);
            lemma_set_view_next(new_set);
            lemma_set_view_wf(new_set);
            if set_wf(*auto_set) {
                lemma_mutate_attempt_wf(m, s);
            }
            lemma_next_in_range_checkable(new_set);
        }
        if is_auto_set_valid(&new_set) {
            return new_set;
        }
        i += 1;
    }
    proof {
        lemma_set_view_injective(*auto_set, *auto_set);
    }
    *auto_set
}

} // verus!

verus! {

/// `steps` successive mutations.
pub fn mutate_many(auto_set: &AutoSet, seed: &mut u64, steps: usize) -> (r: AutoSet)
    requires
        set_next_in_range(*auto_set),
    ensures
        (set_view(r), *final(seed)) == mutate_n(set_view(*auto_set), *old(seed), steps as int),
        set_next_in_range(r),
        set_wf(*auto_set) ==> set_wf(r),
        set_connected(*auto_set) ==> set_connected(r),
{
    let ghost s0 = *seed;
    let mut cur = *auto_set;
    let mut i: usize = 0;
    while i < steps
        invariant
            i <= steps,
            s0 == *old(seed),
            set_next_in_range(cur),
            set_wf(*auto_set) ==> set_wf(cur),
            (set_view(cur), *seed) == mutate_n(set_view(*auto_set), s0, i as int),
            set_connected(*auto_set) ==> set_connected(cur),
        decreases steps - i,
    {
        cur = mutate(&cur, seed);
        i += 1;
    }
    cur
}

/// Two-level crossover of two sets (whole automata, then single rows). When the
/// result is not connected, one of the parents is returned instead.
pub fn crossover_auto_set(a: &AutoSet, b: &AutoSet, seed: &mut u64) -> (r: AutoSet)
    requires
        set_wf(*a),
        set_wf(*b),
    ensures
        (set_view(r), *final(seed)) == crossover_spec(set_view(*a), set_view(*b), *old(seed)),
        set_wf(r),
        set_connected(r) || r == *a || r == *b,
{
    let ghost s0 = *seed;
    let ghost ma = set_view(*a);
    let ghost mb = set_view(*b);
    let mut out = *a;
    let mut k: usize = 0;
    proof {
        assert(set_view(out) =~= cross_autos(ma, mb, s0, 0).0);
    }
    while k < NUM_AUTOS
        invariant
            k <= NUM_AUTOS,
            s0 == *old(seed),
            ma == set_view(*a),
            mb == set_view(*b),
            set_wf(*a),
            set_wf(*b),
            (set_view(out), *seed) == cross_autos(ma, mb, s0, k as int),
            forall|j: int| k <= j < NUM_AUTOS ==> #[trigger] out[j] == a[j],
            forall|j: int, st: int|
                0 <= j < NUM_AUTOS && 0 <= st < NUM_STATES ==> (#[trigger] out[j][st] == a[j][st] || out[j][st]
                    == b[j][st]),
        decreases NUM_AUTOS - k,
    {
        let ghost sk = *seed;
        let ghost prev = set_view(out);
        let d = rand_range(seed, 2);
        if d == 1 {
            out[k] = b[k];
        }
        let ghost row0 = out[k as int]@;
        let ghost s_row = *seed;
        proof {
            assert(row0 == (if d == 1 { mb[k as int] } else { prev[k as int] }));
            assert(cross_states(row0, mb[k as int], s_row, 0).0 =~= out[k as int]@);
        }
        let mut st: usize = 0;
        while st < NUM_STATES
            invariant
                k < NUM_AUTOS,
                st <= NUM_STATES,
                mb == set_view(*b),
                (out[k as int]@, *seed) == cross_states(row0, mb[k as int], s_row, st as int),
                forall|j: int| 0 <= j < NUM_AUTOS && j != k ==> #[trigger] out[j]@ == prev[j],
                forall|j: int, s2: int|
                    0 <= j < NUM_AUTOS && 0 <= s2 < NUM_STATES ==> (#[trigger] out[j][s2] == a[j][s2] || out[j][s2]
                        == b[j][s2]),
            decreases NUM_STATES - st,
        {
            let e = rand_range(seed, 2);
            if e == 1 {
                out[k][st] = b[k][st];
            }
            proof {
                assert(out[k as int]@ =~= cross_states(row0, mb[k as int], s_row, st + 1).0);
            }
            st += 1;
        }
        proof {
            assert(set_view(out) =~= cross_autos(ma, mb, s0, k + 1).0);
        }
        k += 1;
    }
    proof {
        assert forall|j: int| 0 <= j < NUM_AUTOS implies #[trigger] table_wf(out[j]) by {
            assert(table_wf(a[j]));
            assert(table_wf(b[j]));
            assert forall|st: int| 0 <= st < NUM_STATES implies #[trigger] entry_wf(out[j][st]) by {
                assert(out[j][st] == a[j][st] || out[j][st] == b[j][st]);
            }
        }
        lemma_wf_checkable(out);
        lemma_set_view_wf(out);
    }
    if is_auto_set_valid(&out) {
        out
    } else {
        if rand_range(seed, 2) == 0 {
            proof {
                lemma_set_view_injective(*a, *a);
            }
            *a
        } else {
            *b
        }
    }
}

} // verus!
