//! The decisions of the automaton search: scores, comparisons, and the
//! candidates it proposes at each step.

use vstd::prelude::*;
use crate::annealer::{N, NUM_AUTOS, NUM_STATES, CELLS, AutoEntry, AutoSet, set_wf, table_wf, entry_wf};
use crate::annealer::eval::{EvalStats, StatsModel, eval_all, stats_of, bests_of, board_best, best_cover_upto, robot_cover};
use crate::annealer::board::Board;
use crate::annealer::sim::lemma_cycle_cover_bound;
use crate::annealer::automata::{is_auto_set_valid, lemma_wf_checkable, lemma_wf_next_in_range, set_connected};
use crate::annealer::pool::entry_same;
use crate::annealer::pool::Elite;
use crate::annealer::random::{
    draw, rand_range, random_auto_set, random_entry, random_set, mutate_many, mutate_n, crossover_auto_set,
    crossover_spec, draw_entry, set_view, with_entry, SetModel, model_connected, lemma_set_view_wf,
};

verus! {

/// The strict score used to compare sets: fully covered boards first, then
/// boards with 399, 398, 395 and 380 cells, then the smallest cover, then the
/// total.
pub open spec fn combined_value(st: StatsModel) -> int {
    st.1 * 1_000_000_000_000 + st.2 * 1_000_000_000 + st.3 * 10_000_000 + st.4 * 100_000 + st.5 * 5_000 + st.6 * 200
        + st.0
}

/// The strict score of evaluation statistics (see `combined_value`).
pub fn combined_score(st: &EvalStats) -> (r: usize)
    requires
        combined_value(st@) <= usize::MAX,
    ensures
        r == combined_value(st@),
{
    let v: u128 = (st.full as u128) * 1_000_000_000_000 + (st.near_399 as u128) * 1_000_000_000 + (st.near_398 as u128)
        * 10_000_000 + (st.near_395 as u128) * 100_000 + (st.near_380 as u128) * 5_000 + (st.min_cover as u128) * 200
        + st.total as u128;
    v as usize
}

/// The score the annealing accepts by: fully covered boards and boards with
/// 399 cells weighted, plus the total.
pub open spec fn anneal_value(st: StatsModel, full_w: int, near_w: int) -> int {
    st.1 * full_w + st.2 * near_w + st.0
}

/// Every value of the annealing score fits an `i64`.
pub open spec fn anneal_fits(st: StatsModel, full_w: int, near_w: int) -> bool {
    &&& st.1 <= i64::MAX && st.2 <= i64::MAX && st.0 <= i64::MAX
    &&& i64::MIN <= st.1 * full_w <= i64::MAX
    &&& i64::MIN <= st.2 * near_w <= i64::MAX
    &&& i64::MIN <= st.1 * full_w + st.2 * near_w <= i64::MAX
    &&& i64::MIN <= anneal_value(st, full_w, near_w) <= i64::MAX
}

/// The annealing score of evaluation statistics (see `anneal_value`).
pub fn anneal_score(st: &EvalStats, full_w: i64, near_w: i64) -> (r: i64)
    requires
        anneal_fits(st@, full_w as int, near_w as int),
    ensures
        r == anneal_value(st@, full_w as int, near_w as int),
{
    (st.full as i64) * full_w + (st.near_399 as i64) * near_w + st.total as i64
}

/// Seconds without improvement after which the search restarts: longer for
/// long runs and when more boards are fully covered.
pub open spec fn stagnation_value(long_run: bool, full: int) -> int {
    if long_run {
        if full >= 50 {
            480
        } else if full >= 40 {
            120
        } else {
            90
        }
    } else if full >= 50 {
        30
    } else if full >= 40 {
        15
    } else {
        10
    }
}

/// Seconds without improvement after which the search restarts.
pub fn stagnation_secs(long_run: bool, full: usize) -> (r: u64)
    ensures
        r == stagnation_value(long_run, full as int),
{
    if long_run {
        if full >= 50 {
            480
        } else if full >= 40 {
            120
        } else {
            90
        }
    } else if full >= 50 {
        30
    } else if full >= 40 {
        15
    } else {
        10
    }
}

/// Whether candidate statistics beat the best ones: more fully covered
/// boards first; then, in the final mode, more boards with 399 cells and then
/// a larger total, otherwise a larger strict score.
pub open spec fn better_value(final_mode: bool, st: StatsModel, cmb: int, best: StatsModel, best_cmb: int) -> bool {
    if final_mode {
        st.1 > best.1 || (st.1 == best.1 && (st.2 > best.2 || (st.2 == best.2 && st.0 > best.0)))
    } else {
        st.1 > best.1 || (st.1 == best.1 && cmb > best_cmb)
    }
}

/// Whether candidate statistics beat the best ones (see `better_value`).
pub fn is_better(final_mode: bool, st: &EvalStats, cmb: usize, best: &EvalStats, best_cmb: usize) -> (r: bool)
    ensures
        r == better_value(final_mode, st@, cmb as int, best@, best_cmb as int),
{
    if final_mode {
        st.full > best.full || (st.full == best.full && (st.near_399 > best.near_399 || (st.near_399 == best.near_399
            && st.total > best.total)))
    } else {
        st.full > best.full || (st.full == best.full && cmb > best_cmb)
    }
}

/// Two indices below `len` drawn in turn; the second moves on by one when it
/// equals the first.
pub open spec fn pair_draw(s: u64, len: int) -> ((int, int), u64) {
    let (i, s1) = draw(s, len);
    let (j, s2) = draw(s1, len);
    ((i, if j == i { (j + 1) % len } else { j }), s2)
}

/// Two distinct indices below `len` (see `pair_draw`).
pub fn pick_pair(seed: &mut u64, len: usize) -> (r: (usize, usize))
    requires
        len >= 2,
    ensures
        ((r.0 as int, r.1 as int), *final(seed)) == pair_draw(*old(seed), len as int),
        r.0 < len,
        r.1 < len,
        r.0 != r.1,
{
    let i = rand_range(seed, len);
    let mut j = rand_range(seed, len);
    if j == i {
        proof {
            if j + 1 < len {
                assert((j + 1) % (len as int) == j + 1) by (nonlinear_arith)
                    requires 0 <= j + 1 < len;
            } else {
                assert((j + 1) % (len as int) == 0) by (nonlinear_arith)
                    requires j + 1 == len, len >= 2;
            }
        }
        j = (j + 1) % len;
    }
    (i, j)
}

/// The sets of the elites.
pub open spec fn elite_models(elites: Seq<Elite>) -> Seq<SetModel> {
    elites.map_values(|e: Elite| set_view(e.set))
}

/// Every elite set is well formed.
pub open spec fn elites_wf(elites: Seq<Elite>) -> bool {
    forall|i: int| 0 <= i < elites.len() ==> set_wf(#[trigger] elites[i].set)
}

/// One proposal of the annealing, from a draw in `[0, 100)`: a light mutation
/// of the current set (45%), a stronger one of an elite (35%), one of the
/// best set (12%), a mutated crossover of two elites (7%, when there are
/// two), or a mutated new random set.
pub open spec fn propose_spec(cur: SetModel, best: SetModel, elites: Seq<SetModel>, s: u64) -> (SetModel, u64) {
    let (r, s1) = draw(s, 100);
    if r < 45 {
        let (x, s2) = draw(s1, 4);
        mutate_n(cur, s2, 1 + x)
    } else if r < 80 {
        let (idx, s2) = draw(s1, elites.len() as int);
        let (x, s3) = draw(s2, 10);
        mutate_n(elites[idx], s3, 3 + x)
    } else if r < 92 {
        let (x, s2) = draw(s1, 6);
        mutate_n(best, s2, 1 + x)
    } else if r < 99 && elites.len() >= 2 {
        let (ij, s2) = pair_draw(s1, elites.len() as int);
        let (c, s3) = crossover_spec(elites[ij.0], elites[ij.1], s2);
        let (x, s4) = draw(s3, 6);
        mutate_n(c, s4, 2 + x)
    } else {
        let (c, s2) = random_set(s1);
        let (x, s3) = draw(s2, 2);
        mutate_n(c, s3, 1 + x)
    }
}

/// One proposal of the annealing (see `propose_spec`).
pub fn propose_candidate(current: &AutoSet, best: &AutoSet, elites: &Vec<Elite>, seed: &mut u64) -> (r: AutoSet)
    requires
        set_wf(*current),
        set_wf(*best),
        elites@.len() >= 1,
        elites_wf(elites@),
    ensures
        (set_view(r), *final(seed)) == propose_spec(set_view(*current), set_view(*best), elite_models(elites@), *old(seed)),
        set_wf(r),
{
    let ghost em = elite_models(elites@);
    let r = rand_range(seed, 100);
    let base: AutoSet;
    let steps: usize;
    if r < 45 {
        base = *current;
        steps = 1 + rand_range(seed, 4);
    } else if r < 80 {
        let idx = rand_range(seed, elites.len());
        base = elites[idx].set;
        steps = 3 + rand_range(seed, 10);
        proof {
            assert(em[idx as int] == set_view(elites@[idx as int].set));
            assert(set_wf(elites@[idx as int].set));
        }
    } else if r < 92 {
        base = *best;
        steps = 1 + rand_range(seed, 6);
    } else if r < 99 && elites.len() >= 2 {
        let (i, j) = pick_pair(seed, elites.len());
        proof {
            assert(em[i as int] == set_view(elites@[i as int].set));
            assert(em[j as int] == set_view(elites@[j as int].set));
            assert(set_wf(elites@[i as int].set));
            assert(set_wf(elites@[j as int].set));
        }
        base = crossover_auto_set(&elites[i].set, &elites[j].set, seed);
        steps = 2 + rand_range(seed, 6);
    } else {
        base = random_auto_set(seed);
        steps = 1 + rand_range(seed, 2);
    }
    proof {
        lemma_wf_next_in_range(base);
    }
    mutate_many(&base, seed, steps)
}

/// The restart after stagnation: the base is a crossover of two elites (or
/// the best set) when at least 50 boards are fully covered; otherwise a new
/// random set (45% of a draw in `[0, 100)`), a crossover of two elites, or
/// the first elite. The base is then mutated 4 to 12 times, or 12 to 33
/// times below 50 fully covered boards.
pub open spec fn restart_spec(best_full: int, elites: Seq<SetModel>, best: SetModel, s: u64) -> (SetModel, u64) {
    let (base, s1) = if best_full >= 50 {
        if elites.len() >= 2 {
            let (ij, t1) = pair_draw(s, elites.len() as int);
            crossover_spec(elites[ij.0], elites[ij.1], t1)
        } else {
            (best, s)
        }
    } else {
        let (r, t1) = draw(s, 100);
        if r < 45 {
            random_set(t1)
        } else if elites.len() >= 2 {
            let (ij, t2) = pair_draw(t1, elites.len() as int);
            crossover_spec(elites[ij.0], elites[ij.1], t2)
        } else {
            (elites[0], t1)
        }
    };
    let (jump, s2) = if best_full >= 50 {
        let (x, t) = draw(s1, 9);
        (4 + x, t)
    } else {
        let (x, t) = draw(s1, 22);
        (12 + x, t)
    };
    mutate_n(base, s2, jump)
}

/// The set the search restarts from after stagnation (see `restart_spec`).
pub fn restart_candidate(best_full: usize, elites: &Vec<Elite>, best: &AutoSet, seed: &mut u64) -> (r: AutoSet)
    requires
        set_wf(*best),
        elites@.len() >= 1,
        elites_wf(elites@),
    ensures
        (set_view(r), *final(seed)) == restart_spec(best_full as int, elite_models(elites@), set_view(*best), *old(seed)),
        set_wf(r),
{
    let ghost em = elite_models(elites@);
    let base: AutoSet;
    if best_full >= 50 {
        if elites.len() >= 2 {
            let (i, j) = pick_pair(seed, elites.len());
            proof {
                assert(em[i as int] == set_view(elites@[i as int].set));
                assert(em[j as int] == set_view(elites@[j as int].set));
                assert(set_wf(elites@[i as int].set));
                assert(set_wf(elites@[j as int].set));
            }
            base = crossover_auto_set(&elites[i].set, &elites[j].set, seed);
        } else {
            base = *best;
        }
    } else if rand_range(seed, 100) < 45 {
        base = random_auto_set(seed);
    } else if elites.len() >= 2 {
        let (i, j) = pick_pair(seed, elites.len());
        proof {
            assert(em[i as int] == set_view(elites@[i as int].set));
            assert(em[j as int] == set_view(elites@[j as int].set));
            assert(set_wf(elites@[i as int].set));
            assert(set_wf(elites@[j as int].set));
        }
        base = crossover_auto_set(&elites[i].set, &elites[j].set, seed);
    } else {
        base = elites[0].set;
        proof {
            assert(em[0] == set_view(elites@[0].set));
            assert(set_wf(elites@[0].set));
        }
    }
    let jump = if best_full >= 50 {
        4 + rand_range(seed, 9)
    } else {
        12 + rand_range(seed, 22)
    };
    proof {
        lemma_wf_next_in_range(base);
    }
    mutate_many(&base, seed, jump)
}

/// The statistics `eval_all` gives for a set.
pub open spec fn eval_model(boards: Seq<Board>, set: AutoSet, r: int, c: int) -> StatsModel {
    if boards.len() == 0 {
        (0, 0, 0, 0, 0, 0, 0)
    } else {
        stats_of(bests_of(boards, set, r, c, 0, boards.len() as int))
    }
}

/// The set with a given model.
pub open spec fn set_of_model(m: SetModel) -> AutoSet {
    choose|a: AutoSet| set_view(a) == m
}

/// A set is the set of its model.
pub proof fn lemma_set_of_model(a: AutoSet)
    ensures
        set_of_model(set_view(a)) == a,
{
    let b = set_of_model(set_view(a));
    assert(set_view(b) == set_view(a));
    assert forall|k: int| 0 <= k < NUM_AUTOS implies b[k] == a[k] by {
        assert(set_view(b)[k] == set_view(a)[k]);
        assert(b[k]@ == a[k]@);
        assert forall|s: int| 0 <= s < NUM_STATES implies b[k][s] == a[k][s] by {
            assert(b[k]@[s] == a[k]@[s]);
        }
        assert(b[k] =~= a[k]);
    }
    assert(b =~= a);
}

/// The statistics of the set with a given model.
pub open spec fn model_eval(boards: Seq<Board>, m: SetModel, r: int, c: int) -> StatsModel {
    eval_model(boards, set_of_model(m), r, c)
}

/// The statistics are those of at most `n` boards: counts up to `n`, a total
/// up to `400 n`, a smallest cover up to 400.
pub open spec fn stats_bounded(st: StatsModel, n: int) -> bool {
    &&& 0 <= st.0 <= CELLS * n
    &&& 0 <= st.1 <= n
    &&& 0 <= st.2 <= n
    &&& 0 <= st.3 <= n
    &&& 0 <= st.4 <= n
    &&& 0 <= st.5 <= n
    &&& 0 <= st.6 <= CELLS
}

/// The best cover of a board is between 0 and 400.
pub proof fn lemma_best_cover_bound(b: Board, set: AutoSet, r: int, c: int, n: int)
    requires
        set_wf(set),
        0 <= r < N,
        0 <= c < N,
        n <= 24,
    ensures
        0 <= best_cover_upto(b, set, r, c, n) <= CELLS,
    decreases n,
{
    if n > 0 {
        lemma_best_cover_bound(b, set, r, c, n - 1);
        let k = (n - 1) / 4;
        let d = (n - 1) % 4;
        assert(table_wf(set[k]));
        lemma_cycle_cover_bound(b, set[k], (r, c, d, 0));
    }
}

/// Statistics of covers between 0 and 400 are bounded.
pub proof fn lemma_stats_bounded(bests: Seq<int>)
    requires
        forall|i: int| 0 <= i < bests.len() ==> 0 <= #[trigger] bests[i] <= CELLS,
    ensures
        stats_bounded(stats_of(bests), bests.len() as int),
    decreases bests.len(),
{
    if bests.len() > 0 {
        let d = bests.drop_last();
        assert forall|i: int| 0 <= i < d.len() implies 0 <= #[trigger] d[i] <= CELLS by {
            assert(d[i] == bests[i]);
        }
        lemma_stats_bounded(d);
        assert(0 <= bests[bests.len() - 1] <= CELLS);
    }
}

/// The statistics of a set over `n` boards are bounded.
pub proof fn lemma_eval_bounded(boards: Seq<Board>, set: AutoSet, r: int, c: int)
    requires
        set_wf(set),
        0 <= r < N,
        0 <= c < N,
    ensures
        stats_bounded(eval_model(boards, set, r, c), boards.len() as int),
{
    if boards.len() > 0 {
        let bs = bests_of(boards, set, r, c, 0, boards.len() as int);
        assert forall|i: int| 0 <= i < bs.len() implies 0 <= #[trigger] bs[i] <= CELLS by {
            lemma_best_cover_bound(boards[i], set, r, c, 24);
        }
        lemma_stats_bounded(bs);
    }
}

/// Enough room for the scores of statistics over `n` boards: the strict
/// score of any of them fits a `usize`.
pub open spec fn search_budget(n: int) -> bool {
    n * 1_001_010_105_400 + 80_000 <= usize::MAX
}

/// Whether the scores of statistics over `n` boards fit (see `search_budget`).
pub fn within_budget(n: usize) -> (r: bool)
    ensures
        r == search_budget(n as int),
{
    let v: u128 = (n as u128) * 1_001_010_105_400 + 80_000;
    v <= usize::MAX as u128
}

/// Annealing weights the search uses are at most a billion in size.
pub open spec fn weights_ok(full_w: int, near_w: int) -> bool {
    -1_000_000_000 <= full_w <= 1_000_000_000 && -1_000_000_000 <= near_w <= 1_000_000_000
}

/// Within the budget, the scores of bounded statistics fit.
pub proof fn lemma_scores_fit(st: StatsModel, n: int, full_w: int, near_w: int)
    requires
        stats_bounded(st, n),
        search_budget(n),
        weights_ok(full_w, near_w),
    ensures
        combined_value(st) <= usize::MAX,
        anneal_fits(st, full_w, near_w),
{
    assert(n <= 20_000_000);
    assert(-1_000_000_000 * n <= st.1 * full_w <= 1_000_000_000 * n) by (nonlinear_arith)
        requires 0 <= st.1 <= n, -1_000_000_000 <= full_w <= 1_000_000_000;
    assert(-1_000_000_000 * n <= st.2 * near_w <= 1_000_000_000 * n) by (nonlinear_arith)
        requires 0 <= st.2 <= n, -1_000_000_000 <= near_w <= 1_000_000_000;
}

/// The best proposal of `t` trials by annealing score, starting from the
/// current set with the lowest score; a later proposal wins only with a
/// strictly larger score. Gives (set, statistics, score, seed).
pub open spec fn trials_spec(
    cur: SetModel,
    cur_st: StatsModel,
    best: SetModel,
    elites: Seq<SetModel>,
    boards: Seq<Board>,
    r: int,
    c: int,
    full_w: int,
    near_w: int,
    s: u64,
    t: int,
) -> (SetModel, StatsModel, int, u64)
    decreases t,
{
    if t <= 0 {
        (cur, cur_st, i64::MIN as int, s)
    } else {
        let prev = trials_spec(cur, cur_st, best, elites, boards, r, c, full_w, near_w, s, t - 1);
        let (m, s2) = propose_spec(cur, best, elites, prev.3);
        let st = model_eval(boards, m, r, c);
        let a = anneal_value(st, full_w, near_w);
        if a > prev.2 {
            (m, st, a, s2)
        } else {
            (prev.0, prev.1, prev.2, s2)
        }
    }
}

/// Several proposals evaluated over the boards; the one with the largest
/// annealing score is kept (see `trials_spec`).
pub fn anneal_trials(
    current: &AutoSet,
    current_stats: &EvalStats,
    best: &AutoSet,
    elites: &Vec<Elite>,
    boards: &[Board],
    start_row: usize,
    start_col: usize,
    full_w: i64,
    near_w: i64,
    trials: usize,
    seed: &mut u64,
) -> (r: (AutoSet, EvalStats, i64))
    requires
        set_wf(*current),
        set_wf(*best),
        elites@.len() >= 1,
        elites_wf(elites@),
        start_row < N,
        start_col < N,
        search_budget(boards@.len() as int),
        weights_ok(full_w as int, near_w as int),
    ensures
        (set_view(r.0), r.1@, r.2 as int, *final(seed)) == trials_spec(
            set_view(*current),
            current_stats@,
            set_view(*best),
            elite_models(elites@),
            boards@,
            start_row as int,
            start_col as int,
            full_w as int,
            near_w as int,
            *old(seed),
            trials as int,
        ),
        set_wf(r.0),
{
    let ghost s0 = *seed;
    let mut cand_set = *current;
    let mut cand_stats = *current_stats;
    let mut cand_anneal = i64::MIN;
    let mut t: usize = 0;
    while t < trials
        invariant
            t <= trials,
            set_wf(*current),
            set_wf(*best),
            set_wf(cand_set),
            elites@.len() >= 1,
            elites_wf(elites@),
            start_row < N,
            start_col < N,
            search_budget(boards@.len() as int),
            weights_ok(full_w as int, near_w as int),
            s0 == *old(seed),
            (set_view(cand_set), cand_stats@, cand_anneal as int, *seed) == trials_spec(
                set_view(*current),
                current_stats@,
                set_view(*best),
                elite_models(elites@),
                boards@,
                start_row as int,
                start_col as int,
                full_w as int,
                near_w as int,
                s0,
                t as int,
            ),
        decreases trials - t,
    {
        let new_set = propose_candidate(current, best, elites, seed);
        proof {
            assert(boards@.len() <= usize::MAX / CELLS);
        }
        let new_stats = eval_all(boards, &new_set, start_row, start_col);
        proof {
            lemma_set_of_model(new_set);
            lemma_eval_bounded(boards@, new_set, start_row as int, start_col as int);
            assert(new_stats@ == eval_model(boards@, new_set, start_row as int, start_col as int));
            lemma_scores_fit(new_stats@, boards@.len() as int, full_w as int, near_w as int);
        }
        let new_anneal = anneal_score(&new_stats, full_w, near_w);
        if new_anneal > cand_anneal {
            cand_set = new_set;
            cand_stats = new_stats;
            cand_anneal = new_anneal;
        }
        t += 1;
    }
    (cand_set, cand_stats, cand_anneal)
}

/// The set with row `s` of automaton `k` replaced by `e`.
fn replace_entry(set: &AutoSet, k: usize, s: usize, e: AutoEntry) -> (r: AutoSet)
    requires
        k < NUM_AUTOS,
        s < NUM_STATES,
    ensures
        set_view(r) == with_entry(set_view(*set), k as int, s as int, e),
        set_wf(*set) && entry_wf(e) ==> set_wf(r),
{
    let mut r = *set;
    let mut row = r[k];
    row[s] = e;
    r[k] = row;
    proof {
        assert(set_view(r) =~= with_entry(set_view(*set), k as int, s as int, e)) by {
            assert forall|x: int| 0 <= x < NUM_AUTOS implies set_view(r)[x] == with_entry(set_view(*set), k as int, s as int, e)[x] by {
                if x == k {
                    assert(r[x]@ =~= set_view(*set)[x].update(s as int, e));
                }
            }
        }
        if set_wf(*set) && entry_wf(e) {
            assert forall|x: int| 0 <= x < NUM_AUTOS implies #[trigger] table_wf(r[x]) by {
                assert(table_wf(set[x]));
                assert forall|y: int| 0 <= y < NUM_STATES implies #[trigger] entry_wf(r[x][y]) by {
                    if x == k && y == s {
                    } else {
                        assert(entry_wf(set[x][y]));
                    }
                }
            }
        }
    }
    r
}

/// The exhaustive search over one row: the first `i` candidate rows are
/// tried in turn in the best set (skipping the current row and sets with an
/// unreachable state); one is kept when it covers more boards fully, or as
/// many with a larger strict score, than the one kept so far. Gives
/// (row, statistics, strict score).
pub open spec fn slot_spec(
    best: SetModel,
    best_st: StatsModel,
    best_cmb: int,
    k: int,
    s: int,
    cands: Seq<AutoEntry>,
    boards: Seq<Board>,
    r: int,
    c: int,
    i: int,
) -> (AutoEntry, StatsModel, int)
    decreases i,
{
    if i <= 0 {
        (best[k][s], best_st, best_cmb)
    } else {
        let prev = slot_spec(best, best_st, best_cmb, k, s, cands, boards, r, c, i - 1);
        let e = cands[i - 1];
        if e == best[k][s] {
            prev
        } else {
            let cand = with_entry(best, k, s, e);
            if !model_connected(cand) {
                prev
            } else {
                let st = model_eval(boards, cand, r, c);
                let cmb = combined_value(st);
                if better_value(false, st, cmb, prev.1, prev.2) {
                    (e, st, cmb)
                } else {
                    prev
                }
            }
        }
    }
}

/// The best replacement for row `s` of automaton `k` of the best set among
/// the rows of `first` then `second` (see `slot_spec`); the current row when
/// none is better.
pub fn improve_slot(
    best: &AutoSet,
    best_stats: &EvalStats,
    best_combined: usize,
    k: usize,
    s: usize,
    first: &Vec<AutoEntry>,
    second: &Vec<AutoEntry>,
    boards: &[Board],
    start_row: usize,
    start_col: usize,
) -> (r: (AutoEntry, EvalStats, usize))
    requires
        set_wf(*best),
        k < NUM_AUTOS,
        s < NUM_STATES,
        forall|i: int| 0 <= i < first@.len() ==> entry_wf(#[trigger] first@[i]),
        forall|i: int| 0 <= i < second@.len() ==> entry_wf(#[trigger] second@[i]),
        first@.len() + second@.len() <= usize::MAX,
        start_row < N,
        start_col < N,
        search_budget(boards@.len() as int),
    ensures
        (r.0, r.1@, r.2 as int) == slot_spec(
            set_view(*best),
            best_stats@,
            best_combined as int,
            k as int,
            s as int,
            first@ + second@,
            boards@,
            start_row as int,
            start_col as int,
            (first@.len() + second@.len()) as int,
        ),
{
    let ghost cands = first@ + second@;
    let ghost bm = set_view(*best);
    let cur = best[k][s];
    let mut row_best = cur;
    let mut row_stats = *best_stats;
    let mut row_cmb = best_combined;
    let total = first.len() + second.len();
    let mut i: usize = 0;
    while i < total
        invariant
            i <= total,
            total == cands.len(),
            cands == first@ + second@,
            bm == set_view(*best),
            cur == best[k as int][s as int],
            set_wf(*best),
            k < NUM_AUTOS,
            s < NUM_STATES,
            forall|x: int| 0 <= x < cands.len() ==> entry_wf(#[trigger] cands[x]),
            start_row < N,
            start_col < N,
            search_budget(boards@.len() as int),
            (row_best, row_stats@, row_cmb as int) == slot_spec(
                bm,
                best_stats@,
                best_combined as int,
                k as int,
                s as int,
                cands,
                boards@,
                start_row as int,
                start_col as int,
                i as int,
            ),
        decreases total - i,
    {
        let entry = if i < first.len() {
            first[i]
        } else {
            second[i - first.len()]
        };
        proof {
            assert(entry == cands[i as int]);
            assert(bm[k as int][s as int] == cur);
        }
        if !entry_same(&entry, &cur) {
            let cand = replace_entry(best, k, s, entry);
            proof {
                lemma_wf_checkable(cand);
                lemma_set_view_wf(cand);
            }
            if is_auto_set_valid(&cand) {
                proof {
                    assert(boards@.len() <= usize::MAX / CELLS);
                }
                let st = eval_all(boards, &cand, start_row, start_col);
                proof {
                    lemma_set_of_model(cand);
                    lemma_eval_bounded(boards@, cand, start_row as int, start_col as int);
                    lemma_scores_fit(st@, boards@.len() as int, 0, 0);
                }
                let cmb = combined_score(&st);
                if st.full > row_stats.full || (st.full == row_stats.full && cmb > row_cmb) {
                    row_best = entry;
                    row_stats = st;
                    row_cmb = cmb;
                }
            }
        }
        i += 1;
    }
    (row_best, row_stats, row_cmb)
}

/// Random replacements of row `s` of automaton `k` drawn from the pool, each
/// tried in the best set so far and kept when better (see `better_value`);
/// a draw equal to the row the search started with is skipped. Gives (set,
/// statistics, strict score, seed).
pub open spec fn refine_spec(
    best: SetModel,
    best_st: StatsModel,
    best_cmb: int,
    k: int,
    s: int,
    start_entry: AutoEntry,
    pool: Seq<AutoEntry>,
    final_mode: bool,
    boards: Seq<Board>,
    r: int,
    c: int,
    seed: u64,
    t: int,
) -> (SetModel, StatsModel, int, u64)
    decreases t,
{
    if t <= 0 {
        (best, best_st, best_cmb, seed)
    } else {
        let prev = refine_spec(best, best_st, best_cmb, k, s, start_entry, pool, final_mode, boards, r, c, seed, t - 1);
        let (idx, s1) = draw(prev.3, pool.len() as int);
        let repl = pool[idx];
        if repl == start_entry {
            (prev.0, prev.1, prev.2, s1)
        } else {
            let cand = with_entry(prev.0, k, s, repl);
            if !model_connected(cand) {
                (prev.0, prev.1, prev.2, s1)
            } else {
                let st = model_eval(boards, cand, r, c);
                let cmb = combined_value(st);
                if better_value(final_mode, st, cmb, prev.1, prev.2) {
                    (cand, st, cmb, s1)
                } else {
                    (prev.0, prev.1, prev.2, s1)
                }
            }
        }
    }
}

/// Tries `trials` random rows from the pool for row `s` of automaton `k` of
/// the best set (see `refine_spec`).
pub fn refine_slot(
    best: &AutoSet,
    best_stats: &EvalStats,
    best_combined: usize,
    k: usize,
    s: usize,
    pool: &Vec<AutoEntry>,
    trials: usize,
    final_mode: bool,
    boards: &[Board],
    start_row: usize,
    start_col: usize,
    seed: &mut u64,
) -> (r: (AutoSet, EvalStats, usize))
    requires
        set_wf(*best),
        k < NUM_AUTOS,
        s < NUM_STATES,
        pool@.len() >= 1,
        forall|i: int| 0 <= i < pool@.len() ==> entry_wf(#[trigger] pool@[i]),
        start_row < N,
        start_col < N,
        search_budget(boards@.len() as int),
    ensures
        (set_view(r.0), r.1@, r.2 as int, *final(seed)) == refine_spec(
            set_view(*best),
            best_stats@,
            best_combined as int,
            k as int,
            s as int,
            best[k as int][s as int],
            pool@,
            final_mode,
            boards@,
            start_row as int,
            start_col as int,
            *old(seed),
            trials as int,
        ),
        set_wf(r.0),
{
    let ghost s0 = *seed;
    let old_entry = best[k][s];
    let mut cur = *best;
    let mut cur_stats = *best_stats;
    let mut cur_cmb = best_combined;
    let mut t: usize = 0;
    while t < trials
        invariant
            t <= trials,
            set_wf(cur),
            k < NUM_AUTOS,
            s < NUM_STATES,
            pool@.len() >= 1,
            forall|i: int| 0 <= i < pool@.len() ==> entry_wf(#[trigger] pool@[i]),
            start_row < N,
            start_col < N,
            search_budget(boards@.len() as int),
            s0 == *old(seed),
            old_entry == best[k as int][s as int],
            (set_view(cur), cur_stats@, cur_cmb as int, *seed) == refine_spec(
                set_view(*best),
                best_stats@,
                best_combined as int,
                k as int,
                s as int,
                old_entry,
                pool@,
                final_mode,
                boards@,
                start_row as int,
                start_col as int,
                s0,
                t as int,
            ),
        decreases trials - t,
    {
        let idx = rand_range(seed, pool.len());
        let repl = pool[idx];
        if !entry_same(&repl, &old_entry) {
            let cand = replace_entry(&cur, k, s, repl);
            proof {
                lemma_wf_checkable(cand);
                lemma_set_view_wf(cand);
            }
            if is_auto_set_valid(&cand) {
                proof {
                    assert(boards@.len() <= usize::MAX / CELLS);
                }
                let st = eval_all(boards, &cand, start_row, start_col);
                proof {
                    lemma_set_of_model(cand);
                    lemma_eval_bounded(boards@, cand, start_row as int, start_col as int);
                    lemma_scores_fit(st@, boards@.len() as int, 0, 0);
                }
                let cmb = combined_score(&st);
                if is_better(final_mode, &st, cmb, &cur_stats, cur_cmb) {
                    cur = cand;
                    cur_stats = st;
                    cur_cmb = cmb;
                }
            }
        }
        t += 1;
    }
    (cur, cur_stats, cur_cmb)
}

/// The changes of a local proposal, applied one after another: a random row
/// of a random automaton gets a row from the pool (always in the final mode,
/// otherwise with 88% of a draw in `[0, 100)`) or a new random row.
pub open spec fn local_changes(m: SetModel, pool: Seq<AutoEntry>, final_mode: bool, s: u64, n: int) -> (SetModel, u64)
    decreases n,
{
    if n <= 0 {
        (m, s)
    } else {
        let (m1, s1) = local_changes(m, pool, final_mode, s, n - 1);
        let (k, s2) = draw(s1, NUM_AUTOS as int);
        let (st, s3) = draw(s2, NUM_STATES as int);
        let (use_pool, s4) = if final_mode {
            (true, s3)
        } else {
            let (x, t) = draw(s3, 100);
            (x < 88, t)
        };
        if use_pool {
            let (idx, s5) = draw(s4, pool.len() as int);
            (with_entry(m1, k, st, pool[idx]), s5)
        } else {
            let (e, s5) = draw_entry(s4);
            (with_entry(m1, k, st, e), s5)
        }
    }
}

/// A local proposal: 1 or 2 changes in the final mode, 1 to 3 otherwise
/// (see `local_changes`).
pub open spec fn local_spec(m: SetModel, pool: Seq<AutoEntry>, final_mode: bool, s: u64) -> (SetModel, u64) {
    let (c, s1) = if final_mode { draw(s, 2) } else { draw(s, 3) };
    local_changes(m, pool, final_mode, s1, 1 + c)
}

/// A local proposal around the best set (see `local_spec`).
pub fn local_candidate(best: &AutoSet, pool: &Vec<AutoEntry>, final_mode: bool, seed: &mut u64) -> (r: AutoSet)
    requires
        set_wf(*best),
        pool@.len() >= 1,
        forall|i: int| 0 <= i < pool@.len() ==> entry_wf(#[trigger] pool@[i]),
    ensures
        (set_view(r), *final(seed)) == local_spec(set_view(*best), pool@, final_mode, *old(seed)),
        set_wf(r),
{
    let changes = if final_mode {
        1 + rand_range(seed, 2)
    } else {
        1 + rand_range(seed, 3)
    };
    let ghost s1 = *seed;
    let mut cand = *best;
    let mut i: usize = 0;
    while i < changes
        invariant
            i <= changes,
            set_wf(cand),
            pool@.len() >= 1,
            forall|x: int| 0 <= x < pool@.len() ==> entry_wf(#[trigger] pool@[x]),
            (set_view(cand), *seed) == local_changes(set_view(*best), pool@, final_mode, s1, i as int),
        decreases changes - i,
    {
        let k = rand_range(seed, NUM_AUTOS);
        let s = rand_range(seed, NUM_STATES);
        let use_pool = if final_mode {
            true
        } else {
            rand_range(seed, 100) < 88
        };
        if use_pool {
            let idx = rand_range(seed, pool.len());
            cand = replace_entry(&cand, k, s, pool[idx]);
        } else {
            let e = random_entry(seed);
            cand = replace_entry(&cand, k, s, e);
        }
        i += 1;
    }
    cand
}

} // verus!
