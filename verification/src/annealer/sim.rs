//! Running one automaton on a board until its trajectory becomes periodic.

use vstd::prelude::*;
use vstd::arithmetic::div_mod::lemma_fundamental_div_mod_converse;
use vstd::set_lib::{set_int_range, lemma_int_range, lemma_len_subset};
use crate::annealer::{N, CELLS, NUM_STATES, STATE_SPACE, AutoTable, table_wf, entry_wf};
use crate::annealer::board::{Board, wall_ahead, has_wall};

verus! {

/// A robot configuration: (row, col, dir, automaton state).
pub type SimState = (int, int, int, int);

/// The configuration is inside the grid and the state is a valid automaton state.
pub open spec fn state_valid(st: SimState) -> bool {
    &&& 0 <= st.0 < N
    &&& 0 <= st.1 < N
    &&& 0 <= st.2 < 4
    &&& 0 <= st.3 < NUM_STATES
}

/// Row offset of one step forward in direction `d`.
pub open spec fn delta_row(d: int) -> int {
    if d == 0 { -1 } else if d == 2 { 1 } else { 0 }
}

/// Column offset of one step forward in direction `d`.
pub open spec fn delta_col(d: int) -> int {
    if d == 1 { 1 } else if d == 3 { -1 } else { 0 }
}

/// One move of the robot: look at the wall ahead, apply the action of the
/// current state (forward, turn right, turn left) and switch state.
pub open spec fn step(b: Board, t: AutoTable, st: SimState) -> SimState {
    let e = t[st.3];
    let wall = wall_ahead(b, st.0, st.1, st.2);
    let a = if wall { e.2 } else { e.0 };
    let ns = if wall { e.3 as int } else { e.1 as int };
    if a == 0 {
        (st.0 + delta_row(st.2), st.1 + delta_col(st.2), st.2, ns)
    } else if a == 1 {
        (st.0, st.1, (st.2 + 1) % 4, ns)
    } else {
        (st.0, st.1, (st.2 + 3) % 4, ns)
    }
}

/// Facing `d2` is facing `d` turned a quarter clockwise: the step vector
/// (row, column) `(dr, dc)` becomes `(dc, -dr)` (up becomes right).
pub open spec fn clockwise_of(d: int, d2: int) -> bool {
    delta_row(d2) == delta_col(d) && delta_col(d2) == -delta_row(d)
}

/// The directions are the four unit steps, told apart by their step vector.
pub proof fn lemma_dir_by_vector(d: int, d2: int)
    requires
        0 <= d < 4,
        0 <= d2 < 4,
        delta_row(d) == delta_row(d2),
        delta_col(d) == delta_col(d2),
    ensures
        d == d2,
{
}

/// A move stays in place and turns the robot a quarter clockwise for action
/// 1 (right), a quarter counter-clockwise for action 2 (left), and takes one
/// step ahead without turning for action 0 (forward); so a right turn and a
/// left turn undo each other.
pub proof fn lemma_step_turns(b: Board, t: AutoTable, st: SimState)
    requires
        0 <= st.2 < 4,
    ensures
        ({
            let e = t[st.3];
            let wall = wall_ahead(b, st.0, st.1, st.2);
            let a = if wall { e.2 } else { e.0 };
            let nx = step(b, t, st);
            &&& 0 <= nx.2 < 4
            &&& nx.3 == (if wall { e.3 as int } else { e.1 as int })
            &&& a == 0 ==> nx.0 == st.0 + delta_row(st.2) && nx.1 == st.1 + delta_col(st.2) && nx.2 == st.2
            &&& a == 1 ==> nx.0 == st.0 && nx.1 == st.1 && clockwise_of(st.2, nx.2)
            &&& a == 2 ==> nx.0 == st.0 && nx.1 == st.1 && clockwise_of(nx.2, st.2)
        }),
{
}

/// The configuration after `k` moves from `st0`.
pub open spec fn traj(b: Board, t: AutoTable, st0: SimState, k: int) -> SimState
    decreases k,
{
    if k <= 0 {
        st0
    } else {
        step(b, t, traj(b, t, st0, k - 1))
    }
}

/// Cell number (row * N + col) of a configuration.
pub open spec fn cell_of(st: SimState) -> int {
    st.0 * N + st.1
}

/// Index of a configuration in a table of all configurations.
pub open spec fn state_index(st: SimState) -> int {
    ((st.0 * N + st.1) * 4 + st.2) * NUM_STATES + st.3
}

/// `j` is the first moment the trajectory comes back to an earlier
/// configuration, the one of moment `i`.
pub open spec fn is_first_repeat(b: Board, t: AutoTable, st0: SimState, i: int, j: int) -> bool {
    &&& 0 <= i < j
    &&& traj(b, t, st0, j) == traj(b, t, st0, i)
    &&& forall|p: int, q: int|
        0 <= p < q < j ==> traj(b, t, st0, p) != traj(b, t, st0, q)
}

/// The pair (start of the cycle, first repeat).
pub open spec fn first_repeat(b: Board, t: AutoTable, st0: SimState) -> (int, int) {
    choose|i: int, j: int| is_first_repeat(b, t, st0, i, j)
}

/// Cells visited at moments `i .. j`.
pub open spec fn cells_between(b: Board, t: AutoTable, st0: SimState, i: int, j: int) -> Set<int> {
    Set::new(|c: int| exists|u: int| i <= u < j && cell_of(traj(b, t, st0, u)) == c)
}

/// Cells visited on the periodic part of the trajectory.
pub open spec fn cycle_cells(b: Board, t: AutoTable, st0: SimState) -> Set<int> {
    let (i, j) = first_repeat(b, t, st0);
    cells_between(b, t, st0, i, j)
}

/// Number of cells patrolled forever by the robot started in `st0`.
pub open spec fn cycle_cover(b: Board, t: AutoTable, st0: SimState) -> nat {
    cycle_cells(b, t, st0).len()
}

/// A move keeps a valid configuration valid.
pub proof fn lemma_step_valid(b: Board, t: AutoTable, st: SimState)
    requires
        table_wf(t),
        state_valid(st),
    ensures
        state_valid(step(b, t, st)),
{
    assert(entry_wf(t[st.3]));
}

/// Every configuration on the trajectory is valid.
pub proof fn lemma_traj_valid(b: Board, t: AutoTable, st0: SimState, k: int)
    requires
        table_wf(t),
        state_valid(st0),
    ensures
        state_valid(traj(b, t, st0, k)),
    decreases k,
{
    if k > 0 {
        lemma_traj_valid(b, t, st0, k - 1);
        lemma_step_valid(b, t, traj(b, t, st0, k - 1));
    }
}

/// The first repeat is unique.
pub proof fn lemma_first_repeat_unique(b: Board, t: AutoTable, st0: SimState, i: int, j: int)
    requires
        is_first_repeat(b, t, st0, i, j),
    ensures
        first_repeat(b, t, st0) == (i, j),
        cycle_cells(b, t, st0) == cells_between(b, t, st0, i, j),
{
    let (i2, j2) = first_repeat(b, t, st0);
    assert(is_first_repeat(b, t, st0, i2, j2));
    if j < j2 {
        assert(traj(b, t, st0, i) != traj(b, t, st0, j));
    } else if j2 < j {
        assert(traj(b, t, st0, i2) != traj(b, t, st0, j2));
    }
    assert(j == j2);
    if i < i2 {
        assert(traj(b, t, st0, i) != traj(b, t, st0, i2));
    } else if i2 < i {
        assert(traj(b, t, st0, i2) != traj(b, t, st0, i));
    }
}

/// Distinct valid configurations have distinct indices below `STATE_SPACE`.
pub proof fn lemma_state_index(st: SimState)
    requires
        state_valid(st),
    ensures
        0 <= state_index(st) < STATE_SPACE,
        state_index(st) % 6 == st.3,
        (state_index(st) / 6) % 4 == st.2,
        ((state_index(st) / 6) / 4) % 20 == st.1,
        ((state_index(st) / 6) / 4) / 20 == st.0,
{
    let a = st.0 * 20 + st.1;
    let b = a * 4 + st.2;
    let x = b * 6 + st.3;
    assert(0 <= a < 400) by (nonlinear_arith)
        requires a == st.0 * 20 + st.1, 0 <= st.0 < 20, 0 <= st.1 < 20;
    assert(0 <= x < 9600) by (nonlinear_arith)
        requires x == (a * 4 + st.2) * 6 + st.3, 0 <= a < 400, 0 <= st.2 < 4, 0 <= st.3 < 6;
    lemma_fundamental_div_mod_converse(x, 6, b, st.3);
    lemma_fundamental_div_mod_converse(b, 4, a, st.2);
    lemma_fundamental_div_mod_converse(a, 20, st.0, st.1);
}

/// Valid configurations with equal indices are equal.
pub proof fn lemma_state_index_injective(s1: SimState, s2: SimState)
    requires
        state_valid(s1),
        state_valid(s2),
        state_index(s1) == state_index(s2),
    ensures
        s1 == s2,
{
    lemma_state_index(s1);
    lemma_state_index(s2);
}

/// A duplicate-free sequence of numbers in `[0, n)` that misses some `x` in `[0, n)`
/// is shorter than `n`.
pub proof fn lemma_distinct_in_range_short(s: Seq<int>, n: int, x: int)
    requires
        s.no_duplicates(),
        forall|i: int| 0 <= i < s.len() ==> 0 <= #[trigger] s[i] < n,
        0 <= x < n,
        !s.contains(x),
    ensures
        s.len() < n,
{
    s.unique_seq_to_set();
    let big = s.to_set().insert(x);
    lemma_int_range(0, n);
    assert(big.subset_of(set_int_range(0, n))) by {
        assert forall|v: int| big.contains(v) implies set_int_range(0, n).contains(v) by {
            if v != x {
                assert(s.to_set().contains(v));
                let i = choose|i: int| 0 <= i < s.len() && s[i] == v;
                assert(0 <= s[i] < n);
            }
        }
    }
    lemma_len_subset(big, set_int_range(0, n));
    assert(!s.to_set().contains(x));
}

/// At most every cell of the grid is patrolled.
pub proof fn lemma_cycle_cover_bound(b: Board, t: AutoTable, st0: SimState)
    requires
        table_wf(t),
        state_valid(st0),
    ensures
        cycle_cover(b, t, st0) <= CELLS,
{
    let cc = cycle_cells(b, t, st0);
    let (i, j) = first_repeat(b, t, st0);
    assert(cc.subset_of(set_int_range(0, CELLS as int))) by {
        assert forall|x: int| cc.contains(x) implies set_int_range(0, CELLS as int).contains(x) by {
            let u = choose|u: int| i <= u < j && cell_of(traj(b, t, st0, u)) == x;
            lemma_traj_valid(b, t, st0, u);
            let st = traj(b, t, st0, u);
            assert(0 <= st.0 * 20 + st.1 < 400) by (nonlinear_arith)
                requires 0 <= st.0 < 20, 0 <= st.1 < 20;
        }
    }
    lemma_int_range(0, CELLS as int);
    lemma_len_subset(cc, set_int_range(0, CELLS as int));
}

/// The cells listed in `h[from..to]`.
pub open spec fn hist_cells(h: Seq<u16>, from: int, to: int) -> Set<int> {
    Set::new(|c: int| exists|u: int| from <= u < to && h[u] as int == c)
}

/// Cells `c < k` that satisfy `p`.
pub open spec fn marked_below(p: spec_fn(int) -> bool, k: int) -> Set<int> {
    Set::new(|c: int| 0 <= c < k && p(c))
}

/// Counting the marked cells one by one gives the size of the set.
pub proof fn lemma_marked_below_step(p: spec_fn(int) -> bool, k: int)
    requires
        0 <= k,
    ensures
        marked_below(p, k).finite(),
        marked_below(p, k + 1).finite(),
        marked_below(p, k + 1).len() == marked_below(p, k).len() + (if p(k) { 1int } else { 0int }),
{
    lemma_int_range(0, k);
    lemma_int_range(0, k + 1);
    assert(marked_below(p, k).subset_of(set_int_range(0, k)));
    assert(marked_below(p, k + 1).subset_of(set_int_range(0, k + 1)));
    lemma_len_subset(marked_below(p, k), set_int_range(0, k));
    if p(k) {
        assert(marked_below(p, k + 1) =~= marked_below(p, k).insert(k));
    } else {
        assert(marked_below(p, k + 1) =~= marked_below(p, k));
    }
}

/// Number of distinct cells among `history[from..]`.
pub fn count_cells(history: &Vec<u16>, from: usize) -> (res: usize)
    requires
        from < history.len(),
        forall|u: int| 0 <= u < history.len() ==> (#[trigger] history@[u]) < CELLS,
    ensures
        res == hist_cells(history@, from as int, history.len() as int).len(),
        1 <= res <= CELLS,
{
    let ghost hs = history@;
    let ghost to = history.len() as int;
    let mut marked = [false; CELLS];
    let mut i = from;
    while i < history.len()
        invariant
            from <= i <= history.len(),
            hs == history@,
            to == history.len(),
            forall|u: int| 0 <= u < history.len() ==> (#[trigger] history@[u]) < CELLS,
            forall|c: int|
                0 <= c < CELLS ==> (#[trigger] marked[c] <==> hist_cells(hs, from as int, i as int).contains(c)),
        decreases history.len() - i,
    {
        let cell = history[i] as usize;
        marked[cell] = true;
        proof {
            assert forall|c: int| 0 <= c < CELLS implies (#[trigger] marked[c] <==> hist_cells(
                hs,
                from as int,
                i + 1,
            ).contains(c)) by {
                if c == cell {
                    assert(hs[i as int] as int == c);
                } else {
                    if hist_cells(hs, from as int, i + 1).contains(c) {
                        let u = choose|u: int| from <= u < i + 1 && hs[u] as int == c;
                        assert(u != i);
                        assert(hist_cells(hs, from as int, i as int).contains(c));
                    }
                }
            }
        }
        i += 1;
    }
    let ghost p = |c: int| marked[c];
    proof {
        assert(marked_below(p, 0) =~= Set::<int>::empty());
    }
    let mut cnt: usize = 0;
    let mut k: usize = 0;
    while k < CELLS
        invariant
            k <= CELLS,
            p == (|c: int| marked[c]),
            cnt == marked_below(p, k as int).len(),
            marked_below(p, k as int).finite(),
            cnt <= k,
        decreases CELLS - k,
    {
        proof {
            lemma_marked_below_step(p, k as int);
        }
        if marked[k] {
            cnt += 1;
        }
        k += 1;
    }
    proof {
        let hc = hist_cells(hs, from as int, to);
        assert(marked_below(p, CELLS as int) =~= hc) by {
            assert forall|c: int| hc.contains(c) implies 0 <= c < CELLS by {
                let u = choose|u: int| from <= u < to && hs[u] as int == c;
                assert(hs[u] < CELLS);
            }
        }
        assert(marked[hs[from as int] as int]);
        assert(hc.contains(hs[from as int] as int));
        assert(hc.len() > 0);
    }
    cnt
}

/// Forget every configuration recorded in `touched`.
fn reset_touched(visited_at: &mut [i32; STATE_SPACE], touched: &Vec<usize>)
    requires
        forall|u: int| 0 <= u < touched.len() ==> (#[trigger] touched@[u]) < STATE_SPACE,
        forall|i: int|
            0 <= i < STATE_SPACE ==> #[trigger] old(visited_at)[i] == -1 || touched@.contains(i as usize),
    ensures
        forall|i: int| 0 <= i < STATE_SPACE ==> #[trigger] final(visited_at)[i] == -1,
{
    let mut j: usize = 0;
    while j < touched.len()
        invariant
            j <= touched.len(),
            forall|u: int| 0 <= u < touched.len() ==> (#[trigger] touched@[u]) < STATE_SPACE,
            forall|i: int|
                0 <= i < STATE_SPACE ==> #[trigger] visited_at[i] == -1 || exists|u: int|
                    j <= u < touched.len() && touched@[u] == i,
        decreases touched.len() - j,
    {
        let x = touched[j];
        visited_at[x] = -1;
        proof {
            assert forall|i: int| 0 <= i < STATE_SPACE implies #[trigger] visited_at[i] == -1
                || exists|u: int| j + 1 <= u < touched.len() && touched@[u] == i by {
                if visited_at[i] != -1 {
                    let u = choose|u: int| j <= u < touched.len() && touched@[u] == i;
                    assert(u != j);
                }
            }
        }
        j += 1;
    }
}

/// One simulation. Returns the number of cells visited on the periodic part
/// of the trajectory of the robot started at (start_row, start_col) facing
/// `start_dir` in state 0.
/// `visited_at`, `touched` and `history` are scratch buffers reused between
/// calls; `visited_at` is all -1 before and after the call.
#[verifier::spinoff_prover]
pub fn simulate(
    board: &Board,
    auto_table: &AutoTable,
    start_row: usize,
    start_col: usize,
    start_dir: usize,
    visited_at: &mut [i32; STATE_SPACE],
    touched: &mut Vec<usize>,
    history: &mut Vec<u16>,
) -> (res: usize)
    requires
        table_wf(*auto_table),
        start_row < N,
        start_col < N,
        start_dir < 4,
        forall|i: int| 0 <= i < STATE_SPACE ==> #[trigger] old(visited_at)[i] == -1,
    ensures
        res == cycle_cover(*board, *auto_table, (start_row as int, start_col as int, start_dir as int, 0)),
        1 <= res <= CELLS,
        forall|i: int| 0 <= i < STATE_SPACE ==> #[trigger] final(visited_at)[i] == -1,
        final(history).len() == first_repeat(*board, *auto_table, (start_row as int, start_col as int, start_dir as int, 0)).1,
        final(touched).len() == final(history).len(),
        forall|u: int| 0 <= u < final(history).len() ==> {
            let st = traj(*board, *auto_table, (start_row as int, start_col as int, start_dir as int, 0), u);
            &&& #[trigger] final(history)@[u] as int == cell_of(st)
            &&& final(touched)@[u] as int == state_index(st)
        },
{
    touched.clear();
    history.clear();
    let ghost b = *board;
    let ghost t = *auto_table;
    let ghost st0: SimState = (start_row as int, start_col as int, start_dir as int, 0);

    let mut row = start_row;
    let mut col = start_col;
    let mut dir = start_dir;
    let mut state: usize = 0;

    loop
        invariant
            b == *board,
            t == *auto_table,
            table_wf(t),
            st0 == (start_row as int, start_col as int, start_dir as int, 0int),
            state_valid(st0),
            touched.len() == history.len(),
            history.len() < STATE_SPACE + 1,
            (row as int, col as int, dir as int, state as int) == traj(b, t, st0, history.len() as int),
            forall|u: int| 0 <= u < history.len() ==> {
                let st = #[trigger] traj(b, t, st0, u);
                &&& history@[u] as int == cell_of(st)
                &&& touched@[u] as int == state_index(st)
                &&& history@[u] < CELLS
                &&& touched@[u] < STATE_SPACE
                &&& visited_at[touched@[u] as int] == u
            },
            forall|i: int|
                0 <= i < STATE_SPACE ==> #[trigger] visited_at[i] == -1 || (0 <= visited_at[i]
                    < history.len() && touched@[visited_at[i] as int] == i),
            forall|p: int, q: int|
                0 <= p < q < history.len() ==> traj(b, t, st0, p) != traj(b, t, st0, q),
        decreases STATE_SPACE - history.len(),
    {
        let ghost len = history.len() as int;
        proof {
            lemma_traj_valid(b, t, st0, len);
            lemma_state_index(traj(b, t, st0, len));
        }
        assert(((row * N + col) * 4 + dir) * NUM_STATES + state < STATE_SPACE) by (nonlinear_arith)
            requires
                row < 20, col < 20, dir < 4, state < 6;
        let idx = ((row * N + col) * 4 + dir) * NUM_STATES + state;
        let at = visited_at[idx];

        if at >= 0 {
            proof {
                let i = at as int;
                assert(touched@[i] as int == idx);
                lemma_traj_valid(b, t, st0, i);
                lemma_state_index_injective(traj(b, t, st0, i), traj(b, t, st0, len));
                assert(is_first_repeat(b, t, st0, i, len));
                lemma_first_repeat_unique(b, t, st0, i, len);
                assert forall|u: int| 0 <= u < touched.len() implies (#[trigger] touched@[u]) < STATE_SPACE by {
                    let _ = traj(b, t, st0, u);
                }
                assert forall|u: int| 0 <= u < history.len() implies (#[trigger] history@[u]) < CELLS by {
                    let _ = traj(b, t, st0, u);
                }
                assert forall|k: int| 0 <= k < STATE_SPACE implies #[trigger] visited_at[k] == -1
                    || touched@.contains(k as usize) by {
                    if visited_at[k] != -1 {
                        assert(touched@[visited_at[k] as int] == k);
                    }
                }
            }
            reset_touched(visited_at, touched);
            let cycle_start = at as usize;
            let res = count_cells(history, cycle_start);
            proof {
                let i = at as int;
                assert(hist_cells(history@, i, len) =~= cells_between(b, t, st0, i, len)) by {
                    assert forall|c: int| cells_between(b, t, st0, i, len).contains(c)
                        implies hist_cells(history@, i, len).contains(c) by {
                        let u = choose|u: int| i <= u < len && cell_of(traj(b, t, st0, u)) == c;
                        assert(history@[u] as int == cell_of(traj(b, t, st0, u)));
                    }
                    assert forall|c: int| hist_cells(history@, i, len).contains(c)
                        implies cells_between(b, t, st0, i, len).contains(c) by {
                        let u = choose|u: int| i <= u < len && history@[u] as int == c;
                        assert(history@[u] as int == cell_of(traj(b, t, st0, u)));
                    }
                }
            }
            return res;
        }
        proof {
            let s = touched@.map_values(|v: usize| v as int);
            assert forall|i: int| 0 <= i < s.len() implies 0 <= #[trigger] s[i] < STATE_SPACE by {
                let _ = traj(b, t, st0, i);
                assert(touched@[i] < STATE_SPACE);
            }
            assert(s.no_duplicates()) by {
                assert forall|p: int, q: int| 0 <= p < s.len() && 0 <= q < s.len() && p != q
                    implies s[p] != s[q] by {
                    let _ = traj(b, t, st0, p);
                    let _ = traj(b, t, st0, q);
                    assert(visited_at[touched@[p] as int] == p);
                    assert(visited_at[touched@[q] as int] == q);
                }
            }
            assert(!s.contains(idx as int)) by {
                if s.contains(idx as int) {
                    let u = choose|u: int| 0 <= u < s.len() && s[u] == idx as int;
                    let _ = traj(b, t, st0, u);
                    assert(visited_at[touched@[u] as int] == u);
                }
            }
            lemma_distinct_in_range_short(s, STATE_SPACE as int, idx as int);
            assert forall|u: int| 0 <= u < len implies #[trigger] touched@[u] != idx by {
                let _ = traj(b, t, st0, u);
            }
        }

        assert(row * N + col < CELLS) by (nonlinear_arith)
            requires
                row < 20, col < 20;
        let ghost old_cell = (row * N + col) as int;
        let ghost h0 = history@;
        let ghost t0 = touched@;
        let ghost va0 = *visited_at;
        assert forall|u: int| 0 <= u < len implies {
            let st = #[trigger] traj(b, t, st0, u);
            &&& h0[u] as int == cell_of(st)
            &&& t0[u] as int == state_index(st)
            &&& h0[u] < CELLS
            &&& t0[u] < STATE_SPACE
            &&& va0[t0[u] as int] == u
            &&& t0[u] != idx
        } by {}
        visited_at[idx] = history.len() as i32;
        touched.push(idx);
        history.push((row * N + col) as u16);
        assert(history@[len] as int == old_cell);
        assert(touched@[len] as int == idx);

        let wall = has_wall(board, row, col, dir);
        let (action, next_state) = if wall {
            (auto_table[state].2, auto_table[state].3)
        } else {
            (auto_table[state].0, auto_table[state].1)
        };
        proof {
            assert(entry_wf(t[state as int]));
        }
        if action == 0 {
            if dir == 0 {
                row = row - 1;
            } else if dir == 1 {
                col = col + 1;
            } else if dir == 2 {
                row = row + 1;
            } else {
                col = col - 1;
            }
        } else if action == 1 {
            dir = (dir + 1) % 4;
        } else {
            dir = (dir + 3) % 4;
        }
        state = next_state;
        proof {
            let new_len = len + 1;
            assert(traj(b, t, st0, new_len) == step(b, t, traj(b, t, st0, len)));
            assert forall|p: int, q: int| 0 <= p < q < new_len implies traj(b, t, st0, p) != traj(
                b,
                t,
                st0,
                q,
            ) by {
                if q == len {
                    lemma_traj_valid(b, t, st0, p);
                    assert(visited_at[touched@[p] as int] == p);
                    if traj(b, t, st0, p) == traj(b, t, st0, q) {
                        assert(touched@[p] as int == idx);
                    }
                }
            }
            assert forall|u: int| 0 <= u < new_len implies {
                let st = #[trigger] traj(b, t, st0, u);
                &&& history@[u] as int == cell_of(st)
                &&& touched@[u] as int == state_index(st)
                &&& history@[u] < CELLS
                &&& touched@[u] < STATE_SPACE
                &&& visited_at[touched@[u] as int] == u
            } by {
                if u < len {
                    let _ = traj(b, t, st0, u);
                    assert(history@[u] == h0[u]);
                    assert(touched@[u] == t0[u]);
                    assert(t0[u] != idx);
                    assert(visited_at[t0[u] as int] == va0[t0[u] as int]);
                } else {
                    assert(u == len);
                    assert(cell_of(traj(b, t, st0, len)) == old_cell);
                    assert(state_index(traj(b, t, st0, len)) == idx);
                    assert(visited_at[idx as int] == len);
                }
            }
        }
    }
}

} // verus!
