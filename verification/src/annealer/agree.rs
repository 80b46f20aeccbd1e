//! The simulations agree: a robot of the answer, run by the judge on the
//! board's walls, patrols exactly the cells on the cycle that the search's
//! simulation finds for its automaton, and the enumeration's simulation
//! finds the same cover as the search's.

use vstd::prelude::*;
use crate::annealer::{N, STATE_SPACE, AutoTable, table_wf, entry_wf};
use crate::annealer::board::{Board, wall_ahead};
use crate::annealer::sim::{
    cells_between, SimState, state_valid, step, traj, is_first_repeat, first_repeat, cycle_cells, cycle_cover, cell_of,
    state_index, lemma_traj_valid, lemma_first_repeat_unique, lemma_state_index_injective,
    lemma_state_index, lemma_distinct_in_range_short,
};
use crate::annealer::output::{table_robot, action_letter};
use crate::judge::routes::{rstep, rtraj, is_loop_at, route_tail, cell_at, lemma_loop_unique};
use crate::judge::score::{grid_wall, grid_wf, covered_cells, covered_upto, cell_number};
use crate::enumerate::{Entry, wall_b, estep, etraj, is_first_repeat_e, ecells_between, ecycle_cover, ecell, lemma_first_repeat_e_unique};

verus! {

/// The byte grids `wv`, `wh` hold the walls of the board (1 for a wall).
pub open spec fn board_agrees(b: Board, wv: Seq<Seq<u8>>, wh: Seq<Seq<u8>>) -> bool {
    &&& wv.len() == N
    &&& grid_wf(wv, wh)
    &&& forall|i: int, j: int| 0 <= i < N && 0 <= j < N - 1 ==> (#[trigger] wv[i][j] == 1 <==> b.v[i][j])
    &&& forall|i: int, j: int| 0 <= i < N - 1 && 0 <= j < N ==> (#[trigger] wh[i][j] == 1 <==> b.h[i][j])
}

/// Moment `q` comes back to an earlier configuration.
spec fn repeats_at(b: Board, t: AutoTable, st0: SimState, q: int) -> bool {
    exists|p: int| 0 <= p < q && traj(b, t, st0, p) == #[trigger] traj(b, t, st0, q)
}

/// Within the first `STATE_SPACE + 1` moments some configuration repeats:
/// there are only `STATE_SPACE` configurations.
proof fn lemma_some_repeat(b: Board, t: AutoTable, st0: SimState)
    requires
        table_wf(t),
        state_valid(st0),
    ensures
        exists|q: int| 0 <= q <= STATE_SPACE && #[trigger] repeats_at(b, t, st0, q),
{
    if forall|q: int| 0 <= q <= STATE_SPACE ==> !#[trigger] repeats_at(b, t, st0, q) {
        let s = Seq::new(STATE_SPACE as nat, |u: int| state_index(traj(b, t, st0, u)));
        let x = state_index(traj(b, t, st0, STATE_SPACE as int));
        assert forall|u: int| 0 <= u <= STATE_SPACE implies state_valid(#[trigger] traj(b, t, st0, u)) by {
            lemma_traj_valid(b, t, st0, u);
        }
        assert forall|p: int, q: int| 0 <= p < q <= STATE_SPACE implies traj(b, t, st0, p) != traj(b, t, st0, q) by {
            assert(!repeats_at(b, t, st0, q));
        }
        assert forall|u: int| 0 <= u < s.len() implies 0 <= #[trigger] s[u] < STATE_SPACE by {
            lemma_state_index(traj(b, t, st0, u));
        }
        assert(s.no_duplicates()) by {
            assert forall|p: int, q: int| 0 <= p < s.len() && 0 <= q < s.len() && p != q implies s[p] != s[q] by {
                if s[p] == s[q] {
                    lemma_state_index_injective(traj(b, t, st0, p), traj(b, t, st0, q));
                    if p < q {
                        assert(traj(b, t, st0, p) != traj(b, t, st0, q));
                    } else {
                        assert(traj(b, t, st0, q) != traj(b, t, st0, p));
                    }
                }
            }
        }
        assert(!s.contains(x)) by {
            if s.contains(x) {
                let u = choose|u: int| 0 <= u < s.len() && s[u] == x;
                lemma_state_index_injective(traj(b, t, st0, u), traj(b, t, st0, STATE_SPACE as int));
                assert(traj(b, t, st0, u) != traj(b, t, st0, STATE_SPACE as int));
            }
        }
        lemma_state_index(traj(b, t, st0, STATE_SPACE as int));
        lemma_distinct_in_range_short(s, STATE_SPACE as int, x);
    }
}

/// A repeat at `q0` gives a first repeat at or before it.
proof fn lemma_first_of_repeats(b: Board, t: AutoTable, st0: SimState, q0: int)
    requires
        repeats_at(b, t, st0, q0),
    ensures
        exists|i: int, j: int| #[trigger] is_first_repeat(b, t, st0, i, j),
    decreases q0,
{
    if exists|q: int| 0 <= q < q0 && #[trigger] repeats_at(b, t, st0, q) {
        let q = choose|q: int| 0 <= q < q0 && #[trigger] repeats_at(b, t, st0, q);
        lemma_first_of_repeats(b, t, st0, q);
    } else {
        let p = choose|p: int| 0 <= p < q0 && traj(b, t, st0, p) == #[trigger] traj(b, t, st0, q0);
        assert forall|x: int, y: int| 0 <= x < y < q0 implies traj(b, t, st0, x) != traj(b, t, st0, y) by {
            if traj(b, t, st0, x) == traj(b, t, st0, y) {
                assert(repeats_at(b, t, st0, y));
            }
        }
        assert(is_first_repeat(b, t, st0, p, q0));
    }
}

/// Every run of an automaton reaches its cycle.
pub proof fn lemma_first_repeat_exists(b: Board, t: AutoTable, st0: SimState)
    requires
        table_wf(t),
        state_valid(st0),
    ensures
        is_first_repeat(b, t, st0, first_repeat(b, t, st0).0, first_repeat(b, t, st0).1),
{
    lemma_some_repeat(b, t, st0);
    let q = choose|q: int| 0 <= q <= STATE_SPACE && #[trigger] repeats_at(b, t, st0, q);
    lemma_first_of_repeats(b, t, st0, q);
    let (i, j) = choose|i: int, j: int| #[trigger] is_first_repeat(b, t, st0, i, j);
    lemma_first_repeat_unique(b, t, st0, i, j);
}

/// The judge's move of a robot of the answer is the search's move of its
/// automaton.
proof fn lemma_steps_agree(b: Board, wv: Seq<Seq<u8>>, wh: Seq<Seq<u8>>, t: AutoTable, d: int, st: SimState)
    requires
        board_agrees(b, wv, wh),
        table_wf(t),
        state_valid(st),
    ensures
        rstep(wv, wh, table_robot(t, d), st) == step(b, t, st),
{
    let r = table_robot(t, d);
    let e = t[st.3];
    assert(entry_wf(e));
    let (i, j, dd, s) = st;
    if dd == 0 && i > 0 {
        assert(wh[i - 1][j] == 1 <==> b.h[i - 1][j]);
    } else if dd == 1 && j < N - 1 {
        assert(wv[i][j] == 1 <==> b.v[i][j]);
    } else if dd == 2 && i < N - 1 {
        assert(wh[i][j] == 1 <==> b.h[i][j]);
    } else if dd == 3 && j > 0 {
        assert(wv[i][j - 1] == 1 <==> b.v[i][j - 1]);
    }
    assert(grid_wall(wv, wh, i, j, dd) == wall_ahead(b, i, j, dd));
    assert(r.4[s] == action_letter(e.0 as int));
    assert(r.5[s] == e.1);
    assert(r.6[s] == action_letter(e.2 as int));
    assert(r.7[s] == e.3);
}

/// The judge's trajectory of a robot of the answer is the search's
/// trajectory of its automaton from the centre cell.
proof fn lemma_trajs_agree(b: Board, wv: Seq<Seq<u8>>, wh: Seq<Seq<u8>>, t: AutoTable, d: int, k: int)
    requires
        board_agrees(b, wv, wh),
        table_wf(t),
        0 <= d < 4,
    ensures
        rtraj(wv, wh, table_robot(t, d), k) == traj(b, t, (9, 9, d, 0), k),
    decreases k,
{
    if k > 0 {
        lemma_trajs_agree(b, wv, wh, t, d, k - 1);
        lemma_traj_valid(b, t, (9, 9, d, 0), k - 1);
        lemma_steps_agree(b, wv, wh, t, d, traj(b, t, (9, 9, d, 0), k - 1));
    }
}

/// The cells the judge counts for a robot of the answer, run alone on the
/// board's walls, are the cells on the cycle that the search finds for its
/// automaton from the centre cell, and there are as many of them as the
/// search's cover.
pub proof fn lemma_search_cover_is_judged(b: Board, wv: Seq<Seq<u8>>, wh: Seq<Seq<u8>>, t: AutoTable, d: int)
    requires
        board_agrees(b, wv, wh),
        table_wf(t),
        0 <= d < 4,
    ensures
        covered_cells(wv, wh, seq![table_robot(t, d)]) == cycle_cells(b, t, (9, 9, d, 0)),
        covered_cells(wv, wh, seq![table_robot(t, d)]).len() == cycle_cover(b, t, (9, 9, d, 0)),
{
    let st0: SimState = (9, 9, d, 0);
    let r = table_robot(t, d);
    let rs = seq![r];
    assert(state_valid(st0));
    lemma_first_repeat_exists(b, t, st0);
    let (i, j) = first_repeat(b, t, st0);
    assert forall|k: int| #[trigger] rtraj(wv, wh, r, k) == traj(b, t, st0, k) by {
        lemma_trajs_agree(b, wv, wh, t, d, k);
    }
    assert(is_loop_at(wv, wh, r, i, j)) by {
        assert(rtraj(wv, wh, r, j) == traj(b, t, st0, j));
        assert(rtraj(wv, wh, r, i) == traj(b, t, st0, i));
        assert forall|p: int, q: int| 0 <= p < q < j implies rtraj(wv, wh, r, p) != rtraj(wv, wh, r, q) by {
            assert(traj(b, t, st0, p) != traj(b, t, st0, q));
        }
    }
    lemma_loop_unique(wv, wh, r, i, j);
    let tail = route_tail(wv, wh, r);
    assert(tail.len() == j - i + 1);
    let judged = covered_cells(wv, wh, rs);
    let searched = cycle_cells(b, t, st0);
    assert forall|c: int| judged.contains(c) implies searched.contains(c) by {
        let (p, y) = choose|p: int, y: int|
            0 <= p < rs.len() && 0 <= y < route_tail(wv, wh, rs[p]).len() && (p < rs.len() || (p == rs.len() && y < 0))
                && #[trigger] cell_number(wv.len() as int, route_tail(wv, wh, rs[p])[y]) == c;
        assert(p == 0 && rs[p] == r);
        let u = if y == j - i { i } else { i + y };
        lemma_traj_valid(b, t, st0, i + y);
        assert(tail[y] == cell_at(wv, wh, r, i + y));
        assert(traj(b, t, st0, i + y) == traj(b, t, st0, u));
        assert(cell_of(traj(b, t, st0, u)) == c);
        assert(i <= u < j);
    }
    assert forall|c: int| searched.contains(c) implies judged.contains(c) by {
        let u = choose|u: int| i <= u < j && cell_of(traj(b, t, st0, u)) == c;
        lemma_traj_valid(b, t, st0, u);
        let y = u - i;
        assert(tail[y] == cell_at(wv, wh, r, u));
        assert(cell_number(wv.len() as int, route_tail(wv, wh, rs[0])[y]) == c);
        assert(covered_upto(wv, wh, rs, rs.len() as int, 0).contains(c));
    }
    assert(judged =~= searched);
}

/// The enumeration's wall lines `v`, `h` hold the walls of the board.
pub open spec fn lines_agree(b: Board, v: Seq<Vec<bool>>, h: Seq<Vec<bool>>) -> bool {
    &&& forall|i: int, j: int| 0 <= i < N && 0 <= j < N - 1 ==> (#[trigger] v[i]@[j] == b.v[i][j])
    &&& forall|i: int, j: int| 0 <= i < N - 1 && 0 <= j < N ==> (#[trigger] h[i]@[j] == b.h[i][j])
}

/// The enumeration's trajectory of an automaton is the search's.
proof fn lemma_etraj_is_traj(b: Board, v: Seq<Vec<bool>>, h: Seq<Vec<bool>>, a: Seq<Entry>, t: AutoTable, st0: SimState, k: int)
    requires
        lines_agree(b, v, h),
        table_wf(t),
        a.len() == 6,
        forall|s: int| 0 <= s < 6 ==> #[trigger] a[s] == t[s],
        state_valid(st0),
    ensures
        etraj(v, h, a, st0, k) == traj(b, t, st0, k),
    decreases k,
{
    if k > 0 {
        lemma_etraj_is_traj(b, v, h, a, t, st0, k - 1);
        lemma_traj_valid(b, t, st0, k - 1);
        let st = traj(b, t, st0, k - 1);
        let (i, j, d, q) = st;
        assert(a[q] == t[q]);
        if d == 0 && i > 0 {
            assert(h[i - 1]@[j] == b.h[i - 1][j]);
        } else if d == 1 && j < N - 1 {
            assert(v[i]@[j] == b.v[i][j]);
        } else if d == 2 && i < N - 1 {
            assert(h[i]@[j] == b.h[i][j]);
        } else if d == 3 && j > 0 {
            assert(v[i]@[j - 1] == b.v[i][j - 1]);
        }
        assert(wall_b(v, h, i, j, d) == wall_ahead(b, i, j, d));
        assert(estep(v, h, a, st) == step(b, t, st));
    }
}

/// The two simulations agree: the enumeration's cover of an automaton with
/// six states is the search's cover of the same automaton on the same walls,
/// from any start.
pub proof fn lemma_enumerate_cover_is_search_cover(b: Board, v: Seq<Vec<bool>>, h: Seq<Vec<bool>>, a: Seq<Entry>, t: AutoTable, st0: SimState)
    requires
        lines_agree(b, v, h),
        table_wf(t),
        a.len() == 6,
        forall|s: int| 0 <= s < 6 ==> #[trigger] a[s] == t[s],
        state_valid(st0),
    ensures
        ecycle_cover(v, h, a, st0) == cycle_cover(b, t, st0),
{
    lemma_first_repeat_exists(b, t, st0);
    let (i, j) = first_repeat(b, t, st0);
    assert forall|k: int| #[trigger] etraj(v, h, a, st0, k) == traj(b, t, st0, k) by {
        lemma_etraj_is_traj(b, v, h, a, t, st0, k);
    }
    assert(is_first_repeat_e(v, h, a, st0, i, j)) by {
        assert(etraj(v, h, a, st0, j) == traj(b, t, st0, j));
        assert(etraj(v, h, a, st0, i) == traj(b, t, st0, i));
        assert forall|p: int, q: int| 0 <= p < q < j implies etraj(v, h, a, st0, p) != etraj(v, h, a, st0, q) by {
            assert(traj(b, t, st0, p) != traj(b, t, st0, q));
        }
    }
    lemma_first_repeat_e_unique(v, h, a, st0, i, j);
    lemma_first_repeat_unique(b, t, st0, i, j);
    let e = ecells_between(v, h, a, st0, i, j);
    let c = cells_between(b, t, st0, i, j);
    assert forall|x: int| e.contains(x) <==> c.contains(x) by {
        if e.contains(x) {
            let u = choose|u: int| i <= u < j && ecell(etraj(v, h, a, st0, u)) == x;
            assert(cell_of(traj(b, t, st0, u)) == x);
        }
        if c.contains(x) {
            let u = choose|u: int| i <= u < j && cell_of(traj(b, t, st0, u)) == x;
            assert(ecell(etraj(v, h, a, st0, u)) == x);
        }
    }
    assert(e =~= c);
}

} // verus!

