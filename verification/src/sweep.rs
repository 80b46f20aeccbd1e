//! Sweeping robots on a run: a two-state sweeper goes to the far end of its
//! run, turns back, returns and turns again, so its loop passes every cell of
//! the run; a one-state sweeper turns on the spot.

use vstd::prelude::*;
use crate::annealer::sim::{delta_row, delta_col};
use crate::cover::{
    sweeper_model, sweeper_models, run_sweeper, row_run, col_run, CoverPlan, cell_covered, plan_runs_ok, count_true,
    plan_robots,
};
use crate::judge::output::{RobotModel, dir_index};
use crate::judge::routes::{Config, rstep, rtraj, is_loop_at, cell_at, route_tail, lemma_loop_unique};
use crate::judge::score::{grid_wall, grid_wf, covered_cells, covered_upto, cell_number, details_match, ScoreDetails};

verus! {

/// Cell at position `x` of a line: of row `line` for a row run, of column
/// `line` for a column run.
pub open spec fn line_cell(rowwise: bool, line: int, x: int) -> (int, int) {
    if rowwise {
        (line, x)
    } else {
        (x, line)
    }
}

/// The direction a sweeper starts in: right along a row, down a column.
pub open spec fn forward_dir(rowwise: bool) -> int {
    if rowwise {
        1
    } else {
        2
    }
}

/// The run from `s` to `e` of a line, as the walls show it: no wall between
/// neighbouring cells of the run, a wall (or the border) past each end.
pub open spec fn run_walls(wv: Seq<Seq<u8>>, wh: Seq<Seq<u8>>, rowwise: bool, line: int, s: int, e: int) -> bool {
    let f = forward_dir(rowwise);
    let b = (f + 2) % 4;
    &&& s <= e
    &&& forall|x: int|
        s <= x < e ==> !#[trigger] grid_wall(wv, wh, line_cell(rowwise, line, x).0, line_cell(rowwise, line, x).1, f)
    &&& grid_wall(wv, wh, line_cell(rowwise, line, e).0, line_cell(rowwise, line, e).1, f)
    &&& forall|x: int|
        s < x <= e ==> !#[trigger] grid_wall(wv, wh, line_cell(rowwise, line, x).0, line_cell(rowwise, line, x).1, b)
    &&& grid_wall(wv, wh, line_cell(rowwise, line, s).0, line_cell(rowwise, line, s).1, b)
}

/// Where a two-state sweeper of the run `s..e` is after `k` moves: forward to
/// `e`, two turns, back to `s`, two turns.
pub open spec fn sweep_config(rowwise: bool, line: int, s: int, e: int, k: int) -> Config {
    let f = forward_dir(rowwise);
    let len = e - s;
    if k <= len {
        let c = line_cell(rowwise, line, s + k);
        (c.0, c.1, f, 0)
    } else if k == len + 1 {
        let c = line_cell(rowwise, line, e);
        (c.0, c.1, (f + 1) % 4, 1)
    } else if k <= 2 * len + 2 {
        let c = line_cell(rowwise, line, e - (k - len - 2));
        (c.0, c.1, (f + 2) % 4, 0)
    } else {
        let c = line_cell(rowwise, line, s);
        (c.0, c.1, (f + 3) % 4, 1)
    }
}

/// A step forward along the line moves to the next position.
proof fn lemma_line_steps(rowwise: bool, line: int, x: int)
    ensures
        line_cell(rowwise, line, x).0 + delta_row(forward_dir(rowwise)) == line_cell(rowwise, line, x + 1).0,
        line_cell(rowwise, line, x).1 + delta_col(forward_dir(rowwise)) == line_cell(rowwise, line, x + 1).1,
        line_cell(rowwise, line, x).0 + delta_row((forward_dir(rowwise) + 2) % 4) == line_cell(rowwise, line, x - 1).0,
        line_cell(rowwise, line, x).1 + delta_col((forward_dir(rowwise) + 2) % 4) == line_cell(rowwise, line, x - 1).1,
{
}

/// The moves of a two-state sweeper follow `sweep_config`.
proof fn lemma_sweep_traj(
    wv: Seq<Seq<u8>>,
    wh: Seq<Seq<u8>>,
    rowwise: bool,
    line: int,
    s: int,
    e: int,
    r: RobotModel,
    k: int,
)
    requires
        s < e,
        run_walls(wv, wh, rowwise, line, s, e),
        r == (2int, line_cell(rowwise, line, s).0, line_cell(rowwise, line, s).1, forward_dir(rowwise), seq!['F', 'R'], seq![0usize, 0usize], seq!['R', 'R'], seq![1usize, 0usize]),
        0 <= k <= 2 * (e - s) + 4,
    ensures
        rtraj(wv, wh, r, k) == if k == 2 * (e - s) + 4 {
            sweep_config(rowwise, line, s, e, 0)
        } else {
            sweep_config(rowwise, line, s, e, k)
        },
    decreases k,
{
    let f = forward_dir(rowwise);
    let len = e - s;
    if k > 0 {
        lemma_sweep_traj(wv, wh, rowwise, line, s, e, r, k - 1);
        let c = sweep_config(rowwise, line, s, e, k - 1);
        assert(rtraj(wv, wh, r, k) == rstep(wv, wh, r, c));
        if k - 1 < len {
            let x = s + (k - 1);
            lemma_line_steps(rowwise, line, x);
            assert(!grid_wall(wv, wh, line_cell(rowwise, line, x).0, line_cell(rowwise, line, x).1, f));
        } else if k - 1 == len {
            assert(grid_wall(wv, wh, line_cell(rowwise, line, e).0, line_cell(rowwise, line, e).1, f));
        } else if k - 1 == len + 1 {
        } else if k - 1 < 2 * len + 2 {
            let x = e - (k - 1 - len - 2);
            lemma_line_steps(rowwise, line, x);
            assert(s < x <= e);
            assert(!grid_wall(wv, wh, line_cell(rowwise, line, x).0, line_cell(rowwise, line, x).1, (f + 2) % 4));
        } else if k - 1 == 2 * len + 2 {
            assert(e - (k - 1 - len - 2) == s);
            assert(grid_wall(wv, wh, line_cell(rowwise, line, s).0, line_cell(rowwise, line, s).1, (f + 2) % 4));
        } else {
        }
    }
}

/// A two-state sweeper first repeats itself when it is back at its start,
/// after `2 (e - s) + 4` moves, and passes every cell of its run on the way.
pub proof fn lemma_sweep_loop(wv: Seq<Seq<u8>>, wh: Seq<Seq<u8>>, rowwise: bool, line: int, s: int, e: int, r: RobotModel)
    requires
        s < e,
        run_walls(wv, wh, rowwise, line, s, e),
        r == (2int, line_cell(rowwise, line, s).0, line_cell(rowwise, line, s).1, forward_dir(rowwise), seq!['F', 'R'], seq![0usize, 0usize], seq!['R', 'R'], seq![1usize, 0usize]),
    ensures
        is_loop_at(wv, wh, r, 0, 2 * (e - s) + 4),
        forall|x: int| s <= x <= e ==> rtraj(wv, wh, r, x - s) == #[trigger] sweep_config(rowwise, line, s, e, x - s),
{
    let len = e - s;
    let t = 2 * len + 4;
    let f = forward_dir(rowwise);
    lemma_sweep_traj(wv, wh, rowwise, line, s, e, r, 0);
    lemma_sweep_traj(wv, wh, rowwise, line, s, e, r, t);
    assert forall|p: int, q: int| 0 <= p < q < t implies rtraj(wv, wh, r, p) != rtraj(wv, wh, r, q) by {
        lemma_sweep_traj(wv, wh, rowwise, line, s, e, r, p);
        lemma_sweep_traj(wv, wh, rowwise, line, s, e, r, q);
        let cp = sweep_config(rowwise, line, s, e, p);
        let cq = sweep_config(rowwise, line, s, e, q);
        if p <= len && q <= len {
            assert(rowwise ==> cp.1 != cq.1);
            assert(!rowwise ==> cp.0 != cq.0);
        } else if len + 2 <= p && q <= 2 * len + 2 {
            assert(rowwise ==> cp.1 != cq.1);
            assert(!rowwise ==> cp.0 != cq.0);
        } else {
            assert(cp.2 != cq.2 || cp.3 != cq.3);
        }
    }
    assert forall|x: int| s <= x <= e implies rtraj(wv, wh, r, x - s) == #[trigger] sweep_config(
        rowwise,
        line,
        s,
        e,
        x - s,
    ) by {
        lemma_sweep_traj(wv, wh, rowwise, line, s, e, r, x - s);
    }
}

/// A one-state sweeper turns right on the spot and is back after four moves.
pub proof fn lemma_spin_loop(wv: Seq<Seq<u8>>, wh: Seq<Seq<u8>>, r: RobotModel)
    requires
        r.0 == 1,
        0 <= r.3 < 4,
        r.4 == seq!['R'],
        r.5 == seq![0usize],
        r.6 == seq!['R'],
        r.7 == seq![0usize],
    ensures
        is_loop_at(wv, wh, r, 0, 4),
        rtraj(wv, wh, r, 0) == (r.1, r.2, r.3, 0int),
{
    let d = r.3;
    assert(r.4[0] == 'R' && r.6[0] == 'R' && r.5[0] == 0 && r.7[0] == 0);
    assert(rtraj(wv, wh, r, 0) == (r.1, r.2, r.3, 0int));
    assert(rtraj(wv, wh, r, 1) == (r.1, r.2, (d + 1) % 4, 0int));
    assert(rtraj(wv, wh, r, 2) == (r.1, r.2, (d + 2) % 4, 0int));
    assert(rtraj(wv, wh, r, 3) == (r.1, r.2, (d + 3) % 4, 0int));
    assert(rtraj(wv, wh, r, 4) == (r.1, r.2, d, 0int));
}

/// The byte grids `wv`, `wh` hold the walls marked in `v`, `h` (1 for a wall)
/// on an `n` x `n` board.
pub open spec fn walls_agree(v: Seq<Vec<bool>>, h: Seq<Vec<bool>>, wv: Seq<Seq<u8>>, wh: Seq<Seq<u8>>, n: int) -> bool {
    &&& wv.len() == n
    &&& grid_wf(wv, wh)
    &&& forall|i: int, j: int| 0 <= i < n && 0 <= j < n - 1 ==> (#[trigger] wv[i][j] == 1 <==> v[i]@[j])
    &&& forall|i: int, j: int| 0 <= i < n - 1 && 0 <= j < n ==> (#[trigger] wh[i][j] == 1 <==> h[i]@[j])
}

/// A maximal run of a row is a run between walls for the byte grids.
proof fn lemma_row_run_walls(v: Seq<Vec<bool>>, h: Seq<Vec<bool>>, wv: Seq<Seq<u8>>, wh: Seq<Seq<u8>>, n: int, i: int, s: int, e: int)
    requires
        walls_agree(v, h, wv, wh, n),
        row_run(v, n, i, s, e),
    ensures
        run_walls(wv, wh, true, i, s, e),
{
    assert forall|x: int| s <= x < e implies !#[trigger] grid_wall(wv, wh, line_cell(true, i, x).0, line_cell(true, i, x).1, 1) by {
        assert(!v[i]@[x]);
        assert(wv[i][x] == 1 <==> v[i]@[x]);
    }
    if e < n - 1 {
        assert(wv[i][e] == 1 <==> v[i]@[e]);
    }
    assert forall|x: int| s < x <= e implies !#[trigger] grid_wall(wv, wh, line_cell(true, i, x).0, line_cell(true, i, x).1, 3int) by {
        assert(!v[i]@[x - 1]);
        assert(wv[i][x - 1] == 1 <==> v[i]@[x - 1]);
    }
    if s > 0 {
        assert(wv[i][s - 1] == 1 <==> v[i]@[s - 1]);
    }
}

/// A maximal run of a column is a run between walls for the byte grids.
proof fn lemma_col_run_walls(v: Seq<Vec<bool>>, h: Seq<Vec<bool>>, wv: Seq<Seq<u8>>, wh: Seq<Seq<u8>>, n: int, j: int, s: int, e: int)
    requires
        walls_agree(v, h, wv, wh, n),
        col_run(h, n, j, s, e),
    ensures
        run_walls(wv, wh, false, j, s, e),
{
    assert forall|x: int| s <= x < e implies !#[trigger] grid_wall(wv, wh, line_cell(false, j, x).0, line_cell(false, j, x).1, 2) by {
        assert(!h[x]@[j]);
        assert(wh[x][j] == 1 <==> h[x]@[j]);
    }
    if e < n - 1 {
        assert(wh[e][j] == 1 <==> h[e]@[j]);
    }
    assert forall|x: int| s < x <= e implies !#[trigger] grid_wall(wv, wh, line_cell(false, j, x).0, line_cell(false, j, x).1, 0int) by {
        assert(!h[x - 1]@[j]);
        assert(wh[x - 1][j] == 1 <==> h[x - 1]@[j]);
    }
    if s > 0 {
        assert(wh[s - 1][j] == 1 <==> h[s - 1]@[j]);
    }
}

/// The loop of the sweeper of a run passes every cell of the run.
proof fn lemma_sweeper_tail(wv: Seq<Seq<u8>>, wh: Seq<Seq<u8>>, rowwise: bool, seg: (usize, usize, usize), x: int)
    requires
        run_walls(wv, wh, rowwise, seg.0 as int, seg.1 as int, seg.2 as int),
        seg.1 <= x <= seg.2,
    ensures
        ({
            let w = run_sweeper(seg, rowwise);
            let r = sweeper_model(w.0, w.1, w.2, w.3);
            let c = line_cell(rowwise, seg.0 as int, x);
            exists|y: int|
                0 <= y < route_tail(wv, wh, r).len() && #[trigger] route_tail(wv, wh, r)[y] == (c.0 as usize, c.1 as usize)
        }),
{
    let line = seg.0 as int;
    let s = seg.1 as int;
    let e = seg.2 as int;
    let w = run_sweeper(seg, rowwise);
    let r = sweeper_model(w.0, w.1, w.2, w.3);
    let c = line_cell(rowwise, line, x);
    assert(dir_index('R') == 1 && dir_index('D') == 2);
    if s == e {
        lemma_spin_loop(wv, wh, r);
        lemma_loop_unique(wv, wh, r, 0, 4);
        let tail = route_tail(wv, wh, r);
        assert(tail[0] == cell_at(wv, wh, r, 0));
        assert(tail[0] == (c.0 as usize, c.1 as usize));
    } else {
        let t = 2 * (e - s) + 4;
        assert(r == (2int, line_cell(rowwise, line, s).0, line_cell(rowwise, line, s).1, forward_dir(rowwise), seq!['F', 'R'], seq![0usize, 0usize], seq!['R', 'R'], seq![1usize, 0usize]));
        lemma_sweep_loop(wv, wh, rowwise, line, s, e, r);
        lemma_loop_unique(wv, wh, r, 0, t);
        let tail = route_tail(wv, wh, r);
        assert(rtraj(wv, wh, r, x - s) == sweep_config(rowwise, line, s, e, x - s));
        assert(tail[x - s] == cell_at(wv, wh, r, x - s));
        assert(tail[x - s] == (c.0 as usize, c.1 as usize));
    }
}

/// Marks among the first `a` are at most those among the first `b`.
proof fn lemma_count_take_mono(sel: Seq<bool>, a: int, b: int)
    requires
        0 <= a <= b <= sel.len(),
    ensures
        count_true(sel.take(a)) <= count_true(sel.take(b)),
    decreases b - a,
{
    if a < b {
        lemma_count_take_mono(sel, a, b - 1);
        assert(sel.take(b).drop_last() =~= sel.take(b - 1));
    }
}

/// There is one robot per marked run among the first `k`.
proof fn lemma_models_len(segs: Seq<(usize, usize, usize)>, sel: Seq<bool>, k: int, rowwise: bool)
    requires
        0 <= k <= sel.len(),
    ensures
        sweeper_models(segs, sel, k, rowwise).len() == count_true(sel.take(k)),
    decreases k,
{
    if k == 0 {
        assert(sel.take(0) =~= Seq::<bool>::empty());
    } else {
        lemma_models_len(segs, sel, k - 1, rowwise);
        assert(sel.take(k).drop_last() =~= sel.take(k - 1));
    }
}

/// The robot of marked run `k` comes after the robots of the marked runs
/// before it.
proof fn lemma_models_index(segs: Seq<(usize, usize, usize)>, sel: Seq<bool>, kk: int, k: int, rowwise: bool)
    requires
        0 <= k < kk <= sel.len(),
        sel[k],
    ensures
        count_true(sel.take(k)) < sweeper_models(segs, sel, kk, rowwise).len(),
        sweeper_models(segs, sel, kk, rowwise)[count_true(sel.take(k)) as int] == ({
            let w = run_sweeper(segs[k], rowwise);
            sweeper_model(w.0, w.1, w.2, w.3)
        }),
    decreases kk,
{
    lemma_models_len(segs, sel, kk, rowwise);
    lemma_models_len(segs, sel, k, rowwise);
    assert(sel.take(k + 1).drop_last() =~= sel.take(k));
    lemma_count_take_mono(sel, k + 1, kk);
    if kk > k + 1 {
        lemma_models_index(segs, sel, kk - 1, k, rowwise);
        lemma_models_len(segs, sel, kk - 1, rowwise);
        lemma_count_take_mono(sel, k + 1, kk - 1);
    }
}

/// The sweepers of a plan that covers every cell patrol every cell: on byte
/// grids holding the board's walls, each cell lies on the loop of the robot
/// of a selected run through it.
pub proof fn lemma_cover_plan_patrols(
    n: int,
    v: Seq<Vec<bool>>,
    h: Seq<Vec<bool>>,
    plan: CoverPlan,
    wv: Seq<Seq<u8>>,
    wh: Seq<Seq<u8>>,
)
    requires
        n >= 1,
        walls_agree(v, h, wv, wh, n),
        plan_runs_ok(plan, v, h, n),
        forall|i: int, j: int| 0 <= i < n && 0 <= j < n ==> #[trigger] cell_covered(plan, i, j),
    ensures
        forall|i: int, j: int| 0 <= i < n && 0 <= j < n ==> #[trigger] covered_cells(wv, wh, plan_robots(plan)).contains(i * n + j),
{
    let rsegs = plan.row_segs@;
    let csegs = plan.col_segs@;
    let rsel = plan.row_selected@;
    let csel = plan.col_selected@;
    let p = rsegs.len() as int;
    let q = csegs.len() as int;
    let rm = sweeper_models(rsegs, rsel, p, true);
    let cm = sweeper_models(csegs, csel, q, false);
    let rs = plan_robots(plan);
    assert(rs == rm + cm);
    lemma_models_len(rsegs, rsel, p, true);
    assert forall|i: int, j: int| 0 <= i < n && 0 <= j < n implies #[trigger] covered_cells(wv, wh, plan_robots(plan)).contains(
        i * n + j,
    ) by {
        assert(cell_covered(plan, i, j));
        if exists|k: int| 0 <= k < rsegs.len() && #[trigger] rsel[k] && rsegs[k].0 == i && rsegs[k].1 <= j <= rsegs[k].2 {
            let k = choose|k: int| 0 <= k < rsegs.len() && #[trigger] rsel[k] && rsegs[k].0 == i && rsegs[k].1 <= j <= rsegs[k].2;
            let seg = rsegs[k];
            assert(row_run(v, n, seg.0 as int, seg.1 as int, seg.2 as int));
            lemma_row_run_walls(v, h, wv, wh, n, i, seg.1 as int, seg.2 as int);
            lemma_sweeper_tail(wv, wh, true, seg, j);
            lemma_models_index(rsegs, rsel, p, k, true);
            let w = run_sweeper(seg, true);
            let r = sweeper_model(w.0, w.1, w.2, w.3);
            let pi = count_true(rsel.take(k)) as int;
            assert(rs[pi] == r);
            let tail = route_tail(wv, wh, r);
            let y = choose|y: int| 0 <= y < tail.len() && #[trigger] tail[y] == (i as usize, j as usize);
            assert(cell_number(wv.len() as int, route_tail(wv, wh, rs[pi])[y]) == i * n + j);
            assert(covered_upto(wv, wh, rs, rs.len() as int, 0).contains(i * n + j));
        } else {
            let k = choose|k: int| 0 <= k < csegs.len() && #[trigger] csel[k] && csegs[k].0 == j && csegs[k].1 <= i <= csegs[k].2;
            let seg = csegs[k];
            assert(col_run(h, n, seg.0 as int, seg.1 as int, seg.2 as int));
            lemma_col_run_walls(v, h, wv, wh, n, j, seg.1 as int, seg.2 as int);
            lemma_sweeper_tail(wv, wh, false, seg, i);
            lemma_models_index(csegs, csel, q, k, false);
            let w = run_sweeper(seg, false);
            let r = sweeper_model(w.0, w.1, w.2, w.3);
            let pi = rm.len() + count_true(csel.take(k)) as int;
            assert(rs[pi] == r);
            let tail = route_tail(wv, wh, r);
            let y = choose|y: int| 0 <= y < tail.len() && #[trigger] tail[y] == (i as usize, j as usize);
            assert(cell_number(wv.len() as int, route_tail(wv, wh, rs[pi])[y]) == i * n + j);
            assert(covered_upto(wv, wh, rs, rs.len() as int, 0).contains(i * n + j));
        }
    }
}

/// The judge counts every cell for the sweepers of a plan that covers every
/// cell: whatever details it reports for them on the board's walls have all
/// `n * n` cells patrolled.
pub proof fn lemma_cover_plan_scores_every_cell(
    n: int,
    v: Seq<Vec<bool>>,
    h: Seq<Vec<bool>>,
    plan: CoverPlan,
    wv: Seq<Seq<u8>>,
    wh: Seq<Seq<u8>>,
    d: ScoreDetails,
)
    requires
        n >= 1,
        walls_agree(v, h, wv, wh, n),
        plan_runs_ok(plan, v, h, n),
        forall|i: int, j: int| 0 <= i < n && 0 <= j < n ==> #[trigger] cell_covered(plan, i, j),
        details_match(n, wv, wh, plan_robots(plan), d),
    ensures
        d.num == n * n,
{
    lemma_cover_plan_patrols(n, v, h, plan, wv, wh);
    assert forall|i: int, j: int| 0 <= i < n && 0 <= j < n implies #[trigger] d.checked@[i]@[j] by {
        assert(covered_cells(wv, wh, plan_robots(plan)).contains(i * n + j));
    }
}

} // verus!



