//! Scoring a plan: combined walls, the robots' routes, the patrolled cells
//! and the cost of the plan.

use vstd::prelude::*;
use crate::annealer::sim::{delta_row, delta_col};
use crate::text::{dec_nat, push_usize, push_str, string_of_chars};
use crate::judge::input::{InputData, input_wf, rows_view, lemma_byte_len_lower};
use crate::judge::output::{OutputData, RobotModel, robot_view, output_view, plan_wf};
use crate::judge::routes::{Route, route_head, route_tail, robot_route, cell_at, lemma_rtraj_valid};
use vstd::set_lib::{set_int_range, lemma_int_range, lemma_len_subset, lemma_subset_equality};

verus! {

/// The rows of a grid of bytes.
pub open spec fn grid_view(rows: Seq<Vec<u8>>) -> Seq<Seq<u8>> {
    rows.map_values(|r: Vec<u8>| r@)
}

/// Wall grids of an `n` x `n` board, `n = wv.len() >= 1`: `n` rows of `n - 1`
/// vertical walls and `n - 1` rows of `n` horizontal walls.
pub open spec fn grid_wf(wv: Seq<Seq<u8>>, wh: Seq<Seq<u8>>) -> bool {
    &&& wv.len() >= 1
    &&& wh.len() == wv.len() - 1
    &&& forall|i: int| 0 <= i < wv.len() ==> (#[trigger] wv[i]).len() == wv.len() - 1
    &&& forall|i: int| 0 <= i < wh.len() ==> (#[trigger] wh[i]).len() == wv.len()
}

/// Whether a robot at (i, j) facing `d` has a wall (or the border) ahead;
/// a wall is a byte 1.
pub open spec fn grid_wall(wv: Seq<Seq<u8>>, wh: Seq<Seq<u8>>, i: int, j: int, d: int) -> bool {
    let n = wv.len() as int;
    let i2 = i + delta_row(d);
    let j2 = j + delta_col(d);
    if !(0 <= i2 < n && 0 <= j2 < n) {
        true
    } else if i == i2 {
        wv[i][if j < j2 { j } else { j2 }] == 1
    } else {
        wh[if i < i2 { i } else { i2 }][j] == 1
    }
}

/// Whether the robot at (i, j) facing `d` (0 = U, 1 = R, 2 = D, 3 = L) has a
/// wall or the border of the board ahead.
pub fn has_wall(wall_v: &[Vec<u8>], wall_h: &[Vec<u8>], i: usize, j: usize, d: usize) -> (r: bool)
    requires
        grid_wf(grid_view(wall_v@), grid_view(wall_h@)),
        i < wall_v@.len(),
        j < wall_v@.len(),
        d < 4,
    ensures
        r == grid_wall(grid_view(wall_v@), grid_view(wall_h@), i as int, j as int, d as int),
{
    let ghost wv = grid_view(wall_v@);
    let ghost wh = grid_view(wall_h@);
    let n = wall_v.len();
    if d == 0 {
        if i == 0 {
            return true;
        }
        proof {
            assert(wh[i - 1] == wall_h@[i - 1]@);
        }
        wall_h[i - 1][j] == 1
    } else if d == 1 {
        if j + 1 >= n {
            return true;
        }
        proof {
            assert(wv[i as int] == wall_v@[i as int]@);
        }
        wall_v[i][j] == 1
    } else if d == 2 {
        if i + 1 >= n {
            return true;
        }
        proof {
            assert(wh[i as int] == wall_h@[i as int]@);
        }
        wall_h[i][j] == 1
    } else {
        if j == 0 {
            return true;
        }
        proof {
            assert(wv[i as int] == wall_v@[i as int]@);
        }
        wall_v[i][j - 1] == 1
    }
}

/// Every row has `width` characters.
pub open spec fn rows_have_width(rows: Seq<Seq<char>>, width: int) -> bool {
    forall|i: int| 0 <= i < rows.len() ==> (#[trigger] rows[i]).len() == width
}

/// The walls of two grids of characters together: 1 where either has `'1'`.
pub open spec fn combine_rows(a: Seq<Seq<char>>, b: Seq<Seq<char>>, rows: int, width: int) -> Seq<Seq<u8>> {
    Seq::new(
        rows as nat,
        |i: int| Seq::new(width as nat, |j: int| if a[i][j] == '1' || b[i][j] == '1' { 1u8 } else { 0u8 }),
    )
}

/// Walls of two grids together, row by row; `None` where a row of either has
/// another number of characters than `width` (the rows must be indexable).
fn combine_grid(a: &Vec<Vec<char>>, b: &Vec<Vec<char>>, width: usize) -> (r: Option<Vec<Vec<u8>>>)
    requires
        a@.len() == b@.len(),
    ensures
        r is Some <==> rows_have_width(rows_view(a@), width as int) && rows_have_width(rows_view(b@), width as int),
        r matches Some(g) ==> grid_view(g@) == combine_rows(rows_view(a@), rows_view(b@), a@.len() as int, width as int),
{
    let ghost ra = rows_view(a@);
    let ghost rb = rows_view(b@);
    let mut out: Vec<Vec<u8>> = Vec::new();
    let mut i: usize = 0;
    while i < a.len()
        invariant
            a@.len() == b@.len(),
            ra == rows_view(a@),
            rb == rows_view(b@),
            i <= a@.len(),
            out@.len() == i,
            forall|x: int| 0 <= x < i ==> (#[trigger] a@[x]).len() == width && b@[x].len() == width,
            forall|x: int| 0 <= x < i ==> (#[trigger] grid_view(out@)[x]) == combine_rows(ra, rb, a@.len() as int, width as int)[x],
        decreases a@.len() - i,
    {
        proof {
            assert(ra[i as int] == a@[i as int]@);
            assert(rb[i as int] == b@[i as int]@);
        }
        if a[i].len() != width || b[i].len() != width {
            proof {
                if a[i as int].len() != width {
                    assert(ra[i as int].len() != width);
                } else {
                    assert(rb[i as int].len() != width);
                }
            }
            return None;
        }
        let mut row: Vec<u8> = Vec::new();
        let mut j: usize = 0;
        while j < width
            invariant
                j <= width,
                a@.len() == b@.len(),
                i < a@.len(),
                a@[i as int].len() == width,
                b@[i as int].len() == width,
                row@.len() == j,
                ra == rows_view(a@),
                rb == rows_view(b@),
                forall|x: int| 0 <= x < i ==> (#[trigger] a@[x]).len() == width && b@[x].len() == width,
                forall|x: int| 0 <= x < i ==> (#[trigger] grid_view(out@)[x]) == combine_rows(ra, rb, a@.len() as int, width as int)[x],
                forall|y: int| 0 <= y < j ==> #[trigger] row@[y] == (if a@[i as int]@[y] == '1' || b@[i as int]@[y] == '1' { 1u8 } else { 0u8 }),
            decreases width - j,
        {
            if a[i][j] == '1' || b[i][j] == '1' {
                row.push(1u8);
            } else {
                row.push(0u8);
            }
            j += 1;
        }
        proof {
            assert(ra[i as int] == a@[i as int]@);
            assert(rb[i as int] == b@[i as int]@);
            assert(a@[i as int].len() == width && b@[i as int].len() == width);
        }
        let ghost prev = out@;
        out.push(row);
        proof {
            assert forall|x: int| 0 <= x < i + 1 implies (#[trigger] grid_view(out@)[x]) == combine_rows(ra, rb, a@.len() as int, width as int)[x] by {
                if x < i {
                    assert(out@[x] == prev[x]);
                    assert(grid_view(prev)[x] == prev[x]@);
                } else {
                    assert(grid_view(out@)[x] =~= combine_rows(ra, rb, a@.len() as int, width as int)[x]);
                }
            }
            assert forall|x: int| 0 <= x < i + 1 implies (#[trigger] a@[x]).len() == width && b@[x].len() == width by {
                if x < i {
                    assert(a@[x].len() == width);
                }
            }
        }
        i += 1;
    }
    proof {
        assert(grid_view(out@) =~= combine_rows(ra, rb, a@.len() as int, width as int));
        assert forall|x: int| 0 <= x < ra.len() implies (#[trigger] ra[x]).len() == width by {
            assert(ra[x] == a@[x]@);
        }
        assert forall|x: int| 0 <= x < rb.len() implies (#[trigger] rb[x]).len() == width by {
            assert(rb[x] == b@[x]@);
            assert(a@[x].len() == width);
        }
    }
    Some(out)
}

/// The walls of the instance and of the plan together (1 where either has a
/// wall), vertical then horizontal. `None` where a wall line has another
/// number of characters than bytes (it cannot be indexed by position).
pub fn combine_walls(input: &InputData, output: &OutputData) -> (r: Option<(Vec<Vec<u8>>, Vec<Vec<u8>>)>)
    requires
        input_wf(*input),
        plan_wf(input.n as int, *output),
    ensures
        r is Some <==> rows_have_width(rows_view(input.wall_v@), input.n - 1) && rows_have_width(
            rows_view(output.wall_v@),
            input.n - 1,
        ) && rows_have_width(rows_view(input.wall_h@), input.n as int) && rows_have_width(
            rows_view(output.wall_h@),
            input.n as int,
        ),
        r matches Some((v, h)) ==> {
            &&& grid_view(v@) == combine_rows(rows_view(input.wall_v@), rows_view(output.wall_v@), input.n as int, input.n - 1)
            &&& grid_view(h@) == combine_rows(rows_view(input.wall_h@), rows_view(output.wall_h@), input.n - 1, input.n as int)
            &&& grid_wf(grid_view(v@), grid_view(h@))
            &&& grid_view(v@).len() == input.n
        },
{
    let n = input.n;
    let v = match combine_grid(&input.wall_v, &output.wall_v, n - 1) {
        Some(g) => g,
        None => {
            return None;
        },
    };
    let h = match combine_grid(&input.wall_h, &output.wall_h, n) {
        Some(g) => g,
        None => {
            return None;
        },
    };
    Some((v, h))
}

/// Number of `'1'` characters of a line.
pub open spec fn count_ones(row: Seq<char>) -> int
    decreases row.len(),
{
    if row.len() == 0 {
        0
    } else {
        count_ones(row.drop_last()) + if row.last() == '1' { 1int } else { 0int }
    }
}

/// Number of `'1'` characters of all lines.
pub open spec fn ones_in_rows(rows: Seq<Seq<char>>) -> int
    decreases rows.len(),
{
    if rows.len() == 0 {
        0
    } else {
        ones_in_rows(rows.drop_last()) + count_ones(rows.last())
    }
}

/// Total number of automaton states of the robots.
pub open spec fn states_total(rs: Seq<RobotModel>) -> int
    decreases rs.len(),
{
    if rs.len() == 0 {
        0
    } else {
        states_total(rs.drop_last()) + rs.last().0
    }
}

/// The value fits in an `i64`.
pub open spec fn fits_i64(x: int) -> bool {
    i64::MIN <= x <= i64::MAX
}

/// The cost of a plan with `k` robots, `m` states in all and `w` added walls:
/// `AK (k - 1) + AM m + AW w`.
pub open spec fn plan_cost_value(ak: int, am: int, aw: int, k: int, m: int, w: int) -> int {
    ak * (k - 1) + am * m + aw * w
}

/// The cost of the plan with one robot and one state per cell:
/// `AK (n^2 - 1) + AM n^2`.
pub open spec fn base_cost_value(ak: int, am: int, n: int) -> int {
    ak * (n * n - 1) + am * (n * n)
}

/// Every intermediate value of the cost computation fits its machine type.
pub open spec fn costs_fit(ak: int, am: int, aw: int, n: int, k: int, m: int, w: int) -> bool {
    &&& m <= usize::MAX
    &&& n * n <= usize::MAX
    &&& w <= usize::MAX
    &&& fits_i64(k) && fits_i64(m) && fits_i64(w) && fits_i64(n * n)
    &&& fits_i64(ak * (k - 1)) && fits_i64(am * m) && fits_i64(aw * w)
    &&& fits_i64(ak * (k - 1) + am * m) && fits_i64(plan_cost_value(ak, am, aw, k, m, w))
    &&& fits_i64(ak * (n * n - 1)) && fits_i64(am * (n * n)) && fits_i64(base_cost_value(ak, am, n))
}

/// Counts of a plan and its cost next to the base cost.
pub struct PlanCost {
    /// Number of robots.
    pub k: usize,
    /// Total number of automaton states.
    pub m_total: usize,
    /// Number of added walls.
    pub w: usize,
    /// `AK (k - 1) + AM m_total + AW w`.
    pub v_cost: i64,
    /// `AK (n^2 - 1) + AM n^2`.
    pub base: i64,
}

/// The largest line length for which counting `count` lines cannot overflow.
pub open spec fn row_bound(count: int) -> int {
    (usize::MAX as int) / (count + 1)
}

/// Number of `'1'` characters of the lines.
fn count_walls(rows: &Vec<Vec<char>>) -> (r: usize)
    requires
        forall|i: int| 0 <= i < rows@.len() ==> (#[trigger] rows@[i])@.len() <= row_bound(rows@.len() as int),
    ensures
        r == ones_in_rows(rows_view(rows@)),
{
    let ghost rv = rows_view(rows@);
    let mut total: usize = 0;
    let mut i: usize = 0;
    while i < rows.len()
        invariant
            rv == rows_view(rows@),
            i <= rows@.len(),
            forall|x: int| 0 <= x < rows@.len() ==> (#[trigger] rows@[x])@.len() <= row_bound(rows@.len() as int),
            total == ones_in_rows(rv.take(i as int)),
            total <= i * (row_bound(rows@.len() as int)),
        decreases rows@.len() - i,
    {
        let ghost row = rows@[i as int]@;
        let mut c: usize = 0;
        let mut j: usize = 0;
        while j < rows[i].len()
            invariant
                i < rows@.len(),
                row == rows@[i as int]@,
                j <= row.len(),
                c == count_ones(row.take(j as int)),
                c <= j,
            decreases row.len() - j,
        {
            proof {
                assert(row.take(j + 1).drop_last() =~= row.take(j as int));
            }
            if rows[i][j] == '1' {
                c += 1;
            }
            j += 1;
        }
        proof {
            assert(row.take(row.len() as int) =~= row);
            assert(rv.take(i + 1).drop_last() =~= rv.take(i as int));
            assert(rv[i as int] == row);
            let q = row_bound(rows@.len() as int);
            assert(c <= q);
            assert((i + 1) * q <= rows@.len() * q) by (nonlinear_arith)
                requires i + 1 <= rows@.len(), q >= 0;
            assert(rows@.len() * q <= usize::MAX) by (nonlinear_arith)
                requires q == row_bound(rows@.len() as int), rows@.len() >= 0;
            assert(i * q + q == (i + 1) * q) by (nonlinear_arith);
        }
        total = total + c;
        i += 1;
    }
    proof {
        assert(rv.take(rows@.len() as int) =~= rv);
    }
    total
}

/// The counts and costs of a plan: the number of robots `k`, the total number
/// of states, the number of added walls `w`, the cost
/// `AK (k - 1) + AM m_total + AW w` and the base cost `AK (n^2 - 1) + AM n^2`.
/// `None` where one of these overflows its machine type.
pub fn plan_cost(input: &InputData, output: &OutputData) -> (r: Option<PlanCost>)
    requires
        input_wf(*input),
        plan_wf(input.n as int, *output),
    ensures
        ({
            let k = output.robots@.len() as int;
            let m = states_total(output_view(*output).0);
            let w = ones_in_rows(rows_view(output.wall_v@)) + ones_in_rows(rows_view(output.wall_h@));
            let n = input.n as int;
            &&& r is Some <==> costs_fit(input.ak as int, input.am as int, input.aw as int, n, k, m, w)
            &&& r matches Some(c) ==> {
                &&& c.k == k
                &&& c.m_total == m
                &&& c.w == w
                &&& c.v_cost == plan_cost_value(input.ak as int, input.am as int, input.aw as int, k, m, w)
                &&& c.base == base_cost_value(input.ak as int, input.am as int, n)
            }
        }),
{
    let n = input.n;
    let ghost rs = output_view(*output).0;
    let k = output.robots.len();
    // total number of states, checking that it fits
    let mut m_total: usize = 0;
    let mut m_over = false;
    let mut q: usize = 0;
    while q < k
        invariant
            k == output.robots@.len(),
            rs == output_view(*output).0,
            q <= k,
            !m_over ==> m_total == states_total(rs.take(q as int)),
            m_over ==> states_total(rs.take(q as int)) > usize::MAX,
            forall|x: int| 0 <= x < rs.len() ==> (#[trigger] rs[x]).0 >= 1,
        decreases k - q,
    {
        proof {
            assert(rs.take(q + 1).drop_last() =~= rs.take(q as int));
            assert(rs[q as int] == robot_view(output.robots@[q as int]));
        }
        let m = output.robots[q].m;
        if !m_over {
            match m_total.checked_add(m) {
                Some(s) => {
                    m_total = s;
                },
                None => {
                    m_over = true;
                },
            }
        }
        q += 1;
    }
    proof {
        assert(rs.take(k as int) =~= rs);
    }
    if m_over {
        return None;
    }
    let nn = match n.checked_mul(n) {
        Some(x) => x,
        None => {
            return None;
        },
    };
    proof {
        let ni = n as int;
        assert((usize::MAX as int) / (ni + 1) >= ni - 1) by (nonlinear_arith)
            requires ni * ni <= usize::MAX, ni >= 1;
        assert((usize::MAX as int) / (ni - 1 + 1) >= ni) by (nonlinear_arith)
            requires ni * ni <= usize::MAX, ni >= 1;
        assert forall|i: int| 0 <= i < output.wall_v@.len() implies (#[trigger] output.wall_v@[i])@.len() <= row_bound(output.wall_v@.len() as int) by {
            lemma_byte_len_lower(output.wall_v@[i]@);
        }
        assert forall|i: int| 0 <= i < output.wall_h@.len() implies (#[trigger] output.wall_h@[i])@.len() <= row_bound(output.wall_h@.len() as int) by {
            lemma_byte_len_lower(output.wall_h@[i]@);
        }
    }
    let wv = count_walls(&output.wall_v);
    let wh = count_walls(&output.wall_h);
    let w = match wv.checked_add(wh) {
        Some(s) => s,
        None => {
            return None;
        },
    };
    let lim = i64::MAX as u64;
    if k as u64 > lim || m_total as u64 > lim || w as u64 > lim || nn as u64 > lim {
        return None;
    }
    let ak = input.ak;
    let am = input.am;
    let aw = input.aw;
    let kk = k as i64;
    let t1 = match ak.checked_mul(kk - 1) {
        Some(x) => x,
        None => {
            return None;
        },
    };
    let t2 = match am.checked_mul(m_total as i64) {
        Some(x) => x,
        None => {
            return None;
        },
    };
    let t3 = match aw.checked_mul(w as i64) {
        Some(x) => x,
        None => {
            return None;
        },
    };
    let s1 = match t1.checked_add(t2) {
        Some(x) => x,
        None => {
            return None;
        },
    };
    let v_cost = match s1.checked_add(t3) {
        Some(x) => x,
        None => {
            return None;
        },
    };
    let b1 = match ak.checked_mul(nn as i64 - 1) {
        Some(x) => x,
        None => {
            return None;
        },
    };
    let b2 = match am.checked_mul(nn as i64) {
        Some(x) => x,
        None => {
            return None;
        },
    };
    let base = match b1.checked_add(b2) {
        Some(x) => x,
        None => {
            return None;
        },
    };
    Some(PlanCost { k, m_total, w, v_cost, base })
}

/// Number of the cell (i, j) on a board `n` cells wide.
pub open spec fn cell_number(n: int, p: (usize, usize)) -> int {
    p.0 * n + p.1
}

/// Cells (by number) on the loops of the robots before robot `q`, and on the
/// first `x` entries of the loop of robot `q`.
pub open spec fn covered_upto(wv: Seq<Seq<u8>>, wh: Seq<Seq<u8>>, rs: Seq<RobotModel>, q: int, x: int) -> Set<int> {
    Set::new(
        |c: int|
            exists|p: int, y: int|
                0 <= p < rs.len() && 0 <= y < route_tail(wv, wh, rs[p]).len() && (p < q || (p == q && y < x))
                    && #[trigger] cell_number(wv.len() as int, route_tail(wv, wh, rs[p])[y]) == c,
    )
}

/// Cells (by number) that some robot patrols forever: those on the loop of
/// its route.
pub open spec fn covered_cells(wv: Seq<Seq<u8>>, wh: Seq<Seq<u8>>, rs: Seq<RobotModel>) -> Set<int> {
    covered_upto(wv, wh, rs, rs.len() as int, 0)
}

/// The robot starts on the `n` x `n` board and its table of configurations,
/// `n * n * 4 * m` entries, can be indexed.
pub open spec fn robot_runnable(n: int, r: RobotModel) -> bool {
    &&& r.1 < n
    &&& r.2 < n
    &&& n * n * 4 * r.0 <= usize::MAX
}

/// No cell is covered before any entry is looked at.
pub proof fn lemma_covered_start(wv: Seq<Seq<u8>>, wh: Seq<Seq<u8>>, rs: Seq<RobotModel>)
    ensures
        covered_upto(wv, wh, rs, 0, 0) =~= Set::<int>::empty(),
{
}

/// One more entry of the loop of robot `q` covers its cell.
pub proof fn lemma_covered_step(wv: Seq<Seq<u8>>, wh: Seq<Seq<u8>>, rs: Seq<RobotModel>, q: int, x: int)
    requires
        0 <= q < rs.len(),
        0 <= x < route_tail(wv, wh, rs[q]).len(),
    ensures
        covered_upto(wv, wh, rs, q, x + 1) =~= covered_upto(wv, wh, rs, q, x).insert(
            cell_number(wv.len() as int, route_tail(wv, wh, rs[q])[x]),
        ),
{
    let n = wv.len() as int;
    let a = covered_upto(wv, wh, rs, q, x + 1);
    let b = covered_upto(wv, wh, rs, q, x).insert(cell_number(n, route_tail(wv, wh, rs[q])[x]));
    assert forall|c: int| a.contains(c) implies b.contains(c) by {
        let (p, y) = choose|p: int, y: int|
            0 <= p < rs.len() && 0 <= y < route_tail(wv, wh, rs[p]).len() && (p < q || (p == q && y < x + 1))
                && #[trigger] cell_number(n, route_tail(wv, wh, rs[p])[y]) == c;
        if !(p == q && y == x) {
            assert(covered_upto(wv, wh, rs, q, x).contains(c));
        }
    }
    assert forall|c: int| b.contains(c) implies a.contains(c) by {
        if c == cell_number(n, route_tail(wv, wh, rs[q])[x]) {
            assert(cell_number(n, route_tail(wv, wh, rs[q])[x]) == c);
        } else {
            let (p, y) = choose|p: int, y: int|
                0 <= p < rs.len() && 0 <= y < route_tail(wv, wh, rs[p]).len() && (p < q || (p == q && y < x))
                    && #[trigger] cell_number(n, route_tail(wv, wh, rs[p])[y]) == c;
            assert(cell_number(n, route_tail(wv, wh, rs[p])[y]) == c);
        }
    }
}

/// Having looked at the whole loop of robot `q` is starting with robot `q + 1`.
pub proof fn lemma_covered_next(wv: Seq<Seq<u8>>, wh: Seq<Seq<u8>>, rs: Seq<RobotModel>, q: int)
    requires
        0 <= q < rs.len(),
    ensures
        covered_upto(wv, wh, rs, q, route_tail(wv, wh, rs[q]).len() as int) =~= covered_upto(wv, wh, rs, q + 1, 0),
{
    let n = wv.len() as int;
    let a = covered_upto(wv, wh, rs, q, route_tail(wv, wh, rs[q]).len() as int);
    let b = covered_upto(wv, wh, rs, q + 1, 0);
    assert forall|c: int| a.contains(c) implies b.contains(c) by {
        let (p, y) = choose|p: int, y: int|
            0 <= p < rs.len() && 0 <= y < route_tail(wv, wh, rs[p]).len() && (p < q || (p == q && y < route_tail(
                wv,
                wh,
                rs[q],
            ).len()))
                && #[trigger] cell_number(n, route_tail(wv, wh, rs[p])[y]) == c;
        assert(cell_number(n, route_tail(wv, wh, rs[p])[y]) == c);
    }
    assert forall|c: int| b.contains(c) implies a.contains(c) by {
        let (p, y) = choose|p: int, y: int|
            0 <= p < rs.len() && 0 <= y < route_tail(wv, wh, rs[p]).len() && (p < q + 1 || (p == q + 1 && y < 0))
                && #[trigger] cell_number(n, route_tail(wv, wh, rs[p])[y]) == c;
        assert(cell_number(n, route_tail(wv, wh, rs[p])[y]) == c);
    }
}

/// Some robot cannot be run.
pub open spec fn some_robot_blocked(n: int, rs: Seq<RobotModel>) -> bool {
    exists|q: int| 0 <= q < rs.len() && !robot_runnable(n, #[trigger] rs[q])
}

/// `d` holds the routes of the robots `rs` on the walls `wv`, `wh` of an
/// `n` x `n` board, marks exactly the cells on their loops, and counts them.
pub open spec fn details_match(n: int, wv: Seq<Seq<u8>>, wh: Seq<Seq<u8>>, rs: Seq<RobotModel>, d: ScoreDetails) -> bool {
    &&& d.routes@.len() == rs.len()
    &&& forall|q: int|
        0 <= q < rs.len() ==> (#[trigger] d.routes@[q]).head@ == route_head(wv, wh, rs[q]) && d.routes@[q].tail@
            == route_tail(wv, wh, rs[q])
    &&& d.checked@.len() == n
    &&& forall|i: int| 0 <= i < n ==> (#[trigger] d.checked@[i])@.len() == n
    &&& forall|i: int, j: int|
        0 <= i < n && 0 <= j < n ==> (#[trigger] d.checked@[i]@[j] <==> covered_cells(wv, wh, rs).contains(i * n + j))
    &&& d.num == covered_cells(wv, wh, rs).len()
    &&& (d.num == n * n <==> forall|i: int, j: int| 0 <= i < n && 0 <= j < n ==> #[trigger] d.checked@[i]@[j])
}

/// The routes of a plan and the cells they patrol: `checked[i][j]` tells
/// whether some robot passes (i, j) on its loop, `num` how many cells do.
pub struct ScoreDetails {
    pub num: usize,
    pub checked: Vec<Vec<bool>>,
    pub routes: Vec<Route>,
}

/// Runs every robot of the plan on the combined walls until its
/// configuration repeats, and marks the cells on the loops of the routes.
/// `None` where a robot starts off the board or has too many configurations
/// to be tabled.
pub fn compute_score_details(
    input: &InputData,
    out: &OutputData,
    wall_v_combined: &[Vec<u8>],
    wall_h_combined: &[Vec<u8>],
) -> (r: Option<ScoreDetails>)
    requires
        plan_wf(input.n as int, *out),
        grid_wf(grid_view(wall_v_combined@), grid_view(wall_h_combined@)),
        wall_v_combined@.len() == input.n,
        input.n * input.n <= usize::MAX,
    ensures
        r is None <==> some_robot_blocked(input.n as int, output_view(*out).0),
        r matches Some(d) ==> details_match(
            input.n as int,
            grid_view(wall_v_combined@),
            grid_view(wall_h_combined@),
            output_view(*out).0,
            d,
        ),
{
    let n = input.n;
    let ghost wv = grid_view(wall_v_combined@);
    let ghost wh = grid_view(wall_h_combined@);
    let ghost rs = output_view(*out).0;
    let k = out.robots.len();
    let mut totals: Vec<usize> = Vec::new();
    let mut q: usize = 0;
    while q < k
        invariant
            k == out.robots@.len(),
            n == input.n,
            rs == output_view(*out).0,
            rs.len() == k,
            q <= k,
            totals@.len() == q,
            forall|p: int| 0 <= p < q ==> robot_runnable(n as int, #[trigger] rs[p]) && totals@[p] == n * n * 4 * rs[p].0,
            plan_wf(n as int, *out),
        decreases k - q,
    {
        proof {
            assert(rs[q as int] == robot_view(out.robots@[q as int]));
            assert(crate::judge::output::robot_wf(robot_view(out.robots@[q as int])));
        }
        let m = out.robots[q].m;
        if out.robots[q].i >= n || out.robots[q].j >= n {
            proof {
                assert(!robot_runnable(n as int, rs[q as int]));
                assert(some_robot_blocked(n as int, rs));
                assert(some_robot_blocked(input.n as int, output_view(*out).0));
            }
            return None;
        }
        let t = match n.checked_mul(n) {
            Some(a) => match a.checked_mul(4) {
                Some(b) => b.checked_mul(m),
                None => None,
            },
            None => None,
        };
        match t {
            Some(t) => {
                totals.push(t);
            },
            None => {
                proof {
                    let ni = n as int;
                    let mi = m as int;
                    assert(ni * ni * 4 * mi >= ni * ni * 4 && ni * ni * 4 >= ni * ni) by (nonlinear_arith)
                        requires mi >= 1, ni >= 0;
                    assert(!robot_runnable(n as int, rs[q as int]));
                    assert(exists|p: int| 0 <= p < rs.len() && !robot_runnable(n as int, #[trigger] rs[p]));
                }
                return None;
            },
        }
        q += 1;
    }
    let mut routes: Vec<Route> = Vec::new();
    q = 0;
    while q < k
        invariant
            k == out.robots@.len(),
            n == input.n,
            rs == output_view(*out).0,
            rs.len() == k,
            q <= k,
            totals@.len() == k,
            forall|p: int| 0 <= p < k ==> robot_runnable(n as int, #[trigger] rs[p]) && totals@[p] == n * n * 4 * rs[p].0,
            plan_wf(n as int, *out),
            wv == grid_view(wall_v_combined@),
            wh == grid_view(wall_h_combined@),
            grid_wf(wv, wh),
            wall_v_combined@.len() == n,
            routes@.len() == q,
            forall|p: int|
                0 <= p < q ==> (#[trigger] routes@[p]).head@ == route_head(wv, wh, rs[p]) && routes@[p].tail@
                    == route_tail(wv, wh, rs[p]),
        decreases k - q,
    {
        proof {
            assert(rs[q as int] == robot_view(out.robots@[q as int]));
            assert(crate::judge::output::robot_wf(robot_view(out.robots@[q as int])));
            assert(robot_runnable(n as int, rs[q as int]));
        }
        let rt = robot_route(wall_v_combined, wall_h_combined, &out.robots[q], totals[q]);
        routes.push(rt);
        q += 1;
    }
    let nn = n * n;
    let mut mark: Vec<bool> = Vec::new();
    let mut z: usize = 0;
    while z < nn
        invariant
            z <= nn,
            mark@.len() == z,
            forall|c: int| 0 <= c < z ==> !#[trigger] mark@[c],
        decreases nn - z,
    {
        mark.push(false);
        z += 1;
    }
    let mut num: usize = 0;
    let ghost mut seen: Set<int> = Set::empty();
    proof {
        lemma_covered_start(wv, wh, rs);
        lemma_int_range(0, nn as int);
    }
    q = 0;
    while q < k
        invariant
            k == out.robots@.len(),
            n == input.n,
            rs == output_view(*out).0,
            rs.len() == k,
            q <= k,
            forall|p: int| 0 <= p < k ==> robot_runnable(n as int, #[trigger] rs[p]),
            plan_wf(n as int, *out),
            wv == grid_view(wall_v_combined@),
            wh == grid_view(wall_h_combined@),
            grid_wf(wv, wh),
            wall_v_combined@.len() == n,
            routes@.len() == k,
            forall|p: int|
                0 <= p < k ==> (#[trigger] routes@[p]).head@ == route_head(wv, wh, rs[p]) && routes@[p].tail@
                    == route_tail(wv, wh, rs[p]),
            nn == n * n,
            mark@.len() == nn,
            seen.finite(),
            set_int_range(0, nn as int).finite(),
            set_int_range(0, nn as int).len() == nn,
            seen.subset_of(set_int_range(0, nn as int)),
            num == seen.len(),
            seen == covered_upto(wv, wh, rs, q as int, 0),
            forall|c: int| 0 <= c < nn ==> (#[trigger] mark@[c] <==> seen.contains(c)),
        decreases k - q,
    {
        let mut x: usize = 0;
        let tlen = routes[q].tail.len();
        let ghost rq = rs[q as int];
        proof {
            assert(rq == robot_view(out.robots@[q as int]));
            assert(crate::judge::output::robot_wf(rq));
            assert(robot_runnable(n as int, rq));
        }
        while x < tlen
            invariant
                q < k,
                k == out.robots@.len(),
                rs == output_view(*out).0,
                rs.len() == k,
                rq == rs[q as int],
                crate::judge::output::robot_wf(rq),
                robot_runnable(n as int, rq),
                wv == grid_view(wall_v_combined@),
                wh == grid_view(wall_h_combined@),
                grid_wf(wv, wh),
                wall_v_combined@.len() == n,
                routes@.len() == k,
                routes@[q as int].tail@ == route_tail(wv, wh, rq),
                tlen == routes@[q as int].tail@.len(),
                x <= tlen,
                nn == n * n,
                mark@.len() == nn,
                seen.finite(),
                set_int_range(0, nn as int).finite(),
                set_int_range(0, nn as int).len() == nn,
                seen.subset_of(set_int_range(0, nn as int)),
                num == seen.len(),
                seen == covered_upto(wv, wh, rs, q as int, x as int),
                forall|c: int| 0 <= c < nn ==> (#[trigger] mark@[c] <==> seen.contains(c)),
            decreases tlen - x,
        {
            let (i, j) = routes[q].tail[x];
            proof {
                let (s, t) = crate::judge::routes::loop_of(wv, wh, rq);
                assert(route_tail(wv, wh, rq)[x as int] == cell_at(wv, wh, rq, s + x));
                lemma_rtraj_valid(wv, wh, rq, s + x);
                assert(i * n + j < n * n) by (nonlinear_arith)
                    requires i < n, j < n;
                lemma_covered_step(wv, wh, rs, q as int, x as int);
            }
            let c = i * n + j;
            if !mark[c] {
                proof {
                    assert(!seen.contains(c as int));
                    assert(seen.insert(c as int).subset_of(set_int_range(0, nn as int)));
                    lemma_len_subset(seen.insert(c as int), set_int_range(0, nn as int));
                }
                mark.set(c, true);
                num = num + 1;
                proof {
                    seen = seen.insert(c as int);
                }
            }
            x += 1;
        }
        proof {
            lemma_covered_next(wv, wh, rs, q as int);
        }
        q += 1;
    }
    let mut checked: Vec<Vec<bool>> = Vec::new();
    let mut i: usize = 0;
    while i < n
        invariant
            i <= n,
            nn == n * n,
            mark@.len() == nn,
            n == input.n,
            k == out.robots@.len(),
            rs == output_view(*out).0,
            rs.len() == k,
            forall|p: int| 0 <= p < k ==> robot_runnable(n as int, #[trigger] rs[p]),
            wv == grid_view(wall_v_combined@),
            wh == grid_view(wall_h_combined@),
            routes@.len() == k,
            forall|p: int|
                0 <= p < k ==> (#[trigger] routes@[p]).head@ == route_head(wv, wh, rs[p]) && routes@[p].tail@
                    == route_tail(wv, wh, rs[p]),
            seen.finite(),
            set_int_range(0, nn as int).finite(),
            set_int_range(0, nn as int).len() == nn,
            seen.subset_of(set_int_range(0, nn as int)),
            num == seen.len(),
            seen == covered_upto(wv, wh, rs, k as int, 0),
            forall|c: int| 0 <= c < nn ==> (#[trigger] mark@[c] <==> seen.contains(c)),
            checked@.len() == i,
            forall|a: int| 0 <= a < i ==> (#[trigger] checked@[a])@.len() == n,
            forall|a: int, b: int| 0 <= a < i && 0 <= b < n ==> #[trigger] checked@[a]@[b] == mark@[a * n + b],
        decreases n - i,
    {
        let mut row: Vec<bool> = Vec::new();
        let mut j: usize = 0;
        while j < n
            invariant
                i < n,
                j <= n,
                nn == n * n,
                mark@.len() == nn,
                row@.len() == j,
                forall|b: int| 0 <= b < j ==> #[trigger] row@[b] == mark@[i * n + b],
            decreases n - j,
        {
            assert(i * n + j < n * n) by (nonlinear_arith)
                requires i < n, j < n;
            row.push(mark[i * n + j]);
            j += 1;
        }
        let ghost prev = checked@;
        checked.push(row);
        proof {
            assert forall|a: int, b: int| 0 <= a < i + 1 && 0 <= b < n implies #[trigger] checked@[a]@[b] == mark@[a * n + b] by {
                if a < i {
                    assert(checked@[a] == prev[a]);
                }
            }
        }
        i += 1;
    }
    proof {
        let ni = n as int;
        assert(seen == covered_cells(wv, wh, rs));
        assert(!exists|p: int| 0 <= p < rs.len() && !robot_runnable(n as int, #[trigger] rs[p]));
        assert(routes@.len() == rs.len());
        assert(checked@.len() == ni);
        assert(num == covered_cells(wv, wh, rs).len());
        assert forall|a: int, b: int| 0 <= a < ni && 0 <= b < ni implies (#[trigger] checked@[a]@[b] <==> covered_cells(wv, wh, rs).contains(a * ni + b)) by {
            assert(0 <= a * ni + b < ni * ni) by (nonlinear_arith)
                requires 0 <= a < ni, 0 <= b < ni;
            assert(mark@[a * ni + b] <==> seen.contains(a * ni + b));
        }
        if num == nn {
            lemma_subset_equality(seen, set_int_range(0, nn as int));
            assert forall|a: int, b: int| 0 <= a < ni && 0 <= b < ni implies #[trigger] checked@[a]@[b] by {
                assert(0 <= a * ni + b < ni * ni) by (nonlinear_arith)
                    requires 0 <= a < ni, 0 <= b < ni;
                assert(set_int_range(0, nn as int).contains(a * ni + b));
            }
        }
        if forall|a: int, b: int| 0 <= a < ni && 0 <= b < ni ==> #[trigger] checked@[a]@[b] {
            assert(seen =~= set_int_range(0, nn as int)) by {
                assert forall|c: int| 0 <= c < nn implies seen.contains(c) by {
                    let a = c / ni;
                    let b = c % ni;
                    assert(c == a * ni + b && 0 <= a < ni && 0 <= b < ni) by (nonlinear_arith)
                        requires 0 <= c < ni * ni, ni >= 1, a == c / ni, b == c % ni;
                    assert(checked@[a]@[b]);
                }
            }
            assert(num == nn);
        }
        let d = ScoreDetails { num, checked, routes };
        assert(d.routes@.len() == rs.len());
        assert(forall|q: int|
            0 <= q < rs.len() ==> (#[trigger] d.routes@[q]).head@ == route_head(wv, wh, rs[q]) && d.routes@[q].tail@
                == route_tail(wv, wh, rs[q]));
        assert(d.checked@.len() == ni);
        assert(forall|i: int| 0 <= i < ni ==> (#[trigger] d.checked@[i])@.len() == ni);
        assert(forall|i: int, j: int|
            0 <= i < ni && 0 <= j < ni ==> (#[trigger] d.checked@[i]@[j] <==> covered_cells(wv, wh, rs).contains(i * ni + j)));
        assert(d.num == covered_cells(wv, wh, rs).len());
        assert(d.num == ni * ni <==> forall|i: int, j: int| 0 <= i < ni && 0 <= j < ni ==> #[trigger] d.checked@[i]@[j]);
    }
    Some(ScoreDetails { num, checked, routes })
}

/// The judge's verdict on how many cells are patrolled: `None` when all
/// `n * n` cells are, and otherwise the error
/// "Not all cells are patrolled: num/n²", with which the plan scores 0.
pub fn patrol_error(num: usize, n: usize) -> (r: Option<String>)
    requires
        n * n <= usize::MAX,
    ensures
        r is None <==> num == n * n,
        r matches Some(s) ==> s@ == "Not all cells are patrolled: "@ + dec_nat(num as nat) + "/"@ + dec_nat((n * n) as nat),
{
    let nn = n * n;
    if num == nn {
        return None;
    }
    let mut out: Vec<char> = Vec::new();
    push_str(&mut out, "Not all cells are patrolled: ");
    push_usize(&mut out, num);
    push_str(&mut out, "/");
    push_usize(&mut out, nn);
    Some(string_of_chars(&out))
}

} // verus!

