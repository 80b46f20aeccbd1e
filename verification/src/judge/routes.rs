//! The route of one robot of a plan: where it goes until its configuration
//! repeats, split into the part before the loop and the loop itself.

use vstd::prelude::*;
use vstd::arithmetic::div_mod::lemma_fundamental_div_mod_converse;
use crate::annealer::sim::{delta_row, delta_col, clockwise_of, lemma_distinct_in_range_short};
use crate::judge::output::{Robot, RobotModel, robot_view, robot_wf};
use crate::judge::score::{grid_view, grid_wf, grid_wall, has_wall};

verus! {

/// A robot configuration: (row, column, direction, automaton state).
pub type Config = (int, int, int, int);

/// The configuration is on an `n` x `n` board and its state is one of the
/// robot's states.
pub open spec fn config_valid(n: int, r: RobotModel, c: Config) -> bool {
    &&& 0 <= c.0 < n
    &&& 0 <= c.1 < n
    &&& 0 <= c.2 < 4
    &&& 0 <= c.3 < r.0
}

/// One move: look for a wall ahead, take the action of the current state
/// (R turns right, L turns left, F goes forward) and switch state.
pub open spec fn rstep(wv: Seq<Seq<u8>>, wh: Seq<Seq<u8>>, r: RobotModel, c: Config) -> Config {
    let wall = grid_wall(wv, wh, c.0, c.1, c.2);
    let a = if wall { r.6[c.3] } else { r.4[c.3] };
    let b = (if wall { r.7[c.3] } else { r.5[c.3] }) as int;
    if a == 'R' {
        (c.0, c.1, (c.2 + 1) % 4, b)
    } else if a == 'L' {
        (c.0, c.1, (c.2 + 3) % 4, b)
    } else if a == 'F' {
        (c.0 + delta_row(c.2), c.1 + delta_col(c.2), c.2, b)
    } else {
        (c.0, c.1, c.2, b)
    }
}

/// A move stays in place and turns the robot a quarter clockwise for `R`, a
/// quarter counter-clockwise for `L`, takes one step ahead without turning
/// for `F`, and only switches state for any other action; so an `R` and an
/// `L` undo each other.
pub proof fn lemma_rstep_turns(wv: Seq<Seq<u8>>, wh: Seq<Seq<u8>>, r: RobotModel, c: Config)
    requires
        0 <= c.2 < 4,
    ensures
        ({
            let wall = grid_wall(wv, wh, c.0, c.1, c.2);
            let a = if wall { r.6[c.3] } else { r.4[c.3] };
            let nx = rstep(wv, wh, r, c);
            &&& 0 <= nx.2 < 4
            &&& nx.3 == (if wall { r.7[c.3] } else { r.5[c.3] }) as int
            &&& a == 'F' ==> nx.0 == c.0 + delta_row(c.2) && nx.1 == c.1 + delta_col(c.2) && nx.2 == c.2
            &&& a == 'R' ==> nx.0 == c.0 && nx.1 == c.1 && clockwise_of(c.2, nx.2)
            &&& a == 'L' ==> nx.0 == c.0 && nx.1 == c.1 && clockwise_of(nx.2, c.2)
            &&& (a != 'F' && a != 'R' && a != 'L') ==> nx.0 == c.0 && nx.1 == c.1 && nx.2 == c.2
        }),
{
}

/// The configuration after `k` moves from the robot's start (its cell and
/// direction, state 0).
pub open spec fn rtraj(wv: Seq<Seq<u8>>, wh: Seq<Seq<u8>>, r: RobotModel, k: int) -> Config
    decreases k,
{
    if k <= 0 {
        (r.1, r.2, r.3, 0)
    } else {
        rstep(wv, wh, r, rtraj(wv, wh, r, k - 1))
    }
}

/// Moment `j` is the first that repeats an earlier configuration, the one of
/// moment `i`.
pub open spec fn is_loop_at(wv: Seq<Seq<u8>>, wh: Seq<Seq<u8>>, r: RobotModel, i: int, j: int) -> bool {
    &&& 0 <= i < j
    &&& rtraj(wv, wh, r, j) == rtraj(wv, wh, r, i)
    &&& forall|p: int, q: int| 0 <= p < q < j ==> rtraj(wv, wh, r, p) != rtraj(wv, wh, r, q)
}

/// (start of the loop, moment of the first repeat).
pub open spec fn loop_of(wv: Seq<Seq<u8>>, wh: Seq<Seq<u8>>, r: RobotModel) -> (int, int) {
    choose|i: int, j: int| is_loop_at(wv, wh, r, i, j)
}

/// The cell of the robot at moment `x`.
pub open spec fn cell_at(wv: Seq<Seq<u8>>, wh: Seq<Seq<u8>>, r: RobotModel, x: int) -> (usize, usize) {
    let c = rtraj(wv, wh, r, x);
    (c.0 as usize, c.1 as usize)
}

/// Cells from the start up to the start of the loop, both included.
pub open spec fn route_head(wv: Seq<Seq<u8>>, wh: Seq<Seq<u8>>, r: RobotModel) -> Seq<(usize, usize)> {
    let (s, t) = loop_of(wv, wh, r);
    Seq::new((s + 1) as nat, |x: int| cell_at(wv, wh, r, x))
}

/// Cells from the start of the loop up to the first repeat, both included.
pub open spec fn route_tail(wv: Seq<Seq<u8>>, wh: Seq<Seq<u8>>, r: RobotModel) -> Seq<(usize, usize)> {
    let (s, t) = loop_of(wv, wh, r);
    Seq::new((t - s + 1) as nat, |x: int| cell_at(wv, wh, r, s + x))
}

/// A move keeps the robot on the board and in its states.
pub proof fn lemma_rstep_valid(wv: Seq<Seq<u8>>, wh: Seq<Seq<u8>>, r: RobotModel, c: Config)
    requires
        grid_wf(wv, wh),
        robot_wf(r),
        config_valid(wv.len() as int, r, c),
    ensures
        config_valid(wv.len() as int, r, rstep(wv, wh, r, c)),
{
    let s = c.3;
    assert(r.4[s] == 'R' || r.4[s] == 'L' || r.4[s] == 'F');
    assert(r.6[s] == 'R' || r.6[s] == 'L');
    assert(r.5[s] < r.0);
    assert(r.7[s] < r.0);
}

/// Every configuration of the robot is valid.
pub proof fn lemma_rtraj_valid(wv: Seq<Seq<u8>>, wh: Seq<Seq<u8>>, r: RobotModel, k: int)
    requires
        grid_wf(wv, wh),
        robot_wf(r),
        0 <= r.1 < wv.len(),
        0 <= r.2 < wv.len(),
    ensures
        config_valid(wv.len() as int, r, rtraj(wv, wh, r, k)),
    decreases k,
{
    if k > 0 {
        lemma_rtraj_valid(wv, wh, r, k - 1);
        lemma_rstep_valid(wv, wh, r, rtraj(wv, wh, r, k - 1));
    }
}

/// The first repeat is unique, so `loop_of` names it.
pub proof fn lemma_loop_unique(wv: Seq<Seq<u8>>, wh: Seq<Seq<u8>>, r: RobotModel, i: int, j: int)
    requires
        is_loop_at(wv, wh, r, i, j),
    ensures
        loop_of(wv, wh, r) == (i, j),
{
    let (i2, j2) = loop_of(wv, wh, r);
    assert(is_loop_at(wv, wh, r, i2, j2));
    if j < j2 {
        assert(rtraj(wv, wh, r, i) != rtraj(wv, wh, r, j));
    } else if j2 < j {
        assert(rtraj(wv, wh, r, i2) != rtraj(wv, wh, r, j2));
    }
    if i < i2 {
        assert(rtraj(wv, wh, r, i) != rtraj(wv, wh, r, i2));
    } else if i2 < i {
        assert(rtraj(wv, wh, r, i2) != rtraj(wv, wh, r, i));
    }
}

/// Index of a configuration in a table of all `n * n * 4 * m` configurations.
pub open spec fn config_index(n: int, m: int, c: Config) -> int {
    ((c.0 * n + c.1) * 4 + c.2) * m + c.3
}

/// The index is in range and gives back the configuration.
pub proof fn lemma_config_index(n: int, m: int, c: Config)
    requires
        0 <= c.0 < n,
        0 <= c.1 < n,
        0 <= c.2 < 4,
        0 <= c.3 < m,
    ensures
        0 <= config_index(n, m, c) < n * n * 4 * m,
        config_index(n, m, c) % m == c.3,
        (config_index(n, m, c) / m) % 4 == c.2,
        ((config_index(n, m, c) / m) / 4) % n == c.1,
        ((config_index(n, m, c) / m) / 4) / n == c.0,
{
    let a = c.0 * n + c.1;
    let b = a * 4 + c.2;
    let x = b * m + c.3;
    assert(0 <= a < n * n) by (nonlinear_arith)
        requires a == c.0 * n + c.1, 0 <= c.0 < n, 0 <= c.1 < n;
    assert(0 <= b < n * n * 4) by (nonlinear_arith)
        requires b == a * 4 + c.2, 0 <= a < n * n, 0 <= c.2 < 4;
    assert(0 <= x < n * n * 4 * m) by (nonlinear_arith)
        requires x == b * m + c.3, 0 <= b < n * n * 4, 0 <= c.3 < m;
    lemma_fundamental_div_mod_converse(x, m, b, c.3);
    lemma_fundamental_div_mod_converse(b, 4, a, c.2);
    lemma_fundamental_div_mod_converse(a, n, c.0, c.1);
}

/// Valid configurations with equal indices are equal.
pub proof fn lemma_config_index_injective(n: int, m: int, c1: Config, c2: Config)
    requires
        0 <= c1.0 < n && 0 <= c1.1 < n && 0 <= c1.2 < 4 && 0 <= c1.3 < m,
        0 <= c2.0 < n && 0 <= c2.1 < n && 0 <= c2.2 < 4 && 0 <= c2.3 < m,
        config_index(n, m, c1) == config_index(n, m, c2),
    ensures
        c1 == c2,
{
    lemma_config_index(n, m, c1);
    lemma_config_index(n, m, c2);
}

/// The route of a robot: the cells it passes from its start to the start of
/// its loop (`head`), and around the loop back to where it started (`tail`).
pub struct Route {
    pub head: Vec<(usize, usize)>,
    pub tail: Vec<(usize, usize)>,
}

/// Runs one robot until its configuration repeats. `total` is the number of
/// configurations, `n * n * 4 * m`.
pub fn robot_route(wall_v: &[Vec<u8>], wall_h: &[Vec<u8>], robot: &Robot, total: usize) -> (route: Route)
    requires
        grid_wf(grid_view(wall_v@), grid_view(wall_h@)),
        robot_wf(robot_view(*robot)),
        robot.i < wall_v@.len(),
        robot.j < wall_v@.len(),
        total == wall_v@.len() * wall_v@.len() * 4 * robot.m,
    ensures
        route.head@ == route_head(grid_view(wall_v@), grid_view(wall_h@), robot_view(*robot)),
        route.tail@ == route_tail(grid_view(wall_v@), grid_view(wall_h@), robot_view(*robot)),
{
    let ghost wv = grid_view(wall_v@);
    let ghost wh = grid_view(wall_h@);
    let ghost rv = robot_view(*robot);
    let n = wall_v.len();
    let m = robot.m;
    let mut visited: Vec<usize> = Vec::new();
    let mut z: usize = 0;
    while z < total
        invariant
            z <= total,
            visited@.len() == z,
            forall|k: int| 0 <= k < z ==> #[trigger] visited@[k] == usize::MAX,
        decreases total - z,
    {
        visited.push(usize::MAX);
        z += 1;
    }
    let mut route: Vec<(usize, usize)> = Vec::new();
    let mut ci = robot.i;
    let mut cj = robot.j;
    let mut cd = robot.d;
    let mut cs: usize = 0;
    loop
        invariant
            n == wall_v@.len(),
            m == robot.m,
            wv == grid_view(wall_v@),
            wh == grid_view(wall_h@),
            rv == robot_view(*robot),
            grid_wf(wv, wh),
            robot_wf(rv),
            robot.i < n,
            robot.j < n,
            total == n * n * 4 * m,
            visited@.len() == total,
            route@.len() <= total,
            (ci as int, cj as int, cd as int, cs as int) == rtraj(wv, wh, rv, route@.len() as int),
            forall|u: int| 0 <= u < route@.len() ==> #[trigger] route@[u] == cell_at(wv, wh, rv, u),
            forall|u: int|
                0 <= u < route@.len() ==> visited@[config_index(n as int, m as int, #[trigger] rtraj(wv, wh, rv, u))] == u,
            forall|k: int|
                0 <= k < total ==> #[trigger] visited@[k] == usize::MAX || (visited@[k] < route@.len()
                    && config_index(n as int, m as int, rtraj(wv, wh, rv, visited@[k] as int)) == k),
            forall|p: int, q: int|
                0 <= p < q < route@.len() ==> rtraj(wv, wh, rv, p) != rtraj(wv, wh, rv, q),
        decreases total - route@.len(),
    {
        let ghost len = route@.len() as int;
        proof {
            lemma_rtraj_valid(wv, wh, rv, len);
            lemma_config_index(n as int, m as int, rtraj(wv, wh, rv, len));
        }
        assert(((ci * n + cj) * 4 + cd) * m + cs < n * n * 4 * m) by {
            lemma_config_index(n as int, m as int, (ci as int, cj as int, cd as int, cs as int));
        }
        assert(0 <= ci * n + cj <= ((ci * n + cj) * 4 + cd) * m + cs) by (nonlinear_arith)
            requires ci >= 0, n >= 0, cj >= 0, cd >= 0, m >= 1, cs >= 0;
        assert(0 <= ci * n <= ci * n + cj) by (nonlinear_arith)
            requires ci >= 0, n >= 0, cj >= 0;
        assert(0 <= (ci * n + cj) * 4 <= ((ci * n + cj) * 4 + cd) * m) by (nonlinear_arith)
            requires ci * n + cj >= 0, cd >= 0, m >= 1;
        let idx = ((ci * n + cj) * 4 + cd) * m + cs;
        route.push((ci, cj));
        let at = visited[idx];
        if at != usize::MAX {
            let ghost s = at as int;
            proof {
                assert(config_index(n as int, m as int, rtraj(wv, wh, rv, s)) == idx);
                lemma_rtraj_valid(wv, wh, rv, s);
                lemma_config_index_injective(n as int, m as int, rtraj(wv, wh, rv, s), rtraj(wv, wh, rv, len));
                assert(is_loop_at(wv, wh, rv, s, len));
                lemma_loop_unique(wv, wh, rv, s, len);
                assert(route@[len] == cell_at(wv, wh, rv, len));
            }
            let mut head: Vec<(usize, usize)> = Vec::new();
            let mut x: usize = 0;
            while x <= at
                invariant
                    at < route@.len(),
                    at < usize::MAX,
                    x <= at + 1,
                    head@ == route@.subrange(0, x as int),
                decreases at + 1 - x,
            {
                head.push(route[x]);
                proof {
                    assert(route@.subrange(0, x + 1) =~= route@.subrange(0, x as int).push(route@[x as int]));
                }
                x += 1;
            }
            let mut tail: Vec<(usize, usize)> = Vec::new();
            let mut y: usize = at;
            while y < route.len()
                invariant
                    at <= y <= route@.len(),
                    tail@ == route@.subrange(at as int, y as int),
                decreases route@.len() - y,
            {
                tail.push(route[y]);
                proof {
                    assert(route@.subrange(at as int, y + 1) =~= route@.subrange(at as int, y as int).push(route@[y as int]));
                }
                y += 1;
            }
            proof {
                assert(head@ =~= route_head(wv, wh, rv)) by {
                    assert forall|u: int| 0 <= u < head@.len() implies head@[u] == route_head(wv, wh, rv)[u] by {
                        assert(head@[u] == route@[u]);
                    }
                }
                assert(tail@ =~= route_tail(wv, wh, rv)) by {
                    assert forall|u: int| 0 <= u < tail@.len() implies tail@[u] == route_tail(wv, wh, rv)[u] by {
                        assert(tail@[u] == route@[s + u]);
                    }
                }
            }
            return Route { head, tail };
        }
        proof {
            let ids = Seq::new(len as nat, |u: int| config_index(n as int, m as int, rtraj(wv, wh, rv, u)));
            assert forall|u: int| 0 <= u < ids.len() implies 0 <= #[trigger] ids[u] < total by {
                lemma_rtraj_valid(wv, wh, rv, u);
                lemma_config_index(n as int, m as int, rtraj(wv, wh, rv, u));
            }
            assert(ids.no_duplicates()) by {
                assert forall|p: int, q: int| 0 <= p < ids.len() && 0 <= q < ids.len() && p != q
                    implies ids[p] != ids[q] by {
                    let _ = rtraj(wv, wh, rv, p);
                    let _ = rtraj(wv, wh, rv, q);
                    assert(visited@[ids[p]] == p);
                    assert(visited@[ids[q]] == q);
                }
            }
            assert(!ids.contains(idx as int)) by {
                if ids.contains(idx as int) {
                    let u = choose|u: int| 0 <= u < ids.len() && ids[u] == idx as int;
                    let _ = rtraj(wv, wh, rv, u);
                    assert(visited@[ids[u]] == u);
                }
            }
            lemma_distinct_in_range_short(ids, total as int, idx as int);
        }
        let ghost old_visited = visited@;
        visited.set(idx, route.len() - 1);
        let wall_front = has_wall(wall_v, wall_h, ci, cj, cd);
        let a: char;
        let b: usize;
        if wall_front {
            a = robot.a1[cs];
            b = robot.b1[cs];
        } else {
            a = robot.a0[cs];
            b = robot.b0[cs];
        }
        if a == 'R' {
            cd = (cd + 1) % 4;
        } else if a == 'L' {
            cd = (cd + 3) % 4;
        } else if a == 'F' {
            proof {
                assert(!wall_front);
            }
            if cd == 0 {
                ci = ci - 1;
            } else if cd == 1 {
                cj = cj + 1;
            } else if cd == 2 {
                ci = ci + 1;
            } else {
                cj = cj - 1;
            }
        }
        cs = b;
        proof {
            let new_len = len + 1;
            assert(rtraj(wv, wh, rv, new_len) == rstep(wv, wh, rv, rtraj(wv, wh, rv, len)));
            assert(route@.len() == new_len);
            assert forall|p: int, q: int| 0 <= p < q < new_len implies rtraj(wv, wh, rv, p) != rtraj(wv, wh, rv, q) by {
                if q == len {
                    lemma_rtraj_valid(wv, wh, rv, p);
                    assert(old_visited[config_index(n as int, m as int, rtraj(wv, wh, rv, p))] == p);
                }
            }
            assert forall|u: int| 0 <= u < new_len implies #[trigger] route@[u] == cell_at(wv, wh, rv, u) by {
                if u < len {
                    assert(route@[u] == cell_at(wv, wh, rv, u));
                }
            }
            assert forall|u: int| 0 <= u < new_len implies visited@[config_index(n as int, m as int, #[trigger] rtraj(wv, wh, rv, u))] == u by {
                if u < len {
                    lemma_rtraj_valid(wv, wh, rv, u);
                    lemma_config_index(n as int, m as int, rtraj(wv, wh, rv, u));
                    assert(old_visited[config_index(n as int, m as int, rtraj(wv, wh, rv, u))] == u);
                }
            }
            assert forall|k: int| 0 <= k < total implies #[trigger] visited@[k] == usize::MAX || (visited@[k] < new_len
                && config_index(n as int, m as int, rtraj(wv, wh, rv, visited@[k] as int)) == k) by {
                if k != idx {
                    assert(visited@[k] == old_visited[k]);
                }
            }
        }
    }
}

} // verus!
