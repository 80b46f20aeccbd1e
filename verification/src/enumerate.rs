//! Exhaustive search over small automata: running one automaton on a grid
//! of boolean walls, and listing every automaton with a given number of
//! states.

use vstd::prelude::*;
use vstd::arithmetic::div_mod::{lemma_fundamental_div_mod, lemma_fundamental_div_mod_converse, lemma_div_denominator};
use vstd::arithmetic::power::{pow, lemma_pow_positive, lemma_pow_increases};
use crate::annealer::{N, CELLS};
use crate::annealer::sim::{delta_row, delta_col, clockwise_of, lemma_distinct_in_range_short, count_cells, hist_cells};
use crate::judge::routes::{config_index, lemma_config_index, lemma_config_index_injective};
use crate::text::{line, line_start, trim, chars_of, find_line_end, trim_bounds, lemma_nl_after};
use vstd::set_lib::{set_int_range, lemma_int_range, lemma_len_subset};

verus! {

/// One row of an automaton: (action without a wall ahead, next state, action
/// with a wall ahead, next state); 0 = forward, 1 = turn right, 2 = turn left.
pub type Entry = (u8, usize, u8, usize);

/// The direction after a right turn.
pub open spec fn right_of(d: int) -> int {
    (d + 1) % 4
}

/// The direction after a left turn.
pub open spec fn left_of(d: int) -> int {
    (d + 3) % 4
}

/// The direction after turning right from `d`.
pub fn turn_right(d: usize) -> (r: usize)
    requires
        d < usize::MAX,
    ensures
        r == right_of(d as int),
{
    (d + 1) % 4
}

/// The direction after turning left from `d`.
pub fn turn_left(d: usize) -> (r: usize)
    requires
        d <= usize::MAX - 3,
    ensures
        r == left_of(d as int),
{
    (d + 3) % 4
}

/// A left turn undoes a right turn and the other way round, and four turns
/// the same way come back to the start.
pub proof fn lemma_turns_undo(d: int)
    requires
        0 <= d < 4,
    ensures
        left_of(right_of(d)) == d,
        right_of(left_of(d)) == d,
        right_of(right_of(right_of(right_of(d)))) == d,
        left_of(left_of(left_of(left_of(d)))) == d,
{
}

/// Wall rows of an N x N board: `v[r][c]` between (r, c) and (r, c + 1) for
/// `c < N - 1`, `h[r][c]` between (r, c) and (r + 1, c) for `r < N - 1`.
pub open spec fn bool_grid_ok(v: Seq<Vec<bool>>, h: Seq<Vec<bool>>) -> bool {
    &&& v.len() >= N
    &&& h.len() >= N - 1
    &&& forall|r: int| 0 <= r < N ==> (#[trigger] v[r])@.len() >= N - 1
    &&& forall|r: int| 0 <= r < N - 1 ==> (#[trigger] h[r])@.len() >= N
}

/// Whether the robot at (r, c) facing `d` has a wall or the border ahead.
pub open spec fn wall_b(v: Seq<Vec<bool>>, h: Seq<Vec<bool>>, r: int, c: int, d: int) -> bool {
    if d == 0 {
        r == 0 || h[r - 1]@[c]
    } else if d == 1 {
        c == N - 1 || v[r]@[c]
    } else if d == 2 {
        r == N - 1 || h[r]@[c]
    } else {
        c == 0 || v[r]@[c - 1]
    }
}

/// Whether the robot at (r, c) facing `d` (0 = up, 1 = right, 2 = down,
/// 3 = left) has a wall or the border ahead.
pub fn has_wall_ahead(v: &[Vec<bool>], h: &[Vec<bool>], r: usize, c: usize, d: usize) -> (res: bool)
    requires
        bool_grid_ok(v@, h@),
        r < N,
        c < N,
        d < 4,
    ensures
        res == wall_b(v@, h@, r as int, c as int, d as int),
{
    if d == 0 {
        r == 0 || h[r - 1][c]
    } else if d == 1 {
        c == N - 1 || v[r][c]
    } else if d == 2 {
        r == N - 1 || h[r][c]
    } else {
        c == 0 || v[r][c - 1]
    }
}

/// The automaton has at least one state; its actions are 0, 1 or 2 without a
/// wall ahead and 1 or 2 with one, and its next states are its own.
pub open spec fn automaton_ok(a: Seq<Entry>) -> bool {
    &&& a.len() >= 1
    &&& forall|s: int| 0 <= s < a.len() ==> #[trigger] entry_ok(a.len() as int, a[s])
}

/// A row of an automaton with `m` states.
pub open spec fn entry_ok(m: int, e: Entry) -> bool {
    &&& e.0 <= 2
    &&& e.1 < m
    &&& 1 <= e.2 <= 2
    &&& e.3 < m
}

/// A configuration: (row, column, direction, state).
pub type EState = (int, int, int, int);

/// The configuration is on the board and in the automaton.
pub open spec fn estate_ok(m: int, st: EState) -> bool {
    &&& 0 <= st.0 < N
    &&& 0 <= st.1 < N
    &&& 0 <= st.2 < 4
    &&& 0 <= st.3 < m
}

/// One move of the robot.
pub open spec fn estep(v: Seq<Vec<bool>>, h: Seq<Vec<bool>>, a: Seq<Entry>, st: EState) -> EState {
    let e = a[st.3];
    let wall = wall_b(v, h, st.0, st.1, st.2);
    let act = if wall { e.2 } else { e.0 };
    let ns = (if wall { e.3 } else { e.1 }) as int;
    if act == 0 {
        (st.0 + delta_row(st.2), st.1 + delta_col(st.2), st.2, ns)
    } else if act == 1 {
        (st.0, st.1, right_of(st.2), ns)
    } else {
        (st.0, st.1, left_of(st.2), ns)
    }
}

/// A move stays in place and turns the robot a quarter clockwise for action
/// 1 (right), a quarter counter-clockwise for action 2 (left), and takes one
/// step ahead without turning for action 0 (forward); so a right turn and a
/// left turn undo each other.
pub proof fn lemma_estep_turns(v: Seq<Vec<bool>>, h: Seq<Vec<bool>>, a: Seq<Entry>, st: EState)
    requires
        0 <= st.2 < 4,
    ensures
        ({
            let e = a[st.3];
            let wall = wall_b(v, h, st.0, st.1, st.2);
            let act = if wall { e.2 } else { e.0 };
            let nx = estep(v, h, a, st);
            &&& 0 <= nx.2 < 4
            &&& nx.3 == (if wall { e.3 } else { e.1 }) as int
            &&& act == 0 ==> nx.0 == st.0 + delta_row(st.2) && nx.1 == st.1 + delta_col(st.2) && nx.2 == st.2
            &&& act == 1 ==> nx.0 == st.0 && nx.1 == st.1 && clockwise_of(st.2, nx.2)
            &&& act == 2 ==> nx.0 == st.0 && nx.1 == st.1 && clockwise_of(nx.2, st.2)
        }),
{
}

/// The configuration after `k` moves from `st0`.
pub open spec fn etraj(v: Seq<Vec<bool>>, h: Seq<Vec<bool>>, a: Seq<Entry>, st0: EState, k: int) -> EState
    decreases k,
{
    if k <= 0 {
        st0
    } else {
        estep(v, h, a, etraj(v, h, a, st0, k - 1))
    }
}

/// Moment `j` is the first to repeat a configuration, the one of moment `i`.
pub open spec fn is_first_repeat_e(v: Seq<Vec<bool>>, h: Seq<Vec<bool>>, a: Seq<Entry>, st0: EState, i: int, j: int) -> bool {
    &&& 0 <= i < j
    &&& etraj(v, h, a, st0, j) == etraj(v, h, a, st0, i)
    &&& forall|p: int, q: int| 0 <= p < q < j ==> etraj(v, h, a, st0, p) != etraj(v, h, a, st0, q)
}

/// (start of the cycle, first repeat).
pub open spec fn first_repeat_e(v: Seq<Vec<bool>>, h: Seq<Vec<bool>>, a: Seq<Entry>, st0: EState) -> (int, int) {
    choose|i: int, j: int| is_first_repeat_e(v, h, a, st0, i, j)
}

/// Cell number (row * N + column) of a configuration.
pub open spec fn ecell(st: EState) -> int {
    st.0 * N + st.1
}

/// Cells passed at moments `i .. j`.
pub open spec fn ecells_between(v: Seq<Vec<bool>>, h: Seq<Vec<bool>>, a: Seq<Entry>, st0: EState, i: int, j: int) -> Set<int> {
    Set::new(|x: int| exists|u: int| i <= u < j && ecell(etraj(v, h, a, st0, u)) == x)
}

/// Number of cells patrolled forever by the robot started in `st0`: those on
/// the cycle of its trajectory.
pub open spec fn ecycle_cover(v: Seq<Vec<bool>>, h: Seq<Vec<bool>>, a: Seq<Entry>, st0: EState) -> nat {
    let (i, j) = first_repeat_e(v, h, a, st0);
    ecells_between(v, h, a, st0, i, j).len()
}

/// A move keeps a valid configuration valid.
pub proof fn lemma_estep_ok(v: Seq<Vec<bool>>, h: Seq<Vec<bool>>, a: Seq<Entry>, st: EState)
    requires
        automaton_ok(a),
        estate_ok(a.len() as int, st),
    ensures
        estate_ok(a.len() as int, estep(v, h, a, st)),
{
    assert(entry_ok(a.len() as int, a[st.3]));
}

/// Every configuration of the trajectory is valid.
pub proof fn lemma_etraj_ok(v: Seq<Vec<bool>>, h: Seq<Vec<bool>>, a: Seq<Entry>, st0: EState, k: int)
    requires
        automaton_ok(a),
        estate_ok(a.len() as int, st0),
    ensures
        estate_ok(a.len() as int, etraj(v, h, a, st0, k)),
    decreases k,
{
    if k > 0 {
        lemma_etraj_ok(v, h, a, st0, k - 1);
        lemma_estep_ok(v, h, a, etraj(v, h, a, st0, k - 1));
    }
}

/// The first repeat is unique.
pub proof fn lemma_first_repeat_e_unique(v: Seq<Vec<bool>>, h: Seq<Vec<bool>>, a: Seq<Entry>, st0: EState, i: int, j: int)
    requires
        is_first_repeat_e(v, h, a, st0, i, j),
    ensures
        first_repeat_e(v, h, a, st0) == (i, j),
{
    let (i2, j2) = first_repeat_e(v, h, a, st0);
    assert(is_first_repeat_e(v, h, a, st0, i2, j2));
    if j < j2 {
        assert(etraj(v, h, a, st0, i) != etraj(v, h, a, st0, j));
    } else if j2 < j {
        assert(etraj(v, h, a, st0, i2) != etraj(v, h, a, st0, j2));
    }
    if i < i2 {
        assert(etraj(v, h, a, st0, i) != etraj(v, h, a, st0, i2));
    } else if i2 < i {
        assert(etraj(v, h, a, st0, i2) != etraj(v, h, a, st0, i));
    }
}

/// Runs the automaton from (start_r, start_c) facing `start_d` in state 0
/// until a configuration repeats, and returns the number of cells on the
/// cycle.
pub fn simulate(
    v: &[Vec<bool>],
    h: &[Vec<bool>],
    automaton: &[Entry],
    start_r: usize,
    start_c: usize,
    start_d: usize,
) -> (res: usize)
    requires
        bool_grid_ok(v@, h@),
        automaton_ok(automaton@),
        start_r < N,
        start_c < N,
        start_d < 4,
        N * N * 4 * automaton@.len() + 1 <= u32::MAX,
    ensures
        res == ecycle_cover(v@, h@, automaton@, (start_r as int, start_c as int, start_d as int, 0)),
{
    let ghost a = automaton@;
    let ghost st0: EState = (start_r as int, start_c as int, start_d as int, 0);
    let m = automaton.len();
    let state_size = N * N * 4 * m;
    let mut visited: Vec<u32> = Vec::new();
    let mut z: usize = 0;
    while z < state_size
        invariant
            z <= state_size,
            visited@.len() == z,
            forall|k: int| 0 <= k < z ==> #[trigger] visited@[k] == 0,
        decreases state_size - z,
    {
        visited.push(0);
        z += 1;
    }
    let mut history: Vec<u16> = Vec::new();
    let mut r = start_r;
    let mut c = start_c;
    let mut d = start_d;
    let mut s: usize = 0;
    let mut step: u32 = 1;
    loop
        invariant
            a == automaton@,
            m == a.len(),
            automaton_ok(a),
            bool_grid_ok(v@, h@),
            st0 == (start_r as int, start_c as int, start_d as int, 0int),
            estate_ok(m as int, st0),
            state_size == N * N * 4 * m,
            state_size + 1 <= u32::MAX,
            visited@.len() == state_size,
            step == history@.len() + 1,
            history@.len() <= state_size,
            (r as int, c as int, d as int, s as int) == etraj(v@, h@, a, st0, history@.len() as int),
            forall|u: int| 0 <= u < history@.len() ==> {
                let st = #[trigger] etraj(v@, h@, a, st0, u);
                &&& history@[u] as int == ecell(st)
                &&& history@[u] < CELLS
                &&& visited@[config_index(N as int, m as int, st)] == u + 1
            },
            forall|k: int|
                0 <= k < state_size ==> #[trigger] visited@[k] == 0 || (1 <= visited@[k] <= history@.len()
                    && config_index(N as int, m as int, etraj(v@, h@, a, st0, visited@[k] - 1)) == k),
            forall|p: int, q: int|
                0 <= p < q < history@.len() ==> etraj(v@, h@, a, st0, p) != etraj(v@, h@, a, st0, q),
        ensures
            step as usize > state_size + 1,
        decreases state_size - history@.len(),
    {
        let ghost len = history@.len() as int;
        proof {
            lemma_etraj_ok(v@, h@, a, st0, len);
            lemma_config_index(N as int, m as int, etraj(v@, h@, a, st0, len));
        }
        assert(0 <= r * N + c <= ((r * N + c) * 4 + d) * m + s) by (nonlinear_arith)
            requires r >= 0, c >= 0, d >= 0, m >= 1, s >= 0;
        assert(0 <= r * N <= r * N + c) by (nonlinear_arith)
            requires r >= 0, c >= 0;
        assert(0 <= (r * N + c) * 4 <= ((r * N + c) * 4 + d) * m) by (nonlinear_arith)
            requires r * N + c >= 0, d >= 0, m >= 1;
        let sid = ((r * N + c) * 4 + d) * m + s;
        if visited[sid] != 0 {
            let cycle_start = (visited[sid] - 1) as usize;
            proof {
                let i = cycle_start as int;
                lemma_etraj_ok(v@, h@, a, st0, i);
                lemma_config_index_injective(N as int, m as int, etraj(v@, h@, a, st0, i), etraj(v@, h@, a, st0, len));
                assert(is_first_repeat_e(v@, h@, a, st0, i, len));
                lemma_first_repeat_e_unique(v@, h@, a, st0, i, len);
                assert forall|u: int| 0 <= u < history@.len() implies (#[trigger] history@[u]) < CELLS by {
                    let _ = etraj(v@, h@, a, st0, u);
                }
            }
            let res = count_cells(&history, cycle_start);
            proof {
                let i = cycle_start as int;
                assert(hist_cells(history@, i, len) =~= ecells_between(v@, h@, a, st0, i, len)) by {
                    assert forall|x: int| ecells_between(v@, h@, a, st0, i, len).contains(x) implies hist_cells(
                        history@,
                        i,
                        len,
                    ).contains(x) by {
                        let u = choose|u: int| i <= u < len && ecell(etraj(v@, h@, a, st0, u)) == x;
                        assert(history@[u] as int == ecell(etraj(v@, h@, a, st0, u)));
                    }
                    assert forall|x: int| hist_cells(history@, i, len).contains(x) implies ecells_between(
                        v@,
                        h@,
                        a,
                        st0,
                        i,
                        len,
                    ).contains(x) by {
                        let u = choose|u: int| i <= u < len && history@[u] as int == x;
                        assert(history@[u] as int == ecell(etraj(v@, h@, a, st0, u)));
                    }
                }
            }
            return res;
        }
        proof {
            let ids = Seq::new(len as nat, |u: int| config_index(N as int, m as int, etraj(v@, h@, a, st0, u)));
            assert forall|u: int| 0 <= u < ids.len() implies 0 <= #[trigger] ids[u] < state_size by {
                lemma_etraj_ok(v@, h@, a, st0, u);
                lemma_config_index(N as int, m as int, etraj(v@, h@, a, st0, u));
            }
            assert(ids.no_duplicates()) by {
                assert forall|p: int, q: int| 0 <= p < ids.len() && 0 <= q < ids.len() && p != q implies ids[p]
                    != ids[q] by {
                    let _ = etraj(v@, h@, a, st0, p);
                    let _ = etraj(v@, h@, a, st0, q);
                }
            }
            assert(!ids.contains(sid as int)) by {
                if ids.contains(sid as int) {
                    let u = choose|u: int| 0 <= u < ids.len() && ids[u] == sid as int;
                    let _ = etraj(v@, h@, a, st0, u);
                }
            }
            lemma_distinct_in_range_short(ids, state_size as int, sid as int);
        }
        assert(r * N + c < CELLS) by (nonlinear_arith)
            requires r < 20, c < 20;
        let ghost old_visited = visited@;
        visited.set(sid, step);
        history.push((r * N + c) as u16);
        let wall = has_wall_ahead(v, h, r, c, d);
        let (action, next_s) = if wall {
            (automaton[s].2, automaton[s].3)
        } else {
            (automaton[s].0, automaton[s].1)
        };
        proof {
            assert(entry_ok(m as int, a[s as int]));
        }
        if action == 0 {
            if d == 0 {
                r = r - 1;
            } else if d == 1 {
                c = c + 1;
            } else if d == 2 {
                r = r + 1;
            } else {
                c = c - 1;
            }
        } else if action == 1 {
            d = turn_right(d);
        } else {
            d = turn_left(d);
        }
        s = next_s;
        step += 1;
        proof {
            let new_len = len + 1;
            assert(etraj(v@, h@, a, st0, new_len) == estep(v@, h@, a, etraj(v@, h@, a, st0, len)));
            assert forall|p: int, q: int| 0 <= p < q < new_len implies etraj(v@, h@, a, st0, p) != etraj(
                v@,
                h@,
                a,
                st0,
                q,
            ) by {
                if q == len {
                    lemma_etraj_ok(v@, h@, a, st0, p);
                    assert(old_visited[config_index(N as int, m as int, etraj(v@, h@, a, st0, p))] == p + 1);
                }
            }
            assert forall|u: int| 0 <= u < new_len implies {
                let st = #[trigger] etraj(v@, h@, a, st0, u);
                &&& history@[u] as int == ecell(st)
                &&& history@[u] < CELLS
                &&& visited@[config_index(N as int, m as int, st)] == u + 1
            } by {
                if u < len {
                    lemma_etraj_ok(v@, h@, a, st0, u);
                    lemma_config_index(N as int, m as int, etraj(v@, h@, a, st0, u));
                    assert(old_visited[config_index(N as int, m as int, etraj(v@, h@, a, st0, u))] == u + 1);
                }
            }
            assert forall|k: int| 0 <= k < state_size implies #[trigger] visited@[k] == 0 || (1 <= visited@[k]
                <= new_len && config_index(N as int, m as int, etraj(v@, h@, a, st0, visited@[k] - 1)) == k) by {
                if k != sid {
                    assert(visited@[k] == old_visited[k]);
                }
            }
        }
        if step as usize > state_size + 1 {
            break;
        }
    }
    0
}

/// Number of possible rows of an automaton with `m` states: `3 m` choices
/// without a wall ahead times `2 m` with one.
pub open spec fn row_choices(m: int) -> int {
    6 * m * m
}

/// The row numbered `x`, where `x = (a0 m + b0) 2m + (a1 - 1) m + b1`.
pub open spec fn entry_of_code(m: int, x: int) -> Entry {
    let wall_part = x % (2 * m);
    let no_wall_part = x / (2 * m);
    ((no_wall_part / m) as u8, (no_wall_part % m) as usize, (wall_part / m + 1) as u8, (wall_part % m) as usize)
}

/// The number of a row.
pub open spec fn entry_code(m: int, e: Entry) -> int {
    (e.0 * m + e.1) * (2 * m) + (e.2 - 1) * m + e.3
}

/// Digit `k` of `idx` written in base `row_choices(m)`, least significant first.
pub open spec fn digit(m: int, idx: int, k: nat) -> int {
    (idx / pow(row_choices(m), k)) % row_choices(m)
}

/// The first `k` rows of the automaton numbered `idx`: row `t` is the row
/// numbered by digit `t` of `idx`.
pub open spec fn decode_prefix(m: int, idx: int, k: nat) -> Seq<Entry> {
    Seq::new(k, |t: int| entry_of_code(m, digit(m, idx, t as nat)))
}

/// The automaton with `m` states numbered `idx`.
pub open spec fn decode(m: int, idx: int) -> Seq<Entry> {
    decode_prefix(m, idx, m as nat)
}

/// The number of an automaton: its row numbers as digits in base
/// `row_choices(m)`, the first row least significant.
pub open spec fn encode(m: int, a: Seq<Entry>) -> int
    decreases a.len(),
{
    if a.len() == 0 {
        0
    } else {
        entry_code(m, a[0]) + row_choices(m) * encode(m, a.drop_first())
    }
}

/// Row numbers are below `row_choices(m)` and give the row back.
pub proof fn lemma_entry_code(m: int, e: Entry)
    requires
        m >= 1,
        entry_ok(m, e),
    ensures
        0 <= entry_code(m, e) < row_choices(m),
        entry_of_code(m, entry_code(m, e)) == e,
{
    let hi = e.0 * m + e.1;
    let lo = (e.2 - 1) * m + e.3;
    let x = entry_code(m, e);
    assert(0 <= hi < 3 * m && 0 <= lo < 2 * m) by (nonlinear_arith)
        requires hi == e.0 * m + e.1, lo == (e.2 - 1) * m + e.3, 0 <= e.0 <= 2, 0 <= e.1 < m, 1 <= e.2 <= 2, 0 <= e.3 < m;
    assert(0 <= x < 6 * m * m) by (nonlinear_arith)
        requires x == hi * (2 * m) + lo, 0 <= hi < 3 * m, 0 <= lo < 2 * m;
    lemma_fundamental_div_mod_converse(x, 2 * m, hi, lo);
    lemma_fundamental_div_mod_converse(hi, m, e.0 as int, e.1 as int);
    lemma_fundamental_div_mod_converse(lo, m, e.2 - 1, e.3 as int);
}

/// Every number below `row_choices(m)` names a well-formed row, and numbering it
/// again gives the number back.
pub proof fn lemma_code_entry(m: int, x: int)
    requires
        1 <= m <= usize::MAX,
        0 <= x < row_choices(m),
    ensures
        entry_ok(m, entry_of_code(m, x)),
        entry_code(m, entry_of_code(m, x)) == x,
{
    let wp = x % (2 * m);
    let nw = x / (2 * m);
    lemma_fundamental_div_mod(x, 2 * m);
    assert(0 <= wp < 2 * m);
    assert(0 <= nw < 3 * m) by (nonlinear_arith)
        requires x == (2 * m) * nw + wp, 0 <= wp < 2 * m, 0 <= x < 6 * m * m, m >= 1;
    lemma_fundamental_div_mod(nw, m);
    lemma_fundamental_div_mod(wp, m);
    let a0 = nw / m;
    let b0 = nw % m;
    let a1 = wp / m;
    let b1 = wp % m;
    assert(0 <= a0 < 3) by (nonlinear_arith)
        requires nw == m * a0 + b0, 0 <= b0 < m, 0 <= nw < 3 * m, m >= 1;
    assert(0 <= a1 < 2) by (nonlinear_arith)
        requires wp == m * a1 + b1, 0 <= b1 < m, 0 <= wp < 2 * m, m >= 1;
    assert(x == (a0 * m + b0) * (2 * m) + a1 * m + b1) by (nonlinear_arith)
        requires x == (2 * m) * nw + wp, nw == m * a0 + b0, wp == m * a1 + b1;
    let e = entry_of_code(m, x);
    assert(e.0 as int == a0);
    assert(e.1 as int == b0);
    assert(e.2 as int == a1 + 1);
    assert(e.3 as int == b1);
}

/// `pow(P, k + 1) = P pow(P, k)`.
pub proof fn lemma_pow_succ(p: int, k: nat)
    ensures
        pow(p, k + 1) == p * pow(p, k),
{
    reveal(pow);
}

/// Digit `k + 1` of `x` is digit `k` of `x / P`.
pub proof fn lemma_digit_shift(m: int, x: int, k: nat)
    requires
        m >= 1,
        x >= 0,
    ensures
        digit(m, x, k + 1) == digit(m, x / row_choices(m), k),
        (x / pow(row_choices(m), k)) / row_choices(m) == x / pow(row_choices(m), k + 1),
{
    let p = row_choices(m);
    assert(p > 0) by (nonlinear_arith)
        requires p == 6 * m * m, m >= 1;
    lemma_pow_positive(p, k);
    lemma_pow_succ(p, k);
    lemma_div_denominator(x, p, pow(p, k));
    lemma_div_denominator(x, pow(p, k), p);
    assert(p * pow(p, k) == pow(p, k) * p) by (nonlinear_arith);
}

/// The digits of an automaton's number are its row numbers, and the number
/// is below `P^len`.
pub proof fn lemma_encode_digits(m: int, a: Seq<Entry>)
    requires
        m >= 1,
        forall|s: int| 0 <= s < a.len() ==> #[trigger] entry_ok(m, a[s]),
    ensures
        0 <= encode(m, a) < pow(row_choices(m), a.len()),
        forall|k: int| 0 <= k < a.len() ==> #[trigger] digit(m, encode(m, a), k as nat) == entry_code(m, a[k]),
    decreases a.len(),
{
    let p = row_choices(m);
    assert(p > 0) by (nonlinear_arith)
        requires p == 6 * m * m, m >= 1;
    if a.len() == 0 {
        reveal(pow);
    } else {
        let rest = a.drop_first();
        assert forall|s: int| 0 <= s < rest.len() implies #[trigger] entry_ok(m, rest[s]) by {
            assert(rest[s] == a[s + 1]);
        }
        lemma_encode_digits(m, rest);
        let e = encode(m, rest);
        let c0 = entry_code(m, a[0]);
        lemma_entry_code(m, a[0]);
        let x = encode(m, a);
        assert(x == e * p + c0) by (nonlinear_arith)
            requires x == c0 + p * e;
        lemma_fundamental_div_mod_converse(x, p, e, c0);
        lemma_pow_succ(p, (a.len() - 1) as nat);
        let pr = pow(p, (a.len() - 1) as nat);
        assert(0 <= x < p * pr) by (nonlinear_arith)
            requires x == c0 + p * e, 0 <= c0 < p, 0 <= e < pr;
        assert forall|k: int| 0 <= k < a.len() implies #[trigger] digit(m, x, k as nat) == entry_code(m, a[k]) by {
            if k == 0 {
                reveal(pow);
                assert(pow(p, 0) == 1);
                assert(x / 1 == x);
            } else {
                lemma_digit_shift(m, x, (k - 1) as nat);
                assert(digit(m, e, (k - 1) as nat) == entry_code(m, rest[k - 1]));
                assert(rest[k - 1] == a[k]);
            }
        }
    }
}

/// Numbering the automaton numbered `x` gives `x` back.
pub proof fn lemma_encode_decode(m: int, x: int, k: nat)
    requires
        1 <= m <= usize::MAX,
        0 <= x < pow(row_choices(m), k),
    ensures
        encode(m, decode_prefix(m, x, k)) == x,
        forall|s: int| 0 <= s < k ==> #[trigger] entry_ok(m, decode_prefix(m, x, k)[s]),
    decreases k,
{
    let p = row_choices(m);
    assert(p > 0) by (nonlinear_arith)
        requires p == 6 * m * m, m >= 1;
    let sq = decode_prefix(m, x, k);
    if k == 0 {
        reveal(pow);
        assert(x == 0);
    } else {
        lemma_pow_succ(p, (k - 1) as nat);
        let pr = pow(p, (k - 1) as nat);
        lemma_pow_positive(p, (k - 1) as nat);
        lemma_fundamental_div_mod(x, p);
        let q = x / p;
        let r = x % p;
        assert(0 <= q < pr) by (nonlinear_arith)
            requires x == p * q + r, 0 <= r < p, 0 <= x < p * pr, p > 0, pr > 0;
        lemma_encode_decode(m, q, (k - 1) as nat);
        assert(sq.drop_first() =~= decode_prefix(m, q, (k - 1) as nat)) by {
            assert forall|t: int| 0 <= t < k - 1 implies sq.drop_first()[t] == decode_prefix(m, q, (k - 1) as nat)[t] by {
                lemma_digit_shift(m, x, t as nat);
            }
        }
        assert(digit(m, x, 0) == r) by {
            reveal(pow);
            assert(x / 1 == x);
        }
        lemma_code_entry(m, r);
        assert(sq[0] == entry_of_code(m, r));
        assert forall|s: int| 0 <= s < k implies #[trigger] entry_ok(m, sq[s]) by {
            if s == 0 {
            } else {
                assert(sq[s] == sq.drop_first()[s - 1]);
            }
        }
        assert(encode(m, sq) == r + p * q);
    }
}

/// Every well-formed automaton with `m >= 1` states has a number below
/// `row_choices(m)^m`, and the automaton with that number is that automaton:
/// `enumerate(m)` lists every automaton.
pub proof fn lemma_every_automaton_listed(m: int, a: Seq<Entry>)
    requires
        m >= 1,
        a.len() == m,
        forall|s: int| 0 <= s < a.len() ==> #[trigger] entry_ok(m, a[s]),
    ensures
        0 <= encode(m, a) < pow(row_choices(m), m as nat),
        decode(m, encode(m, a)) == a,
{
    lemma_encode_digits(m, a);
    let x = encode(m, a);
    assert(decode(m, x) =~= a) by {
        assert forall|t: int| 0 <= t < m implies decode(m, x)[t] == a[t] by {
            assert(digit(m, x, t as nat) == entry_code(m, a[t]));
            lemma_entry_code(m, a[t]);
        }
    }
}

/// Distinct numbers below `row_choices(m)^m` name distinct well-formed
/// automata: `enumerate(m)` lists no automaton twice.
pub proof fn lemma_listed_automata_distinct(m: int, i: int, j: int)
    requires
        1 <= m <= usize::MAX,
        0 <= i < pow(row_choices(m), m as nat),
        0 <= j < pow(row_choices(m), m as nat),
        i != j,
    ensures
        decode(m, i) != decode(m, j),
        automaton_ok(decode(m, i)),
{
    lemma_encode_decode(m, i, m as nat);
    lemma_encode_decode(m, j, m as nat);
}

/// Every automaton with `m` states, in the order of their numbers: entry
/// `idx` is the automaton numbered `idx`, for `idx < (6 m^2)^m`.
pub fn enumerate(m: usize) -> (r: Vec<Vec<Entry>>)
    requires
        pow(row_choices(m as int), m as nat) <= usize::MAX,
    ensures
        r@.len() == pow(row_choices(m as int), m as nat),
        forall|idx: int| 0 <= idx < r@.len() ==> (#[trigger] r@[idx])@ == decode(m as int, idx),
{
    let ghost p = row_choices(m as int);
    proof {
        if m >= 1 {
            assert(p >= 1 && 6 * m <= p) by (nonlinear_arith)
                requires p == 6 * m * m, m >= 1;
            lemma_pow_increases(p as nat, 1, m as nat);
            reveal(pow);
            assert(pow(p, 1) == p * pow(p, 0));
        } else {
            assert(p == 0) by (nonlinear_arith)
                requires p == 6 * m * m, m == 0;
        }
    }
    let per_state = 6 * m * m;
    let mut total: usize = 1;
    let mut k: usize = 0;
    proof {
        reveal(pow);
    }
    while k < m
        invariant
            k <= m,
            per_state == p,
            p == row_choices(m as int),
            pow(p, m as nat) <= usize::MAX,
            total == pow(p, k as nat),
            m >= 1 ==> p >= 1,
        decreases m - k,
    {
        proof {
            lemma_pow_succ(p, k as nat);
            lemma_pow_increases(p as nat, (k + 1) as nat, m as nat);
        }
        total = total * per_state;
        k += 1;
    }
    let mut result: Vec<Vec<Entry>> = Vec::new();
    let mut idx: usize = 0;
    while idx < total
        invariant
            idx <= total,
            total == pow(p, m as nat),
            per_state == p,
            p == row_choices(m as int),
            m >= 1 ==> p >= 1,
            result@.len() == idx,
            forall|t: int| 0 <= t < idx ==> (#[trigger] result@[t])@ == decode(m as int, t),
        decreases total - idx,
    {
        let mut automaton: Vec<Entry> = Vec::new();
        let mut rem = idx;
        let mut valid = true;
        let mut s: usize = 0;
        proof {
            reveal(pow);
            assert(idx as int / 1 == idx);
        }
        while s < m
            invariant
                s <= m,
                per_state == p,
                p == row_choices(m as int),
                m >= 1 ==> p >= 1,
                valid,
                rem == idx as int / pow(p, s as nat),
                automaton@ == decode_prefix(m as int, idx as int, s as nat),
            ensures
                s == m,
                valid,
                automaton@ == decode_prefix(m as int, idx as int, m as nat),
            decreases m - s,
        {
            proof {
                lemma_digit_shift(m as int, idx as int, s as nat);
                lemma_code_entry(m as int, rem as int % p);
                assert(2 * m <= per_state) by (nonlinear_arith)
                    requires per_state == 6 * m * m, m >= 1;
            }
            let state_idx = rem % per_state;
            rem = rem / per_state;
            let wall_part = state_idx % (2 * m);
            let no_wall_part = state_idx / (2 * m);
            let a0 = (no_wall_part / m) as u8;
            let b0 = no_wall_part % m;
            let a1_raw = wall_part / m;
            let b1 = wall_part % m;
            let a1 = (a1_raw + 1) as u8;
            if a0 > 2 || a1 > 2 {
                valid = false;
                break;
            }
            automaton.push((a0, b0, a1, b1));
            proof {
                assert(automaton@ =~= decode_prefix(m as int, idx as int, (s + 1) as nat));
            }
            s += 1;
        }
        if valid {
            result.push(automaton);
        }
        proof {
            if m == 0 {
                assert(automaton@ =~= decode(m as int, idx as int));
            }
        }
        idx += 1;
    }
    result
}

/// The letter of an action: F (forward), R (right), L (left), `?` otherwise.
pub fn action_char(a: u8) -> (c: char)
    ensures
        c == (if a == 0 { 'F' } else if a == 1 { 'R' } else if a == 2 { 'L' } else { '?' }),
{
    match a {
        0 => 'F',
        1 => 'R',
        2 => 'L',
        _ => '?',
    }
}

/// Whether the wall rows have the shape `has_wall_ahead` reads.
pub fn grid_rows_ok(v: &[Vec<bool>], h: &[Vec<bool>]) -> (r: bool)
    ensures
        r == bool_grid_ok(v@, h@),
{
    if v.len() < N || h.len() < N - 1 {
        return false;
    }
    let mut i: usize = 0;
    while i < N
        invariant
            i <= N,
            v@.len() >= N,
            forall|r: int| 0 <= r < i ==> (#[trigger] v@[r])@.len() >= N - 1,
        decreases N - i,
    {
        if v[i].len() < N - 1 {
            return false;
        }
        i += 1;
    }
    let mut i: usize = 0;
    while i < N - 1
        invariant
            i <= N - 1,
            h@.len() >= N - 1,
            forall|r: int| 0 <= r < i ==> (#[trigger] h@[r])@.len() >= N,
        decreases N - 1 - i,
    {
        if h[i].len() < N {
            return false;
        }
        i += 1;
    }
    true
}

/// The marks of a line: `'1'` is a wall.
pub open spec fn marks(l: Seq<char>) -> Seq<bool> {
    l.map_values(|ch: char| ch == '1')
}

/// The marks of the trimmed characters `cs[a..b]`.
fn mark_line(cs: &Vec<char>, a: usize, b: usize) -> (row: Vec<bool>)
    requires
        a <= b <= cs.len(),
    ensures
        row@ == marks(trim(cs@.subrange(a as int, b as int))),
{
    let (x, y) = trim_bounds(cs, a, b);
    let mut row: Vec<bool> = Vec::new();
    let mut j = x;
    while j < y
        invariant
            x <= j <= y <= cs.len(),
            row@ == marks(cs@.subrange(x as int, j as int)),
        decreases y - j,
    {
        row.push(cs[j] == '1');
        proof {
            assert(marks(cs@.subrange(x as int, j + 1)) =~= marks(cs@.subrange(x as int, j as int)).push(cs@[j as int] == '1'));
        }
        j += 1;
    }
    row
}

/// Reads `count` lines of marks, from line `k` of the text which starts at `pos`.
fn mark_lines(cs: &Vec<char>, pos: usize, k: usize, count: usize) -> (r: (Vec<Vec<bool>>, usize))
    requires
        cs@.len() < usize::MAX,
        pos == line_start(cs@, k as int),
        pos <= cs@.len() + 1,
        k + count <= usize::MAX,
    ensures
        r.0@.len() == count,
        forall|i: int| 0 <= i < count ==> (#[trigger] r.0@[i])@ == marks(trim(line(cs@, k + i))),
        r.1 == line_start(cs@, k + count),
        r.1 <= cs@.len() + 1,
{
    let ghost t = cs@;
    let mut rows: Vec<Vec<bool>> = Vec::new();
    let mut p = pos;
    let mut i: usize = 0;
    while i < count
        invariant
            t == cs@,
            cs@.len() < usize::MAX,
            i <= count,
            k + count <= usize::MAX,
            p == line_start(t, k + i),
            p <= cs@.len() + 1,
            rows@.len() == i,
            forall|x: int| 0 <= x < i ==> (#[trigger] rows@[x])@ == marks(trim(line(t, k + x))),
        decreases count - i,
    {
        if p <= cs.len() {
            let e = find_line_end(cs, p);
            proof {
                lemma_nl_after(t, p as int);
            }
            let row = mark_line(cs, p, e);
            rows.push(row);
            p = e + 1;
        } else {
            proof {
                assert(line(t, k + i) =~= Seq::<char>::empty());
                assert(trim(line(t, k + i)) =~= Seq::<char>::empty());
                assert(marks(Seq::<char>::empty()) =~= Seq::<bool>::empty());
            }
            rows.push(Vec::new());
        }
        i += 1;
    }
    (rows, p)
}

/// Reads a grid of walls from an instance text: after a first line that is
/// skipped, `N` lines of vertical walls and `N - 1` lines of horizontal
/// walls; each line is trimmed and each of its characters is a wall when it
/// is `'1'`. A missing line gives an empty row.
pub fn parse_grid(content: &str) -> (r: (Vec<Vec<bool>>, Vec<Vec<bool>>))
    requires
        content@.len() < usize::MAX,
    ensures
        r.0@.len() == N,
        r.1@.len() == N - 1,
        forall|i: int| 0 <= i < N ==> (#[trigger] r.0@[i])@ == marks(trim(line(content@, 1 + i))),
        forall|i: int| 0 <= i < N - 1 ==> (#[trigger] r.1@[i])@ == marks(trim(line(content@, 1 + N + i))),
{
    let cs = chars_of(content);
    let mut pos: usize = 0;
    if cs.len() > 0 {
        pos = find_line_end(&cs, 0) + 1;
    } else {
        pos = 1;
    }
    proof {
        assert(line_start(cs@, 0) == 0);
        if cs@.len() > 0 {
            lemma_nl_after(cs@, 0);
        }
        assert(pos == line_start(cs@, 1));
    }
    let (v, p2) = mark_lines(&cs, pos, 1, N);
    let (h, _) = mark_lines(&cs, p2, 1 + N, N - 1);
    (v, h)
}

/// Every second row and column, in all four directions (`(2a, 2b, d)` at
/// index `40a + 4b + d`).
pub open spec fn sample_positions_seq() -> Seq<(usize, usize, usize)> {
    Seq::new(400, |x: int| ((2 * (x / 40)) as usize, (2 * ((x / 4) % 10)) as usize, (x % 4) as usize))
}

/// Each cell in all four directions (`(r, c, d)` at index `80r + 4c + d`).
pub open spec fn all_positions_seq() -> Seq<(usize, usize, usize)> {
    Seq::new(1600, |x: int| ((x / 80) as usize, ((x / 4) % 20) as usize, (x % 4) as usize))
}

/// Both lists of starting points are on the board.
pub proof fn lemma_positions_on_board()
    ensures
        positions_ok(all_positions_seq()),
        positions_ok(sample_positions_seq()),
{
    assert forall|x: int| 0 <= x < 1600 implies (#[trigger] all_positions_seq()[x]).0 < N && all_positions_seq()[x].1
        < N && all_positions_seq()[x].2 < 4 by {
        assert(x / 80 < 20) by (nonlinear_arith)
            requires 0 <= x < 1600;
        assert(0 <= x / 80) by (nonlinear_arith)
            requires 0 <= x;
    }
    assert forall|x: int| 0 <= x < 400 implies (#[trigger] sample_positions_seq()[x]).0 < N
        && sample_positions_seq()[x].1 < N && sample_positions_seq()[x].2 < 4 by {
        assert(x / 40 < 10) by (nonlinear_arith)
            requires 0 <= x < 400;
        assert(0 <= x / 40) by (nonlinear_arith)
            requires 0 <= x;
    }
}

/// The starting points tried for automata with `m` states: every one for up
/// to two states, the sample for more.
pub fn positions_for(m: usize) -> (r: Vec<(usize, usize, usize)>)
    ensures
        r@ == (if m <= 2 { all_positions_seq() } else { sample_positions_seq() }),
        positions_ok(r@),
{
    proof {
        lemma_positions_on_board();
    }
    if m <= 2 {
        all_positions()
    } else {
        sample_positions()
    }
}

/// The starting points sampled for larger automata: every second row and
/// column, in all four directions.
pub fn sample_positions() -> (r: Vec<(usize, usize, usize)>)
    ensures
        r@ == sample_positions_seq(),
{
    let mut pos: Vec<(usize, usize, usize)> = Vec::new();
    let mut r: usize = 0;
    while r < N
        invariant
            r <= N + 1,
            r % 2 == 0,
            pos@.len() == 20 * r,
            forall|x: int| 0 <= x < pos@.len() ==> #[trigger] pos@[x] == ((2 * (x / 40)) as usize, (2 * ((x / 4) % 10)) as usize, (x % 4) as usize),
        decreases N + 1 - r,
    {
        let mut c: usize = 0;
        while c < N
            invariant
                r < N,
                r % 2 == 0,
                c <= N + 1,
                c % 2 == 0,
                pos@.len() == 20 * r + 2 * c,
                forall|x: int| 0 <= x < pos@.len() ==> #[trigger] pos@[x] == ((2 * (x / 40)) as usize, (2 * ((x / 4) % 10)) as usize, (x % 4) as usize),
            decreases N + 1 - c,
        {
            let mut d: usize = 0;
            while d < 4
                invariant
                    r < N,
                    c < N,
                    r % 2 == 0,
                    c % 2 == 0,
                    d <= 4,
                    pos@.len() == 20 * r + 2 * c + d,
                    forall|x: int| 0 <= x < pos@.len() ==> #[trigger] pos@[x] == ((2 * (x / 40)) as usize, (2 * ((x / 4) % 10)) as usize, (x % 4) as usize),
                decreases 4 - d,
            {
                let ghost x = pos@.len() as int;
                pos.push((r, c, d));
                proof {
                    assert(x / 40 == r / 2 && (x / 4) % 10 == c / 2 && x % 4 == d) by (nonlinear_arith)
                        requires x == 20 * r + 2 * c + d, r % 2 == 0, c % 2 == 0, 0 <= c < 20, 0 <= d < 4, r >= 0;
                }
                d += 1;
            }
            c += 2;
        }
        r += 2;
    }
    proof {
        assert(pos@ =~= Seq::new(400, |x: int| ((2 * (x / 40)) as usize, (2 * ((x / 4) % 10)) as usize, (x % 4) as usize)));
    }
    pos
}

/// Every starting point: each cell in all four directions.
pub fn all_positions() -> (r: Vec<(usize, usize, usize)>)
    ensures
        r@ == all_positions_seq(),
{
    let mut pos: Vec<(usize, usize, usize)> = Vec::new();
    let mut r: usize = 0;
    while r < N
        invariant
            r <= N,
            pos@.len() == 80 * r,
            forall|x: int| 0 <= x < pos@.len() ==> #[trigger] pos@[x] == ((x / 80) as usize, ((x / 4) % 20) as usize, (x % 4) as usize),
        decreases N - r,
    {
        let mut c: usize = 0;
        while c < N
            invariant
                r < N,
                c <= N,
                pos@.len() == 80 * r + 4 * c,
                forall|x: int| 0 <= x < pos@.len() ==> #[trigger] pos@[x] == ((x / 80) as usize, ((x / 4) % 20) as usize, (x % 4) as usize),
            decreases N - c,
        {
            let mut d: usize = 0;
            while d < 4
                invariant
                    r < N,
                    c < N,
                    d <= 4,
                    pos@.len() == 80 * r + 4 * c + d,
                    forall|x: int| 0 <= x < pos@.len() ==> #[trigger] pos@[x] == ((x / 80) as usize, ((x / 4) % 20) as usize, (x % 4) as usize),
                decreases 4 - d,
            {
                let ghost x = pos@.len() as int;
                pos.push((r, c, d));
                proof {
                    assert(x / 80 == r && (x / 4) % 20 == c && x % 4 == d) by (nonlinear_arith)
                        requires x == 80 * r + 4 * c + d, 0 <= c < 20, 0 <= d < 4, r >= 0;
                }
                d += 1;
            }
            c += 1;
        }
        r += 1;
    }
    proof {
        assert(pos@ =~= Seq::new(1600, |x: int| ((x / 80) as usize, ((x / 4) % 20) as usize, (x % 4) as usize)));
    }
    pos
}

/// At most every cell of the board is patrolled.
pub proof fn lemma_ecycle_cover_bound(v: Seq<Vec<bool>>, h: Seq<Vec<bool>>, a: Seq<Entry>, st0: EState)
    requires
        automaton_ok(a),
        estate_ok(a.len() as int, st0),
    ensures
        ecycle_cover(v, h, a, st0) <= CELLS,
{
    let (i, j) = first_repeat_e(v, h, a, st0);
    let cc = ecells_between(v, h, a, st0, i, j);
    assert(cc.subset_of(set_int_range(0, CELLS as int))) by {
        assert forall|x: int| cc.contains(x) implies set_int_range(0, CELLS as int).contains(x) by {
            let u = choose|u: int| i <= u < j && ecell(etraj(v, h, a, st0, u)) == x;
            lemma_etraj_ok(v, h, a, st0, u);
            let st = etraj(v, h, a, st0, u);
            assert(0 <= st.0 * 20 + st.1 < 400) by (nonlinear_arith)
                requires 0 <= st.0 < 20, 0 <= st.1 < 20;
        }
    }
    lemma_int_range(0, CELLS as int);
    lemma_len_subset(cc, set_int_range(0, CELLS as int));
}

/// The largest number of patrolled cells over the first `k` starting points.
pub open spec fn best_cover(v: Seq<Vec<bool>>, h: Seq<Vec<bool>>, a: Seq<Entry>, ps: Seq<(usize, usize, usize)>, k: int) -> int
    decreases k,
{
    if k <= 0 {
        0
    } else {
        let prev = best_cover(v, h, a, ps, k - 1);
        let p = ps[k - 1];
        let cov = ecycle_cover(v, h, a, (p.0 as int, p.1 as int, p.2 as int, 0)) as int;
        if cov > prev { cov } else { prev }
    }
}

/// The cells patrolled from starting point `p` (state 0).
pub open spec fn cover_from(v: Seq<Vec<bool>>, h: Seq<Vec<bool>>, a: Seq<Entry>, p: (usize, usize, usize)) -> int {
    ecycle_cover(v, h, a, (p.0 as int, p.1 as int, p.2 as int, 0)) as int
}

/// The best cover over the first `k` starting points is at least the cover
/// from each of them, and is the cover from one of them (0 with none).
pub proof fn lemma_best_cover_is_max(v: Seq<Vec<bool>>, h: Seq<Vec<bool>>, a: Seq<Entry>, ps: Seq<(usize, usize, usize)>, k: int)
    requires
        0 <= k <= ps.len(),
    ensures
        forall|x: int| 0 <= x < k ==> best_cover(v, h, a, ps, k) >= cover_from(v, h, a, #[trigger] ps[x]),
        k == 0 ==> best_cover(v, h, a, ps, k) == 0,
        k > 0 ==> exists|x: int| 0 <= x < k && cover_from(v, h, a, #[trigger] ps[x]) == best_cover(v, h, a, ps, k),
    decreases k,
{
    if k > 0 {
        lemma_best_cover_is_max(v, h, a, ps, k - 1);
        let b = best_cover(v, h, a, ps, k);
        assert(b >= cover_from(v, h, a, ps[k - 1]));
        if b != cover_from(v, h, a, ps[k - 1]) {
            assert(k - 1 > 0);
            let x = choose|x: int| 0 <= x < k - 1 && cover_from(v, h, a, #[trigger] ps[x]) == best_cover(v, h, a, ps, k - 1);
            assert(cover_from(v, h, a, ps[x]) == b);
        }
    }
}

/// Every starting point is on the board.
pub open spec fn positions_ok(ps: Seq<(usize, usize, usize)>) -> bool {
    forall|x: int| 0 <= x < ps.len() ==> (#[trigger] ps[x]).0 < N && ps[x].1 < N && ps[x].2 < 4
}

/// The most cells the automaton patrols on one grid from any of the starting
/// points (0 when there is none).
pub fn best_coverage(
    v: &[Vec<bool>],
    h: &[Vec<bool>],
    automaton: &[Entry],
    positions: &[(usize, usize, usize)],
) -> (r: usize)
    requires
        bool_grid_ok(v@, h@),
        automaton_ok(automaton@),
        N * N * 4 * automaton@.len() + 1 <= u32::MAX,
        positions_ok(positions@),
    ensures
        r == best_cover(v@, h@, automaton@, positions@, positions@.len() as int),
        r <= CELLS,
        forall|x: int| 0 <= x < positions@.len() ==> r >= cover_from(v@, h@, automaton@, #[trigger] positions@[x]),
        positions@.len() > 0 ==> exists|x: int|
            0 <= x < positions@.len() && cover_from(v@, h@, automaton@, #[trigger] positions@[x]) == r,
{
    proof {
        lemma_best_cover_is_max(v@, h@, automaton@, positions@, positions@.len() as int);
    }
    let mut best: usize = 0;
    let mut x: usize = 0;
    while x < positions.len()
        invariant
            x <= positions@.len(),
            bool_grid_ok(v@, h@),
            automaton_ok(automaton@),
            N * N * 4 * automaton@.len() + 1 <= u32::MAX,
            positions_ok(positions@),
            best == best_cover(v@, h@, automaton@, positions@, x as int),
            best <= CELLS,
        decreases positions@.len() - x,
    {
        let (r, c, d) = positions[x];
        proof {
            assert(positions@[x as int].0 < N);
        }
        let cov = simulate(v, h, automaton, r, c, d);
        proof {
            lemma_ecycle_cover_bound(v@, h@, automaton@, (r as int, c as int, d as int, 0));
        }
        if cov > best {
            best = cov;
        }
        x += 1;
    }
    best
}

/// Sum over the first `k` grids of the most cells patrolled on each.
pub open spec fn total_cover(
    grids: Seq<(Vec<Vec<bool>>, Vec<Vec<bool>>)>,
    a: Seq<Entry>,
    ps: Seq<(usize, usize, usize)>,
    k: int,
) -> int
    decreases k,
{
    if k <= 0 {
        0
    } else {
        total_cover(grids, a, ps, k - 1) + best_cover(grids[k - 1].0@, grids[k - 1].1@, a, ps, ps.len() as int)
    }
}

/// Sum over all grids of the most cells the automaton patrols on each from
/// any of the starting points.
pub fn total_best_coverage(
    grids: &[(Vec<Vec<bool>>, Vec<Vec<bool>>)],
    automaton: &[Entry],
    positions: &[(usize, usize, usize)],
) -> (r: usize)
    requires
        forall|g: int| 0 <= g < grids@.len() ==> bool_grid_ok((#[trigger] grids@[g]).0@, grids@[g].1@),
        automaton_ok(automaton@),
        N * N * 4 * automaton@.len() + 1 <= u32::MAX,
        positions_ok(positions@),
        grids@.len() * CELLS <= usize::MAX,
    ensures
        r == total_cover(grids@, automaton@, positions@, grids@.len() as int),
{
    let mut total: usize = 0;
    let mut g: usize = 0;
    while g < grids.len()
        invariant
            g <= grids@.len(),
            forall|q: int| 0 <= q < grids@.len() ==> bool_grid_ok((#[trigger] grids@[q]).0@, grids@[q].1@),
            automaton_ok(automaton@),
            N * N * 4 * automaton@.len() + 1 <= u32::MAX,
            positions_ok(positions@),
            grids@.len() * CELLS <= usize::MAX,
            total == total_cover(grids@, automaton@, positions@, g as int),
            total <= g * CELLS,
        decreases grids@.len() - g,
    {
        let b = best_coverage(&grids[g].0, &grids[g].1, automaton, positions);
        proof {
            assert((g + 1) * CELLS <= grids@.len() * CELLS) by (nonlinear_arith)
                requires g + 1 <= grids@.len();
        }
        total = total + b;
        g += 1;
    }
    total
}

/// An automaton with `m` states is kept when it patrols, on average over the
/// `grids` instances, at least 3 cells per state: `total >= 3 m grids`
/// (with no instance there is no average, and nothing is kept).
pub fn efficient_enough(total: usize, m: usize, grids: usize) -> (r: bool)
    ensures
        r == (grids > 0 && total >= 3 * m * grids),
{
    if grids == 0 {
        return false;
    }
    let mw = m as u128;
    let gw = grids as u128;
    assert(mw * gw <= 0xffff_ffff_ffff_ffffu128 * 0xffff_ffff_ffff_ffffu128) by (nonlinear_arith)
        requires mw <= 0xffff_ffff_ffff_ffffu128, gw <= 0xffff_ffff_ffff_ffffu128;
    let per: u128 = mw * gw;
    let third: u128 = (total as u128) / 3;
    assert((third >= per) == (total >= 3 * m * grids)) by (nonlinear_arith)
        requires third == total / 3, per == m * grids, total >= 0;
    third >= per
}

/// Position `a` comes before position `b` in a ranking by `keys`: a larger
/// key first, the earlier position among equal keys.
pub open spec fn ranks_before(keys: Seq<usize>, a: int, b: int) -> bool {
    keys[a] > keys[b] || (keys[a] == keys[b] && a < b)
}

/// The positions marked in `keep`, ranked by their keys from the largest,
/// equal keys in the order of their positions (what a stable sort by decreasing key
/// gives).
pub fn rank_desc(keys: &Vec<usize>, keep: &Vec<bool>) -> (r: Vec<usize>)
    requires
        keep@.len() == keys@.len(),
    ensures
        forall|p: int, q: int| 0 <= p < q < r@.len() ==> ranks_before(keys@, r@[p] as int, r@[q] as int),
        forall|x: int| (exists|p: int| 0 <= p < r@.len() && r@[p] == x) <==> (0 <= x < keys@.len() && keep@[x]),
        forall|p: int| 0 <= p < r@.len() ==> r@[p] < keys@.len(),
{
    let mut r: Vec<usize> = Vec::new();
    let mut x: usize = 0;
    while x < keys.len()
        invariant
            x <= keys@.len(),
            keep@.len() == keys@.len(),
            forall|p: int, q: int| 0 <= p < q < r@.len() ==> ranks_before(keys@, r@[p] as int, r@[q] as int),
            forall|y: int| (exists|p: int| 0 <= p < r@.len() && r@[p] == y) <==> (0 <= y < x && keep@[y]),
            forall|p: int| 0 <= p < r@.len() ==> r@[p] < x,
        decreases keys@.len() - x,
    {
        if keep[x] {
            let k = keys[x];
            let mut pos: usize = 0;
            while pos < r.len() && keys[r[pos]] >= k
                invariant
                    pos <= r@.len(),
                    x < keys@.len(),
                    k == keys@[x as int],
                    forall|p: int| 0 <= p < r@.len() ==> r@[p] < x,
                    forall|p: int| 0 <= p < pos ==> keys@[r@[p] as int] >= k,
                decreases r@.len() - pos,
            {
                pos += 1;
            }
            let ghost old_r = r@;
            proof {
                assert forall|p: int| pos <= p < old_r.len() implies keys@[old_r[p] as int] < k by {
                    if pos < old_r.len() {
                        assert(keys@[old_r[pos as int] as int] < k);
                        if p > pos {
                            assert(ranks_before(keys@, old_r[pos as int] as int, old_r[p] as int));
                        }
                    }
                }
            }
            r.insert(pos, x);
            proof {
                assert(r@ == old_r.insert(pos as int, x));
                assert forall|p: int, q: int| 0 <= p < q < r@.len() implies ranks_before(keys@, r@[p] as int, r@[q] as int) by {
                    if q < pos {
                        assert(r@[p] == old_r[p] && r@[q] == old_r[q]);
                    } else if q == pos {
                        assert(r@[p] == old_r[p]);
                    } else if p == pos {
                        assert(r@[q] == old_r[q - 1]);
                    } else if p < pos {
                        assert(r@[p] == old_r[p] && r@[q] == old_r[q - 1]);
                    } else {
                        assert(r@[p] == old_r[p - 1] && r@[q] == old_r[q - 1]);
                    }
                }
                assert forall|y: int| (exists|p: int| 0 <= p < r@.len() && r@[p] == y) <==> (0 <= y < x + 1 && keep@[y]) by {
                    if exists|p: int| 0 <= p < r@.len() && r@[p] == y {
                        let p = choose|p: int| 0 <= p < r@.len() && r@[p] == y;
                        if p < pos {
                            assert(old_r[p] == y);
                        } else if p > pos {
                            assert(old_r[p - 1] == y);
                        }
                    }
                    if 0 <= y < x && keep@[y] {
                        let p = choose|p: int| 0 <= p < old_r.len() && old_r[p] == y;
                        if p < pos {
                            assert(r@[p] == y);
                        } else {
                            assert(r@[p + 1] == y);
                        }
                    }
                    if y == x {
                        assert(r@[pos as int] == y);
                    }
                }
                assert forall|p: int| 0 <= p < r@.len() implies r@[p] < x + 1 by {
                    if p < pos {
                        assert(r@[p] == old_r[p]);
                    } else if p > pos {
                        assert(r@[p] == old_r[p - 1]);
                    }
                }
            }
        } else {
            proof {
                assert forall|y: int| (exists|p: int| 0 <= p < r@.len() && r@[p] == y) <==> (0 <= y < x + 1 && keep@[y]) by {
                    if exists|p: int| 0 <= p < r@.len() && r@[p] == y {
                        let p = choose|p: int| 0 <= p < r@.len() && r@[p] == y;
                        assert(r@[p] < x);
                    }
                }
            }
        }
        x += 1;
    }
    r
}

/// The number of ranked candidates that are scored again: the first 100, or
/// all when there are fewer.
pub open spec fn refine_count(len: int) -> int {
    if len < 100 { len } else { 100 }
}

/// The totals of the first `n` ranked candidates over every starting point.
pub open spec fn refined_keys(
    grids: Seq<(Vec<Vec<bool>>, Vec<Vec<bool>>)>,
    automata: Seq<Vec<Entry>>,
    results: Seq<(usize, usize)>,
    n: int,
) -> Seq<usize> {
    Seq::new(n as nat, |p: int| total_cover(grids, automata[results[p].1 as int]@, all_positions_seq(), grids.len() as int) as usize)
}

/// `ord` lists every position of `keys` once, ranked by `ranks_before`.
pub open spec fn is_ranking(keys: Seq<usize>, ord: Seq<int>) -> bool {
    &&& ord.len() == keys.len()
    &&& forall|q: int| 0 <= q < ord.len() ==> 0 <= #[trigger] ord[q] < keys.len()
    &&& forall|p: int, q: int| 0 <= p < q < ord.len() ==> ranks_before(keys, #[trigger] ord[p], #[trigger] ord[q])
}

/// A ranking of every kept position lists each position once: its length is
/// the number of kept positions, here all `n` of them.
proof fn lemma_ranking_len(order: Seq<usize>, keys: Seq<usize>, keep: Seq<bool>, n: int)
    requires
        0 <= n,
        keys.len() == n,
        keep.len() == n,
        forall|x: int| 0 <= x < n ==> #[trigger] keep[x],
        forall|p: int, q: int| 0 <= p < q < order.len() ==> ranks_before(keys, order[p] as int, order[q] as int),
        forall|x: int| (exists|p: int| 0 <= p < order.len() && order[p] == x) <==> (0 <= x < keys.len() && keep[x]),
        forall|p: int| 0 <= p < order.len() ==> order[p] < n,
    ensures
        order.len() == n,
{
    let s = order.map_values(|x: usize| x as int);
    assert(s.no_duplicates()) by {
        assert forall|i: int, j: int| 0 <= i < s.len() && 0 <= j < s.len() && i != j implies s[i] != s[j] by {
            if i < j {
                assert(ranks_before(keys, order[i] as int, order[j] as int));
            } else {
                assert(ranks_before(keys, order[j] as int, order[i] as int));
            }
        }
    }
    s.unique_seq_to_set();
    assert(s.to_set() =~= set_int_range(0, n)) by {
        assert forall|x: int| s.to_set().contains(x) implies set_int_range(0, n).contains(x) by {
            assert(s.contains(x));
            let p = choose|p: int| 0 <= p < s.len() && s[p] == x;
            assert(order[p] == x);
        }
        assert forall|x: int| set_int_range(0, n).contains(x) implies s.to_set().contains(x) by {
            assert(keep[x]);
            assert(exists|p: int| 0 <= p < order.len() && order[p] == x);
            let p = choose|p: int| 0 <= p < order.len() && order[p] == x;
            assert(s[p] == x);
            assert(s.contains(x));
        }
    }
    lemma_int_range(0, n);
}

/// The first `min(100, len)` candidates of a ranking, scored again over every
/// starting point and ranked by the new totals, largest first and equal
/// totals in their former order: pairs (new total, automaton number).
pub fn refine_top(
    grids: &[(Vec<Vec<bool>>, Vec<Vec<bool>>)],
    automata: &Vec<Vec<Entry>>,
    results: &Vec<(usize, usize)>,
) -> (r: Vec<(usize, usize)>)
    requires
        forall|g: int| 0 <= g < grids@.len() ==> bool_grid_ok((#[trigger] grids@[g]).0@, grids@[g].1@),
        grids@.len() * CELLS <= usize::MAX,
        forall|p: int| 0 <= p < results@.len() ==> (#[trigger] results@[p]).1 < automata@.len(),
        forall|i: int|
            0 <= i < automata@.len() ==> automaton_ok((#[trigger] automata@[i])@) && N * N * 4 * automata@[i]@.len()
                + 1 <= u32::MAX,
    ensures
        ({
            let n = refine_count(results@.len() as int);
            let keys = refined_keys(grids@, automata@, results@, n);
            &&& r@.len() == n
            &&& exists|ord: Seq<int>|
                #[trigger] is_ranking(keys, ord) && forall|q: int|
                    0 <= q < n ==> #[trigger] r@[q] == (keys[ord[q]], results@[ord[q]].1)
        }),
{
    let n: usize = if results.len() < 100 { results.len() } else { 100 };
    let ghost keys = refined_keys(grids@, automata@, results@, n as int);
    let all = all_positions();
    proof {
        lemma_positions_on_board();
    }
    let mut totals: Vec<usize> = Vec::new();
    let mut keep: Vec<bool> = Vec::new();
    let mut p: usize = 0;
    while p < n
        invariant
            p <= n,
            n <= results@.len(),
            n == refine_count(results@.len() as int),
            keys == refined_keys(grids@, automata@, results@, n as int),
            all@ == all_positions_seq(),
            positions_ok(all@),
            forall|g: int| 0 <= g < grids@.len() ==> bool_grid_ok((#[trigger] grids@[g]).0@, grids@[g].1@),
            grids@.len() * CELLS <= usize::MAX,
            forall|q: int| 0 <= q < results@.len() ==> (#[trigger] results@[q]).1 < automata@.len(),
            forall|i: int|
                0 <= i < automata@.len() ==> automaton_ok((#[trigger] automata@[i])@) && N * N * 4
                    * automata@[i]@.len() + 1 <= u32::MAX,
            totals@ == keys.take(p as int),
            keep@.len() == p,
            forall|q: int| 0 <= q < p ==> #[trigger] keep@[q],
        decreases n - p,
    {
        let ai = results[p].1;
        let t = total_best_coverage(grids, automata[ai].as_slice(), all.as_slice());
        totals.push(t);
        keep.push(true);
        proof {
            assert(totals@ =~= keys.take(p + 1));
        }
        p += 1;
    }
    proof {
        assert(totals@ =~= keys);
    }
    let order = rank_desc(&totals, &keep);
    proof {
        lemma_ranking_len(order@, keys, keep@, n as int);
    }
    assert(keys.len() == n);
    let mut r: Vec<(usize, usize)> = Vec::new();
    let mut q: usize = 0;
    while q < order.len()
        invariant
            q <= order@.len(),
            keys.len() == n,
            order@.len() == n,
            n <= results@.len(),
            totals@ == keys,
            forall|x: int| 0 <= x < order@.len() ==> order@[x] < n,
            r@.len() == q,
            forall|x: int|
                0 <= x < q ==> #[trigger] r@[x] == (keys[order@[x] as int], results@[order@[x] as int].1),
        decreases order@.len() - q,
    {
        let pos = order[q];
        r.push((totals[pos], results[pos].1));
        q += 1;
    }
    proof {
        let ord = order@.map_values(|x: usize| x as int);
        assert(is_ranking(keys, ord));
        assert forall|x: int| 0 <= x < n implies #[trigger] r@[x] == (keys[ord[x]], results@[ord[x]].1) by {}
    }
    r
}

} // verus!

