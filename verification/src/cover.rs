//! A plan that patrols every cell with robots that sweep straight wall-free
//! runs: the runs are chosen as a minimum-weight vertex cover of the cells,
//! found with a maximum flow.

use vstd::prelude::*;
use crate::text::{
    push_usize, push_str, dec_nat, string_of_chars, tokens, is_word, is_ws, lemma_tokens_cons,
    lemma_tokens_empty, lemma_dec_word, lemma_parse_dec_usize,
};
use crate::judge::input::{byte_len, first_bad_row, lemma_binary_bytes, lemma_rows_pass};
use crate::judge::output::{parse_output_spec, parse_robots, parse_robot, parse_states, dir_index, RobotModel, OutputError};
use crate::judge::score::states_total;
use crate::flow::{
    mf_new, mf_add_edge, mf_flow, mf_min_cut, mf_edges, mf_nodes, flow_in, flow_out, flows_valid, conserved,
    residual_edge, residual_reach, reach_set, cut_capacity, edges_within, lemma_zero_flows,
    lemma_cap_out_bound, lemma_single_edge_in, lemma_edge_flow_le_out, lemma_no_edge_in, lemma_reach_self,
    lemma_reach_step, lemma_cut_capacity_split, lemma_flow_le_cut, lemma_flow_is_reach_cut,
    lemma_flow_out_le_cap_out, lemma_same_edges_cap_out,
};

verus! {

/// Wall marks of a line: `'1'` is a wall.
pub fn wall_marks(line: &str) -> (r: Vec<bool>)
    ensures
        r@ == line@.map_values(|c: char| c == '1'),
{
    let cs = crate::text::chars_of(line);
    let mut r: Vec<bool> = Vec::new();
    let mut k: usize = 0;
    while k < cs.len()
        invariant
            k <= cs@.len(),
            cs@ == line@,
            r@ == cs@.take(k as int).map_values(|c: char| c == '1'),
        decreases cs@.len() - k,
    {
        r.push(cs[k] == '1');
        proof {
            assert(cs@.take(k + 1).map_values(|c: char| c == '1') =~= cs@.take(k as int).map_values(|c: char| c == '1').push(
                cs@[k as int] == '1',
            ));
        }
        k += 1;
    }
    proof {
        assert(cs@.take(cs@.len() as int) =~= cs@);
    }
    r
}

/// Wall marks of an `n` x `n` board: `v[i][j]` (j < n - 1) is a wall between
/// (i, j) and (i, j + 1), `h[i][j]` (i < n - 1) between (i, j) and (i + 1, j).
pub open spec fn walls_shape(v: Seq<Vec<bool>>, h: Seq<Vec<bool>>, n: int) -> bool {
    &&& n >= 1
    &&& v.len() >= n
    &&& h.len() >= n - 1
    &&& forall|i: int| 0 <= i < n ==> (#[trigger] v[i])@.len() >= n - 1
    &&& forall|i: int| 0 <= i < n - 1 ==> (#[trigger] h[i])@.len() >= n
}

/// A maximal wall-free run of row `i` from column `s` to column `e`: no wall
/// inside, a wall or the border at both ends.
pub open spec fn row_run(v: Seq<Vec<bool>>, n: int, i: int, s: int, e: int) -> bool {
    &&& 0 <= i < n
    &&& 0 <= s <= e < n
    &&& (s == 0 || v[i]@[s - 1])
    &&& (e == n - 1 || v[i]@[e])
    &&& forall|k: int| s <= k < e ==> !#[trigger] v[i]@[k]
}

/// A maximal wall-free run of column `j` from row `s` to row `e`.
pub open spec fn col_run(h: Seq<Vec<bool>>, n: int, j: int, s: int, e: int) -> bool {
    &&& 0 <= j < n
    &&& 0 <= s <= e < n
    &&& (s == 0 || h[s - 1]@[j])
    &&& (e == n - 1 || h[e]@[j])
    &&& forall|k: int| s <= k < e ==> !#[trigger] h[k]@[j]
}

/// Two maximal runs of the same row that share a cell are the same run: the
/// runs of a row split it.
pub proof fn lemma_row_runs_split(v: Seq<Vec<bool>>, n: int, i: int, s1: int, e1: int, s2: int, e2: int, j: int)
    requires
        row_run(v, n, i, s1, e1),
        row_run(v, n, i, s2, e2),
        s1 <= j <= e1,
        s2 <= j <= e2,
    ensures
        s1 == s2 && e1 == e2,
{
    if s1 < s2 {
        assert(!v[i]@[s2 - 1]);
    } else if s2 < s1 {
        assert(!v[i]@[s1 - 1]);
    }
    if e1 < e2 {
        assert(!v[i]@[e1]);
    } else if e2 < e1 {
        assert(!v[i]@[e2]);
    }
}

/// Two maximal runs of the same column that share a cell are the same run.
pub proof fn lemma_col_runs_split(h: Seq<Vec<bool>>, n: int, j: int, s1: int, e1: int, s2: int, e2: int, i: int)
    requires
        col_run(h, n, j, s1, e1),
        col_run(h, n, j, s2, e2),
        s1 <= i <= e1,
        s2 <= i <= e2,
    ensures
        s1 == s2 && e1 == e2,
{
    if s1 < s2 {
        assert(!h[s2 - 1]@[j]);
    } else if s2 < s1 {
        assert(!h[s1 - 1]@[j]);
    }
    if e1 < e2 {
        assert(!h[e1]@[j]);
    } else if e2 < e1 {
        assert(!h[e2]@[j]);
    }
}

/// The runs are listed line by line, each line's runs from its start.
pub open spec fn runs_ordered(segs: Seq<(usize, usize, usize)>) -> bool {
    forall|a: int, b: int|
        0 <= a < b < segs.len() ==> (#[trigger] segs[a]).0 < (#[trigger] segs[b]).0 || (segs[a].0 == segs[b].0
            && segs[a].2 < segs[b].1)
}

/// The maximal wall-free runs of every row, row by row from the left, and
/// for each cell `(i, j)` the index of its run at `i * n + j`.
pub fn row_segments(v: &Vec<Vec<bool>>, h: &Vec<Vec<bool>>, n: usize) -> (r: (Vec<(usize, usize, usize)>, Vec<usize>))
    requires
        walls_shape(v@, h@, n as int),
        n * n <= usize::MAX,
    ensures
        forall|k: int| 0 <= k < r.0@.len() ==> row_run(v@, n as int, (#[trigger] r.0@[k]).0 as int, r.0@[k].1 as int, r.0@[k].2 as int),
        runs_ordered(r.0@),
        r.0@.len() <= n * n,
        r.1@.len() == n * n,
        forall|i: int, j: int| 0 <= i < n && 0 <= j < n ==> {
            let k = #[trigger] r.1@[i * n + j] as int;
            &&& 0 <= k < r.0@.len()
            &&& r.0@[k].0 == i
            &&& r.0@[k].1 <= j <= r.0@[k].2
        },
{
    let mut segs: Vec<(usize, usize, usize)> = Vec::new();
    let mut ids: Vec<usize> = Vec::new();
    let mut i: usize = 0;
    while i < n
        invariant
            walls_shape(v@, h@, n as int),
            n * n <= usize::MAX,
            i <= n,
            ids@.len() == i * n,
            segs@.len() <= i * n,
            forall|k: int| 0 <= k < segs@.len() ==> row_run(v@, n as int, (#[trigger] segs@[k]).0 as int, segs@[k].1 as int, segs@[k].2 as int),
            forall|k: int| 0 <= k < segs@.len() ==> (#[trigger] segs@[k]).0 < i,
            runs_ordered(segs@),
            forall|a: int, j: int| 0 <= a < i && 0 <= j < n ==> {
                let k = #[trigger] ids@[a * n + j] as int;
                &&& 0 <= k < segs@.len()
                &&& segs@[k].0 == a
                &&& segs@[k].1 <= j <= segs@[k].2
            },
        decreases n - i,
    {
        assert((i + 1) * n <= n * n) by (nonlinear_arith)
            requires i < n;
        assert(i * n + n == (i + 1) * n) by (nonlinear_arith);
        let ghost first = segs@.len() as int;
        let mut j: usize = 0;
        while j < n
            invariant
                walls_shape(v@, h@, n as int),
                n * n <= usize::MAX,
                i < n,
                j <= n,
                0 <= first <= segs@.len(),
                ids@.len() == i * n + j,
                segs@.len() <= i * n + j,
                (i + 1) * n <= n * n,
                i * n + n == (i + 1) * n,
                forall|k: int| 0 <= k < segs@.len() ==> row_run(v@, n as int, (#[trigger] segs@[k]).0 as int, segs@[k].1 as int, segs@[k].2 as int),
                forall|k: int| 0 <= k < first ==> (#[trigger] segs@[k]).0 < i,
                forall|k: int| first <= k < segs@.len() ==> (#[trigger] segs@[k]).0 == i && segs@[k].2 < j,
                j > 0 ==> segs@.len() > first && segs@[segs@.len() - 1].2 == j - 1,
                j > 0 && j < n ==> v@[i as int]@[j - 1],
                runs_ordered(segs@),
                forall|a: int, c: int| 0 <= a < i && 0 <= c < n ==> {
                    let k = #[trigger] ids@[a * n + c] as int;
                    &&& 0 <= k < segs@.len()
                    &&& segs@[k].0 == a
                    &&& segs@[k].1 <= c <= segs@[k].2
                },
                forall|c: int| 0 <= c < j ==> {
                    let k = #[trigger] ids@[i * n + c] as int;
                    &&& 0 <= k < segs@.len()
                    &&& segs@[k].0 == i
                    &&& segs@[k].1 <= c <= segs@[k].2
                },
            decreases n - j,
        {
            let start = j;
            while j < n - 1 && !v[i][j]
                invariant
                    walls_shape(v@, h@, n as int),
                    i < n,
                    start <= j < n,
                    forall|k: int| start <= k < j ==> !#[trigger] v@[i as int]@[k],
                decreases n - j,
            {
                j += 1;
            }
            let idx = segs.len();
            proof {
                assert(row_run(v@, n as int, i as int, start as int, j as int));
            }
            let ghost before_ids = ids@;
            let mut jj = start;
            while jj <= j
                invariant
                    start <= jj <= j + 1,
                    j < n,
                    ids@.len() == i * n + jj,
                    ids@.subrange(0, (i * n + start) as int) == before_ids,
                    forall|c: int| start <= c < jj ==> #[trigger] ids@[i * n + c] == idx,
                decreases j + 1 - jj,
            {
                ids.push(idx);
                proof {
                    assert(ids@.subrange(0, (i * n + start) as int) =~= before_ids);
                }
                jj += 1;
            }
            let ghost before_segs = segs@;
            segs.push((i, start, j));
            proof {
                assert(segs@ == before_segs.push((i, start, j)));
                assert(forall|k: int| 0 <= k < before_segs.len() ==> segs@[k] == before_segs[k]);
                assert forall|k: int| first <= k < segs@.len() implies (#[trigger] segs@[k]).0 == i && segs@[k].2 < j + 1 by {
                    if k < before_segs.len() {
                        assert(segs@[k] == before_segs[k]);
                        assert(before_segs[k].2 < j);
                    } else {
                        assert(segs@[k] == (i, start, j));
                    }
                }
                assert forall|k: int| 0 <= k < segs@.len() implies row_run(v@, n as int, (#[trigger] segs@[k]).0 as int, segs@[k].1 as int, segs@[k].2 as int) by {
                    if k < before_segs.len() {
                        assert(segs@[k] == before_segs[k]);
                    }
                }
                assert(runs_ordered(segs@)) by {
                    assert forall|a: int, b: int| 0 <= a < b < segs@.len() implies (#[trigger] segs@[a]).0 < (#[trigger] segs@[b]).0
                        || (segs@[a].0 == segs@[b].0 && segs@[a].2 < segs@[b].1) by {
                        assert(segs@[a] == before_segs[a]);
                        if b < before_segs.len() {
                            assert(segs@[b] == before_segs[b]);
                        } else {
                            if a >= first {
                                assert(before_segs[a].2 < start);
                            }
                        }
                    }
                }
                assert forall|a: int, c: int| 0 <= a < i && 0 <= c < n implies {
                    let k = #[trigger] ids@[a * n + c] as int;
                    &&& 0 <= k < segs@.len()
                    &&& segs@[k].0 == a
                    &&& segs@[k].1 <= c <= segs@[k].2
                } by {
                    assert(a * n + c < i * n) by (nonlinear_arith)
                        requires a < i, c < n;
                    assert(ids@[a * n + c] == before_ids[a * n + c]);
                    assert(segs@[before_ids[a * n + c] as int] == before_segs[before_ids[a * n + c] as int]);
                }
                assert forall|c: int| 0 <= c < j + 1 implies {
                    let k = #[trigger] ids@[i * n + c] as int;
                    &&& 0 <= k < segs@.len()
                    &&& segs@[k].0 == i
                    &&& segs@[k].1 <= c <= segs@[k].2
                } by {
                    if c < start {
                        assert(ids@[i * n + c] == before_ids[i * n + c]);
                        assert(segs@[before_ids[i * n + c] as int] == before_segs[before_ids[i * n + c] as int]);
                    }
                }
                assert forall|k: int| 0 <= k < first implies (#[trigger] segs@[k]).0 < i by {
                    assert(segs@[k] == before_segs[k]);
                }
            }
            j += 1;
        }
        i += 1;
    }
    (segs, ids)
}

/// The maximal wall-free runs of every column, column by column from the
/// top, and for each cell `(i, j)` the index of its run at `i * n + j`.
pub fn col_segments(v: &Vec<Vec<bool>>, h: &Vec<Vec<bool>>, n: usize) -> (r: (Vec<(usize, usize, usize)>, Vec<usize>))
    requires
        walls_shape(v@, h@, n as int),
        n * n <= usize::MAX,
    ensures
        forall|k: int| 0 <= k < r.0@.len() ==> col_run(h@, n as int, (#[trigger] r.0@[k]).0 as int, r.0@[k].1 as int, r.0@[k].2 as int),
        runs_ordered(r.0@),
        r.0@.len() <= n * n,
        r.1@.len() == n * n,
        forall|i: int, j: int| 0 <= i < n && 0 <= j < n ==> {
            let k = #[trigger] r.1@[i * n + j] as int;
            &&& 0 <= k < r.0@.len()
            &&& r.0@[k].0 == j
            &&& r.0@[k].1 <= i <= r.0@[k].2
        },
{
    let nn = n * n;
    let mut ids: Vec<usize> = Vec::new();
    let mut z: usize = 0;
    while z < nn
        invariant
            z <= nn,
            ids@.len() == z,
        decreases nn - z,
    {
        ids.push(0);
        z += 1;
    }
    let mut segs: Vec<(usize, usize, usize)> = Vec::new();
    let mut j: usize = 0;
    while j < n
        invariant
            walls_shape(v@, h@, n as int),
            nn == n * n,
            j <= n,
            ids@.len() == nn,
            segs@.len() <= j * n,
            forall|k: int| 0 <= k < segs@.len() ==> col_run(h@, n as int, (#[trigger] segs@[k]).0 as int, segs@[k].1 as int, segs@[k].2 as int),
            forall|k: int| 0 <= k < segs@.len() ==> (#[trigger] segs@[k]).0 < j,
            runs_ordered(segs@),
            forall|a: int, c: int| 0 <= a < n && 0 <= c < j ==> {
                let k = #[trigger] ids@[a * n + c] as int;
                &&& 0 <= k < segs@.len()
                &&& segs@[k].0 == c
                &&& segs@[k].1 <= a <= segs@[k].2
            },
        decreases n - j,
    {
        let ghost first = segs@.len() as int;
        assert(j * n + n == (j + 1) * n) by (nonlinear_arith);
        let mut i: usize = 0;
        while i < n
            invariant
                walls_shape(v@, h@, n as int),
                nn == n * n,
                j < n,
                i <= n,
                0 <= first <= segs@.len(),
                ids@.len() == nn,
                segs@.len() <= j * n + i,
                j * n + n == (j + 1) * n,
                forall|k: int| 0 <= k < segs@.len() ==> col_run(h@, n as int, (#[trigger] segs@[k]).0 as int, segs@[k].1 as int, segs@[k].2 as int),
                forall|k: int| 0 <= k < first ==> (#[trigger] segs@[k]).0 < j,
                forall|k: int| first <= k < segs@.len() ==> (#[trigger] segs@[k]).0 == j && segs@[k].2 < i,
                i > 0 ==> segs@.len() > first && segs@[segs@.len() - 1].2 == i - 1,
                runs_ordered(segs@),
                forall|a: int, c: int| 0 <= a < n && 0 <= c < j ==> {
                    let k = #[trigger] ids@[a * n + c] as int;
                    &&& 0 <= k < segs@.len()
                    &&& segs@[k].0 == c
                    &&& segs@[k].1 <= a <= segs@[k].2
                },
                forall|a: int| 0 <= a < i ==> {
                    let k = #[trigger] ids@[a * n + j] as int;
                    &&& 0 <= k < segs@.len()
                    &&& segs@[k].0 == j
                    &&& segs@[k].1 <= a <= segs@[k].2
                },
            decreases n - i,
        {
            let start = i;
            while i < n - 1 && !h[i][j]
                invariant
                    walls_shape(v@, h@, n as int),
                    j < n,
                    start <= i < n,
                    forall|k: int| start <= k < i ==> !#[trigger] h@[k]@[j as int],
                decreases n - i,
            {
                i += 1;
            }
            let idx = segs.len();
            proof {
                assert(col_run(h@, n as int, j as int, start as int, i as int));
            }
            let ghost before_ids = ids@;
            let mut ii = start;
            while ii <= i
                invariant
                    start <= ii <= i + 1,
                    i < n,
                    j < n,
                    nn == n * n,
                    ids@.len() == nn,
                    forall|x: int| 0 <= x < nn && !(x % (n as int) == j && start <= x / (n as int) < ii) ==> #[trigger] ids@[x] == before_ids[x],
                    forall|a: int| start <= a < ii ==> #[trigger] ids@[a * n + j] == idx,
                decreases i + 1 - ii,
            {
                proof {
                    crate::generator::lemma_cell_number(n as int, ii as int, j as int);
                }
                ids.set(ii * n + j, idx);
                proof {
                    assert forall|x: int| 0 <= x < nn && !(x % (n as int) == j && start <= x / (n as int) < ii + 1) implies #[trigger] ids@[x] == before_ids[x] by {
                        assert(x != ii * n + j);
                    }
                    assert forall|a: int| start <= a < ii + 1 implies #[trigger] ids@[a * n + j] == idx by {
                        if a < ii {
                            crate::generator::lemma_cell_number(n as int, a, j as int);
                            assert(a * n + j != ii * n + j);
                        }
                    }
                }
                ii += 1;
            }
            let ghost before_segs = segs@;
            segs.push((j, start, i));
            proof {
                assert(segs@ == before_segs.push((j, start, i)));
                assert(forall|k: int| 0 <= k < before_segs.len() ==> segs@[k] == before_segs[k]);
                assert forall|k: int| first <= k < segs@.len() implies (#[trigger] segs@[k]).0 == j && segs@[k].2 < i + 1 by {
                    if k < before_segs.len() {
                        assert(segs@[k] == before_segs[k]);
                        assert(before_segs[k].2 < i);
                    } else {
                        assert(segs@[k] == (j, start, i));
                    }
                }
                assert forall|k: int| 0 <= k < segs@.len() implies col_run(h@, n as int, (#[trigger] segs@[k]).0 as int, segs@[k].1 as int, segs@[k].2 as int) by {
                    if k < before_segs.len() {
                        assert(segs@[k] == before_segs[k]);
                    }
                }
                assert(runs_ordered(segs@)) by {
                    assert forall|a: int, b: int| 0 <= a < b < segs@.len() implies (#[trigger] segs@[a]).0 < (#[trigger] segs@[b]).0
                        || (segs@[a].0 == segs@[b].0 && segs@[a].2 < segs@[b].1) by {
                        assert(segs@[a] == before_segs[a]);
                        if b < before_segs.len() {
                            assert(segs@[b] == before_segs[b]);
                        } else {
                            if a >= first {
                                assert(before_segs[a].2 < start);
                            }
                        }
                    }
                }
                assert forall|a: int, c: int| 0 <= a < n && 0 <= c < j implies {
                    let k = #[trigger] ids@[a * n + c] as int;
                    &&& 0 <= k < segs@.len()
                    &&& segs@[k].0 == c
                    &&& segs@[k].1 <= a <= segs@[k].2
                } by {
                    crate::generator::lemma_cell_number(n as int, a, c);
                    assert(ids@[a * n + c] == before_ids[a * n + c]);
                    assert(segs@[before_ids[a * n + c] as int] == before_segs[before_ids[a * n + c] as int]);
                }
                assert forall|a: int| 0 <= a < i + 1 implies {
                    let k = #[trigger] ids@[a * n + j] as int;
                    &&& 0 <= k < segs@.len()
                    &&& segs@[k].0 == j
                    &&& segs@[k].1 <= a <= segs@[k].2
                } by {
                    if a < start {
                        crate::generator::lemma_cell_number(n as int, a, j as int);
                        assert(ids@[a * n + j] == before_ids[a * n + j]);
                        assert(segs@[before_ids[a * n + j] as int] == before_segs[before_ids[a * n + j] as int]);
                    }
                }
                assert forall|k: int| 0 <= k < first implies (#[trigger] segs@[k]).0 < j by {
                    assert(segs@[k] == before_segs[k]);
                }
            }
            i += 1;
        }
        j += 1;
    }
    (segs, ids)
}

/// The cost of the robot that sweeps a run from `s` to `e`: one state for a
/// single cell, two otherwise.
pub open spec fn run_cost(s: int, e: int) -> int {
    if s == e {
        1
    } else {
        2
    }
}

/// The cost of the robot that sweeps the run from `s` to `e`.
pub fn seg_cost(s: usize, e: usize) -> (c: i64)
    ensures
        c == run_cost(s as int, e as int),
{
    if s == e {
        1
    } else {
        2
    }
}

/// The capacity of the edges that tie a cell's row run to its column run:
/// more than any cut through run costs.
pub const TIE_CAP: i64 = 0x3FFF_FFFF_FFFF_FFFF;

/// The runs of the board and which of them get a robot.
pub struct CoverPlan {
    /// Row runs as (row, first column, last column).
    pub row_segs: Vec<(usize, usize, usize)>,
    pub row_selected: Vec<bool>,
    /// Column runs as (column, first row, last row).
    pub col_segs: Vec<(usize, usize, usize)>,
    pub col_selected: Vec<bool>,
}

/// Cell (i, j) lies in a row run marked in `rsel` or in a column run marked
/// in `csel`.
pub open spec fn selection_covers(
    rsegs: Seq<(usize, usize, usize)>,
    rsel: Seq<bool>,
    csegs: Seq<(usize, usize, usize)>,
    csel: Seq<bool>,
    i: int,
    j: int,
) -> bool {
    ||| exists|k: int| 0 <= k < rsegs.len() && #[trigger] rsel[k] && rsegs[k].0 == i && rsegs[k].1 <= j <= rsegs[k].2
    ||| exists|k: int| 0 <= k < csegs.len() && #[trigger] csel[k] && csegs[k].0 == j && csegs[k].1 <= i <= csegs[k].2
}

/// Cell (i, j) lies in a selected row run or in a selected column run.
pub open spec fn cell_covered(plan: CoverPlan, i: int, j: int) -> bool {
    selection_covers(plan.row_segs@, plan.row_selected@, plan.col_segs@, plan.col_selected@, i, j)
}

/// Total cost of the runs among `0..k` that are marked.
pub open spec fn marked_cost(segs: Seq<(usize, usize, usize)>, sel: Seq<bool>, k: int) -> int
    decreases k,
{
    if k <= 0 {
        0
    } else {
        marked_cost(segs, sel, k - 1) + if sel[k - 1] {
            run_cost(segs[k - 1].1 as int, segs[k - 1].2 as int)
        } else {
            0int
        }
    }
}

/// Total cost of the marked runs: the number of states their robots need.
pub open spec fn selection_cost(segs: Seq<(usize, usize, usize)>, sel: Seq<bool>) -> int {
    marked_cost(segs, sel, sel.len() as int)
}

/// Total cost of the runs a plan selects.
pub open spec fn cover_cost(plan: CoverPlan) -> int {
    selection_cost(plan.row_segs@, plan.row_selected@) + selection_cost(plan.col_segs@, plan.col_selected@)
}

/// Some run of line `line` covers position `pos`.
pub open spec fn run_holds(segs: Seq<(usize, usize, usize)>, line: int, pos: int) -> bool {
    exists|k: int| 0 <= k < segs.len() && (#[trigger] segs[k]).0 == line && segs[k].1 <= pos <= segs[k].2
}

/// The plan lists exactly the maximal runs of the board, in order, with one
/// selection mark per run.
pub open spec fn plan_runs_ok(plan: CoverPlan, v: Seq<Vec<bool>>, h: Seq<Vec<bool>>, n: int) -> bool {
    &&& forall|k: int| 0 <= k < plan.row_segs@.len() ==> row_run(v, n, (#[trigger] plan.row_segs@[k]).0 as int, plan.row_segs@[k].1 as int, plan.row_segs@[k].2 as int)
    &&& forall|k: int| 0 <= k < plan.col_segs@.len() ==> col_run(h, n, (#[trigger] plan.col_segs@[k]).0 as int, plan.col_segs@[k].1 as int, plan.col_segs@[k].2 as int)
    &&& runs_ordered(plan.row_segs@)
    &&& runs_ordered(plan.col_segs@)
    &&& forall|i: int, j: int| 0 <= i < n && 0 <= j < n ==> #[trigger] run_holds(plan.row_segs@, i, j)
    &&& forall|i: int, j: int| 0 <= i < n && 0 <= j < n ==> #[trigger] run_holds(plan.col_segs@, j, i)
    &&& plan.row_selected@.len() == plan.row_segs@.len()
    &&& plan.col_selected@.len() == plan.col_segs@.len()
}

/// The flow network of the runs: edge `k < p` from the source 0 to row run
/// `k` (vertex `2 + k`) with the run's cost, edge `p + k` from column run `k`
/// (vertex `2 + p + k`) to the sink 1 with its cost, and for each cell `y` an
/// edge from the cell's row run to its column run with capacity `TIE_CAP`.
spec fn cover_network(
    es: Seq<(usize, usize, i64, i64)>,
    rsegs: Seq<(usize, usize, usize)>,
    csegs: Seq<(usize, usize, usize)>,
    rids: Seq<usize>,
    cids: Seq<usize>,
) -> bool {
    let p = rsegs.len() as int;
    let q = csegs.len() as int;
    let nn = rids.len() as int;
    &&& cids.len() == nn
    &&& es.len() == p + q + nn
    &&& forall|k: int|
        0 <= k < p ==> (#[trigger] es[k]).0 == 0 && es[k].1 == 2 + k && es[k].2 == run_cost(
            rsegs[k].1 as int,
            rsegs[k].2 as int,
        )
    &&& forall|k: int|
        0 <= k < q ==> (#[trigger] es[p + k]).0 == 2 + p + k && es[p + k].1 == 1 && es[p + k].2 == run_cost(
            csegs[k].1 as int,
            csegs[k].2 as int,
        )
    &&& forall|y: int|
        0 <= y < nn ==> (#[trigger] es[p + q + y]).0 == 2 + rids[y] && es[p + q + y].1 == 2 + p + cids[y]
            && es[p + q + y].2 == TIE_CAP
    &&& forall|y: int| 0 <= y < nn ==> (#[trigger] rids[y]) < p && cids[y] < q
}

/// The cut of the network that a choice of runs makes: the source, the row
/// runs left unmarked and the column runs marked.
spec fn selection_cut(p: int, q: int, rsel: Seq<bool>, csel: Seq<bool>) -> spec_fn(int) -> bool {
    |v: int| v == 0 || (2 <= v < 2 + p && !rsel[v - 2]) || (2 + p <= v < 2 + p + q && csel[v - 2 - p])
}

/// The edges of the network stay among its vertices, and none enters the
/// source.
proof fn lemma_network_edges(
    es: Seq<(usize, usize, i64, i64)>,
    rsegs: Seq<(usize, usize, usize)>,
    csegs: Seq<(usize, usize, usize)>,
    rids: Seq<usize>,
    cids: Seq<usize>,
)
    requires
        cover_network(es, rsegs, csegs, rids, cids),
    ensures
        edges_within(es, (2 + rsegs.len() + csegs.len()) as int),
        forall|k: int| 0 <= k < es.len() ==> (#[trigger] es[k]).1 != 0,
{
    let p = rsegs.len() as int;
    let q = csegs.len() as int;
    assert forall|k: int| 0 <= k < es.len() implies (#[trigger] es[k]).0 < 2 + p + q && es[k].1 < 2 + p + q
        && es[k].1 != 0 by {
        if k < p {
        } else if k < p + q {
            assert(es[p + (k - p)] == es[k]);
        } else {
            let y = k - p - q;
            assert(es[p + q + y] == es[k]);
            assert(rids[y] < p && cids[y] < q);
        }
    }
}

/// The only edge into row run `r` comes from the source.
proof fn lemma_row_run_inflow(
    es: Seq<(usize, usize, i64, i64)>,
    rsegs: Seq<(usize, usize, usize)>,
    csegs: Seq<(usize, usize, usize)>,
    rids: Seq<usize>,
    cids: Seq<usize>,
    r: int,
)
    requires
        cover_network(es, rsegs, csegs, rids, cids),
        0 <= r < rsegs.len(),
    ensures
        flow_in(es, 2 + r) == es[r].3,
{
    let p = rsegs.len() as int;
    let q = csegs.len() as int;
    assert forall|z: int| 0 <= z < es.len() && z != r implies (#[trigger] es[z]).1 != 2 + r by {
        if z < p {
        } else if z < p + q {
            assert(es[p + (z - p)] == es[z]);
        } else {
            let w = z - p - q;
            assert(es[p + q + w] == es[z]);
            assert(cids[w] < q);
        }
    }
    lemma_single_edge_in(es, 2 + r, r);
}

/// A cell's edge never fills up: its flow comes out of the flow into its row
/// run, which is at most that run's cost.
proof fn lemma_tie_edge_has_room(
    es: Seq<(usize, usize, i64, i64)>,
    rsegs: Seq<(usize, usize, usize)>,
    csegs: Seq<(usize, usize, usize)>,
    rids: Seq<usize>,
    cids: Seq<usize>,
    y: int,
)
    requires
        cover_network(es, rsegs, csegs, rids, cids),
        flows_valid(es),
        conserved(es, (2 + rsegs.len() + csegs.len()) as int, 0, 1),
        0 <= y < rids.len(),
    ensures
        es[rsegs.len() + csegs.len() + y].3 < es[rsegs.len() + csegs.len() + y].2,
{
    let p = rsegs.len() as int;
    let q = csegs.len() as int;
    let e = p + q + y;
    let r = rids[y] as int;
    assert(es[p + q + y].0 == 2 + r && es[p + q + y].2 == TIE_CAP);
    assert(r < p);
    lemma_row_run_inflow(es, rsegs, csegs, rids, cids, r);
    lemma_edge_flow_le_out(es, 2 + r, e);
    assert(flow_in(es, 2 + r) == flow_out(es, 2 + r));
    assert(es[r].3 <= es[r].2);
    assert(es[r].2 <= 2);
}

/// The row part of a cut: the edges from the source to the row runs left out
/// of the cut cost what the marked row runs cost.
proof fn lemma_row_edges_cut(
    es: Seq<(usize, usize, i64, i64)>,
    rsegs: Seq<(usize, usize, usize)>,
    csegs: Seq<(usize, usize, usize)>,
    rids: Seq<usize>,
    cids: Seq<usize>,
    inside: spec_fn(int) -> bool,
    rsel: Seq<bool>,
    k: int,
)
    requires
        cover_network(es, rsegs, csegs, rids, cids),
        inside(0),
        rsel.len() == rsegs.len(),
        forall|x: int| 0 <= x < rsegs.len() ==> #[trigger] rsel[x] == !inside(2 + x),
        0 <= k <= rsegs.len(),
    ensures
        cut_capacity(es, inside, 0, k) == marked_cost(rsegs, rsel, k),
    decreases k,
{
    if k > 0 {
        lemma_row_edges_cut(es, rsegs, csegs, rids, cids, inside, rsel, k - 1);
        assert(es[k - 1].0 == 0 && es[k - 1].1 == 2 + (k - 1));
        assert(rsel[k - 1] == !inside(2 + (k - 1)));
    }
}

/// The column part of a cut: the edges from the column runs in the cut to
/// the sink cost what the marked column runs cost.
proof fn lemma_col_edges_cut(
    es: Seq<(usize, usize, i64, i64)>,
    rsegs: Seq<(usize, usize, usize)>,
    csegs: Seq<(usize, usize, usize)>,
    rids: Seq<usize>,
    cids: Seq<usize>,
    inside: spec_fn(int) -> bool,
    csel: Seq<bool>,
    k: int,
)
    requires
        cover_network(es, rsegs, csegs, rids, cids),
        !inside(1),
        csel.len() == csegs.len(),
        forall|x: int| 0 <= x < csegs.len() ==> #[trigger] csel[x] == inside(2 + rsegs.len() + x),
        0 <= k <= csegs.len(),
    ensures
        cut_capacity(es, inside, rsegs.len() as int, rsegs.len() + k) == marked_cost(csegs, csel, k),
    decreases k,
{
    let p = rsegs.len() as int;
    if k > 0 {
        lemma_col_edges_cut(es, rsegs, csegs, rids, cids, inside, csel, k - 1);
        assert(es[p + (k - 1)].0 == 2 + p + (k - 1) && es[p + (k - 1)].1 == 1);
        assert(csel[k - 1] == inside(2 + p + (k - 1)));
    }
}

/// The cell part of a cut: no cell edge leaves a cut that holds the column
/// run of every cell whose row run it holds.
proof fn lemma_tie_edges_cut(
    es: Seq<(usize, usize, i64, i64)>,
    rsegs: Seq<(usize, usize, usize)>,
    csegs: Seq<(usize, usize, usize)>,
    rids: Seq<usize>,
    cids: Seq<usize>,
    inside: spec_fn(int) -> bool,
    y: int,
)
    requires
        cover_network(es, rsegs, csegs, rids, cids),
        forall|z: int| 0 <= z < rids.len() && inside(2 + #[trigger] rids[z]) ==> inside(2 + rsegs.len() + cids[z]),
        0 <= y <= rids.len(),
    ensures
        cut_capacity(es, inside, (rsegs.len() + csegs.len()) as int, rsegs.len() + csegs.len() + y) == 0,
    decreases y,
{
    let p = rsegs.len() as int;
    let q = csegs.len() as int;
    if y > 0 {
        lemma_tie_edges_cut(es, rsegs, csegs, rids, cids, inside, y - 1);
        let z = y - 1;
        assert(es[p + q + z].0 == 2 + rids[z] && es[p + q + z].1 == 2 + p + cids[z]);
    }
}

/// The capacity of a cut that holds the source but not the sink, and with
/// every cell's row run its column run, is the cost of the row runs left out
/// and the column runs taken in.
proof fn lemma_network_cut(
    es: Seq<(usize, usize, i64, i64)>,
    rsegs: Seq<(usize, usize, usize)>,
    csegs: Seq<(usize, usize, usize)>,
    rids: Seq<usize>,
    cids: Seq<usize>,
    inside: spec_fn(int) -> bool,
    rsel: Seq<bool>,
    csel: Seq<bool>,
)
    requires
        cover_network(es, rsegs, csegs, rids, cids),
        inside(0),
        !inside(1),
        rsel.len() == rsegs.len(),
        csel.len() == csegs.len(),
        forall|x: int| 0 <= x < rsegs.len() ==> #[trigger] rsel[x] == !inside(2 + x),
        forall|x: int| 0 <= x < csegs.len() ==> #[trigger] csel[x] == inside(2 + rsegs.len() + x),
        forall|z: int| 0 <= z < rids.len() && inside(2 + #[trigger] rids[z]) ==> inside(2 + rsegs.len() + cids[z]),
    ensures
        cut_capacity(es, inside, 0, es.len() as int) == selection_cost(rsegs, rsel) + selection_cost(csegs, csel),
{
    let p = rsegs.len() as int;
    let q = csegs.len() as int;
    let nn = rids.len() as int;
    lemma_row_edges_cut(es, rsegs, csegs, rids, cids, inside, rsel, p);
    lemma_col_edges_cut(es, rsegs, csegs, rids, cids, inside, csel, q);
    lemma_tie_edges_cut(es, rsegs, csegs, rids, cids, inside, nn);
    lemma_cut_capacity_split(es, inside, 0, p, p + q);
    lemma_cut_capacity_split(es, inside, 0, p + q, p + q + nn);
}

/// A choice of runs that covers every cell marks, for every cell, its own
/// row run or its own column run: runs of a line do not overlap.
proof fn lemma_covering_choice_marks_cells(
    v: Seq<Vec<bool>>,
    h: Seq<Vec<bool>>,
    n: int,
    rsegs: Seq<(usize, usize, usize)>,
    csegs: Seq<(usize, usize, usize)>,
    rids: Seq<usize>,
    cids: Seq<usize>,
    rs: Seq<bool>,
    cs: Seq<bool>,
)
    requires
        n >= 1,
        rids.len() == n * n,
        cids.len() == n * n,
        forall|k: int| 0 <= k < rsegs.len() ==> row_run(v, n, (#[trigger] rsegs[k]).0 as int, rsegs[k].1 as int, rsegs[k].2 as int),
        forall|k: int| 0 <= k < csegs.len() ==> col_run(h, n, (#[trigger] csegs[k]).0 as int, csegs[k].1 as int, csegs[k].2 as int),
        runs_ordered(rsegs),
        runs_ordered(csegs),
        forall|i: int, j: int| 0 <= i < n && 0 <= j < n ==> {
            let k = #[trigger] rids[i * n + j] as int;
            &&& 0 <= k < rsegs.len()
            &&& rsegs[k].0 == i
            &&& rsegs[k].1 <= j <= rsegs[k].2
        },
        forall|i: int, j: int| 0 <= i < n && 0 <= j < n ==> {
            let k = #[trigger] cids[i * n + j] as int;
            &&& 0 <= k < csegs.len()
            &&& csegs[k].0 == j
            &&& csegs[k].1 <= i <= csegs[k].2
        },
        rs.len() == rsegs.len(),
        cs.len() == csegs.len(),
        forall|i: int, j: int| 0 <= i < n && 0 <= j < n ==> #[trigger] selection_covers(rsegs, rs, csegs, cs, i, j),
    ensures
        forall|z: int| 0 <= z < n * n ==> rs[#[trigger] rids[z] as int] || cs[cids[z] as int],
{
    assert forall|z: int| 0 <= z < n * n implies rs[#[trigger] rids[z] as int] || cs[cids[z] as int] by {
        let i = z / n;
        let j = z % n;
        assert(z == i * n + j && 0 <= i < n && 0 <= j < n) by (nonlinear_arith)
            requires 0 <= z < n * n, n >= 1, i == z / n, j == z % n;
        let r = rids[i * n + j] as int;
        let c = cids[i * n + j] as int;
        assert(selection_covers(rsegs, rs, csegs, cs, i, j));
        if exists|k: int| 0 <= k < rsegs.len() && #[trigger] rs[k] && rsegs[k].0 == i && rsegs[k].1 <= j <= rsegs[k].2 {
            let k = choose|k: int| 0 <= k < rsegs.len() && #[trigger] rs[k] && rsegs[k].0 == i && rsegs[k].1 <= j <= rsegs[k].2;
            assert(row_run(v, n, rsegs[k].0 as int, rsegs[k].1 as int, rsegs[k].2 as int));
            assert(row_run(v, n, rsegs[r].0 as int, rsegs[r].1 as int, rsegs[r].2 as int));
            lemma_row_runs_split(v, n, i, rsegs[k].1 as int, rsegs[k].2 as int, rsegs[r].1 as int, rsegs[r].2 as int, j);
            if k < r {
                assert(rsegs[k].0 < rsegs[r].0 || (rsegs[k].0 == rsegs[r].0 && rsegs[k].2 < rsegs[r].1));
            } else if r < k {
                assert(rsegs[r].0 < rsegs[k].0 || (rsegs[r].0 == rsegs[k].0 && rsegs[r].2 < rsegs[k].1));
            }
            assert(rs[r]);
        } else {
            let k = choose|k: int| 0 <= k < csegs.len() && #[trigger] cs[k] && csegs[k].0 == j && csegs[k].1 <= i <= csegs[k].2;
            assert(col_run(h, n, csegs[k].0 as int, csegs[k].1 as int, csegs[k].2 as int));
            assert(col_run(h, n, csegs[c].0 as int, csegs[c].1 as int, csegs[c].2 as int));
            lemma_col_runs_split(h, n, j, csegs[k].1 as int, csegs[k].2 as int, csegs[c].1 as int, csegs[c].2 as int, i);
            if k < c {
                assert(csegs[k].0 < csegs[c].0 || (csegs[k].0 == csegs[c].0 && csegs[k].2 < csegs[c].1));
            } else if c < k {
                assert(csegs[c].0 < csegs[k].0 || (csegs[c].0 == csegs[k].0 && csegs[c].2 < csegs[k].1));
            }
            assert(cs[c]);
        }
    }
}

/// A marked run makes the count of marks positive.
proof fn lemma_count_true_pos(sel: Seq<bool>, k: int)
    requires
        0 <= k < sel.len(),
        sel[k],
    ensures
        count_true(sel) >= 1,
    decreases sel.len(),
{
    if k < sel.len() - 1 {
        assert(sel.drop_last()[k] == sel[k]);
        lemma_count_true_pos(sel.drop_last(), k);
    }
}

/// Every marked run costs at least 1, so the marks are at most the cost.
proof fn lemma_count_le_marked_cost(segs: Seq<(usize, usize, usize)>, sel: Seq<bool>, k: int)
    requires
        0 <= k <= sel.len(),
    ensures
        count_true(sel.take(k)) <= marked_cost(segs, sel, k),
    decreases k,
{
    if k > 0 {
        lemma_count_le_marked_cost(segs, sel, k - 1);
        assert(sel.take(k).drop_last() =~= sel.take(k - 1));
    } else {
        assert(sel.take(0) =~= Seq::<bool>::empty());
    }
}

/// Nothing marked costs nothing.
proof fn lemma_marked_cost_none(segs: Seq<(usize, usize, usize)>, sel: Seq<bool>, k: int)
    requires
        forall|x: int| 0 <= x < k ==> !#[trigger] sel[x],
    ensures
        marked_cost(segs, sel, k) == 0,
    decreases k,
{
    if k > 0 {
        lemma_marked_cost_none(segs, sel, k - 1);
    }
}

/// Runs listed in order over an `n` x `n` board, all marked, cost at most
/// the number of cells up to the end of the last one: a run costs at most its
/// length, and runs do not overlap.
proof fn lemma_marked_cost_all_runs(segs: Seq<(usize, usize, usize)>, sel: Seq<bool>, n: int, k: int)
    requires
        1 <= k <= segs.len(),
        k <= sel.len(),
        forall|x: int| 0 <= x < k ==> #[trigger] sel[x],
        forall|x: int| 0 <= x < segs.len() ==> (#[trigger] segs[x]).0 < n && segs[x].1 <= segs[x].2 < n,
        runs_ordered(segs),
    ensures
        marked_cost(segs, sel, k) <= segs[k - 1].0 * n + segs[k - 1].2 + 1,
    decreases k,
{
    let cur = segs[k - 1];
    assert(sel[k - 1]);
    assert(cur.0 < n && cur.1 <= cur.2 < n);
    let i = cur.0 as int;
    assert(i * n >= 0) by (nonlinear_arith)
        requires i >= 0, n >= 0;
    assert(marked_cost(segs, sel, k) == marked_cost(segs, sel, k - 1) + run_cost(cur.1 as int, cur.2 as int));
    assert(run_cost(cur.1 as int, cur.2 as int) <= cur.2 - cur.1 + 1);
    if k == 1 {
        assert(marked_cost(segs, sel, 0) == 0);
    }
    if k > 1 {
        lemma_marked_cost_all_runs(segs, sel, n, k - 1);
        let prev = segs[k - 2];
        assert(prev.0 < n && prev.1 <= prev.2 < n);
        let i0 = prev.0 as int;
        assert(prev.0 < cur.0 || (prev.0 == cur.0 && prev.2 < cur.1));
        if prev.0 < cur.0 {
            assert(i0 * n + n <= i * n) by (nonlinear_arith)
                requires i0 < i, n >= 0;
        }
    }
}

/// A plan that covers every cell and costs no more than any other covering
/// choice of runs has between 1 and n * n robots: taking every row run covers
/// the board for at most n * n states.
proof fn lemma_plan_robot_count(plan: CoverPlan, v: Seq<Vec<bool>>, h: Seq<Vec<bool>>, n: int)
    requires
        n >= 1,
        plan_runs_ok(plan, v, h, n),
        forall|i: int, j: int| 0 <= i < n && 0 <= j < n ==> #[trigger] cell_covered(plan, i, j),
        forall|rs: Seq<bool>, cs: Seq<bool>|
            #![trigger selection_cost(plan.row_segs@, rs), selection_cost(plan.col_segs@, cs)]
            rs.len() == plan.row_segs@.len() && cs.len() == plan.col_segs@.len() && (forall|i: int, j: int|
                0 <= i < n && 0 <= j < n ==> #[trigger] selection_covers(plan.row_segs@, rs, plan.col_segs@, cs, i, j))
                ==> cover_cost(plan) <= selection_cost(plan.row_segs@, rs) + selection_cost(plan.col_segs@, cs),
    ensures
        1 <= count_true(plan.row_selected@) + count_true(plan.col_selected@) <= n * n,
{
    let rsegs = plan.row_segs@;
    let csegs = plan.col_segs@;
    let rsel = plan.row_selected@;
    let csel = plan.col_selected@;
    let p = rsegs.len() as int;
    let q = csegs.len() as int;
    assert(cell_covered(plan, 0, 0));
    if exists|k: int| 0 <= k < rsegs.len() && #[trigger] rsel[k] && rsegs[k].0 == 0 && rsegs[k].1 <= 0 <= rsegs[k].2 {
        let k = choose|k: int| 0 <= k < rsegs.len() && #[trigger] rsel[k] && rsegs[k].0 == 0 && rsegs[k].1 <= 0 <= rsegs[k].2;
        lemma_count_true_pos(rsel, k);
    } else {
        let k = choose|k: int| 0 <= k < csegs.len() && #[trigger] csel[k] && csegs[k].0 == 0 && csegs[k].1 <= 0 <= csegs[k].2;
        lemma_count_true_pos(csel, k);
    }
    lemma_count_le_marked_cost(rsegs, rsel, p);
    lemma_count_le_marked_cost(csegs, csel, q);
    assert(rsel.take(p) =~= rsel);
    assert(csel.take(q) =~= csel);
    let rs = Seq::new(p as nat, |x: int| true);
    let cs = Seq::new(q as nat, |x: int| false);
    assert forall|i: int, j: int| 0 <= i < n && 0 <= j < n implies #[trigger] selection_covers(rsegs, rs, csegs, cs, i, j) by {
        assert(run_holds(rsegs, i, j));
        let k = choose|k: int| 0 <= k < rsegs.len() && (#[trigger] rsegs[k]).0 == i && rsegs[k].1 <= j <= rsegs[k].2;
        assert(rs[k]);
    }
    assert(cover_cost(plan) <= selection_cost(rsegs, rs) + selection_cost(csegs, cs));
    lemma_marked_cost_none(csegs, cs, q);
    assert(run_holds(rsegs, 0, 0));
    assert(p >= 1);
    assert forall|x: int| 0 <= x < rsegs.len() implies (#[trigger] rsegs[x]).0 < n && rsegs[x].1 <= rsegs[x].2 < n by {
        assert(row_run(v, n, rsegs[x].0 as int, rsegs[x].1 as int, rsegs[x].2 as int));
    }
    lemma_marked_cost_all_runs(rsegs, rs, n, p);
    let last = rsegs[p - 1];
    let li = last.0 as int;
    let le = last.2 as int;
    assert(li * n + le + 1 <= n * n) by (nonlinear_arith)
        requires 0 <= li < n, 0 <= le < n;
}

/// Chooses the runs that get a robot: every cell is a vertex-cover edge
/// between its row run and its column run, a run costs `run_cost`, and the
/// cover comes from a minimum cut (source to row runs, column runs to sink,
/// each cell tying its two runs). Every cell ends up in a selected run, and
/// no other choice of runs that covers every cell costs less.
pub fn solve_cover(n: usize, v: &Vec<Vec<bool>>, h: &Vec<Vec<bool>>) -> (plan: CoverPlan)
    requires
        walls_shape(v@, h@, n as int),
        4 * (n * n) <= usize::MAX,
        n * n <= 0x0100_0000_0000_0000,
    ensures
        plan_runs_ok(plan, v@, h@, n as int),
        forall|i: int, j: int| 0 <= i < n && 0 <= j < n ==> #[trigger] cell_covered(plan, i, j),
        forall|rs: Seq<bool>, cs: Seq<bool>|
            #![trigger selection_cost(plan.row_segs@, rs), selection_cost(plan.col_segs@, cs)]
            rs.len() == plan.row_segs@.len() && cs.len() == plan.col_segs@.len() && (forall|i: int, j: int|
                0 <= i < n && 0 <= j < n ==> #[trigger] selection_covers(plan.row_segs@, rs, plan.col_segs@, cs, i, j))
                ==> cover_cost(plan) <= selection_cost(plan.row_segs@, rs) + selection_cost(plan.col_segs@, cs),
        1 <= count_true(plan.row_selected@) + count_true(plan.col_selected@) <= n * n,
        cover_cost(plan) == states_total(plan_robots(plan)),
        forall|rs: Seq<bool>, cs: Seq<bool>|
            #![trigger chosen_robots(plan.row_segs@, rs, plan.col_segs@, cs)]
            rs.len() == plan.row_segs@.len() && cs.len() == plan.col_segs@.len() && (forall|i: int, j: int|
                0 <= i < n && 0 <= j < n ==> #[trigger] selection_covers(plan.row_segs@, rs, plan.col_segs@, cs, i, j))
                ==> states_total(plan_robots(plan)) <= states_total(chosen_robots(plan.row_segs@, rs, plan.col_segs@, cs)),
{
    let (row_segs, row_ids) = row_segments(v, h, n);
    let (col_segs, col_ids) = col_segments(v, h, n);
    let p = row_segs.len();
    let q = col_segs.len();
    let nn = n * n;
    let ghost rsegs = row_segs@;
    let ghost csegs = col_segs@;
    let ghost rids = row_ids@;
    let ghost cids = col_ids@;
    proof {
        let ni = n as int;
        assert forall|y: int| 0 <= y < nn implies (#[trigger] row_ids@[y]) < p && col_ids@[y] < q by {
            let a = y / ni;
            let b = y % ni;
            assert(y == a * ni + b && 0 <= a < ni && 0 <= b < ni) by (nonlinear_arith)
                requires 0 <= y < ni * ni, ni >= 1, a == y / ni, b == y % ni;
            assert(0 <= (row_ids@[a * ni + b] as int) < p);
            assert(0 <= (col_ids@[a * ni + b] as int) < q);
        }
        assert forall|y: int| 0 <= y < nn implies (#[trigger] col_ids@[y]) < q by {
            assert(row_ids@[y] < p);
        }
    }
    let total_nodes = 2 + p + q;
    let mut graph = mf_new(total_nodes);
    let mut i: usize = 0;
    while i < p
        invariant
            i <= p,
            p == row_segs@.len(),
            mf_nodes(graph) == total_nodes,
            total_nodes == 2 + p + q,
            mf_edges(graph).len() == i,
            forall|k: int| 0 <= k < i ==> #[trigger] mf_edges(graph)[k] == (0usize, (2 + k) as usize, run_cost(row_segs@[k].1 as int, row_segs@[k].2 as int) as i64, 0i64),
        decreases p - i,
    {
        let c = seg_cost(row_segs[i].1, row_segs[i].2);
        mf_add_edge(&mut graph, 0, 2 + i, c);
        i += 1;
    }
    let mut j: usize = 0;
    while j < q
        invariant
            j <= q,
            p == row_segs@.len(),
            q == col_segs@.len(),
            mf_nodes(graph) == total_nodes,
            total_nodes == 2 + p + q,
            mf_edges(graph).len() == p + j,
            forall|k: int| 0 <= k < p ==> #[trigger] mf_edges(graph)[k] == (0usize, (2 + k) as usize, run_cost(row_segs@[k].1 as int, row_segs@[k].2 as int) as i64, 0i64),
            forall|k: int| 0 <= k < j ==> #[trigger] mf_edges(graph)[p + k] == ((2 + p + k) as usize, 1usize, run_cost(col_segs@[k].1 as int, col_segs@[k].2 as int) as i64, 0i64),
        decreases q - j,
    {
        let c = seg_cost(col_segs[j].1, col_segs[j].2);
        mf_add_edge(&mut graph, 2 + p + j, 1, c);
        j += 1;
    }
    let mut x: usize = 0;
    while x < nn
        invariant
            x <= nn,
            nn == n * n,
            p == row_segs@.len(),
            q == col_segs@.len(),
            row_ids@.len() == nn,
            col_ids@.len() == nn,
            forall|y: int| 0 <= y < nn ==> (#[trigger] row_ids@[y]) < p,
            forall|y: int| 0 <= y < nn ==> (#[trigger] col_ids@[y]) < q,
            mf_nodes(graph) == total_nodes,
            total_nodes == 2 + p + q,
            mf_edges(graph).len() == p + q + x,
            forall|k: int| 0 <= k < p ==> #[trigger] mf_edges(graph)[k] == (0usize, (2 + k) as usize, run_cost(row_segs@[k].1 as int, row_segs@[k].2 as int) as i64, 0i64),
            forall|k: int| 0 <= k < q ==> #[trigger] mf_edges(graph)[p + k] == ((2 + p + k) as usize, 1usize, run_cost(col_segs@[k].1 as int, col_segs@[k].2 as int) as i64, 0i64),
            forall|y: int| 0 <= y < x ==> #[trigger] mf_edges(graph)[p + q + y] == ((2 + row_ids@[y]) as usize, (2 + p + col_ids@[y]) as usize, TIE_CAP, 0i64),
        decreases nn - x,
    {
        let r = row_ids[x];
        let c = col_ids[x];
        mf_add_edge(&mut graph, 2 + r, 2 + p + c, TIE_CAP);
        x += 1;
    }
    let ghost es0 = mf_edges(graph);
    proof {
        assert forall|k: int| 0 <= k < es0.len() implies (#[trigger] es0[k]).3 == 0 && 0 <= es0[k].2 && (es0[k].0 == 0 ==> es0[k].2 <= 2) by {
            if k < p {
                assert(es0[k] == (0usize, (2 + k) as usize, run_cost(row_segs@[k].1 as int, row_segs@[k].2 as int) as i64, 0i64));
            } else if k < p + q {
                assert(es0[p + (k - p)] == ((2 + p + (k - p)) as usize, 1usize, run_cost(col_segs@[k - p].1 as int, col_segs@[k - p].2 as int) as i64, 0i64));
            } else {
                let y = k - p - q;
                assert(es0[p + q + y] == ((2 + row_ids@[y]) as usize, (2 + p + col_ids@[y]) as usize, TIE_CAP, 0i64));
            }
        }
        assert forall|v: int| 0 <= v < total_nodes && v != 0 && v != 1 implies #[trigger] flow_in(es0, v) == flow_out(es0, v) by {
            lemma_zero_flows(es0, v);
        }
        lemma_cap_out_bound(es0, 0, 2);
        assert(2 * es0.len() < i64::MAX) by (nonlinear_arith)
            requires es0.len() == p + q + nn, p <= nn, q <= nn, nn <= 0x0100_0000_0000_0000;
    }
    let _pushed = mf_flow(&mut graph, 0, 1);
    let cut = mf_min_cut(&graph, 0);
    let ghost es = mf_edges(graph);
    proof {
        assert(cover_network(es, rsegs, csegs, rids, cids)) by {
            assert forall|k: int| 0 <= k < p implies (#[trigger] es[k]).0 == 0 && es[k].1 == 2 + k && es[k].2
                == run_cost(rsegs[k].1 as int, rsegs[k].2 as int) by {
                assert(es0[k] == (0usize, (2 + k) as usize, run_cost(rsegs[k].1 as int, rsegs[k].2 as int) as i64, 0i64));
            }
            assert forall|k: int| 0 <= k < q implies (#[trigger] es[p + k]).0 == 2 + p + k && es[p + k].1 == 1
                && es[p + k].2 == run_cost(csegs[k].1 as int, csegs[k].2 as int) by {
                assert(es0[p + k] == ((2 + p + k) as usize, 1usize, run_cost(csegs[k].1 as int, csegs[k].2 as int) as i64, 0i64));
            }
            assert forall|y: int| 0 <= y < nn implies (#[trigger] es[p + q + y]).0 == 2 + rids[y] && es[p + q + y].1
                == 2 + p + cids[y] && es[p + q + y].2 == TIE_CAP by {
                assert(es0[p + q + y] == ((2 + rids[y]) as usize, (2 + p + cids[y]) as usize, TIE_CAP, 0i64));
            }
        }
        lemma_network_edges(es, rsegs, csegs, rids, cids);
        lemma_zero_flows(es0, 0);
        lemma_no_edge_in(es, 0);
        lemma_flow_out_le_cap_out(es, 0);
        lemma_same_edges_cap_out(es0, es, 0);
        assert(!residual_reach(es, 0, 1));
    }
    let mut row_selected: Vec<bool> = Vec::new();
    let mut k: usize = 0;
    while k < p
        invariant
            k <= p,
            cut@.len() == total_nodes,
            total_nodes == 2 + p + q,
            row_selected@.len() == k,
            forall|t: int| 0 <= t < k ==> #[trigger] row_selected@[t] == !cut@[2 + t],
        decreases p - k,
    {
        row_selected.push(!cut[2 + k]);
        k += 1;
    }
    let mut col_selected: Vec<bool> = Vec::new();
    let mut k: usize = 0;
    while k < q
        invariant
            k <= q,
            cut@.len() == total_nodes,
            total_nodes == 2 + p + q,
            col_selected@.len() == k,
            forall|t: int| 0 <= t < k ==> #[trigger] col_selected@[t] == cut@[2 + p + t],
        decreases q - k,
    {
        col_selected.push(cut[2 + p + k]);
        k += 1;
    }
    let plan = CoverPlan { row_segs, row_selected, col_segs, col_selected };
    proof {
        let ni = n as int;
        let nodes = total_nodes as int;
        let reached = reach_set(es, 0);
        lemma_reach_self(es, 0);
        assert forall|z: int| 0 <= z < nn && reached(2 + #[trigger] rids[z]) implies reached(2 + p + cids[z]) by {
            lemma_tie_edge_has_room(es, rsegs, csegs, rids, cids, z);
            assert(residual_edge(es, p + q + z, 2 + rids[z], 2 + p + cids[z]));
            lemma_reach_step(es, 0, 2 + rids[z], 2 + p + cids[z], p + q + z);
        }
        assert forall|i: int, j: int| 0 <= i < n && 0 <= j < n implies #[trigger] cell_covered(plan, i, j) by {
            crate::generator::lemma_cell_number(ni, i, j);
            let y = i * ni + j;
            let r = rids[y] as int;
            let c = cids[y] as int;
            if !plan.row_selected@[r] {
                assert(cut@[2 + r]);
                assert(residual_reach(es, 0, 2 + r));
                assert(reached(2 + rids[y]));
                assert(residual_reach(es, 0, 2 + p + c));
                assert(cut@[2 + p + c]);
                assert(plan.col_selected@[c]);
            }
        }
        assert forall|x: int| 0 <= x < p implies #[trigger] plan.row_selected@[x] == !reached(2 + x) by {
            assert(cut@[2 + x] == residual_reach(es, 0, 2 + x));
        }
        assert forall|x: int| 0 <= x < q implies #[trigger] plan.col_selected@[x] == reached(2 + p + x) by {
            assert(cut@[2 + p + x] == residual_reach(es, 0, 2 + p + x));
        }
        lemma_network_cut(es, rsegs, csegs, rids, cids, reached, plan.row_selected@, plan.col_selected@);
        lemma_flow_is_reach_cut(es, nodes, 0, 1);
        assert forall|rs: Seq<bool>, cs: Seq<bool>|
            #![trigger selection_cost(plan.row_segs@, rs), selection_cost(plan.col_segs@, cs)]
            rs.len() == plan.row_segs@.len() && cs.len() == plan.col_segs@.len() && (forall|i: int, j: int|
                0 <= i < n && 0 <= j < n ==> #[trigger] selection_covers(plan.row_segs@, rs, plan.col_segs@, cs, i, j))
                implies cover_cost(plan) <= selection_cost(plan.row_segs@, rs) + selection_cost(plan.col_segs@, cs) by {
            lemma_covering_choice_marks_cells(v@, h@, ni, rsegs, csegs, rids, cids, rs, cs);
            let inside = selection_cut(p as int, q as int, rs, cs);
            assert forall|z: int| 0 <= z < nn && inside(2 + #[trigger] rids[z]) implies inside(2 + p + cids[z]) by {
                assert(rs[rids[z] as int] || cs[cids[z] as int]);
            }
            assert forall|x: int| 0 <= x < p implies #[trigger] rs[x] == !inside(2 + x) by {}
            assert forall|x: int| 0 <= x < q implies #[trigger] cs[x] == inside(2 + p + x) by {}
            lemma_network_cut(es, rsegs, csegs, rids, cids, inside, rs, cs);
            lemma_flow_le_cut(es, nodes, 0, 1, inside);
        }
        assert forall|i: int, j: int| 0 <= i < n && 0 <= j < n implies #[trigger] run_holds(plan.row_segs@, i, j) by {
            let r = row_ids@[i * n + j] as int;
            assert(plan.row_segs@[r].0 == i);
        }
        assert forall|i: int, j: int| 0 <= i < n && 0 <= j < n implies #[trigger] run_holds(plan.col_segs@, j, i) by {
            let c = col_ids@[i * n + j] as int;
            assert(plan.col_segs@[c].0 == j);
        }
        lemma_plan_robot_count(plan, v@, h@, n as int);
        lemma_cover_cost_is_states(plan);
        assert forall|rs: Seq<bool>, cs: Seq<bool>|
            #![trigger chosen_robots(plan.row_segs@, rs, plan.col_segs@, cs)]
            rs.len() == plan.row_segs@.len() && cs.len() == plan.col_segs@.len() && (forall|i: int, j: int|
                0 <= i < n && 0 <= j < n ==> #[trigger] selection_covers(plan.row_segs@, rs, plan.col_segs@, cs, i, j))
                implies states_total(plan_robots(plan)) <= states_total(chosen_robots(plan.row_segs@, rs, plan.col_segs@, cs)) by {
            lemma_choice_cost_is_states(plan.row_segs@, rs, plan.col_segs@, cs);
            assert(cover_cost(plan) <= selection_cost(plan.row_segs@, rs) + selection_cost(plan.col_segs@, cs));
        }
    }
    plan
}

/// Number of `true` marks.
pub open spec fn count_true(s: Seq<bool>) -> nat
    decreases s.len(),
{
    if s.len() == 0 {
        0
    } else {
        count_true(s.drop_last()) + if s.last() { 1nat } else { 0nat }
    }
}

/// The lines of a robot that sweeps a run back and forth: `m r c dir`, then
/// its states (one state turning on the spot for a single cell; otherwise
/// forward until a wall, then turn twice).
pub open spec fn sweeper_text(single: bool, r: nat, c: nat, dir: char) -> Seq<char> {
    let head = dec_nat(r) + seq![' '] + dec_nat(c) + seq![' ', dir, '\n'];
    if single {
        seq!['1', ' '] + head + "R 0 R 0\n"@
    } else {
        seq!['2', ' '] + head + "F 0 R 1\nR 0 R 0\n"@
    }
}

/// The robots of the first `k` selected row runs, each starting at the left
/// end of its run facing right.
pub open spec fn row_robots_text(segs: Seq<(usize, usize, usize)>, sel: Seq<bool>, k: int) -> Seq<char>
    decreases k,
{
    if k <= 0 {
        Seq::empty()
    } else {
        row_robots_text(segs, sel, k - 1) + if sel[k - 1] {
            sweeper_text(segs[k - 1].1 == segs[k - 1].2, segs[k - 1].0 as nat, segs[k - 1].1 as nat, 'R')
        } else {
            Seq::empty()
        }
    }
}

/// The robots of the first `k` selected column runs, each starting at the
/// top of its run facing down.
pub open spec fn col_robots_text(segs: Seq<(usize, usize, usize)>, sel: Seq<bool>, k: int) -> Seq<char>
    decreases k,
{
    if k <= 0 {
        Seq::empty()
    } else {
        col_robots_text(segs, sel, k - 1) + if sel[k - 1] {
            sweeper_text(segs[k - 1].1 == segs[k - 1].2, segs[k - 1].1 as nat, segs[k - 1].0 as nat, 'D')
        } else {
            Seq::empty()
        }
    }
}

/// `count` lines of `width` zeros: no added wall.
pub open spec fn zero_lines(count: int, width: int) -> Seq<char>
    decreases count,
{
    if count <= 0 {
        Seq::empty()
    } else {
        zero_lines(count - 1, width) + Seq::new(width as nat, |x: int| '0').push('\n')
    }
}

/// The text of a cover plan for an `n` x `n` board: the number of robots,
/// the robots of the selected row runs, those of the selected column runs,
/// and no added wall.
pub open spec fn cover_text(n: int, plan: CoverPlan) -> Seq<char> {
    dec_nat(count_true(plan.row_selected@) + count_true(plan.col_selected@)) + seq!['\n']
        + row_robots_text(plan.row_segs@, plan.row_selected@, plan.row_segs@.len() as int)
        + col_robots_text(plan.col_segs@, plan.col_selected@, plan.col_segs@.len() as int)
        + zero_lines(n, n - 1) + zero_lines(n - 1, n)
}

/// Appends the lines of a sweeping robot.
fn push_sweeper(out: &mut Vec<char>, single: bool, r: usize, c: usize, dir: char)
    ensures
        final(out)@ == old(out)@ + sweeper_text(single, r as nat, c as nat, dir),
{
    let ghost start = out@;
    if single {
        out.push('1');
    } else {
        out.push('2');
    }
    out.push(' ');
    push_usize(out, r);
    out.push(' ');
    push_usize(out, c);
    out.push(' ');
    out.push(dir);
    out.push('\n');
    if single {
        push_str(out, "R 0 R 0\n");
    } else {
        push_str(out, "F 0 R 1\nR 0 R 0\n");
    }
    proof {
        assert(out@ =~= start + sweeper_text(single, r as nat, c as nat, dir));
    }
}

/// Appends `count` lines of `width` zeros.
pub fn push_zero_lines(out: &mut Vec<char>, count: usize, width: usize)
    ensures
        final(out)@ == old(out)@ + zero_lines(count as int, width as int),
{
    let ghost start = out@;
    let mut i: usize = 0;
    while i < count
        invariant
            i <= count,
            out@ == start + zero_lines(i as int, width as int),
        decreases count - i,
    {
        let ghost mid = out@;
        let mut k: usize = 0;
        while k < width
            invariant
                k <= width,
                out@ == mid + Seq::new(k as nat, |x: int| '0'),
            decreases width - k,
        {
            out.push('0');
            proof {
                assert(mid + Seq::new((k + 1) as nat, |x: int| '0') =~= (mid + Seq::new(k as nat, |x: int| '0')).push('0'));
            }
            k += 1;
        }
        out.push('\n');
        proof {
            assert(out@ =~= start + zero_lines(i + 1, width as int));
        }
        i += 1;
    }
}

/// The text of a cover plan (see `cover_text`).
pub fn cover_plan_text(n: usize, plan: &CoverPlan) -> (r: String)
    requires
        n >= 1,
        plan.row_selected@.len() == plan.row_segs@.len(),
        plan.col_selected@.len() == plan.col_segs@.len(),
        plan.row_segs@.len() + plan.col_segs@.len() <= usize::MAX,
    ensures
        r@ == cover_text(n as int, *plan),
{
    let mut rows: usize = 0;
    let mut k: usize = 0;
    while k < plan.row_selected.len()
        invariant
            k <= plan.row_selected@.len(),
            rows == count_true(plan.row_selected@.take(k as int)),
            rows <= k,
        decreases plan.row_selected@.len() - k,
    {
        proof {
            assert(plan.row_selected@.take(k + 1).drop_last() =~= plan.row_selected@.take(k as int));
        }
        if plan.row_selected[k] {
            rows += 1;
        }
        k += 1;
    }
    let mut cols: usize = 0;
    let mut k: usize = 0;
    while k < plan.col_selected.len()
        invariant
            k <= plan.col_selected@.len(),
            cols == count_true(plan.col_selected@.take(k as int)),
            cols <= k,
        decreases plan.col_selected@.len() - k,
    {
        proof {
            assert(plan.col_selected@.take(k + 1).drop_last() =~= plan.col_selected@.take(k as int));
        }
        if plan.col_selected[k] {
            cols += 1;
        }
        k += 1;
    }
    proof {
        assert(plan.row_selected@.take(plan.row_selected@.len() as int) =~= plan.row_selected@);
        assert(plan.col_selected@.take(plan.col_selected@.len() as int) =~= plan.col_selected@);
    }
    let mut out: Vec<char> = Vec::new();
    push_usize(&mut out, rows + cols);
    out.push('\n');
    let ghost head = out@;
    let mut k: usize = 0;
    while k < plan.row_segs.len()
        invariant
            k <= plan.row_segs@.len(),
            plan.row_selected@.len() == plan.row_segs@.len(),
            out@ == head + row_robots_text(plan.row_segs@, plan.row_selected@, k as int),
        decreases plan.row_segs@.len() - k,
    {
        if plan.row_selected[k] {
            let (row, sc, ec) = plan.row_segs[k];
            push_sweeper(&mut out, sc == ec, row, sc, 'R');
        }
        proof {
            assert(out@ =~= head + row_robots_text(plan.row_segs@, plan.row_selected@, k + 1));
        }
        k += 1;
    }
    let ghost mid = out@;
    let mut k: usize = 0;
    while k < plan.col_segs.len()
        invariant
            k <= plan.col_segs@.len(),
            plan.col_selected@.len() == plan.col_segs@.len(),
            out@ == mid + col_robots_text(plan.col_segs@, plan.col_selected@, k as int),
        decreases plan.col_segs@.len() - k,
    {
        if plan.col_selected[k] {
            let (col, sr, er) = plan.col_segs[k];
            push_sweeper(&mut out, sr == er, sr, col, 'D');
        }
        proof {
            assert(out@ =~= mid + col_robots_text(plan.col_segs@, plan.col_selected@, k + 1));
        }
        k += 1;
    }
    push_zero_lines(&mut out, n, n - 1);
    push_zero_lines(&mut out, n - 1, n);
    proof {
        assert(out@ =~= cover_text(n as int, *plan));
    }
    string_of_chars(&out)
}

/// The tokens of a sweeping robot's lines.
pub open spec fn sweeper_tokens(single: bool, r: nat, c: nat, dir: char) -> Seq<Seq<char>> {
    let head = seq![dec_nat(r), dec_nat(c), seq![dir]];
    if single {
        seq![seq!['1']] + head + seq![seq!['R'], seq!['0'], seq!['R'], seq!['0']]
    } else {
        seq![seq!['2']] + head + seq![seq!['F'], seq!['0'], seq!['R'], seq!['1'], seq!['R'], seq!['0'], seq!['R'], seq!['0']]
    }
}

/// The robot that a sweeper's lines describe.
pub open spec fn sweeper_model(single: bool, r: nat, c: nat, dir: char) -> RobotModel {
    if single {
        (1, r as int, c as int, dir_index(dir), seq!['R'], seq![0usize], seq!['R'], seq![0usize])
    } else {
        (2, r as int, c as int, dir_index(dir), seq!['F', 'R'], seq![0usize, 0usize], seq!['R', 'R'], seq![1usize, 0usize])
    }
}

/// The sweeper of a run: a row run is swept from its left end facing right,
/// a column run from its top facing down.
pub open spec fn run_sweeper(seg: (usize, usize, usize), rowwise: bool) -> (bool, nat, nat, char) {
    if rowwise {
        (seg.1 == seg.2, seg.0 as nat, seg.1 as nat, 'R')
    } else {
        (seg.1 == seg.2, seg.1 as nat, seg.0 as nat, 'D')
    }
}

/// The tokens of the sweepers of the first `k` marked runs.
pub open spec fn sweepers_tokens(segs: Seq<(usize, usize, usize)>, sel: Seq<bool>, k: int, rowwise: bool) -> Seq<Seq<char>>
    decreases k,
{
    if k <= 0 {
        Seq::empty()
    } else {
        sweepers_tokens(segs, sel, k - 1, rowwise) + if sel[k - 1] {
            let w = run_sweeper(segs[k - 1], rowwise);
            sweeper_tokens(w.0, w.1, w.2, w.3)
        } else {
            Seq::empty()
        }
    }
}

/// The robots of the first `k` marked runs.
pub open spec fn sweeper_models(segs: Seq<(usize, usize, usize)>, sel: Seq<bool>, k: int, rowwise: bool) -> Seq<RobotModel>
    decreases k,
{
    if k <= 0 {
        Seq::empty()
    } else {
        sweeper_models(segs, sel, k - 1, rowwise) + if sel[k - 1] {
            let w = run_sweeper(segs[k - 1], rowwise);
            seq![sweeper_model(w.0, w.1, w.2, w.3)]
        } else {
            Seq::empty()
        }
    }
}

/// The lines of the sweepers of the first `k` marked runs.
pub open spec fn sweepers_text(segs: Seq<(usize, usize, usize)>, sel: Seq<bool>, k: int, rowwise: bool) -> Seq<char> {
    if rowwise {
        row_robots_text(segs, sel, k)
    } else {
        col_robots_text(segs, sel, k)
    }
}

/// A line of `width` zeros.
pub open spec fn zero_row(width: int) -> Seq<char> {
    Seq::new(width as nat, |x: int| '0')
}

/// An automaton row of four one-letter items, before the tokens of what
/// follows.
proof fn lemma_state_row_tokens(a: char, x: char, b: char, y: char, rest: Seq<char>)
    requires
        !is_ws(a),
        !is_ws(x),
        !is_ws(b),
        !is_ws(y),
    ensures
        tokens(seq![a, ' ', x, ' ', b, ' ', y, '\n'] + rest) == seq![seq![a], seq![x], seq![b], seq![y]] + tokens(rest),
{
    assert(is_word(seq![a]) && is_word(seq![x]) && is_word(seq![b]) && is_word(seq![y]));
    assert(is_ws(' ') && is_ws('\n'));
    lemma_tokens_cons(seq![y], '\n', rest);
    let a3 = seq![y] + seq!['\n'] + rest;
    lemma_tokens_cons(seq![b], ' ', a3);
    let a2 = seq![b] + seq![' '] + a3;
    lemma_tokens_cons(seq![x], ' ', a2);
    let a1 = seq![x] + seq![' '] + a2;
    lemma_tokens_cons(seq![a], ' ', a1);
    assert(seq![a, ' ', x, ' ', b, ' ', y, '\n'] + rest =~= seq![a] + seq![' '] + a1);
    assert(seq![seq![a], seq![x], seq![b], seq![y]] + tokens(rest) =~= seq![seq![a]] + (seq![seq![x]] + (seq![seq![b]]
        + (seq![seq![y]] + tokens(rest)))));
}

/// The first line of a sweeper, `m r c dir`, before the tokens of what follows.
proof fn lemma_sweeper_head_tokens(m: char, r: nat, c: nat, dir: char, rest: Seq<char>)
    requires
        m == '1' || m == '2',
        dir == 'R' || dir == 'D',
    ensures
        tokens(seq![m, ' '] + (dec_nat(r) + seq![' '] + dec_nat(c) + seq![' ', dir, '\n']) + rest) == seq![
            seq![m],
            dec_nat(r),
            dec_nat(c),
            seq![dir],
        ] + tokens(rest),
{
    lemma_dec_word(r);
    lemma_dec_word(c);
    assert(is_word(seq![m]) && is_word(seq![dir]));
    assert(is_ws(' ') && is_ws('\n'));
    lemma_tokens_cons(seq![dir], '\n', rest);
    let h3 = seq![dir] + seq!['\n'] + rest;
    lemma_tokens_cons(dec_nat(c), ' ', h3);
    let h2 = dec_nat(c) + seq![' '] + h3;
    lemma_tokens_cons(dec_nat(r), ' ', h2);
    let h1 = dec_nat(r) + seq![' '] + h2;
    lemma_tokens_cons(seq![m], ' ', h1);
    assert(seq![m, ' '] + (dec_nat(r) + seq![' '] + dec_nat(c) + seq![' ', dir, '\n']) + rest =~= seq![m] + seq![' ']
        + h1);
    assert(seq![seq![m], dec_nat(r), dec_nat(c), seq![dir]] + tokens(rest) =~= seq![seq![m]] + (seq![dec_nat(r)] + (
    seq![dec_nat(c)] + (seq![seq![dir]] + tokens(rest)))));
}

/// The tokens of a sweeper's lines, before those of what follows.
proof fn lemma_sweeper_tokens(single: bool, r: nat, c: nat, dir: char, rest: Seq<char>)
    requires
        dir == 'R' || dir == 'D',
    ensures
        tokens(sweeper_text(single, r, c, dir) + rest) == sweeper_tokens(single, r, c, dir) + tokens(rest),
{
    reveal_strlit("R 0 R 0\n");
    reveal_strlit("F 0 R 1\nR 0 R 0\n");
    let head = dec_nat(r) + seq![' '] + dec_nat(c) + seq![' ', dir, '\n'];
    let last_row = seq!['R', ' ', '0', ' ', 'R', ' ', '0', '\n'];
    let first_row = seq!['F', ' ', '0', ' ', 'R', ' ', '1', '\n'];
    lemma_state_row_tokens('R', '0', 'R', '0', rest);
    let tail = last_row + rest;
    if single {
        assert("R 0 R 0\n"@ =~= last_row);
        lemma_sweeper_head_tokens('1', r, c, dir, tail);
        assert(sweeper_text(single, r, c, dir) + rest =~= seq!['1', ' '] + head + tail);
    } else {
        assert("F 0 R 1\nR 0 R 0\n"@ =~= first_row + last_row);
        lemma_state_row_tokens('F', '0', 'R', '1', tail);
        let states = first_row + tail;
        lemma_sweeper_head_tokens('2', r, c, dir, states);
        assert(sweeper_text(single, r, c, dir) + rest =~= seq!['2', ' '] + head + states);
    }
    assert(tokens(sweeper_text(single, r, c, dir) + rest) =~= sweeper_tokens(single, r, c, dir) + tokens(rest));
}

/// The tokens of the sweepers of the first `k` marked runs, before those of
/// what follows.
proof fn lemma_sweepers_tokens(segs: Seq<(usize, usize, usize)>, sel: Seq<bool>, k: int, rowwise: bool, rest: Seq<char>)
    requires
        0 <= k <= segs.len(),
        k <= sel.len(),
    ensures
        tokens(sweepers_text(segs, sel, k, rowwise) + rest) == sweepers_tokens(segs, sel, k, rowwise) + tokens(rest),
    decreases k,
{
    if k == 0 {
        assert(sweepers_text(segs, sel, k, rowwise) + rest =~= rest);
        assert(sweepers_tokens(segs, sel, k, rowwise) + tokens(rest) =~= tokens(rest));
    } else {
        let w = run_sweeper(segs[k - 1], rowwise);
        let own = if sel[k - 1] { sweeper_text(w.0, w.1, w.2, w.3) } else { Seq::empty() };
        let rest2 = own + rest;
        lemma_sweepers_tokens(segs, sel, k - 1, rowwise, rest2);
        assert(sweepers_text(segs, sel, k, rowwise) + rest =~= sweepers_text(segs, sel, k - 1, rowwise) + rest2);
        if sel[k - 1] {
            lemma_sweeper_tokens(w.0, w.1, w.2, w.3, rest);
        } else {
            assert(rest2 =~= rest);
        }
        assert(sweepers_tokens(segs, sel, k, rowwise) + tokens(rest) =~= sweepers_tokens(segs, sel, k - 1, rowwise)
            + tokens(rest2));
    }
}

/// Lines of zeros, each a token, before the tokens of what follows.
pub proof fn lemma_zero_lines_tokens(count: int, width: int, rest: Seq<char>)
    requires
        0 <= count,
        1 <= width,
    ensures
        tokens(zero_lines(count, width) + rest) == Seq::new(count as nat, |x: int| zero_row(width)) + tokens(rest),
    decreases count,
{
    if count == 0 {
        assert(zero_lines(count, width) + rest =~= rest);
        assert(Seq::new(count as nat, |x: int| zero_row(width)) + tokens(rest) =~= tokens(rest));
    } else {
        let z = zero_row(width);
        let rest2 = z + seq!['\n'] + rest;
        lemma_zero_lines_tokens(count - 1, width, rest2);
        assert(zero_lines(count, width) + rest =~= zero_lines(count - 1, width) + rest2);
        assert(is_word(z));
        assert(is_ws('\n'));
        lemma_tokens_cons(z, '\n', rest);
        assert(Seq::new(count as nat, |x: int| zero_row(width)) + tokens(rest) =~= Seq::new(
            (count - 1) as nat,
            |x: int| zero_row(width),
        ) + (seq![z] + tokens(rest)));
    }
}

/// Reading one sweeper's tokens gives its robot.
proof fn lemma_parse_sweeper(t: Seq<Seq<char>>, p: int, n: int, single: bool, r: nat, c: nat, dir: char)
    requires
        n >= 1,
        r <= usize::MAX,
        c <= usize::MAX,
        dir == 'R' || dir == 'D',
        0 <= p,
        p + sweeper_tokens(single, r, c, dir).len() <= t.len(),
        t.subrange(p, p + sweeper_tokens(single, r, c, dir).len()) == sweeper_tokens(single, r, c, dir),
    ensures
        parse_robot(t, p, n) == Ok::<_, OutputError>(
            (sweeper_model(single, r, c, dir), p + sweeper_tokens(single, r, c, dir).len()),
        ),
{
    let st = sweeper_tokens(single, r, c, dir);
    if single {
        assert(st =~= seq![seq!['1'], dec_nat(r), dec_nat(c), seq![dir], seq!['R'], seq!['0'], seq!['R'], seq!['0']]);
    } else {
        assert(st =~= seq![
            seq!['2'],
            dec_nat(r),
            dec_nat(c),
            seq![dir],
            seq!['F'],
            seq!['0'],
            seq!['R'],
            seq!['1'],
            seq!['R'],
            seq!['0'],
            seq!['R'],
            seq!['0'],
        ]);
    }
    assert forall|i: int| 0 <= i < st.len() implies t[p + i] == #[trigger] st[i] by {
        assert(t.subrange(p, p + st.len())[i] == t[p + i]);
    }
    lemma_parse_dec_usize(r as usize);
    lemma_parse_dec_usize(c as usize);
    lemma_parse_dec_usize(0usize);
    lemma_parse_dec_usize(1usize);
    lemma_parse_dec_usize(2usize);
    assert(dec_nat(0) =~= seq!['0']);
    assert(dec_nat(1) =~= seq!['1']);
    assert(dec_nat(2) =~= seq!['2']);
    assert(t[p + 3][0] == dir);
    assert(4 * n * n >= 4) by (nonlinear_arith)
        requires n >= 1;
    let empty = (Seq::<char>::empty(), Seq::<usize>::empty(), Seq::<char>::empty(), Seq::<usize>::empty());
    if single {
        assert(t[p + 4][0] == 'R' && t[p + 6][0] == 'R');
        assert(parse_states(t, p + 8, 1, 0, (seq!['R'], seq![0usize], seq!['R'], seq![0usize])) == Ok::<_, OutputError>(
            ((seq!['R'], seq![0usize], seq!['R'], seq![0usize]), p + 8),
        ));
        assert(empty.0.push('R') =~= seq!['R'] && empty.1.push(0usize) =~= seq![0usize]);
        assert(parse_states(t, p + 4, 1, 1, empty) == Ok::<_, OutputError>(
            ((seq!['R'], seq![0usize], seq!['R'], seq![0usize]), p + 8),
        ));
    } else {
        assert(t[p + 4][0] == 'F' && t[p + 6][0] == 'R' && t[p + 8][0] == 'R' && t[p + 10][0] == 'R');
        let one_row = (seq!['F'], seq![0usize], seq!['R'], seq![1usize]);
        let two_rows = (seq!['F', 'R'], seq![0usize, 0usize], seq!['R', 'R'], seq![1usize, 0usize]);
        assert(parse_states(t, p + 12, 2, 0, two_rows) == Ok::<_, OutputError>((two_rows, p + 12)));
        assert(one_row.0.push('R') =~= two_rows.0 && one_row.1.push(0usize) =~= two_rows.1);
        assert(one_row.2.push('R') =~= two_rows.2 && one_row.3.push(0usize) =~= two_rows.3);
        assert(parse_states(t, p + 8, 2, 1, one_row) == Ok::<_, OutputError>((two_rows, p + 12)));
        assert(empty.0.push('F') =~= one_row.0 && empty.1.push(0usize) =~= one_row.1);
        assert(empty.2.push('R') =~= one_row.2 && empty.3.push(1usize) =~= one_row.3);
        assert(parse_states(t, p + 4, 2, 2, empty) == Ok::<_, OutputError>((two_rows, p + 12)));
    }
}

/// Number of marks among the first `k`.
proof fn lemma_count_true_take(sel: Seq<bool>, k: int)
    requires
        0 < k <= sel.len(),
    ensures
        count_true(sel.take(k)) == count_true(sel.take(k - 1)) + if sel[k - 1] { 1nat } else { 0nat },
{
    assert(sel.take(k).drop_last() =~= sel.take(k - 1));
}

/// Reading the sweepers of the first `k` marked runs gives their robots, one
/// after the other.
proof fn lemma_parse_sweepers(
    t: Seq<Seq<char>>,
    p: int,
    n: int,
    segs: Seq<(usize, usize, usize)>,
    sel: Seq<bool>,
    k: int,
    rowwise: bool,
    left: int,
    acc: Seq<RobotModel>,
)
    requires
        n >= 1,
        0 <= k <= segs.len(),
        k <= sel.len(),
        0 <= left,
        0 <= p,
        p + sweepers_tokens(segs, sel, k, rowwise).len() <= t.len(),
        t.subrange(p, p + sweepers_tokens(segs, sel, k, rowwise).len()) == sweepers_tokens(segs, sel, k, rowwise),
    ensures
        parse_robots(t, p, n, count_true(sel.take(k)) + left, acc) == parse_robots(
            t,
            p + sweepers_tokens(segs, sel, k, rowwise).len(),
            n,
            left,
            acc + sweeper_models(segs, sel, k, rowwise),
        ),
    decreases k,
{
    if k == 0 {
        assert(sel.take(0) =~= Seq::<bool>::empty());
        assert(acc + sweeper_models(segs, sel, k, rowwise) =~= acc);
    } else {
        let prev = sweepers_tokens(segs, sel, k - 1, rowwise);
        let all = sweepers_tokens(segs, sel, k, rowwise);
        let extra = if sel[k - 1] { 1int } else { 0int };
        lemma_count_true_take(sel, k);
        assert(t.subrange(p, p + prev.len()) =~= prev) by {
            assert forall|i: int| 0 <= i < prev.len() implies t.subrange(p, p + prev.len())[i] == prev[i] by {
                assert(all[i] == prev[i]);
                assert(t.subrange(p, p + all.len())[i] == t[p + i]);
            }
        }
        lemma_parse_sweepers(t, p, n, segs, sel, k - 1, rowwise, left + extra, acc);
        let q = p + prev.len();
        let mid = acc + sweeper_models(segs, sel, k - 1, rowwise);
        if sel[k - 1] {
            let w = run_sweeper(segs[k - 1], rowwise);
            let st = sweeper_tokens(w.0, w.1, w.2, w.3);
            assert(all =~= prev + st);
            assert(t.subrange(q, q + st.len()) =~= st) by {
                assert forall|i: int| 0 <= i < st.len() implies t.subrange(q, q + st.len())[i] == st[i] by {
                    assert(all[prev.len() + i] == st[i]);
                    assert(t.subrange(p, p + all.len())[prev.len() + i] == t[p + prev.len() + i]);
                }
            }
            lemma_parse_sweeper(t, q, n, w.0, w.1, w.2, w.3);
            assert(mid.push(sweeper_model(w.0, w.1, w.2, w.3)) =~= acc + sweeper_models(segs, sel, k, rowwise));
        } else {
            assert(all =~= prev);
            assert(mid =~= acc + sweeper_models(segs, sel, k, rowwise));
        }
    }
}

/// The tokens of a plan's text: the number of robots, the sweepers of the
/// row runs, those of the column runs, and the lines of zeros.
proof fn lemma_cover_text_tokens(n: int, plan: CoverPlan)
    requires
        n >= 2,
        plan.row_selected@.len() == plan.row_segs@.len(),
        plan.col_selected@.len() == plan.col_segs@.len(),
    ensures
        tokens(cover_text(n, plan)) == seq![dec_nat(count_true(plan.row_selected@) + count_true(plan.col_selected@))]
            + sweepers_tokens(plan.row_segs@, plan.row_selected@, plan.row_segs@.len() as int, true) + sweepers_tokens(
            plan.col_segs@,
            plan.col_selected@,
            plan.col_segs@.len() as int,
            false,
        ) + Seq::new(n as nat, |x: int| zero_row(n - 1)) + Seq::new((n - 1) as nat, |x: int| zero_row(n)),
{
    let rsegs = plan.row_segs@;
    let csegs = plan.col_segs@;
    let rsel = plan.row_selected@;
    let csel = plan.col_selected@;
    let p = rsegs.len() as int;
    let q = csegs.len() as int;
    let kk = count_true(rsel) + count_true(csel);
    let rt = row_robots_text(rsegs, rsel, p);
    let ct = col_robots_text(csegs, csel, q);
    let z1 = zero_lines(n, n - 1);
    let z2 = zero_lines(n - 1, n);
    let s1 = Seq::new(n as nat, |x: int| zero_row(n - 1));
    let s2 = Seq::new((n - 1) as nat, |x: int| zero_row(n));
    let rtok = sweepers_tokens(rsegs, rsel, p, true);
    let ctok = sweepers_tokens(csegs, csel, q, false);
    lemma_tokens_empty();
    lemma_zero_lines_tokens(n - 1, n, Seq::<char>::empty());
    assert(z2 + Seq::<char>::empty() =~= z2);
    assert(tokens(z2) =~= s2);
    lemma_zero_lines_tokens(n, n - 1, z2);
    lemma_sweepers_tokens(csegs, csel, q, false, z1 + z2);
    assert(sweepers_text(csegs, csel, q, false) == ct);
    lemma_sweepers_tokens(rsegs, rsel, p, true, ct + (z1 + z2));
    assert(sweepers_text(rsegs, rsel, p, true) == rt);
    lemma_dec_word(kk);
    assert(is_ws('\n'));
    lemma_tokens_cons(dec_nat(kk), '\n', rt + (ct + (z1 + z2)));
    assert(cover_text(n, plan) =~= dec_nat(kk) + seq!['\n'] + (rt + (ct + (z1 + z2))));
    assert(seq![dec_nat(kk)] + (rtok + (ctok + (s1 + s2))) =~= seq![dec_nat(kk)] + rtok + ctok + s1 + s2);
}

/// Reading the robots of a plan's text: the sweepers of the row runs, then
/// those of the column runs, ending right after them.
proof fn lemma_plan_robots_parse(n: int, plan: CoverPlan)
    requires
        n >= 2,
        plan.row_selected@.len() == plan.row_segs@.len(),
        plan.col_selected@.len() == plan.col_segs@.len(),
    ensures
        ({
            let t = tokens(cover_text(n, plan));
            let rm = sweeper_models(plan.row_segs@, plan.row_selected@, plan.row_segs@.len() as int, true);
            let cm = sweeper_models(plan.col_segs@, plan.col_selected@, plan.col_segs@.len() as int, false);
            let pc = (1 + sweepers_tokens(plan.row_segs@, plan.row_selected@, plan.row_segs@.len() as int, true).len()
                + sweepers_tokens(plan.col_segs@, plan.col_selected@, plan.col_segs@.len() as int, false).len()) as int;
            parse_robots(t, 1, n, (count_true(plan.row_selected@) + count_true(plan.col_selected@)) as int, Seq::empty())
                == Ok::<_, OutputError>((rm + cm, pc))
        }),
{
    let rsegs = plan.row_segs@;
    let csegs = plan.col_segs@;
    let rsel = plan.row_selected@;
    let csel = plan.col_selected@;
    let p = rsegs.len() as int;
    let q = csegs.len() as int;
    let rtok = sweepers_tokens(rsegs, rsel, p, true);
    let ctok = sweepers_tokens(csegs, csel, q, false);
    lemma_cover_text_tokens(n, plan);
    let t = tokens(cover_text(n, plan));
    let pr: int = 1 + rtok.len() as int;
    let pc: int = pr + ctok.len();
    assert(t.subrange(1, pr) =~= rtok);
    assert(t.subrange(pr, pc) =~= ctok);
    assert(rsel.take(p) =~= rsel);
    assert(csel.take(q) =~= csel);
    lemma_parse_sweepers(t, 1, n, rsegs, rsel, p, true, count_true(csel) as int, Seq::empty());
    let rm = sweeper_models(rsegs, rsel, p, true);
    assert(Seq::<RobotModel>::empty() + rm =~= rm);
    lemma_parse_sweepers(t, pr, n, csegs, csel, q, false, 0, rm);
}

/// The lines of zeros of a plan's text pass as added walls: none.
proof fn lemma_plan_walls_parse(n: int, plan: CoverPlan, pc: int)
    requires
        n >= 2,
        plan.row_selected@.len() == plan.row_segs@.len(),
        plan.col_selected@.len() == plan.col_segs@.len(),
        pc == 1 + sweepers_tokens(plan.row_segs@, plan.row_selected@, plan.row_segs@.len() as int, true).len()
            + sweepers_tokens(plan.col_segs@, plan.col_selected@, plan.col_segs@.len() as int, false).len(),
    ensures
        ({
            let t = tokens(cover_text(n, plan));
            &&& first_bad_row(t, pc, n, n - 1) is None
            &&& first_bad_row(t, pc + n, n - 1, n) is None
            &&& t.subrange(pc, pc + n) == Seq::new(n as nat, |x: int| zero_row(n - 1))
            &&& t.subrange(pc + n, pc + n + n - 1) == Seq::new((n - 1) as nat, |x: int| zero_row(n))
        }),
{
    let s1 = Seq::new(n as nat, |x: int| zero_row(n - 1));
    let s2 = Seq::new((n - 1) as nat, |x: int| zero_row(n));
    lemma_cover_text_tokens(n, plan);
    let t = tokens(cover_text(n, plan));
    assert forall|x: int| pc <= x < pc + n implies byte_len(#[trigger] t[x]) == n - 1 by {
        assert(t[x] == s1[x - pc]);
        lemma_binary_bytes(zero_row(n - 1));
    }
    assert forall|x: int| pc + n <= x < pc + n + (n - 1) implies byte_len(#[trigger] t[x]) == n by {
        assert(t[x] == s2[x - pc - n]);
        lemma_binary_bytes(zero_row(n));
    }
    lemma_rows_pass(t, pc, n, n - 1);
    lemma_rows_pass(t, pc + n, n - 1, n);
    assert(t.subrange(pc, pc + n) =~= s1);
    assert(t.subrange(pc + n, pc + n + n - 1) =~= s2);
}

/// The robots of a plan: the sweepers of the selected row runs, then those of
/// the selected column runs.
pub open spec fn plan_robots(plan: CoverPlan) -> Seq<RobotModel> {
    sweeper_models(plan.row_segs@, plan.row_selected@, plan.row_segs@.len() as int, true) + sweeper_models(
        plan.col_segs@,
        plan.col_selected@,
        plan.col_segs@.len() as int,
        false,
    )
}

/// A plan's text reads back as its robots: for a board of at least 2 x 2 and
/// between 1 and n * n robots, reading the text gives the sweepers of the
/// selected row runs, then those of the selected column runs, and no added
/// wall.
pub proof fn lemma_cover_text_reads_back(n: int, plan: CoverPlan)
    requires
        n >= 2,
        plan.row_selected@.len() == plan.row_segs@.len(),
        plan.col_selected@.len() == plan.col_segs@.len(),
        1 <= count_true(plan.row_selected@) + count_true(plan.col_selected@) <= n * n,
        count_true(plan.row_selected@) + count_true(plan.col_selected@) <= usize::MAX,
    ensures
        parse_output_spec(n, tokens(cover_text(n, plan))) == Ok::<_, OutputError>(
            (
                plan_robots(plan),
                Seq::new(n as nat, |x: int| zero_row(n - 1)),
                Seq::new((n - 1) as nat, |x: int| zero_row(n)),
            ),
        ),
{
    let kk = count_true(plan.row_selected@) + count_true(plan.col_selected@);
    let pc = (1 + sweepers_tokens(plan.row_segs@, plan.row_selected@, plan.row_segs@.len() as int, true).len()
        + sweepers_tokens(plan.col_segs@, plan.col_selected@, plan.col_segs@.len() as int, false).len()) as int;
    lemma_cover_text_tokens(n, plan);
    let t = tokens(cover_text(n, plan));
    assert(t[0] == dec_nat(kk));
    lemma_parse_dec_usize(kk as usize);
    lemma_plan_robots_parse(n, plan);
    lemma_plan_walls_parse(n, plan, pc);
}

/// The robot states of two lists of robots together.
pub proof fn lemma_states_total_append(a: Seq<RobotModel>, b: Seq<RobotModel>)
    ensures
        states_total(a + b) == states_total(a) + states_total(b),
    decreases b.len(),
{
    if b.len() == 0 {
        assert(a + b =~= a);
    } else {
        lemma_states_total_append(a, b.drop_last());
        assert((a + b).drop_last() =~= a + b.drop_last());
        assert((a + b).last() == b.last());
    }
}

/// What a run costs is the number of states of the robot printed for it:
/// one for a single cell, two for a longer run.
pub proof fn lemma_run_cost_is_sweeper_states(seg: (usize, usize, usize), rowwise: bool)
    ensures
        ({
            let w = run_sweeper(seg, rowwise);
            run_cost(seg.1 as int, seg.2 as int) == sweeper_model(w.0, w.1, w.2, w.3).0
        }),
        seg.1 == seg.2 ==> run_cost(seg.1 as int, seg.2 as int) == 1,
        seg.1 != seg.2 ==> run_cost(seg.1 as int, seg.2 as int) == 2,
{
}

/// The cost of the marked runs is the number of states of their robots.
pub proof fn lemma_marked_cost_is_states(segs: Seq<(usize, usize, usize)>, sel: Seq<bool>, k: int, rowwise: bool)
    ensures
        states_total(sweeper_models(segs, sel, k, rowwise)) == marked_cost(segs, sel, k),
    decreases k,
{
    if k > 0 {
        lemma_marked_cost_is_states(segs, sel, k - 1, rowwise);
        let prev = sweeper_models(segs, sel, k - 1, rowwise);
        let w = run_sweeper(segs[k - 1], rowwise);
        let add = if sel[k - 1] { seq![sweeper_model(w.0, w.1, w.2, w.3)] } else { Seq::<RobotModel>::empty() };
        lemma_states_total_append(prev, add);
        lemma_run_cost_is_sweeper_states(segs[k - 1], rowwise);
        if sel[k - 1] {
            assert(add.drop_last() =~= Seq::<RobotModel>::empty());
            assert(states_total(Seq::<RobotModel>::empty()) == 0);
            assert(add.last() == sweeper_model(w.0, w.1, w.2, w.3));
            assert(states_total(add) == states_total(add.drop_last()) + add.last().0);
            assert(states_total(add) == sweeper_model(w.0, w.1, w.2, w.3).0);
        } else {
            assert(states_total(add) == 0);
        }
        assert(sweeper_models(segs, sel, k, rowwise) == prev + add);
    }
}

/// The cost of a plan is the number of automaton states of the robots its
/// text describes, the number the judge adds up.
pub proof fn lemma_cover_cost_is_states(plan: CoverPlan)
    requires
        plan.row_selected@.len() == plan.row_segs@.len(),
        plan.col_selected@.len() == plan.col_segs@.len(),
    ensures
        cover_cost(plan) == states_total(plan_robots(plan)),
{
    let rr = sweeper_models(plan.row_segs@, plan.row_selected@, plan.row_segs@.len() as int, true);
    let cc = sweeper_models(plan.col_segs@, plan.col_selected@, plan.col_segs@.len() as int, false);
    lemma_states_total_append(rr, cc);
    lemma_marked_cost_is_states(plan.row_segs@, plan.row_selected@, plan.row_segs@.len() as int, true);
    lemma_marked_cost_is_states(plan.col_segs@, plan.col_selected@, plan.col_segs@.len() as int, false);
}

/// The robots a choice of runs gets: sweepers of the chosen row runs, then
/// of the chosen column runs.
pub open spec fn chosen_robots(
    rsegs: Seq<(usize, usize, usize)>,
    rs: Seq<bool>,
    csegs: Seq<(usize, usize, usize)>,
    cs: Seq<bool>,
) -> Seq<RobotModel> {
    sweeper_models(rsegs, rs, rs.len() as int, true) + sweeper_models(csegs, cs, cs.len() as int, false)
}

/// Choosing runs costs the number of states of the robots chosen.
pub proof fn lemma_choice_cost_is_states(
    rsegs: Seq<(usize, usize, usize)>,
    rs: Seq<bool>,
    csegs: Seq<(usize, usize, usize)>,
    cs: Seq<bool>,
)
    ensures
        states_total(chosen_robots(rsegs, rs, csegs, cs)) == selection_cost(rsegs, rs) + selection_cost(csegs, cs),
{
    lemma_states_total_append(sweeper_models(rsegs, rs, rs.len() as int, true), sweeper_models(csegs, cs, cs.len() as int, false));
    lemma_marked_cost_is_states(rsegs, rs, rs.len() as int, true);
    lemma_marked_cost_is_states(csegs, cs, cs.len() as int, false);
}

} // verus!


