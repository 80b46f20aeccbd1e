//! Scoring an automaton set over many boards.

use vstd::prelude::*;
use crate::annealer::{N, CELLS, NUM_AUTOS, STATE_SPACE, AutoSet, AutoTable, set_wf, table_wf};
use crate::annealer::board::Board;
use crate::annealer::sim::{cycle_cover, simulate, lemma_cycle_cover_bound};

verus! {

/// Cover of one robot running automaton `k` of the set, started at (r, c) facing `d`.
pub open spec fn robot_cover(b: Board, set: AutoSet, r: int, c: int, k: int, d: int) -> int {
    cycle_cover(b, set[k], (r, c, d, 0)) as int
}

/// The best cover of the board over the first `n` (automaton, direction) pairs,
/// taken in the order automaton-major, direction-minor.
pub open spec fn best_cover_upto(b: Board, set: AutoSet, r: int, c: int, n: int) -> int
    decreases n,
{
    if n <= 0 {
        0
    } else {
        let prev = best_cover_upto(b, set, r, c, n - 1);
        let cur = robot_cover(b, set, r, c, (n - 1) / 4, (n - 1) % 4);
        if cur > prev { cur } else { prev }
    }
}

/// The best cover over the first `n` (automaton, direction) pairs is at
/// least the cover of each of them, and is the cover of one of them (0 with
/// none).
pub proof fn lemma_best_cover_upto_is_max(b: Board, set: AutoSet, r: int, c: int, n: int)
    requires
        0 <= n,
    ensures
        forall|k: int, d: int|
            0 <= k && 0 <= d < 4 && 4 * k + d < n ==> best_cover_upto(b, set, r, c, n) >= #[trigger] robot_cover(b, set, r, c, k, d),
        n == 0 ==> best_cover_upto(b, set, r, c, n) == 0,
        n > 0 ==> exists|k: int, d: int|
            0 <= k && 0 <= d < 4 && 4 * k + d < n && #[trigger] robot_cover(b, set, r, c, k, d) == best_cover_upto(b, set, r, c, n),
    decreases n,
{
    if n > 0 {
        lemma_best_cover_upto_is_max(b, set, r, c, n - 1);
        let k0 = (n - 1) / 4;
        let d0 = (n - 1) % 4;
        assert(4 * k0 + d0 == n - 1);
        let best = best_cover_upto(b, set, r, c, n);
        assert forall|k: int, d: int| 0 <= k && 0 <= d < 4 && 4 * k + d < n implies best >= #[trigger] robot_cover(b, set, r, c, k, d) by {
            if 4 * k + d == n - 1 {
                assert(k == k0 && d == d0);
            }
        }
        if best == robot_cover(b, set, r, c, k0, d0) {
            assert(robot_cover(b, set, r, c, k0, d0) == best);
        } else {
            let (k, d) = choose|k: int, d: int|
                0 <= k && 0 <= d < 4 && 4 * k + d < n - 1 && #[trigger] robot_cover(b, set, r, c, k, d) == best_cover_upto(b, set, r, c, n - 1);
            assert(robot_cover(b, set, r, c, k, d) == best);
        }
    }
}

/// The best cover of the board over every automaton of the set and every start direction.
pub open spec fn board_best(b: Board, set: AutoSet, r: int, c: int) -> int {
    best_cover_upto(b, set, r, c, 24)
}

/// Statistics of a run: (total cover, boards fully covered, boards with at least 399,
/// 398, 395 and 380 covered cells, smallest cover).
pub type StatsModel = (int, int, int, int, int, int, int);

/// Adding the result of one more board to the statistics.
pub open spec fn add_board(st: StatsModel, best: int) -> StatsModel {
    (
        st.0 + best,
        st.1 + (if best == CELLS { 1int } else { 0 }),
        st.2 + (if best >= 399 { 1int } else { 0 }),
        st.3 + (if best >= 398 { 1int } else { 0 }),
        st.4 + (if best >= 395 { 1int } else { 0 }),
        st.5 + (if best >= 380 { 1int } else { 0 }),
        if best < st.6 { best } else { st.6 },
    )
}

/// Statistics of a sequence of per-board best covers, starting from the
/// neutral element whose smallest cover is `N * N`.
pub open spec fn stats_of(bests: Seq<int>) -> StatsModel
    decreases bests.len(),
{
    if bests.len() == 0 {
        (0, 0, 0, 0, 0, 0, CELLS as int)
    } else {
        add_board(stats_of(bests.drop_last()), bests.last())
    }
}

/// Combining the statistics of two groups of boards.
pub open spec fn merge_model(a: StatsModel, b: StatsModel) -> StatsModel {
    (a.0 + b.0, a.1 + b.1, a.2 + b.2, a.3 + b.3, a.4 + b.4, a.5 + b.5, if b.6 < a.6 { b.6 } else { a.6 })
}

/// Per-board best covers of `boards[lo..hi]`.
pub open spec fn bests_of(boards: Seq<Board>, set: AutoSet, r: int, c: int, lo: int, hi: int) -> Seq<int> {
    Seq::new((hi - lo) as nat, |i: int| board_best(boards[lo + i], set, r, c))
}

/// Evaluation statistics of an automaton set.
#[derive(Clone, Copy)]
pub struct EvalStats {
    pub total: usize,
    pub full: usize,
    pub near_399: usize,
    pub near_398: usize,
    pub near_395: usize,
    pub near_380: usize,
    pub min_cover: usize,
}

impl View for EvalStats {
    type V = StatsModel;

    open spec fn view(&self) -> StatsModel {
        (
            self.total as int,
            self.full as int,
            self.near_399 as int,
            self.near_398 as int,
            self.near_395 as int,
            self.near_380 as int,
            self.min_cover as int,
        )
    }
}

/// The best cover of one board: the largest robot cover over every automaton
/// and every start direction.
pub fn board_best_cover(
    board: &Board,
    auto_set: &AutoSet,
    start_row: usize,
    start_col: usize,
    visited_at: &mut [i32; STATE_SPACE],
    touched: &mut Vec<usize>,
    history: &mut Vec<u16>,
) -> (res: usize)
    requires
        set_wf(*auto_set),
        start_row < N,
        start_col < N,
        forall|i: int| 0 <= i < STATE_SPACE ==> #[trigger] old(visited_at)[i] == -1,
    ensures
        res == board_best(*board, *auto_set, start_row as int, start_col as int),
        res <= CELLS,
        forall|i: int| 0 <= i < STATE_SPACE ==> #[trigger] final(visited_at)[i] == -1,
{
    let ghost b = *board;
    let ghost set = *auto_set;
    let mut best: usize = 0;
    let mut k: usize = 0;
    while k < NUM_AUTOS
        invariant
            k <= NUM_AUTOS,
            b == *board,
            set == *auto_set,
            set_wf(set),
            start_row < N,
            start_col < N,
            best == best_cover_upto(b, set, start_row as int, start_col as int, 4 * k),
            best <= CELLS,
            forall|i: int| 0 <= i < STATE_SPACE ==> #[trigger] visited_at[i] == -1,
        decreases NUM_AUTOS - k,
    {
        assert(table_wf(set[k as int]));
        let mut dir: usize = 0;
        while dir < 4
            invariant
                k < NUM_AUTOS,
                dir <= 4,
                b == *board,
                set == *auto_set,
                table_wf(set[k as int]),
                start_row < N,
                start_col < N,
                best == best_cover_upto(b, set, start_row as int, start_col as int, 4 * k + dir),
                best <= CELLS,
                forall|i: int| 0 <= i < STATE_SPACE ==> #[trigger] visited_at[i] == -1,
            decreases 4 - dir,
        {
            let cnt = simulate(board, &auto_set[k], start_row, start_col, dir, visited_at, touched, history);
            proof {
                let n = 4 * k + dir + 1;
                assert((n - 1) / 4 == k as int && (n - 1) % 4 == dir as int);
            }
            if cnt > best {
                best = cnt;
            }
            dir += 1;
        }
        k += 1;
    }
    best
}

/// Statistics of the boards `boards[lo..hi]` (the smallest cover starts at `N * N`).
pub fn eval_boards(
    boards: &[Board],
    auto_set: &AutoSet,
    start_row: usize,
    start_col: usize,
    lo: usize,
    hi: usize,
) -> (res: EvalStats)
    requires
        set_wf(*auto_set),
        start_row < N,
        start_col < N,
        lo <= hi <= boards.len(),
        boards.len() <= usize::MAX / CELLS,
    ensures
        res@ == stats_of(bests_of(boards@, *auto_set, start_row as int, start_col as int, lo as int, hi as int)),
{
    let ghost bests = bests_of(boards@, *auto_set, start_row as int, start_col as int, lo as int, hi as int);
    let mut st = EvalStats {
        total: 0,
        full: 0,
        near_399: 0,
        near_398: 0,
        near_395: 0,
        near_380: 0,
        min_cover: CELLS,
    };
    let mut visited_at = [-1i32; STATE_SPACE];
    let mut touched: Vec<usize> = Vec::new();
    let mut history: Vec<u16> = Vec::new();
    let mut i = lo;
    proof {
        assert(bests.take(0) =~= Seq::<int>::empty());
    }
    while i < hi
        invariant
            lo <= i <= hi,
            hi <= boards.len(),
            boards.len() <= usize::MAX / CELLS,
            set_wf(*auto_set),
            start_row < N,
            start_col < N,
            bests == bests_of(boards@, *auto_set, start_row as int, start_col as int, lo as int, hi as int),
            st@ == stats_of(bests.take(i - lo)),
            st.total <= CELLS * (i - lo),
            st.full <= i - lo,
            st.near_399 <= i - lo,
            st.near_398 <= i - lo,
            st.near_395 <= i - lo,
            st.near_380 <= i - lo,
            forall|j: int| 0 <= j < STATE_SPACE ==> #[trigger] visited_at[j] == -1,
        decreases hi - i,
    {
        let best = board_best_cover(&boards[i], auto_set, start_row, start_col, &mut visited_at, &mut touched, &mut history);
        proof {
            assert(bests.take(i + 1 - lo).drop_last() =~= bests.take(i - lo));
            assert(bests.take(i + 1 - lo).last() == best);
            assert(CELLS * (i - lo) + CELLS == CELLS * (i + 1 - lo)) by (nonlinear_arith);
            assert(CELLS * (i + 1 - lo) <= CELLS * boards.len()) by (nonlinear_arith)
                requires i + 1 - lo <= boards.len();
        }
        st.total = st.total + best;
        if best == CELLS {
            st.full = st.full + 1;
        }
        if best >= 399 {
            st.near_399 = st.near_399 + 1;
        }
        if best >= 398 {
            st.near_398 = st.near_398 + 1;
        }
        if best >= 395 {
            st.near_395 = st.near_395 + 1;
        }
        if best >= 380 {
            st.near_380 = st.near_380 + 1;
        }
        if best < st.min_cover {
            st.min_cover = best;
        }
        i += 1;
    }
    proof {
        assert(bests.take(hi - lo) =~= bests);
    }
    st
}

/// Combining the statistics of two disjoint groups of boards.
pub fn merge_stats(a: &EvalStats, b: &EvalStats) -> (res: EvalStats)
    requires
        a.total + b.total <= usize::MAX,
        a.full + b.full <= usize::MAX,
        a.near_399 + b.near_399 <= usize::MAX,
        a.near_398 + b.near_398 <= usize::MAX,
        a.near_395 + b.near_395 <= usize::MAX,
        a.near_380 + b.near_380 <= usize::MAX,
    ensures
        res@ == merge_model(a@, b@),
{
    EvalStats {
        total: a.total + b.total,
        full: a.full + b.full,
        near_399: a.near_399 + b.near_399,
        near_398: a.near_398 + b.near_398,
        near_395: a.near_395 + b.near_395,
        near_380: a.near_380 + b.near_380,
        min_cover: if b.min_cover < a.min_cover { b.min_cover } else { a.min_cover },
    }
}

/// The smallest cover of a statistics never exceeds `N * N`.
pub proof fn lemma_stats_min_bound(s: Seq<int>)
    ensures
        stats_of(s).6 <= CELLS,
    decreases s.len(),
{
    if s.len() > 0 {
        lemma_stats_min_bound(s.drop_last());
    }
}

/// The smallest cover of the statistics is at most every board's cover and
/// at most `N * N`, and it is the cover of one of the boards unless it is
/// `N * N` (so, when every cover is at most `N * N` and there is a board,
/// it is the least of the covers).
pub proof fn lemma_stats_min_is_least(s: Seq<int>)
    ensures
        forall|i: int| 0 <= i < s.len() ==> stats_of(s).6 <= #[trigger] s[i],
        stats_of(s).6 <= CELLS,
        stats_of(s).6 == CELLS || exists|i: int| 0 <= i < s.len() && #[trigger] s[i] == stats_of(s).6,
        s.len() > 0 && (forall|i: int| 0 <= i < s.len() ==> #[trigger] s[i] <= CELLS) ==> exists|i: int|
            0 <= i < s.len() && #[trigger] s[i] == stats_of(s).6,
    decreases s.len(),
{
    if s.len() > 0 {
        let t = s.drop_last();
        lemma_stats_min_is_least(t);
        assert forall|i: int| 0 <= i < s.len() implies stats_of(s).6 <= #[trigger] s[i] by {
            if i < t.len() {
                assert(t[i] == s[i]);
            }
        }
        if stats_of(s).6 != CELLS {
            if stats_of(s).6 == s.last() {
                assert(s[s.len() - 1] == stats_of(s).6);
            } else {
                let i = choose|i: int| 0 <= i < t.len() && #[trigger] t[i] == stats_of(t).6;
                assert(s[i] == stats_of(s).6);
            }
        }
        if forall|i: int| 0 <= i < s.len() ==> #[trigger] s[i] <= CELLS {
            if stats_of(s).6 == CELLS {
                assert(s[s.len() - 1] <= CELLS);
                assert(s[s.len() - 1] == stats_of(s).6);
            }
        }
    }
}

/// Merging keeps the smaller of the two smallest covers.
pub proof fn lemma_merge_min(a: StatsModel, b: StatsModel)
    ensures
        merge_model(a, b).6 <= a.6,
        merge_model(a, b).6 <= b.6,
        merge_model(a, b).6 == a.6 || merge_model(a, b).6 == b.6,
{
}

/// The smallest cover over boards `lo..hi` is at most the best cover of each
/// of them, and it is the best cover of one of them when there is one.
pub proof fn lemma_min_cover_is_least_board(boards: Seq<Board>, set: AutoSet, r: int, c: int, lo: int, hi: int)
    requires
        0 <= lo <= hi <= boards.len(),
        set_wf(set),
        0 <= r < N,
        0 <= c < N,
    ensures
        forall|i: int| lo <= i < hi ==> stats_of(bests_of(boards, set, r, c, lo, hi)).6 <= #[trigger] board_best(boards[i], set, r, c),
        lo < hi ==> exists|i: int| lo <= i < hi && #[trigger] board_best(boards[i], set, r, c) == stats_of(bests_of(boards, set, r, c, lo, hi)).6,
{
    let s = bests_of(boards, set, r, c, lo, hi);
    lemma_stats_min_is_least(s);
    assert forall|i: int| lo <= i < hi implies stats_of(s).6 <= #[trigger] board_best(boards[i], set, r, c) by {
        assert(s[i - lo] == board_best(boards[i], set, r, c));
    }
    assert forall|i: int| 0 <= i < s.len() implies #[trigger] s[i] <= CELLS by {
        lemma_board_best_bound(boards[lo + i], set, r, c, 24);
    }
    if lo < hi {
        let i = choose|i: int| 0 <= i < s.len() && #[trigger] s[i] == stats_of(s).6;
        assert(board_best(boards[lo + i], set, r, c) == stats_of(s).6);
    }
}

/// A best cover is at most `N * N`.
pub proof fn lemma_board_best_bound(b: Board, set: AutoSet, r: int, c: int, n: int)
    requires
        set_wf(set),
        0 <= r < N,
        0 <= c < N,
        n <= 24,
    ensures
        0 <= best_cover_upto(b, set, r, c, n) <= CELLS,
    decreases n,
{
    if n > 0 {
        lemma_board_best_bound(b, set, r, c, n - 1);
        let k = (n - 1) / 4;
        assert(table_wf(set[k]));
        lemma_cycle_cover_bound(b, set[k], (r, c, (n - 1) % 4, 0));
    }
}

/// Splitting the boards into consecutive groups and merging their statistics
/// gives the statistics of all boards.
pub proof fn lemma_stats_split(s1: Seq<int>, s2: Seq<int>)
    ensures
        merge_model(stats_of(s1), stats_of(s2)) == stats_of(s1 + s2),
    decreases s2.len(),
{
    lemma_stats_min_bound(s1);
    if s2.len() == 0 {
        assert(s1 + s2 =~= s1);
    } else {
        lemma_stats_split(s1, s2.drop_last());
        assert((s1 + s2).drop_last() =~= s1 + s2.drop_last());
        assert((s1 + s2).last() == s2.last());
    }
}

/// Statistics of boards split in consecutive chunks at the cut points
/// `cuts[0] <= cuts[1] <= ...`: the chunks' statistics merged one after the
/// other, starting from the statistics of no board.
pub open spec fn chunked_stats(boards: Seq<Board>, set: AutoSet, r: int, c: int, cuts: Seq<int>, k: int) -> StatsModel
    decreases k,
{
    if k <= 0 {
        stats_of(Seq::empty())
    } else {
        merge_model(chunked_stats(boards, set, r, c, cuts, k - 1), stats_of(bests_of(boards, set, r, c, cuts[k - 1], cuts[k])))
    }
}

/// Evaluating the boards in any number of consecutive chunks and merging the
/// results in order gives the statistics of one pass over all the boards.
pub proof fn lemma_chunked_eval(boards: Seq<Board>, set: AutoSet, r: int, c: int, cuts: Seq<int>, k: int)
    requires
        1 <= cuts.len(),
        0 <= k < cuts.len(),
        cuts[0] == 0,
        forall|i: int| 0 < i < cuts.len() ==> cuts[i - 1] <= #[trigger] cuts[i],
    ensures
        chunked_stats(boards, set, r, c, cuts, k) == stats_of(bests_of(boards, set, r, c, 0, cuts[k])),
    decreases k,
{
    if k == 0 {
        assert(bests_of(boards, set, r, c, 0, 0) =~= Seq::<int>::empty());
    } else {
        lemma_chunked_eval(boards, set, r, c, cuts, k - 1);
        assert(cuts[k - 1] <= cuts[k]);
        if k - 1 > 0 {
            lemma_cuts_from_zero(cuts, k - 1);
        }
        let a = bests_of(boards, set, r, c, 0, cuts[k - 1]);
        let b = bests_of(boards, set, r, c, cuts[k - 1], cuts[k]);
        lemma_stats_split(a, b);
        assert(a + b =~= bests_of(boards, set, r, c, 0, cuts[k]));
    }
}

/// Cut points that start at 0 and never decrease stay at or above 0.
proof fn lemma_cuts_from_zero(cuts: Seq<int>, k: int)
    requires
        0 <= k < cuts.len(),
        cuts[0] == 0,
        forall|i: int| 0 < i < cuts.len() ==> cuts[i - 1] <= #[trigger] cuts[i],
    ensures
        0 <= cuts[k],
    decreases k,
{
    if k > 0 {
        lemma_cuts_from_zero(cuts, k - 1);
        assert(cuts[k - 1] <= cuts[k]);
    }
}

/// Evaluation of an automaton set over all boards, every robot starting at
/// (start_row, start_col): per board the best cover over all automata and
/// directions, then the statistics of these covers. With no board every
/// statistic is 0.
pub fn eval_all(boards: &[Board], auto_set: &AutoSet, start_row: usize, start_col: usize) -> (res: EvalStats)
    requires
        set_wf(*auto_set),
        start_row < N,
        start_col < N,
        boards.len() <= usize::MAX / CELLS,
    ensures
        boards.len() == 0 ==> res@ == (0int, 0int, 0int, 0int, 0int, 0int, 0int),
        boards.len() > 0 ==> res@ == stats_of(
            bests_of(boards@, *auto_set, start_row as int, start_col as int, 0, boards.len() as int),
        ),
        forall|i: int|
            0 <= i < boards.len() ==> res.min_cover <= #[trigger] board_best(boards@[i], *auto_set, start_row as int, start_col as int),
        boards.len() > 0 ==> exists|i: int|
            0 <= i < boards.len() && #[trigger] board_best(boards@[i], *auto_set, start_row as int, start_col as int) == res.min_cover,
{
    proof {
        lemma_min_cover_is_least_board(boards@, *auto_set, start_row as int, start_col as int, 0, boards.len() as int);
    }
    if boards.len() == 0 {
        return EvalStats {
            total: 0,
            full: 0,
            near_399: 0,
            near_398: 0,
            near_395: 0,
            near_380: 0,
            min_cover: 0,
        };
    }
    eval_boards(boards, auto_set, start_row, start_col, 0, boards.len())
}

/// Sum over `boards[..n]` of the cover of automaton `t` started at (r, c) facing `d`.
pub open spec fn dir_sum(boards: Seq<Board>, t: AutoTable, r: int, c: int, d: int, n: int) -> int
    decreases n,
{
    if n <= 0 {
        0
    } else {
        dir_sum(boards, t, r, c, d, n - 1) + cycle_cover(boards[n - 1], t, (r, c, d, 0)) as int
    }
}

/// Bounds of a direction sum.
pub proof fn lemma_dir_sum_bound(boards: Seq<Board>, t: AutoTable, r: int, c: int, d: int, n: int)
    requires
        0 <= n <= boards.len(),
        table_wf(t),
        0 <= r < N,
        0 <= c < N,
        0 <= d < 4,
    ensures
        0 <= dir_sum(boards, t, r, c, d, n) <= CELLS * n,
    decreases n,
{
    if n > 0 {
        lemma_dir_sum_bound(boards, t, r, c, d, n - 1);
        crate::annealer::sim::lemma_cycle_cover_bound(boards[n - 1], t, (r, c, d, 0));
        assert(CELLS * (n - 1) + CELLS == CELLS * n) by (nonlinear_arith);
    }
}

/// The start direction with the largest total cover over all boards
/// (the smallest such direction when several tie).
pub fn best_dir_for_automaton(auto_table: &AutoTable, boards: &[Board], start_row: usize, start_col: usize) -> (res: usize)
    requires
        table_wf(*auto_table),
        start_row < N,
        start_col < N,
        boards.len() <= usize::MAX / CELLS,
    ensures
        res < 4,
        forall|d: int|
            0 <= d < 4 ==> dir_sum(boards@, *auto_table, start_row as int, start_col as int, d, boards.len() as int)
                <= dir_sum(boards@, *auto_table, start_row as int, start_col as int, res as int, boards.len() as int),
        forall|d: int|
            0 <= d < res ==> dir_sum(boards@, *auto_table, start_row as int, start_col as int, d, boards.len() as int)
                < dir_sum(boards@, *auto_table, start_row as int, start_col as int, res as int, boards.len() as int),
{
    let ghost bs = boards@;
    let ghost t = *auto_table;
    let ghost n = boards.len() as int;
    let ghost r = start_row as int;
    let ghost c = start_col as int;
    let mut best_dir: usize = 0;
    let mut best_sum: usize = 0;
    let mut visited_at = [-1i32; STATE_SPACE];
    let mut touched: Vec<usize> = Vec::new();
    let mut history: Vec<u16> = Vec::new();
    let mut dir: usize = 0;
    while dir < 4
        invariant
            dir <= 4,
            bs == boards@,
            t == *auto_table,
            n == boards.len(),
            r == start_row,
            c == start_col,
            table_wf(t),
            start_row < N,
            start_col < N,
            boards.len() <= usize::MAX / CELLS,
            best_dir < 4,
            best_dir <= dir,
            dir == 0 ==> best_sum == 0 && best_dir == 0,
            dir > 0 ==> best_sum == dir_sum(bs, t, r, c, best_dir as int, n),
            forall|d: int| 0 <= d < dir ==> dir_sum(bs, t, r, c, d, n) <= best_sum,
            forall|d: int| 0 <= d < best_dir ==> dir_sum(bs, t, r, c, d, n) < best_sum,
            forall|j: int| 0 <= j < STATE_SPACE ==> #[trigger] visited_at[j] == -1,
        decreases 4 - dir,
    {
        let mut sum: usize = 0;
        let mut i: usize = 0;
        while i < boards.len()
            invariant
                i <= boards.len(),
                dir < 4,
                bs == boards@,
                t == *auto_table,
                table_wf(t),
                start_row < N,
                start_col < N,
                r == start_row,
                c == start_col,
                boards.len() <= usize::MAX / CELLS,
                sum == dir_sum(bs, t, r, c, dir as int, i as int),
                sum <= CELLS * i,
                forall|j: int| 0 <= j < STATE_SPACE ==> #[trigger] visited_at[j] == -1,
            decreases boards.len() - i,
        {
            let cnt = simulate(&boards[i], auto_table, start_row, start_col, dir, &mut visited_at, &mut touched, &mut history);
            proof {
                assert(CELLS * i + CELLS == CELLS * (i + 1)) by (nonlinear_arith);
                assert(CELLS * (i + 1) <= CELLS * boards.len()) by (nonlinear_arith)
                    requires i + 1 <= boards.len();
            }
            sum = sum + cnt;
            i += 1;
        }
        proof {
            lemma_dir_sum_bound(bs, t, r, c, dir as int, n);
        }
        if sum > best_sum {
            best_sum = sum;
            best_dir = dir;
        }
        dir += 1;
    }
    best_dir
}

} // verus!
