//! The walled grid used by the automaton search.

use vstd::prelude::*;
use crate::annealer::{N, N_MINUS_1};
use crate::text::{line, line_start, nl_after, trim, chars_of, find_line_end, trim_bounds, lemma_nl_after};

verus! {

/// Walls of a 20x20 grid.
/// `v[i][j]` is the wall between (i, j) and (i, j + 1);
/// `h[i][j]` is the wall between (i, j) and (i + 1, j).
pub struct Board {
    pub v: [[bool; N_MINUS_1]; N],
    pub h: [[bool; N]; N_MINUS_1],
}

/// Whether the robot at (r, c) facing `d` (0 = up, 1 = right, 2 = down, 3 = left)
/// has a wall or the border in front of it.
pub open spec fn wall_ahead(b: Board, r: int, c: int, d: int) -> bool {
    if d == 0 {
        r == 0 || b.h[r - 1][c]
    } else if d == 1 {
        c == N - 1 || b.v[r][c]
    } else if d == 2 {
        r == N - 1 || b.h[r][c]
    } else {
        c == 0 || b.v[r][c - 1]
    }
}

/// Whether there is a wall (or the border) in front of cell (row, col) in direction `dir`.
pub fn has_wall(board: &Board, row: usize, col: usize, dir: usize) -> (res: bool)
    requires
        row < N,
        col < N,
        dir < 4,
    ensures
        res == wall_ahead(*board, row as int, col as int, dir as int),
{
    if dir == 0 {
        row == 0 || board.h[row - 1][col]
    } else if dir == 1 {
        col == N - 1 || board.v[row][col]
    } else if dir == 2 {
        row == N - 1 || board.h[row][col]
    } else {
        col == 0 || board.v[row][col - 1]
    }
}

/// A wall between two neighbouring cells is seen from both of them.
pub proof fn lemma_wall_seen_from_both_sides(b: Board, r: int, c: int)
    requires
        0 <= r < N,
        0 <= c < N,
    ensures
        c + 1 < N ==> wall_ahead(b, r, c, 1) == wall_ahead(b, r, c + 1, 3),
        r + 1 < N ==> wall_ahead(b, r, c, 2) == wall_ahead(b, r + 1, c, 0),
{
}

/// Whether character `j` of the trimmed line `k` of the text is `'1'`.
pub open spec fn marked_one(content: Seq<char>, k: int, j: int) -> bool {
    let tl = trim(line(content, k));
    0 <= j < tl.len() && tl[j] == '1'
}

/// Marks of one line: `row[j]` is set for each `j < width` where the trimmed
/// line `cs[a..b]` has a `'1'`.
fn mark_row(cs: &Vec<char>, a: usize, b: usize, row: &mut [bool], width: usize)
    requires
        a <= b <= cs.len(),
        width <= old(row)@.len(),
        forall|j: int| 0 <= j < old(row)@.len() ==> !#[trigger] old(row)@[j],
    ensures
        final(row)@.len() == old(row)@.len(),
        forall|j: int|
            0 <= j < final(row)@.len() ==> (#[trigger] final(row)@[j] <==> (j < width && j < b - a && cs@[a + j] == '1')),
{
    let mut j: usize = 0;
    while j < width && j < b - a
        invariant
            a <= b <= cs.len(),
            width <= row@.len(),
            row@.len() == old(row)@.len(),
            j <= width,
            forall|t: int|
                0 <= t < row@.len() ==> (#[trigger] row@[t] <==> (t < j && t < b - a && cs@[a + t] == '1')),
        decreases width - j,
    {
        if cs[a + j] == '1' {
            row[j] = true;
        }
        j += 1;
    }
}

/// Reads a board: a header line, then `N` lines of vertical walls and `N - 1`
/// lines of horizontal walls, where a `'1'` at position `j` of a trimmed line
/// is a wall; missing lines and characters mean no wall, extra ones are ignored.
pub fn parse_board(content: &str) -> (b: Board)
    requires
        0 < content@.len() < usize::MAX,
    ensures
        forall|i: int, j: int| 0 <= i < N && 0 <= j < N_MINUS_1 ==> #[trigger] b.v[i][j] == marked_one(content@, 1 + i, j),
        forall|i: int, j: int| 0 <= i < N_MINUS_1 && 0 <= j < N ==> #[trigger] b.h[i][j] == marked_one(content@, 1 + N + i, j),
{
    let cs = chars_of(content);
    let ghost t = cs@;
    let first_end = find_line_end(&cs, 0);
    let mut pos: usize = first_end + 1;
    let mut k: usize = 1;
    proof {
        assert(line_start(t, 0) == 0);
        assert(pos == line_start(t, 1));
    }
    let mut v = [[false; N_MINUS_1]; N];
    let mut h = [[false; N]; N_MINUS_1];
    let mut i: usize = 0;
    while i < N
        invariant
            t == cs@,
            t == content@,
            k == 1 + i,
            i <= N,
            cs.len() < usize::MAX,
            pos == line_start(t, k as int),
            pos <= cs.len() + 1,
            forall|ii: int, j: int| 0 <= ii < i && 0 <= j < N_MINUS_1 ==> #[trigger] v[ii][j] == marked_one(t, 1 + ii, j),
            forall|ii: int, j: int| i <= ii < N && 0 <= j < N_MINUS_1 ==> !#[trigger] v[ii][j],
            forall|ii: int, j: int| 0 <= ii < N_MINUS_1 && 0 <= j < N ==> !#[trigger] h[ii][j],
        decreases N - i,
    {
        let mut row = [false; N_MINUS_1];
        if pos <= cs.len() {
            let e = find_line_end(&cs, pos);
            let (a, bb) = trim_bounds(&cs, pos, e);
            mark_row(&cs, a, bb, &mut row, N_MINUS_1);
            proof {
                lemma_nl_after(t, pos as int);
                assert(line(t, k as int) == t.subrange(pos as int, e as int));
                assert forall|j: int| 0 <= j < N_MINUS_1 implies #[trigger] row[j] == marked_one(t, k as int, j) by {
                    if j < bb - a {
                        assert(trim(line(t, k as int))[j] == t[a + j]);
                    }
                }
            }
            pos = e + 1;
        } else {
            proof {
                assert(line(t, k as int) =~= Seq::<char>::empty());
                assert(trim(line(t, k as int)) =~= Seq::<char>::empty());
            }
        }
        v[i] = row;
        i += 1;
        k += 1;
    }
    let mut i: usize = 0;
    while i < N_MINUS_1
        invariant
            t == cs@,
            t == content@,
            k == 1 + N + i,
            i <= N_MINUS_1,
            cs.len() < usize::MAX,
            pos == line_start(t, k as int),
            pos <= cs.len() + 1,
            forall|ii: int, j: int| 0 <= ii < N && 0 <= j < N_MINUS_1 ==> #[trigger] v[ii][j] == marked_one(t, 1 + ii, j),
            forall|ii: int, j: int| 0 <= ii < i && 0 <= j < N ==> #[trigger] h[ii][j] == marked_one(t, 1 + N + ii, j),
        decreases N_MINUS_1 - i,
    {
        let mut row = [false; N];
        if pos <= cs.len() {
            let e = find_line_end(&cs, pos);
            let (a, bb) = trim_bounds(&cs, pos, e);
            mark_row(&cs, a, bb, &mut row, N);
            proof {
                lemma_nl_after(t, pos as int);
                assert(line(t, k as int) == t.subrange(pos as int, e as int));
                assert forall|j: int| 0 <= j < N implies #[trigger] row[j] == marked_one(t, k as int, j) by {
                    if j < bb - a {
                        assert(trim(line(t, k as int))[j] == t[a + j]);
                    }
                }
            }
            pos = e + 1;
        } else {
            proof {
                assert(line(t, k as int) =~= Seq::<char>::empty());
                assert(trim(line(t, k as int)) =~= Seq::<char>::empty());
            }
        }
        h[i] = row;
        i += 1;
        k += 1;
    }
    Board { v, h }
}

} // verus!
