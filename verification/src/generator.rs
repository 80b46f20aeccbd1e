//! Random problem instances: walls drawn from a seeded generator, kept only
//! when every cell of the board can be reached from the corner.

use vstd::prelude::*;
use rand::Rng;
use rand::SeedableRng;
use vstd::arithmetic::div_mod::lemma_fundamental_div_mod_converse;
use vstd::set_lib::{set_int_range, lemma_int_range, lemma_len_subset, lemma_subset_equality};
use crate::annealer::sim::{delta_row, delta_col};
use crate::text::{
    dec_nat, dec_int, push_usize, push_i64, push_str, text_eq, string_of_chars, tokens, is_word, is_ws,
    lemma_tokens_cons, lemma_tokens_empty, lemma_dec_word, lemma_parse_dec_usize, lemma_parse_dec_i64,
};
use crate::judge::input::{parse_input_spec, byte_len, hcount, InputError, lemma_binary_bytes, lemma_rows_pass};

verus! {

#[verifier::external_type_specification]
#[verifier::external_body]
pub struct ExChaCha20Rng(rand_chacha::ChaCha20Rng);

/// rand_core's `SeedableRng::seed_from_u64` for rand_chacha's `ChaCha20Rng`.
/// Nothing is stated of the generator itself: what it gives is stated, over
/// its seed, by the draws of `DrawStream`.
#[verifier::external_body]
fn rng_from_seed(seed: u64) -> rand_chacha::ChaCha20Rng {
    rand_chacha::ChaCha20Rng::seed_from_u64(seed)
}

/// The number that the `asked.len()`-th range request receives from a
/// `ChaCha20Rng` made by `seed_from_u64(seed)`, after the requests before it
/// in `asked` were served in order. A request is (width, lo, hi): a number of
/// `[lo, hi]` drawn by rand's `gen_range` as a `width`-bit integer. rand_core
/// documents a seeded generator as reproducible: the same seed gives the same
/// output on every run, version and platform.
pub uninterp spec fn chacha_draw(seed: u64, asked: Seq<(int, int, int)>) -> int;

/// A seeded `ChaCha20Rng`, with the seed it was made from and the range
/// requests it has served so far.
pub struct DrawStream {
    rng: rand_chacha::ChaCha20Rng,
    seed: Ghost<u64>,
    asked: Ghost<Seq<(int, int, int)>>,
}

impl DrawStream {
    /// The seed the stream was made from.
    pub closed spec fn seed(&self) -> u64 {
        self.seed@
    }

    /// The range requests the stream has served, in order.
    pub closed spec fn asked(&self) -> Seq<(int, int, int)> {
        self.asked@
    }
}

/// A fresh stream for a seed.
pub fn stream_from_seed(seed: u64) -> (r: DrawStream)
    ensures
        r.seed() == seed,
        r.asked() == Seq::<(int, int, int)>::empty(),
{
    DrawStream { rng: rng_from_seed(seed), seed: Ghost(seed), asked: Ghost(Seq::empty()) }
}

/// rand's `Rng::gen_range` on the inclusive range `lo..=hi` of `i64`: the
/// number `chacha_draw` names for this request, in `[lo, hi]` (rand panics on
/// an empty range, which `requires` excludes).
#[verifier::external_body]
fn draw_i64(stream: &mut DrawStream, lo: i64, hi: i64) -> (r: i64)
    requires
        lo <= hi,
    ensures
        final(stream).seed() == old(stream).seed(),
        final(stream).asked() == old(stream).asked().push((64, lo as int, hi as int)),
        r as int == chacha_draw(old(stream).seed(), final(stream).asked()),
        lo <= r <= hi,
{
    stream.rng.gen_range(lo..=hi)
}

/// rand's `Rng::gen_range` on the inclusive range `lo..=hi` of `i32`: the
/// number `chacha_draw` names for this request, in `[lo, hi]` (rand panics on
/// an empty range, which `requires` excludes). For integers rand samples the
/// half-open `lo..hi` as `lo..=hi - 1` (`UniformInt::sample_single`), so this
/// also serves the half-open draws.
#[verifier::external_body]
fn draw_i32(stream: &mut DrawStream, lo: i32, hi: i32) -> (r: i32)
    requires
        lo <= hi,
    ensures
        final(stream).seed() == old(stream).seed(),
        final(stream).asked() == old(stream).asked().push((32, lo as int, hi as int)),
        r as int == chacha_draw(old(stream).seed(), final(stream).asked()),
        lo <= r <= hi,
{
    stream.rng.gen_range(lo..=hi)
}

/// The rows of a grid of characters.
pub open spec fn char_rows(rows: Seq<Vec<char>>) -> Seq<Seq<char>> {
    rows.map_values(|r: Vec<char>| r@)
}

/// Wall lines of an `n` x `n` board, `n = v.len() >= 1`: `n` vertical lines
/// of `n - 1` characters and `n - 1` horizontal lines of `n`.
pub open spec fn char_grid_ok(v: Seq<Seq<char>>, h: Seq<Seq<char>>) -> bool {
    &&& v.len() >= 1
    &&& h.len() == v.len() - 1
    &&& forall|i: int| 0 <= i < v.len() ==> (#[trigger] v[i]).len() == v.len() - 1
    &&& forall|i: int| 0 <= i < h.len() ==> (#[trigger] h[i]).len() == v.len()
}

/// Whether the robot at (i, j) facing `d` has a wall (`'1'`) or the border
/// ahead.
pub open spec fn char_wall(v: Seq<Seq<char>>, h: Seq<Seq<char>>, i: int, j: int, d: int) -> bool {
    let n = v.len() as int;
    let i2 = i + delta_row(d);
    let j2 = j + delta_col(d);
    if !(0 <= i2 < n && 0 <= j2 < n) {
        true
    } else if i == i2 {
        v[i][if j < j2 { j } else { j2 }] == '1'
    } else {
        h[if i < i2 { i } else { i2 }][j] == '1'
    }
}

/// Whether the robot at (i, j) facing `d` (0 = U, 1 = R, 2 = D, 3 = L) has a
/// wall or the border of the board ahead.
pub fn has_wall_char(wall_v: &[Vec<char>], wall_h: &[Vec<char>], i: usize, j: usize, d: usize) -> (r: bool)
    requires
        char_grid_ok(char_rows(wall_v@), char_rows(wall_h@)),
        i < wall_v@.len(),
        j < wall_v@.len(),
        d < 4,
    ensures
        r == char_wall(char_rows(wall_v@), char_rows(wall_h@), i as int, j as int, d as int),
{
    let ghost v = char_rows(wall_v@);
    let ghost h = char_rows(wall_h@);
    let n = wall_v.len();
    if d == 0 {
        if i == 0 {
            return true;
        }
        proof {
            assert(h[i - 1] == wall_h@[i - 1]@);
        }
        wall_h[i - 1][j] == '1'
    } else if d == 1 {
        if j + 1 >= n {
            return true;
        }
        proof {
            assert(v[i as int] == wall_v@[i as int]@);
        }
        wall_v[i][j] == '1'
    } else if d == 2 {
        if i + 1 >= n {
            return true;
        }
        proof {
            assert(h[i as int] == wall_h@[i as int]@);
        }
        wall_h[i][j] == '1'
    } else {
        if j == 0 {
            return true;
        }
        proof {
            assert(v[i as int] == wall_v@[i as int]@);
        }
        wall_v[i][j - 1] == '1'
    }
}

/// A robot can step from cell `a` to the neighbouring cell `b`: no wall
/// between them.
pub open spec fn linked(v: Seq<Seq<char>>, h: Seq<Seq<char>>, a: (int, int), b: (int, int)) -> bool {
    ||| (!char_wall(v, h, a.0, a.1, 0) && b == (a.0 - 1, a.1))
    ||| (!char_wall(v, h, a.0, a.1, 1) && b == (a.0, a.1 + 1))
    ||| (!char_wall(v, h, a.0, a.1, 2) && b == (a.0 + 1, a.1))
    ||| (!char_wall(v, h, a.0, a.1, 3) && b == (a.0, a.1 - 1))
}

/// A walk from the corner (0, 0) through neighbouring cells.
pub open spec fn is_walk(v: Seq<Seq<char>>, h: Seq<Seq<char>>, p: Seq<(int, int)>) -> bool {
    &&& p.len() >= 1
    &&& p[0] == (0int, 0int)
    &&& forall|i: int, j: int| 0 <= i && j == i + 1 && j < p.len() ==> #[trigger] linked(v, h, p[i], p[j])
}

/// Cell `c` can be reached from the corner.
pub open spec fn reachable_cell(v: Seq<Seq<char>>, h: Seq<Seq<char>>, c: (int, int)) -> bool {
    exists|p: Seq<(int, int)>| #[trigger] is_walk(v, h, p) && p.last() == c
}

/// Every cell of the board can be reached from the corner.
pub open spec fn board_connected(v: Seq<Seq<char>>, h: Seq<Seq<char>>) -> bool {
    forall|i: int, j: int| 0 <= i < v.len() && 0 <= j < v.len() ==> #[trigger] reachable_cell(v, h, (i, j))
}

/// Extending a walk by one step.
pub proof fn lemma_walk_push(v: Seq<Seq<char>>, h: Seq<Seq<char>>, p: Seq<(int, int)>, b: (int, int))
    requires
        is_walk(v, h, p),
        linked(v, h, p.last(), b),
    ensures
        is_walk(v, h, p.push(b)),
        p.push(b).last() == b,
{
    let q = p.push(b);
    assert forall|i: int, j: int| 0 <= i && j == i + 1 && j < q.len() implies #[trigger] linked(v, h, q[i], q[j]) by {
        if j < p.len() {
            assert(linked(v, h, p[i], p[j]));
        }
    }
}

/// A set of cells holding the corner and closed under steps holds every
/// cell of every walk.
pub proof fn lemma_closed_holds_walk(
    v: Seq<Seq<char>>,
    h: Seq<Seq<char>>,
    marked: spec_fn((int, int)) -> bool,
    p: Seq<(int, int)>,
    i: int,
)
    requires
        is_walk(v, h, p),
        marked((0, 0)),
        forall|a: (int, int), b: (int, int)| marked(a) && #[trigger] linked(v, h, a, b) ==> marked(b),
        0 <= i < p.len(),
    ensures
        marked(p[i]),
    decreases i,
{
    if i > 0 {
        lemma_closed_holds_walk(v, h, marked, p, i - 1);
        assert(linked(v, h, p[i - 1], p[i]));
    }
}

/// A step stays on the board.
pub proof fn lemma_linked_on_board(v: Seq<Seq<char>>, h: Seq<Seq<char>>, a: (int, int), b: (int, int))
    requires
        linked(v, h, a, b),
    ensures
        0 <= b.0 < v.len(),
        0 <= b.1 < v.len(),
{
}

/// Number of the cell (i, j) on a board `n` cells wide, and back.
pub proof fn lemma_cell_number(n: int, i: int, j: int)
    requires
        0 <= i < n,
        0 <= j < n,
    ensures
        0 <= i * n + j < n * n,
        (i * n + j) / n == i,
        (i * n + j) % n == j,
{
    assert(0 <= i * n + j < n * n) by (nonlinear_arith)
        requires 0 <= i < n, 0 <= j < n;
    lemma_fundamental_div_mod_converse(i * n + j, n, i, j);
}

/// Whether every cell can be reached from the corner (0, 0): a depth-first
/// search counts the cells it reaches and compares with `n * n`.
pub fn is_connected(wall_v: &[Vec<char>], wall_h: &[Vec<char>]) -> (r: bool)
    requires
        char_grid_ok(char_rows(wall_v@), char_rows(wall_h@)),
        wall_v@.len() * wall_v@.len() <= usize::MAX,
    ensures
        r == board_connected(char_rows(wall_v@), char_rows(wall_h@)),
{
    let ghost v = char_rows(wall_v@);
    let ghost h = char_rows(wall_h@);
    let n = wall_v.len();
    let nn = n * n;
    let ghost ni = n as int;
    let ghost marked = |c: (int, int)| 0 <= c.0 < ni && 0 <= c.1 < ni && c.0 * ni + c.1 < nn;
    let mut visited: Vec<bool> = Vec::new();
    let mut z: usize = 0;
    while z < nn
        invariant
            z <= nn,
            visited@.len() == z,
            forall|c: int| 0 <= c < z ==> !#[trigger] visited@[c],
        decreases nn - z,
    {
        visited.push(false);
        z += 1;
    }
    assert(nn >= 1) by (nonlinear_arith)
        requires nn == n * n, n >= 1;
    let mut stack: Vec<(usize, usize)> = Vec::new();
    stack.push((0, 0));
    visited.set(0, true);
    let mut num: usize = 0;
    let ghost mut popped: Set<int> = Set::empty();
    proof {
        lemma_int_range(0, nn as int);
        let p0 = seq![(0int, 0int)];
        assert(is_walk(v, h, p0));
        assert(reachable_cell(v, h, (0, 0)));
        assert(0 * ni + 0 == 0);
        assert forall|c: int| 0 <= c < nn implies (#[trigger] visited@[c] <==> (popped.contains(c) || exists|k: int|
            0 <= k < stack@.len() && stack@[k].0 * n + stack@[k].1 == c)) by {
            assert(stack@[0].0 * n + stack@[0].1 == 0);
            if exists|k: int| 0 <= k < stack@.len() && stack@[k].0 * n + stack@[k].1 == c {
                let k = choose|k: int| 0 <= k < stack@.len() && stack@[k].0 * n + stack@[k].1 == c;
                assert(k == 0);
            }
        }
    }
    while stack.len() > 0
        invariant
            n == wall_v@.len(),
            ni == n,
            nn == n * n,
            n >= 1,
            v == char_rows(wall_v@),
            h == char_rows(wall_h@),
            char_grid_ok(v, h),
            visited@.len() == nn,
            visited@[0],
            set_int_range(0, nn as int).finite(),
            set_int_range(0, nn as int).len() == nn,
            popped.finite(),
            popped.subset_of(set_int_range(0, nn as int)),
            num == popped.len(),
            forall|k: int| 0 <= k < stack@.len() ==> (#[trigger] stack@[k]).0 < n && stack@[k].1 < n,
            forall|k: int| 0 <= k < stack@.len() ==> !popped.contains((#[trigger] stack@[k]).0 * n + stack@[k].1),
            forall|p: int, q: int|
                0 <= p < q < stack@.len() ==> (#[trigger] stack@[p]).0 * n + stack@[p].1 != (#[trigger] stack@[q]).0
                    * n + stack@[q].1,
            forall|c: int|
                0 <= c < nn ==> (#[trigger] visited@[c] <==> (popped.contains(c) || exists|k: int|
                    0 <= k < stack@.len() && stack@[k].0 * n + stack@[k].1 == c)),
            forall|c: int| 0 <= c < nn && #[trigger] visited@[c] ==> reachable_cell(v, h, (c / ni, c % ni)),
            forall|c: int, b: (int, int)|
                #[trigger] popped.contains(c) && #[trigger] linked(v, h, (c / ni, c % ni), b) ==> visited@[b.0 * ni
                    + b.1],
        decreases nn - num,
    {
        let ghost old_stack = stack@;
        let ghost old_visited = visited@;
        let (i, j) = stack.pop().unwrap();
        let ghost c = i * ni + j;
        proof {
            lemma_cell_number(ni, i as int, j as int);
            assert(old_stack[old_stack.len() - 1] == (i, j));
            assert(!popped.contains(c));
            assert(popped.insert(c).subset_of(set_int_range(0, nn as int)));
            lemma_len_subset(popped.insert(c), set_int_range(0, nn as int));
            popped = popped.insert(c);
            assert forall|k: int| 0 <= k < stack@.len() implies (#[trigger] stack@[k]).0 * n + stack@[k].1 != c by {
                assert(stack@[k] == old_stack[k]);
                assert(old_stack[k].0 * n + old_stack[k].1 != old_stack[old_stack.len() - 1].0 * n + old_stack[old_stack.len() - 1].1);
            }
            assert forall|c2: int| 0 <= c2 < nn implies (#[trigger] visited@[c2] <==> (popped.contains(c2) || exists|k: int|
                0 <= k < stack@.len() && stack@[k].0 * n + stack@[k].1 == c2)) by {
                if visited@[c2] && !popped.contains(c2) {
                    let k = choose|k: int| 0 <= k < old_stack.len() && old_stack[k].0 * n + old_stack[k].1 == c2;
                    assert(k < stack@.len());
                    assert(stack@[k] == old_stack[k]);
                }
                if exists|k: int| 0 <= k < stack@.len() && stack@[k].0 * n + stack@[k].1 == c2 {
                    let k = choose|k: int| 0 <= k < stack@.len() && stack@[k].0 * n + stack@[k].1 == c2;
                    assert(stack@[k] == old_stack[k]);
                }
            }
        }
        num = num + 1;
        let mut d: usize = 0;
        while d < 4
            invariant
                n == wall_v@.len(),
                ni == n,
                nn == n * n,
                n >= 1,
                v == char_rows(wall_v@),
                h == char_rows(wall_h@),
                char_grid_ok(v, h),
                i < n,
                j < n,
                c == i * ni + j,
                c / ni == i,
                c % ni == j,
                0 <= c < nn,
                d <= 4,
                visited@.len() == nn,
                visited@[0],
                visited@[c],
                set_int_range(0, nn as int).finite(),
                set_int_range(0, nn as int).len() == nn,
                popped.finite(),
                popped.subset_of(set_int_range(0, nn as int)),
                popped.contains(c),
                num == popped.len(),
                forall|k: int| 0 <= k < stack@.len() ==> (#[trigger] stack@[k]).0 < n && stack@[k].1 < n,
                forall|k: int| 0 <= k < stack@.len() ==> !popped.contains((#[trigger] stack@[k]).0 * n + stack@[k].1),
                forall|p: int, q: int|
                    0 <= p < q < stack@.len() ==> (#[trigger] stack@[p]).0 * n + stack@[p].1 != (#[trigger] stack@[q]).0
                        * n + stack@[q].1,
                forall|c2: int|
                    0 <= c2 < nn ==> (#[trigger] visited@[c2] <==> (popped.contains(c2) || exists|k: int|
                        0 <= k < stack@.len() && stack@[k].0 * n + stack@[k].1 == c2)),
                forall|c2: int| 0 <= c2 < nn && #[trigger] visited@[c2] ==> reachable_cell(v, h, (c2 / ni, c2 % ni)),
                forall|c2: int, b: (int, int)|
                    #[trigger] popped.contains(c2) && #[trigger] linked(v, h, (c2 / ni, c2 % ni), b) && c2 != c
                        ==> visited@[b.0 * ni + b.1],
                forall|dd: int|
                    0 <= dd < d && !#[trigger] char_wall(v, h, i as int, j as int, dd) ==> visited@[(i + delta_row(dd))
                        * ni + (j + delta_col(dd))],
            decreases 4 - d,
        {
            let ghost before = visited@;
            if !has_wall_char(wall_v, wall_h, i, j, d) {
                let (i2, j2) = if d == 0 {
                    (i - 1, j)
                } else if d == 1 {
                    (i, j + 1)
                } else if d == 2 {
                    (i + 1, j)
                } else {
                    (i, j - 1)
                };
                proof {
                    lemma_cell_number(ni, i2 as int, j2 as int);
                }
                if i2 < n && j2 < n && !visited[i2 * n + j2] {
                    let ghost b = i2 * ni + j2;
                    let ghost pre_stack = stack@;
                    proof {
                        let ps = choose|p: Seq<(int, int)>| #[trigger] is_walk(v, h, p) && p.last() == (i as int, j as int);
                        assert(visited@[c]);
                        assert(reachable_cell(v, h, (c / ni, c % ni)));
                        assert(linked(v, h, (i as int, j as int), (i2 as int, j2 as int)));
                        lemma_walk_push(v, h, ps, (i2 as int, j2 as int));
                        assert(reachable_cell(v, h, (i2 as int, j2 as int)));
                        assert(!popped.contains(b));
                        assert forall|k: int| 0 <= k < pre_stack.len() implies (#[trigger] pre_stack[k]).0 * n + pre_stack[k].1 != b by {
                            if pre_stack[k].0 * n + pre_stack[k].1 == b {
                                assert(exists|k2: int| 0 <= k2 < stack@.len() && stack@[k2].0 * n + stack@[k2].1 == b);
                            }
                        }
                    }
                    visited.set(i2 * n + j2, true);
                    stack.push((i2, j2));
                    proof {
                        assert(stack@[pre_stack.len() as int] == (i2, j2));
                        assert forall|k: int| 0 <= k < stack@.len() implies (#[trigger] stack@[k]).0 < n && stack@[k].1 < n by {
                            if k < pre_stack.len() {
                                assert(stack@[k] == pre_stack[k]);
                            }
                        }
                        assert forall|k: int| 0 <= k < stack@.len() implies !popped.contains((#[trigger] stack@[k]).0 * n + stack@[k].1) by {
                            if k < pre_stack.len() {
                                assert(stack@[k] == pre_stack[k]);
                            }
                        }
                        assert forall|p: int, q: int|
                            0 <= p < q < stack@.len() implies (#[trigger] stack@[p]).0 * n + stack@[p].1 != (#[trigger] stack@[q]).0
                                * n + stack@[q].1 by {
                            assert(stack@[p] == pre_stack[p]);
                            if q < pre_stack.len() {
                                assert(stack@[q] == pre_stack[q]);
                            }
                        }
                        assert forall|c2: int| 0 <= c2 < nn implies (#[trigger] visited@[c2] <==> (popped.contains(c2) || exists|k: int|
                            0 <= k < stack@.len() && stack@[k].0 * n + stack@[k].1 == c2)) by {
                            if c2 == b {
                                assert(stack@[pre_stack.len() as int].0 * n + stack@[pre_stack.len() as int].1 == c2);
                            } else {
                                if exists|k: int| 0 <= k < pre_stack.len() && pre_stack[k].0 * n + pre_stack[k].1 == c2 {
                                    let k = choose|k: int| 0 <= k < pre_stack.len() && pre_stack[k].0 * n + pre_stack[k].1 == c2;
                                    assert(stack@[k] == pre_stack[k]);
                                }
                                if exists|k: int| 0 <= k < stack@.len() && stack@[k].0 * n + stack@[k].1 == c2 {
                                    let k = choose|k: int| 0 <= k < stack@.len() && stack@[k].0 * n + stack@[k].1 == c2;
                                    assert(k < pre_stack.len());
                                    assert(stack@[k] == pre_stack[k]);
                                }
                            }
                        }
                    }
                }
            }
            proof {
                assert forall|x: int| 0 <= x < nn && before[x] implies #[trigger] visited@[x] by {
                }
                if !char_wall(v, h, i as int, j as int, d as int) {
                    assert(linked(v, h, (i as int, j as int), (i + delta_row(d as int), j + delta_col(d as int))));
                    lemma_linked_on_board(v, h, (i as int, j as int), (i + delta_row(d as int), j + delta_col(d as int)));
                    assert(visited@[(i + delta_row(d as int)) * ni + (j + delta_col(d as int))]);
                }
                assert forall|c2: int, b: (int, int)|
                    #[trigger] popped.contains(c2) && #[trigger] linked(v, h, (c2 / ni, c2 % ni), b) && c2 != c
                        implies visited@[b.0 * ni + b.1] by {
                    lemma_linked_on_board(v, h, (c2 / ni, c2 % ni), b);
                    lemma_cell_number(ni, b.0, b.1);
                    assert(before[b.0 * ni + b.1]);
                }
                assert forall|dd: int|
                    0 <= dd < d + 1 && !#[trigger] char_wall(v, h, i as int, j as int, dd) implies visited@[(i + delta_row(dd))
                        * ni + (j + delta_col(dd))] by {
                    if dd < d {
                        assert(linked(v, h, (i as int, j as int), (i + delta_row(dd), j + delta_col(dd))));
                        lemma_linked_on_board(v, h, (i as int, j as int), (i + delta_row(dd), j + delta_col(dd)));
                        lemma_cell_number(ni, i + delta_row(dd), j + delta_col(dd));
                        assert(before[(i + delta_row(dd)) * ni + (j + delta_col(dd))]);
                    }
                }
            }
            d += 1;
        }
        proof {
            assert forall|c2: int, b: (int, int)|
                #[trigger] popped.contains(c2) && #[trigger] linked(v, h, (c2 / ni, c2 % ni), b) implies visited@[b.0 * ni + b.1] by {
                if c2 == c {
                    if b == (i - 1, j as int) {
                        assert(!char_wall(v, h, i as int, j as int, 0));
                    } else if b == (i as int, j + 1) {
                        assert(!char_wall(v, h, i as int, j as int, 1));
                    } else if b == (i + 1, j as int) {
                        assert(!char_wall(v, h, i as int, j as int, 2));
                    } else {
                        assert(!char_wall(v, h, i as int, j as int, 3));
                    }
                }
            }
        }
    }
    proof {
        let vis = |a: (int, int)| 0 <= a.0 < ni && 0 <= a.1 < ni && visited@[a.0 * ni + a.1];
        assert forall|a: (int, int), b: (int, int)| vis(a) && #[trigger] linked(v, h, a, b) implies vis(b) by {
            lemma_cell_number(ni, a.0, a.1);
            lemma_linked_on_board(v, h, a, b);
            let ca = a.0 * ni + a.1;
            assert(popped.contains(ca));
            assert(linked(v, h, (ca / ni, ca % ni), b));
        }
        assert(vis((0, 0)));
        if num == nn {
            lemma_subset_equality(popped, set_int_range(0, nn as int));
            assert forall|i: int, j: int| 0 <= i < v.len() && 0 <= j < v.len() implies #[trigger] reachable_cell(v, h, (i, j)) by {
                lemma_cell_number(ni, i, j);
                assert(set_int_range(0, nn as int).contains(i * ni + j));
                assert(visited@[i * ni + j]);
            }
        }
        if board_connected(v, h) {
            assert(popped =~= set_int_range(0, nn as int)) by {
                assert forall|x: int| 0 <= x < nn implies popped.contains(x) by {
                    let a = (x / ni, x % ni);
                    assert(0 <= x / ni < ni && 0 <= x % ni < ni && x == (x / ni) * ni + x % ni) by (nonlinear_arith)
                        requires 0 <= x < ni * ni, ni >= 1;
                    assert(reachable_cell(v, h, a));
                    let p = choose|p: Seq<(int, int)>| #[trigger] is_walk(v, h, p) && p.last() == a;
                    lemma_closed_holds_walk(v, h, vis, p, p.len() - 1);
                    assert(visited@[x]);
                }
            }
        }
    }
    num == nn
}

/// The positions `lo..=hi` covered by a segment of length `l` through
/// position `i`: ending at `i` when `dir` is 0, starting there otherwise,
/// cut at the border of a board of size `n`.
pub open spec fn segment_span(dir: int, l: int, i: int, n: int) -> (int, int) {
    if dir == 0 {
        (if i + 1 >= l { i + 1 - l } else { 0 }, i)
    } else {
        (i, if i + l - 1 <= n - 1 { i + l - 1 } else { n - 1 })
    }
}

/// Vertical wall lines with a vertical segment added in column `j`.
pub open spec fn with_vertical_segment(v: Seq<Seq<char>>, dir: int, l: int, i: int, j: int) -> Seq<Seq<char>> {
    let (lo, hi) = segment_span(dir, l, i, v.len() as int);
    Seq::new(v.len(), |r: int| Seq::new(v[r].len(), |c: int| if c == j && lo <= r <= hi { '1' } else { v[r][c] }))
}

/// Horizontal wall lines with a horizontal segment added in line `i`, on a
/// board of size `n`.
pub open spec fn with_horizontal_segment(h: Seq<Seq<char>>, dir: int, l: int, i: int, j: int, n: int) -> Seq<Seq<char>> {
    let (lo, hi) = segment_span(dir, l, j, n);
    Seq::new(h.len(), |r: int| Seq::new(h[r].len(), |c: int| if r == i && lo <= c <= hi { '1' } else { h[r][c] }))
}

/// Every character of the wall lines is `'0'` or `'1'`.
pub open spec fn walls_binary(v: Seq<Seq<char>>) -> bool {
    forall|r: int, c: int| 0 <= r < v.len() && 0 <= c < v[r].len() ==> (#[trigger] v[r][c] == '0' || v[r][c] == '1')
}

/// Sets character `c` of line `r` to `ch`.
fn set_char(grid: &mut Vec<Vec<char>>, r: usize, c: usize, ch: char)
    requires
        r < old(grid)@.len(),
        c < old(grid)@[r as int]@.len(),
    ensures
        char_rows(final(grid)@) == char_rows(old(grid)@).update(r as int, old(grid)@[r as int]@.update(c as int, ch)),
{
    let mut row = grid[r].clone();
    proof {
        assert(row@ =~= old(grid)@[r as int]@);
    }
    row.set(c, ch);
    grid.set(r, row);
    proof {
        assert(char_rows(grid@) =~= char_rows(old(grid)@).update(r as int, old(grid)@[r as int]@.update(c as int, ch)));
    }
}

/// Adds a vertical wall segment: column `j`, the rows given by
/// `segment_span(dir, l, i, n)`.
pub fn add_vertical_segment(wall_v: &mut Vec<Vec<char>>, dir: i32, l: usize, i: usize, j: usize)
    requires
        forall|x: int| 0 <= x < old(wall_v)@.len() ==> (#[trigger] old(wall_v)@[x])@.len() == old(wall_v)@.len() - 1,
        i < old(wall_v)@.len(),
        j + 1 < old(wall_v)@.len(),
        l >= 1,
    ensures
        char_rows(final(wall_v)@) == with_vertical_segment(char_rows(old(wall_v)@), dir as int, l as int, i as int, j as int),
{
    let ghost v0 = char_rows(wall_v@);
    let n = wall_v.len();
    let (lo, hi) = if dir == 0 {
        (if i + 1 >= l { i + 1 - l } else { 0 }, i)
    } else {
        (i, if l - 1 <= n - 1 - i { i + l - 1 } else { n - 1 })
    };
    proof {
        assert forall|x: int| 0 <= x < v0.len() implies v0[x] =~= Seq::new(
            v0[x].len(),
            |c: int| if c == j && lo <= x < lo { '1' } else { v0[x][c] },
        ) by {}
        assert(char_rows(wall_v@) =~= Seq::new(
            v0.len(),
            |x: int| Seq::new(v0[x].len(), |c: int| if c == j && lo <= x < lo { '1' } else { v0[x][c] }),
        ));
        assert forall|x: int| 0 <= x < n implies (#[trigger] v0[x]).len() == n - 1 by {
            assert(v0[x] == wall_v@[x]@);
        }
    }
    let mut r = lo;
    while r <= hi
        invariant
            lo <= r <= hi + 1,
            hi < n,
            n == wall_v@.len(),
            (lo as int, hi as int) == segment_span(dir as int, l as int, i as int, n as int),
            v0.len() == n,
            j < n - 1,
            forall|x: int| 0 <= x < n ==> (#[trigger] v0[x]).len() == n - 1,
            char_rows(wall_v@) == Seq::new(
                v0.len(),
                |x: int| Seq::new(v0[x].len(), |c: int| if c == j && lo <= x < r { '1' } else { v0[x][c] }),
            ),
        decreases hi + 1 - r,
    {
        let ghost before = char_rows(wall_v@);
        proof {
            assert(wall_v@[r as int]@ == before[r as int]);
        }
        set_char(wall_v, r, j, '1');
        proof {
            assert(char_rows(wall_v@) =~= Seq::new(
                v0.len(),
                |x: int| Seq::new(v0[x].len(), |c: int| if c == j && lo <= x < r + 1 { '1' } else { v0[x][c] }),
            )) by {
                assert forall|x: int| 0 <= x < v0.len() implies char_rows(wall_v@)[x] =~= Seq::new(
                    v0[x].len(),
                    |c: int| if c == j && lo <= x < r + 1 { '1' } else { v0[x][c] },
                ) by {
                    assert(before[x] == Seq::new(v0[x].len(), |c: int| if c == j && lo <= x < r { '1' } else { v0[x][c] }));
                }
            }
        }
        r += 1;
    }
    proof {
        let target = with_vertical_segment(v0, dir as int, l as int, i as int, j as int);
        assert forall|x: int| 0 <= x < v0.len() implies char_rows(wall_v@)[x] =~= target[x] by {}
        assert(char_rows(wall_v@) =~= target);
    }
}

/// Adds a horizontal wall segment: line `i`, the columns given by
/// `segment_span(dir, l, j, n)` on a board of size `n`.
pub fn add_horizontal_segment(wall_h: &mut Vec<Vec<char>>, dir: i32, l: usize, i: usize, j: usize, n: usize)
    requires
        i < old(wall_h)@.len(),
        old(wall_h)@[i as int]@.len() == n,
        j < n,
        l >= 1,
    ensures
        char_rows(final(wall_h)@) == with_horizontal_segment(char_rows(old(wall_h)@), dir as int, l as int, i as int, j as int, n as int),
{
    let ghost h0 = char_rows(wall_h@);
    let (lo, hi) = if dir == 0 {
        (if j + 1 >= l { j + 1 - l } else { 0 }, j)
    } else {
        (j, if l - 1 <= n - 1 - j { j + l - 1 } else { n - 1 })
    };
    proof {
        assert forall|x: int| 0 <= x < h0.len() implies h0[x] =~= Seq::new(
            h0[x].len(),
            |c: int| if x == i && lo <= c < lo { '1' } else { h0[x][c] },
        ) by {}
        assert(char_rows(wall_h@) =~= Seq::new(
            h0.len(),
            |x: int| Seq::new(h0[x].len(), |c: int| if x == i && lo <= c < lo { '1' } else { h0[x][c] }),
        ));
        assert(h0[i as int] == wall_h@[i as int]@);
    }
    let mut c = lo;
    while c <= hi
        invariant
            lo <= c <= hi + 1,
            hi < n,
            i < h0.len(),
            h0.len() == wall_h@.len(),
            h0[i as int].len() == n,
            (lo as int, hi as int) == segment_span(dir as int, l as int, j as int, n as int),
            char_rows(wall_h@) == Seq::new(
                h0.len(),
                |x: int| Seq::new(h0[x].len(), |y: int| if x == i && lo <= y < c { '1' } else { h0[x][y] }),
            ),
        decreases hi + 1 - c,
    {
        let ghost before = char_rows(wall_h@);
        proof {
            assert(wall_h@[i as int]@ == before[i as int]);
        }
        set_char(wall_h, i, c, '1');
        proof {
            assert(char_rows(wall_h@) =~= Seq::new(
                h0.len(),
                |x: int| Seq::new(h0[x].len(), |y: int| if x == i && lo <= y < c + 1 { '1' } else { h0[x][y] }),
            )) by {
                assert forall|x: int| 0 <= x < h0.len() implies char_rows(wall_h@)[x] =~= Seq::new(
                    h0[x].len(),
                    |y: int| if x == i && lo <= y < c + 1 { '1' } else { h0[x][y] },
                ) by {
                    assert(before[x] == Seq::new(h0[x].len(), |y: int| if x == i && lo <= y < c { '1' } else { h0[x][y] }));
                }
            }
        }
        c += 1;
    }
    proof {
        let target = with_horizontal_segment(h0, dir as int, l as int, i as int, j as int, n as int);
        assert forall|x: int| 0 <= x < h0.len() implies char_rows(wall_h@)[x] =~= target[x] by {}
        assert(char_rows(wall_h@) =~= target);
    }
}

/// The lines of a grid, each followed by a line feed.
pub open spec fn lines_text(rows: Seq<Seq<char>>) -> Seq<char>
    decreases rows.len(),
{
    if rows.len() == 0 {
        Seq::empty()
    } else {
        lines_text(rows.drop_last()) + rows.last().push('\n')
    }
}

/// The text of an instance: `n AK AM AW` on the first line, then the vertical
/// and the horizontal wall lines.
pub open spec fn instance_text(n: nat, ak: int, am: int, aw: int, v: Seq<Seq<char>>, h: Seq<Seq<char>>) -> Seq<char> {
    dec_nat(n) + seq![' '] + dec_int(ak) + seq![' '] + dec_int(am) + seq![' '] + dec_int(aw) + seq!['\n'] + lines_text(v)
        + lines_text(h)
}

/// Appends each line followed by a line feed.
fn push_lines(out: &mut Vec<char>, rows: &Vec<Vec<char>>)
    ensures
        final(out)@ == old(out)@ + lines_text(char_rows(rows@)),
{
    let ghost start = out@;
    let ghost rv = char_rows(rows@);
    let mut i: usize = 0;
    while i < rows.len()
        invariant
            i <= rows@.len(),
            rv == char_rows(rows@),
            out@ == start + lines_text(rv.take(i as int)),
        decreases rows@.len() - i,
    {
        let mut k: usize = 0;
        let ghost mid = out@;
        while k < rows[i].len()
            invariant
                i < rows@.len(),
                k <= rows@[i as int]@.len(),
                out@ == mid + rows@[i as int]@.take(k as int),
            decreases rows@[i as int]@.len() - k,
        {
            out.push(rows[i][k]);
            proof {
                assert(mid + rows@[i as int]@.take(k + 1) =~= (mid + rows@[i as int]@.take(k as int)).push(rows@[i as int]@[k as int]));
            }
            k += 1;
        }
        out.push('\n');
        proof {
            assert(rows@[i as int]@.take(k as int) =~= rows@[i as int]@);
            assert(rv.take(i + 1).drop_last() =~= rv.take(i as int));
            assert(rv[i as int] == rows@[i as int]@);
            assert(out@ =~= start + lines_text(rv.take(i + 1)));
        }
        i += 1;
    }
    proof {
        assert(rv.take(rows@.len() as int) =~= rv);
    }
}

/// The costs of a problem kind: A is (0, 1, 1000), B is (1000, AM, AW) with
/// AM and AW from 1 to 10, C is (1000, 1, 1000).
pub open spec fn problem_costs(problem: Seq<char>, ak: int, am: int, aw: int) -> bool {
    ||| (problem == "A"@ && ak == 0 && am == 1 && aw == 1000)
    ||| (problem == "B"@ && ak == 1000 && 1 <= am <= 10 && 1 <= aw <= 10)
    ||| (problem == "C"@ && ak == 1000 && am == 1 && aw == 1000)
}

/// The problem kind is one of A, B and C.
pub open spec fn problem_known(problem: Seq<char>) -> bool {
    problem == "A"@ || problem == "B"@ || problem == "C"@
}

/// `t` is the text of a 20 x 20 instance of the problem kind whose walls are
/// `'0'` or `'1'` and leave every cell reachable.
pub open spec fn instance_of(
    problem: Seq<char>,
    t: Seq<char>,
    ak: int,
    am: int,
    aw: int,
    v: Seq<Seq<char>>,
    h: Seq<Seq<char>>,
) -> bool {
    &&& problem_costs(problem, ak, am, aw)
    &&& v.len() == 20
    &&& char_grid_ok(v, h)
    &&& walls_binary(v)
    &&& walls_binary(h)
    &&& board_connected(v, h)
    &&& t == instance_text(20, ak, am, aw, v, h)
}

/// `t` is the text of some instance of the problem kind.
pub open spec fn generated_instance(problem: Seq<char>, t: Seq<char>) -> bool {
    exists|ak: int, am: int, aw: int, v: Seq<Seq<char>>, h: Seq<Seq<char>>|
        #[trigger] instance_of(problem, t, ak, am, aw, v, h)
}

/// Lines of `'0'`: `count` lines of `width` characters.
fn blank_lines(count: usize, width: usize) -> (r: Vec<Vec<char>>)
    ensures
        char_rows(r@) == Seq::new(count as nat, |x: int| Seq::new(width as nat, |y: int| '0')),
{
    let mut rows: Vec<Vec<char>> = Vec::new();
    let mut i: usize = 0;
    while i < count
        invariant
            i <= count,
            rows@.len() == i,
            char_rows(rows@) == Seq::new(i as nat, |x: int| Seq::new(width as nat, |y: int| '0')),
        decreases count - i,
    {
        let mut row: Vec<char> = Vec::new();
        let mut k: usize = 0;
        while k < width
            invariant
                k <= width,
                row@ == Seq::new(k as nat, |y: int| '0'),
            decreases width - k,
        {
            row.push('0');
            proof {
                assert(row@ =~= Seq::new((k + 1) as nat, |y: int| '0'));
            }
            k += 1;
        }
        let ghost before = rows@;
        rows.push(row);
        proof {
            assert(char_rows(rows@) =~= Seq::new((i + 1) as nat, |x: int| Seq::new(width as nat, |y: int| '0'))) by {
                assert forall|x: int| 0 <= x < i + 1 implies char_rows(rows@)[x] =~= Seq::new(width as nat, |y: int| '0') by {
                    if x < i {
                        assert(rows@[x] == before[x]);
                        assert(char_rows(before)[x] == before[x]@);
                    }
                }
            }
        }
        i += 1;
    }
    rows
}

/// A drawn wall segment: (direction, length, row, column). Direction 0
/// reaches back from the drawn cell, direction 1 forward from it.
pub type Segment = (i32, usize, usize, usize);

/// Cell (r, c) of the vertical wall lines of an `n` x `n` board is on the
/// segment: column `c` is the segment's column and row `r` lies in its span.
pub open spec fn on_vertical_segment(seg: Segment, n: int, r: int, c: int) -> bool {
    let (lo, hi) = segment_span(seg.0 as int, seg.1 as int, seg.2 as int, n);
    c == seg.3 && lo <= r <= hi
}

/// Cell (r, c) of the horizontal wall lines of an `n` x `n` board is on the
/// segment: line `r` is the segment's row and column `c` lies in its span.
pub open spec fn on_horizontal_segment(seg: Segment, n: int, r: int, c: int) -> bool {
    let (lo, hi) = segment_span(seg.0 as int, seg.1 as int, seg.3 as int, n);
    r == seg.2 && lo <= c <= hi
}

/// The vertical wall lines made of segments: `n` lines of `n - 1`
/// characters, `'1'` exactly on the cells of some segment.
pub open spec fn vertical_walls(segs: Seq<Segment>, n: int) -> Seq<Seq<char>> {
    Seq::new(
        n as nat,
        |r: int|
            Seq::new(
                (n - 1) as nat,
                |c: int|
                    if exists|k: int| 0 <= k < segs.len() && #[trigger] on_vertical_segment(segs[k], n, r, c) {
                        '1'
                    } else {
                        '0'
                    },
            ),
    )
}

/// The horizontal wall lines made of segments: `n - 1` lines of `n`
/// characters, `'1'` exactly on the cells of some segment.
pub open spec fn horizontal_walls(segs: Seq<Segment>, n: int) -> Seq<Seq<char>> {
    Seq::new(
        (n - 1) as nat,
        |r: int|
            Seq::new(
                n as nat,
                |c: int|
                    if exists|k: int| 0 <= k < segs.len() && #[trigger] on_horizontal_segment(segs[k], n, r, c) {
                        '1'
                    } else {
                        '0'
                    },
            ),
    )
}

/// A segment as the generator draws it: direction below 2, length 5 to 15,
/// row below `rows` and column below `cols`.
pub open spec fn segment_drawn(seg: Segment, rows: int, cols: int) -> bool {
    &&& 0 <= seg.0 < 2
    &&& 5 <= seg.1 <= 15
    &&& seg.2 < rows
    &&& seg.3 < cols
}

/// Adding one more segment to the lines made of the others.
proof fn lemma_vertical_walls_push(segs: Seq<Segment>, seg: Segment, n: int)
    requires
        n >= 1,
    ensures
        vertical_walls(segs.push(seg), n) == with_vertical_segment(
            vertical_walls(segs, n),
            seg.0 as int,
            seg.1 as int,
            seg.2 as int,
            seg.3 as int,
        ),
{
    let a = vertical_walls(segs.push(seg), n);
    let b = with_vertical_segment(vertical_walls(segs, n), seg.0 as int, seg.1 as int, seg.2 as int, seg.3 as int);
    let s2 = segs.push(seg);
    assert forall|r: int| 0 <= r < n implies a[r] =~= b[r] by {
        assert forall|c: int| 0 <= c < n - 1 implies a[r][c] == b[r][c] by {
            if exists|k: int| 0 <= k < segs.len() && #[trigger] on_vertical_segment(segs[k], n, r, c) {
                let k = choose|k: int| 0 <= k < segs.len() && #[trigger] on_vertical_segment(segs[k], n, r, c);
                assert(s2[k] == segs[k]);
                assert(on_vertical_segment(s2[k], n, r, c));
            }
            if on_vertical_segment(seg, n, r, c) {
                assert(s2[segs.len() as int] == seg);
                assert(on_vertical_segment(s2[segs.len() as int], n, r, c));
            }
            if exists|k: int| 0 <= k < s2.len() && #[trigger] on_vertical_segment(s2[k], n, r, c) {
                let k = choose|k: int| 0 <= k < s2.len() && #[trigger] on_vertical_segment(s2[k], n, r, c);
                if k < segs.len() {
                    assert(s2[k] == segs[k]);
                    assert(on_vertical_segment(segs[k], n, r, c));
                }
            }
        }
    }
    assert(a =~= b);
}

/// Adding one more segment to the lines made of the others.
proof fn lemma_horizontal_walls_push(segs: Seq<Segment>, seg: Segment, n: int)
    requires
        n >= 1,
    ensures
        horizontal_walls(segs.push(seg), n) == with_horizontal_segment(
            horizontal_walls(segs, n),
            seg.0 as int,
            seg.1 as int,
            seg.2 as int,
            seg.3 as int,
            n,
        ),
{
    let a = horizontal_walls(segs.push(seg), n);
    let b = with_horizontal_segment(horizontal_walls(segs, n), seg.0 as int, seg.1 as int, seg.2 as int, seg.3 as int, n);
    let s2 = segs.push(seg);
    assert forall|r: int| 0 <= r < n - 1 implies a[r] =~= b[r] by {
        assert forall|c: int| 0 <= c < n implies a[r][c] == b[r][c] by {
            if exists|k: int| 0 <= k < segs.len() && #[trigger] on_horizontal_segment(segs[k], n, r, c) {
                let k = choose|k: int| 0 <= k < segs.len() && #[trigger] on_horizontal_segment(segs[k], n, r, c);
                assert(s2[k] == segs[k]);
                assert(on_horizontal_segment(s2[k], n, r, c));
            }
            if on_horizontal_segment(seg, n, r, c) {
                assert(s2[segs.len() as int] == seg);
                assert(on_horizontal_segment(s2[segs.len() as int], n, r, c));
            }
            if exists|k: int| 0 <= k < s2.len() && #[trigger] on_horizontal_segment(s2[k], n, r, c) {
                let k = choose|k: int| 0 <= k < s2.len() && #[trigger] on_horizontal_segment(s2[k], n, r, c);
                if k < segs.len() {
                    assert(s2[k] == segs[k]);
                    assert(on_horizontal_segment(segs[k], n, r, c));
                }
            }
        }
    }
    assert(a =~= b);
}

/// The wall lines of an `n` x `n` board made of drawn segments: the vertical
/// lines hold exactly the cells of the vertical segments, the horizontal
/// lines exactly those of the horizontal segments, each segment cut at the
/// border.
pub fn walls_from_segments(n: usize, vsegs: &Vec<Segment>, hsegs: &Vec<Segment>) -> (r: (Vec<Vec<char>>, Vec<Vec<char>>))
    requires
        n >= 2,
        forall|k: int| 0 <= k < vsegs@.len() ==> (#[trigger] vsegs@[k]).1 >= 1 && vsegs@[k].2 < n && vsegs@[k].3 + 1 < n,
        forall|k: int| 0 <= k < hsegs@.len() ==> (#[trigger] hsegs@[k]).1 >= 1 && hsegs@[k].2 + 1 < n && hsegs@[k].3 < n,
    ensures
        char_rows(r.0@) == vertical_walls(vsegs@, n as int),
        char_rows(r.1@) == horizontal_walls(hsegs@, n as int),
{
    let mut wall_v = blank_lines(n, n - 1);
    let mut wall_h = blank_lines(n - 1, n);
    proof {
        let v0 = vertical_walls(vsegs@.take(0), n as int);
        let h0 = horizontal_walls(hsegs@.take(0), n as int);
        assert forall|r: int| 0 <= r < n implies v0[r] =~= char_rows(wall_v@)[r] by {}
        assert forall|r: int| 0 <= r < n - 1 implies h0[r] =~= char_rows(wall_h@)[r] by {}
        assert(v0 =~= char_rows(wall_v@));
        assert(h0 =~= char_rows(wall_h@));
    }
    let mut k: usize = 0;
    while k < vsegs.len()
        invariant
            n >= 2,
            k <= vsegs@.len(),
            forall|x: int| 0 <= x < vsegs@.len() ==> (#[trigger] vsegs@[x]).1 >= 1 && vsegs@[x].2 < n && vsegs@[x].3 + 1 < n,
            wall_v@.len() == n,
            char_rows(wall_v@) == vertical_walls(vsegs@.take(k as int), n as int),
        decreases vsegs@.len() - k,
    {
        let seg = vsegs[k];
        proof {
            assert forall|q: int| 0 <= q < wall_v@.len() implies (#[trigger] wall_v@[q])@.len() == wall_v@.len() - 1 by {
                assert(char_rows(wall_v@)[q] == wall_v@[q]@);
            }
            lemma_vertical_walls_push(vsegs@.take(k as int), seg, n as int);
            assert(vsegs@.take(k as int).push(seg) =~= vsegs@.take(k + 1));
        }
        add_vertical_segment(&mut wall_v, seg.0, seg.1, seg.2, seg.3);
        proof {
            assert(wall_v@.len() == char_rows(wall_v@).len());
            assert(char_rows(wall_v@) == vertical_walls(vsegs@.take(k + 1), n as int));
        }
        k += 1;
    }
    let mut k: usize = 0;
    while k < hsegs.len()
        invariant
            n >= 2,
            k <= hsegs@.len(),
            forall|x: int| 0 <= x < hsegs@.len() ==> (#[trigger] hsegs@[x]).1 >= 1 && hsegs@[x].2 + 1 < n && hsegs@[x].3 < n,
            wall_h@.len() == n - 1,
            char_rows(wall_h@) == horizontal_walls(hsegs@.take(k as int), n as int),
        decreases hsegs@.len() - k,
    {
        let seg = hsegs[k];
        proof {
            assert(char_rows(wall_h@)[seg.2 as int] == wall_h@[seg.2 as int]@);
            lemma_horizontal_walls_push(hsegs@.take(k as int), seg, n as int);
            assert(hsegs@.take(k as int).push(seg) =~= hsegs@.take(k + 1));
        }
        add_horizontal_segment(&mut wall_h, seg.0, seg.1, seg.2, seg.3, n);
        proof {
            assert(wall_h@.len() == char_rows(wall_h@).len());
            assert(char_rows(wall_h@) == horizontal_walls(hsegs@.take(k + 1), n as int));
        }
        k += 1;
    }
    proof {
        assert(vsegs@.take(vsegs@.len() as int) =~= vsegs@);
        assert(hsegs@.take(hsegs@.len() as int) =~= hsegs@);
    }
    (wall_v, wall_h)
}

/// The costs (AK, AM, AW) of a problem kind, with `am`, `aw` the costs drawn
/// for kind B.
pub open spec fn kind_costs(problem: Seq<char>, am: int, aw: int) -> (int, int, int) {
    if problem == "A"@ {
        (0, 1, 1000)
    } else if problem == "B"@ {
        (1000, am, aw)
    } else {
        (1000, 1, 1000)
    }
}

/// `t` is the instance that the generator makes of drawn values for the
/// problem kind: for B the costs `am` and `aw` (1 to 10), 1 to 6 vertical and
/// 1 to 6 horizontal segments within the drawing ranges, whose walls leave
/// every cell reachable, written out as the instance text.
pub open spec fn drawn_instance(problem: Seq<char>, t: Seq<char>, am: int, aw: int, vs: Seq<Segment>, hs: Seq<Segment>) -> bool {
    let costs = kind_costs(problem, am, aw);
    &&& problem_known(problem)
    &&& (problem == "B"@ ==> 1 <= am <= 10 && 1 <= aw <= 10)
    &&& 1 <= vs.len() <= 6
    &&& 1 <= hs.len() <= 6
    &&& forall|k: int| 0 <= k < vs.len() ==> segment_drawn(#[trigger] vs[k], 20, 19)
    &&& forall|k: int| 0 <= k < hs.len() ==> segment_drawn(#[trigger] hs[k], 19, 20)
    &&& board_connected(vertical_walls(vs, 20), horizontal_walls(hs, 20))
    &&& t == instance_text(20, costs.0, costs.1, costs.2, vertical_walls(vs, 20), horizontal_walls(hs, 20))
}

/// `t` is the instance that the generator makes of some values that its
/// draws can give.
pub open spec fn drawable_instance(problem: Seq<char>, t: Seq<char>) -> bool {
    exists|am: int, aw: int, vs: Seq<Segment>, hs: Seq<Segment>| #[trigger] drawn_instance(problem, t, am, aw, vs, hs)
}

/// Segment walls are `'0'`/`'1'` lines of the right shape.
proof fn lemma_segment_walls_shape(vs: Seq<Segment>, hs: Seq<Segment>, n: int)
    requires
        n >= 1,
    ensures
        char_grid_ok(vertical_walls(vs, n), horizontal_walls(hs, n)),
        walls_binary(vertical_walls(vs, n)),
        walls_binary(horizontal_walls(hs, n)),
        vertical_walls(vs, n).len() == n,
{
}

/// A drawn instance is an instance of its kind.
pub proof fn lemma_drawn_is_generated(problem: Seq<char>, t: Seq<char>, am: int, aw: int, vs: Seq<Segment>, hs: Seq<Segment>)
    requires
        drawn_instance(problem, t, am, aw, vs, hs),
    ensures
        generated_instance(problem, t),
{
    let c = kind_costs(problem, am, aw);
    lemma_segment_walls_shape(vs, hs, 20);
    assert(instance_of(problem, t, c.0, c.1, c.2, vertical_walls(vs, 20), horizontal_walls(hs, 20)));
}

/// The instance text of drawn costs and segments, when their walls leave
/// every cell of the 20 x 20 board reachable; `None` otherwise.
pub fn build_instance(ak: i64, am: i64, aw: i64, vsegs: &Vec<Segment>, hsegs: &Vec<Segment>) -> (r: Option<String>)
    requires
        forall|k: int| 0 <= k < vsegs@.len() ==> segment_drawn(#[trigger] vsegs@[k], 20, 19),
        forall|k: int| 0 <= k < hsegs@.len() ==> segment_drawn(#[trigger] hsegs@[k], 19, 20),
    ensures
        r is Some <==> board_connected(vertical_walls(vsegs@, 20), horizontal_walls(hsegs@, 20)),
        r matches Some(t) ==> t@ == instance_text(
            20,
            ak as int,
            am as int,
            aw as int,
            vertical_walls(vsegs@, 20),
            horizontal_walls(hsegs@, 20),
        ),
{
    let n: usize = 20;
    let (wall_v, wall_h) = walls_from_segments(n, vsegs, hsegs);
    proof {
        lemma_segment_walls_shape(vsegs@, hsegs@, 20);
        assert(wall_v@.len() == char_rows(wall_v@).len());
    }
    if !is_connected(&wall_v, &wall_h) {
        return None;
    }
    let mut out: Vec<char> = Vec::new();
    push_usize(&mut out, n);
    out.push(' ');
    push_i64(&mut out, ak);
    out.push(' ');
    push_i64(&mut out, am);
    out.push(' ');
    push_i64(&mut out, aw);
    out.push('\n');
    push_lines(&mut out, &wall_v);
    push_lines(&mut out, &wall_h);
    let text = string_of_chars(&out);
    proof {
        let v = char_rows(wall_v@);
        let h = char_rows(wall_h@);
        assert(out@ =~= instance_text(20, ak as int, am as int, aw as int, v, h));
    }
    Some(text)
}

/// The answer to one more request `q` of the stream seeded with `seed` that
/// has served `asked`, with the requests served after it.
pub open spec fn ask(seed: u64, asked: Seq<(int, int, int)>, q: (int, int, int)) -> (int, Seq<(int, int, int)>) {
    let a = asked.push(q);
    (chacha_draw(seed, a), a)
}

/// The segment the stream gives next: direction in {0, 1}, length 5 to 15,
/// row below `rows`, column below `cols`, drawn in this order as `i32`.
pub open spec fn segment_from(seed: u64, asked: Seq<(int, int, int)>, rows: int, cols: int) -> (Segment, Seq<(int, int, int)>) {
    let (dir, a1) = ask(seed, asked, (32, 0, 1));
    let (l, a2) = ask(seed, a1, (32, 5, 15));
    let (i, a3) = ask(seed, a2, (32, 0, rows - 1));
    let (j, a4) = ask(seed, a3, (32, 0, cols - 1));
    ((dir as i32, l as usize, i as usize, j as usize), a4)
}

/// The next `count` segments the stream gives.
pub open spec fn segments_from(seed: u64, asked: Seq<(int, int, int)>, count: int, rows: int, cols: int) -> (Seq<Segment>, Seq<(int, int, int)>)
    decreases count,
{
    if count <= 0 {
        (Seq::empty(), asked)
    } else {
        let (prev, a1) = segments_from(seed, asked, count - 1, rows, cols);
        let (seg, a2) = segment_from(seed, a1, rows, cols);
        (prev.push(seg), a2)
    }
}

/// The board the stream gives next: `x` vertical segments (rows below 20,
/// columns below 19), then `y` horizontal ones (rows below 19, columns
/// below 20).
pub open spec fn board_from(seed: u64, asked: Seq<(int, int, int)>, x: int, y: int) -> (Seq<Segment>, Seq<Segment>, Seq<(int, int, int)>) {
    let (vs, a1) = segments_from(seed, asked, x, 20, 19);
    let (hs, a2) = segments_from(seed, a1, y, 19, 20);
    (vs, hs, a2)
}

/// What the generator draws before the first board: for kind B the costs AM
/// and AW (1 to 10, as `i64`), then the numbers of vertical and horizontal
/// segments (1 to 6, as `i32`). Returns (AM, AW, x, y, requests served); the
/// costs of the other kinds are fixed.
pub open spec fn header_from(seed: u64, problem: Seq<char>) -> (int, int, int, int, Seq<(int, int, int)>) {
    let a0 = Seq::<(int, int, int)>::empty();
    let (am, a1) = if problem == "B"@ { ask(seed, a0, (64, 1, 10)) } else { (1, a0) };
    let (aw, a2) = if problem == "B"@ { ask(seed, a1, (64, 1, 10)) } else { (1000, a1) };
    let (x, a3) = ask(seed, a2, (32, 1, 6));
    let (y, a4) = ask(seed, a3, (32, 1, 6));
    (am, aw, x, y, a4)
}

/// The requests the stream has served before board number `k` (counted
/// from 0) is drawn.
pub open spec fn asked_before(seed: u64, problem: Seq<char>, k: int) -> Seq<(int, int, int)>
    decreases k,
{
    let h = header_from(seed, problem);
    if k <= 0 {
        h.4
    } else {
        board_from(seed, asked_before(seed, problem, k - 1), h.2, h.3).2
    }
}

/// Board number `k`: its vertical and horizontal segments.
pub open spec fn board_at(seed: u64, problem: Seq<char>, k: int) -> (Seq<Segment>, Seq<Segment>) {
    let h = header_from(seed, problem);
    let b = board_from(seed, asked_before(seed, problem, k), h.2, h.3);
    (b.0, b.1)
}

/// Every cell of board number `k` can be reached.
pub open spec fn attempt_connected(seed: u64, problem: Seq<char>, k: int) -> bool {
    let b = board_at(seed, problem, k);
    board_connected(vertical_walls(b.0, 20), horizontal_walls(b.1, 20))
}

/// The instance text of board number `k` with the costs of the kind.
pub open spec fn attempt_text(seed: u64, problem: Seq<char>, k: int) -> Seq<char> {
    let h = header_from(seed, problem);
    let costs = kind_costs(problem, h.0, h.1);
    let b = board_at(seed, problem, k);
    instance_text(20, costs.0, costs.1, costs.2, vertical_walls(b.0, 20), horizontal_walls(b.1, 20))
}

/// Board number `k` is the first connected one, within `u64::MAX` boards.
pub open spec fn first_connected(seed: u64, problem: Seq<char>, k: int) -> bool {
    &&& 0 <= k < u64::MAX
    &&& attempt_connected(seed, problem, k)
    &&& forall|j: int| 0 <= j < k ==> !#[trigger] attempt_connected(seed, problem, j)
}

/// Some board within `u64::MAX` boards is connected.
pub open spec fn some_connected(seed: u64, problem: Seq<char>) -> bool {
    exists|k: int| 0 <= k < u64::MAX && #[trigger] attempt_connected(seed, problem, k)
}

/// The instance the generator makes of a seed: the text of the first
/// connected board.
pub open spec fn generated_text(seed: u64, problem: Seq<char>) -> Seq<char> {
    attempt_text(seed, problem, choose|k: int| #[trigger] first_connected(seed, problem, k))
}

/// At most one board is the first connected one.
pub proof fn lemma_first_connected_unique(seed: u64, problem: Seq<char>, k1: int, k2: int)
    requires
        first_connected(seed, problem, k1),
        first_connected(seed, problem, k2),
    ensures
        k1 == k2,
{
    if k1 < k2 {
        assert(!attempt_connected(seed, problem, k1));
    } else if k2 < k1 {
        assert(!attempt_connected(seed, problem, k2));
    }
}

/// Draws one segment from the stream: direction in {0, 1}, length 5 to 15,
/// row below `rows`, column below `cols`.
fn draw_segment(stream: &mut DrawStream, rows: i32, cols: i32) -> (seg: Segment)
    requires
        1 <= rows,
        1 <= cols,
    ensures
        final(stream).seed() == old(stream).seed(),
        (seg, final(stream).asked()) == segment_from(old(stream).seed(), old(stream).asked(), rows as int, cols as int),
        segment_drawn(seg, rows as int, cols as int),
{
    let dir = draw_i32(stream, 0, 1);
    let l = draw_i32(stream, 5, 15) as usize;
    let i = draw_i32(stream, 0, rows - 1) as usize;
    let j = draw_i32(stream, 0, cols - 1) as usize;
    (dir, l, i, j)
}

/// Draws `count` segments from the stream.
fn draw_segments(stream: &mut DrawStream, count: i32, rows: i32, cols: i32) -> (segs: Vec<Segment>)
    requires
        0 <= count,
        1 <= rows,
        1 <= cols,
    ensures
        final(stream).seed() == old(stream).seed(),
        (segs@, final(stream).asked()) == segments_from(old(stream).seed(), old(stream).asked(), count as int, rows as int, cols as int),
        segs@.len() == count,
        forall|k: int| 0 <= k < segs@.len() ==> segment_drawn(#[trigger] segs@[k], rows as int, cols as int),
{
    let ghost seed = stream.seed();
    let ghost a0 = stream.asked();
    let mut segs: Vec<Segment> = Vec::new();
    let mut t: i32 = 0;
    while t < count
        invariant
            0 <= t <= count,
            segs@.len() == t,
            1 <= rows,
            1 <= cols,
            stream.seed() == seed,
            (segs@, stream.asked()) == segments_from(seed, a0, t as int, rows as int, cols as int),
            forall|k: int| 0 <= k < segs@.len() ==> segment_drawn(#[trigger] segs@[k], rows as int, cols as int),
        decreases count - t,
    {
        let seg = draw_segment(stream, rows, cols);
        segs.push(seg);
        t += 1;
    }
    segs
}

/// One drawing of a board for the generator: `x` vertical and `y` horizontal
/// segments, then the instance text if every cell can be reached.
fn draw_board(
    stream: &mut DrawStream,
    problem: &str,
    ak: i64,
    am: i64,
    aw: i64,
    x: i32,
    y: i32,
) -> (r: Option<String>)
    requires
        problem_known(problem@),
        kind_costs(problem@, am as int, aw as int) == (ak as int, am as int, aw as int),
        problem@ == "B"@ ==> 1 <= am <= 10 && 1 <= aw <= 10,
        1 <= x <= 6,
        1 <= y <= 6,
    ensures
        final(stream).seed() == old(stream).seed(),
        ({
            let b = board_from(old(stream).seed(), old(stream).asked(), x as int, y as int);
            &&& final(stream).asked() == b.2
            &&& (r is Some <==> board_connected(vertical_walls(b.0, 20), horizontal_walls(b.1, 20)))
            &&& (r matches Some(t) ==> t@ == instance_text(
                20,
                ak as int,
                am as int,
                aw as int,
                vertical_walls(b.0, 20),
                horizontal_walls(b.1, 20),
            ))
        }),
        r matches Some(t) ==> drawable_instance(problem@, t@),
{
    let vsegs = draw_segments(stream, x, 20, 19);
    let hsegs = draw_segments(stream, y, 19, 20);
    let r = build_instance(ak, am, aw, &vsegs, &hsegs);
    proof {
        if r is Some {
            assert(drawn_instance(problem@, r->0@, am as int, aw as int, vsegs@, hsegs@));
        }
    }
    r
}

/// Generates an instance of problem kind A, B or C from a seed: a 20 x 20
/// board whose walls are a few random segments, drawn again until every cell
/// can be reached, and the costs of the kind (for B two of them are drawn).
/// Any other kind is refused. The same seed and kind always give the same
/// instance. Boards are drawn up to `u64::MAX` times.
pub fn gen_input(seed: u64, problem: &str) -> (r: Result<String, String>)
    ensures
        !problem_known(problem@) ==> r is Err,
        problem_known(problem@) ==> (r is Ok <==> some_connected(seed, problem@)),
        r matches Err(e) ==> (!problem_known(problem@) && e@ == "Invalid problem id: "@ + problem@) || (problem_known(
            problem@,
        ) && e@ == "No connected board was drawn"@),
        r matches Ok(t) ==> t@ == generated_text(seed, problem@),
        r matches Ok(t) ==> drawable_instance(problem@, t@),
        r matches Ok(t) ==> generated_instance(problem@, t@),
{
    proof {
        assert forall|t: Seq<char>| drawable_instance(problem@, t) implies generated_instance(problem@, t) by {
            let (am, aw, vs, hs) = choose|am: int, aw: int, vs: Seq<Segment>, hs: Seq<Segment>|
                #[trigger] drawn_instance(problem@, t, am, aw, vs, hs);
            lemma_drawn_is_generated(problem@, t, am, aw, vs, hs);
        }
        reveal_strlit("A");
        reveal_strlit("B");
        reveal_strlit("C");
        assert("A"@[0] != "B"@[0] && "C"@[0] != "B"@[0] && "A"@[0] != "C"@[0]);
    }
    let mut stream = stream_from_seed(seed);
    let ghost h = header_from(seed, problem@);
    let ak: i64;
    let am: i64;
    let aw: i64;
    if text_eq(problem, "A") {
        ak = 0;
        am = 1;
        aw = 1000;
    } else if text_eq(problem, "B") {
        ak = 1000;
        am = draw_i64(&mut stream, 1, 10);
        aw = draw_i64(&mut stream, 1, 10);
    } else if text_eq(problem, "C") {
        ak = 1000;
        am = 1;
        aw = 1000;
    } else {
        let mut msg: Vec<char> = Vec::new();
        push_str(&mut msg, "Invalid problem id: ");
        push_str(&mut msg, problem);
        return Err(string_of_chars(&msg));
    }
    let ghost costs = kind_costs(problem@, am as int, aw as int);
    assert(costs == (ak as int, am as int, aw as int));
    assert(problem@ == "B"@ ==> 1 <= am <= 10 && 1 <= aw <= 10);
    let x = draw_i32(&mut stream, 1, 6);
    let y = draw_i32(&mut stream, 1, 6);
    assert(h.0 == am && h.1 == aw && h.2 == x && h.3 == y && h.4 == stream.asked());
    let mut attempt: u64 = 0;
    let mut found: Option<String> = None;
    while attempt < u64::MAX && found.is_none()
        invariant
            problem_known(problem@),
            h == header_from(seed, problem@),
            h.0 == am && h.1 == aw && h.2 == x && h.3 == y,
            costs == kind_costs(problem@, am as int, aw as int),
            costs == (ak as int, am as int, aw as int),
            problem@ == "B"@ ==> 1 <= am <= 10 && 1 <= aw <= 10,
            1 <= x <= 6,
            1 <= y <= 6,
            stream.seed() == seed,
            stream.asked() == asked_before(seed, problem@, attempt as int),
            found is None ==> forall|j: int| 0 <= j < attempt ==> !#[trigger] attempt_connected(seed, problem@, j),
            found matches Some(t) ==> attempt >= 1 && first_connected(seed, problem@, attempt - 1) && t@ == attempt_text(
                seed,
                problem@,
                attempt - 1,
            ),
            found matches Some(t) ==> drawable_instance(problem@, t@),
        decreases u64::MAX - attempt,
    {
        let ghost k = attempt as int;
        found = draw_board(&mut stream, problem, ak, am, aw, x, y);
        attempt += 1;
        proof {
            assert(asked_before(seed, problem@, k + 1) == board_from(seed, asked_before(seed, problem@, k), h.2, h.3).2);
            if found is None {
                assert forall|j: int| 0 <= j < attempt implies !#[trigger] attempt_connected(seed, problem@, j) by {
                    if j == k {
                    }
                }
            }
        }
    }
    match found {
        Some(text) => {
            proof {
                let k = attempt - 1;
                assert(first_connected(seed, problem@, k));
                let c = choose|c: int| #[trigger] first_connected(seed, problem@, c);
                lemma_first_connected_unique(seed, problem@, c, k);
                assert(attempt_connected(seed, problem@, k));
            }
            Ok(text)
        },
        None => {
            proof {
                assert(attempt == u64::MAX);
                assert(!some_connected(seed, problem@));
            }
            let mut msg: Vec<char> = Vec::new();
            push_str(&mut msg, "No connected board was drawn");
            Err(string_of_chars(&msg))
        },
    }
}

/// Wall lines one after the other, each ended by a line feed, are read as
/// one token each, before the tokens of what follows.
pub proof fn lemma_tokens_lines(rows: Seq<Seq<char>>, rest: Seq<char>)
    requires
        forall|i: int| 0 <= i < rows.len() ==> is_word(#[trigger] rows[i]),
    ensures
        tokens(lines_text(rows) + rest) == rows + tokens(rest),
    decreases rows.len(),
{
    if rows.len() == 0 {
        assert(lines_text(rows) + rest =~= rest);
        assert(rows + tokens(rest) =~= tokens(rest));
    } else {
        let d = rows.drop_last();
        let l = rows.last();
        assert(is_word(l));
        let rest2 = l + seq!['\n'] + rest;
        assert(forall|i: int| 0 <= i < d.len() ==> is_word(#[trigger] d[i])) by {
            assert forall|i: int| 0 <= i < d.len() implies is_word(#[trigger] d[i]) by {
                assert(d[i] == rows[i]);
            }
        }
        lemma_tokens_lines(d, rest2);
        assert(lines_text(rows) + rest =~= lines_text(d) + rest2);
        assert(is_ws('\n'));
        lemma_tokens_cons(l, '\n', rest);
        assert(rows + tokens(rest) =~= d + (seq![l] + tokens(rest)));
    }
}

/// Wall lines of `'0'` and `'1'` characters are words.
proof fn lemma_wall_lines_words(rows: Seq<Seq<char>>)
    requires
        walls_binary(rows),
        forall|i: int| 0 <= i < rows.len() ==> (#[trigger] rows[i]).len() > 0,
    ensures
        forall|i: int| 0 <= i < rows.len() ==> is_word(#[trigger] rows[i]),
        forall|i: int| 0 <= i < rows.len() ==> byte_len(#[trigger] rows[i]) == rows[i].len(),
{
    assert forall|i: int| 0 <= i < rows.len() implies is_word(#[trigger] rows[i]) && byte_len(rows[i])
        == rows[i].len() by {
        let r = rows[i];
        assert forall|c: int| 0 <= c < r.len() implies !is_ws(#[trigger] r[c]) by {
            assert(rows[i][c] == '0' || rows[i][c] == '1');
        }
        assert forall|c: int| 0 <= c < r.len() implies (#[trigger] r[c] == '0' || r[c] == '1') by {
            assert(rows[i][c] == '0' || rows[i][c] == '1');
        }
        lemma_binary_bytes(r);
    }
}

/// A generated instance reads back as itself: its text parses to a 20 x 20
/// board with the costs that were drawn and the same wall lines.
pub proof fn lemma_generated_instance_reads_back(
    problem: Seq<char>,
    t: Seq<char>,
    ak: int,
    am: int,
    aw: int,
    v: Seq<Seq<char>>,
    h: Seq<Seq<char>>,
)
    requires
        instance_of(problem, t, ak, am, aw, v, h),
    ensures
        parse_input_spec(tokens(t)) == Ok::<_, InputError>((20int, ak as i64, am as i64, aw as i64, v, h)),
{
    assert(0 <= ak <= 1000 && 0 <= am <= 1000 && 0 <= aw <= 1000);
    let n20 = dec_nat(20);
    let dk = dec_int(ak);
    let dm = dec_int(am);
    let dw = dec_int(aw);
    assert(dk == dec_nat(ak as nat) && dm == dec_nat(am as nat) && dw == dec_nat(aw as nat));
    lemma_dec_word(20);
    lemma_dec_word(ak as nat);
    lemma_dec_word(am as nat);
    lemma_dec_word(aw as nat);
    assert(forall|i: int| 0 <= i < v.len() ==> (#[trigger] v[i]).len() > 0);
    assert(forall|i: int| 0 <= i < h.len() ==> (#[trigger] h[i]).len() > 0);
    lemma_wall_lines_words(v);
    lemma_wall_lines_words(h);
    let lv = lines_text(v);
    let lh = lines_text(h);
    assert(is_ws(' ') && is_ws('\n'));
    lemma_tokens_empty();
    lemma_tokens_lines(h, Seq::<char>::empty());
    assert(lh + Seq::<char>::empty() =~= lh);
    lemma_tokens_lines(v, lh);
    let r3 = lv + lh;
    lemma_tokens_cons(dw, '\n', r3);
    let r2 = dw + seq!['\n'] + r3;
    lemma_tokens_cons(dm, ' ', r2);
    let r1 = dm + seq![' '] + r2;
    lemma_tokens_cons(dk, ' ', r1);
    let r0 = dk + seq![' '] + r1;
    lemma_tokens_cons(n20, ' ', r0);
    assert(t =~= n20 + seq![' '] + r0);
    let toks = tokens(t);
    assert(toks =~= seq![n20, dk, dm, dw] + v + h) by {
        assert(tokens(r3) == v + h) by {
            assert(v + (h + Seq::<Seq<char>>::empty()) =~= v + h);
        }
    }
    lemma_parse_dec_usize(20usize);
    lemma_parse_dec_i64(ak as i64);
    lemma_parse_dec_i64(am as i64);
    lemma_parse_dec_i64(aw as i64);
    assert(toks.len() == 43);
    assert forall|x: int| 4 <= x < 24 implies byte_len(#[trigger] toks[x]) == 19 by {
        assert(toks[x] == v[x - 4]);
    }
    assert forall|x: int| 24 <= x < 43 implies byte_len(#[trigger] toks[x]) == 20 by {
        assert(toks[x] == h[x - 24]);
    }
    lemma_rows_pass(toks, 4, 20, 19);
    lemma_rows_pass(toks, 24, 19, 20);
    assert(hcount(20) == 19);
    assert(toks.subrange(4, 24) =~= v);
    assert(toks.subrange(24, 43) =~= h);
}

/// Reading the text of any generated instance gives a 20 x 20 board whose
/// cells are all reachable, with the costs of the problem kind.
pub proof fn lemma_generated_text_reads_back(problem: Seq<char>, t: Seq<char>)
    requires
        generated_instance(problem, t),
    ensures
        parse_input_spec(tokens(t)) matches Ok(d) && d.0 == 20 && problem_costs(problem, d.1 as int, d.2 as int, d.3 as int)
            && board_connected(d.4, d.5),
{
    let (ak, am, aw, v, h) = choose|ak: int, am: int, aw: int, v: Seq<Seq<char>>, h: Seq<Seq<char>>|
        #[trigger] instance_of(problem, t, ak, am, aw, v, h);
    lemma_generated_instance_reads_back(problem, t, ak, am, aw, v, h);
}

} // verus!

