//! Texts of a found automaton set: the answer file, and a readable listing.

use vstd::prelude::*;
use crate::annealer::{N, NUM_AUTOS, NUM_STATES, CELLS, AutoEntry, AutoTable, AutoSet, table_wf, set_wf, entry_wf};
use crate::annealer::board::Board;
use crate::annealer::eval::{dir_sum, best_dir_for_automaton};
use crate::annealer::automata::action_char;
use crate::cover::{zero_lines, zero_row, lemma_zero_lines_tokens};
use crate::text::{
    dec_nat, push_usize, push_str, string_of_chars, tokens, is_word, is_ws, lemma_tokens_cons, lemma_tokens_empty,
    lemma_dec_word, lemma_parse_dec_usize,
};
use crate::judge::input::{byte_len, lemma_binary_bytes, lemma_rows_pass};
use crate::judge::output::{parse_output_spec, parse_robots, parse_robot, parse_states, dir_index, RobotModel, StatesModel, OutputError};

verus! {

/// The letter of a direction: U, R, D, L.
pub open spec fn dir_letter(d: int) -> char {
    if d == 0 {
        'U'
    } else if d == 1 {
        'R'
    } else if d == 2 {
        'D'
    } else {
        'L'
    }
}

/// The letter of an action: F (forward), R (right), L (left).
pub open spec fn action_letter(a: int) -> char {
    if a == 0 {
        'F'
    } else if a == 1 {
        'R'
    } else {
        'L'
    }
}

/// One automaton row as an answer line: `a0 b0 a1 b1` with action letters.
pub open spec fn entry_line(e: AutoEntry) -> Seq<char> {
    seq![action_letter(e.0 as int), ' '] + dec_nat(e.1 as nat) + seq![' ', action_letter(e.2 as int), ' '] + dec_nat(
        e.3 as nat,
    ) + seq!['\n']
}

/// The first `k` rows of a table as answer lines.
pub open spec fn table_lines(t: AutoTable, k: int) -> Seq<char>
    decreases k,
{
    if k <= 0 {
        Seq::empty()
    } else {
        table_lines(t, k - 1) + entry_line(t[k - 1])
    }
}

/// One robot of the answer: `m r c dir` with the robot in the centre cell
/// (9, 9), then its rows.
pub open spec fn robot_block(t: AutoTable, d: int) -> Seq<char> {
    dec_nat(NUM_STATES as nat) + seq![' '] + dec_nat(9) + seq![' '] + dec_nat(9) + seq![' ', dir_letter(d), '\n']
        + table_lines(t, NUM_STATES as int)
}

/// The robots of the first `k` automata, with their directions.
pub open spec fn robot_blocks(a: AutoSet, dirs: Seq<int>, k: int) -> Seq<char>
    decreases k,
{
    if k <= 0 {
        Seq::empty()
    } else {
        robot_blocks(a, dirs, k - 1) + robot_block(a[k - 1], dirs[k - 1])
    }
}

/// The answer text: the number of robots, one robot per automaton, and no
/// added wall.
pub open spec fn solution_spec(a: AutoSet, dirs: Seq<int>) -> Seq<char> {
    dec_nat(NUM_AUTOS as nat) + seq!['\n'] + robot_blocks(a, dirs, NUM_AUTOS as int) + zero_lines(N as int, N - 1)
        + zero_lines(N - 1, N as int)
}

/// `d` is the start direction with the largest total cover over the boards,
/// the smallest one among ties.
pub open spec fn is_best_dir(boards: Seq<Board>, t: AutoTable, r: int, c: int, d: int) -> bool {
    &&& 0 <= d < 4
    &&& forall|e: int| 0 <= e < 4 ==> dir_sum(boards, t, r, c, e, boards.len() as int) <= dir_sum(boards, t, r, c, d, boards.len() as int)
    &&& forall|e: int| 0 <= e < d ==> dir_sum(boards, t, r, c, e, boards.len() as int) < dir_sum(boards, t, r, c, d, boards.len() as int)
}

/// There is one best direction.
pub proof fn lemma_best_dir_unique(boards: Seq<Board>, t: AutoTable, r: int, c: int, d1: int, d2: int)
    requires
        is_best_dir(boards, t, r, c, d1),
        is_best_dir(boards, t, r, c, d2),
    ensures
        d1 == d2,
{
    if d1 < d2 {
        assert(dir_sum(boards, t, r, c, d1, boards.len() as int) < dir_sum(boards, t, r, c, d2, boards.len() as int));
    } else if d2 < d1 {
        assert(dir_sum(boards, t, r, c, d2, boards.len() as int) < dir_sum(boards, t, r, c, d1, boards.len() as int));
    }
}

/// Appends one answer line of a row.
fn push_entry_line(out: &mut Vec<char>, e: AutoEntry)
    requires
        entry_wf(e),
    ensures
        final(out)@ == old(out)@ + entry_line(e),
{
    let ghost start = out@;
    out.push(action_char(e.0));
    out.push(' ');
    push_usize(out, e.1);
    out.push(' ');
    out.push(action_char(e.2));
    out.push(' ');
    push_usize(out, e.3);
    out.push('\n');
    proof {
        assert(out@ =~= start + entry_line(e));
    }
}

/// Appends the robot line and rows of one automaton.
fn push_robot_block(out: &mut Vec<char>, t: &AutoTable, d: usize)
    requires
        table_wf(*t),
        d < 4,
    ensures
        final(out)@ == old(out)@ + robot_block(*t, d as int),
{
    let ghost start = out@;
    let dirs = ['U', 'R', 'D', 'L'];
    let center = N / 2 - 1;
    push_usize(out, NUM_STATES);
    out.push(' ');
    push_usize(out, center);
    out.push(' ');
    push_usize(out, center);
    out.push(' ');
    out.push(dirs[d]);
    out.push('\n');
    let ghost mid = out@;
    proof {
        assert(mid =~= start + (dec_nat(NUM_STATES as nat) + seq![' '] + dec_nat(9) + seq![' '] + dec_nat(9) + seq![' ', dir_letter(d as int), '\n']));
    }
    let mut s: usize = 0;
    while s < NUM_STATES
        invariant
            s <= NUM_STATES,
            table_wf(*t),
            out@ == mid + table_lines(*t, s as int),
        decreases NUM_STATES - s,
    {
        proof {
            assert(entry_wf(t[s as int]));
        }
        push_entry_line(out, t[s]);
        s += 1;
    }
    proof {
        assert(out@ =~= start + robot_block(*t, d as int));
    }
}

/// The answer text for an automaton set: one robot per automaton in the
/// centre cell, each facing the direction with the largest total cover over
/// the boards (see `solution_spec` and `is_best_dir`).
pub fn solution_text(auto_set: &AutoSet, boards: &[Board], start_row: usize, start_col: usize) -> (r: String)
    requires
        set_wf(*auto_set),
        start_row < N,
        start_col < N,
        boards.len() <= usize::MAX / CELLS,
    ensures
        exists|dirs: Seq<int>|
            dirs.len() == NUM_AUTOS && (forall|k: int|
                0 <= k < NUM_AUTOS ==> #[trigger] is_best_dir(boards@, auto_set[k], start_row as int, start_col as int, dirs[k]))
                && r@ == solution_spec(*auto_set, dirs),
{
    let mut out: Vec<char> = Vec::new();
    push_usize(&mut out, NUM_AUTOS);
    out.push('\n');
    let ghost head = out@;
    let ghost mut dirs: Seq<int> = Seq::empty();
    let mut k: usize = 0;
    while k < NUM_AUTOS
        invariant
            k <= NUM_AUTOS,
            set_wf(*auto_set),
            start_row < N,
            start_col < N,
            boards.len() <= usize::MAX / CELLS,
            dirs.len() == k,
            forall|q: int| 0 <= q < k ==> #[trigger] is_best_dir(boards@, auto_set[q], start_row as int, start_col as int, dirs[q]),
            out@ == head + robot_blocks(*auto_set, dirs, k as int),
        decreases NUM_AUTOS - k,
    {
        proof {
            assert(table_wf(auto_set[k as int]));
        }
        let d = best_dir_for_automaton(&auto_set[k], boards, start_row, start_col);
        push_robot_block(&mut out, &auto_set[k], d);
        proof {
            let nd = dirs.push(d as int);
            assert(robot_blocks(*auto_set, nd, k as int) == robot_blocks(*auto_set, dirs, k as int)) by {
                lemma_robot_blocks_prefix(*auto_set, dirs, nd, k as int);
            }
            assert(forall|q: int| 0 <= q < k ==> nd[q] == dirs[q]);
            dirs = nd;
        }
        k += 1;
    }
    crate::cover::push_zero_lines(&mut out, N, N - 1);
    crate::cover::push_zero_lines(&mut out, N - 1, N);
    proof {
        assert(out@ =~= solution_spec(*auto_set, dirs));
    }
    string_of_chars(&out)
}

/// Blocks of the first `k` automata depend on the first `k` directions only.
pub proof fn lemma_robot_blocks_prefix(a: AutoSet, d1: Seq<int>, d2: Seq<int>, k: int)
    requires
        0 <= k <= d1.len(),
        k <= d2.len(),
        forall|q: int| 0 <= q < k ==> d1[q] == d2[q],
    ensures
        robot_blocks(a, d1, k) == robot_blocks(a, d2, k),
    decreases k,
{
    if k > 0 {
        lemma_robot_blocks_prefix(a, d1, d2, k - 1);
    }
}

/// A row as a Rust tuple: `(a0, b0, a1, b1)` with numbers.
pub open spec fn const_row(e: AutoEntry) -> Seq<char> {
    "("@ + dec_nat(e.0 as nat) + ", "@ + dec_nat(e.1 as nat) + ", "@ + dec_nat(e.2 as nat) + ", "@ + dec_nat(e.3 as nat)
        + ")"@
}

/// The first `s` rows of a table as Rust tuples separated by `, `.
pub open spec fn const_rows(t: AutoTable, s: int) -> Seq<char>
    decreases s,
{
    if s <= 0 {
        Seq::empty()
    } else {
        const_rows(t, s - 1) + (if s - 1 > 0 { ", "@ } else { Seq::empty() }) + const_row(t[s - 1])
    }
}

/// A table as a Rust constant named after its index `k`.
pub open spec fn const_line(k: int, t: AutoTable) -> Seq<char> {
    "const AUTO_"@ + dec_nat(k as nat) + ": [(u8, usize, u8, usize); "@ + dec_nat(NUM_STATES as nat) + "] = ["@
        + const_rows(t, NUM_STATES as int) + "];\n"@
}

/// The constants of the first `k` tables.
pub open spec fn const_section(a: AutoSet, k: int) -> Seq<char>
    decreases k,
{
    if k <= 0 {
        Seq::empty()
    } else {
        const_section(a, k - 1) + const_line(k - 1, a[k - 1])
    }
}

/// One row in words.
pub open spec fn state_line(s: int, e: AutoEntry) -> Seq<char> {
    "//   state "@ + dec_nat(s as nat) + ": no_wall=("@ + seq![action_letter(e.0 as int)] + ", next="@ + dec_nat(
        e.1 as nat,
    ) + ")  wall=("@ + seq![action_letter(e.2 as int)] + ", next="@ + dec_nat(e.3 as nat) + ")\n"@
}

/// The first `s` rows of a table in words.
pub open spec fn state_lines(t: AutoTable, s: int) -> Seq<char>
    decreases s,
{
    if s <= 0 {
        Seq::empty()
    } else {
        state_lines(t, s - 1) + state_line(s - 1, t[s - 1])
    }
}

/// The first `k` tables in words.
pub open spec fn human_section(a: AutoSet, k: int) -> Seq<char>
    decreases k,
{
    if k <= 0 {
        Seq::empty()
    } else {
        human_section(a, k - 1) + "// Automaton "@ + dec_nat((k - 1) as nat) + ":\n"@ + state_lines(a[k - 1], NUM_STATES as int)
    }
}

/// The first `k` automata as one-robot answers ready to paste, separated by
/// empty lines.
pub open spec fn copy_section(a: AutoSet, dirs: Seq<int>, k: int) -> Seq<char>
    decreases k,
{
    if k <= 0 {
        Seq::empty()
    } else {
        copy_section(a, dirs, k - 1) + copy_block(k - 1, a[k - 1], dirs[k - 1])
    }
}

/// Automaton `k` as a one-robot answer ready to paste, followed by an empty
/// line unless it is the last.
pub open spec fn copy_block(k: int, t: AutoTable, d: int) -> Seq<char> {
    "PATTERN "@ + dec_nat(k as nat) + "\n"@ + "1\n"@ + robot_block(t, d) + (if k + 1 < NUM_AUTOS { "\n"@ } else { Seq::empty() })
}

/// Appends the paste-ready block of automaton `k`.
fn push_copy_block(out: &mut Vec<char>, k: usize, t: &AutoTable, d: usize)
    requires
        table_wf(*t),
        d < 4,
        k < NUM_AUTOS,
    ensures
        final(out)@ == old(out)@ + copy_block(k as int, *t, d as int),
{
    let ghost start = out@;
    push_str(out, "PATTERN ");
    push_usize(out, k);
    push_str(out, "\n");
    push_str(out, "1\n");
    push_robot_block(out, t, d);
    if k + 1 < NUM_AUTOS {
        push_str(out, "\n");
    }
    proof {
        assert(out@ =~= start + copy_block(k as int, *t, d as int));
    }
}

/// The readable listing: the tables as Rust constants, in words, and as
/// one-robot answers between markers.
pub open spec fn readable_spec(a: AutoSet, dirs: Seq<int>) -> Seq<char> {
    "// ---- Best AutoSet (Rust 定数形式) ----\n"@ + const_section(a, NUM_AUTOS as int) + "\n"@
        + "// ---- 人間可読形式 ----\n"@ + human_section(a, NUM_AUTOS as int) + "\n"@ + "AUTOMATA_COPYABLE_BEGIN\n"@
        + copy_section(a, dirs, NUM_AUTOS as int) + "AUTOMATA_COPYABLE_END\n"@
}

/// The letter of an action, `?` for an unknown one.
fn action_name(a: u8) -> (c: char)
    ensures
        a <= 2 ==> c == action_letter(a as int),
{
    if a == 0 {
        'F'
    } else if a == 1 {
        'R'
    } else if a == 2 {
        'L'
    } else {
        '?'
    }
}

/// Appends one row in words.
fn push_state_line(out: &mut Vec<char>, s: usize, e: AutoEntry)
    requires
        entry_wf(e),
    ensures
        final(out)@ == old(out)@ + state_line(s as int, e),
{
    let ghost start = out@;
    push_str(out, "//   state ");
    push_usize(out, s);
    push_str(out, ": no_wall=(");
    out.push(action_name(e.0));
    push_str(out, ", next=");
    push_usize(out, e.1);
    push_str(out, ")  wall=(");
    out.push(action_name(e.2));
    push_str(out, ", next=");
    push_usize(out, e.3);
    push_str(out, ")\n");
    proof {
        assert(out@ =~= start + state_line(s as int, e));
    }
}

/// Appends one row as a Rust tuple, after `, ` unless it is the first.
fn push_const_row(out: &mut Vec<char>, s: usize, e: AutoEntry)
    ensures
        final(out)@ == old(out)@ + (if s > 0 { ", "@ } else { Seq::empty() }) + const_row(e),
{
    let ghost start = out@;
    if s > 0 {
        push_str(out, ", ");
    }
    let ghost mid = out@;
    push_str(out, "(");
    push_usize(out, e.0 as usize);
    push_str(out, ", ");
    push_usize(out, e.1);
    push_str(out, ", ");
    push_usize(out, e.2 as usize);
    push_str(out, ", ");
    push_usize(out, e.3);
    push_str(out, ")");
    proof {
        assert(out@ =~= mid + const_row(e));
        assert(mid =~= start + (if s > 0 { ", "@ } else { Seq::<char>::empty() }));
    }
}

/// A readable listing of an automaton set (see `readable_spec`), with each
/// pasteable robot facing its best direction (see `is_best_dir`).
pub fn readable_text(auto_set: &AutoSet, boards: &[Board], start_row: usize, start_col: usize) -> (r: String)
    requires
        set_wf(*auto_set),
        start_row < N,
        start_col < N,
        boards.len() <= usize::MAX / CELLS,
    ensures
        exists|dirs: Seq<int>|
            dirs.len() == NUM_AUTOS && (forall|k: int|
                0 <= k < NUM_AUTOS ==> #[trigger] is_best_dir(boards@, auto_set[k], start_row as int, start_col as int, dirs[k]))
                && r@ == readable_spec(*auto_set, dirs),
{
    let mut out: Vec<char> = Vec::new();
    push_str(&mut out, "// ---- Best AutoSet (Rust 定数形式) ----\n");
    let ghost h1 = out@;
    let mut k: usize = 0;
    while k < NUM_AUTOS
        invariant
            k <= NUM_AUTOS,
            set_wf(*auto_set),
            out@ == h1 + const_section(*auto_set, k as int),
        decreases NUM_AUTOS - k,
    {
        let ghost pre = out@;
        push_str(&mut out, "const AUTO_");
        push_usize(&mut out, k);
        push_str(&mut out, ": [(u8, usize, u8, usize); ");
        push_usize(&mut out, NUM_STATES);
        push_str(&mut out, "] = [");
        let ghost rows_start = out@;
        let mut s: usize = 0;
        while s < NUM_STATES
            invariant
                s <= NUM_STATES,
                k < NUM_AUTOS,
                out@ == rows_start + const_rows(auto_set[k as int], s as int),
            decreases NUM_STATES - s,
        {
            push_const_row(&mut out, s, auto_set[k][s]);
            proof {
                assert(out@ =~= rows_start + const_rows(auto_set[k as int], s + 1));
            }
            s += 1;
        }
        push_str(&mut out, "];\n");
        proof {
            assert(out@ =~= h1 + const_section(*auto_set, k + 1));
        }
        k += 1;
    }
    push_str(&mut out, "\n");
    push_str(&mut out, "// ---- 人間可読形式 ----\n");
    let ghost h2 = out@;
    let mut k: usize = 0;
    while k < NUM_AUTOS
        invariant
            k <= NUM_AUTOS,
            set_wf(*auto_set),
            out@ == h2 + human_section(*auto_set, k as int),
        decreases NUM_AUTOS - k,
    {
        push_str(&mut out, "// Automaton ");
        push_usize(&mut out, k);
        push_str(&mut out, ":\n");
        let ghost lines_start = out@;
        let mut s: usize = 0;
        while s < NUM_STATES
            invariant
                s <= NUM_STATES,
                k < NUM_AUTOS,
                set_wf(*auto_set),
                out@ == lines_start + state_lines(auto_set[k as int], s as int),
            decreases NUM_STATES - s,
        {
            proof {
                assert(table_wf(auto_set[k as int]));
                assert(entry_wf(auto_set[k as int][s as int]));
            }
            push_state_line(&mut out, s, auto_set[k][s]);
            proof {
                assert(out@ =~= lines_start + state_lines(auto_set[k as int], s + 1));
            }
            s += 1;
        }
        proof {
            assert(out@ =~= h2 + human_section(*auto_set, k + 1));
        }
        k += 1;
    }
    push_str(&mut out, "\n");
    push_str(&mut out, "AUTOMATA_COPYABLE_BEGIN\n");
    let ghost h3 = out@;
    let ghost mut dirs: Seq<int> = Seq::empty();
    let mut k: usize = 0;
    while k < NUM_AUTOS
        invariant
            k <= NUM_AUTOS,
            set_wf(*auto_set),
            start_row < N,
            start_col < N,
            boards.len() <= usize::MAX / CELLS,
            dirs.len() == k,
            forall|q: int| 0 <= q < k ==> #[trigger] is_best_dir(boards@, auto_set[q], start_row as int, start_col as int, dirs[q]),
            out@ == h3 + copy_section(*auto_set, dirs, k as int),
        decreases NUM_AUTOS - k,
    {
        proof {
            assert(table_wf(auto_set[k as int]));
        }
        let d = best_dir_for_automaton(&auto_set[k], boards, start_row, start_col);
        let ghost pre = out@;
        push_copy_block(&mut out, k, &auto_set[k], d);
        proof {
            let nd = dirs.push(d as int);
            lemma_copy_section_prefix(*auto_set, dirs, nd, k as int);
            assert(copy_section(*auto_set, nd, k + 1) == copy_section(*auto_set, nd, k as int) + copy_block(k as int, auto_set[k as int], d as int));
            assert(out@ =~= h3 + copy_section(*auto_set, nd, k + 1));
            dirs = nd;
        }
        k += 1;
    }
    push_str(&mut out, "AUTOMATA_COPYABLE_END\n");
    proof {
        assert(out@ =~= readable_spec(*auto_set, dirs));
    }
    string_of_chars(&out)
}

/// Copy blocks of the first `k` automata depend on the first `k` directions only.
pub proof fn lemma_copy_section_prefix(a: AutoSet, d1: Seq<int>, d2: Seq<int>, k: int)
    requires
        0 <= k <= d1.len(),
        k <= d2.len(),
        forall|q: int| 0 <= q < k ==> d1[q] == d2[q],
    ensures
        copy_section(a, d1, k) == copy_section(a, d2, k),
    decreases k,
{
    if k > 0 {
        lemma_copy_section_prefix(a, d1, d2, k - 1);
    }
}

/// The tokens of an answer line.
pub open spec fn entry_tokens(e: AutoEntry) -> Seq<Seq<char>> {
    seq![seq![action_letter(e.0 as int)], dec_nat(e.1 as nat), seq![action_letter(e.2 as int)], dec_nat(e.3 as nat)]
}

/// The tokens of the first `k` answer lines of a table.
pub open spec fn table_tokens(t: AutoTable, k: int) -> Seq<Seq<char>>
    decreases k,
{
    if k <= 0 {
        Seq::empty()
    } else {
        table_tokens(t, k - 1) + entry_tokens(t[k - 1])
    }
}

/// The tokens of one robot of the answer.
pub open spec fn block_tokens(t: AutoTable, d: int) -> Seq<Seq<char>> {
    seq![dec_nat(NUM_STATES as nat), dec_nat(9), dec_nat(9), seq![dir_letter(d)]] + table_tokens(t, NUM_STATES as int)
}

/// The tokens of the robots of the first `k` automata.
pub open spec fn blocks_tokens(a: AutoSet, dirs: Seq<int>, k: int) -> Seq<Seq<char>>
    decreases k,
{
    if k <= 0 {
        Seq::empty()
    } else {
        blocks_tokens(a, dirs, k - 1) + block_tokens(a[k - 1], dirs[k - 1])
    }
}

/// The rows `0..k` of a table as read: action letters and next states.
pub open spec fn table_rows_read(t: AutoTable, k: int) -> StatesModel {
    (
        Seq::new(k as nat, |s: int| action_letter(t[s].0 as int)),
        Seq::new(k as nat, |s: int| t[s].1),
        Seq::new(k as nat, |s: int| action_letter(t[s].2 as int)),
        Seq::new(k as nat, |s: int| t[s].3),
    )
}

/// The robot that the answer block of a table describes: all states, in
/// the centre cell (9, 9), facing `d`.
pub open spec fn table_robot(t: AutoTable, d: int) -> RobotModel {
    let rows = table_rows_read(t, NUM_STATES as int);
    (NUM_STATES as int, 9, 9, d, rows.0, rows.1, rows.2, rows.3)
}

/// The robots that an answer describes, one per automaton.
pub open spec fn set_robots(a: AutoSet, dirs: Seq<int>) -> Seq<RobotModel> {
    Seq::new(NUM_AUTOS as nat, |k: int| table_robot(a[k], dirs[k]))
}

/// An answer line, before the tokens of what follows.
proof fn lemma_entry_tokens(e: AutoEntry, rest: Seq<char>)
    ensures
        tokens(entry_line(e) + rest) == entry_tokens(e) + tokens(rest),
{
    let a0 = seq![action_letter(e.0 as int)];
    let a1 = seq![action_letter(e.2 as int)];
    let b0 = dec_nat(e.1 as nat);
    let b1 = dec_nat(e.3 as nat);
    lemma_dec_word(e.1 as nat);
    lemma_dec_word(e.3 as nat);
    assert(is_word(a0) && is_word(a1));
    assert(is_ws(' ') && is_ws('\n'));
    lemma_tokens_cons(b1, '\n', rest);
    let r3 = b1 + seq!['\n'] + rest;
    lemma_tokens_cons(a1, ' ', r3);
    let r2 = a1 + seq![' '] + r3;
    lemma_tokens_cons(b0, ' ', r2);
    let r1 = b0 + seq![' '] + r2;
    lemma_tokens_cons(a0, ' ', r1);
    assert(entry_line(e) + rest =~= a0 + seq![' '] + r1);
    assert(entry_tokens(e) + tokens(rest) =~= seq![a0] + (seq![b0] + (seq![a1] + (seq![b1] + tokens(rest)))));
}

/// The first `k` answer lines of a table, before the tokens of what follows.
proof fn lemma_table_tokens(t: AutoTable, k: int, rest: Seq<char>)
    requires
        0 <= k <= NUM_STATES,
    ensures
        tokens(table_lines(t, k) + rest) == table_tokens(t, k) + tokens(rest),
    decreases k,
{
    if k == 0 {
        assert(table_lines(t, k) + rest =~= rest);
        assert(table_tokens(t, k) + tokens(rest) =~= tokens(rest));
    } else {
        let line = entry_line(t[k - 1]);
        lemma_table_tokens(t, k - 1, line + rest);
        lemma_entry_tokens(t[k - 1], rest);
        assert(table_lines(t, k) + rest =~= table_lines(t, k - 1) + (line + rest));
        assert(table_tokens(t, k) + tokens(rest) =~= table_tokens(t, k - 1) + (entry_tokens(t[k - 1]) + tokens(rest)));
    }
}

/// One robot of the answer, before the tokens of what follows.
proof fn lemma_block_tokens(t: AutoTable, d: int, rest: Seq<char>)
    requires
        0 <= d < 4,
    ensures
        tokens(robot_block(t, d) + rest) == block_tokens(t, d) + tokens(rest),
{
    let m = dec_nat(NUM_STATES as nat);
    let nine = dec_nat(9);
    let dl = seq![dir_letter(d)];
    lemma_dec_word(NUM_STATES as nat);
    lemma_dec_word(9);
    assert(is_word(dl));
    assert(is_ws(' ') && is_ws('\n'));
    let body = table_lines(t, NUM_STATES as int) + rest;
    lemma_table_tokens(t, NUM_STATES as int, rest);
    lemma_tokens_cons(dl, '\n', body);
    let r3 = dl + seq!['\n'] + body;
    lemma_tokens_cons(nine, ' ', r3);
    let r2 = nine + seq![' '] + r3;
    lemma_tokens_cons(nine, ' ', r2);
    let r1 = nine + seq![' '] + r2;
    lemma_tokens_cons(m, ' ', r1);
    assert(robot_block(t, d) + rest =~= m + seq![' '] + r1);
    assert(block_tokens(t, d) + tokens(rest) =~= seq![m] + (seq![nine] + (seq![nine] + (seq![dl] + (table_tokens(
        t,
        NUM_STATES as int,
    ) + tokens(rest))))));
}

/// The robots of the first `k` automata, before the tokens of what follows.
proof fn lemma_blocks_tokens(a: AutoSet, dirs: Seq<int>, k: int, rest: Seq<char>)
    requires
        0 <= k <= NUM_AUTOS,
        dirs.len() == NUM_AUTOS,
        forall|x: int| 0 <= x < NUM_AUTOS ==> 0 <= #[trigger] dirs[x] < 4,
    ensures
        tokens(robot_blocks(a, dirs, k) + rest) == blocks_tokens(a, dirs, k) + tokens(rest),
    decreases k,
{
    if k == 0 {
        assert(robot_blocks(a, dirs, k) + rest =~= rest);
        assert(blocks_tokens(a, dirs, k) + tokens(rest) =~= tokens(rest));
    } else {
        let b = robot_block(a[k - 1], dirs[k - 1]);
        lemma_blocks_tokens(a, dirs, k - 1, b + rest);
        assert(0 <= dirs[k - 1] < 4);
        lemma_block_tokens(a[k - 1], dirs[k - 1], rest);
        assert(robot_blocks(a, dirs, k) + rest =~= robot_blocks(a, dirs, k - 1) + (b + rest));
        assert(blocks_tokens(a, dirs, k) + tokens(rest) =~= blocks_tokens(a, dirs, k - 1) + (block_tokens(
            a[k - 1],
            dirs[k - 1],
        ) + tokens(rest)));
    }
}

/// The tokens of the answer: the number of robots, the robots, and the
/// lines of zeros.
proof fn lemma_solution_tokens(a: AutoSet, dirs: Seq<int>)
    requires
        dirs.len() == NUM_AUTOS,
        forall|x: int| 0 <= x < NUM_AUTOS ==> 0 <= #[trigger] dirs[x] < 4,
    ensures
        tokens(solution_spec(a, dirs)) == seq![dec_nat(NUM_AUTOS as nat)] + blocks_tokens(a, dirs, NUM_AUTOS as int)
            + Seq::new(N as nat, |x: int| zero_row(N - 1)) + Seq::new((N - 1) as nat, |x: int| zero_row(N as int)),
{
    let z1 = zero_lines(N as int, N - 1);
    let z2 = zero_lines(N - 1, N as int);
    let s1 = Seq::new(N as nat, |x: int| zero_row(N - 1));
    let s2 = Seq::new((N - 1) as nat, |x: int| zero_row(N as int));
    let bl = robot_blocks(a, dirs, NUM_AUTOS as int);
    lemma_tokens_empty();
    lemma_zero_lines_tokens(N - 1, N as int, Seq::<char>::empty());
    assert(z2 + Seq::<char>::empty() =~= z2);
    assert(tokens(z2) =~= s2);
    lemma_zero_lines_tokens(N as int, N - 1, z2);
    lemma_blocks_tokens(a, dirs, NUM_AUTOS as int, z1 + z2);
    lemma_dec_word(NUM_AUTOS as nat);
    assert(is_ws('\n'));
    lemma_tokens_cons(dec_nat(NUM_AUTOS as nat), '\n', bl + (z1 + z2));
    assert(solution_spec(a, dirs) =~= dec_nat(NUM_AUTOS as nat) + seq!['\n'] + (bl + (z1 + z2)));
    assert(seq![dec_nat(NUM_AUTOS as nat)] + (blocks_tokens(a, dirs, NUM_AUTOS as int) + (s1 + s2)) =~= seq![dec_nat(
        NUM_AUTOS as nat,
    )] + blocks_tokens(a, dirs, NUM_AUTOS as int) + s1 + s2);
}

/// Each answer line has four tokens.
proof fn lemma_table_tokens_len(t: AutoTable, k: int)
    requires
        0 <= k,
    ensures
        table_tokens(t, k).len() == 4 * k,
    decreases k,
{
    if k > 0 {
        lemma_table_tokens_len(t, k - 1);
    }
}

/// Each robot of the answer has 28 tokens.
proof fn lemma_blocks_tokens_len(a: AutoSet, dirs: Seq<int>, k: int)
    requires
        0 <= k,
    ensures
        blocks_tokens(a, dirs, k).len() == 28 * k,
    decreases k,
{
    if k > 0 {
        lemma_blocks_tokens_len(a, dirs, k - 1);
        lemma_table_tokens_len(a[k - 1], NUM_STATES as int);
    }
}

/// Reading the first `k` answer lines of a table gives its rows, in order.
proof fn lemma_parse_table_rows(tk: Seq<Seq<char>>, p: int, tb: AutoTable, k: int, left: int, acc: StatesModel)
    requires
        table_wf(tb),
        0 <= k <= NUM_STATES,
        0 <= left,
        0 <= p,
        p + 4 * k <= tk.len(),
        tk.subrange(p, p + 4 * k) == table_tokens(tb, k),
    ensures
        ({
            let rows = table_rows_read(tb, k);
            parse_states(tk, p, NUM_STATES as int, k + left, acc) == parse_states(
                tk,
                p + 4 * k,
                NUM_STATES as int,
                left,
                (acc.0 + rows.0, acc.1 + rows.1, acc.2 + rows.2, acc.3 + rows.3),
            )
        }),
    decreases k,
{
    let rows = table_rows_read(tb, k);
    if k == 0 {
        assert(acc.0 + rows.0 =~= acc.0 && acc.1 + rows.1 =~= acc.1);
        assert(acc.2 + rows.2 =~= acc.2 && acc.3 + rows.3 =~= acc.3);
    } else {
        lemma_table_tokens_len(tb, k - 1);
        let prev = table_tokens(tb, k - 1);
        let all = table_tokens(tb, k);
        assert(tk.subrange(p, p + 4 * (k - 1)) =~= prev) by {
            assert forall|i: int| 0 <= i < prev.len() implies tk.subrange(p, p + 4 * (k - 1))[i] == prev[i] by {
                assert(all[i] == prev[i]);
                assert(tk.subrange(p, p + 4 * k)[i] == tk[p + i]);
            }
        }
        lemma_parse_table_rows(tk, p, tb, k - 1, left + 1, acc);
        let pr = table_rows_read(tb, k - 1);
        let mid = (acc.0 + pr.0, acc.1 + pr.1, acc.2 + pr.2, acc.3 + pr.3);
        let q = p + 4 * (k - 1);
        let e = tb[k - 1];
        assert(entry_wf(e));
        let et = entry_tokens(e);
        assert forall|i: int| 0 <= i < 4 implies tk[q + i] == #[trigger] et[i] by {
            assert(all[4 * (k - 1) + i] == et[i]);
            assert(tk.subrange(p, p + 4 * k)[4 * (k - 1) + i] == tk[p + 4 * (k - 1) + i]);
        }
        assert(tk[q] == et[0] && tk[q + 1] == et[1] && tk[q + 2] == et[2] && tk[q + 3] == et[3]);
        lemma_parse_dec_usize(e.1);
        lemma_parse_dec_usize(e.3);
        assert(tk[q][0] == action_letter(e.0 as int));
        assert(tk[q + 2][0] == action_letter(e.2 as int));
        let next = (
            mid.0.push(action_letter(e.0 as int)),
            mid.1.push(e.1),
            mid.2.push(action_letter(e.2 as int)),
            mid.3.push(e.3),
        );
        assert(parse_states(tk, q, NUM_STATES as int, left + 1, mid) == parse_states(tk, q + 4, NUM_STATES as int, left, next));
        assert(next.0 =~= acc.0 + rows.0);
        assert(next.1 =~= acc.1 + rows.1);
        assert(next.2 =~= acc.2 + rows.2);
        assert(next.3 =~= acc.3 + rows.3);
    }
}

/// Reading one robot of the answer gives the robot of its table.
proof fn lemma_parse_block(tk: Seq<Seq<char>>, p: int, tb: AutoTable, d: int)
    requires
        table_wf(tb),
        0 <= d < 4,
        0 <= p,
        p + 28 <= tk.len(),
        tk.subrange(p, p + 28) == block_tokens(tb, d),
    ensures
        parse_robot(tk, p, N as int) == Ok::<_, OutputError>((table_robot(tb, d), p + 28)),
{
    let bt = block_tokens(tb, d);
    lemma_table_tokens_len(tb, NUM_STATES as int);
    assert forall|i: int| 0 <= i < 28 implies tk[p + i] == #[trigger] bt[i] by {
        assert(tk.subrange(p, p + 28)[i] == tk[p + i]);
    }
    assert(tk[p] == bt[0] && tk[p + 1] == bt[1] && tk[p + 2] == bt[2] && tk[p + 3] == bt[3]);
    lemma_parse_dec_usize(6usize);
    lemma_parse_dec_usize(9usize);
    assert(tk[p + 3][0] == dir_letter(d));
    assert(dir_index(dir_letter(d)) == d);
    assert(tk.subrange(p + 4, p + 4 + 4 * 6) =~= table_tokens(tb, 6)) by {
        assert forall|i: int| 0 <= i < 24 implies tk.subrange(p + 4, p + 28)[i] == table_tokens(tb, 6)[i] by {
            assert(bt[4 + i] == table_tokens(tb, 6)[i]);
            assert(tk[p + 4 + i] == bt[4 + i]);
        }
    }
    let empty = (Seq::<char>::empty(), Seq::<usize>::empty(), Seq::<char>::empty(), Seq::<usize>::empty());
    lemma_parse_table_rows(tk, p + 4, tb, 6, 0, empty);
    let rows = table_rows_read(tb, 6);
    assert(empty.0 + rows.0 =~= rows.0 && empty.1 + rows.1 =~= rows.1);
    assert(empty.2 + rows.2 =~= rows.2 && empty.3 + rows.3 =~= rows.3);
    assert(parse_states(tk, p + 4, 6, 6, empty) == Ok::<_, OutputError>((rows, p + 28)));
}

/// Reading the robots of the first `k` automata gives them, one after the
/// other.
proof fn lemma_parse_blocks(
    tk: Seq<Seq<char>>,
    p: int,
    a: AutoSet,
    dirs: Seq<int>,
    k: int,
    left: int,
    acc: Seq<RobotModel>,
)
    requires
        set_wf(a),
        dirs.len() == NUM_AUTOS,
        forall|x: int| 0 <= x < NUM_AUTOS ==> 0 <= #[trigger] dirs[x] < 4,
        0 <= k <= NUM_AUTOS,
        0 <= left,
        0 <= p,
        p + 28 * k <= tk.len(),
        tk.subrange(p, p + 28 * k) == blocks_tokens(a, dirs, k),
    ensures
        parse_robots(tk, p, N as int, k + left, acc) == parse_robots(
            tk,
            p + 28 * k,
            N as int,
            left,
            acc + Seq::new(k as nat, |x: int| table_robot(a[x], dirs[x])),
        ),
    decreases k,
{
    let ms = Seq::new(k as nat, |x: int| table_robot(a[x], dirs[x]));
    if k == 0 {
        assert(acc + ms =~= acc);
    } else {
        lemma_blocks_tokens_len(a, dirs, k - 1);
        let prev = blocks_tokens(a, dirs, k - 1);
        let all = blocks_tokens(a, dirs, k);
        assert(tk.subrange(p, p + 28 * (k - 1)) =~= prev) by {
            assert forall|i: int| 0 <= i < prev.len() implies tk.subrange(p, p + 28 * (k - 1))[i] == prev[i] by {
                assert(all[i] == prev[i]);
                assert(tk.subrange(p, p + 28 * k)[i] == tk[p + i]);
            }
        }
        lemma_parse_blocks(tk, p, a, dirs, k - 1, left + 1, acc);
        let q = p + 28 * (k - 1);
        let bt = block_tokens(a[k - 1], dirs[k - 1]);
        lemma_table_tokens_len(a[k - 1], NUM_STATES as int);
        lemma_blocks_tokens_len(a, dirs, k);
        assert(all =~= prev + bt);
        assert(tk.subrange(q, q + 28) =~= bt) by {
            assert forall|i: int| 0 <= i < 28 implies tk.subrange(q, q + 28)[i] == bt[i] by {
                assert(all[28 * (k - 1) + i] == bt[i]);
                assert(tk.subrange(p, p + 28 * k)[28 * (k - 1) + i] == tk[p + 28 * (k - 1) + i]);
            }
        }
        assert(table_wf(a[k - 1]));
        assert(0 <= dirs[k - 1] < 4);
        lemma_parse_block(tk, q, a[k - 1], dirs[k - 1]);
        let mid = acc + Seq::new((k - 1) as nat, |x: int| table_robot(a[x], dirs[x]));
        assert(mid.push(table_robot(a[k - 1], dirs[k - 1])) =~= acc + ms);
    }
}

/// The answer reads back as its automata: reading it gives one robot per
/// automaton, with all its states, in the centre cell, facing the direction
/// chosen for it, and no added wall.
pub proof fn lemma_solution_reads_back(a: AutoSet, dirs: Seq<int>)
    requires
        set_wf(a),
        dirs.len() == NUM_AUTOS,
        forall|x: int| 0 <= x < NUM_AUTOS ==> 0 <= #[trigger] dirs[x] < 4,
    ensures
        parse_output_spec(N as int, tokens(solution_spec(a, dirs))) == Ok::<_, OutputError>(
            (
                set_robots(a, dirs),
                Seq::new(N as nat, |x: int| zero_row(N - 1)),
                Seq::new((N - 1) as nat, |x: int| zero_row(N as int)),
            ),
        ),
{
    lemma_solution_tokens(a, dirs);
    lemma_blocks_tokens_len(a, dirs, NUM_AUTOS as int);
    let t = tokens(solution_spec(a, dirs));
    let s1 = Seq::new(N as nat, |x: int| zero_row(N - 1));
    let s2 = Seq::new((N - 1) as nat, |x: int| zero_row(N as int));
    let bt = blocks_tokens(a, dirs, NUM_AUTOS as int);
    assert(t.len() == 1 + 168 + 20 + 19);
    lemma_parse_dec_usize(6usize);
    assert(t[0] == dec_nat(6));
    assert(t.subrange(1, 169) =~= bt);
    lemma_parse_blocks(t, 1, a, dirs, 6, 0, Seq::empty());
    assert(Seq::<RobotModel>::empty() + Seq::new(6, |x: int| table_robot(a[x], dirs[x])) =~= set_robots(a, dirs));
    assert forall|x: int| 169 <= x < 189 implies byte_len(#[trigger] t[x]) == 19 by {
        assert(t[x] == s1[x - 169]);
        lemma_binary_bytes(zero_row(19));
    }
    assert forall|x: int| 189 <= x < 208 implies byte_len(#[trigger] t[x]) == 20 by {
        assert(t[x] == s2[x - 189]);
        lemma_binary_bytes(zero_row(20));
    }
    lemma_rows_pass(t, 169, 20, 19);
    lemma_rows_pass(t, 189, 19, 20);
    assert(t.subrange(169, 189) =~= s1);
    assert(t.subrange(189, 208) =~= s2);
}

} // verus!


