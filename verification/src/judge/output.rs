//! Reading a patrol plan: robots with their automata, and added walls.

use vstd::prelude::*;
use crate::text::{
    tokens, token_ranges, token_ranges_from, parse_usize, parse_usize_spec, chars_of, dec_nat, push_usize, push_str,
    string_of_chars,
};
use crate::judge::input::{InputData, input_wf, byte_len, byte_len_of, first_bad_row, read_rows, rows_view, lemma_rows_ok};

verus! {

/// Why a plan could not be read.
#[derive(Debug, PartialEq, Eq)]
pub enum OutputError {
    MissingK,
    ParseK,
    KOutOfRange(usize),
    MissingM,
    ParseM,
    MOutOfRange(usize),
    MissingI,
    ParseI,
    MissingJ,
    ParseJ,
    MissingD,
    InvalidDirection(char),
    MissingA0,
    InvalidA0(char),
    MissingB0,
    ParseB0,
    B0OutOfRange(usize),
    MissingA1,
    InvalidA1(char),
    MissingB1,
    ParseB1,
    B1OutOfRange(usize),
    MissingWallV,
    WallVLength(usize),
    MissingWallH,
    WallHLength(usize),
}

/// One robot: number of states `m`, start cell (i, j), start direction `d`
/// (0 = U, 1 = R, 2 = D, 3 = L), and for each state the action and next state
/// without (`a0`, `b0`) and with (`a1`, `b1`) a wall ahead.
pub struct Robot {
    pub m: usize,
    pub i: usize,
    pub j: usize,
    pub d: usize,
    pub a0: Vec<char>,
    pub b0: Vec<usize>,
    pub a1: Vec<char>,
    pub b1: Vec<usize>,
}

/// A plan: robots and the walls it adds.
pub struct OutputData {
    pub robots: Vec<Robot>,
    pub wall_v: Vec<Vec<char>>,
    pub wall_h: Vec<Vec<char>>,
}

/// The model of a robot.
pub type RobotModel = (int, int, int, int, Seq<char>, Seq<usize>, Seq<char>, Seq<usize>);

/// The rows of a robot's automaton read so far.
pub type StatesModel = (Seq<char>, Seq<usize>, Seq<char>, Seq<usize>);

/// The model of a robot.
pub open spec fn robot_view(r: Robot) -> RobotModel {
    (r.m as int, r.i as int, r.j as int, r.d as int, r.a0@, r.b0@, r.a1@, r.b1@)
}

/// Direction number of a direction letter.
pub open spec fn dir_index(c: char) -> int {
    if c == 'U' {
        0
    } else if c == 'R' {
        1
    } else if c == 'D' {
        2
    } else if c == 'L' {
        3
    } else {
        -1
    }
}

/// Reading `left` more automaton rows from token `pos` for a robot with `m`
/// states: action letter (R, L or F), next state below `m`, action letter with a
/// wall ahead (R or L), next state below `m`.
pub open spec fn parse_states(t: Seq<Seq<char>>, pos: int, m: int, left: int, acc: StatesModel) -> Result<(StatesModel, int), OutputError>
    decreases left,
{
    if left <= 0 {
        Ok((acc, pos))
    } else if pos >= t.len() {
        Err(OutputError::MissingA0)
    } else if !(t[pos][0] == 'R' || t[pos][0] == 'L' || t[pos][0] == 'F') {
        Err(OutputError::InvalidA0(t[pos][0]))
    } else if pos + 1 >= t.len() {
        Err(OutputError::MissingB0)
    } else if parse_usize_spec(t[pos + 1]) is None {
        Err(OutputError::ParseB0)
    } else if parse_usize_spec(t[pos + 1]).unwrap() >= m {
        Err(OutputError::B0OutOfRange(parse_usize_spec(t[pos + 1]).unwrap()))
    } else if pos + 2 >= t.len() {
        Err(OutputError::MissingA1)
    } else if !(t[pos + 2][0] == 'R' || t[pos + 2][0] == 'L') {
        Err(OutputError::InvalidA1(t[pos + 2][0]))
    } else if pos + 3 >= t.len() {
        Err(OutputError::MissingB1)
    } else if parse_usize_spec(t[pos + 3]) is None {
        Err(OutputError::ParseB1)
    } else if parse_usize_spec(t[pos + 3]).unwrap() >= m {
        Err(OutputError::B1OutOfRange(parse_usize_spec(t[pos + 3]).unwrap()))
    } else {
        parse_states(
            t,
            pos + 4,
            m,
            left - 1,
            (
                acc.0.push(t[pos][0]),
                acc.1.push(parse_usize_spec(t[pos + 1]).unwrap()),
                acc.2.push(t[pos + 2][0]),
                acc.3.push(parse_usize_spec(t[pos + 3]).unwrap()),
            ),
        )
    }
}

/// Reading one robot from token `pos` for an `n` x `n` grid:
/// `m i j d`, then its `m` automaton rows.
pub open spec fn parse_robot(t: Seq<Seq<char>>, pos: int, n: int) -> Result<(RobotModel, int), OutputError> {
    if pos >= t.len() {
        Err(OutputError::MissingM)
    } else if parse_usize_spec(t[pos]) is None {
        Err(OutputError::ParseM)
    } else if parse_usize_spec(t[pos]).unwrap() < 1 || parse_usize_spec(t[pos]).unwrap() > 4 * n * n {
        Err(OutputError::MOutOfRange(parse_usize_spec(t[pos]).unwrap()))
    } else if pos + 1 >= t.len() {
        Err(OutputError::MissingI)
    } else if parse_usize_spec(t[pos + 1]) is None {
        Err(OutputError::ParseI)
    } else if pos + 2 >= t.len() {
        Err(OutputError::MissingJ)
    } else if parse_usize_spec(t[pos + 2]) is None {
        Err(OutputError::ParseJ)
    } else if pos + 3 >= t.len() {
        Err(OutputError::MissingD)
    } else if dir_index(t[pos + 3][0]) < 0 {
        Err(OutputError::InvalidDirection(t[pos + 3][0]))
    } else {
        let m = parse_usize_spec(t[pos]).unwrap() as int;
        match parse_states(t, pos + 4, m, m, (Seq::empty(), Seq::empty(), Seq::empty(), Seq::empty())) {
            Err(e) => Err(e),
            Ok((st, p)) => Ok(
                (
                    (
                        m,
                        parse_usize_spec(t[pos + 1]).unwrap() as int,
                        parse_usize_spec(t[pos + 2]).unwrap() as int,
                        dir_index(t[pos + 3][0]),
                        st.0,
                        st.1,
                        st.2,
                        st.3,
                    ),
                    p,
                ),
            ),
        }
    }
}

/// Reading `left` more robots from token `pos`.
pub open spec fn parse_robots(t: Seq<Seq<char>>, pos: int, n: int, left: int, acc: Seq<RobotModel>) -> Result<(Seq<RobotModel>, int), OutputError>
    decreases left,
{
    if left <= 0 {
        Ok((acc, pos))
    } else {
        match parse_robot(t, pos, n) {
            Err(e) => Err(e),
            Ok((r, p)) => parse_robots(t, p, n, left - 1, acc.push(r)),
        }
    }
}

/// What reading a plan gives, from its tokens, for an `n` x `n` grid: the
/// number of robots `K` (1 to n * n), the robots, `n` lines of added vertical
/// walls (`n - 1` bytes) and `n - 1` lines of added horizontal walls (`n` bytes).
pub open spec fn parse_output_spec(n: int, t: Seq<Seq<char>>) -> Result<(Seq<RobotModel>, Seq<Seq<char>>, Seq<Seq<char>>), OutputError> {
    if t.len() < 1 {
        Err(OutputError::MissingK)
    } else if parse_usize_spec(t[0]) is None {
        Err(OutputError::ParseK)
    } else if parse_usize_spec(t[0]).unwrap() < 1 || parse_usize_spec(t[0]).unwrap() > n * n {
        Err(OutputError::KOutOfRange(parse_usize_spec(t[0]).unwrap()))
    } else {
        let k = parse_usize_spec(t[0]).unwrap() as int;
        match parse_robots(t, 1, n, k, Seq::empty()) {
            Err(e) => Err(e),
            Ok((rs, p)) => match first_bad_row(t, p, n, n - 1) {
                Some((q, true)) => Err(OutputError::MissingWallV),
                Some((q, false)) => Err(OutputError::WallVLength(byte_len(t[q]) as usize)),
                None => match first_bad_row(t, p + n, n - 1, n) {
                    Some((q, true)) => Err(OutputError::MissingWallH),
                    Some((q, false)) => Err(OutputError::WallHLength(byte_len(t[q]) as usize)),
                    None => Ok((rs, t.subrange(p, p + n), t.subrange(p + n, p + n + n - 1))),
                },
            },
        }
    }
}

/// The model of a plan.
pub open spec fn output_view(o: OutputData) -> (Seq<RobotModel>, Seq<Seq<char>>, Seq<Seq<char>>) {
    (o.robots@.map_values(|r: Robot| robot_view(r)), rows_view(o.wall_v@), rows_view(o.wall_h@))
}

/// The tokens of a text are the ranges found by `token_ranges`.
pub open spec fn ranges_match(cs: Seq<char>, ranges: Seq<(usize, usize)>) -> bool {
    &&& ranges.len() == tokens(cs).len()
    &&& forall|i: int|
        0 <= i < ranges.len() ==> (#[trigger] ranges[i]).0 < ranges[i].1 <= cs.len() && cs.subrange(
            ranges[i].0 as int,
            ranges[i].1 as int,
        ) == tokens(cs)[i]
}

/// Reads the automaton rows of one robot.
fn read_states(cs: &Vec<char>, ranges: &Vec<(usize, usize)>, pos: usize, m: usize) -> (r: Result<(Robot, usize), OutputError>)
    requires
        ranges_match(cs@, ranges@),
        pos <= ranges@.len(),
    ensures
        match r {
            Ok((rb, p)) => parse_states(tokens(cs@), pos as int, m as int, m as int, (Seq::empty(), Seq::empty(), Seq::empty(), Seq::empty()))
                == Ok::<(StatesModel, int), OutputError>(((rb.a0@, rb.b0@, rb.a1@, rb.b1@), p as int)) && p <= ranges@.len()
                && rb.a0@.len() == m && rb.b0@.len() == m && rb.a1@.len() == m && rb.b1@.len() == m,
            Err(e) => parse_states(tokens(cs@), pos as int, m as int, m as int, (Seq::empty(), Seq::empty(), Seq::empty(), Seq::empty()))
                == Err::<(StatesModel, int), OutputError>(e),
        },
{
    let ghost t = tokens(cs@);
    let mut a0: Vec<char> = Vec::new();
    let mut b0: Vec<usize> = Vec::new();
    let mut a1: Vec<char> = Vec::new();
    let mut b1: Vec<usize> = Vec::new();
    let mut p = pos;
    let mut k: usize = 0;
    while k < m
        invariant
            t == tokens(cs@),
            ranges_match(cs@, ranges@),
            k <= m,
            p <= ranges@.len(),
            a0@.len() == k && b0@.len() == k && a1@.len() == k && b1@.len() == k,
            parse_states(t, pos as int, m as int, m as int, (Seq::empty(), Seq::empty(), Seq::empty(), Seq::empty()))
                == parse_states(t, p as int, m as int, (m - k) as int, (a0@, b0@, a1@, b1@)),
        decreases m - k,
    {
        if p >= ranges.len() {
            return Err(OutputError::MissingA0);
        }
        let c0 = cs[ranges[p].0];
        proof {
            assert(t[p as int][0] == c0);
        }
        if !(c0 == 'R' || c0 == 'L' || c0 == 'F') {
            return Err(OutputError::InvalidA0(c0));
        }
        if p + 1 >= ranges.len() {
            return Err(OutputError::MissingB0);
        }
        let x0 = match parse_usize(cs, ranges[p + 1].0, ranges[p + 1].1) {
            Some(v) => v,
            None => {
                return Err(OutputError::ParseB0);
            },
        };
        if x0 >= m {
            return Err(OutputError::B0OutOfRange(x0));
        }
        if p + 2 >= ranges.len() {
            return Err(OutputError::MissingA1);
        }
        let c1 = cs[ranges[p + 2].0];
        proof {
            assert(t[p + 2][0] == c1);
        }
        if !(c1 == 'R' || c1 == 'L') {
            return Err(OutputError::InvalidA1(c1));
        }
        if p + 3 >= ranges.len() {
            return Err(OutputError::MissingB1);
        }
        let x1 = match parse_usize(cs, ranges[p + 3].0, ranges[p + 3].1) {
            Some(v) => v,
            None => {
                return Err(OutputError::ParseB1);
            },
        };
        if x1 >= m {
            return Err(OutputError::B1OutOfRange(x1));
        }
        a0.push(c0);
        b0.push(x0);
        a1.push(c1);
        b1.push(x1);
        p = p + 4;
        k += 1;
    }
    Ok((Robot { m, i: 0, j: 0, d: 0, a0, b0, a1, b1 }, p))
}

/// Reads one robot.
fn read_robot(cs: &Vec<char>, ranges: &Vec<(usize, usize)>, pos: usize, n: usize) -> (r: Result<(Robot, usize), OutputError>)
    requires
        ranges_match(cs@, ranges@),
        pos <= ranges@.len(),
        4 * n * n <= usize::MAX,
    ensures
        match r {
            Ok((rb, p)) => parse_robot(tokens(cs@), pos as int, n as int) == Ok::<(RobotModel, int), OutputError>((robot_view(rb), p as int))
                && p <= ranges@.len() && rb.a0@.len() == rb.m && rb.b0@.len() == rb.m && rb.a1@.len() == rb.m && rb.b1@.len() == rb.m,
            Err(e) => parse_robot(tokens(cs@), pos as int, n as int) == Err::<(RobotModel, int), OutputError>(e),
        },
{
    let ghost t = tokens(cs@);
    if pos >= ranges.len() {
        return Err(OutputError::MissingM);
    }
    let m = match parse_usize(cs, ranges[pos].0, ranges[pos].1) {
        Some(v) => v,
        None => {
            return Err(OutputError::ParseM);
        },
    };
    assert(4 * n * n == 4 * (n * n) && 4 * n <= 4 * (n * n)) by (nonlinear_arith);
    if m < 1 || m > 4 * n * n {
        return Err(OutputError::MOutOfRange(m));
    }
    if pos + 1 >= ranges.len() {
        return Err(OutputError::MissingI);
    }
    let i = match parse_usize(cs, ranges[pos + 1].0, ranges[pos + 1].1) {
        Some(v) => v,
        None => {
            return Err(OutputError::ParseI);
        },
    };
    if pos + 2 >= ranges.len() {
        return Err(OutputError::MissingJ);
    }
    let j = match parse_usize(cs, ranges[pos + 2].0, ranges[pos + 2].1) {
        Some(v) => v,
        None => {
            return Err(OutputError::ParseJ);
        },
    };
    if pos + 3 >= ranges.len() {
        return Err(OutputError::MissingD);
    }
    let dc = cs[ranges[pos + 3].0];
    proof {
        assert(t[pos + 3][0] == dc);
    }
    let d: usize = if dc == 'U' {
        0
    } else if dc == 'R' {
        1
    } else if dc == 'D' {
        2
    } else if dc == 'L' {
        3
    } else {
        return Err(OutputError::InvalidDirection(dc));
    };
    match read_states(cs, ranges, pos + 4, m) {
        Err(e) => Err(e),
        Ok((rb, p)) => Ok((Robot { m, i, j, d, a0: rb.a0, b0: rb.b0, a1: rb.a1, b1: rb.b1 }, p)),
    }
}

/// A well-formed robot for an `n` x `n` grid: `m >= 1` states, rows of length
/// `m`, actions R/L/F without a wall and R/L with one, next states below `m`.
pub open spec fn robot_wf(r: RobotModel) -> bool {
    &&& r.0 >= 1
    &&& 0 <= r.3 < 4
    &&& r.4.len() == r.0 && r.5.len() == r.0 && r.6.len() == r.0 && r.7.len() == r.0
    &&& forall|s: int| 0 <= s < r.0 ==> (#[trigger] r.4[s] == 'R' || r.4[s] == 'L' || r.4[s] == 'F')
    &&& forall|s: int| 0 <= s < r.0 ==> (#[trigger] r.6[s] == 'R' || r.6[s] == 'L')
    &&& forall|s: int| 0 <= s < r.0 ==> (#[trigger] r.5[s]) < r.0
    &&& forall|s: int| 0 <= s < r.0 ==> (#[trigger] r.7[s]) < r.0
}

/// Rows read by `parse_states` are well formed.
pub proof fn lemma_parse_states_wf(t: Seq<Seq<char>>, pos: int, m: int, left: int, acc: StatesModel)
    requires
        left >= 0,
        acc.0.len() == acc.1.len() && acc.1.len() == acc.2.len() && acc.2.len() == acc.3.len(),
        forall|s: int| 0 <= s < acc.0.len() ==> (#[trigger] acc.0[s] == 'R' || acc.0[s] == 'L' || acc.0[s] == 'F'),
        forall|s: int| 0 <= s < acc.0.len() ==> (#[trigger] acc.2[s] == 'R' || acc.2[s] == 'L'),
        forall|s: int| 0 <= s < acc.0.len() ==> (#[trigger] acc.1[s]) < m,
        forall|s: int| 0 <= s < acc.0.len() ==> (#[trigger] acc.3[s]) < m,
    ensures
        parse_states(t, pos, m, left, acc) matches Ok((st, p)) ==> {
            &&& st.0.len() == acc.0.len() + left
            &&& st.0.len() == st.1.len() && st.1.len() == st.2.len() && st.2.len() == st.3.len()
            &&& forall|s: int| 0 <= s < st.0.len() ==> (#[trigger] st.0[s] == 'R' || st.0[s] == 'L' || st.0[s] == 'F')
            &&& forall|s: int| 0 <= s < st.0.len() ==> (#[trigger] st.2[s] == 'R' || st.2[s] == 'L')
            &&& forall|s: int| 0 <= s < st.0.len() ==> (#[trigger] st.1[s]) < m
            &&& forall|s: int| 0 <= s < st.0.len() ==> (#[trigger] st.3[s]) < m
        },
    decreases left,
{
    if left > 0 && pos + 3 < t.len() {
        let b0 = parse_usize_spec(t[pos + 1]);
        let b1 = parse_usize_spec(t[pos + 3]);
        if b0 is Some && b1 is Some {
            let nacc = (
                acc.0.push(t[pos][0]),
                acc.1.push(b0.unwrap()),
                acc.2.push(t[pos + 2][0]),
                acc.3.push(b1.unwrap()),
            );
            if (t[pos][0] == 'R' || t[pos][0] == 'L' || t[pos][0] == 'F') && (t[pos + 2][0] == 'R' || t[pos + 2][0]
                == 'L') && b0.unwrap() < m && b1.unwrap() < m {
                assert forall|s: int| 0 <= s < nacc.0.len() implies (#[trigger] nacc.0[s] == 'R' || nacc.0[s] == 'L'
                    || nacc.0[s] == 'F') by {
                    if s < acc.0.len() {
                        assert(nacc.0[s] == acc.0[s]);
                    }
                }
                assert forall|s: int| 0 <= s < nacc.0.len() implies (#[trigger] nacc.2[s] == 'R' || nacc.2[s] == 'L') by {
                    if s < acc.0.len() {
                        assert(nacc.2[s] == acc.2[s]);
                    }
                }
                assert forall|s: int| 0 <= s < nacc.0.len() implies (#[trigger] nacc.1[s]) < m by {
                    if s < acc.0.len() {
                        assert(nacc.1[s] == acc.1[s]);
                    }
                }
                assert forall|s: int| 0 <= s < nacc.0.len() implies (#[trigger] nacc.3[s]) < m by {
                    if s < acc.0.len() {
                        assert(nacc.3[s] == acc.3[s]);
                    }
                }
                lemma_parse_states_wf(t, pos + 4, m, left - 1, nacc);
            }
        }
    }
}

/// A well-formed plan for an `n` x `n` grid: well-formed robots, `n` lines
/// of `n - 1` bytes of added vertical walls and `n - 1` lines of `n` bytes of
/// added horizontal walls.
pub open spec fn plan_wf(n: int, o: OutputData) -> bool {
    &&& forall|q: int| 0 <= q < o.robots@.len() ==> robot_wf(#[trigger] robot_view(o.robots@[q]))
    &&& o.wall_v@.len() == n
    &&& o.wall_h@.len() == n - 1
    &&& forall|i: int| 0 <= i < n ==> byte_len((#[trigger] o.wall_v@[i])@) == n - 1
    &&& forall|i: int| 0 <= i < n - 1 ==> byte_len((#[trigger] o.wall_h@[i])@) == n
}

/// Reads a patrol plan for an instance: the number of robots `K` (1 to
/// n * n), for each robot `m i j d` (1 <= m <= 4 * n * n, d one of U, R, D, L)
/// and its `m` automaton rows, then `n` lines of added vertical walls and
/// `n - 1` lines of added horizontal walls. The first missing or malformed
/// item is reported.
pub fn parse_output_data(input: &InputData, f: &str) -> (r: Result<OutputData, OutputError>)
    requires
        input_wf(*input),
        4 * input.n * input.n <= usize::MAX,
        byte_len(f@) <= usize::MAX,
    ensures
        match r {
            Ok(o) => parse_output_spec(input.n as int, tokens(f@)) == Ok::<_, OutputError>(output_view(o))
                && plan_wf(input.n as int, o),
            Err(e) => parse_output_spec(input.n as int, tokens(f@)) == Err::<(Seq<RobotModel>, Seq<Seq<char>>, Seq<Seq<char>>), OutputError>(e),
        },
{
    let n = input.n;
    let cs = chars_of(f);
    let ranges = token_ranges(&cs);
    let ghost t = tokens(cs@);
    proof {
        assert forall|i: int| 0 <= i < ranges@.len() implies (#[trigger] ranges@[i]).0 < ranges@[i].1 <= cs@.len()
            && cs@.subrange(ranges@[i].0 as int, ranges@[i].1 as int) == t[i] by {
            assert(ranges@[i].0 as int == token_ranges_from(cs@, 0)[i].0);
        }
        assert(4 * n * n == 4 * (n * n)) by (nonlinear_arith);
    }
    if ranges.len() < 1 {
        return Err(OutputError::MissingK);
    }
    let k = match parse_usize(&cs, ranges[0].0, ranges[0].1) {
        Some(v) => v,
        None => {
            return Err(OutputError::ParseK);
        },
    };
    if k < 1 || k > n * n {
        return Err(OutputError::KOutOfRange(k));
    }
    let mut robots: Vec<Robot> = Vec::new();
    let mut p: usize = 1;
    let mut c: usize = 0;
    proof {
        assert(robots@.map_values(|r: Robot| robot_view(r)) =~= Seq::<RobotModel>::empty());
    }
    while c < k
        invariant
            t == tokens(cs@),
            ranges_match(cs@, ranges@),
            4 * n * n <= usize::MAX,
            n == input.n,
            cs@ == f@,
            t.len() >= 1,
            parse_usize_spec(t[0]) == Some(k),
            1 <= k <= n * n,
            c <= k,
            p <= ranges@.len(),
            robots@.len() == c,
            parse_robots(t, 1, n as int, k as int, Seq::empty()) == parse_robots(
                t,
                p as int,
                n as int,
                (k - c) as int,
                robots@.map_values(|r: Robot| robot_view(r)),
            ),
            forall|q: int| 0 <= q < c ==> robot_wf(#[trigger] robot_view(robots@[q])),
        decreases k - c,
    {
        let ghost before = robots@.map_values(|r: Robot| robot_view(r));
        match read_robot(&cs, &ranges, p, n) {
            Err(e) => {
                proof {
                    assert(parse_robots(t, p as int, n as int, (k - c) as int, before) == Err::<(Seq<RobotModel>, int), OutputError>(e));
                    assert(parse_robots(t, 1, n as int, k as int, Seq::empty()) == Err::<(Seq<RobotModel>, int), OutputError>(e));
                    assert(parse_output_spec(n as int, t) == Err::<(Seq<RobotModel>, Seq<Seq<char>>, Seq<Seq<char>>), OutputError>(e));
                }
                return Err(e);
            },
            Ok((rb, np)) => {
                proof {
                    let st0: StatesModel = (Seq::empty(), Seq::empty(), Seq::empty(), Seq::empty());
                    lemma_parse_states_wf(t, p + 4, rb.m as int, rb.m as int, st0);
                }
                robots.push(rb);
                proof {
                    assert(robots@.map_values(|r: Robot| robot_view(r)) =~= before.push(robot_view(rb)));
                }
                p = np;
            },
        }
        c += 1;
    }
    let wall_v = match read_rows(&cs, &ranges, p, n, n - 1) {
        Ok(rows) => rows,
        Err((q, missing)) => {
            if missing {
                return Err(OutputError::MissingWallV);
            } else {
                let len = byte_len_of(&cs, ranges[q].0, ranges[q].1);
                return Err(OutputError::WallVLength(len));
            }
        },
    };
    let wall_h = match read_rows(&cs, &ranges, p + n, n - 1, n) {
        Ok(rows) => rows,
        Err((q, missing)) => {
            if missing {
                return Err(OutputError::MissingWallH);
            } else {
                let len = byte_len_of(&cs, ranges[q].0, ranges[q].1);
                return Err(OutputError::WallHLength(len));
            }
        },
    };
    let o = OutputData { robots, wall_v, wall_h };
    proof {
        lemma_rows_ok(t, p as int, n as int, n - 1);
        lemma_rows_ok(t, p + n, n - 1, n as int);
        assert(rows_view(o.wall_v@) =~= t.subrange(p as int, p + n));
        assert(rows_view(o.wall_h@) =~= t.subrange(p + n, p + n + n - 1));
        assert forall|i: int| 0 <= i < n implies byte_len((#[trigger] o.wall_v@[i])@) == n - 1 by {
            assert(rows_view(o.wall_v@)[i] == o.wall_v@[i]@);
            assert(rows_view(o.wall_v@)[i] == t[p + i]);
        }
        assert forall|i: int| 0 <= i < n - 1 implies byte_len((#[trigger] o.wall_h@[i])@) == n by {
            assert(rows_view(o.wall_h@)[i] == o.wall_h@[i]@);
            assert(rows_view(o.wall_h@)[i] == t[p + n + i]);
        }
    }
    Ok(o)
}

/// The text the judge reports for an error in a plan.
pub open spec fn output_error_text(e: OutputError) -> Seq<char> {
    match e {
        OutputError::MissingK => "Missing K"@,
        OutputError::ParseK => "Parse error K"@,
        OutputError::MissingM => "Missing m"@,
        OutputError::ParseM => "Parse error m"@,
        OutputError::MissingI => "Missing i"@,
        OutputError::ParseI => "Parse error i"@,
        OutputError::MissingJ => "Missing j"@,
        OutputError::ParseJ => "Parse error j"@,
        OutputError::MissingD => "Missing d"@,
        OutputError::MissingA0 => "Missing a0"@,
        OutputError::MissingB0 => "Missing b0"@,
        OutputError::ParseB0 => "Parse error b0"@,
        OutputError::MissingA1 => "Missing a1"@,
        OutputError::MissingB1 => "Missing b1"@,
        OutputError::ParseB1 => "Parse error b1"@,
        OutputError::MissingWallV => "Missing output wall_v line"@,
        OutputError::MissingWallH => "Missing output wall_h line"@,
        OutputError::KOutOfRange(x) => "K out of range: "@ + dec_nat(x as nat),
        OutputError::MOutOfRange(x) => "m out of range: "@ + dec_nat(x as nat),
        OutputError::B0OutOfRange(x) => "b0 out of range: "@ + dec_nat(x as nat),
        OutputError::B1OutOfRange(x) => "b1 out of range: "@ + dec_nat(x as nat),
        OutputError::WallVLength(x) => "Invalid output wall_v length: "@ + dec_nat(x as nat),
        OutputError::WallHLength(x) => "Invalid output wall_h length: "@ + dec_nat(x as nat),
        OutputError::InvalidDirection(c) => "Invalid direction: "@ + seq![c],
        OutputError::InvalidA0(c) => "Invalid action a0: "@ + seq![c],
        OutputError::InvalidA1(c) => "Invalid action a1: "@ + seq![c],
    }
}

impl OutputError {
    /// The text the judge reports for this error.
    pub fn message(&self) -> (s: String)
        ensures
            s@ == output_error_text(*self),
    {
        let mut out: Vec<char> = Vec::new();
        match self {
            OutputError::MissingK => push_str(&mut out, "Missing K"),
            OutputError::ParseK => push_str(&mut out, "Parse error K"),
            OutputError::MissingM => push_str(&mut out, "Missing m"),
            OutputError::ParseM => push_str(&mut out, "Parse error m"),
            OutputError::MissingI => push_str(&mut out, "Missing i"),
            OutputError::ParseI => push_str(&mut out, "Parse error i"),
            OutputError::MissingJ => push_str(&mut out, "Missing j"),
            OutputError::ParseJ => push_str(&mut out, "Parse error j"),
            OutputError::MissingD => push_str(&mut out, "Missing d"),
            OutputError::MissingA0 => push_str(&mut out, "Missing a0"),
            OutputError::MissingB0 => push_str(&mut out, "Missing b0"),
            OutputError::ParseB0 => push_str(&mut out, "Parse error b0"),
            OutputError::MissingA1 => push_str(&mut out, "Missing a1"),
            OutputError::MissingB1 => push_str(&mut out, "Missing b1"),
            OutputError::ParseB1 => push_str(&mut out, "Parse error b1"),
            OutputError::MissingWallV => push_str(&mut out, "Missing output wall_v line"),
            OutputError::MissingWallH => push_str(&mut out, "Missing output wall_h line"),
            OutputError::KOutOfRange(x) => {
                push_str(&mut out, "K out of range: ");
                push_usize(&mut out, *x);
            },
            OutputError::MOutOfRange(x) => {
                push_str(&mut out, "m out of range: ");
                push_usize(&mut out, *x);
            },
            OutputError::B0OutOfRange(x) => {
                push_str(&mut out, "b0 out of range: ");
                push_usize(&mut out, *x);
            },
            OutputError::B1OutOfRange(x) => {
                push_str(&mut out, "b1 out of range: ");
                push_usize(&mut out, *x);
            },
            OutputError::WallVLength(x) => {
                push_str(&mut out, "Invalid output wall_v length: ");
                push_usize(&mut out, *x);
            },
            OutputError::WallHLength(x) => {
                push_str(&mut out, "Invalid output wall_h length: ");
                push_usize(&mut out, *x);
            },
            OutputError::InvalidDirection(c) => {
                push_str(&mut out, "Invalid direction: ");
                out.push(*c);
            },
            OutputError::InvalidA0(c) => {
                push_str(&mut out, "Invalid action a0: ");
                out.push(*c);
            },
            OutputError::InvalidA1(c) => {
                push_str(&mut out, "Invalid action a1: ");
                out.push(*c);
            },
        }
        proof {
            assert(out@ =~= output_error_text(*self));
        }
        string_of_chars(&out)
    }
}

} // verus!

