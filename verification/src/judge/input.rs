//! Reading a problem instance: grid size, cost weights and wall lines.

use vstd::prelude::*;
use crate::text::{
    tokens, token_ranges, token_ranges_from, parse_usize, parse_i64, parse_usize_spec, parse_i64_spec, chars_of, dec_nat,
    push_usize, push_str, string_of_chars,
};

verus! {

/// Number of UTF-8 bytes of a character.
pub open spec fn utf8_len(c: char) -> int {
    let v = c as u32;
    if v < 0x80 {
        1
    } else if v < 0x800 {
        2
    } else if v < 0x10000 {
        3
    } else {
        4
    }
}

/// Number of UTF-8 bytes of a text (what `str::len` gives).
pub open spec fn byte_len(t: Seq<char>) -> int
    decreases t.len(),
{
    if t.len() == 0 {
        0
    } else {
        byte_len(t.drop_last()) + utf8_len(t.last())
    }
}

/// Byte lengths only grow with the text.
pub proof fn lemma_byte_len_prefix(t: Seq<char>, k: int)
    requires
        0 <= k <= t.len(),
    ensures
        k <= byte_len(t.take(k)) <= byte_len(t),
    decreases t.len() - k,
{
    if k == t.len() {
        assert(t.take(k) =~= t);
        lemma_byte_len_lower(t);
    } else {
        lemma_byte_len_prefix(t, k + 1);
        assert(t.take(k + 1).drop_last() =~= t.take(k));
        lemma_byte_len_lower(t.take(k));
    }
}

/// A text has at least as many bytes as characters.
pub proof fn lemma_byte_len_lower(t: Seq<char>)
    ensures
        t.len() <= byte_len(t),
    decreases t.len(),
{
    if t.len() > 0 {
        lemma_byte_len_lower(t.drop_last());
    }
}

/// Bytes of a subrange are bounded by those of the text.
pub proof fn lemma_byte_len_subrange(t: Seq<char>, a: int, b: int)
    requires
        0 <= a <= b <= t.len(),
    ensures
        byte_len(t.subrange(a, b)) <= byte_len(t),
    decreases t.len() - b + a,
{
    if b < t.len() {
        lemma_byte_len_subrange(t.drop_last(), a, b);
        assert(t.drop_last().subrange(a, b) =~= t.subrange(a, b));
    } else if a > 0 {
        let u = t.drop_first();
        lemma_byte_len_subrange(u, a - 1, b - 1);
        assert(u.subrange(a - 1, b - 1) =~= t.subrange(a, b));
        lemma_byte_len_drop_first(t);
    } else {
        assert(t.subrange(a, b) =~= t);
    }
}

/// Dropping the first character removes its bytes.
pub proof fn lemma_byte_len_drop_first(t: Seq<char>)
    requires
        t.len() > 0,
    ensures
        byte_len(t) == utf8_len(t[0]) + byte_len(t.drop_first()),
    decreases t.len(),
{
    if t.len() > 1 {
        lemma_byte_len_drop_first(t.drop_last());
        assert(t.drop_last().drop_first() =~= t.drop_first().drop_last());
    } else {
        assert(t.drop_first() =~= Seq::<char>::empty());
        assert(t.drop_last() =~= Seq::<char>::empty());
    }
}

/// Number of UTF-8 bytes of `cs[a..b]`.
pub fn byte_len_of(cs: &Vec<char>, a: usize, b: usize) -> (r: usize)
    requires
        a <= b <= cs.len(),
        byte_len(cs@) <= usize::MAX,
    ensures
        r == byte_len(cs@.subrange(a as int, b as int)),
{
    let ghost t = cs@.subrange(a as int, b as int);
    proof {
        lemma_byte_len_subrange(cs@, a as int, b as int);
    }
    let mut r: usize = 0;
    let mut i = a;
    while i < b
        invariant
            a <= i <= b <= cs.len(),
            t == cs@.subrange(a as int, b as int),
            byte_len(t) <= usize::MAX,
            r == byte_len(t.take(i - a)),
        decreases b - i,
    {
        proof {
            assert(t.take(i + 1 - a).drop_last() =~= t.take(i - a));
            lemma_byte_len_prefix(t, i + 1 - a);
        }
        let v = cs[i] as u32;
        if v < 0x80 {
            r = r + 1;
        } else if v < 0x800 {
            r = r + 2;
        } else if v < 0x10000 {
            r = r + 3;
        } else {
            r = r + 4;
        }
        i += 1;
    }
    proof {
        assert(t.take(b - a) =~= t);
    }
    r
}

/// Why an instance could not be read.
#[derive(Debug, PartialEq, Eq)]
pub enum InputError {
    MissingN,
    ParseN,
    MissingAk,
    ParseAk,
    MissingAm,
    ParseAm,
    MissingAw,
    ParseAw,
    MissingWallV,
    /// (found length, expected length)
    WallVLength(usize, usize),
    MissingWallH,
    /// (found length, expected length)
    WallHLength(usize, usize),
}

/// A problem instance: grid size, cost weights and the wall lines
/// (`wall_v[i][j]` between (i, j) and (i, j + 1), `wall_h[i][j]` between (i, j)
/// and (i + 1, j); `'1'` is a wall).
pub struct InputData {
    pub n: usize,
    pub ak: i64,
    pub am: i64,
    pub aw: i64,
    pub wall_v: Vec<Vec<char>>,
    pub wall_h: Vec<Vec<char>>,
}

/// The lines of a grid of characters.
pub open spec fn rows_view(rows: Seq<Vec<char>>) -> Seq<Seq<char>> {
    rows.map_values(|r: Vec<char>| r@)
}

/// The first of `count` row tokens starting at token `pos` that is missing
/// (`Some((index, true))`) or does not have `width` bytes (`Some((index, false))`).
pub open spec fn first_bad_row(toks: Seq<Seq<char>>, pos: int, count: int, width: int) -> Option<(int, bool)>
    decreases count,
{
    if count <= 0 {
        None
    } else if pos >= toks.len() {
        Some((pos, true))
    } else if byte_len(toks[pos]) != width {
        Some((pos, false))
    } else {
        first_bad_row(toks, pos + 1, count - 1, width)
    }
}

/// The number of wall lines of each kind that are read for a grid of size `n`
/// (for `n = 0` the count `n - 1` of horizontal lines wraps around, as in a
/// release build).
pub open spec fn hcount(n: int) -> int {
    if n == 0 {
        usize::MAX as int
    } else {
        n - 1
    }
}

/// What reading an instance gives, from its tokens: `N`, `AK`, `AM`, `AW`, then
/// `N` vertical wall lines of `N - 1` bytes and `N - 1` horizontal wall lines
/// of `N` bytes; the first missing or malformed item is reported.
pub open spec fn parse_input_spec(toks: Seq<Seq<char>>) -> Result<(int, i64, i64, i64, Seq<Seq<char>>, Seq<Seq<char>>), InputError> {
    if toks.len() < 1 {
        Err(InputError::MissingN)
    } else if parse_usize_spec(toks[0]) is None {
        Err(InputError::ParseN)
    } else if toks.len() < 2 {
        Err(InputError::MissingAk)
    } else if parse_i64_spec(toks[1]) is None {
        Err(InputError::ParseAk)
    } else if toks.len() < 3 {
        Err(InputError::MissingAm)
    } else if parse_i64_spec(toks[2]) is None {
        Err(InputError::ParseAm)
    } else if toks.len() < 4 {
        Err(InputError::MissingAw)
    } else if parse_i64_spec(toks[3]) is None {
        Err(InputError::ParseAw)
    } else {
        let n = parse_usize_spec(toks[0]).unwrap() as int;
        match first_bad_row(toks, 4, n, n - 1) {
            Some((p, true)) => Err(InputError::MissingWallV),
            Some((p, false)) => Err(InputError::WallVLength(byte_len(toks[p]) as usize, (n - 1) as usize)),
            None => match first_bad_row(toks, 4 + n, hcount(n), n) {
                Some((p, true)) => Err(InputError::MissingWallH),
                Some((p, false)) => Err(InputError::WallHLength(byte_len(toks[p]) as usize, n as usize)),
                None => Ok(
                    (
                        n,
                        parse_i64_spec(toks[1]).unwrap(),
                        parse_i64_spec(toks[2]).unwrap(),
                        parse_i64_spec(toks[3]).unwrap(),
                        toks.subrange(4, 4 + n),
                        toks.subrange(4 + n, 4 + n + n - 1),
                    ),
                ),
            },
        }
    }
}

/// The model of a read instance.
pub open spec fn input_view(d: InputData) -> (int, i64, i64, i64, Seq<Seq<char>>, Seq<Seq<char>>) {
    (d.n as int, d.ak, d.am, d.aw, rows_view(d.wall_v@), rows_view(d.wall_h@))
}

/// A well-formed instance: `n >= 1`, `n` vertical lines of `n - 1` bytes
/// and `n - 1` horizontal lines of `n` bytes.
pub open spec fn input_wf(d: InputData) -> bool {
    &&& d.n >= 1
    &&& d.wall_v@.len() == d.n
    &&& d.wall_h@.len() == d.n - 1
    &&& forall|i: int| 0 <= i < d.n ==> byte_len((#[trigger] d.wall_v@[i])@) == d.n - 1
    &&& forall|i: int| 0 <= i < d.n - 1 ==> byte_len((#[trigger] d.wall_h@[i])@) == d.n
}

/// Rows that pass the check have the expected width.
pub proof fn lemma_rows_ok(toks: Seq<Seq<char>>, pos: int, count: int, width: int)
    requires
        first_bad_row(toks, pos, count, width) is None,
        0 <= pos,
    ensures
        count > 0 ==> pos + count <= toks.len(),
        forall|x: int| pos <= x < pos + count ==> byte_len(#[trigger] toks[x]) == width,
    decreases count,
{
    if count > 0 {
        assert(pos < toks.len() && byte_len(toks[pos]) == width);
        lemma_rows_ok(toks, pos + 1, count - 1, width);
    }
}

/// A line of `'0'` and `'1'` characters has one byte per character.
pub proof fn lemma_binary_bytes(t: Seq<char>)
    requires
        forall|c: int| 0 <= c < t.len() ==> (#[trigger] t[c] == '0' || t[c] == '1'),
    ensures
        byte_len(t) == t.len(),
    decreases t.len(),
{
    if t.len() > 0 {
        let d = t.drop_last();
        assert forall|c: int| 0 <= c < d.len() implies (#[trigger] d[c] == '0' || d[c] == '1') by {
            assert(d[c] == t[c]);
        }
        lemma_binary_bytes(d);
        assert(t.last() == t[t.len() - 1]);
    }
}

/// Rows of the right width that are all present pass the check.
pub proof fn lemma_rows_pass(toks: Seq<Seq<char>>, pos: int, count: int, width: int)
    requires
        0 <= pos,
        0 <= count,
        pos + count <= toks.len(),
        forall|x: int| pos <= x < pos + count ==> byte_len(#[trigger] toks[x]) == width,
    ensures
        first_bad_row(toks, pos, count, width) is None,
    decreases count,
{
    if count > 0 {
        lemma_rows_pass(toks, pos + 1, count - 1, width);
    }
}

/// The characters of the tokens `ranges[pos..pos + count]`, checking that each
/// has `width` bytes; the first missing or malformed token is reported.
pub fn read_rows(
    cs: &Vec<char>,
    ranges: &Vec<(usize, usize)>,
    pos: usize,
    count: usize,
    width: usize,
) -> (r: Result<Vec<Vec<char>>, (usize, bool)>)
    requires
        byte_len(cs@) <= usize::MAX,
        ranges@.len() == tokens(cs@).len(),
        forall|i: int|
            0 <= i < ranges@.len() ==> (#[trigger] ranges@[i]).0 < ranges@[i].1 <= cs@.len() && cs@.subrange(
                ranges@[i].0 as int,
                ranges@[i].1 as int,
            ) == tokens(cs@)[i],
    ensures
        match r {
            Ok(rows) => first_bad_row(tokens(cs@), pos as int, count as int, width as int) is None
                && (count == 0 || pos + count <= tokens(cs@).len())
                && rows_view(rows@) == Seq::new(count as nat, |i: int| tokens(cs@)[pos + i]),
            Err((p, missing)) => first_bad_row(tokens(cs@), pos as int, count as int, width as int) == Some(
                (p as int, missing),
            ) && (!missing ==> p < ranges@.len()),
        },
{
    let ghost toks = tokens(cs@);
    let mut rows: Vec<Vec<char>> = Vec::new();
    let mut r: usize = 0;
    while r < count
        invariant
            r <= count,
            toks == tokens(cs@),
            byte_len(cs@) <= usize::MAX,
            ranges@.len() == toks.len(),
            forall|i: int|
                0 <= i < ranges@.len() ==> (#[trigger] ranges@[i]).0 < ranges@[i].1 <= cs@.len() && cs@.subrange(
                    ranges@[i].0 as int,
                    ranges@[i].1 as int,
                ) == toks[i],
            first_bad_row(toks, pos as int, count as int, width as int) == first_bad_row(
                toks,
                pos + r,
                count - r,
                width as int,
            ),
            pos + r <= toks.len() || r == 0,
            rows@.len() == r,
            forall|i: int| 0 <= i < r ==> (#[trigger] rows@[i])@ == toks[pos + i],
        decreases count - r,
    {
        if pos >= ranges.len() || r >= ranges.len() - pos {
            return Err((pos + r, true));
        }
        let (a, b) = ranges[pos + r];
        let len = byte_len_of(cs, a, b);
        if len != width {
            return Err((pos + r, false));
        }
        let mut row: Vec<char> = Vec::new();
        let mut x = a;
        while x < b
            invariant
                a <= x <= b <= cs.len(),
                row@ == cs@.subrange(a as int, x as int),
            decreases b - x,
        {
            row.push(cs[x]);
            proof {
                assert(cs@.subrange(a as int, x + 1) =~= cs@.subrange(a as int, x as int).push(cs@[x as int]));
            }
            x += 1;
        }
        rows.push(row);
        r += 1;
    }
    proof {
        assert(rows_view(rows@) =~= Seq::new(count as nat, |i: int| toks[pos + i]));
    }
    Ok(rows)
}

/// Reads a problem instance from its text: `N AK AM AW`, `N` lines of vertical
/// walls (`N - 1` bytes each) and `N - 1` lines of horizontal walls (`N` bytes
/// each), all separated by white space. The first missing or malformed item
/// is reported.
pub fn parse_input_data(f: &str) -> (r: Result<InputData, InputError>)
    requires
        byte_len(f@) <= usize::MAX,
    ensures
        match r {
            Ok(d) => parse_input_spec(tokens(f@)) == Ok::<_, InputError>(input_view(d)) && input_wf(d),
            Err(e) => parse_input_spec(tokens(f@)) == Err::<(int, i64, i64, i64, Seq<Seq<char>>, Seq<Seq<char>>), InputError>(e),
        },
{
    let cs = chars_of(f);
    let ranges = token_ranges(&cs);
    let ghost toks = tokens(cs@);
    proof {
        assert forall|i: int| 0 <= i < ranges@.len() implies (#[trigger] ranges@[i]).0 < ranges@[i].1 <= cs@.len()
            && cs@.subrange(ranges@[i].0 as int, ranges@[i].1 as int) == toks[i] by {
            assert(ranges@[i].0 as int == token_ranges_from(cs@, 0)[i].0);
        }
    }
    if ranges.len() < 1 {
        return Err(InputError::MissingN);
    }
    let n = match parse_usize(&cs, ranges[0].0, ranges[0].1) {
        Some(v) => v,
        None => {
            return Err(InputError::ParseN);
        },
    };
    if ranges.len() < 2 {
        return Err(InputError::MissingAk);
    }
    let ak = match parse_i64(&cs, ranges[1].0, ranges[1].1) {
        Some(v) => v,
        None => {
            return Err(InputError::ParseAk);
        },
    };
    if ranges.len() < 3 {
        return Err(InputError::MissingAm);
    }
    let am = match parse_i64(&cs, ranges[2].0, ranges[2].1) {
        Some(v) => v,
        None => {
            return Err(InputError::ParseAm);
        },
    };
    if ranges.len() < 4 {
        return Err(InputError::MissingAw);
    }
    let aw = match parse_i64(&cs, ranges[3].0, ranges[3].1) {
        Some(v) => v,
        None => {
            return Err(InputError::ParseAw);
        },
    };
    let vwidth = if n == 0 { usize::MAX } else { n - 1 };
    let wall_v = match read_rows(&cs, &ranges, 4, n, vwidth) {
        Ok(rows) => rows,
        Err((p, missing)) => {
            if missing {
                return Err(InputError::MissingWallV);
            } else {
                let len = byte_len_of(&cs, ranges[p].0, ranges[p].1);
                return Err(InputError::WallVLength(len, vwidth));
            }
        },
    };
    let hc = if n == 0 { usize::MAX } else { n - 1 };
    let wall_h = match read_rows(&cs, &ranges, 4 + n, hc, n) {
        Ok(rows) => rows,
        Err((p, missing)) => {
            if missing {
                return Err(InputError::MissingWallH);
            } else {
                let len = byte_len_of(&cs, ranges[p].0, ranges[p].1);
                return Err(InputError::WallHLength(len, n));
            }
        },
    };
    let d = InputData { n, ak, am, aw, wall_v, wall_h };
    proof {
        lemma_rows_ok(toks, 4, n as int, vwidth as int);
        lemma_rows_ok(toks, 4 + n, hc as int, n as int);
        assert(rows_view(d.wall_v@) =~= toks.subrange(4, 4 + n));
        assert forall|i: int| 0 <= i < n implies byte_len((#[trigger] d.wall_v@[i])@) == n - 1 by {
            assert(rows_view(d.wall_v@)[i] == d.wall_v@[i]@);
            assert(rows_view(d.wall_v@)[i] == toks[4 + i]);
            assert(byte_len(toks[4 + i]) == n - 1);
        }
        assert forall|i: int| 0 <= i < n - 1 implies byte_len((#[trigger] d.wall_h@[i])@) == n by {
            assert(rows_view(d.wall_h@).len() == hc);
            assert(d.wall_h@.len() == hc);
            assert(rows_view(d.wall_h@)[i] == d.wall_h@[i]@);
            assert(rows_view(d.wall_h@)[i] == toks[4 + n + i]);
            assert(byte_len(toks[4 + n + i]) == n);
        }
        assert(rows_view(d.wall_h@) =~= toks.subrange(4 + n, 4 + n + n - 1));
        if n == 0 {
            assert(first_bad_row(toks, 4 + n, hcount(n as int), n as int) is Some) by {
                if 4 < toks.len() {
                    crate::text::lemma_token_ranges(cs@, 0);
                    assert(token_ranges_from(cs@, 0)[4].0 < token_ranges_from(cs@, 0)[4].1);
                    lemma_byte_len_lower(toks[4]);
                }
            }
        }
    }
    Ok(d)
}

/// The text the judge reports for an error in an instance.
pub open spec fn input_error_text(e: InputError) -> Seq<char> {
    match e {
        InputError::MissingN => "Missing N"@,
        InputError::ParseN => "Parse error N"@,
        InputError::MissingAk => "Missing AK"@,
        InputError::ParseAk => "Parse error AK"@,
        InputError::MissingAm => "Missing AM"@,
        InputError::ParseAm => "Parse error AM"@,
        InputError::MissingAw => "Missing AW"@,
        InputError::ParseAw => "Parse error AW"@,
        InputError::MissingWallV => "Missing wall_v line"@,
        InputError::WallVLength(found, expected) => "Invalid wall_v length: "@ + dec_nat(found as nat) + " (expected "@
            + dec_nat(expected as nat) + ")"@,
        InputError::MissingWallH => "Missing wall_h line"@,
        InputError::WallHLength(found, expected) => "Invalid wall_h length: "@ + dec_nat(found as nat) + " (expected "@
            + dec_nat(expected as nat) + ")"@,
    }
}

impl InputError {
    /// The text the judge reports for this error.
    pub fn message(&self) -> (s: String)
        ensures
            s@ == input_error_text(*self),
    {
        let mut out: Vec<char> = Vec::new();
        match self {
            InputError::MissingN => push_str(&mut out, "Missing N"),
            InputError::ParseN => push_str(&mut out, "Parse error N"),
            InputError::MissingAk => push_str(&mut out, "Missing AK"),
            InputError::ParseAk => push_str(&mut out, "Parse error AK"),
            InputError::MissingAm => push_str(&mut out, "Missing AM"),
            InputError::ParseAm => push_str(&mut out, "Parse error AM"),
            InputError::MissingAw => push_str(&mut out, "Missing AW"),
            InputError::ParseAw => push_str(&mut out, "Parse error AW"),
            InputError::MissingWallV => push_str(&mut out, "Missing wall_v line"),
            InputError::WallVLength(found, expected) => {
                push_str(&mut out, "Invalid wall_v length: ");
                push_usize(&mut out, *found);
                push_str(&mut out, " (expected ");
                push_usize(&mut out, *expected);
                push_str(&mut out, ")");
            },
            InputError::MissingWallH => push_str(&mut out, "Missing wall_h line"),
            InputError::WallHLength(found, expected) => {
                push_str(&mut out, "Invalid wall_h length: ");
                push_usize(&mut out, *found);
                push_str(&mut out, " (expected ");
                push_usize(&mut out, *expected);
                push_str(&mut out, ")");
            },
        }
        proof {
            assert(out@ =~= input_error_text(*self));
        }
        string_of_chars(&out)
    }
}

} // verus!

