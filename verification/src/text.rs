//! Lines, trimming and whitespace-separated tokens of text, with the meaning
//! `str::lines`, `str::trim` and `str::split_whitespace` give them.

use vstd::prelude::*;

verus! {

/// Unicode `White_Space` characters (those `char::is_whitespace` accepts).
pub open spec fn is_ws(c: char) -> bool {
    let v = c as u32;
    ||| 9 <= v <= 13
    ||| v == 32
    ||| v == 0x85
    ||| v == 0xA0
    ||| v == 0x1680
    ||| 0x2000 <= v <= 0x200A
    ||| v == 0x2028
    ||| v == 0x2029
    ||| v == 0x202F
    ||| v == 0x205F
    ||| v == 0x3000
}

/// Whether `c` is a Unicode white space character.
pub fn is_whitespace(c: char) -> (r: bool)
    ensures
        r == is_ws(c),
{
    let v = c as u32;
    (9 <= v && v <= 13) || v == 32 || v == 0x85 || v == 0xA0 || v == 0x1680 || (0x2000 <= v && v <= 0x200A)
        || v == 0x2028 || v == 0x2029 || v == 0x202F || v == 0x205F || v == 0x3000
}

/// The characters of a string.
pub fn chars_of(s: &str) -> (v: Vec<char>)
    ensures
        v@ == s@,
{
    let mut v: Vec<char> = Vec::new();
    for c in it: s.chars()
        invariant
            v@ == it.seq().take(it.index() as int),
            it.seq() == s@,
    {
        v.push(c);
    }
    proof {
        assert(v@ =~= s@);
    }
    v
}

/// Position of the first line feed at or after `p` (the length when there is none).
pub open spec fn nl_after(s: Seq<char>, p: int) -> int
    decreases s.len() - p,
{
    if p >= s.len() {
        s.len() as int
    } else if s[p] == '\n' {
        p
    } else {
        nl_after(s, p + 1)
    }
}

/// Where line `k` (counted from 0) starts; past the end of the text when there
/// are fewer lines.
pub open spec fn line_start(s: Seq<char>, k: int) -> int
    decreases k,
{
    if k <= 0 {
        0
    } else {
        let prev = line_start(s, k - 1);
        if prev > s.len() {
            prev
        } else {
            nl_after(s, prev) + 1
        }
    }
}

/// Line `k` of the text, without its line feed; empty past the last line.
pub open spec fn line(s: Seq<char>, k: int) -> Seq<char> {
    let st = line_start(s, k);
    if st <= s.len() {
        s.subrange(st, nl_after(s, st))
    } else {
        Seq::empty()
    }
}

/// Leading white space removed.
pub open spec fn trim_start(l: Seq<char>) -> Seq<char>
    decreases l.len(),
{
    if l.len() > 0 && is_ws(l[0]) {
        trim_start(l.drop_first())
    } else {
        l
    }
}

/// Trailing white space removed.
pub open spec fn trim_end(l: Seq<char>) -> Seq<char>
    decreases l.len(),
{
    if l.len() > 0 && is_ws(l.last()) {
        trim_end(l.drop_last())
    } else {
        l
    }
}

/// Leading and trailing white space removed.
pub open spec fn trim(l: Seq<char>) -> Seq<char> {
    trim_end(trim_start(l))
}

/// `nl_after` stays within the text.
pub proof fn lemma_nl_after(s: Seq<char>, p: int)
    requires
        0 <= p <= s.len(),
    ensures
        p <= nl_after(s, p) <= s.len(),
        nl_after(s, p) < s.len() ==> s[nl_after(s, p)] == '\n',
        forall|i: int| p <= i < nl_after(s, p) ==> s[i] != '\n',
    decreases s.len() - p,
{
    if p < s.len() && s[p] != '\n' {
        lemma_nl_after(s, p + 1);
    }
}

/// Position of the first line feed at or after `p`.
pub fn find_line_end(cs: &Vec<char>, p: usize) -> (e: usize)
    requires
        p <= cs.len(),
    ensures
        e == nl_after(cs@, p as int),
        p <= e <= cs.len(),
{
    let mut e = p;
    while e < cs.len() && cs[e] != '\n'
        invariant
            p <= e <= cs.len(),
            nl_after(cs@, e as int) == nl_after(cs@, p as int),
        decreases cs.len() - e,
    {
        e += 1;
    }
    e
}

/// Removing white space from the front of a subrange.
pub proof fn lemma_trim_start_at(l: Seq<char>, a: int)
    requires
        0 <= a <= l.len(),
        forall|i: int| 0 <= i < a ==> is_ws(#[trigger] l[i]),
        a == l.len() || !is_ws(l[a]),
    ensures
        trim_start(l) == l.subrange(a, l.len() as int),
    decreases a,
{
    if a == 0 {
        assert(l.subrange(0, l.len() as int) =~= l);
    } else {
        let t = l.drop_first();
        assert forall|i: int| 0 <= i < a - 1 implies is_ws(#[trigger] t[i]) by {
            assert(t[i] == l[i + 1]);
        }
        lemma_trim_start_at(t, a - 1);
        assert(t.subrange(a - 1, t.len() as int) =~= l.subrange(a, l.len() as int));
    }
}

/// Removing white space from the back of a subrange.
pub proof fn lemma_trim_end_at(l: Seq<char>, b: int)
    requires
        0 <= b <= l.len(),
        forall|i: int| b <= i < l.len() ==> is_ws(#[trigger] l[i]),
        b == 0 || !is_ws(l[b - 1]),
    ensures
        trim_end(l) == l.subrange(0, b),
    decreases l.len() - b,
{
    if b == l.len() {
        assert(l.subrange(0, b) =~= l);
    } else {
        let t = l.drop_last();
        lemma_trim_end_at(t, b);
        assert(t.subrange(0, b) =~= l.subrange(0, b));
    }
}

/// The bounds of the trimmed text `cs[a..b]`.
pub fn trim_bounds(cs: &Vec<char>, a: usize, b: usize) -> (r: (usize, usize))
    requires
        a <= b <= cs.len(),
    ensures
        a <= r.0 <= r.1 <= b,
        cs@.subrange(r.0 as int, r.1 as int) == trim(cs@.subrange(a as int, b as int)),
{
    let ghost l = cs@.subrange(a as int, b as int);
    let mut x = a;
    while x < b && is_whitespace(cs[x])
        invariant
            a <= x <= b <= cs.len(),
            l == cs@.subrange(a as int, b as int),
            forall|i: int| 0 <= i < x - a ==> is_ws(#[trigger] l[i]),
        decreases b - x,
    {
        x += 1;
    }
    proof {
        lemma_trim_start_at(l, x - a);
    }
    let ghost m = cs@.subrange(x as int, b as int);
    assert(l.subrange(x - a, l.len() as int) =~= m);
    let mut y = b;
    while y > x && is_whitespace(cs[y - 1])
        invariant
            a <= x <= y <= b <= cs.len(),
            m == cs@.subrange(x as int, b as int),
            forall|i: int| y - x <= i < m.len() ==> is_ws(#[trigger] m[i]),
        decreases y,
    {
        y -= 1;
    }
    proof {
        lemma_trim_end_at(m, y - x);
        assert(m.subrange(0, y - x) =~= cs@.subrange(x as int, y as int));
    }
    (x, y)
}

/// First position at or after `p` that is not white space (the length when none).
pub open spec fn skip_ws(s: Seq<char>, p: int) -> int
    decreases s.len() - p,
{
    if p >= s.len() {
        s.len() as int
    } else if is_ws(s[p]) {
        skip_ws(s, p + 1)
    } else {
        p
    }
}

/// First position at or after `p` that is white space (the length when none).
pub open spec fn skip_word(s: Seq<char>, p: int) -> int
    decreases s.len() - p,
{
    if p >= s.len() {
        s.len() as int
    } else if is_ws(s[p]) {
        p
    } else {
        skip_word(s, p + 1)
    }
}

/// The white-space separated tokens of `s[p..]`, as (start, end) positions.
pub open spec fn token_ranges_from(s: Seq<char>, p: int) -> Seq<(int, int)>
    decreases s.len() - p,
{
    let a = skip_ws(s, p);
    if a >= s.len() || p < 0 {
        Seq::empty()
    } else {
        let b = skip_word(s, a);
        if b <= p || b > s.len() {
            Seq::empty()
        } else {
            seq![(a, b)] + token_ranges_from(s, b)
        }
    }
}

/// The white-space separated tokens of the text (what `split_whitespace` yields).
pub open spec fn tokens(s: Seq<char>) -> Seq<Seq<char>> {
    token_ranges_from(s, 0).map_values(|r: (int, int)| s.subrange(r.0, r.1))
}

/// Bounds of `skip_ws` and `skip_word`.
pub proof fn lemma_skips(s: Seq<char>, p: int)
    requires
        0 <= p <= s.len(),
    ensures
        p <= skip_ws(s, p) <= s.len(),
        skip_ws(s, p) < s.len() ==> !is_ws(s[skip_ws(s, p)]),
        forall|i: int| p <= i < skip_ws(s, p) ==> is_ws(#[trigger] s[i]),
        p <= skip_word(s, p) <= s.len(),
        skip_word(s, p) < s.len() ==> is_ws(s[skip_word(s, p)]),
        forall|i: int| p <= i < skip_word(s, p) ==> !is_ws(#[trigger] s[i]),
    decreases s.len() - p,
{
    if p < s.len() {
        lemma_skips(s, p + 1);
    }
}

/// Token ranges are well inside the text, non-empty and free of white space.
pub proof fn lemma_token_ranges(s: Seq<char>, p: int)
    requires
        0 <= p <= s.len(),
    ensures
        forall|i: int|
            0 <= i < token_ranges_from(s, p).len() ==> {
                let r = #[trigger] token_ranges_from(s, p)[i];
                &&& p <= r.0 < r.1 <= s.len()
                &&& forall|x: int| r.0 <= x < r.1 ==> !is_ws(#[trigger] s[x])
            },
    decreases s.len() - p,
{
    lemma_skips(s, p);
    let a = skip_ws(s, p);
    if a < s.len() {
        lemma_skips(s, a);
        let b = skip_word(s, a);
        if b > p {
            lemma_token_ranges(s, b);
            let rest = token_ranges_from(s, b);
            assert forall|i: int| 0 <= i < token_ranges_from(s, p).len() implies {
                let r = #[trigger] token_ranges_from(s, p)[i];
                &&& p <= r.0 < r.1 <= s.len()
                &&& forall|x: int| r.0 <= x < r.1 ==> !is_ws(#[trigger] s[x])
            } by {
                if i > 0 {
                    assert(token_ranges_from(s, p)[i] == rest[i - 1]);
                }
            }
        }
    }
}

/// A non-empty run of characters without white space.
pub open spec fn is_word(w: Seq<char>) -> bool {
    w.len() > 0 && forall|i: int| 0 <= i < w.len() ==> !is_ws(#[trigger] w[i])
}

/// Scanning past a prefix of `k` characters: positions in the rest shift by `k`.
proof fn lemma_skips_shift(pre: Seq<char>, rest: Seq<char>, p: int)
    requires
        pre.len() <= p,
    ensures
        skip_ws(pre + rest, p) == pre.len() + skip_ws(rest, p - pre.len()),
        skip_word(pre + rest, p) == pre.len() + skip_word(rest, p - pre.len()),
    decreases (pre + rest).len() - p,
{
    let s = pre + rest;
    let k = pre.len() as int;
    if p < s.len() {
        assert(s[p] == rest[p - k]);
        lemma_skips_shift(pre, rest, p + 1);
    }
}

/// Token ranges of the text after a prefix of `k` characters are those of the
/// rest, shifted by `k`.
proof fn lemma_token_ranges_shift(pre: Seq<char>, rest: Seq<char>, p: int)
    requires
        pre.len() <= p,
    ensures
        token_ranges_from(pre + rest, p) == token_ranges_from(rest, p - pre.len()).map_values(
            |r: (int, int)| (r.0 + pre.len(), r.1 + pre.len()),
        ),
    decreases (pre + rest).len() - p,
{
    let s = pre + rest;
    let k = pre.len() as int;
    lemma_skips_shift(pre, rest, p);
    let a = skip_ws(s, p);
    let lhs = token_ranges_from(s, p);
    let rr = token_ranges_from(rest, p - k);
    let rhs = rr.map_values(|r: (int, int)| (r.0 + k, r.1 + k));
    if p - k <= rest.len() {
        lemma_skips(rest, p - k);
    }
    if a < s.len() {
        lemma_skips_shift(pre, rest, a);
        let b = skip_word(s, a);
        if b > p && b <= s.len() {
            lemma_token_ranges_shift(pre, rest, b);
            assert(lhs =~= rhs);
        } else {
            assert(lhs =~= rhs);
        }
    } else {
        assert(lhs =~= rhs);
    }
}

/// A word followed by a white-space character is the first token, and the
/// tokens of what follows come after it.
pub proof fn lemma_tokens_cons(w: Seq<char>, c: char, rest: Seq<char>)
    requires
        is_word(w),
        is_ws(c),
    ensures
        tokens(w + seq![c] + rest) == seq![w] + tokens(rest),
{
    let pre = w + seq![c];
    let s = pre + rest;
    let k = pre.len() as int;
    let m = w.len() as int;
    assert(s =~= w + seq![c] + rest);
    assert forall|i: int| 0 <= i < m implies s[i] == w[i] by {}
    assert(s[m] == c);
    assert(skip_ws(s, 0) == 0);
    lemma_skip_word_run(s, 0, m);
    assert(skip_word(s, 0) == m);
    assert(skip_ws(s, m) == skip_ws(s, m + 1));
    lemma_token_ranges_shift(pre, rest, k);
    let rr = token_ranges_from(rest, 0);
    let shifted = rr.map_values(|r: (int, int)| (r.0 + k, r.1 + k));
    assert(token_ranges_from(s, m) =~= token_ranges_from(s, k)) by {
        lemma_skips(s, k);
        let a = skip_ws(s, k);
        if a < s.len() {
            lemma_skips(s, a);
        }
    }
    assert(token_ranges_from(s, 0) =~= seq![(0int, m)] + shifted);
    lemma_token_ranges(rest, 0);
    let ts = tokens(s);
    let want = seq![w] + tokens(rest);
    assert forall|i: int| 0 <= i < ts.len() implies ts[i] == want[i] by {
        if i == 0 {
            assert(s.subrange(0, m) =~= w);
        } else {
            let r = rr[i - 1];
            assert(0 <= r.0 <= r.1 <= rest.len());
            assert(s.subrange(r.0 + k, r.1 + k) =~= rest.subrange(r.0, r.1));
        }
    }
    assert(ts =~= want);
}

/// Scanning a word stops at the first white space after it.
proof fn lemma_skip_word_run(s: Seq<char>, p: int, e: int)
    requires
        0 <= p <= e < s.len(),
        forall|i: int| p <= i < e ==> !is_ws(#[trigger] s[i]),
        is_ws(s[e]),
    ensures
        skip_word(s, p) == e,
    decreases e - p,
{
    if p < e {
        lemma_skip_word_run(s, p + 1, e);
    }
}

/// An empty text has no tokens.
pub proof fn lemma_tokens_empty()
    ensures
        tokens(Seq::<char>::empty()) == Seq::<Seq<char>>::empty(),
{
    assert(tokens(Seq::<char>::empty()) =~= Seq::<Seq<char>>::empty());
}

/// The tokens of a text, as (start, end) positions in increasing order.
pub fn token_ranges(cs: &Vec<char>) -> (r: Vec<(usize, usize)>)
    ensures
        r@.len() == token_ranges_from(cs@, 0).len(),
        forall|i: int|
            0 <= i < r@.len() ==> (#[trigger] r@[i]).0 as int == token_ranges_from(cs@, 0)[i].0 && r@[i].1 as int
                == token_ranges_from(cs@, 0)[i].1,
        forall|i: int| 0 <= i < r@.len() ==> (#[trigger] r@[i]).0 < r@[i].1 <= cs@.len(),
{
    let ghost s = cs@;
    let mut out: Vec<(usize, usize)> = Vec::new();
    let mut p: usize = 0;
    proof {
        lemma_token_ranges(s, 0);
    }
    loop
        invariant
            s == cs@,
            p <= cs.len(),
            out@.len() + token_ranges_from(s, p as int).len() == token_ranges_from(s, 0).len(),
            forall|i: int|
                0 <= i < out@.len() ==> (#[trigger] out@[i]).0 as int == token_ranges_from(s, 0)[i].0 && out@[i].1 as int
                    == token_ranges_from(s, 0)[i].1,
            forall|i: int|
                0 <= i < token_ranges_from(s, p as int).len() ==> #[trigger] token_ranges_from(s, p as int)[i]
                    == token_ranges_from(s, 0)[out@.len() + i],
            forall|i: int| 0 <= i < out@.len() ==> (#[trigger] out@[i]).0 < out@[i].1 <= cs@.len(),
        decreases cs.len() - p,
    {
        proof {
            lemma_skips(s, p as int);
        }
        let mut a = p;
        while a < cs.len() && is_whitespace(cs[a])
            invariant
                s == cs@,
                p <= a <= cs.len(),
                skip_ws(s, a as int) == skip_ws(s, p as int),
            decreases cs.len() - a,
        {
            a += 1;
        }
        if a >= cs.len() {
            return out;
        }
        proof {
            lemma_skips(s, a as int);
        }
        let mut b = a;
        while b < cs.len() && !is_whitespace(cs[b])
            invariant
                s == cs@,
                a <= b <= cs.len(),
                skip_word(s, b as int) == skip_word(s, a as int),
            decreases cs.len() - b,
        {
            b += 1;
        }
        proof {
            assert(b > a);
            let rest = token_ranges_from(s, b as int);
            assert(token_ranges_from(s, p as int) == seq![(a as int, b as int)] + rest);
            assert(token_ranges_from(s, p as int)[0] == (a as int, b as int));
            assert forall|i: int| 0 <= i < rest.len() implies #[trigger] rest[i] == token_ranges_from(s, 0)[out@.len() + 1
                + i] by {
                assert(token_ranges_from(s, p as int)[i + 1] == rest[i]);
            }
        }
        out.push((a, b));
        p = b;
    }
}

/// The value of a sequence of decimal digits.
pub open spec fn digits_value(s: Seq<char>) -> int
    decreases s.len(),
{
    if s.len() == 0 {
        0
    } else {
        digits_value(s.drop_last()) * 10 + (s.last() as int - '0' as int)
    }
}

/// Every character is an ASCII digit.
pub open spec fn all_digits(s: Seq<char>) -> bool {
    forall|i: int| 0 <= i < s.len() ==> '0' <= #[trigger] s[i] <= '9'
}

/// The digits of a token after an optional leading `+`.
pub open spec fn unsigned_body(t: Seq<char>) -> Seq<char> {
    if t.len() > 0 && t[0] == '+' {
        t.drop_first()
    } else {
        t
    }
}

/// What `str::parse::<usize>` gives for a token: an optional `+` then at least
/// one digit, with a value that fits.
pub open spec fn parse_usize_spec(t: Seq<char>) -> Option<usize> {
    let b = unsigned_body(t);
    if b.len() > 0 && all_digits(b) && digits_value(b) <= usize::MAX {
        Some(digits_value(b) as usize)
    } else {
        None
    }
}

/// What `str::parse::<i64>` gives for a token: an optional sign then at least
/// one digit, with a value that fits.
pub open spec fn parse_i64_spec(t: Seq<char>) -> Option<i64> {
    if t.len() > 0 && t[0] == '-' {
        let b = t.drop_first();
        if b.len() > 0 && all_digits(b) && digits_value(b) <= 0x8000_0000_0000_0000 {
            Some((-digits_value(b)) as i64)
        } else {
            None
        }
    } else {
        let b = unsigned_body(t);
        if b.len() > 0 && all_digits(b) && digits_value(b) <= i64::MAX {
            Some(digits_value(b) as i64)
        } else {
            None
        }
    }
}

/// Values of digit prefixes only grow.
pub proof fn lemma_digits_value_mono(s: Seq<char>, k: int)
    requires
        all_digits(s),
        0 <= k <= s.len(),
    ensures
        0 <= digits_value(s.take(k)) <= digits_value(s),
    decreases s.len() - k,
{
    if k == s.len() {
        assert(s.take(k) =~= s);
        lemma_digits_value_nonneg(s);
    } else {
        lemma_digits_value_mono(s, k + 1);
        assert(s.take(k + 1).drop_last() =~= s.take(k));
        lemma_digits_value_nonneg(s.take(k));
    }
}

/// Digit values are non-negative.
pub proof fn lemma_digits_value_nonneg(s: Seq<char>)
    requires
        all_digits(s),
    ensures
        digits_value(s) >= 0,
    decreases s.len(),
{
    if s.len() > 0 {
        lemma_digits_value_nonneg(s.drop_last());
    }
}

/// Value of the digits `cs[a..b]`, or `None` when one is not a digit or the
/// value exceeds `limit`.
pub fn digits_upto(cs: &Vec<char>, a: usize, b: usize, limit: u64) -> (r: Option<u64>)
    requires
        a <= b <= cs.len(),
    ensures
        r.is_some() <==> (all_digits(cs@.subrange(a as int, b as int)) && digits_value(cs@.subrange(a as int, b as int)) <= limit),
        r.is_some() ==> r.unwrap() as int == digits_value(cs@.subrange(a as int, b as int)),
{
    let ghost d = cs@.subrange(a as int, b as int);
    let mut v: u64 = 0;
    let mut i = a;
    let mut ok = true;
    while i < b
        invariant
            a <= i <= b <= cs.len(),
            d == cs@.subrange(a as int, b as int),
            ok ==> all_digits(d.take(i - a)) && v as int == digits_value(d.take(i - a)) && v <= limit,
            !ok ==> !(all_digits(d) && digits_value(d) <= limit),
        decreases b - i,
    {
        let c = cs[i];
        if ok {
            proof {
                assert(d.take(i + 1 - a).drop_last() =~= d.take(i - a));
                assert(d[i - a] == c);
            }
            if c < '0' || c > '9' {
                ok = false;
            } else {
                let digit = (c as u32 - '0' as u32) as u64;
                if digit > limit || v > (limit - digit) / 10 {
                    ok = false;
                    proof {
                        if all_digits(d) {
                            lemma_digits_value_mono(d, i + 1 - a);
                            assert(digits_value(d.take(i + 1 - a)) == v * 10 + digit);
                            assert(v * 10 + digit > limit) by (nonlinear_arith)
                                requires digit > limit || v > (limit - digit) / 10, v >= 0;
                        }
                    }
                } else {
                    proof {
                        assert(v * 10 + digit <= limit) by (nonlinear_arith)
                            requires v <= (limit - digit) / 10, digit <= 9, limit >= digit;
                    }
                    v = v * 10 + digit;
                }
            }
        }
        i += 1;
    }
    proof {
        assert(d.take(b - a) =~= d);
    }
    if ok {
        Some(v)
    } else {
        None
    }
}

/// Parses `cs[a..b]` as `str::parse::<usize>` does.
pub fn parse_usize(cs: &Vec<char>, a: usize, b: usize) -> (r: Option<usize>)
    requires
        a <= b <= cs.len(),
    ensures
        r == parse_usize_spec(cs@.subrange(a as int, b as int)),
{
    let ghost t = cs@.subrange(a as int, b as int);
    let mut start = a;
    if a < b && cs[a] == '+' {
        start = a + 1;
    }
    proof {
        assert(unsigned_body(t) =~= cs@.subrange(start as int, b as int));
    }
    if start == b {
        return None;
    }
    match digits_upto(cs, start, b, usize::MAX as u64) {
        Some(v) => Some(v as usize),
        None => None,
    }
}

/// Parses `cs[a..b]` as `str::parse::<i64>` does.
pub fn parse_i64(cs: &Vec<char>, a: usize, b: usize) -> (r: Option<i64>)
    requires
        a <= b <= cs.len(),
    ensures
        r == parse_i64_spec(cs@.subrange(a as int, b as int)),
{
    let ghost t = cs@.subrange(a as int, b as int);
    if a < b && cs[a] == '-' {
        proof {
            assert(t.drop_first() =~= cs@.subrange(a + 1, b as int));
        }
        if a + 1 == b {
            return None;
        }
        match digits_upto(cs, a + 1, b, 0x8000_0000_0000_0000u64) {
            Some(v) => {
                if v == 0x8000_0000_0000_0000u64 {
                    Some(i64::MIN)
                } else {
                    Some(-(v as i64))
                }
            },
            None => None,
        }
    } else {
        let mut start = a;
        if a < b && cs[a] == '+' {
            start = a + 1;
        }
        proof {
            assert(unsigned_body(t) =~= cs@.subrange(start as int, b as int));
        }
        if start == b {
            return None;
        }
        match digits_upto(cs, start, b, i64::MAX as u64) {
            Some(v) => Some(v as i64),
            None => None,
        }
    }
}

/// The decimal digit `d` (0 to 9).
pub open spec fn digit_char(d: int) -> char {
    if d == 0 {
        '0'
    } else if d == 1 {
        '1'
    } else if d == 2 {
        '2'
    } else if d == 3 {
        '3'
    } else if d == 4 {
        '4'
    } else if d == 5 {
        '5'
    } else if d == 6 {
        '6'
    } else if d == 7 {
        '7'
    } else if d == 8 {
        '8'
    } else {
        '9'
    }
}

/// The decimal writing of a natural number, without leading zeros.
pub open spec fn dec_nat(x: nat) -> Seq<char>
    decreases x,
{
    if x < 10 {
        seq![digit_char(x as int)]
    } else {
        dec_nat(x / 10).push(digit_char((x % 10) as int))
    }
}

/// The decimal writing of an integer, with a `-` before negative ones.
pub open spec fn dec_int(x: int) -> Seq<char> {
    if x < 0 {
        seq!['-'] + dec_nat((-x) as nat)
    } else {
        dec_nat(x as nat)
    }
}

/// The digit character of `d`.
fn digit_of(d: u64) -> (c: char)
    requires
        d < 10,
    ensures
        c == digit_char(d as int),
{
    if d == 0 {
        '0'
    } else if d == 1 {
        '1'
    } else if d == 2 {
        '2'
    } else if d == 3 {
        '3'
    } else if d == 4 {
        '4'
    } else if d == 5 {
        '5'
    } else if d == 6 {
        '6'
    } else if d == 7 {
        '7'
    } else if d == 8 {
        '8'
    } else {
        '9'
    }
}

/// Appends the decimal writing of `x`.
pub fn push_u64(out: &mut Vec<char>, x: u64)
    ensures
        final(out)@ == old(out)@ + dec_nat(x as nat),
    decreases x,
{
    if x >= 10 {
        push_u64(out, x / 10);
    }
    let c = digit_of(x % 10);
    out.push(c);
    proof {
        if x >= 10 {
            assert(dec_nat(x as nat) == dec_nat((x / 10) as nat).push(digit_char((x % 10) as int)));
        }
    }
}

/// Appends the decimal writing of `x`.
pub fn push_usize(out: &mut Vec<char>, x: usize)
    ensures
        final(out)@ == old(out)@ + dec_nat(x as nat),
{
    push_u64(out, x as u64);
}

/// Appends the decimal writing of `x`, with a `-` when it is negative.
pub fn push_i64(out: &mut Vec<char>, x: i64)
    ensures
        final(out)@ == old(out)@ + dec_int(x as int),
{
    if x < 0 {
        out.push('-');
        let mag: u64 = ((-(x + 1)) as u64) + 1;
        let ghost mid = out@;
        push_u64(out, mag);
        proof {
            assert(mag as int == -(x as int));
            assert(out@ =~= old(out)@ + dec_int(x as int));
        }
    } else {
        push_u64(out, x as u64);
    }
}

/// Appends the characters of a string.
pub fn push_str(out: &mut Vec<char>, s: &str)
    ensures
        final(out)@ == old(out)@ + s@,
{
    let ghost start = out@;
    let cs = chars_of(s);
    let mut i: usize = 0;
    while i < cs.len()
        invariant
            i <= cs@.len(),
            cs@ == s@,
            out@ == start + cs@.take(i as int),
        decreases cs@.len() - i,
    {
        out.push(cs[i]);
        proof {
            assert(start + cs@.take(i + 1) =~= (start + cs@.take(i as int)).push(cs@[i as int]));
        }
        i += 1;
    }
    proof {
        assert(cs@.take(cs@.len() as int) =~= cs@);
    }
}

/// A digit character stands for its digit.
pub proof fn lemma_digit_char(d: int)
    requires
        0 <= d < 10,
    ensures
        digit_char(d) as int - '0' as int == d,
        '0' <= digit_char(d) <= '9',
{
}

/// A decimal writing is made of digits, starts with a digit, and has the
/// value it writes.
pub proof fn lemma_dec_nat_digits(x: nat)
    ensures
        dec_nat(x).len() > 0,
        all_digits(dec_nat(x)),
        digits_value(dec_nat(x)) == x,
        '0' <= dec_nat(x)[0] <= '9',
    decreases x,
{
    lemma_digit_char((x % 10) as int);
    if x >= 10 {
        lemma_dec_nat_digits(x / 10);
        let d = dec_nat(x / 10);
        assert(dec_nat(x).drop_last() =~= d);
        assert(dec_nat(x)[0] == d[0]);
        assert(digits_value(dec_nat(x)) == digits_value(d) * 10 + (x % 10));
        vstd::arithmetic::div_mod::lemma_fundamental_div_mod(x as int, 10);
        assert(digits_value(d) == x / 10);
        assert(digits_value(dec_nat(x)) == x);
    } else {
        assert(dec_nat(x).drop_last() =~= Seq::<char>::empty());
        assert(x % 10 == x);
        assert(digits_value(dec_nat(x)) == digits_value(Seq::<char>::empty()) * 10 + (x % 10));
        assert(digits_value(dec_nat(x)) == x);
    }
}

/// Reading back the decimal writing of a `usize` gives the number.
pub proof fn lemma_parse_dec_usize(x: usize)
    ensures
        parse_usize_spec(dec_nat(x as nat)) == Some(x),
{
    lemma_dec_nat_digits(x as nat);
    assert(unsigned_body(dec_nat(x as nat)) == dec_nat(x as nat));
}

/// Reading back the decimal writing of an `i64` gives the number.
pub proof fn lemma_parse_dec_i64(x: i64)
    ensures
        parse_i64_spec(dec_int(x as int)) == Some(x),
{
    if x < 0 {
        let m = (-(x as int)) as nat;
        lemma_dec_nat_digits(m);
        let t = dec_int(x as int);
        assert(t[0] == '-');
        assert(t.drop_first() =~= dec_nat(m));
    } else {
        lemma_dec_nat_digits(x as nat);
        assert(unsigned_body(dec_nat(x as nat)) == dec_nat(x as nat));
    }
}

/// Whether two strings hold the same characters.
pub fn text_eq(a: &str, b: &str) -> (r: bool)
    ensures
        r == (a@ == b@),
{
    let x = chars_of(a);
    let y = chars_of(b);
    if x.len() != y.len() {
        return false;
    }
    let mut i: usize = 0;
    while i < x.len()
        invariant
            x@ == a@,
            y@ == b@,
            x@.len() == y@.len(),
            i <= x@.len(),
            forall|k: int| 0 <= k < i ==> x@[k] == y@[k],
        decreases x@.len() - i,
    {
        if x[i] != y[i] {
            return false;
        }
        i += 1;
    }
    proof {
        assert(x@ =~= y@);
    }
    true
}

/// std's `FromIterator<char>` for `String` (`collect`): the string made of
/// these characters, in order.
#[verifier::external_body]
pub(crate) fn string_of_chars(cs: &Vec<char>) -> (s: String)
    ensures
        s@ == cs@,
{
    cs.iter().collect()
}

/// The decimal writing of a natural number is a word.
pub proof fn lemma_dec_word(x: nat)
    ensures
        is_word(dec_nat(x)),
{
    lemma_dec_nat_digits(x);
    let w = dec_nat(x);
    assert forall|i: int| 0 <= i < w.len() implies !is_ws(#[trigger] w[i]) by {
        assert('0' <= w[i] <= '9');
    }
}

} // verus!
