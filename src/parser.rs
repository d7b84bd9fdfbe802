//! The expression grammar and the palette-line grammar.
use vstd::prelude::*;
use crate::color::{in_range, Color, UNIT};
use crate::palette::{ColorError, ColorFn, ColorSpec, PaletteItem};
use crate::grammar::{
    agrees, args_rest_spec, at_char, close_formals, color_of, distinct_names, formals_rest, formals_spec, item_of,
    matches_item, to_end, call_args_spec, call_spec, close_args, expr_spec, keyword_step, lch_spec, matches_expr,
    mix_step, modified, modifier_step, name_end_at, number_at_spec, operand_spec, ops_spec, step_spec,
    ws_end, Expr, Step,
};

verus! {

pub open spec fn is_ws(c: char) -> bool {
    c == ' ' || c == '\n' || c == '\t'
}

pub open spec fn is_digit(c: char) -> bool {
    '0' <= c <= '9'
}

pub open spec fn is_name_char(c: char) -> bool {
    ('a' <= c <= 'z') || ('A' <= c <= 'Z') || is_digit(c) || c == '_' || c == '-'
}

/// Whole numbers above this in a literal are out of range.
pub const MAX_WHOLE: i64 = 999_999_999;

/// The characters of `s`.
pub fn chars_of(s: &str) -> (r: Vec<char>)
    ensures
        r@ == s@,
{
    let n = s.unicode_len();
    let mut r: Vec<char> = Vec::new();
    let mut i: usize = 0;
    while i < n
        invariant
            n == s@.len(),
            i <= n,
            r@ == s@.subrange(0, i as int),
        decreases n - i,
    {
        r.push(s.get_char(i));
        i = i + 1;
    }
    r
}

/// The position after the whitespace that starts at `pos`.
fn skip_ws(s: &Vec<char>, pos: usize) -> (r: usize)
    requires
        pos <= s@.len(),
    ensures
        pos <= r <= s@.len(),
        forall|j: int| pos <= j < r ==> is_ws(#[trigger] s@[j]),
        r == s@.len() || !is_ws(s@[r as int]),
        r == ws_end(s@, pos as int),
{
    let mut i = pos;
    while i < s.len() && (s[i] == ' ' || s[i] == '\n' || s[i] == '\t')
        invariant
            pos <= i <= s@.len(),
            ws_end(s@, pos as int) == ws_end(s@, i as int),
            forall|j: int| pos <= j < i ==> is_ws(#[trigger] s@[j]),
        decreases s@.len() - i,
    {
        i = i + 1;
    }
    i
}

/// The end of the name that starts at `pos` (equal to `pos` if none does).
fn name_end(s: &Vec<char>, pos: usize) -> (r: usize)
    requires
        pos <= s@.len(),
    ensures
        pos <= r <= s@.len(),
        forall|j: int| pos <= j < r ==> is_name_char(#[trigger] s@[j]),
        r == s@.len() || !is_name_char(s@[r as int]),
        r == name_end_at(s@, pos as int),
{
    let mut i = pos;
    while i < s.len() && name_char(s[i])
        invariant
            pos <= i <= s@.len(),
            name_end_at(s@, pos as int) == name_end_at(s@, i as int),
            forall|j: int| pos <= j < i ==> is_name_char(#[trigger] s@[j]),
        decreases s@.len() - i,
    {
        i = i + 1;
    }
    i
}

fn name_char(c: char) -> (r: bool)
    ensures
        r == is_name_char(c),
{
    ('a' <= c && c <= 'z') || ('A' <= c && c <= 'Z') || ('0' <= c && c <= '9') || c == '_' || c == '-'
}

pub open spec fn pow10(n: nat) -> int
    decreases n,
{
    if n == 0 { 1 } else { 10 * pow10((n - 1) as nat) }
}

proof fn lemma_pow10_small()
    ensures
        pow10(0) == 1,
        pow10(1) == 10,
        pow10(2) == 100,
        pow10(3) == 1_000,
        pow10(4) == 10_000,
        pow10(5) == 100_000,
        pow10(6) == 1_000_000,
{
    reveal_with_fuel(pow10, 7);
}

fn at(s: &Vec<char>, pos: usize, c: char) -> (r: bool)
    ensures
        r == (pos < s@.len() && s@[pos as int] == c),
{
    pos < s.len() && s[pos] == c
}

pub open spec fn is_num_char(c: char) -> bool {
    c == '.' || is_digit(c)
}

/// The end of the run of characters satisfying `f` that starts at `i`.
pub open spec fn run_end(s: Seq<char>, i: int, f: spec_fn(char) -> bool) -> int
    decreases s.len() - i,
{
    if 0 <= i < s.len() && f(s[i]) {
        run_end(s, i + 1, f)
    } else {
        i
    }
}

/// The decimal value of a sequence of digits.
pub open spec fn digits_value(t: Seq<char>) -> int
    decreases t.len(),
{
    if t.len() == 0 {
        0
    } else {
        digits_value(t.drop_last()) * 10 + (t.last() as int - '0' as int)
    }
}

/// Index of the first `.` in `t`, or its length.
pub open spec fn dot_index(t: Seq<char>) -> int
    decreases t.len(),
{
    if t.len() == 0 {
        0
    } else if t[0] == '.' {
        0
    } else {
        1 + dot_index(t.subrange(1, t.len() as int))
    }
}

/// The number `[+-]?[0-9.]+` at `pos`, in units, and where it ends: its
/// whole part and at most six fraction digits count; a run with two dots or
/// without digits, or a whole part over `MAX_WHOLE`, is a numeric error.
pub open spec fn number_spec(s: Seq<char>, pos: int) -> Result<(int, int), ColorError> {
    let signed = pos < s.len() && (s[pos] == '+' || s[pos] == '-');
    let start = if signed { pos + 1 } else { pos };
    let end = run_end(s, start, |c: char| is_num_char(c));
    let t = s.subrange(start, end);
    let d = dot_index(t);
    let ip = t.subrange(0, d);
    let fp = if d < t.len() { t.subrange(d + 1, t.len() as int) } else { Seq::empty() };
    let f6 = if fp.len() > 6 { fp.subrange(0, 6) } else { fp };
    let v = digits_value(ip) * UNIT + digits_value(f6) * pow10((6 - f6.len()) as nat);
    if end == start {
        Err(ColorError::SyntaxError(pos as usize))
    } else if dot_index(fp) < fp.len() || ip.len() + fp.len() == 0 || digits_value(ip) > MAX_WHOLE {
        Err(ColorError::NumericParseError(pos as usize))
    } else if signed && s[pos] == '-' {
        Ok((-v, end))
    } else {
        Ok((v, end))
    }
}

proof fn lemma_run_end<F>(s: Seq<char>, i: int, f: spec_fn(char) -> bool)
    requires
        0 <= i <= s.len(),
    ensures
        i <= run_end(s, i, f) <= s.len(),
        forall|j: int| i <= j < run_end(s, i, f) ==> f(#[trigger] s[j]),
        run_end(s, i, f) == s.len() || !f(s[run_end(s, i, f)]),
    decreases s.len() - i,
{
    if i < s.len() && f(s[i]) {
        lemma_run_end::<F>(s, i + 1, f);
    }
}

proof fn lemma_dot_index(t: Seq<char>)
    ensures
        0 <= dot_index(t) <= t.len(),
        forall|j: int| 0 <= j < dot_index(t) ==> t[j] != '.',
        dot_index(t) < t.len() ==> t[dot_index(t)] == '.',
    decreases t.len(),
{
    if t.len() > 0 && t[0] != '.' {
        let r = t.subrange(1, t.len() as int);
        lemma_dot_index(r);
        assert forall|j: int| 0 <= j < dot_index(t) implies t[j] != '.' by {
            if j > 0 {
                assert(t[j] == r[j - 1]);
            }
        }
    }
}

proof fn lemma_digits_prefix(t: Seq<char>, k: int)
    requires
        0 <= k <= t.len(),
        forall|j: int| 0 <= j < t.len() ==> is_digit(#[trigger] t[j]),
    ensures
        0 <= digits_value(t.subrange(0, k)) <= digits_value(t),
    decreases t.len(),
{
    if k < t.len() {
        let u = t.drop_last();
        assert forall|j: int| 0 <= j < u.len() implies is_digit(#[trigger] u[j]) by {
            assert(u[j] == t[j]);
        }
        lemma_digits_prefix(u, k);
        assert(u.subrange(0, k) =~= t.subrange(0, k));
        lemma_digits_prefix(u, u.len() as int);
        assert(u.subrange(0, u.len() as int) =~= u);
    } else {
        assert(t.subrange(0, k) =~= t);
        if t.len() > 0 {
            let u = t.drop_last();
            assert forall|j: int| 0 <= j < u.len() implies is_digit(#[trigger] u[j]) by {
                assert(u[j] == t[j]);
            }
            lemma_digits_prefix(u, u.len() as int);
            assert(u.subrange(0, u.len() as int) =~= u);
        }
    }
}

/// The end of the run of number characters from `i`.
fn num_run_end(s: &Vec<char>, i: usize) -> (r: usize)
    requires
        i <= s@.len(),
    ensures
        r == run_end(s@, i as int, |c: char| is_num_char(c)),
{
    proof {
        lemma_run_end::<()>(s@, i as int, |c: char| is_num_char(c));
    }
    let mut k = i;
    while k < s.len() && (s[k] == '.' || ('0' <= s[k] && s[k] <= '9'))
        invariant
            i <= k <= s@.len(),
            run_end(s@, i as int, |c: char| is_num_char(c)) == run_end(s@, k as int, |c: char| is_num_char(c)),
        decreases s@.len() - k,
    {
        k = k + 1;
    }
    k
}

/// The first `.` in `s[a..b]`, or `b`.
fn dot_in(s: &Vec<char>, a: usize, b: usize) -> (r: usize)
    requires
        a <= b <= s@.len(),
    ensures
        r - a == dot_index(s@.subrange(a as int, b as int)),
{
    let ghost t = s@.subrange(a as int, b as int);
    let mut k = a;
    while k < b && s[k] != '.'
        invariant
            a <= k <= b <= s@.len(),
            t == s@.subrange(a as int, b as int),
            dot_index(t) == (k - a) + dot_index(s@.subrange(k as int, b as int)),
        decreases b - k,
    {
        let ghost u = s@.subrange(k as int, b as int);
        assert(u.subrange(1, u.len() as int) =~= s@.subrange(k + 1, b as int));
        k = k + 1;
    }
    k
}

/// The value of the digits `s[a..b]`, if it is at most `MAX_WHOLE`.
fn digits_at_most(s: &Vec<char>, a: usize, b: usize) -> (r: Option<i64>)
    requires
        a <= b <= s@.len(),
        forall|j: int| a <= j < b ==> is_digit(#[trigger] s@[j]),
    ensures
        match r {
            Some(v) => v == digits_value(s@.subrange(a as int, b as int)) && 0 <= v <= MAX_WHOLE,
            None => digits_value(s@.subrange(a as int, b as int)) > MAX_WHOLE,
        },
{
    let ghost t = s@.subrange(a as int, b as int);
    assert forall|j: int| 0 <= j < t.len() implies is_digit(#[trigger] t[j]) by {
        assert(t[j] == s@[a + j]);
    }
    let mut v: i64 = 0;
    let mut k = a;
    while k < b
        invariant
            a <= k <= b <= s@.len(),
            t == s@.subrange(a as int, b as int),
            forall|j: int| 0 <= j < t.len() ==> is_digit(#[trigger] t[j]),
            v == digits_value(t.subrange(0, k - a)),
            0 <= v <= MAX_WHOLE,
        decreases b - k,
    {
        assert(t.subrange(0, k - a + 1).drop_last() =~= t.subrange(0, k - a));
        assert(t[k - a] == s@[k as int]);
        let d = (s[k] as u32 - '0' as u32) as i64;
        if v > (MAX_WHOLE - d) / 10 {
            proof {
                lemma_digits_prefix(t, k - a + 1);
            }
            return None;
        }
        v = v * 10 + d;
        k = k + 1;
    }
    assert(t.subrange(0, b - a) =~= t);
    Some(v)
}

proof fn lemma_pow10_add(a: nat, b: nat)
    ensures
        pow10(a) * pow10(b) == pow10(a + b),
        pow10(a) >= 1,
    decreases a,
{
    if a > 0 {
        lemma_pow10_add((a - 1) as nat, b);
        vstd::arithmetic::mul::lemma_mul_is_associative(10, pow10((a - 1) as nat), pow10(b));
    }
}

/// `f` followed by zeros up to six fraction digits, from `len` digits.
fn pad_fraction(f: i64, len: usize) -> (r: i64)
    requires
        len <= 6,
        0 <= f < pow10(len as nat),
    ensures
        r == f * pow10((6 - len) as nat),
{
    proof {
        lemma_pow10_small();
    }
    let mut r = f;
    let mut k: usize = len;
    while k < 6
        invariant
            len <= k <= 6,
            pow10(0) == 1 && pow10(1) == 10 && pow10(2) == 100 && pow10(3) == 1_000,
            pow10(4) == 10_000 && pow10(5) == 100_000 && pow10(6) == 1_000_000,
            r == f * pow10((k - len) as nat),
            0 <= r < pow10(k as nat),
        decreases 6 - k,
    {
        assert(pow10((k - len + 1) as nat) == 10 * pow10((k - len) as nat));
        assert(pow10((k + 1) as nat) == 10 * pow10(k as nat));
        proof {
            vstd::arithmetic::mul::lemma_mul_is_associative(f as int, pow10((k - len) as nat), 10);
        }
        r = r * 10;
        k = k + 1;
    }
    r
}

/// Parses a number `[+-]?[0-9.]+` at `pos` into units.
#[verifier::rlimit(100)]
fn parse_number(s: &Vec<char>, pos: usize) -> (r: Result<(i64, usize), ColorError>)
    requires
        s@.len() < usize::MAX,
        pos <= s@.len(),
    ensures
        match (r, number_spec(s@, pos as int)) {
            (Ok((v, e)), Ok((w, f))) => v == w && e == f,
            (Err(a), Err(b)) => a == b,
            _ => false,
        },
        r matches Ok((v, e)) ==> pos < e <= s@.len() && in_range(v as int),
{
    let signed = pos < s.len() && (s[pos] == '+' || s[pos] == '-');
    let start = if signed { pos + 1 } else { pos };
    let end = num_run_end(s, start);
    proof {
        lemma_run_end::<()>(s@, start as int, |c: char| is_num_char(c));
    }
    if end == start {
        return Err(ColorError::SyntaxError(pos));
    }
    let ghost t = s@.subrange(start as int, end as int);
    let d = dot_in(s, start, end);
    proof {
        lemma_dot_index(t);
    }
    let fs = if d < end { d + 1 } else { end };
    let d2 = dot_in(s, fs, end);
    let ghost fp = if d < end { t.subrange(d - start + 1, t.len() as int) } else { Seq::<char>::empty() };
    assert(fp =~= s@.subrange(fs as int, end as int));
    assert(t.subrange(0, d - start) =~= s@.subrange(start as int, d as int));
    if d2 < end || (d - start) + (end - fs) == 0 {
        return Err(ColorError::NumericParseError(pos));
    }
    proof {
        lemma_dot_index(fp);
        assert forall|j: int| start <= j < d implies is_digit(#[trigger] s@[j]) by {
            assert(t[j - start] == s@[j]);
            assert(is_num_char(s@[j]));
        }
        assert forall|j: int| fs <= j < end implies is_digit(#[trigger] s@[j]) by {
            assert(fp[j - fs] == s@[j]);
            assert(is_num_char(s@[j]));
        }
    }
    let whole = match digits_at_most(s, start, d) {
        Some(w) => w,
        None => return Err(ColorError::NumericParseError(pos)),
    };
    let fe = if end - fs > 6 { fs + 6 } else { end };
    let ghost f6 = if fp.len() > 6 { fp.subrange(0, 6) } else { fp };
    assert(f6 =~= s@.subrange(fs as int, fe as int));
    proof {
        lemma_pow10_small();
        assert forall|j: int| 0 <= j < f6.len() implies is_digit(#[trigger] f6[j]) by {
            assert(f6[j] == s@[fs + j]);
        }
        lemma_digits_bound(f6);
    }
    let frac0 = match digits_at_most(s, fs, fe) {
        Some(f) => f,
        None => return Err(ColorError::NumericParseError(pos)),
    };
    let frac = pad_fraction(frac0, fe - fs);
    assert(frac < UNIT) by {
        vstd::arithmetic::mul::lemma_mul_strict_inequality(frac0 as int, pow10(f6.len()), pow10((6 - f6.len()) as nat));
        lemma_pow10_add(f6.len(), (6 - f6.len()) as nat);
    }
    assert(0 <= whole * UNIT <= MAX_WHOLE * UNIT) by (nonlinear_arith)
        requires
            0 <= whole <= MAX_WHOLE,
    ;
    let v = whole * UNIT + frac;
    if signed && s[pos] == '-' {
        Ok((-v, end))
    } else {
        Ok((v, end))
    }
}

proof fn lemma_digits_bound(t: Seq<char>)
    requires
        forall|j: int| 0 <= j < t.len() ==> is_digit(#[trigger] t[j]),
    ensures
        0 <= digits_value(t) < pow10(t.len()),
    decreases t.len(),
{
    if t.len() > 0 {
        let u = t.drop_last();
        assert forall|j: int| 0 <= j < u.len() implies is_digit(#[trigger] u[j]) by {
            assert(u[j] == t[j]);
        }
        lemma_digits_bound(u);
        assert(pow10(t.len()) == 10 * pow10(u.len()));
    }
}

pub open spec fn number_agrees(r: Result<Option<(i64, usize)>, ColorError>, m: Result<Option<(int, int)>, ColorError>) -> bool {
    match (r, m) {
        (Ok(Some((v, e))), Ok(Some((w, f)))) => v == w && e == f,
        (Ok(None), Ok(None)) => true,
        (Err(a), Err(b)) => a == b,
        _ => false,
    }
}

/// A number at `pos`: `None` where no number starts there.
fn number_at(s: &Vec<char>, pos: usize) -> (r: Result<Option<(i64, usize)>, ColorError>)
    requires
        s@.len() < usize::MAX,
        pos <= s@.len(),
    ensures
        number_agrees(r, number_at_spec(s@, pos as int)),
        r matches Ok(Some((v, e))) ==> pos < e <= s@.len() && in_range(v as int),
{
    match parse_number(s, pos) {
        Ok(x) => Ok(Some(x)),
        Err(ColorError::NumericParseError(x)) => Err(ColorError::NumericParseError(x)),
        Err(_) => Ok(None),
    }
}

fn is_numeric_error(r: &Result<(ColorSpec, usize), ColorError>) -> (b: bool)
    ensures
        b == (r matches Err(ColorError::NumericParseError(_))),
{
    match r {
        Err(ColorError::NumericParseError(_)) => true,
        _ => false,
    }
}

/// The characters `a..b` of `src` as a `String`.
fn text(src: &str, a: usize, b: usize) -> (r: String)
    requires
        a <= b <= src@.len(),
    ensures
        r@ == src@.subrange(a as int, b as int),
{
    String::from_str(src.substring_char(a, b))
}

/// The outcome of one step of the operator loop.
enum Advance {
    Done(ColorSpec),
    Next(ColorSpec, usize),
}

/// A modifier of `kind` applied to `lhs`.
fn modify(lhs: ColorSpec, kind: u8, v: i64) -> (r: ColorSpec)
    ensures
        forall|x: Expr| matches_expr(lhs, x) ==> matches_expr(r, modified(x, kind as int, v)),
        lhs.wf() && in_range(v as int) ==> r.wf(),
{
    if kind == 0 {
        ColorSpec::WithChroma(Box::new(lhs), v)
    } else if kind == 1 {
        ColorSpec::Saturate(Box::new(lhs), v)
    } else if kind == 2 {
        ColorSpec::Shade(Box::new(lhs), v)
    } else if kind == 3 {
        ColorSpec::WithLightness(Box::new(lhs), v)
    } else {
        ColorSpec::WithAlpha(Box::new(lhs), v)
    }
}

spec fn advance_agrees(r: Result<Advance, ColorError>, m: Step, lhs: ColorSpec, p: usize) -> bool {
    match (r, m) {
        (Ok(Advance::Done(l)), Step::Done) => l == lhs,
        (Ok(Advance::Next(l, q)), Step::Next(x, q2)) => q == q2 && p < q && matches_expr(l, x),
        (Err(a), Step::Fail(b)) => a == b,
        _ => false,
    }
}

/// A modifier of `kind` whose number is looked for at `i`; `Err(lhs)` where none is there.
fn try_modifier(s: &Vec<char>, i: usize, lhs: ColorSpec, kind: u8, p: usize, x: Ghost<Expr>) -> (r: Result<Result<Advance, ColorError>, ColorSpec>)
    requires
        s@.len() < usize::MAX,
        p < i <= s@.len(),
        lhs.wf(),
        matches_expr(lhs, x@),
    ensures
        match (r, modifier_step(s@, i as int, x@, kind as int)) {
            (Ok(a), Some(m)) => advance_agrees(a, m, lhs, p),
            (Err(l), None) => l == lhs,
            _ => false,
        },
        r matches Ok(Ok(Advance::Next(l, q))) ==> l.wf() && q <= s@.len(),
{
    match number_at(s, i) {
        Err(e) => Ok(Err(e)),
        Ok(Some((v, q))) => Ok(Ok(Advance::Next(modify(lhs, kind, v), q))),
        Ok(None) => Err(lhs),
    }
}

/// One step of the operator loop after `lhs`, which ends at `p`.
fn parse_step(src: &str, s: &Vec<char>, level: u8, lhs: ColorSpec, p: usize, x: Ghost<Expr>) -> (r: Result<Advance, ColorError>)
    requires
        s@ == src@,
        s@.len() < usize::MAX,
        0 < p <= s@.len(),
        lhs.wf(),
        matches_expr(lhs, x@),
    ensures
        advance_agrees(r, step_spec(s@, level as int, x@, p as int), lhs, p),
        r matches Ok(Advance::Next(l, q)) ==> l.wf() && q <= s@.len(),
    decreases s@.len() - p, 4nat,
{
    let q0 = skip_ws(s, p);
    let ghost q0g = q0 as int;
    let mut lhs = lhs;
    if level <= 2 && at(s, q0, '*') {
        match number_at(s, q0 + 1) {
            Err(e) => return Err(e),
            Ok(Some((v, q1))) => {
                if at(s, q1, '*') {
                    let q2 = skip_ws(s, q1 + 1);
                    let rhs = parse_expr(src, s, q2, 3);
                    if is_numeric_error(&rhs) {
                        return match rhs {
                            Err(e) => Err(e),
                            Ok(_) => Err(ColorError::SyntaxError(0)),
                        };
                    }
                    if let Ok((b, q3)) = rhs {
                        return Ok(Advance::Next(ColorSpec::Mix(Box::new(lhs), Box::new(b), v), q3));
                    }
                }
            },
            Ok(None) => {},
        }
    }
    assert(mix_step(s@, level as int, x@, p as int, q0g) is None);
    let ghost kw = if level <= 3 && q0 > p && q0 + 1 < s@.len() { keyword_step(s@, x@, q0g) } else { None };
    if level <= 3 && q0 > p && q0 + 1 < s.len() {
        let c0 = s[q0];
        let c1 = s[q0 + 1];
        if c0 == 'c' && c1 == 'h' {
            match try_modifier(s, skip_ws(s, q0 + 2), lhs, 0, p, x) {
                Ok(a) => return a,
                Err(l) => lhs = l,
            }
        } else if c0 == 's' && c1 == 't' {
            match try_modifier(s, skip_ws(s, q0 + 2), lhs, 1, p, x) {
                Ok(a) => return a,
                Err(l) => lhs = l,
            }
        } else if c0 == 'l' && c1 == 'i' {
            match try_modifier(s, skip_ws(s, q0 + 2), lhs, 2, p, x) {
                Ok(a) => return a,
                Err(l) => lhs = l,
            }
            if at(s, q0 + 2, '=') {
                match try_modifier(s, skip_ws(s, q0 + 3), lhs, 3, p, x) {
                    Ok(a) => return a,
                    Err(l) => lhs = l,
                }
            }
        }
    }
    assert(kw is None);
    if level <= 3 && at(s, q0, 'a') {
        match try_modifier(s, skip_ws(s, q0 + 1), lhs, 4, p, x) {
            Ok(a) => return a,
            Err(l) => lhs = l,
        }
    }
    Ok(Advance::Done(lhs))
}

/// Parses an expression at `pos`, taking operators that bind at least as
/// tightly as `level`: level 1 admits mixes and modifiers, level 3 modifiers
/// only.
pub fn parse_expr(src: &str, s: &Vec<char>, pos: usize, level: u8) -> (r: Result<(ColorSpec, usize), ColorError>)
    requires
        s@ == src@,
        s@.len() < usize::MAX,
        pos <= s@.len(),
    ensures
        agrees(r, expr_spec(s@, pos as int, level as int)),
        r matches Ok((e, end)) ==> pos < end <= s@.len() && e.wf(),
    decreases s@.len() - pos, 1nat,
{
    let (first, first_end) = match parse_operand(src, s, pos) {
        Ok(x) => x,
        Err(e) => return Err(e),
    };
    let ghost x0 = operand_spec(s@, pos as int)->Ok_0.0;
    let ghost mut x = x0;
    let mut lhs = first;
    let mut p = first_end;
    loop
        invariant
            s@ == src@,
            s@.len() < usize::MAX,
            pos < p <= s@.len(),
            lhs.wf(),
            matches_expr(lhs, x),
            expr_spec(s@, pos as int, level as int) == ops_spec(s@, level as int, x, p as int),
        decreases s@.len() - p,
    {
        let r = parse_step(src, s, level, lhs, p, Ghost(x));
        match r {
            Err(e) => return Err(e),
            Ok(Advance::Done(l)) => return Ok((l, p)),
            Ok(Advance::Next(l, q)) => {
                proof {
                    x = step_spec(s@, level as int, x, p as int)->Next_0;
                }
                lhs = l;
                p = q;
            },
        }
    }
}

/// A call, a complement, a literal, a name, a named color or a parenthesized
/// expression at `pos`, tried in that order.
fn parse_operand(src: &str, s: &Vec<char>, pos: usize) -> (r: Result<(ColorSpec, usize), ColorError>)
    requires
        s@ == src@,
        s@.len() < usize::MAX,
        pos <= s@.len(),
    ensures
        agrees(r, operand_spec(s@, pos as int)),
        r matches Ok((e, end)) ==> pos < end <= s@.len() && e.wf(),
    decreases s@.len() - pos, 0nat, 2nat,
{
    let ne = name_end(s, pos);
    if ne > pos {
        let p = skip_ws(s, ne);
        if at(s, p, '(') {
            match parse_call_args(src, s, p + 1) {
                Ok((args, end)) => {
                    return Ok((ColorSpec::FnCall(text(src, pos, ne), args), end));
                },
                Err(ColorError::NumericParseError(x)) => return Err(ColorError::NumericParseError(x)),
                Err(_) => {},
            }
        }
    }
    assert(call_spec(s@, pos as int) is None);
    if at(s, pos, '~') {
        return match parse_expr(src, s, pos + 1, 1) {
            Ok((e, end)) => Ok((ColorSpec::Complement(Box::new(e)), end)),
            Err(e) => Err(e),
        };
    }
    if at(s, pos, 'l') || at(s, pos, 'L') {
        match parse_lch(s, pos + 1) {
            Err(e) => return Err(e),
            Ok(Some((c, end))) => return Ok((ColorSpec::Lch(c), end)),
            Ok(None) => {},
        }
    }
    if ne > pos {
        return Ok((ColorSpec::Id(text(src, pos, ne)), ne));
    }
    if at(s, pos, '$') {
        let e = name_end(s, pos + 1);
        if e > pos + 1 {
            return Ok((ColorSpec::Named(text(src, pos + 1, e)), e));
        }
    }
    if at(s, pos, '(') {
        match parse_expr(src, s, pos + 1, 1) {
            Ok((e, end)) => {
                if at(s, end, ')') {
                    return Ok((e, end + 1));
                }
            },
            Err(ColorError::NumericParseError(x)) => return Err(ColorError::NumericParseError(x)),
            Err(_) => {},
        }
    }
    Err(ColorError::SyntaxError(pos))
}

/// The rest of a literal `<num>[cC]<num>[hH]<num>` after its `l`.
fn parse_lch(s: &Vec<char>, pos: usize) -> (r: Result<Option<(Color, usize)>, ColorError>)
    requires
        s@.len() < usize::MAX,
        pos <= s@.len(),
    ensures
        match (r, lch_spec(s@, pos as int)) {
            (Ok(Some((c, e))), Ok(Some((d, f)))) => c == d && e == f,
            (Ok(None), Ok(None)) => true,
            (Err(a), Err(b)) => a == b,
            _ => false,
        },
        r matches Ok(Some((c, end))) ==> pos < end <= s@.len() && c.wf(),
{
    let (l, after_l) = match number_at(s, pos) {
        Err(e) => return Err(e),
        Ok(None) => return Ok(None),
        Ok(Some(x)) => x,
    };
    if !(at(s, after_l, 'c') || at(s, after_l, 'C')) {
        return Ok(None);
    }
    let (c, after_c) = match number_at(s, after_l + 1) {
        Err(e) => return Err(e),
        Ok(None) => return Ok(None),
        Ok(Some(x)) => x,
    };
    if !(at(s, after_c, 'h') || at(s, after_c, 'H')) {
        return Ok(None);
    }
    let (h, after_h) = match number_at(s, after_c + 1) {
        Err(e) => return Err(e),
        Ok(None) => return Ok(None),
        Ok(Some(x)) => x,
    };
    Ok(Some((Color::new(l, c, h), after_h)))
}

/// The arguments of a call after its `(`, through the closing `)`.
fn parse_call_args(src: &str, s: &Vec<char>, pos: usize) -> (r: Result<(Vec<ColorSpec>, usize), ColorError>)
    requires
        s@ == src@,
        s@.len() < usize::MAX,
        pos <= s@.len(),
    ensures
        match (r, call_args_spec(s@, pos as int)) {
            (Ok((args, end)), Ok((xs, end2))) => end == end2 && args@.len() == xs.len()
                && forall|i: int| 0 <= i < xs.len() ==> matches_expr(#[trigger] args@[i], xs[i]),
            (Err(a), Err(b)) => a == b,
            _ => false,
        },
        r matches Ok((args, end)) ==> pos < end <= s@.len() && forall|i: int|
            0 <= i < args@.len() ==> (#[trigger] args@[i]).wf(),
    decreases s@.len() - pos, 5nat,
{
    let mut args: Vec<ColorSpec> = Vec::new();
    let ghost mut xs: Seq<Expr> = Seq::empty();
    let mut p = skip_ws(s, pos);
    let first = parse_expr(src, s, p, 1);
    if is_numeric_error(&first) {
        return match first {
            Ok(_) => Err(ColorError::SyntaxError(p)),
            Err(e) => Err(e),
        };
    }
    if let Ok((e, end)) = first {
        proof {
            xs = seq![expr_spec(s@, p as int, 1)->Ok_0.0];
        }
        args.push(e);
        p = end;
        while at(s, p, ',')
            invariant
                s@ == src@,
                s@.len() < usize::MAX,
                pos < p <= s@.len(),
                forall|i: int| 0 <= i < args@.len() ==> (#[trigger] args@[i]).wf(),
                args@.len() == xs.len(),
                forall|i: int| 0 <= i < xs.len() ==> matches_expr(#[trigger] args@[i], xs[i]),
                call_args_spec(s@, pos as int) == args_rest_spec(s@, p as int, xs),
            ensures
                pos < p <= s@.len(),
                forall|i: int| 0 <= i < args@.len() ==> (#[trigger] args@[i]).wf(),
                args@.len() == xs.len(),
                forall|i: int| 0 <= i < xs.len() ==> matches_expr(#[trigger] args@[i], xs[i]),
                call_args_spec(s@, pos as int) == close_args(s@, p as int, xs),
            decreases s@.len() - p,
        {
            let q = skip_ws(s, p + 1);
            let next = parse_expr(src, s, q, 1);
            if is_numeric_error(&next) {
                return match next {
                    Ok(_) => Err(ColorError::SyntaxError(q)),
                    Err(e) => Err(e),
                };
            }
            match next {
                Ok((e, end)) => {
                    proof {
                        xs = xs.push(expr_spec(s@, q as int, 1)->Ok_0.0);
                    }
                    args.push(e);
                    p = end;
                },
                Err(_) => {
                    assert(args_rest_spec(s@, p as int, xs) == close_args(s@, p as int, xs));
                    break;
                },
            }
        }
    } else {
        assert(call_args_spec(s@, pos as int) == close_args(s@, p as int, Seq::<Expr>::empty()));
    }
    if at(s, p, ')') {
        Ok((args, p + 1))
    } else {
        Err(ColorError::SyntaxError(p))
    }
}

/// Parses a whole color expression.
pub fn parse_color(src: &str) -> (r: Result<ColorSpec, ColorError>)
    ensures
        match (r, color_of(src@)) {
            (Ok(e), Ok(x)) => matches_expr(e, x) && e.wf(),
            (Err(a), Err(b)) => a == b,
            _ => false,
        },
{
    let s = chars_of(src);
    if s.len() == usize::MAX {
        return Err(ColorError::SyntaxError(0));
    }
    expression_to_end(src, &s, 0)
}

/// An expression from `pos` that runs to the end of the text.
fn expression_to_end(src: &str, s: &Vec<char>, pos: usize) -> (r: Result<ColorSpec, ColorError>)
    requires
        s@ == src@,
        s@.len() < usize::MAX,
        pos <= s@.len(),
    ensures
        match (r, to_end(s@, expr_spec(s@, pos as int, 1))) {
            (Ok(e), Ok(x)) => matches_expr(e, x) && e.wf(),
            (Err(a), Err(b)) => a == b,
            _ => false,
        },
{
    match parse_expr(src, s, pos, 1) {
        Ok((e, end)) => {
            if end == s.len() {
                Ok(e)
            } else {
                Err(ColorError::SyntaxError(end))
            }
        },
        Err(e) => Err(e),
    }
}

impl PaletteItem {
    pub open spec fn wf(self) -> bool {
        match self {
            PaletteItem::Color(_, e) => e.wf(),
            PaletteItem::Func(_, f) => f.wf(),
        }
    }
}

/// Parses one palette line: `name = expr`, or `fn name(a, b) = expr` with
/// distinct formal parameter names.
pub fn parse_palette_line(src: &str) -> (r: Result<PaletteItem, ColorError>)
    ensures
        match (r, item_of(src@)) {
            (Ok(item), Ok(x)) => matches_item(item, x) && item.wf(),
            (Err(a), Err(b)) => a == b,
            _ => false,
        },
{
    let s = chars_of(src);
    if s.len() == usize::MAX {
        return Err(ColorError::SyntaxError(0));
    }
    let ne = name_end(&s, 0);
    let p = skip_ws(&s, ne);
    if ne > 0 && at(&s, p, '=') {
        let q = skip_ws(&s, p + 1);
        return match expression_to_end(src, &s, q) {
            Ok(e) => Ok(PaletteItem::Color(text(src, 0, ne), e)),
            Err(e) => Err(e),
        };
    }
    if at(&s, 0, 'f') && at(&s, 1, 'n') {
        let n1 = skip_ws(&s, 2);
        if n1 > 2 {
            let fe = name_end(&s, n1);
            if fe > n1 {
                let q = skip_ws(&s, fe);
                if at(&s, q, '(') {
                    if let Some((args, q2)) = parse_formals(src, &s, q + 1) {
                        let q3 = skip_ws(&s, q2);
                        if at(&s, q3, '=') {
                            if !all_distinct(&args) {
                                return Err(ColorError::MalformedPaletteLine);
                            }
                            proof {
                                let ns = formals_spec(s@, q + 1)->Some_0.0;
                                assert forall|i: int, j: int| 0 <= i < j < ns.len() implies ns[i] != ns[j] by {
                                    assert(args@[i]@ == ns[i] && args@[j]@ == ns[j]);
                                }
                                assert(distinct_names(ns));
                            }
                            let q4 = skip_ws(&s, q3 + 1);
                            return match expression_to_end(src, &s, q4) {
                                Ok(body) => Ok(PaletteItem::Func(text(src, n1, fe), ColorFn { args, body })),
                                Err(e) => Err(e),
                            };
                        }
                    }
                }
            }
        }
    }
    Err(ColorError::MalformedPaletteLine)
}

/// Whether no two of `names` are equal.
fn all_distinct(names: &Vec<String>) -> (r: bool)
    ensures
        r == (forall|i: int, j: int| 0 <= i < j < names@.len() ==> names@[i]@ != names@[j]@),
{
    let mut j: usize = 0;
    while j < names.len()
        invariant
            j <= names@.len(),
            forall|a: int, b: int| 0 <= a < b < j ==> names@[a]@ != names@[b]@,
        decreases names@.len() - j,
    {
        let mut i: usize = 0;
        while i < j
            invariant
                i <= j < names@.len(),
                forall|a: int| 0 <= a < i ==> names@[a]@ != names@[j as int]@,
            decreases j - i,
        {
            if names[i] == names[j] {
                return false;
            }
            i = i + 1;
        }
        j = j + 1;
    }
    true
}

/// Formal parameter names after a `(`, through the closing `)`.
fn parse_formals(src: &str, s: &Vec<char>, pos: usize) -> (r: Option<(Vec<String>, usize)>)
    requires
        s@ == src@,
        s@.len() < usize::MAX,
        pos <= s@.len(),
    ensures
        match (r, formals_spec(s@, pos as int)) {
            (Some((names, end)), Some((ns, end2))) => end == end2 && names@.len() == ns.len()
                && forall|i: int| 0 <= i < ns.len() ==> (#[trigger] names@[i])@ == ns[i],
            (None, None) => true,
            _ => false,
        },
        r matches Some((names, end)) ==> pos < end <= s@.len(),
{
    let mut names: Vec<String> = Vec::new();
    let ghost mut ns: Seq<Seq<char>> = Seq::empty();
    let mut p = skip_ws(s, pos);
    let e = name_end(s, p);
    if e > p {
        names.push(text(src, p, e));
        proof {
            ns = seq![s@.subrange(p as int, e as int)];
        }
        p = e;
        while at(s, p, ',')
            invariant
                s@ == src@,
                s@.len() < usize::MAX,
                pos <= p <= s@.len(),
                names@.len() == ns.len(),
                forall|i: int| 0 <= i < ns.len() ==> (#[trigger] names@[i])@ == ns[i],
                formals_spec(s@, pos as int) == formals_rest(s@, p as int, ns),
            ensures
                pos <= p <= s@.len(),
                names@.len() == ns.len(),
                forall|i: int| 0 <= i < ns.len() ==> (#[trigger] names@[i])@ == ns[i],
                formals_spec(s@, pos as int) == close_formals(s@, p as int, ns),
            decreases s@.len() - p,
        {
            let q = skip_ws(s, p + 1);
            let e2 = name_end(s, q);
            if e2 == q {
                break;
            }
            names.push(text(src, q, e2));
            proof {
                ns = ns.push(s@.subrange(q as int, e2 as int));
            }
            p = e2;
        }
    }
    if at(s, p, ')') {
        Some((names, p + 1))
    } else {
        None
    }
}

/// `s[a..b]` is a whole name that directly follows a `$`.
pub open spec fn dollar_name_at(s: Seq<char>, a: int, b: int) -> bool {
    &&& 0 < a < b <= s.len()
    &&& s[a - 1] == '$'
    &&& forall|j: int| a <= j < b ==> is_name_char(#[trigger] s[j])
    &&& (b == s.len() || !is_name_char(s[b]))
}

/// `n` is a whole name that directly follows a `$` in `s`.
pub open spec fn is_dollar_name(s: Seq<char>, n: Seq<char>) -> bool {
    exists|a: int, b: int| dollar_name_at(s, a, b) && n == s.subrange(a, b)
}

/// The names of the standard named colors that a text refers to, in order
/// of occurrence.
pub fn dollar_names(src: &str) -> (names: Vec<String>)
    ensures
        forall|k: int| 0 <= k < names@.len() ==> is_dollar_name(src@, #[trigger] names@[k]@),
        forall|a: int, b: int| #[trigger] dollar_name_at(src@, a, b) ==> exists|k: int|
            0 <= k < names@.len() && (#[trigger] names@[k])@ == src@.subrange(a, b),
{
    let s = chars_of(src);
    let mut r: Vec<String> = Vec::new();
    let ghost starts: Seq<int> = Seq::empty();
    let ghost ends: Seq<int> = Seq::empty();
    let mut i: usize = 0;
    while i < s.len()
        invariant
            s@ == src@,
            i <= s@.len(),
            starts.len() == r@.len(),
            ends.len() == r@.len(),
            forall|k: int| 0 <= k < r@.len() ==> dollar_name_at(src@, #[trigger] starts[k], ends[k])
                && r@[k]@ == src@.subrange(starts[k], ends[k]),
            forall|a: int, b: int| #[trigger] dollar_name_at(src@, a, b) && a <= i ==> exists|k: int|
                0 <= k < r@.len() && (#[trigger] r@[k])@ == src@.subrange(a, b),
        decreases s@.len() - i,
    {
        if s[i] == '$' {
            let e = name_end(&s, i + 1);
            if e > i + 1 {
                let name = text(src, i + 1, e);
                let ghost old_r = r@;
                r.push(name);
                proof {
                    starts = starts.push(i + 1);
                    ends = ends.push(e as int);
                    assert(r@[old_r.len() as int]@ == src@.subrange(i + 1, e as int));
                    assert forall|a: int, b: int| #[trigger] dollar_name_at(src@, a, b) && a <= i + 1 implies exists|k: int|
                        0 <= k < r@.len() && (#[trigger] r@[k])@ == src@.subrange(a, b) by {
                        if a == i + 1 {
                            if b < e {
                                assert(is_name_char(src@[b]));
                            } else if b > e {
                                assert(is_name_char(src@[e as int]));
                            }
                            assert(r@[old_r.len() as int]@ == src@.subrange(a, b));
                        } else {
                            let k = choose|k: int| 0 <= k < old_r.len() && (#[trigger] old_r[k])@ == src@.subrange(a, b);
                            assert(r@[k] == old_r[k]);
                        }
                    }
                }
            }
        }
        i = i + 1;
    }
    assert forall|k: int| 0 <= k < r@.len() implies is_dollar_name(src@, #[trigger] r@[k]@) by {
        assert(dollar_name_at(src@, starts[k], ends[k]));
    }
    r
}

} // verus!
