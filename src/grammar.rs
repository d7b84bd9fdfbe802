//! The grammar of expressions and palette lines, as spec functions over the
//! characters of the text.
//!
//! Precedence, loosest first: function call; `~` (prefix, its operand may
//! hold mixes and modifiers); `a *n* b` (left-associative, its right operand
//! holds modifiers only); postfix modifiers `ch`, `st`, `li`, `li=`, `a`;
//! atoms: an `L..C..H..` literal, a name, `$name`, `( expr )`. Alternatives
//! are tried in order, and a later one is tried only where an earlier one
//! does not match (a bad number ends the parse at once).
use vstd::prelude::*;
use crate::color::{norm_hue, Color, UNIT};
use crate::palette::{ColorError, ColorSpec, PaletteItem};
use crate::parser::{digits_value, dot_index, is_digit, is_name_char, is_num_char, is_ws, number_spec, run_end, MAX_WHOLE};

verus! {

/// A parsed expression, names held as characters.
pub enum Expr {
    Id(Seq<char>),
    Named(Seq<char>),
    Lch(Color),
    Shade(Box<Expr>, i64),
    Saturate(Box<Expr>, i64),
    WithLightness(Box<Expr>, i64),
    WithChroma(Box<Expr>, i64),
    WithAlpha(Box<Expr>, i64),
    Mix(Box<Expr>, Box<Expr>, i64),
    Complement(Box<Expr>),
    FnCall(Seq<char>, Seq<Expr>),
}

/// A parsed palette line.
pub enum Item {
    Color(Seq<char>, Expr),
    Func(Seq<char>, Seq<Seq<char>>, Expr),
}

/// `e` is the expression tree `x`.
pub open spec fn matches_expr(e: ColorSpec, x: Expr) -> bool
    decreases e,
{
    match (e, x) {
        (ColorSpec::Id(n), Expr::Id(m)) => n@ == m,
        (ColorSpec::Named(n), Expr::Named(m)) => n@ == m,
        (ColorSpec::Lch(c), Expr::Lch(d)) => c == d,
        (ColorSpec::Shade(a, v), Expr::Shade(b, w)) => v == w && matches_expr(*a, *b),
        (ColorSpec::Saturate(a, v), Expr::Saturate(b, w)) => v == w && matches_expr(*a, *b),
        (ColorSpec::WithLightness(a, v), Expr::WithLightness(b, w)) => v == w && matches_expr(*a, *b),
        (ColorSpec::WithChroma(a, v), Expr::WithChroma(b, w)) => v == w && matches_expr(*a, *b),
        (ColorSpec::WithAlpha(a, v), Expr::WithAlpha(b, w)) => v == w && matches_expr(*a, *b),
        (ColorSpec::Mix(a1, a2, v), Expr::Mix(b1, b2, w)) => v == w && matches_expr(*a1, *b1) && matches_expr(*a2, *b2),
        (ColorSpec::Complement(a), Expr::Complement(b)) => matches_expr(*a, *b),
        (ColorSpec::FnCall(n, args), Expr::FnCall(m, xs)) => n@ == m && args.len() == xs.len()
            && forall|i: int| 0 <= i < args.len() ==> matches_expr(#[trigger] args[i], xs[i]),
        _ => false,
    }
}

/// `item` is the palette line `x`.
pub open spec fn matches_item(item: PaletteItem, x: Item) -> bool {
    match (item, x) {
        (PaletteItem::Color(n, e), Item::Color(m, y)) => n@ == m && matches_expr(e, y),
        (PaletteItem::Func(n, f), Item::Func(m, formals, y)) => n@ == m && f.args@.len() == formals.len()
            && (forall|i: int| 0 <= i < formals.len() ==> (#[trigger] f.args@[i])@ == formals[i])
            && matches_expr(f.body, y),
        _ => false,
    }
}

/// An executable parse result agrees with the grammar's.
pub open spec fn agrees(r: Result<(ColorSpec, usize), ColorError>, m: Result<(Expr, int), ColorError>) -> bool {
    match (r, m) {
        (Ok((e, end)), Ok((x, end2))) => end == end2 && matches_expr(e, x),
        (Err(a), Err(b)) => a == b,
        _ => false,
    }
}

pub open spec fn at_char(s: Seq<char>, i: int, c: char) -> bool {
    0 <= i < s.len() && s[i] == c
}

/// The end of the whitespace that starts at `i`.
pub open spec fn ws_end(s: Seq<char>, i: int) -> int
    decreases s.len() - i,
{
    if 0 <= i < s.len() && is_ws(s[i]) { ws_end(s, i + 1) } else { i }
}

/// The end of the name that starts at `i`.
pub open spec fn name_end_at(s: Seq<char>, i: int) -> int
    decreases s.len() - i,
{
    if 0 <= i < s.len() && is_name_char(s[i]) { name_end_at(s, i + 1) } else { i }
}

/// A number at `i` if one starts there.
pub open spec fn number_at_spec(s: Seq<char>, i: int) -> Result<Option<(int, int)>, ColorError> {
    match number_spec(s, i) {
        Ok(x) => Ok(Some(x)),
        Err(ColorError::NumericParseError(x)) => Err(ColorError::NumericParseError(x)),
        Err(_) => Ok(None),
    }
}

/// One step of the operator loop.
pub enum Step {
    Done,
    Next(Expr, int),
    Fail(ColorError),
}

pub open spec fn modified(x: Expr, kind: int, v: i64) -> Expr {
    if kind == 0 {
        Expr::WithChroma(Box::new(x), v)
    } else if kind == 1 {
        Expr::Saturate(Box::new(x), v)
    } else if kind == 2 {
        Expr::Shade(Box::new(x), v)
    } else if kind == 3 {
        Expr::WithLightness(Box::new(x), v)
    } else {
        Expr::WithAlpha(Box::new(x), v)
    }
}

/// A modifier of `kind` whose number is looked for at `i`.
pub open spec fn modifier_step(s: Seq<char>, i: int, x: Expr, kind: int) -> Option<Step> {
    match number_at_spec(s, i) {
        Err(e) => Some(Step::Fail(e)),
        Ok(Some((v, q))) => Some(Step::Next(modified(x, kind, v as i64), q)),
        Ok(None) => None,
    }
}

/// The modifier keywords that follow whitespace.
pub open spec fn keyword_step(s: Seq<char>, x: Expr, q0: int) -> Option<Step> {
    let c0 = s[q0];
    let c1 = s[q0 + 1];
    if c0 == 'c' && c1 == 'h' {
        modifier_step(s, ws_end(s, q0 + 2), x, 0)
    } else if c0 == 's' && c1 == 't' {
        modifier_step(s, ws_end(s, q0 + 2), x, 1)
    } else if c0 == 'l' && c1 == 'i' {
        match modifier_step(s, ws_end(s, q0 + 2), x, 2) {
            Some(r) => Some(r),
            None => if at_char(s, q0 + 2, '=') {
                modifier_step(s, ws_end(s, q0 + 3), x, 3)
            } else {
                None
            },
        }
    } else {
        None
    }
}

/// The mix operator at `q0`, after the left operand `x` that ends at `p`.
pub open spec fn mix_step(s: Seq<char>, level: int, x: Expr, p: int, q0: int) -> Option<Step>
    decreases s.len() - p, 3nat,
{
    if level <= 2 && at_char(s, q0, '*') {
        match number_at_spec(s, q0 + 1) {
            Err(e) => Some(Step::Fail(e)),
            Ok(Some((v, q1))) => if at_char(s, q1, '*') && p < ws_end(s, q1 + 1) <= s.len() {
                match expr_spec(s, ws_end(s, q1 + 1), 3) {
                    Err(ColorError::NumericParseError(e)) => Some(Step::Fail(ColorError::NumericParseError(e))),
                    Ok((b, q3)) => Some(Step::Next(Expr::Mix(Box::new(x), Box::new(b), v as i64), q3)),
                    Err(_) => None,
                }
            } else {
                None
            },
            Ok(None) => None,
        }
    } else {
        None
    }
}

/// What follows the operand `x` that ends at `p`: a mix, a modifier, or nothing.
pub open spec fn step_spec(s: Seq<char>, level: int, x: Expr, p: int) -> Step
    decreases s.len() - p, 4nat,
{
    let q0 = ws_end(s, p);
    match mix_step(s, level, x, p, q0) {
        Some(r) => r,
        None => {
            let kw = if level <= 3 && q0 > p && q0 + 1 < s.len() { keyword_step(s, x, q0) } else { None };
            match kw {
                Some(r) => r,
                None => if level <= 3 && at_char(s, q0, 'a') {
                    match modifier_step(s, ws_end(s, q0 + 1), x, 4) {
                        Some(r) => r,
                        None => Step::Done,
                    }
                } else {
                    Step::Done
                },
            }
        },
    }
}

/// Operators applied to `x`, which ends at `p`, for as long as they match.
pub open spec fn ops_spec(s: Seq<char>, level: int, x: Expr, p: int) -> Result<(Expr, int), ColorError>
    decreases s.len() - p, 5nat,
{
    if !(0 <= p <= s.len()) {
        Err(ColorError::SyntaxError(0))
    } else {
        match step_spec(s, level, x, p) {
            Step::Done => Ok((x, p)),
            Step::Fail(e) => Err(e),
            Step::Next(x2, q) => if p < q <= s.len() { ops_spec(s, level, x2, q) } else { Ok((x, p)) },
        }
    }
}

/// The expression at `pos`, taking operators that bind at least as tightly as `level`.
pub open spec fn expr_spec(s: Seq<char>, pos: int, level: int) -> Result<(Expr, int), ColorError>
    decreases s.len() - pos, 1nat,
{
    if !(0 <= pos <= s.len()) {
        Err(ColorError::SyntaxError(0))
    } else {
        match operand_spec(s, pos) {
            Err(e) => Err(e),
            Ok((x, p)) => if pos < p <= s.len() { ops_spec(s, level, x, p) } else { Err(ColorError::SyntaxError(0)) },
        }
    }
}

/// The rest of a literal after its `l`.
pub open spec fn lch_spec(s: Seq<char>, pos: int) -> Result<Option<(Color, int)>, ColorError> {
    match number_at_spec(s, pos) {
        Err(e) => Err(e),
        Ok(None) => Ok(None),
        Ok(Some((l, after_l))) => if !(at_char(s, after_l, 'c') || at_char(s, after_l, 'C')) {
            Ok(None)
        } else {
            match number_at_spec(s, after_l + 1) {
                Err(e) => Err(e),
                Ok(None) => Ok(None),
                Ok(Some((c, after_c))) => if !(at_char(s, after_c, 'h') || at_char(s, after_c, 'H')) {
                    Ok(None)
                } else {
                    match number_at_spec(s, after_c + 1) {
                        Err(e) => Err(e),
                        Ok(None) => Ok(None),
                        Ok(Some((h, after_h))) => Ok(Some((
                            Color { l: l as i64, chroma: c as i64, hue: norm_hue(h) as i64, alpha: UNIT },
                            after_h,
                        ))),
                    }
                },
            }
        },
    }
}

/// A call at `pos` (a name, `(`, arguments, `)`), if one matches there.
pub open spec fn call_spec(s: Seq<char>, pos: int) -> Option<Result<(Expr, int), ColorError>>
    decreases s.len() - pos, 0nat, 1nat,
{
    let ne = name_end_at(s, pos);
    let p = ws_end(s, ne);
    if pos < ne && pos <= p && at_char(s, p, '(') {
        match call_args_spec(s, p + 1) {
            Ok((xs, end)) => Some(Ok((Expr::FnCall(s.subrange(pos, ne), xs), end))),
            Err(ColorError::NumericParseError(x)) => Some(Err(ColorError::NumericParseError(x))),
            Err(_) => None,
        }
    } else {
        None
    }
}

/// A call, a complement, a literal, a name, a named color or a parenthesized
/// expression at `pos`, tried in that order.
pub open spec fn operand_spec(s: Seq<char>, pos: int) -> Result<(Expr, int), ColorError>
    decreases s.len() - pos, 0nat, 2nat,
{
    let ne = name_end_at(s, pos);
    match call_spec(s, pos) {
        Some(r) => r,
        None => if at_char(s, pos, '~') {
            match expr_spec(s, pos + 1, 1) {
                Ok((x, end)) => Ok((Expr::Complement(Box::new(x)), end)),
                Err(e) => Err(e),
            }
        } else {
            let lit = if at_char(s, pos, 'l') || at_char(s, pos, 'L') { lch_spec(s, pos + 1) } else { Ok(None) };
            match lit {
                Err(e) => Err(e),
                Ok(Some((c, end))) => Ok((Expr::Lch(c), end)),
                Ok(None) => if ne > pos {
                    Ok((Expr::Id(s.subrange(pos, ne)), ne))
                } else if at_char(s, pos, '$') && name_end_at(s, pos + 1) > pos + 1 {
                    Ok((Expr::Named(s.subrange(pos + 1, name_end_at(s, pos + 1))), name_end_at(s, pos + 1)))
                } else if at_char(s, pos, '(') {
                    match expr_spec(s, pos + 1, 1) {
                        Ok((x, end)) => if at_char(s, end, ')') {
                            Ok((x, end + 1))
                        } else {
                            Err(ColorError::SyntaxError(pos as usize))
                        },
                        Err(ColorError::NumericParseError(x)) => Err(ColorError::NumericParseError(x)),
                        Err(_) => Err(ColorError::SyntaxError(pos as usize)),
                    }
                } else {
                    Err(ColorError::SyntaxError(pos as usize))
                },
            }
        },
    }
}

pub open spec fn close_args(s: Seq<char>, p: int, xs: Seq<Expr>) -> Result<(Seq<Expr>, int), ColorError> {
    if at_char(s, p, ')') {
        Ok((xs, p + 1))
    } else {
        Err(ColorError::SyntaxError(p as usize))
    }
}

/// Call arguments after `(`, through `)`.
pub open spec fn call_args_spec(s: Seq<char>, pos: int) -> Result<(Seq<Expr>, int), ColorError>
    decreases s.len() - pos, 5nat,
{
    let first = ws_end(s, pos);
    if !(0 <= pos <= first <= s.len()) {
        Err(ColorError::SyntaxError(0))
    } else {
        match expr_spec(s, first, 1) {
            Err(ColorError::NumericParseError(x)) => Err(ColorError::NumericParseError(x)),
            Err(_) => close_args(s, first, Seq::empty()),
            Ok((x, end)) => if first < end <= s.len() {
                args_rest_spec(s, end, seq![x])
            } else {
                Err(ColorError::SyntaxError(0))
            },
        }
    }
}

/// Further arguments, each after a `,`, then `)`.
pub open spec fn args_rest_spec(s: Seq<char>, p: int, xs: Seq<Expr>) -> Result<(Seq<Expr>, int), ColorError>
    decreases s.len() - p, 6nat,
{
    if !(0 <= p <= s.len()) {
        Err(ColorError::SyntaxError(0))
    } else if at_char(s, p, ',') {
        let q = ws_end(s, p + 1);
        if !(p < q <= s.len()) {
            Err(ColorError::SyntaxError(0))
        } else {
            match expr_spec(s, q, 1) {
                Err(ColorError::NumericParseError(x)) => Err(ColorError::NumericParseError(x)),
                Ok((x, end)) => if q < end <= s.len() {
                    args_rest_spec(s, end, xs.push(x))
                } else {
                    Err(ColorError::SyntaxError(0))
                },
                Err(_) => close_args(s, p, xs),
            }
        }
    } else {
        close_args(s, p, xs)
    }
}

/// A whole text that is one expression.
pub open spec fn color_of(s: Seq<char>) -> Result<Expr, ColorError> {
    if s.len() >= usize::MAX {
        Err(ColorError::SyntaxError(0))
    } else {
        to_end(s, expr_spec(s, 0, 1))
    }
}

pub open spec fn to_end(s: Seq<char>, r: Result<(Expr, int), ColorError>) -> Result<Expr, ColorError> {
    match r {
        Ok((x, end)) => if end == s.len() { Ok(x) } else { Err(ColorError::SyntaxError(end as usize)) },
        Err(e) => Err(e),
    }
}


pub open spec fn close_formals(s: Seq<char>, p: int, names: Seq<Seq<char>>) -> Option<(Seq<Seq<char>>, int)> {
    if at_char(s, p, ')') {
        Some((names, p + 1))
    } else {
        None
    }
}

/// Further formal parameter names, each after a `,`, then `)`.
pub open spec fn formals_rest(s: Seq<char>, p: int, names: Seq<Seq<char>>) -> Option<(Seq<Seq<char>>, int)>
    decreases s.len() - p,
{
    if !(0 <= p <= s.len()) {
        None
    } else if at_char(s, p, ',') {
        let q = ws_end(s, p + 1);
        let e = name_end_at(s, q);
        if p < q < e <= s.len() {
            formals_rest(s, e, names.push(s.subrange(q, e)))
        } else {
            close_formals(s, p, names)
        }
    } else {
        close_formals(s, p, names)
    }
}

/// Formal parameter names after `(`, through `)`.
pub open spec fn formals_spec(s: Seq<char>, pos: int) -> Option<(Seq<Seq<char>>, int)> {
    let p = ws_end(s, pos);
    let e = name_end_at(s, p);
    if e > p {
        formals_rest(s, e, seq![s.subrange(p, e)])
    } else {
        close_formals(s, p, Seq::empty())
    }
}

/// No name occurs twice.
pub open spec fn distinct_names(ns: Seq<Seq<char>>) -> bool {
    forall|i: int, j: int| 0 <= i < j < ns.len() ==> ns[i] != ns[j]
}

/// A whole palette line: `name = expr`, or `fn name(a, b) = expr` whose
/// formal parameter names are all distinct (a repeated name makes the line
/// malformed).
pub open spec fn item_of(s: Seq<char>) -> Result<Item, ColorError> {
    let ne = name_end_at(s, 0);
    let p = ws_end(s, ne);
    let n1 = ws_end(s, 2);
    let fe = name_end_at(s, n1);
    let q = ws_end(s, fe);
    let formals = formals_spec(s, q + 1);
    let (fnames, fend) = match formals {
        Some(x) => x,
        None => (Seq::empty(), 0),
    };
    let q3 = ws_end(s, fend);
    if s.len() >= usize::MAX {
        Err(ColorError::SyntaxError(0))
    } else if ne > 0 && at_char(s, p, '=') {
        match to_end(s, expr_spec(s, ws_end(s, p + 1), 1)) {
            Ok(x) => Ok(Item::Color(s.subrange(0, ne), x)),
            Err(e) => Err(e),
        }
    } else if at_char(s, 0, 'f') && at_char(s, 1, 'n') && n1 > 2 && fe > n1 && at_char(s, q, '(')
        && formals is Some && at_char(s, q3, '=') {
        if !distinct_names(fnames) {
            Err(ColorError::MalformedPaletteLine)
        } else {
            match to_end(s, expr_spec(s, ws_end(s, q3 + 1), 1)) {
                Ok(x) => Ok(Item::Func(s.subrange(n1, fe), fnames, x)),
                Err(e) => Err(e),
            }
        }
    } else {
        Err(ColorError::MalformedPaletteLine)
    }
}


pub open spec fn all_digits(t: Seq<char>) -> bool {
    forall|j: int| 0 <= j < t.len() ==> is_digit(#[trigger] t[j])
}

proof fn lemma_num_run(s: Seq<char>, i: int, e: int)
    requires
        0 <= i <= e <= s.len(),
        forall|j: int| i <= j < e ==> is_digit(#[trigger] s[j]),
        e == s.len() || !is_num_char(s[e]),
    ensures
        run_end(s, i, |c: char| is_num_char(c)) == e,
    decreases e - i,
{
    if i < e {
        lemma_num_run(s, i + 1, e);
    }
}

proof fn lemma_name_run(s: Seq<char>, i: int)
    requires
        0 <= i <= s.len(),
        forall|j: int| i <= j < s.len() ==> is_name_char(#[trigger] s[j]),
    ensures
        name_end_at(s, i) == s.len(),
    decreases s.len() - i,
{
    if i < s.len() {
        lemma_name_run(s, i + 1);
    }
}

proof fn lemma_no_dot(t: Seq<char>)
    requires
        all_digits(t),
    ensures
        dot_index(t) == t.len(),
    decreases t.len(),
{
    if t.len() > 0 {
        let r = t.subrange(1, t.len() as int);
        assert forall|j: int| 0 <= j < r.len() implies is_digit(#[trigger] r[j]) by {
            assert(r[j] == t[j + 1]);
        }
        lemma_no_dot(r);
    }
}

/// A run of digits at `i`, ending at `e`, is read as that whole number.
proof fn lemma_number_digits(s: Seq<char>, i: int, e: int)
    requires
        0 <= i < e <= s.len(),
        forall|j: int| i <= j < e ==> is_digit(#[trigger] s[j]),
        e == s.len() || !is_num_char(s[e]),
        digits_value(s.subrange(i, e)) <= MAX_WHOLE,
    ensures
        number_spec(s, i) == Ok::<(int, int), ColorError>((digits_value(s.subrange(i, e)) * UNIT, e)),
{
    lemma_num_run(s, i, e);
    let t = s.subrange(i, e);
    assert forall|j: int| 0 <= j < t.len() implies is_digit(#[trigger] t[j]) by {
        assert(t[j] == s[i + j]);
    }
    lemma_no_dot(t);
    assert(t.subrange(0, t.len() as int) =~= t);
    assert(dot_index(Seq::<char>::empty()) == 0);
    assert(digits_value(Seq::<char>::empty()) == 0);
    assert(!(s[i] == '+' || s[i] == '-'));
}

/// A literal `L<a>C<b>H<c>`, where `a`, `b` and `c` are runs of digits of
/// whole numbers up to `MAX_WHOLE`, parses to the opaque color with exactly
/// that lightness, chroma and (normalized) hue.
pub proof fn lemma_literal_exact(a: Seq<char>, b: Seq<char>, c: Seq<char>)
    requires
        a.len() > 0 && b.len() > 0 && c.len() > 0,
        all_digits(a) && all_digits(b) && all_digits(c),
        digits_value(a) <= MAX_WHOLE && digits_value(b) <= MAX_WHOLE && digits_value(c) <= MAX_WHOLE,
        a.len() + b.len() + c.len() + 3 < usize::MAX,
    ensures
        color_of(seq!['L'] + a + seq!['C'] + b + seq!['H'] + c) == Ok::<Expr, ColorError>(Expr::Lch(Color {
            l: (digits_value(a) * UNIT) as i64,
            chroma: (digits_value(b) * UNIT) as i64,
            hue: norm_hue(digits_value(c) * UNIT) as i64,
            alpha: UNIT,
        })),
{
    let s = seq!['L'] + a + seq!['C'] + b + seq!['H'] + c;
    let ia = 1int;
    let ib: int = a.len() as int + 2;
    let ic: int = a.len() as int + b.len() as int + 3;
    assert forall|j: int| ia <= j < ib - 1 implies is_digit(#[trigger] s[j]) by {
        assert(s[j] == a[j - 1]);
    }
    assert forall|j: int| ib <= j < ic - 1 implies is_digit(#[trigger] s[j]) by {
        assert(s[j] == b[j - ib]);
    }
    assert forall|j: int| ic <= j < s.len() implies is_digit(#[trigger] s[j]) by {
        assert(s[j] == c[j - ic]);
    }
    assert(s[ib - 1] == 'C' && s[ic - 1] == 'H' && s[0] == 'L');
    assert(s.subrange(ia, ib - 1) =~= a);
    assert(s.subrange(ib, ic - 1) =~= b);
    assert(s.subrange(ic, s.len() as int) =~= c);
    lemma_number_digits(s, ia, ib - 1);
    lemma_number_digits(s, ib, ic - 1);
    lemma_number_digits(s, ic, s.len() as int);
    assert forall|j: int| 0 <= j < s.len() implies is_name_char(#[trigger] s[j]) by {
        if j == 0 || j == ib - 1 || j == ic - 1 {
        } else if j < ib - 1 {
            assert(is_digit(s[j]));
        } else if j < ic - 1 {
            assert(is_digit(s[j]));
        } else {
            assert(is_digit(s[j]));
        }
    }
    lemma_name_run(s, 0);
    assert(ws_end(s, s.len() as int) == s.len());
    assert(call_spec(s, 0) is None);
    let col = Color {
        l: (digits_value(a) * UNIT) as i64,
        chroma: (digits_value(b) * UNIT) as i64,
        hue: norm_hue(digits_value(c) * UNIT) as i64,
        alpha: UNIT,
    };
    assert(lch_spec(s, 1) == Ok::<Option<(Color, int)>, ColorError>(Some((col, s.len() as int))));
    assert(operand_spec(s, 0) == Ok::<(Expr, int), ColorError>((Expr::Lch(col), s.len() as int)));
    assert(step_spec(s, 1, Expr::Lch(col), s.len() as int) == Step::Done);
    assert(expr_spec(s, 0, 1) == Ok::<(Expr, int), ColorError>((Expr::Lch(col), s.len() as int)));
}


/// A text that opens with `(` and never closes it is rejected, with a syntax
/// error at its start unless a malformed number inside is found first.
pub proof fn lemma_unclosed_paren(s: Seq<char>)
    requires
        s.len() > 0,
        s[0] == '(',
        forall|j: int| 0 <= j < s.len() ==> s[j] != ')',
    ensures
        color_of(s) is Err,
        color_of(s) == Err::<Expr, ColorError>(ColorError::SyntaxError(0))
            || color_of(s) matches Err(ColorError::NumericParseError(_)),
{
    assert(name_end_at(s, 0) == 0);
    assert(call_spec(s, 0) is None);
    if let Ok((x, end)) = expr_spec(s, 1, 1) {
        assert(!at_char(s, end, ')'));
    }
}

} // verus!
