//! The perceptual color model, in fixed-point arithmetic.
//!
//! Every quantity (lightness, chroma, hue in degrees, alpha, percentages) is
//! an integer count of millionths. Results that would leave the range of
//! `MAX_MAGNITUDE` stop at its bound.
use vstd::prelude::*;
use vstd::arithmetic::div_mod::{
    lemma_div_is_ordered_by_denominator,
    lemma_div_pos_is_pos,
    lemma_fundamental_div_mod_converse,
    lemma_mod_bound,
};

verus! {

/// Units per whole number.
pub const UNIT: i64 = 1_000_000;

/// Largest magnitude of any quantity, in units (one billion whole units).
pub const MAX_MAGNITUDE: i64 = 1_000_000_000_000_000;

/// A full turn of hue (360 degrees), in units.
pub const TURN: i64 = 360_000_000;

/// Half a turn of hue (180 degrees), in units.
pub const HALF_TURN: i64 = 180_000_000;

/// One hundred, in units: the lightness of white, and a whole percentage.
pub const HUNDRED: i64 = 100_000_000;

/// The chroma that relative saturation moves towards, in units.
pub const MAX_CHROMA: i64 = 128_000_000;

pub open spec fn in_range(x: int) -> bool {
    -MAX_MAGNITUDE <= x <= MAX_MAGNITUDE
}

pub open spec fn clamp_range(x: int) -> int {
    if x > MAX_MAGNITUDE {
        MAX_MAGNITUDE as int
    } else if x < -MAX_MAGNITUDE {
        -MAX_MAGNITUDE
    } else {
        x
    }
}

/// `a / b` rounded to the nearest integer, halves away from zero.
pub open spec fn div_round(a: int, b: int) -> int {
    if a >= 0 {
        (2 * a + b) / (2 * b)
    } else {
        -((-2 * a + b) / (2 * b))
    }
}

/// `x` scaled by the percentage `p` (both in units).
pub open spec fn scale_pct(x: int, p: int) -> int {
    div_round(x * p, HUNDRED as int)
}

/// A hue angle brought into `[0, TURN)`.
pub open spec fn norm_hue(h: int) -> int {
    h % (TURN as int)
}

/// The signed shortest turn from hue `a` to hue `b`, in `(-HALF_TURN, HALF_TURN]`.
pub open spec fn hue_diff(a: int, b: int) -> int {
    let d = b - a;
    if d > HALF_TURN {
        d - TURN
    } else if d <= -HALF_TURN {
        d + TURN
    } else {
        d
    }
}

/// Lightness after a relative lighten by `p` percent: towards white for
/// `p >= 0`, towards black otherwise, never below zero.
pub open spec fn lighten_l(l: int, p: int) -> int {
    let diff = if p >= 0 { HUNDRED - l } else { l };
    let delta = scale_pct(if diff > 0 { diff } else { 0 }, p);
    let r = l + delta;
    if r < 0 { 0 } else { clamp_range(r) }
}

/// Chroma after a relative saturate by `p` percent: towards `MAX_CHROMA` for
/// `p >= 0`, towards zero otherwise, never below zero.
pub open spec fn saturate_c(c: int, p: int) -> int {
    let diff = if p >= 0 { MAX_CHROMA - c } else { c };
    let delta = scale_pct(if diff > 0 { diff } else { 0 }, p);
    let r = c + delta;
    if r < 0 { 0 } else { clamp_range(r) }
}

/// Linear interpolation from `a` to `b` by `p` percent, unclamped in `p`.
pub open spec fn lerp(a: int, b: int, p: int) -> int {
    clamp_range(a + scale_pct(b - a, p))
}

/// A color: lightness, chroma, hue (degrees) and alpha (1 is opaque), each in units.
#[derive(Clone, Copy, Debug, PartialEq, Eq, Structural)]
pub struct Color {
    pub l: i64,
    pub chroma: i64,
    pub hue: i64,
    pub alpha: i64,
}

impl Color {
    /// Each channel in range, and the hue normalized into `[0, TURN)`.
    pub open spec fn wf(self) -> bool {
        &&& in_range(self.l as int)
        &&& in_range(self.chroma as int)
        &&& 0 <= self.hue < TURN
        &&& in_range(self.alpha as int)
    }

    pub open spec fn with_l_spec(self, l: int) -> Color {
        Color { l: l as i64, chroma: self.chroma, hue: self.hue, alpha: self.alpha }
    }

    pub open spec fn with_chroma_spec(self, c: int) -> Color {
        Color { l: self.l, chroma: c as i64, hue: self.hue, alpha: self.alpha }
    }

    pub open spec fn with_hue_spec(self, h: int) -> Color {
        Color { l: self.l, chroma: self.chroma, hue: h as i64, alpha: self.alpha }
    }

    pub open spec fn with_alpha_spec(self, a: int) -> Color {
        Color { l: self.l, chroma: self.chroma, hue: self.hue, alpha: a as i64 }
    }

    pub open spec fn lightened(self, p: int) -> Color {
        self.with_l_spec(lighten_l(self.l as int, p))
    }

    pub open spec fn saturated(self, p: int) -> Color {
        self.with_chroma_spec(saturate_c(self.chroma as int, p))
    }

    /// Alpha set to `p` percent.
    pub open spec fn alpha_pct(self, p: int) -> Color {
        self.with_alpha_spec(div_round(p, 100))
    }

    /// Hue turned by half a turn.
    pub open spec fn complemented(self) -> Color {
        self.with_hue_spec(norm_hue(self.hue + HALF_TURN))
    }

    /// Each channel interpolated from `self` to `o` by `p` percent; the hue
    /// along the shorter way round.
    pub open spec fn mixed(self, o: Color, p: int) -> Color {
        Color {
            l: lerp(self.l as int, o.l as int, p) as i64,
            chroma: lerp(self.chroma as int, o.chroma as int, p) as i64,
            hue: norm_hue(self.hue + scale_pct(hue_diff(self.hue as int, o.hue as int), p)) as i64,
            alpha: lerp(self.alpha as int, o.alpha as int, p) as i64,
        }
    }
}


/// Bound on the products that the operations divide.
const PRODUCT_BOUND: i128 = 4_000_000_000_000_000_000_000_000_000_000;

proof fn lemma_div_round_bound(a: int, b: int)
    requires
        0 < b,
    ensures
        -2 * (if a >= 0 { a } else { -a }) - b <= div_round(a, b) <= 2 * (if a >= 0 { a } else { -a }) + b,
{
    let n = if a >= 0 { 2 * a + b } else { -2 * a + b };
    lemma_div_is_ordered_by_denominator(n, 1, 2 * b);
    lemma_div_pos_is_pos(n, 2 * b);
}

fn div_round_exec(a: i128, b: i128) -> (r: i128)
    requires
        0 < b <= HUNDRED,
        -PRODUCT_BOUND <= a <= PRODUCT_BOUND,
    ensures
        r == div_round(a as int, b as int),
{
    proof {
        lemma_div_round_bound(a as int, b as int);
    }
    if a >= 0 {
        (2 * a + b) / (2 * b)
    } else {
        -((-2 * a + b) / (2 * b))
    }
}

fn scale_pct_exec(x: i128, p: i64) -> (r: i128)
    requires
        -4 * MAX_MAGNITUDE <= x <= 4 * MAX_MAGNITUDE,
        in_range(p as int),
    ensures
        r == scale_pct(x as int, p as int),
        -100_000_000_000_000_000_000_000 <= r <= 100_000_000_000_000_000_000_000,
{
    let pw = p as i128;
    assert(-PRODUCT_BOUND <= x * pw <= PRODUCT_BOUND) by (nonlinear_arith)
        requires
            -4 * MAX_MAGNITUDE <= x <= 4 * MAX_MAGNITUDE,
            -MAX_MAGNITUDE <= pw <= MAX_MAGNITUDE,
    ;
    let r = div_round_exec(x * pw, HUNDRED as i128);
    proof {
        let a = x * pw;
        let n = if a >= 0 { 2 * a + HUNDRED } else { -2 * a + HUNDRED };
        lemma_div_pos_is_pos(n, 2 * HUNDRED);
        vstd::arithmetic::div_mod::lemma_div_is_ordered(n, 10 * PRODUCT_BOUND, 2 * HUNDRED);
    }
    r
}

fn clamp_exec(x: i128) -> (r: i64)
    ensures
        r == clamp_range(x as int),
{
    if x > MAX_MAGNITUDE as i128 {
        MAX_MAGNITUDE
    } else if x < -MAX_MAGNITUDE as i128 {
        -MAX_MAGNITUDE
    } else {
        x as i64
    }
}

fn norm_hue_exec(h: i128) -> (r: i64)
    requires
        -PRODUCT_BOUND <= h <= PRODUCT_BOUND,
    ensures
        r == norm_hue(h as int),
        0 <= r < TURN,
{
    let t = TURN as i128;
    proof {
        lemma_mod_bound(h as int, t as int);
    }
    if h >= 0 {
        (h % t) as i64
    } else {
        let m = (-h) % t;
        proof {
            lemma_mod_bound(-h as int, t as int);
            let q = (-h as int) / (t as int);
            vstd::arithmetic::div_mod::lemma_fundamental_div_mod(-h as int, t as int);
            if m == 0 {
                lemma_fundamental_div_mod_converse(h as int, t as int, -q, 0);
            } else {
                assert(h == (-q - 1) * t + (t - m)) by (nonlinear_arith)
                    requires
                        -h == t * q + m,
                ;
                lemma_fundamental_div_mod_converse(h as int, t as int, -q - 1, t - m);
            }
        }
        if m == 0 {
            0
        } else {
            (t - m) as i64
        }
    }
}

impl Color {
    /// A color from lightness, chroma and hue, opaque; the hue is normalized.
    pub fn new(l: i64, chroma: i64, hue: i64) -> (r: Color)
        requires
            in_range(l as int),
            in_range(chroma as int),
            in_range(hue as int),
        ensures
            r.wf(),
            r == (Color { l, chroma, hue: norm_hue(hue as int) as i64, alpha: UNIT }),
    {
        Color { l, chroma, hue: norm_hue_exec(hue as i128), alpha: UNIT }
    }

    /// Relative lighten by `p` percent.
    pub fn lighten(&self, p: i64) -> (r: Color)
        requires
            self.wf(),
            in_range(p as int),
        ensures
            r.wf(),
            r == self.lightened(p as int),
    {
        let l = self.l as i128;
        let diff: i128 = if p >= 0 { HUNDRED as i128 - l } else { l };
        let d: i128 = if diff > 0 { diff } else { 0 };
        let v = l + scale_pct_exec(d, p);
        let nl: i64 = if v < 0 { 0 } else { clamp_exec(v) };
        Color { l: nl, chroma: self.chroma, hue: self.hue, alpha: self.alpha }
    }

    /// Relative saturate by `p` percent.
    pub fn saturate(&self, p: i64) -> (r: Color)
        requires
            self.wf(),
            in_range(p as int),
        ensures
            r.wf(),
            r == self.saturated(p as int),
    {
        let c = self.chroma as i128;
        let diff: i128 = if p >= 0 { MAX_CHROMA as i128 - c } else { c };
        let d: i128 = if diff > 0 { diff } else { 0 };
        let v = c + scale_pct_exec(d, p);
        let nc: i64 = if v < 0 { 0 } else { clamp_exec(v) };
        Color { l: self.l, chroma: nc, hue: self.hue, alpha: self.alpha }
    }

    /// Lightness set to `v`.
    pub fn set_lightness(&self, v: i64) -> (r: Color)
        requires
            self.wf(),
            in_range(v as int),
        ensures
            r.wf(),
            r == self.with_l_spec(v as int),
    {
        Color { l: v, chroma: self.chroma, hue: self.hue, alpha: self.alpha }
    }

    /// Chroma set to `v`.
    pub fn set_chroma(&self, v: i64) -> (r: Color)
        requires
            self.wf(),
            in_range(v as int),
        ensures
            r.wf(),
            r == self.with_chroma_spec(v as int),
    {
        Color { l: self.l, chroma: v, hue: self.hue, alpha: self.alpha }
    }

    /// Alpha set to `p` percent.
    pub fn set_alpha(&self, p: i64) -> (r: Color)
        requires
            self.wf(),
            in_range(p as int),
        ensures
            r.wf(),
            r == self.alpha_pct(p as int),
    {
        let a = div_round_exec(p as i128, 100);
        proof {
            lemma_div_is_ordered_by_denominator(if p >= 0 { 2 * p + 100 } else { -2 * p + 100 }, 1, 200);
        }
        Color { l: self.l, chroma: self.chroma, hue: self.hue, alpha: a as i64 }
    }

    /// Hue turned by half a turn.
    pub fn complement(&self) -> (r: Color)
        requires
            self.wf(),
        ensures
            r.wf(),
            r == self.complemented(),
    {
        let h = norm_hue_exec(self.hue as i128 + HALF_TURN as i128);
        Color { l: self.l, chroma: self.chroma, hue: h, alpha: self.alpha }
    }

    /// Interpolation from `self` to `o` by `p` percent.
    pub fn mix(&self, o: &Color, p: i64) -> (r: Color)
        requires
            self.wf(),
            o.wf(),
            in_range(p as int),
        ensures
            r.wf(),
            r == self.mixed(*o, p as int),
    {
        let l = clamp_exec(self.l as i128 + scale_pct_exec(o.l as i128 - self.l as i128, p));
        let c = clamp_exec(
            self.chroma as i128 + scale_pct_exec(o.chroma as i128 - self.chroma as i128, p),
        );
        let a = clamp_exec(
            self.alpha as i128 + scale_pct_exec(o.alpha as i128 - self.alpha as i128, p),
        );
        let d0 = o.hue as i128 - self.hue as i128;
        let d: i128 = if d0 > HALF_TURN as i128 {
            d0 - TURN as i128
        } else if d0 <= -HALF_TURN as i128 {
            d0 + TURN as i128
        } else {
            d0
        };
        let h = norm_hue_exec(self.hue as i128 + scale_pct_exec(d, p));
        Color { l, chroma: c, hue: h, alpha: a }
    }
}


proof fn lemma_norm_hue_range(h: int)
    ensures
        0 <= norm_hue(h) < TURN,
{
    lemma_mod_bound(h, TURN as int);
}

/// Every operation on well-formed colors, with an in-range amount, gives a
/// well-formed color.
pub proof fn lemma_ops_wf(c: Color, o: Color, p: int)
    requires
        c.wf(),
        o.wf(),
        in_range(p),
    ensures
        c.lightened(p).wf(),
        c.saturated(p).wf(),
        c.with_l_spec(p).wf(),
        c.with_chroma_spec(p).wf(),
        c.alpha_pct(p).wf(),
        c.complemented().wf(),
        c.mixed(o, p).wf(),
{
    lemma_norm_hue_range(c.hue + HALF_TURN);
    lemma_norm_hue_range(c.hue + scale_pct(hue_diff(c.hue as int, o.hue as int), p));
    let n = if p >= 0 { 2 * p + 100 } else { -2 * p + 100 };
    lemma_div_pos_is_pos(n, 200);
    vstd::arithmetic::div_mod::lemma_div_is_ordered(n, 2 * MAX_MAGNITUDE + 100, 200);
}

/// Complementing twice gives back the color.
pub proof fn lemma_complement_twice(c: Color)
    requires
        c.wf(),
    ensures
        c.complemented().complemented() == c,
{
    let h = c.hue as int;
    if h < HALF_TURN {
        lemma_fundamental_div_mod_converse(h + HALF_TURN, TURN as int, 0, h + HALF_TURN);
        lemma_fundamental_div_mod_converse(h + TURN, TURN as int, 1, h);
    } else {
        lemma_fundamental_div_mod_converse(h + HALF_TURN, TURN as int, 1, h - HALF_TURN);
        lemma_fundamental_div_mod_converse(h, TURN as int, 0, h);
    }
}

proof fn lemma_scale_whole(k: int)
    ensures
        scale_pct(k, HUNDRED as int) == k,
        scale_pct(k, 0) == 0,
{
    let b = HUNDRED as int;
    if k >= 0 {
        lemma_fundamental_div_mod_converse(2 * (k * b) + b, 2 * b, k, b);
    } else {
        lemma_fundamental_div_mod_converse(-2 * (k * b) + b, 2 * b, -k, b);
    }
    lemma_fundamental_div_mod_converse(b, 2 * b, 0, b);
}

/// Mixing by zero percent gives the first color, by a hundred percent the second.
pub proof fn lemma_mix_ends(a: Color, b: Color)
    requires
        a.wf(),
        b.wf(),
    ensures
        a.mixed(b, 0) == a,
        a.mixed(b, HUNDRED as int) == b,
{
    lemma_scale_whole(b.l - a.l);
    lemma_scale_whole(b.chroma - a.chroma);
    lemma_scale_whole(b.alpha - a.alpha);
    let d = hue_diff(a.hue as int, b.hue as int);
    lemma_scale_whole(d);
    lemma_fundamental_div_mod_converse(a.hue as int, TURN as int, 0, a.hue as int);
    let h = a.hue + d;
    if h < 0 {
        lemma_fundamental_div_mod_converse(h, TURN as int, -1, b.hue as int);
    } else if h >= TURN {
        lemma_fundamental_div_mod_converse(h, TURN as int, 1, b.hue as int);
    } else {
        lemma_fundamental_div_mod_converse(h, TURN as int, 0, b.hue as int);
    }
}

} // verus!
