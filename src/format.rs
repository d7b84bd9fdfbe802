//! Textual renderings of a resolved color.
use vstd::prelude::*;
use crate::color::{Color, UNIT};

verus! {

/// Red, green, blue and alpha channels.
#[derive(Clone, Copy, Debug, PartialEq, Eq, Structural)]
pub struct Rgba<T> {
    pub r: T,
    pub g: T,
    pub b: T,
    pub a: T,
}

/// A color quantized for display: gamma-corrected and linear-light channels
/// at eight bits, and the gamma-corrected channels in hundredths of a
/// percent with alpha in hundredths.
#[derive(Clone, Copy, Debug, PartialEq, Eq, Structural)]
pub struct DeviceColor {
    pub srgb: Rgba<u8>,
    pub linear: Rgba<u8>,
    pub css: Rgba<u32>,
}

/// The textual representation to render.
#[derive(Clone, Copy, Debug, PartialEq, Eq, Structural)]
pub enum ColorOutputRep {
    /// `#rrggbb`, gamma-corrected; with alpha first when the flag is set.
    Hash(bool),
    /// `#rrggbb`, linear light; with alpha first when the flag is set.
    LinHash(bool),
    /// `rgb(r%, g%, b%)`.
    CssRgb,
    /// `lch(l% c h)`.
    CssLch,
}

pub open spec fn digit_char(d: int) -> char {
    if d == 0 { '0' } else if d == 1 { '1' } else if d == 2 { '2' } else if d == 3 { '3' }
    else if d == 4 { '4' } else if d == 5 { '5' } else if d == 6 { '6' } else if d == 7 { '7' }
    else if d == 8 { '8' } else if d == 9 { '9' } else if d == 10 { 'a' } else if d == 11 { 'b' }
    else if d == 12 { 'c' } else if d == 13 { 'd' } else if d == 14 { 'e' } else { 'f' }
}

/// Two lower-case hex digits of a byte.
pub open spec fn hex2(b: u8) -> Seq<char> {
    seq![digit_char(b as int / 16), digit_char(b as int % 16)]
}

/// The decimal digits of `n`.
pub open spec fn decimal(n: nat) -> Seq<char>
    decreases n,
{
    if n < 10 {
        seq![digit_char(n as int)]
    } else {
        decimal(n / 10).push(digit_char((n % 10) as int))
    }
}

/// The last `k` decimal digits of `f`, zero-padded.
pub open spec fn padded(f: nat, k: nat) -> Seq<char>
    decreases k,
{
    if k == 0 {
        Seq::empty()
    } else {
        padded(f / 10, (k - 1) as nat).push(digit_char((f % 10) as int))
    }
}

/// The last `k` decimal digits of `f` with trailing zeros removed.
pub open spec fn trimmed(f: nat, k: nat) -> Seq<char>
    decreases k,
{
    if k == 0 {
        Seq::empty()
    } else if f % 10 == 0 {
        trimmed(f / 10, (k - 1) as nat)
    } else {
        padded(f, k)
    }
}

/// A quantity of units written as a shortest decimal: `55`, `12.5`, `-0.25`.
pub open spec fn units_text(v: int) -> Seq<char> {
    let m = if v < 0 { -v } else { v };
    let sign = if v < 0 { seq!['-'] } else { Seq::empty() };
    let whole = decimal((m / UNIT as int) as nat);
    let frac = (m % UNIT as int) as nat;
    if frac == 0 {
        sign + whole
    } else {
        sign + whole + seq!['.'] + trimmed(frac, 6)
    }
}

/// Hundredths written with two decimals: `12.50`.
pub open spec fn hundredths_text(v: nat) -> Seq<char> {
    decimal(v / 100) + seq!['.'] + padded(v % 100, 2)
}

pub open spec fn hex_text(c: Rgba<u8>, with_alpha: bool, alpha_first: bool) -> Seq<char> {
    let rgb = hex2(c.r) + hex2(c.g) + hex2(c.b);
    if !with_alpha {
        seq!['#'] + rgb
    } else if alpha_first {
        seq!['#'] + hex2(c.a) + rgb
    } else {
        seq!['#'] + rgb + hex2(c.a)
    }
}

/// The text of a color in a representation.
pub open spec fn color_text(col: Color, dev: DeviceColor, rep: ColorOutputRep, with_alpha: bool) -> Seq<char> {
    match rep {
        ColorOutputRep::Hash(first) => hex_text(dev.srgb, with_alpha, first),
        ColorOutputRep::LinHash(first) => hex_text(dev.linear, with_alpha, first),
        ColorOutputRep::CssRgb => {
            let channels = hundredths_text(dev.css.r as nat) + "%, "@ + hundredths_text(dev.css.g as nat)
                + "%, "@ + hundredths_text(dev.css.b as nat) + seq!['%'];
            if with_alpha {
                "rgba("@ + channels + ", "@ + hundredths_text(dev.css.a as nat) + seq![')']
            } else {
                "rgb("@ + channels + seq![')']
            }
        },
        ColorOutputRep::CssLch => {
            let body = units_text(col.l as int) + "% "@ + units_text(col.chroma as int) + seq![' ']
                + units_text(col.hue as int);
            if with_alpha {
                "lch("@ + body + " / "@ + units_text(col.alpha as int) + seq![')']
            } else {
                "lch("@ + body + seq![')']
            }
        },
    }
}

fn push_digit(out: &mut String, d: u64)
    requires
        d < 16,
    ensures
        final(out)@ == old(out)@.push(digit_char(d as int)),
{
    let digits = "0123456789abcdef";
    proof {
        reveal_strlit("0123456789abcdef");
    }
    let one = digits.substring_char(d as usize, d as usize + 1);
    assert(one@ =~= seq![digit_char(d as int)]);
    out.append(one);
}

fn push_decimal(out: &mut String, n: u64)
    ensures
        final(out)@ == old(out)@ + decimal(n as nat),
    decreases n,
{
    if n >= 10 {
        push_decimal(out, n / 10);
    }
    push_digit(out, n % 10);
    assert(final(out)@ =~= old(out)@ + decimal(n as nat));
}


fn push_padded(out: &mut String, f: u64, k: u64)
    ensures
        final(out)@ == old(out)@ + padded(f as nat, k as nat),
    decreases k,
{
    if k > 0 {
        push_padded(out, f / 10, k - 1);
        push_digit(out, f % 10);
        assert(final(out)@ =~= old(out)@ + padded(f as nat, k as nat));
    } else {
        assert(final(out)@ =~= old(out)@ + padded(f as nat, k as nat));
    }
}

fn push_trimmed(out: &mut String, f: u64, k: u64)
    ensures
        final(out)@ == old(out)@ + trimmed(f as nat, k as nat),
    decreases k,
{
    if k == 0 {
        assert(final(out)@ =~= old(out)@ + trimmed(f as nat, k as nat));
    } else if f % 10 == 0 {
        push_trimmed(out, f / 10, k - 1);
    } else {
        push_padded(out, f, k);
    }
}

fn push_hex2(out: &mut String, b: u8)
    ensures
        final(out)@ == old(out)@ + hex2(b),
{
    push_digit(out, (b / 16) as u64);
    push_digit(out, (b % 16) as u64);
    assert(final(out)@ =~= old(out)@ + hex2(b));
}

fn push_units(out: &mut String, v: i64)
    requires
        v > i64::MIN,
    ensures
        final(out)@ == old(out)@ + units_text(v as int),
{
    let m: u64 = if v < 0 { (-v) as u64 } else { v as u64 };
    if v < 0 {
        out.append("-");
        proof {
            reveal_strlit("-");
        }
    }
    let ghost mid = out@;
    push_decimal(out, m / UNIT as u64);
    let frac = m % UNIT as u64;
    if frac != 0 {
        out.append(".");
        proof {
            reveal_strlit(".");
        }
        push_trimmed(out, frac, 6);
    }
    let ghost sign: Seq<char> = if v < 0 { seq!['-'] } else { Seq::empty() };
    assert(mid =~= old(out)@ + sign);
    assert(final(out)@ =~= old(out)@ + units_text(v as int));
}

fn push_hundredths(out: &mut String, v: u32)
    ensures
        final(out)@ == old(out)@ + hundredths_text(v as nat),
{
    push_decimal(out, (v / 100) as u64);
    out.append(".");
    proof {
        reveal_strlit(".");
    }
    push_padded(out, (v % 100) as u64, 2);
    assert(final(out)@ =~= old(out)@ + hundredths_text(v as nat));
}

fn push_hex_color(out: &mut String, c: &Rgba<u8>, with_alpha: bool, alpha_first: bool)
    requires
        old(out)@ == Seq::<char>::empty(),
    ensures
        final(out)@ == hex_text(*c, with_alpha, alpha_first),
{
    out.append("#");
    proof {
        reveal_strlit("#");
    }
    if with_alpha && alpha_first {
        push_hex2(out, c.a);
    }
    push_hex2(out, c.r);
    push_hex2(out, c.g);
    push_hex2(out, c.b);
    if with_alpha && !alpha_first {
        push_hex2(out, c.a);
    }
    assert(final(out)@ =~= hex_text(*c, with_alpha, alpha_first));
}

/// Renders a resolved color, given its quantization for display, in the
/// representation `output_type`, with or without its alpha.
pub fn fmt_color(col: &Color, dev: &DeviceColor, output_type: ColorOutputRep, with_alpha: bool) -> (r: String)
    requires
        col.wf(),
    ensures
        r@ == color_text(*col, *dev, output_type, with_alpha),
{
    let mut out = String::new();
    match output_type {
        ColorOutputRep::Hash(first) => {
            push_hex_color(&mut out, &dev.srgb, with_alpha, first);
        },
        ColorOutputRep::LinHash(first) => {
            push_hex_color(&mut out, &dev.linear, with_alpha, first);
        },
        ColorOutputRep::CssRgb => {
            if with_alpha {
                out.append("rgba(");
            } else {
                out.append("rgb(");
            }
            let ghost head = out@;
            push_hundredths(&mut out, dev.css.r);
            out.append("%, ");
            push_hundredths(&mut out, dev.css.g);
            out.append("%, ");
            push_hundredths(&mut out, dev.css.b);
            out.append("%");
            proof {
                reveal_strlit("%");
            }
            if with_alpha {
                out.append(", ");
                push_hundredths(&mut out, dev.css.a);
            }
            out.append(")");
            proof {
                reveal_strlit(")");
            }
            assert(out@ =~= color_text(*col, *dev, output_type, with_alpha));
        },
        ColorOutputRep::CssLch => {
            out.append("lch(");
            push_units(&mut out, col.l);
            out.append("% ");
            push_units(&mut out, col.chroma);
            out.append(" ");
            proof {
                reveal_strlit(" ");
            }
            push_units(&mut out, col.hue);
            if with_alpha {
                out.append(" / ");
                push_units(&mut out, col.alpha);
            }
            out.append(")");
            proof {
                reveal_strlit(")");
            }
            assert(out@ =~= color_text(*col, *dev, output_type, with_alpha));
        },
    }
    out
}

} // verus!
