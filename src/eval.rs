//! Evaluating one expression against a palette, and choosing its rendering.
use vstd::prelude::*;
use crate::color::Color;
use crate::format::ColorOutputRep;
use crate::grammar::{color_of, matches_expr};
use crate::palette::{value_of, ColorError, ColorSpec, Palette, MAX_CALL_DEPTH};
use crate::parser::parse_color;

verus! {

/// Why an expression given on its own could not be evaluated.
#[derive(Debug)]
pub enum EvalError {
    Color(ColorError),
    /// The output format names no representation.
    InvalidFormat,
}

/// The representation named by an output format: its first character
/// selects it (`#` hex, `~` linear hex, `$` CSS rgb, `!` CSS lch), and a
/// second character `a` asks for alpha.
pub open spec fn format_of(f: Seq<char>) -> Option<(ColorOutputRep, bool)> {
    if f.len() == 0 {
        None
    } else {
        let alpha = f.len() > 1 && f[1] == 'a';
        let c = f[0];
        if c == '#' {
            Some((ColorOutputRep::Hash(false), alpha))
        } else if c == '~' {
            Some((ColorOutputRep::LinHash(false), alpha))
        } else if c == '$' {
            Some((ColorOutputRep::CssRgb, alpha))
        } else if c == '!' {
            Some((ColorOutputRep::CssLch, alpha))
        } else {
            None
        }
    }
}

/// The representation selected by the marker of a template tag: an optional
/// alpha flag (`a`, or `A` for alpha first) and a selector character.
pub open spec fn tag_format_of(alpha: Option<char>, selector: char) -> Option<(ColorOutputRep, bool)> {
    let first = alpha == Some('A');
    let with_alpha = alpha is Some;
    if alpha is Some && alpha != Some('a') && alpha != Some('A') {
        None
    } else if selector == '#' {
        Some((ColorOutputRep::Hash(first), with_alpha))
    } else if selector == '~' {
        Some((ColorOutputRep::LinHash(first), with_alpha))
    } else if selector == '$' {
        Some((ColorOutputRep::CssRgb, with_alpha))
    } else if selector == '!' {
        Some((ColorOutputRep::CssLch, with_alpha))
    } else {
        None
    }
}

/// The representation and alpha flag named by an output format.
pub fn output_format(f: &str) -> (r: Option<(ColorOutputRep, bool)>)
    ensures
        r == format_of(f@),
{
    let n = f.unicode_len();
    if n == 0 {
        return None;
    }
    let alpha = n > 1 && f.get_char(1) == 'a';
    let c = f.get_char(0);
    if c == '#' {
        Some((ColorOutputRep::Hash(false), alpha))
    } else if c == '~' {
        Some((ColorOutputRep::LinHash(false), alpha))
    } else if c == '$' {
        Some((ColorOutputRep::CssRgb, alpha))
    } else if c == '!' {
        Some((ColorOutputRep::CssLch, alpha))
    } else {
        None
    }
}

/// The representation and alpha flag selected by a template tag's marker.
pub fn tag_format(alpha: Option<char>, selector: char) -> (r: Option<(ColorOutputRep, bool)>)
    ensures
        r == tag_format_of(alpha, selector),
{
    let first = match alpha {
        Some(a) => {
            if a != 'a' && a != 'A' {
                return None;
            }
            a == 'A'
        },
        None => false,
    };
    let with_alpha = alpha.is_some();
    if selector == '#' {
        Some((ColorOutputRep::Hash(first), with_alpha))
    } else if selector == '~' {
        Some((ColorOutputRep::LinHash(first), with_alpha))
    } else if selector == '$' {
        Some((ColorOutputRep::CssRgb, with_alpha))
    } else if selector == '!' {
        Some((ColorOutputRep::CssLch, with_alpha))
    } else {
        None
    }
}

/// The outcome of an evaluation whose value is `v`, rendered per `f`.
pub open spec fn evaluated(v: Result<Color, ColorError>, f: Seq<char>) -> Result<(Color, ColorOutputRep, bool), EvalError> {
    match v {
        Err(e) => Err(EvalError::Color(e)),
        Ok(c) => match format_of(f) {
            Some((rep, a)) => Ok((c, rep, a)),
            None => Err(EvalError::InvalidFormat),
        },
    }
}

/// Parses and resolves an expression against a palette, then reads the
/// output format; a failure to parse or resolve comes before a bad format.
pub fn eval(palette: &Palette, expr: &str, output_format_text: &str) -> (r: Result<(Color, ColorOutputRep, bool), EvalError>)
    requires
        palette.wf(),
    ensures
        match color_of(expr@) {
            Err(e) => r == Err::<(Color, ColorOutputRep, bool), EvalError>(EvalError::Color(e)),
            Ok(x) => exists|e: ColorSpec| #[trigger] matches_expr(e, x) && e.wf()
                && r == evaluated(value_of(e, palette.table(), Seq::empty(), MAX_CALL_DEPTH as nat), output_format_text@),
        },
        r matches Ok((c, rep, a)) ==> c.wf(),
{
    let spec = match parse_color(expr) {
        Ok(s) => s,
        Err(e) => return Err(EvalError::Color(e)),
    };
    let ghost x = color_of(expr@)->Ok_0;
    assert(matches_expr(spec, x));
    let color = match spec.resolve(palette) {
        Ok(c) => c,
        Err(e) => return Err(EvalError::Color(e)),
    };
    match output_format(output_format_text) {
        Some((rep, a)) => Ok((color, rep, a)),
        None => Err(EvalError::InvalidFormat),
    }
}

} // verus!
