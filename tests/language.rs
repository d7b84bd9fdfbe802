use palette::{Clamp, FromColor};
use unipalette::color::{Color, UNIT};
use unipalette::eval::{eval, output_format, tag_format, EvalError};
use unipalette::format::{fmt_color, ColorOutputRep, DeviceColor, Rgba};
use unipalette::palette::{read_palette, ColorError, ColorSpec, Palette, PaletteItem};
use unipalette::parser::{dollar_names, parse_color, parse_palette_line};

fn lch(l: i64, c: i64, h: i64) -> Color {
    Color::new(l * UNIT, c * UNIT, h * UNIT)
}

fn named() -> Vec<(String, Color)> {
    vec![
        ("red".to_string(), lch(54, 106, 40)),
        ("blue".to_string(), lch(30, 134, 306)),
    ]
}

fn resolve_in(p: &Palette, expr: &str) -> Result<Color, ColorError> {
    parse_color(expr).unwrap().resolve(p)
}

fn device() -> DeviceColor {
    DeviceColor {
        srgb: Rgba { r: 0x12, g: 0xab, b: 0xff, a: 0x80 },
        linear: Rgba { r: 1, g: 2, b: 3, a: 4 },
        css: Rgba { r: 1250, g: 10000, b: 5, a: 50 },
    }
}

#[test]
fn literal_is_exact() {
    let p = Palette::new(named());
    assert_eq!(resolve_in(&p, "L50C20H30").unwrap(), lch(50, 20, 30));
    assert_eq!(resolve_in(&p, "l12.5c0.25h-90").unwrap(), Color { l: 12_500_000, chroma: 250_000, hue: 270 * UNIT, alpha: UNIT });
}

#[test]
fn lighten_derives_from_earlier_line() {
    let p = read_palette("base = L50C20H30\nlight = base li 10", named()).unwrap();
    assert_eq!(p.color("light"), Some(lch(55, 20, 30)));
    assert_eq!(p.color("base"), Some(lch(50, 20, 30)));
}

#[test]
fn darken_and_saturate() {
    let p = Palette::new(named());
    assert_eq!(resolve_in(&p, "L50C20H0 li -50").unwrap(), lch(25, 20, 0));
    assert_eq!(resolve_in(&p, "L50C20H0 st 50").unwrap(), lch(50, 74, 0));
    assert_eq!(resolve_in(&p, "L50C20H0 st -50").unwrap(), lch(50, 10, 0));
    assert_eq!(resolve_in(&p, "L50C20H0 ch 7").unwrap(), lch(50, 7, 0));
    assert_eq!(resolve_in(&p, "L50C20H0 li=80").unwrap(), lch(80, 20, 0));
    assert_eq!(resolve_in(&p, "L50C20H0 a50").unwrap().alpha, UNIT / 2);
}

#[test]
fn complement_turns_hue_and_twice_restores() {
    let p = Palette::new(named());
    assert_eq!(resolve_in(&p, "~L50C20H30").unwrap(), lch(50, 20, 210));
    assert_eq!(resolve_in(&p, "~~L50C20H300").unwrap(), lch(50, 20, 300));
}

#[test]
fn mix_takes_short_way_round_hue() {
    let p = Palette::new(named());
    assert_eq!(resolve_in(&p, "L0C0H350 *50* L100C40H10").unwrap(), lch(50, 20, 0));
}

#[test]
fn mix_endpoints() {
    let p = Palette::new(named());
    assert_eq!(resolve_in(&p, "L10C20H30 *0* L70C80H90").unwrap(), lch(10, 20, 30));
    assert_eq!(resolve_in(&p, "L10C20H30 *100* L70C80H90").unwrap(), lch(70, 80, 90));
}

#[test]
fn function_mix_matches_direct_mix() {
    let p = read_palette("fn mixed(a,b) = a *50* b", named()).unwrap();
    let via_fn = resolve_in(&p, "mixed($red, $blue)").unwrap();
    let direct = resolve_in(&p, "$red *50* $blue").unwrap();
    assert_eq!(via_fn, direct);
}

#[test]
fn unknown_identifier_fails_palette() {
    let e = read_palette("a = L1C1H1\nb = nope li 5", named()).unwrap_err();
    assert_eq!(e.line, 1);
    assert!(matches!(e.error, ColorError::UnknownIdentifier(ref n) if n == "nope"));
}

#[test]
fn unknown_identifier_leaves_palette_unchanged() {
    let mut p = Palette::new(named());
    let item = parse_palette_line("b = nope").unwrap();
    assert!(matches!(p.add_item(item), Err(ColorError::UnknownIdentifier(_))));
    assert!(p.colors.is_empty());
}

#[test]
fn function_sees_later_colors() {
    let p = read_palette("fn f() = later\nlater = L10C10H10\nuse = f()", named()).unwrap();
    assert_eq!(p.color("use"), Some(lch(10, 10, 10)));
}

#[test]
fn function_defined_later_is_unknown() {
    let e = read_palette("x = g()\nfn g() = L1C1H1", named()).unwrap_err();
    assert_eq!(e.line, 0);
    assert!(matches!(e.error, ColorError::UnknownFunction(ref n) if n == "g"));
}

#[test]
fn arguments_are_local_to_the_call() {
    let p = read_palette("a = L1C1H1\nfn f(a) = a\nfn g(x) = a", named()).unwrap();
    assert_eq!(resolve_in(&p, "f(L2C2H2)").unwrap(), lch(2, 2, 2));
    assert_eq!(resolve_in(&p, "g(L2C2H2)").unwrap(), lch(1, 1, 1));
}

#[test]
fn extra_and_missing_arguments_are_ignored() {
    let p = read_palette("fn f(a) = L3C3H3\nfn two(a, b) = a", named()).unwrap();
    assert_eq!(resolve_in(&p, "f(L1C1H1, nope)").unwrap(), lch(3, 3, 3));
    assert_eq!(resolve_in(&p, "two(L1C1H1)").unwrap(), lch(1, 1, 1));
}

#[test]
fn runaway_recursion_stops() {
    let p = read_palette("fn f(a) = f(a)", named()).unwrap();
    assert!(matches!(resolve_in(&p, "f(L1C1H1)"), Err(ColorError::CallTooDeep(_))));
}

#[test]
fn unknown_named_color() {
    let p = Palette::new(named());
    assert!(matches!(resolve_in(&p, "$nosuch"), Err(ColorError::UnknownNamedColor(ref n)) if n == "nosuch"));
    assert_eq!(resolve_in(&p, "$red").unwrap(), lch(54, 106, 40));
}

#[test]
fn unbalanced_parentheses_are_syntax_errors() {
    assert!(matches!(parse_color("(L50C0H0"), Err(ColorError::SyntaxError(_))));
    assert!(matches!(parse_color("L50C0H0)"), Err(ColorError::SyntaxError(_))));
    assert!(matches!(parse_color("f(a"), Err(ColorError::SyntaxError(_))));
}

#[test]
fn bad_number_is_numeric_error() {
    assert!(matches!(parse_color("L1.2.3C0H0"), Err(ColorError::NumericParseError(_))));
    assert!(matches!(parse_color("x li 99999999999"), Err(ColorError::NumericParseError(_))));
}

#[test]
fn grammar_shapes() {
    let e = parse_color("base li 10 st 20 a80").unwrap();
    match e {
        ColorSpec::WithAlpha(inner, 80_000_000) => match *inner {
            ColorSpec::Saturate(inner, 20_000_000) => {
                assert!(matches!(*inner, ColorSpec::Shade(_, 10_000_000)))
            }
            other => panic!("unexpected {:?}", other),
        },
        other => panic!("unexpected {:?}", other),
    }
    assert!(matches!(parse_color("~a *50* b").unwrap(), ColorSpec::Complement(_)));
    assert!(matches!(parse_color("a *50* b *50* c").unwrap(), ColorSpec::Mix(_, _, 50_000_000)));
    match parse_color("f($red, (x))").unwrap() {
        ColorSpec::FnCall(n, args) => {
            assert_eq!(n, "f");
            assert_eq!(args.len(), 2);
            assert!(matches!(args[0], ColorSpec::Named(ref s) if s == "red"));
        }
        other => panic!("unexpected {:?}", other),
    }
    assert!(matches!(parse_color("light").unwrap(), ColorSpec::Id(ref s) if s == "light"));
}

#[test]
fn palette_lines() {
    assert!(matches!(parse_palette_line("x = L1C1H1"), Ok(PaletteItem::Color(ref n, _)) if n == "x"));
    match parse_palette_line("fn f(a, b) = a") {
        Ok(PaletteItem::Func(n, f)) => {
            assert_eq!(n, "f");
            assert_eq!(f.args, vec!["a".to_string(), "b".to_string()]);
        }
        _ => panic!("expected a function item"),
    }
    assert!(matches!(parse_palette_line("no equals here"), Err(ColorError::MalformedPaletteLine)));
    assert!(matches!(parse_palette_line("= L1C1H1"), Err(ColorError::MalformedPaletteLine)));
    assert!(matches!(parse_palette_line("x = (L1C1H1"), Err(ColorError::SyntaxError(_))));
}

#[test]
fn comments_and_blank_lines_are_skipped() {
    let p = read_palette("# a comment\n\nx = L1C1H1\r\n", named()).unwrap();
    assert_eq!(p.colors.len(), 1);
    assert_eq!(p.color("x"), Some(lch(1, 1, 1)));
}

#[test]
fn malformed_line_fails_palette() {
    let e = read_palette("x = L1C1H1\nnonsense", named()).unwrap_err();
    assert_eq!(e.line, 1);
    assert!(matches!(e.error, ColorError::MalformedPaletteLine));
}

#[test]
fn hex_forms() {
    let c = lch(50, 0, 0);
    let d = device();
    assert_eq!(fmt_color(&c, &d, ColorOutputRep::Hash(false), false), "#12abff");
    assert_eq!(fmt_color(&c, &d, ColorOutputRep::Hash(false), true), "#12abff80");
    assert_eq!(fmt_color(&c, &d, ColorOutputRep::Hash(true), true), "#8012abff");
    assert_eq!(fmt_color(&c, &d, ColorOutputRep::LinHash(false), false), "#010203");
}

#[test]
fn css_forms() {
    let d = device();
    let c = Color { l: 55 * UNIT, chroma: 12_500_000, hue: 30 * UNIT, alpha: UNIT / 4 };
    assert_eq!(fmt_color(&c, &d, ColorOutputRep::CssRgb, false), "rgb(12.50%, 100.00%, 0.05%)");
    assert_eq!(fmt_color(&c, &d, ColorOutputRep::CssRgb, true), "rgba(12.50%, 100.00%, 0.05%, 0.50)");
    assert_eq!(fmt_color(&c, &d, ColorOutputRep::CssLch, false), "lch(55% 12.5 30)");
    assert_eq!(fmt_color(&c, &d, ColorOutputRep::CssLch, true), "lch(55% 12.5 30 / 0.25)");
    let neg = Color { l: -1_050_000, chroma: 0, hue: 0, alpha: UNIT };
    assert_eq!(fmt_color(&neg, &d, ColorOutputRep::CssLch, false), "lch(-1.05% 0 0)");
}

#[test]
fn output_formats() {
    assert_eq!(output_format("#"), Some((ColorOutputRep::Hash(false), false)));
    assert_eq!(output_format("~a"), Some((ColorOutputRep::LinHash(false), true)));
    assert_eq!(output_format("$"), Some((ColorOutputRep::CssRgb, false)));
    assert_eq!(output_format("!a"), Some((ColorOutputRep::CssLch, true)));
    assert_eq!(output_format("?"), None);
    assert_eq!(output_format(""), None);
    assert_eq!(tag_format(Some('A'), '#'), Some((ColorOutputRep::Hash(true), true)));
    assert_eq!(tag_format(Some('a'), '~'), Some((ColorOutputRep::LinHash(false), true)));
    assert_eq!(tag_format(None, '!'), Some((ColorOutputRep::CssLch, false)));
    assert_eq!(tag_format(None, 'x'), None);
}

#[test]
fn eval_entry_point() {
    let p = read_palette("base = L50C20H30", named()).unwrap();
    let (c, rep, a) = eval(&p, "base li 10", "!a").unwrap();
    assert_eq!(c, lch(55, 20, 30));
    assert_eq!(rep, ColorOutputRep::CssLch);
    assert!(a);
    assert!(matches!(eval(&p, "base", "?"), Err(EvalError::InvalidFormat)));
    assert!(matches!(eval(&p, "nope", "?"), Err(EvalError::Color(ColorError::UnknownIdentifier(_)))));
}

#[test]
fn dollar_references() {
    assert_eq!(dollar_names("a = $red *50* $dark-blue\n$ $"), vec!["red".to_string(), "dark-blue".to_string()]);
    assert!(dollar_names("no names").is_empty());
}

#[test]
fn neutral_gray_from_template_tag() {
    let (rep, with_alpha) = tag_format(None, '#').unwrap();
    let c = parse_color("L50C0H0").unwrap().resolve(&Palette::new(named())).unwrap();
    let lch = palette::Lcha::<palette::white_point::D65, f32>::new(
        c.l as f32 / 1e6,
        c.chroma as f32 / 1e6,
        c.hue as f32 / 1e6,
        c.alpha as f32 / 1e6,
    );
    let (r, g, b, a): (u8, u8, u8, u8) = palette::Srgba::from_color(lch).clamp().into_format().into_components();
    let d = DeviceColor { srgb: Rgba { r, g, b, a }, linear: Rgba { r, g, b, a }, css: Rgba { r: 0, g: 0, b: 0, a: 0 } };
    let text = fmt_color(&c, &d, rep, with_alpha);
    assert_eq!(text.len(), 7);
    assert_eq!(&text[1..3], &text[3..5]);
    assert_eq!(&text[3..5], &text[5..7]);
}

#[test]
fn modifiers_bind_tighter_than_mix_and_complement() {
    match parse_color("a *50* b li 10").unwrap() {
        ColorSpec::Mix(_, rhs, 50_000_000) => assert!(matches!(*rhs, ColorSpec::Shade(_, 10_000_000))),
        other => panic!("unexpected {:?}", other),
    }
    match parse_color("~a li 10").unwrap() {
        ColorSpec::Complement(inner) => assert!(matches!(*inner, ColorSpec::Shade(_, 10_000_000))),
        other => panic!("unexpected {:?}", other),
    }
    match parse_color("(~a) li 10").unwrap() {
        ColorSpec::Shade(inner, 10_000_000) => assert!(matches!(*inner, ColorSpec::Complement(_))),
        other => panic!("unexpected {:?}", other),
    }
}

#[test]
fn modifier_spacing() {
    assert!(matches!(parse_color("x li10").unwrap(), ColorSpec::Shade(_, 10_000_000)));
    assert!(matches!(parse_color("x li=5").unwrap(), ColorSpec::WithLightness(_, 5_000_000)));
    assert!(matches!(parse_color("x li= 5").unwrap(), ColorSpec::WithLightness(_, 5_000_000)));
    assert!(matches!(parse_color("x ch+2.5").unwrap(), ColorSpec::WithChroma(_, 2_500_000)));
    assert!(matches!(parse_color("x a.5").unwrap(), ColorSpec::WithAlpha(_, 500_000)));
    assert!(matches!(parse_color("xli 10"), Err(ColorError::SyntaxError(_))));
}

#[test]
fn fraction_digits_past_the_sixth_are_dropped() {
    let p = Palette::new(named());
    assert_eq!(resolve_in(&p, "L1.23456789C0H0").unwrap().l, 1_234_567);
    assert_eq!(resolve_in(&p, "L5.C0H0").unwrap().l, 5 * UNIT);
    assert!(matches!(parse_color("L.C0H0"), Err(ColorError::NumericParseError(_))));
}

#[test]
fn line_numbers_count_comments_and_blanks() {
    let e = read_palette("# head\n\nok = L1C1H1\r\nbad = (", named()).unwrap_err();
    assert_eq!(e.line, 3);
    assert!(matches!(e.error, ColorError::SyntaxError(_)));
}

#[test]
fn later_binding_of_a_name_wins() {
    let p = read_palette("x = L1C1H1\nx = L2C2H2\ny = x", named()).unwrap();
    assert_eq!(p.color("x"), Some(lch(2, 2, 2)));
    assert_eq!(p.color("y"), Some(lch(2, 2, 2)));
}

#[test]
fn repeated_formal_names_are_rejected() {
    assert!(matches!(parse_palette_line("fn f(x, x) = x"), Err(ColorError::MalformedPaletteLine)));
    let e = read_palette("a = L1C1H1\nfn f(x, y, x) = x", named()).unwrap_err();
    assert_eq!(e.line, 1);
    assert!(matches!(e.error, ColorError::MalformedPaletteLine));
    assert!(read_palette("fn f(x, y) = x", named()).is_ok());
}
