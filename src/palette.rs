//! Expression trees, the palette table, and their evaluation.
use vstd::prelude::*;
use crate::color::{in_range, lemma_complement_twice, lemma_mix_ends, lemma_ops_wf, Color, HUNDRED};
use crate::parser::{chars_of, parse_palette_line};
use crate::grammar::{item_of, matches_item, Expr, Item};

verus! {

broadcast use vstd::std_specs::vec::group_vec_axioms, vstd::seq::group_seq_axioms;

/// How deep user functions may call one another before evaluation gives up.
pub const MAX_CALL_DEPTH: u64 = 64;

/// A color expression, as parsed and not yet evaluated.
#[derive(Debug)]
pub enum ColorSpec {
    /// A palette color, or a function argument inside a function body.
    Id(String),
    /// A standard named color.
    Named(String),
    /// A literal color.
    Lch(Color),
    /// Relative lighten by a percentage.
    Shade(Box<ColorSpec>, i64),
    /// Relative saturate by a percentage.
    Saturate(Box<ColorSpec>, i64),
    /// Lightness set to a value.
    WithLightness(Box<ColorSpec>, i64),
    /// Chroma set to a value.
    WithChroma(Box<ColorSpec>, i64),
    /// Alpha set to a percentage.
    WithAlpha(Box<ColorSpec>, i64),
    /// Interpolation from the first to the second color by a percentage.
    Mix(Box<ColorSpec>, Box<ColorSpec>, i64),
    /// Hue turned by half a turn.
    Complement(Box<ColorSpec>),
    /// A call of a user function.
    FnCall(String, Vec<ColorSpec>),
}

/// A user function: formal parameter names and a body.
#[derive(Debug)]
pub struct ColorFn {
    pub args: Vec<String>,
    pub body: ColorSpec,
}

/// One line of a palette source.
#[derive(Debug)]
pub enum PaletteItem {
    Color(String, ColorSpec),
    Func(String, ColorFn),
}

/// Why an expression or a palette could not be parsed or evaluated.
#[derive(Debug)]
pub enum ColorError {
    /// The text does not match the grammar; the character position where it stopped.
    SyntaxError(usize),
    /// A palette line that is neither a color item nor a function item.
    MalformedPaletteLine,
    UnknownIdentifier(String),
    UnknownNamedColor(String),
    UnknownFunction(String),
    /// A numeric literal that does not denote a number in range; its position.
    NumericParseError(usize),
    /// User functions nested deeper than `MAX_CALL_DEPTH`; the function called.
    CallTooDeep(String),
}

/// The table of names: resolved colors and unresolved functions, and the
/// standard named colors in the working color space. A later entry of a name
/// hides earlier ones.
#[derive(Debug)]
pub struct Palette {
    pub colors: Vec<(String, Color)>,
    pub functions: Vec<(String, ColorFn)>,
    pub named: Vec<(String, Color)>,
}

/// Index of the last entry of `s` keyed `k`, or -1.
pub open spec fn find_last<V>(s: Seq<(String, V)>, k: Seq<char>) -> int
    decreases s.len(),
{
    if s.len() == 0 {
        -1
    } else if s.last().0@ == k {
        s.len() - 1
    } else {
        find_last(s.drop_last(), k)
    }
}

/// The value that `k` is bound to in `s`, the last binding winning.
pub open spec fn lookup<V>(s: Seq<(String, V)>, k: Seq<char>) -> Option<V> {
    let i = find_last(s, k);
    if i < 0 {
        None
    } else {
        Some(s[i].1)
    }
}

pub proof fn lemma_find_last_bound<V>(s: Seq<(String, V)>, k: Seq<char>)
    ensures
        -1 <= find_last(s, k) < s.len(),
        find_last(s, k) >= 0 ==> s[find_last(s, k)].0@ == k,
    decreases s.len(),
{
    if s.len() > 0 && s.last().0@ != k {
        lemma_find_last_bound(s.drop_last(), k);
    }
}

pub open spec fn colors_wf(s: Seq<(String, Color)>) -> bool {
    forall|i: int| 0 <= i < s.len() ==> (#[trigger] s[i]).1.wf()
}

impl ColorSpec {
    /// Every literal color well formed and every number in range.
    pub open spec fn wf(self) -> bool
        decreases self,
    {
        match self {
            ColorSpec::Id(_) => true,
            ColorSpec::Named(_) => true,
            ColorSpec::Lch(c) => c.wf(),
            ColorSpec::Shade(x, p) => in_range(p as int) && x.wf(),
            ColorSpec::Saturate(x, p) => in_range(p as int) && x.wf(),
            ColorSpec::WithLightness(x, p) => in_range(p as int) && x.wf(),
            ColorSpec::WithChroma(x, p) => in_range(p as int) && x.wf(),
            ColorSpec::WithAlpha(x, p) => in_range(p as int) && x.wf(),
            ColorSpec::Mix(a, b, p) => in_range(p as int) && a.wf() && b.wf(),
            ColorSpec::Complement(x) => x.wf(),
            ColorSpec::FnCall(_, args) => forall|i: int|
                0 <= i < args.len() ==> (#[trigger] args[i]).wf(),
        }
    }
}

/// The contents of a palette, as the evaluator sees them.
pub ghost struct Table {
    pub colors: Seq<(String, Color)>,
    pub functions: Seq<(String, ColorFn)>,
    pub named: Seq<(String, Color)>,
}

impl Table {
    pub open spec fn wf(self) -> bool {
        &&& colors_wf(self.colors)
        &&& colors_wf(self.named)
        &&& forall|i: int| 0 <= i < self.functions.len() ==> (#[trigger] self.functions[i]).1.wf()
    }
}

impl ColorFn {
    /// A well-formed body, and formal parameter names that are all distinct.
    pub open spec fn wf(self) -> bool {
        &&& self.body.wf()
        &&& forall|i: int, j: int| 0 <= i < j < self.args@.len() ==> self.args@[i]@ != self.args@[j]@
    }
}

impl Palette {
    pub open spec fn table(self) -> Table {
        Table { colors: self.colors@, functions: self.functions@, named: self.named@ }
    }

    pub open spec fn wf(self) -> bool {
        self.table().wf()
    }
}

/// The value of `e` against palette `p`, with function arguments `scope`,
/// allowing `depth` more nested function calls. A name is looked up among
/// the arguments, then among the palette colors. A call binds its arguments
/// to the formals by position, in a scope of their own: arguments beyond the
/// formals are not evaluated, and formals beyond the arguments stay unbound.
pub open spec fn value_of(e: ColorSpec, p: Table, scope: Seq<(String, Color)>, depth: nat) -> Result<Color, ColorError>
    decreases depth, e, 0nat,
{
    match e {
        ColorSpec::Id(n) => match lookup(scope, n@) {
            Some(c) => Ok(c),
            None => match lookup(p.colors, n@) {
                Some(c) => Ok(c),
                None => Err(ColorError::UnknownIdentifier(n)),
            },
        },
        ColorSpec::Named(n) => match lookup(p.named, n@) {
            Some(c) => Ok(c),
            None => Err(ColorError::UnknownNamedColor(n)),
        },
        ColorSpec::Lch(c) => Ok(c),
        ColorSpec::Shade(x, v) => match value_of(*x, p, scope, depth) {
            Ok(c) => Ok(c.lightened(v as int)),
            Err(f) => Err(f),
        },
        ColorSpec::Saturate(x, v) => match value_of(*x, p, scope, depth) {
            Ok(c) => Ok(c.saturated(v as int)),
            Err(f) => Err(f),
        },
        ColorSpec::WithLightness(x, v) => match value_of(*x, p, scope, depth) {
            Ok(c) => Ok(c.with_l_spec(v as int)),
            Err(f) => Err(f),
        },
        ColorSpec::WithChroma(x, v) => match value_of(*x, p, scope, depth) {
            Ok(c) => Ok(c.with_chroma_spec(v as int)),
            Err(f) => Err(f),
        },
        ColorSpec::WithAlpha(x, v) => match value_of(*x, p, scope, depth) {
            Ok(c) => Ok(c.alpha_pct(v as int)),
            Err(f) => Err(f),
        },
        ColorSpec::Mix(a, b, v) => match value_of(*a, p, scope, depth) {
            Ok(ca) => match value_of(*b, p, scope, depth) {
                Ok(cb) => Ok(ca.mixed(cb, v as int)),
                Err(f) => Err(f),
            },
            Err(f) => Err(f),
        },
        ColorSpec::Complement(x) => match value_of(*x, p, scope, depth) {
            Ok(c) => Ok(c.complemented()),
            Err(f) => Err(f),
        },
        ColorSpec::FnCall(name, args) => {
            let i = find_last(p.functions, name@);
            if i < 0 {
                Err(ColorError::UnknownFunction(name))
            } else if depth == 0 {
                Err(ColorError::CallTooDeep(name))
            } else {
                let f = p.functions[i].1;
                let n = if args.len() < f.args.len() { args.len() } else { f.args.len() };
                match bind_args(args@, f.args@, p, scope, depth, n as nat) {
                    Ok(bs) => value_of(f.body, p, bs, (depth - 1) as nat),
                    Err(e) => Err(e),
                }
            }
        },
    }
}

/// The bindings of the first `k` formals to the values of the first `k`
/// arguments, evaluated in order; the first failure if one fails.
pub open spec fn bind_args(
    args: Seq<ColorSpec>,
    formals: Seq<String>,
    p: Table,
    scope: Seq<(String, Color)>,
    depth: nat,
    k: nat,
) -> Result<Seq<(String, Color)>, ColorError>
    decreases depth, args, k,
{
    if k == 0 || k > args.len() || k > formals.len() {
        Ok(Seq::empty())
    } else {
        match bind_args(args, formals, p, scope, depth, (k - 1) as nat) {
            Ok(bs) => match value_of(args[k - 1], p, scope, depth) {
                Ok(c) => Ok(bs.push((formals[k - 1], c))),
                Err(e) => Err(e),
            },
            Err(e) => Err(e),
        }
    }
}


proof fn lemma_bind_args_err(
    args: Seq<ColorSpec>,
    formals: Seq<String>,
    p: Table,
    scope: Seq<(String, Color)>,
    depth: nat,
    k: nat,
    n: nat,
)
    requires
        k <= n <= args.len(),
        n <= formals.len(),
        bind_args(args, formals, p, scope, depth, k) is Err,
    ensures
        bind_args(args, formals, p, scope, depth, n) == bind_args(args, formals, p, scope, depth, k),
    decreases n,
{
    if n > k {
        lemma_bind_args_err(args, formals, p, scope, depth, k, (n - 1) as nat);
    }
}

/// Index of the last entry of `tab` keyed `k`.
fn find_last_exec<V>(tab: &Vec<(String, V)>, k: &String) -> (r: Option<usize>)
    ensures
        match r {
            Some(i) => i == find_last(tab@, k@) && i < tab@.len(),
            None => find_last(tab@, k@) == -1,
        },
{
    let mut i = tab.len();
    assert(tab@.subrange(0, tab@.len() as int) =~= tab@);
    while i > 0
        invariant
            i <= tab@.len(),
            find_last(tab@, k@) == find_last(tab@.subrange(0, i as int), k@),
        decreases i,
    {
        let ghost sub = tab@.subrange(0, i as int);
        if tab[i - 1].0 == *k {
            return Some(i - 1);
        }
        assert(sub.drop_last() =~= tab@.subrange(0, i - 1));
        i = i - 1;
    }
    None
}

impl ColorSpec {
    /// The value of this expression against `palette`, outside any function.
    pub fn resolve(&self, palette: &Palette) -> (r: Result<Color, ColorError>)
        requires
            self.wf(),
            palette.wf(),
        ensures
            r == value_of(*self, palette.table(), Seq::empty(), MAX_CALL_DEPTH as nat),
            r is Ok ==> r->Ok_0.wf(),
    {
        let scope: Vec<(String, Color)> = Vec::new();
        self.resolve_b(palette, &scope, MAX_CALL_DEPTH)
    }

    fn resolve_b(&self, palette: &Palette, scope: &Vec<(String, Color)>, depth: u64) -> (r: Result<Color, ColorError>)
        requires
            self.wf(),
            palette.wf(),
            colors_wf(scope@),
        ensures
            r == value_of(*self, palette.table(), scope@, depth as nat),
            r is Ok ==> r->Ok_0.wf(),
        decreases depth, self,
    {
        match self {
            ColorSpec::Id(n) => {
                match find_last_exec(scope, n) {
                    Some(i) => Ok(scope[i].1),
                    None => match find_last_exec(&palette.colors, n) {
                        Some(i) => Ok(palette.colors[i].1),
                        None => Err(ColorError::UnknownIdentifier(n.clone())),
                    },
                }
            },
            ColorSpec::Named(n) => match find_last_exec(&palette.named, n) {
                Some(i) => Ok(palette.named[i].1),
                None => Err(ColorError::UnknownNamedColor(n.clone())),
            },
            ColorSpec::Lch(c) => Ok(*c),
            ColorSpec::Shade(x, v) => match x.resolve_b(palette, scope, depth) {
                Ok(c) => Ok(c.lighten(*v)),
                Err(e) => Err(e),
            },
            ColorSpec::Saturate(x, v) => match x.resolve_b(palette, scope, depth) {
                Ok(c) => Ok(c.saturate(*v)),
                Err(e) => Err(e),
            },
            ColorSpec::WithLightness(x, v) => match x.resolve_b(palette, scope, depth) {
                Ok(c) => Ok(c.set_lightness(*v)),
                Err(e) => Err(e),
            },
            ColorSpec::WithChroma(x, v) => match x.resolve_b(palette, scope, depth) {
                Ok(c) => Ok(c.set_chroma(*v)),
                Err(e) => Err(e),
            },
            ColorSpec::WithAlpha(x, v) => match x.resolve_b(palette, scope, depth) {
                Ok(c) => Ok(c.set_alpha(*v)),
                Err(e) => Err(e),
            },
            ColorSpec::Mix(a, b, v) => match a.resolve_b(palette, scope, depth) {
                Ok(ca) => match b.resolve_b(palette, scope, depth) {
                    Ok(cb) => Ok(ca.mix(&cb, *v)),
                    Err(e) => Err(e),
                },
                Err(e) => Err(e),
            },
            ColorSpec::Complement(x) => match x.resolve_b(palette, scope, depth) {
                Ok(c) => Ok(c.complement()),
                Err(e) => Err(e),
            },
            ColorSpec::FnCall(name, args) => {
                match find_last_exec(&palette.functions, name) {
                    None => Err(ColorError::UnknownFunction(name.clone())),
                    Some(i) => {
                        if depth == 0 {
                            return Err(ColorError::CallTooDeep(name.clone()));
                        }
                        let f = &palette.functions[i].1;
                        let n = if args.len() < f.args.len() { args.len() } else { f.args.len() };
                        let mut bs: Vec<(String, Color)> = Vec::new();
                        let mut k: usize = 0;
                        while k < n
                            invariant
                                k <= n,
                                *self == ColorSpec::FnCall(*name, *args),
                                i < palette.functions@.len(),
                                find_last(palette.functions@, name@) == i,
                                *f == palette.functions@[i as int].1,
                                n == (if args.len() < f.args.len() { args.len() } else { f.args.len() }),
                                depth > 0,
                                n <= args@.len(),
                                n <= f.args@.len(),
                                palette.wf(),
                                colors_wf(scope@),
                                colors_wf(bs@),
                                forall|j: int| 0 <= j < args.len() ==> (#[trigger] args[j]).wf(),
                                bind_args(args@, f.args@, palette.table(), scope@, depth as nat, k as nat)
                                    == Ok::<Seq<(String, Color)>, ColorError>(bs@),
                            decreases n - k,
                        {
                            proof {
                                assert(decreases_to!(args => args@));
                                assert(decreases_to!(args@ => args@[k as int]));
                                assert(decreases_to!(*self => self->FnCall_1));
                                assert(decreases_to!(*self => args@[k as int]));
                            }
                            match args[k].resolve_b(palette, scope, depth) {
                                Ok(c) => {
                                    bs.push((f.args[k].clone(), c));
                                },
                                Err(e) => {
                                    assert(bind_args(args@, f.args@, palette.table(), scope@, depth as nat, (k + 1) as nat) == Err::<Seq<(String, Color)>, ColorError>(e));
                                    proof {
                                        lemma_bind_args_err(args@, f.args@, palette.table(), scope@, depth as nat, (k + 1) as nat, n as nat);
                                        assert(bind_args(args@, f.args@, palette.table(), scope@, depth as nat, n as nat) == Err::<Seq<(String, Color)>, ColorError>(e));
                                        assert(value_of(*self, palette.table(), scope@, depth as nat) == Err::<Color, ColorError>(e));
                                    }
                                    return Err(e);
                                },
                            }
                            k = k + 1;
                        }
                        f.body.resolve_b(palette, &bs, depth - 1)
                    },
                }
            },
        }
    }
}


/// A failure while reading a palette source, with the index of its line.
#[derive(Debug)]
pub struct LineError {
    pub line: usize,
    pub error: ColorError,
}

impl Palette {
    /// An empty palette over a table of standard named colors.
    pub fn new(named: Vec<(String, Color)>) -> (r: Palette)
        requires
            colors_wf(named@),
        ensures
            r.wf(),
            r.colors@ == Seq::<(String, Color)>::empty(),
            r.functions@.len() == 0,
            r.named == named,
    {
        Palette { colors: Vec::new(), functions: Vec::new(), named }
    }

    /// Takes in one palette item. A color is resolved against the palette as
    /// it stands and then bound; a function is bound unresolved. On failure
    /// the palette is left as it was.
    pub fn add_item(&mut self, item: PaletteItem) -> (r: Result<(), ColorError>)
        requires
            old(self).wf(),
            item.wf(),
        ensures
            final(self).wf(),
            final(self).named == old(self).named,
            match item {
                PaletteItem::Color(n, e) => match value_of(e, old(self).table(), Seq::empty(), MAX_CALL_DEPTH as nat) {
                    Ok(c) => r is Ok && final(self).colors@ == old(self).colors@.push((n, c))
                        && final(self).functions@ == old(self).functions@,
                    Err(f) => r == Err::<(), ColorError>(f) && *final(self) == *old(self),
                },
                PaletteItem::Func(n, f) => r is Ok && final(self).colors@ == old(self).colors@
                    && final(self).functions@ == old(self).functions@.push((n, f)),
            },
    {
        match item {
            PaletteItem::Color(n, e) => {
                match e.resolve(self) {
                    Ok(c) => {
                        self.colors.push((n, c));
                        Ok(())
                    },
                    Err(f) => Err(f),
                }
            },
            PaletteItem::Func(n, f) => {
                self.functions.push((n, f));
                Ok(())
            },
        }
    }

    /// The color bound to `name`, if any.
    pub fn color(&self, name: &str) -> (r: Option<Color>)
        ensures
            r == lookup(self.colors@, name@),
    {
        let key = String::from_str(name);
        match find_last_exec(&self.colors, &key) {
            Some(i) => Some(self.colors[i].1),
            None => None,
        }
    }
}

/// The end of the line that starts at `i`: the next `\n`, or the end.
pub open spec fn line_end(s: Seq<char>, i: int) -> int
    decreases s.len() - i,
{
    if 0 <= i < s.len() && s[i] != '\n' { line_end(s, i + 1) } else { i }
}

/// The text of the line that starts at `i`, without a final `\r`.
pub open spec fn line_text(s: Seq<char>, i: int) -> Seq<char> {
    let e = line_end(s, i);
    let stop = if e > i && s[e - 1] == '\r' { e - 1 } else { e };
    s.subrange(i, stop)
}

/// A line that holds an item: not blank and not a `#` comment.
pub open spec fn is_item_line(t: Seq<char>) -> bool {
    t.len() > 0 && t[0] != '#'
}

/// The table after taking in one item.
pub open spec fn apply_item(item: PaletteItem, t: Table) -> Result<Table, ColorError> {
    match item {
        PaletteItem::Color(n, e) => match value_of(e, t, Seq::empty(), MAX_CALL_DEPTH as nat) {
            Ok(c) => Ok(Table { colors: t.colors.push((n, c)), functions: t.functions, named: t.named }),
            Err(f) => Err(f),
        },
        PaletteItem::Func(n, f) => Ok(Table { colors: t.colors, functions: t.functions.push((n, f)), named: t.named }),
    }
}

/// The table built from the lines from position `i` on (line number `k`),
/// where `items` are the parsed item lines in order; or the first failure
/// with its line number.
pub open spec fn build_spec(s: Seq<char>, i: int, k: int, t: Table, items: Seq<PaletteItem>) -> Result<Table, (int, ColorError)>
    decreases s.len() - i,
{
    let e = line_end(s, i);
    let next = if e < s.len() { e + 1 } else { e };
    let text = line_text(s, i);
    if !(0 <= i < s.len()) || next <= i || next > s.len() {
        Ok(t)
    } else if !is_item_line(text) {
        build_spec(s, next, k + 1, t, items)
    } else {
        match item_of(text) {
            Err(err) => Err((k, err)),
            Ok(x) => if items.len() > 0 && matches_item(items[0], x) {
                match apply_item(items[0], t) {
                    Err(err) => Err((k, err)),
                    Ok(t2) => build_spec(s, next, k + 1, t2, items.drop_first()),
                }
            } else {
                Err((-1, ColorError::MalformedPaletteLine))
            },
        }
    }
}

pub open spec fn empty_table(named: Seq<(String, Color)>) -> Table {
    Table { colors: Seq::empty(), functions: Seq::empty(), named }
}

/// Takes in the line that starts at `start`; returns where the next line
/// starts, and the items parsed (none for a blank or comment line).
#[verifier::rlimit(50)]
fn take_line(src: &str, s: &Vec<char>, start: usize, line: usize, p: &mut Palette) -> (r: (
    Result<usize, LineError>,
    Ghost<Seq<PaletteItem>>,
))
    requires
        s@ == src@,
        start < s@.len(),
        line <= start,
        old(p).wf(),
    ensures
        final(p).wf(),
        match r.0 {
            Ok(next) => start < next <= s@.len() && forall|rest: Seq<PaletteItem>|
                #[trigger] build_spec(s@, start as int, line as int, old(p).table(), r.1@ + rest)
                    == build_spec(s@, next as int, line + 1, final(p).table(), rest),
            Err(le) => build_spec(s@, start as int, line as int, old(p).table(), r.1@) == Err::<Table, (int, ColorError)>(
                (le.line as int, le.error),
            ),
        },
{
    let mut end = start;
    while end < s.len() && s[end] != '\n'
        invariant
            start <= end <= s@.len(),
            line_end(s@, start as int) == line_end(s@, end as int),
        decreases s@.len() - end,
    {
        end = end + 1;
    }
    let next = if end < s.len() { end + 1 } else { end };
    let mut stop = end;
    if stop > start && s[stop - 1] == '\r' {
        stop = stop - 1;
    }
    let ghost text = line_text(s@, start as int);
    if stop > start && s[start] != '#' {
        let item_text = src.substring_char(start, stop);
        assert(item_text@ == text);
        let item = match parse_palette_line(item_text) {
            Ok(item) => item,
            Err(error) => {
                return (Err(LineError { line, error }), Ghost(Seq::empty()));
            },
        };
        let ghost it = item;
        let ghost one: Seq<PaletteItem> = seq![it];
        let ghost before = p.table();
        match p.add_item(item) {
            Ok(()) => {
                assert(apply_item(it, before) == Ok::<Table, ColorError>(p.table()));
                assert forall|rest: Seq<PaletteItem>| #[trigger] build_spec(s@, start as int, line as int, before, one + rest)
                    == build_spec(s@, next as int, line + 1, p.table(), rest) by {
                    assert((one + rest).drop_first() =~= rest);
                    assert((one + rest)[0] == it);
                }
                (Ok(next), Ghost(one))
            },
            Err(error) => {
                assert(apply_item(it, before) == Err::<Table, ColorError>(error));
                (Err(LineError { line, error }), Ghost(one))
            },
        }
    } else {
        (Ok(next), Ghost(Seq::empty()))
    }
}

/// Builds a palette from its source, line by line: blank lines and lines
/// starting with `#` are skipped; a color line is resolved against the lines
/// before it; any line that fails to parse or resolve fails the whole palette.
#[verifier::rlimit(100)]
pub fn read_palette(src: &str, named: Vec<(String, Color)>) -> (r: Result<Palette, LineError>)
    requires
        colors_wf(named@),
    ensures
        exists|items: Seq<PaletteItem>| match (r, #[trigger] build_spec(src@, 0, 0, empty_table(named@), items)) {
            (Ok(p), Ok(t)) => p.table() == t && p.wf(),
            (Err(le), Err((k, e))) => le.line == k && le.error == e,
            _ => false,
        },
{
    let s = chars_of(src);
    let ghost t0 = empty_table(named@);
    let mut p = Palette::new(named);
    assert(p.table() == t0) by {
        assert(p.functions@ =~= Seq::<(String, ColorFn)>::empty());
    }
    let mut start: usize = 0;
    let mut line: usize = 0;
    let ghost mut got: Seq<PaletteItem> = Seq::empty();
    assert forall|rest: Seq<PaletteItem>| #[trigger] build_spec(s@, 0, 0, t0, got + rest)
        == build_spec(s@, 0, 0, p.table(), rest) by {
        assert(got + rest =~= rest);
    }
    while start < s.len()
        invariant
            s@ == src@,
            start <= s@.len(),
            line <= start,
            p.wf(),
            t0 == empty_table(named@),
            forall|rest: Seq<PaletteItem>| #[trigger] build_spec(s@, 0, 0, t0, got + rest)
                == build_spec(s@, start as int, line as int, p.table(), rest),
        decreases s@.len() - start,
    {
        let ghost before = p.table();
        let (res, consumed) = take_line(src, &s, start, line, &mut p);
        match res {
            Ok(next) => {
                proof {
                    assert forall|rest: Seq<PaletteItem>| #[trigger] build_spec(s@, 0, 0, t0, (got + consumed@) + rest)
                        == build_spec(s@, next as int, line + 1, p.table(), rest) by {
                        assert((got + consumed@) + rest =~= got + (consumed@ + rest));
                    }
                    got = got + consumed@;
                }
                line = line + 1;
                start = next;
            },
            Err(le) => {
                let ghost items = got + consumed@;
                assert(build_spec(s@, 0, 0, t0, items) == build_spec(s@, start as int, line as int, before, consumed@));
                assert(build_spec(s@, 0, 0, t0, items) == Err::<Table, (int, ColorError)>((le.line as int, le.error)));
                assert(build_spec(src@, 0, 0, empty_table(named@), items) == Err::<Table, (int, ColorError)>((le.line as int, le.error)));
                return Err(le);
            },
        }
    }
    assert(build_spec(s@, 0, 0, t0, got + Seq::empty()) == build_spec(s@, start as int, line as int, p.table(), Seq::empty()));
    assert(got + Seq::<PaletteItem>::empty() =~= got);
    assert(build_spec(src@, 0, 0, empty_table(named@), got) == Ok::<Table, (int, ColorError)>(p.table()));
    Ok(p)
}

/// Like `build_spec`, but also giving the next line number and the items
/// not yet used when the lines from `i` on all load.
pub open spec fn build_state(s: Seq<char>, i: int, k: int, t: Table, items: Seq<PaletteItem>) -> Result<
    (Table, int, Seq<PaletteItem>),
    (int, ColorError),
>
    decreases s.len() - i,
{
    let e = line_end(s, i);
    let next = if e < s.len() { e + 1 } else { e };
    let text = line_text(s, i);
    if !(0 <= i < s.len()) || next <= i || next > s.len() {
        Ok((t, k, items))
    } else if !is_item_line(text) {
        build_state(s, next, k + 1, t, items)
    } else {
        match item_of(text) {
            Err(err) => Err((k, err)),
            Ok(x) => if items.len() > 0 && matches_item(items[0], x) {
                match apply_item(items[0], t) {
                    Err(err) => Err((k, err)),
                    Ok(t2) => build_state(s, next, k + 1, t2, items.drop_first()),
                }
            } else {
                Err((-1, ColorError::MalformedPaletteLine))
            },
        }
    }
}

proof fn lemma_line_end_prefix(pre: Seq<char>, w: Seq<char>, i: int)
    requires
        0 <= i < pre.len(),
        pre.last() == '\n',
    ensures
        line_end(pre + w, i) == line_end(pre, i),
        i <= line_end(pre, i) < pre.len(),
    decreases pre.len() - i,
{
    let s = pre + w;
    assert(s[i] == pre[i]);
    if pre[i] != '\n' {
        lemma_line_end_prefix(pre, w, i + 1);
    }
}

/// Loading `pre + w` goes through the lines of `pre` as loading `pre` alone
/// does, when `pre` ends a line.
proof fn lemma_build_prefix(pre: Seq<char>, w: Seq<char>, i: int, k: int, t: Table, items: Seq<PaletteItem>)
    requires
        0 <= i <= pre.len(),
        pre.len() == 0 || pre.last() == '\n',
    ensures
        match build_state(pre, i, k, t, items) {
            Ok((t2, k2, rest)) => build_spec(pre + w, i, k, t, items) == build_spec(pre + w, pre.len() as int, k2, t2, rest),
            Err(e) => build_spec(pre + w, i, k, t, items) == Err::<Table, (int, ColorError)>(e),
        },
    decreases pre.len() - i,
{
    if i < pre.len() {
        let s = pre + w;
        lemma_line_end_prefix(pre, w, i);
        let e = line_end(pre, i);
        assert(s[e] == pre[e]);
        if e > i {
            assert(s[e - 1] == pre[e - 1]);
        }
        assert(line_text(s, i) =~= line_text(pre, i));
        lemma_build_prefix(pre, w, e + 1, k + 1, t, items);
        if items.len() > 0 {
            if let Ok(t2) = apply_item(items[0], t) {
                lemma_build_prefix(pre, w, e + 1, k + 1, t2, items.drop_first());
            }
        }
    }
}

/// Loading stops at the first line that fails: where the lines of `pre` all
/// load (leaving table `t`, line number `k` and unused items `rest`), and the
/// next line is an item line that fails to parse, or parses to an item that
/// fails against `t`, loading `pre + line + post` fails with that line's
/// number and error, and no palette comes of it.
pub proof fn lemma_failing_line_fails_load(
    pre: Seq<char>,
    line: Seq<char>,
    post: Seq<char>,
    t0: Table,
    items: Seq<PaletteItem>,
    t: Table,
    k: int,
    rest: Seq<PaletteItem>,
    err: ColorError,
)
    requires
        pre.len() == 0 || pre.last() == '\n',
        forall|j: int| 0 <= j < line.len() ==> line[j] != '\n',
        is_item_line(line),
        line.last() != '\r',
        post.len() == 0 || post[0] == '\n',
        build_state(pre, 0, 0, t0, items) == Ok::<(Table, int, Seq<PaletteItem>), (int, ColorError)>((t, k, rest)),
        item_of(line) == Err::<Item, ColorError>(err) || (item_of(line) is Ok && rest.len() > 0
            && matches_item(rest[0], item_of(line)->Ok_0) && apply_item(rest[0], t) == Err::<Table, ColorError>(err)),
    ensures
        build_spec(pre + line + post, 0, 0, t0, items) == Err::<Table, (int, ColorError)>((k, err)),
{
    let s = pre + line + post;
    assert(s =~= pre + (line + post));
    lemma_build_prefix(pre, line + post, 0, 0, t0, items);
    let i = pre.len() as int;
    assert forall|j: int| i <= j < i + line.len() implies s[j] != '\n' by {
        assert(s[j] == line[j - i]);
    }
    assert(line_end(s, i) == i + line.len()) by {
        lemma_line_end_run(s, i, i + line.len());
    }
    assert(line_text(s, i) =~= line);
}

proof fn lemma_line_end_run(s: Seq<char>, i: int, e: int)
    requires
        0 <= i <= e <= s.len(),
        forall|j: int| i <= j < e ==> s[j] != '\n',
        e == s.len() || s[e] == '\n',
    ensures
        line_end(s, i) == e,
    decreases e - i,
{
    if i < e {
        lemma_line_end_run(s, i + 1, e);
    }
}

/// A color line naming a color that no earlier line defines fails the whole
/// load with `UnknownIdentifier` naming it, once the lines before it load.
pub proof fn lemma_unknown_identifier_fails_load(
    pre: Seq<char>,
    line: Seq<char>,
    post: Seq<char>,
    t0: Table,
    items: Seq<PaletteItem>,
    t: Table,
    k: int,
    rest: Seq<PaletteItem>,
    name: Seq<char>,
    x: Seq<char>,
)
    requires
        pre.len() == 0 || pre.last() == '\n',
        forall|j: int| 0 <= j < line.len() ==> line[j] != '\n',
        is_item_line(line),
        line.last() != '\r',
        post.len() == 0 || post[0] == '\n',
        build_state(pre, 0, 0, t0, items) == Ok::<(Table, int, Seq<PaletteItem>), (int, ColorError)>((t, k, rest)),
        item_of(line) == Ok::<Item, ColorError>(Item::Color(name, Expr::Id(x))),
        rest.len() > 0 && matches_item(rest[0], Item::Color(name, Expr::Id(x))),
        lookup(t.colors, x) is None,
    ensures
        build_spec(pre + line + post, 0, 0, t0, items) matches Err((kk, ColorError::UnknownIdentifier(n)))
            && kk == k && n@ == x,
{
    let it = rest[0];
    let id = it->Color_1;
    lemma_unknown_identifier(id->Id_0, it->Color_0, t, Seq::empty(), MAX_CALL_DEPTH as nat, 0);
    lemma_failing_line_fails_load(pre, line, post, t0, items, t, k, rest, ColorError::UnknownIdentifier(id->Id_0));
}

/// Every value an expression takes is a well-formed color.
pub proof fn lemma_value_wf(e: ColorSpec, p: Table, scope: Seq<(String, Color)>, depth: nat)
    requires
        e.wf(),
        p.wf(),
        colors_wf(scope),
    ensures
        value_of(e, p, scope, depth) matches Ok(c) ==> c.wf(),
    decreases depth, e, 0nat,
{
    match e {
        ColorSpec::Id(n) => {
            lemma_find_last_bound(scope, n@);
            lemma_find_last_bound(p.colors, n@);
        },
        ColorSpec::Named(n) => {
            lemma_find_last_bound(p.named, n@);
        },
        ColorSpec::Lch(_) => {},
        ColorSpec::Shade(x, v) => {
            lemma_value_wf(*x, p, scope, depth);
            if let Ok(c) = value_of(*x, p, scope, depth) {
                lemma_ops_wf(c, c, v as int);
            }
        },
        ColorSpec::Saturate(x, v) => {
            lemma_value_wf(*x, p, scope, depth);
            if let Ok(c) = value_of(*x, p, scope, depth) {
                lemma_ops_wf(c, c, v as int);
            }
        },
        ColorSpec::WithLightness(x, v) => {
            lemma_value_wf(*x, p, scope, depth);
            if let Ok(c) = value_of(*x, p, scope, depth) {
                lemma_ops_wf(c, c, v as int);
            }
        },
        ColorSpec::WithChroma(x, v) => {
            lemma_value_wf(*x, p, scope, depth);
            if let Ok(c) = value_of(*x, p, scope, depth) {
                lemma_ops_wf(c, c, v as int);
            }
        },
        ColorSpec::WithAlpha(x, v) => {
            lemma_value_wf(*x, p, scope, depth);
            if let Ok(c) = value_of(*x, p, scope, depth) {
                lemma_ops_wf(c, c, v as int);
            }
        },
        ColorSpec::Mix(a, b, v) => {
            lemma_value_wf(*a, p, scope, depth);
            lemma_value_wf(*b, p, scope, depth);
            if let Ok(ca) = value_of(*a, p, scope, depth) {
                if let Ok(cb) = value_of(*b, p, scope, depth) {
                    lemma_ops_wf(ca, cb, v as int);
                }
            }
        },
        ColorSpec::Complement(x) => {
            lemma_value_wf(*x, p, scope, depth);
            if let Ok(c) = value_of(*x, p, scope, depth) {
                lemma_ops_wf(c, c, 0);
            }
        },
        ColorSpec::FnCall(name, args) => {
            let i = find_last(p.functions, name@);
            lemma_find_last_bound(p.functions, name@);
            if i >= 0 && depth > 0 {
                let f = p.functions[i].1;
                let n = if args.len() < f.args.len() { args.len() } else { f.args.len() };
                assert(decreases_to!(e => e->FnCall_1));
                assert(decreases_to!(args => args@));
                lemma_bind_wf(args@, f.args@, p, scope, depth, n as nat);
                if let Ok(bs) = bind_args(args@, f.args@, p, scope, depth, n as nat) {
                    lemma_value_wf(f.body, p, bs, (depth - 1) as nat);
                }
            }
        },
    }
}

proof fn lemma_bind_wf(
    args: Seq<ColorSpec>,
    formals: Seq<String>,
    p: Table,
    scope: Seq<(String, Color)>,
    depth: nat,
    k: nat,
)
    requires
        forall|i: int| 0 <= i < args.len() ==> (#[trigger] args[i]).wf(),
        p.wf(),
        colors_wf(scope),
    ensures
        bind_args(args, formals, p, scope, depth, k) matches Ok(bs) ==> colors_wf(bs),
    decreases depth, args, k,
{
    if !(k == 0 || k > args.len() || k > formals.len()) {
        lemma_bind_wf(args, formals, p, scope, depth, (k - 1) as nat);
        assert(decreases_to!(args => args[k - 1]));
        lemma_value_wf(args[k - 1], p, scope, depth);
    }
}

/// The complement of the complement of an expression has the value of the
/// expression, and fails where it fails.
pub proof fn lemma_double_complement(e: ColorSpec, p: Table, scope: Seq<(String, Color)>, depth: nat)
    requires
        e.wf(),
        p.wf(),
        colors_wf(scope),
    ensures
        value_of(ColorSpec::Complement(Box::new(ColorSpec::Complement(Box::new(e)))), p, scope, depth)
            == value_of(e, p, scope, depth),
{
    lemma_value_wf(e, p, scope, depth);
    let inner = ColorSpec::Complement(Box::new(e));
    if let Ok(c) = value_of(e, p, scope, depth) {
        lemma_complement_twice(c);
        assert(value_of(inner, p, scope, depth) == Ok::<Color, ColorError>(c.complemented()));
    } else {
        assert(value_of(inner, p, scope, depth) == value_of(e, p, scope, depth));
    }
}

/// Mixing two resolvable expressions by zero percent gives the first one's
/// value, by a hundred percent the second one's.
pub proof fn lemma_mix_endpoints(a: ColorSpec, b: ColorSpec, p: Table, scope: Seq<(String, Color)>, depth: nat)
    requires
        a.wf(),
        b.wf(),
        p.wf(),
        colors_wf(scope),
        value_of(a, p, scope, depth) is Ok,
        value_of(b, p, scope, depth) is Ok,
    ensures
        value_of(ColorSpec::Mix(Box::new(a), Box::new(b), 0), p, scope, depth) == value_of(a, p, scope, depth),
        value_of(ColorSpec::Mix(Box::new(a), Box::new(b), HUNDRED), p, scope, depth) == value_of(b, p, scope, depth),
{
    lemma_value_wf(a, p, scope, depth);
    lemma_value_wf(b, p, scope, depth);
    lemma_mix_ends(value_of(a, p, scope, depth)->Ok_0, value_of(b, p, scope, depth)->Ok_0);
}

/// A name bound neither as a function argument nor as a palette color fails
/// with `UnknownIdentifier`, and so does every modifier applied to it; a
/// palette color item defined by it is refused, and the table stays as it was.
pub proof fn lemma_unknown_identifier(x: String, n: String, p: Table, scope: Seq<(String, Color)>, depth: nat, v: i64)
    requires
        lookup(scope, x@) is None,
        lookup(p.colors, x@) is None,
    ensures
        value_of(ColorSpec::Id(x), p, scope, depth) == Err::<Color, ColorError>(ColorError::UnknownIdentifier(x)),
        value_of(ColorSpec::Shade(Box::new(ColorSpec::Id(x)), v), p, scope, depth)
            == Err::<Color, ColorError>(ColorError::UnknownIdentifier(x)),
        value_of(ColorSpec::Complement(Box::new(ColorSpec::Id(x))), p, scope, depth)
            == Err::<Color, ColorError>(ColorError::UnknownIdentifier(x)),
        apply_item(PaletteItem::Color(n, ColorSpec::Id(x)), p)
            == Err::<Table, ColorError>(ColorError::UnknownIdentifier(x)),
{
    assert(find_last(Seq::<(String, Color)>::empty(), x@) == -1);
}

/// A function is looked up when it is called, and its body when it runs: a
/// call of a function whose body names a color bound after the function was
/// added has that color's value; a call of a function not yet added fails
/// with `UnknownFunction`.
pub proof fn lemma_late_binding(
    start: Table,
    with_fn: Table,
    with_color: Table,
    fname: String,
    func: ColorFn,
    cname: String,
    c: Color,
    call: ColorSpec,
)
    requires
        with_fn.functions == start.functions.push((fname, func)),
        with_fn.colors == start.colors,
        with_color.functions == with_fn.functions,
        with_color.colors == with_fn.colors.push((cname, c)),
        func.args@.len() == 0,
        func.body == ColorSpec::Id(cname),
        call matches ColorSpec::FnCall(n, args) && n@ == fname@,
    ensures
        value_of(call, with_color, Seq::empty(), MAX_CALL_DEPTH as nat) == Ok::<Color, ColorError>(c),
        lookup(start.functions, fname@) is None ==> value_of(call, start, Seq::empty(), MAX_CALL_DEPTH as nat)
            == Err::<Color, ColorError>(ColorError::UnknownFunction(call->FnCall_0)),
{
    let s2 = with_color.functions;
    assert(s2.drop_last() == start.functions);
    assert(find_last(s2, fname@) == s2.len() - 1);
    let cs = with_color.colors;
    assert(find_last(cs, cname@) == cs.len() - 1);
    let empty = Seq::<(String, Color)>::empty();
    assert(find_last(empty, cname@) == -1);
    let args = call->FnCall_1;
    assert(s2[s2.len() - 1].1 == func);
    assert(bind_args(args@, func.args@, with_color, empty, MAX_CALL_DEPTH as nat, 0) == Ok::<Seq<(String, Color)>, ColorError>(empty));
    assert(value_of(func.body, with_color, empty, (MAX_CALL_DEPTH - 1) as nat) == Ok::<Color, ColorError>(c));
}

} // verus!
