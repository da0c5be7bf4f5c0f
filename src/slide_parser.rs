use vstd::prelude::*;
use crate::text::{chars_of, string_of_range, str_eq, push_char, split_lines, remove_comments_from_source, lines_of, strip_comments};
use crate::utility::{
    index_of, lemma_index_of, find_char, EasingFunction, decimal_thousandths, unsigned_value,
    parse_thousandths, parse_unsigned,
};
use crate::color::{Color, parse_color, color_white, color_black};
use crate::slide::{
    SlideTransition, SlideTransitionType, Page, PageView, SlideElement, ImageElement, TextElement,
    ElementView, ImageElementView, TextElementView, elements_view, opt_str_view, empty_page,
    Slide, SlideView, pages_view,
};

verus! {

/// One command of a directive line: its name and its arguments.
#[derive(Debug, Clone)]
pub struct SlideLineCommand {
    pub name: String,
    pub args: Vec<String>,
}

pub struct LineCommandView {
    pub name: Seq<char>,
    pub args: Seq<Seq<char>>,
}

pub open spec fn strings_view(v: Seq<String>) -> Seq<Seq<char>> {
    v.map_values(|s: String| s@)
}

impl View for SlideLineCommand {
    type V = LineCommandView;

    open spec fn view(&self) -> LineCommandView {
        LineCommandView { name: self.name@, args: strings_view(self.args@) }
    }
}

pub open spec fn commands_view(v: Seq<SlideLineCommand>) -> Seq<LineCommandView> {
    v.map_values(|c: SlideLineCommand| c@)
}

pub open spec fn is_blank_char(c: char) -> bool {
    c == ' ' || c == '\t' || c == '\n' || c == '\r'
}

/// Characters that end a bare token.
pub open spec fn ends_bare_token(c: char) -> bool {
    c == '"' || c == ' ' || c == ':' || c == '\n'
}

/// The first index at or after `i` whose character ends a bare token, or the length.
pub open spec fn bare_end(s: Seq<char>, i: int) -> int
    decreases s.len() - i,
{
    if i >= s.len() {
        s.len() as int
    } else if ends_bare_token(s[i]) {
        i
    } else {
        bare_end(s, i + 1)
    }
}

proof fn lemma_bare_end(s: Seq<char>, i: int)
    requires
        0 <= i <= s.len(),
    ensures
        i <= bare_end(s, i) <= s.len(),
        bare_end(s, i) < s.len() ==> ends_bare_token(s[bare_end(s, i)]),
    decreases s.len() - i,
{
    if i < s.len() && !ends_bare_token(s[i]) {
        lemma_bare_end(s, i + 1);
    }
}

pub open spec fn cons_token(t: Seq<char>, r: Option<Seq<Seq<char>>>) -> Option<Seq<Seq<char>>> {
    match r {
        Some(ts) => Some(seq![t] + ts),
        None => None,
    }
}

pub open spec fn colon() -> Seq<char> {
    seq![':']
}

/// The tokens of a directive line from index `i` on: bare tokens, `:` and
/// string literals, each running from a `"` to the next one (a `"` with none
/// after it is skipped); `None` when a `$`
/// stands outside a token or a string literal.
pub open spec fn tokens_from(s: Seq<char>, i: int) -> Option<Seq<Seq<char>>>
    decreases s.len() + 1 - i
    via tokens_from_decreases
{
    if i < 0 || i >= s.len() {
        Some(seq![])
    } else if s[i] == '$' {
        None
    } else if s[i] == '"' {
        let k = index_of(s, '"', i + 1);
        if k < s.len() {
            cons_token(s.subrange(i + 1, k), tokens_from(s, k + 1))
        } else {
            tokens_from(s, i + 1)
        }
    } else if s[i] == ':' {
        cons_token(colon(), tokens_from(s, i + 1))
    } else if is_blank_char(s[i]) {
        tokens_from(s, i + 1)
    } else {
        let j = bare_end(s, i + 1);
        if j < s.len() && s[j] == ':' {
            cons_token(s.subrange(i, j), cons_token(colon(), tokens_from(s, j + 1)))
        } else {
            cons_token(s.subrange(i, j), tokens_from(s, j + 1))
        }
    }
}

#[via_fn]
proof fn tokens_from_decreases(s: Seq<char>, i: int) {
    if 0 <= i < s.len() {
        lemma_index_of(s, '"', i + 1);
        lemma_bare_end(s, i + 1);
    }
}

/// The end of the arguments that start at `i`: each is a `:` token and the token after it.
pub open spec fn args_end(ts: Seq<Seq<char>>, i: int) -> int
    decreases ts.len() - i,
{
    if 0 <= i < ts.len() && ts[i] == colon() {
        if i + 1 < ts.len() {
            args_end(ts, i + 2)
        } else {
            ts.len() as int
        }
    } else {
        i
    }
}

pub open spec fn args_from(ts: Seq<Seq<char>>, i: int) -> Seq<Seq<char>>
    decreases ts.len() - i,
{
    if 0 <= i < ts.len() && ts[i] == colon() {
        if i + 1 < ts.len() {
            seq![ts[i + 1]] + args_from(ts, i + 2)
        } else {
            seq![]
        }
    } else {
        seq![]
    }
}

proof fn lemma_args_end(ts: Seq<Seq<char>>, i: int)
    requires
        0 <= i <= ts.len(),
    ensures
        i <= args_end(ts, i) <= ts.len(),
    decreases ts.len() - i,
{
    if i < ts.len() && ts[i] == colon() && i + 1 < ts.len() {
        lemma_args_end(ts, i + 2);
    }
}

/// The commands of a token stream: a name, then its arguments.
pub open spec fn group_from(ts: Seq<Seq<char>>, i: int) -> Seq<LineCommandView>
    decreases ts.len() - i
    via group_from_decreases
{
    if i < 0 || i >= ts.len() {
        seq![]
    } else {
        seq![LineCommandView { name: ts[i], args: args_from(ts, i + 1) }] + group_from(
            ts,
            args_end(ts, i + 1),
        )
    }
}

#[via_fn]
proof fn group_from_decreases(ts: Seq<Seq<char>>, i: int) {
    if 0 <= i < ts.len() {
        lemma_args_end(ts, i + 1);
    }
}

/// The commands of a line, or `None` when the line is no directive: it does
/// not start with `$`, it starts with `$$`, a `$` stands outside a token, or
/// it holds no token.
pub open spec fn tokenize(s: Seq<char>) -> Option<Seq<LineCommandView>> {
    if s.len() == 0 || s[0] != '$' {
        None
    } else {
        match tokens_from(s, 1) {
            None => None,
            Some(ts) => if ts.len() > 0 {
                Some(group_from(ts, 0))
            } else {
                None
            },
        }
    }
}

fn colon_string() -> (r: String)
    ensures
        r@ == colon(),
{
    let mut r = String::new();
    crate::text::push_char(&mut r, ':');
    r
}

pub open spec fn glue(p: Seq<Seq<char>>, r: Option<Seq<Seq<char>>>) -> Option<Seq<Seq<char>>> {
    match r {
        Some(ts) => Some(p + ts),
        None => None,
    }
}

fn tokens_of(v: &Vec<char>) -> (r: Option<Vec<String>>)
    ensures
        match r {
            Some(ts) => tokens_from(v@, 1) == Some(strings_view(ts@)),
            None => tokens_from(v@, 1) is None,
        },
{
    let n = v.len();
    let mut out: Vec<String> = Vec::new();
    let mut i: usize = 1;
    while i < n
        invariant
            n == v@.len(),
            1 <= i,
            glue(strings_view(out@), tokens_from(v@, i as int)) == tokens_from(v@, 1),
        decreases n - i,
    {
        let ghost s = v@;
        let ghost p = strings_view(out@);
        let c = v[i];
        if c == '$' {
            return None;
        } else if c == '"' {
            proof {
                lemma_index_of(s, '"', i + 1);
            }
            let k = find_char(v, '"', i + 1);
            if k < n {
                let t = string_of_range(v, i + 1, k);
                out.push(t);
                assert(strings_view(out@) == p.push(t@));
                assert(p + (seq![t@] + tokens_from(s, k + 1)->0) == p.push(t@) + tokens_from(s, k + 1)->0);
                i = k + 1;
            } else {
                i = i + 1;
            }
        } else if c == ':' {
            let t = colon_string();
            out.push(t);
            assert(strings_view(out@) == p.push(t@));
            assert(p + (seq![t@] + tokens_from(s, i + 1)->0) == p.push(t@) + tokens_from(s, i + 1)->0);
            i = i + 1;
        } else if c == ' ' || c == '\t' || c == '\n' || c == '\r' {
            i = i + 1;
        } else {
            proof {
                lemma_bare_end(s, i + 1);
            }
            let mut j = i + 1;
            while j < n && !(v[j] == '"' || v[j] == ' ' || v[j] == ':' || v[j] == '\n')
                invariant
                    n == v@.len(),
                    i + 1 <= j <= n,
                    bare_end(v@, i + 1) == bare_end(v@, j as int),
                decreases n - j,
            {
                j = j + 1;
            }
            let t = string_of_range(v, i, j);
            out.push(t);
            assert(strings_view(out@) == p.push(t@));
            if j < n && v[j] == ':' {
                let cs = colon_string();
                let ghost p1 = strings_view(out@);
                out.push(cs);
                assert(strings_view(out@) == p1.push(cs@));
                assert(p + (seq![t@] + (seq![cs@] + tokens_from(s, j + 1)->0)) == p1.push(cs@)
                    + tokens_from(s, j + 1)->0);
            } else {
                assert(p + (seq![t@] + tokens_from(s, j + 1)->0) == p.push(t@) + tokens_from(
                    s,
                    j + 1,
                )->0);
            }
            if j < n {
                i = j + 1;
            } else {
                assert(tokens_from(s, j + 1) == tokens_from(s, j as int));
                i = j;
            }
        }
    }
    assert(strings_view(out@) + seq![] == strings_view(out@));
    Some(out)
}

fn is_colon(t: &String) -> (r: bool)
    ensures
        r == (t@ == colon()),
{
    let r = str_eq(t, ":");
    proof {
        reveal_strlit(":");
    }
    assert(":"@ == colon());
    r
}

fn group_tokens(ts: &Vec<String>) -> (r: Vec<SlideLineCommand>)
    ensures
        commands_view(r@) == group_from(strings_view(ts@), 0),
        ts@.len() > 0 ==> r@.len() > 0,
{
    let ghost t = strings_view(ts@);
    let n = ts.len();
    let mut out: Vec<SlideLineCommand> = Vec::new();
    let mut i: usize = 0;
    while i < n
        invariant
            n == ts@.len(),
            t == strings_view(ts@),
            i <= n,
            commands_view(out@) + group_from(t, i as int) == group_from(t, 0),
            i > 0 ==> out@.len() > 0,
        decreases n - i,
    {
        let name = ts[i].clone();
        let mut args: Vec<String> = Vec::new();
        let mut j = i + 1;
        proof {
            lemma_args_end(t, j as int);
        }
        while j < n && is_colon(&ts[j])
            invariant
                n == ts@.len(),
                t == strings_view(ts@),
                i + 1 <= j <= n,
                args_end(t, i + 1) == args_end(t, j as int),
                args_from(t, i + 1) == strings_view(args@) + args_from(t, j as int),
            decreases n - j,
        {
            if j + 1 < n {
                let a = ts[j + 1].clone();
                let ghost before = strings_view(args@);
                args.push(a);
                assert(strings_view(args@) == before.push(a@));
                assert(before + (seq![t[j + 1]] + args_from(t, j + 2)) == before.push(a@) + args_from(t, j + 2));
                j = j + 2;
            } else {
                assert(args_from(t, j as int) == Seq::<Seq<char>>::empty());
                assert(args_from(t, n as int) == Seq::<Seq<char>>::empty());
                j = n;
            }
        }
        assert(args_from(t, j as int) == Seq::<Seq<char>>::empty());
        assert(strings_view(args@) + Seq::<Seq<char>>::empty() == strings_view(args@));
        let cmd = SlideLineCommand { name, args };
        let ghost before = commands_view(out@);
        out.push(cmd);
        assert(commands_view(out@) == before.push(cmd@));
        assert(cmd@ == LineCommandView { name: t[i as int], args: args_from(t, i + 1) });
        assert(before + (seq![cmd@] + group_from(t, j as int)) == before.push(cmd@) + group_from(t, j as int));
        i = j;
    }
    assert(commands_view(out@) + seq![] == commands_view(out@));
    out
}

/// Splits a directive line into its commands (see `tokenize`).
pub fn parse_slide_command(line: &str) -> (r: Option<Vec<SlideLineCommand>>)
    ensures
        match r {
            Some(cs) => tokenize(line@) == Some(commands_view(cs@)) && cs@.len() > 0,
            None => tokenize(line@) is None,
        },
{
    let v = chars_of(line);
    if v.len() == 0 || v[0] != '$' {
        return None;
    }
    match tokens_of(&v) {
        None => None,
        Some(ts) => {
            if ts.len() == 0 {
                None
            } else {
                Some(group_tokens(&ts))
            }
        },
    }
}

/// A directive, read from one command of a directive line.
#[derive(Debug, Clone)]
pub enum Command {
    Reset,
    ResetPosition,
    ResetFont,
    SetFont(String),
    SetBackgroundColor(Color),
    SetColor(Color),
    SetFontSize(u16),
    SetVirtualResolution(u32, u32),
    SetTransition(SlideTransition),
    SetPosition(Option<i64>, Option<i64>),
    /// Background or not, the path, the width and the height.
    InsertImage(bool, String, Option<i64>, Option<i64>),
}

pub enum CommandView {
    Reset,
    ResetPosition,
    ResetFont,
    SetFont(Seq<char>),
    SetBackgroundColor(Color),
    SetColor(Color),
    SetFontSize(u16),
    SetVirtualResolution(u32, u32),
    SetTransition(SlideTransition),
    SetPosition(Option<i64>, Option<i64>),
    InsertImage(bool, Seq<char>, Option<i64>, Option<i64>),
}

impl View for Command {
    type V = CommandView;

    open spec fn view(&self) -> CommandView {
        match self {
            Command::Reset => CommandView::Reset,
            Command::ResetPosition => CommandView::ResetPosition,
            Command::ResetFont => CommandView::ResetFont,
            Command::SetFont(p) => CommandView::SetFont(p@),
            Command::SetBackgroundColor(c) => CommandView::SetBackgroundColor(*c),
            Command::SetColor(c) => CommandView::SetColor(*c),
            Command::SetFontSize(n) => CommandView::SetFontSize(*n),
            Command::SetVirtualResolution(w, h) => CommandView::SetVirtualResolution(*w, *h),
            Command::SetTransition(t) => CommandView::SetTransition(*t),
            Command::SetPosition(x, y) => CommandView::SetPosition(*x, *y),
            Command::InsertImage(b, p, w, h) => CommandView::InsertImage(*b, p@, *w, *h),
        }
    }
}

pub open spec fn arg(a: Seq<Seq<char>>, k: int) -> Option<Seq<char>> {
    if 0 <= k < a.len() {
        Some(a[k])
    } else {
        None
    }
}

/// An optional decimal argument: absent gives `Some(None)`, unreadable gives `None`.
pub open spec fn optional_decimal(a: Option<Seq<char>>) -> Option<Option<i64>> {
    match a {
        None => Some(None),
        Some(s) => match decimal_thousandths(s) {
            Some(v) => Some(Some(v as i64)),
            None => None,
        },
    }
}

/// A coordinate of `set-position`: absent or `current` keeps the coordinate
/// (`Some(None)`), unreadable gives `None`.
pub open spec fn position_arg(a: Option<Seq<char>>) -> Option<Option<i64>> {
    match a {
        Some(s) => if s == "current"@ {
            Some(None)
        } else {
            optional_decimal(a)
        },
        None => Some(None),
    }
}

pub open spec fn unsigned_or(a: Option<Seq<char>>, d: u32) -> u32 {
    match a {
        Some(s) => match unsigned_value(s, 0xffff_ffff) {
            Some(v) => v as u32,
            None => d,
        },
        None => d,
    }
}

pub open spec fn is_fade_name(n: Seq<char>) -> bool {
    n == "fade"@ || n == "color_fade"@ || n == "fade_to"@
}

pub open spec fn transition_type_of(n: Seq<char>, color: Option<Seq<char>>) -> SlideTransitionType {
    if n == "horizontal"@ || n == "horizontal_slide"@ {
        SlideTransitionType::HorizontalSlide
    } else if n == "vertical"@ || n == "vertical_slide"@ {
        SlideTransitionType::VerticalSlide
    } else if is_fade_name(n) {
        SlideTransitionType::FadeTo(
            match color {
                None => Color { r: 0, g: 0, b: 0, a: 255 },
                Some(c) => match parse_color(c) {
                    Some(c) => c,
                    None => color_black(),
                },
            },
        )
    } else {
        SlideTransitionType::HorizontalSlide
    }
}

pub open spec fn easing_of(n: Seq<char>) -> EasingFunction {
    if n == "quadratic_ease_in"@ {
        EasingFunction::QuadraticEaseIn
    } else if n == "quadratic_ease_out"@ {
        EasingFunction::QuadraticEaseOut
    } else if n == "cubic_ease_in"@ {
        EasingFunction::CubicEaseIn
    } else if n == "cubic_ease_out"@ {
        EasingFunction::CubicEaseOut
    } else {
        EasingFunction::Linear
    }
}

/// A duration in milliseconds: one second when absent, unreadable or negative.
pub open spec fn duration_of(a: Option<Seq<char>>) -> u64 {
    match a {
        Some(s) => match decimal_thousandths(s) {
            Some(v) => if v >= 0 {
                v as u64
            } else {
                1000
            },
            None => 1000,
        },
        None => 1000,
    }
}

/// `transition:type[:fade color]:easing:seconds`.
pub open spec fn transition_of(a: Seq<Seq<char>>) -> SlideTransition {
    let name = if a.len() > 0 {
        a[0]
    } else {
        "horizontal_slide"@
    };
    let k = if is_fade_name(name) {
        2int
    } else {
        1int
    };
    SlideTransition {
        transition_type: transition_type_of(name, arg(a, 1)),
        easing_function: match arg(a, k) {
            Some(e) => easing_of(e),
            None => EasingFunction::Linear,
        },
        time: 0,
        finish_time: duration_of(arg(a, k + 1)),
    }
}

/// The directive that a command denotes; `None` for an unknown name or an
/// argument that cannot be read.
pub open spec fn parse_command(c: LineCommandView) -> Option<CommandView> {
    let n = c.name;
    let a = c.args;
    if n == "reset-position"@ {
        Some(CommandView::ResetPosition)
    } else if n == "image"@ || n == "bkimage"@ {
        if a.len() == 0 {
            None
        } else {
            match (optional_decimal(arg(a, 1)), optional_decimal(arg(a, 2))) {
                (Some(w), Some(h)) => Some(CommandView::InsertImage(n == "bkimage"@, a[0], w, h)),
                _ => None,
            }
        }
    } else if n == "set-position"@ {
        match (position_arg(arg(a, 0)), position_arg(arg(a, 1))) {
            (Some(x), Some(y)) => Some(CommandView::SetPosition(x, y)),
            _ => None,
        }
    } else if n == "color"@ || n == "background_color"@ {
        if a.len() == 0 {
            None
        } else {
            match parse_color(a[0]) {
                Some(col) => Some(
                    if n == "color"@ {
                        CommandView::SetColor(col)
                    } else {
                        CommandView::SetBackgroundColor(col)
                    },
                ),
                None => None,
            }
        }
    } else if n == "font"@ {
        if a.len() > 0 {
            Some(CommandView::SetFont(a[0]))
        } else {
            Some(CommandView::ResetFont)
        }
    } else if n == "font-size"@ {
        if a.len() > 0 {
            match unsigned_value(a[0], 0xffff) {
                Some(v) => Some(CommandView::SetFontSize(v as u16)),
                None => None,
            }
        } else {
            None
        }
    } else if n == "reset-font"@ {
        Some(CommandView::ResetFont)
    } else if n == "resolution"@ {
        Some(CommandView::SetVirtualResolution(unsigned_or(arg(a, 0), 1280), unsigned_or(arg(a, 1), 720)))
    } else if n == "transition"@ {
        Some(CommandView::SetTransition(transition_of(a)))
    } else {
        None
    }
}

fn optional_decimal_arg(a: &Vec<String>, k: usize) -> (r: Option<Option<i64>>)
    ensures
        r == optional_decimal(arg(strings_view(a@), k as int)),
{
    if k < a.len() {
        match parse_thousandths(a[k].as_str()) {
            Some(v) => Some(Some(v)),
            None => None,
        }
    } else {
        Some(None)
    }
}

fn position_of(a: &Vec<String>, k: usize) -> (r: Option<Option<i64>>)
    ensures
        r == position_arg(arg(strings_view(a@), k as int)),
{
    if k < a.len() && str_eq(&a[k], "current") {
        Some(None)
    } else {
        optional_decimal_arg(a, k)
    }
}

fn unsigned_arg_or(a: &Vec<String>, k: usize, d: u32) -> (r: u32)
    ensures
        r == unsigned_or(arg(strings_view(a@), k as int), d),
{
    if k < a.len() {
        match parse_unsigned(a[k].as_str(), 0xffff_ffff) {
            Some(v) => v,
            None => d,
        }
    } else {
        d
    }
}

fn easing_arg(a: &Vec<String>, k: usize) -> (r: EasingFunction)
    ensures
        r == (match arg(strings_view(a@), k as int) {
            Some(e) => easing_of(e),
            None => EasingFunction::Linear,
        }),
{
    if k >= a.len() {
        EasingFunction::Linear
    } else if str_eq(&a[k], "quadratic_ease_in") {
        EasingFunction::QuadraticEaseIn
    } else if str_eq(&a[k], "quadratic_ease_out") {
        EasingFunction::QuadraticEaseOut
    } else if str_eq(&a[k], "cubic_ease_in") {
        EasingFunction::CubicEaseIn
    } else if str_eq(&a[k], "cubic_ease_out") {
        EasingFunction::CubicEaseOut
    } else {
        EasingFunction::Linear
    }
}

fn duration_arg(a: &Vec<String>, k: usize) -> (r: u64)
    ensures
        r == duration_of(arg(strings_view(a@), k as int)),
{
    if k < a.len() {
        match parse_thousandths(a[k].as_str()) {
            Some(v) => if v >= 0 {
                v as u64
            } else {
                1000
            },
            None => 1000,
        }
    } else {
        1000
    }
}

fn is_fade(n: &String) -> (r: bool)
    ensures
        r == is_fade_name(n@),
{
    str_eq(n, "fade") || str_eq(n, "color_fade") || str_eq(n, "fade_to")
}

fn read_transition(a: &Vec<String>) -> (r: SlideTransition)
    ensures
        r == transition_of(strings_view(a@)),
{
    let ghost av = strings_view(a@);
    let default_name = String::from_str("horizontal_slide");
    let name: &String = if a.len() > 0 {
        &a[0]
    } else {
        &default_name
    };
    assert(name@ == (if av.len() > 0 {
        av[0]
    } else {
        "horizontal_slide"@
    }));
    let fade = is_fade(name);
    let transition_type = if str_eq(name, "horizontal") || str_eq(name, "horizontal_slide") {
        SlideTransitionType::HorizontalSlide
    } else if str_eq(name, "vertical") || str_eq(name, "vertical_slide") {
        SlideTransitionType::VerticalSlide
    } else if fade {
        let color = if a.len() > 1 {
            match Color::parse_hexadecimal_literal(a[1].as_str()) {
                Some(c) => c,
                None => Color::black(),
            }
        } else {
            Color::new(0, 0, 0, 255)
        };
        SlideTransitionType::FadeTo(color)
    } else {
        SlideTransitionType::HorizontalSlide
    };
    let k: usize = if fade {
        2
    } else {
        1
    };
    SlideTransition {
        transition_type,
        easing_function: easing_arg(a, k),
        time: 0,
        finish_time: duration_arg(a, k + 1),
    }
}

/// Reads the directive of one command (see `parse_command`).
pub fn parse_single_command(command: &SlideLineCommand) -> (r: Option<Command>)
    ensures
        match r {
            Some(c) => parse_command(command@) == Some(c@),
            None => parse_command(command@) is None,
        },
{
    let n = &command.name;
    let a = &command.args;
    let ghost av = strings_view(a@);
    if str_eq(n, "reset-position") {
        Some(Command::ResetPosition)
    } else if str_eq(n, "image") || str_eq(n, "bkimage") {
        if a.len() == 0 {
            None
        } else {
            match (optional_decimal_arg(a, 1), optional_decimal_arg(a, 2)) {
                (Some(w), Some(h)) => Some(
                    Command::InsertImage(str_eq(n, "bkimage"), a[0].clone(), w, h),
                ),
                _ => None,
            }
        }
    } else if str_eq(n, "set-position") {
        match (position_of(a, 0), position_of(a, 1)) {
            (Some(x), Some(y)) => Some(Command::SetPosition(x, y)),
            _ => None,
        }
    } else if str_eq(n, "color") || str_eq(n, "background_color") {
        if a.len() == 0 {
            None
        } else {
            match Color::parse_hexadecimal_literal(a[0].as_str()) {
                Some(col) => Some(
                    if str_eq(n, "color") {
                        Command::SetColor(col)
                    } else {
                        Command::SetBackgroundColor(col)
                    },
                ),
                None => None,
            }
        }
    } else if str_eq(n, "font") {
        if a.len() > 0 {
            Some(Command::SetFont(a[0].clone()))
        } else {
            Some(Command::ResetFont)
        }
    } else if str_eq(n, "font-size") {
        if a.len() > 0 {
            match parse_unsigned(a[0].as_str(), 0xffff) {
                Some(v) => Some(Command::SetFontSize(v as u16)),
                None => None,
            }
        } else {
            None
        }
    } else if str_eq(n, "reset-font") {
        Some(Command::ResetFont)
    } else if str_eq(n, "resolution") {
        Some(Command::SetVirtualResolution(unsigned_arg_or(a, 0, 1280), unsigned_arg_or(a, 1, 720)))
    } else if str_eq(n, "transition") {
        Some(Command::SetTransition(read_transition(a)))
    } else {
        None
    }
}

/// What the interpreter carries from one directive to the next.
pub struct SlideSettingsContext {
    /// Blank lines since the last text line.
    pub current_line: usize,
    pub current_x: Option<i64>,
    pub current_y: Option<i64>,
    pub current_background_color: Color,
    pub current_element_color: Color,
    pub current_font_size: u16,
    pub current_font_path: Option<String>,
}

pub struct ContextView {
    pub current_line: nat,
    pub current_x: Option<i64>,
    pub current_y: Option<i64>,
    pub current_background_color: Color,
    pub current_element_color: Color,
    pub current_font_size: u16,
    pub current_font_path: Option<Seq<char>>,
}

impl View for SlideSettingsContext {
    type V = ContextView;

    open spec fn view(&self) -> ContextView {
        ContextView {
            current_line: self.current_line as nat,
            current_x: self.current_x,
            current_y: self.current_y,
            current_background_color: self.current_background_color,
            current_element_color: self.current_element_color,
            current_font_size: self.current_font_size,
            current_font_path: opt_str_view(self.current_font_path),
        }
    }
}

pub open spec fn default_context() -> ContextView {
    ContextView {
        current_line: 0,
        current_x: None,
        current_y: None,
        current_background_color: color_white(),
        current_element_color: color_black(),
        current_font_size: 48,
        current_font_path: None,
    }
}

impl Default for SlideSettingsContext {
    fn default() -> (c: SlideSettingsContext)
        ensures
            c@ == default_context(),
    {
        SlideSettingsContext {
            current_line: 0,
            current_x: None,
            current_y: None,
            current_background_color: Color::white(),
            current_element_color: Color::black(),
            current_font_size: 48,
            current_font_path: None,
        }
    }
}

pub open spec fn with_position(c: ContextView, x: Option<i64>, y: Option<i64>) -> ContextView {
    ContextView { current_x: x, current_y: y, current_line: 0, ..c }
}

impl SlideSettingsContext {
    pub fn x(&self) -> (r: Option<i64>)
        ensures
            r == self.current_x,
    {
        self.current_x
    }

    pub fn y(&self) -> (r: Option<i64>)
        ensures
            r == self.current_y,
    {
        self.current_y
    }

    /// Places the layout cursor and restarts the blank-line count.
    pub fn set_position(&mut self, x: Option<i64>, y: Option<i64>)
        ensures
            final(self)@ == with_position(old(self)@, x, y),
    {
        self.current_x = x;
        self.current_y = y;
        self.current_line = 0;
    }
}

pub open spec fn keep_or(new: Option<i64>, old: Option<i64>) -> Option<i64> {
    match new {
        Some(v) => Some(v),
        None => old,
    }
}

/// What a directive does to the context; the ones that act on a page or
/// the document leave it as it is.
pub open spec fn run_command(c: ContextView, cmd: CommandView) -> ContextView {
    match cmd {
        CommandView::SetColor(col) => ContextView { current_element_color: col, ..c },
        CommandView::SetBackgroundColor(col) => ContextView { current_background_color: col, ..c },
        CommandView::SetFontSize(n) => ContextView { current_font_size: n, ..c },
        CommandView::SetFont(p) => ContextView { current_font_path: Some(p), ..c },
        CommandView::ResetPosition => with_position(c, None, None),
        CommandView::ResetFont => ContextView { current_font_path: None, ..c },
        CommandView::SetPosition(x, y) => with_position(c, keep_or(x, c.current_x), keep_or(y, c.current_y)),
        _ => c,
    }
}

/// As `run_command`, where an image directive adds an image to the page and
/// a transition directive sets the page's transition.
pub open spec fn run_command_on_page(c: ContextView, cmd: CommandView, p: PageView) -> (ContextView, PageView) {
    match cmd {
        CommandView::SetTransition(t) => (c, PageView { transition: Some(t), ..p }),
        CommandView::InsertImage(background, location, w, h) => (
            c,
            PageView {
                elements: p.elements.push(
                    ElementView::Image(
                        ImageElementView {
                            background,
                            location,
                            x: c.current_x,
                            y: c.current_y,
                            w,
                            h,
                            color: c.current_element_color,
                        },
                    ),
                ),
                ..p
            },
        ),
        _ => (run_command(c, cmd), p),
    }
}

fn clone_path(o: &Option<String>) -> (r: Option<String>)
    ensures
        opt_str_view(r) == opt_str_view(*o),
{
    match o {
        Some(s) => Some(s.clone()),
        None => None,
    }
}

/// Carries out a directive on the context.
pub fn execute_command(context: &mut SlideSettingsContext, command: Command)
    ensures
        final(context)@ == run_command(old(context)@, command@),
        final(context).current_line <= old(context).current_line,
{
    match command {
        Command::SetColor(color) => {
            context.current_element_color = color;
        },
        Command::SetBackgroundColor(color) => {
            context.current_background_color = color;
        },
        Command::SetFontSize(font_size) => {
            context.current_font_size = font_size;
        },
        Command::SetFont(font_name) => {
            context.current_font_path = Some(font_name);
        },
        Command::ResetPosition => {
            context.set_position(None, None);
        },
        Command::ResetFont => {
            context.current_font_path = None;
        },
        Command::SetPosition(x, y) => {
            let nx = match x {
                Some(v) => Some(v),
                None => context.x(),
            };
            let ny = match y {
                Some(v) => Some(v),
                None => context.y(),
            };
            context.set_position(nx, ny);
        },
        _ => {},
    }
}

/// Carries out a directive inside a page: an image goes onto the page, a
/// transition becomes the page's.
pub fn execute_command_on_page(context: &mut SlideSettingsContext, command: Command, page: &mut Page)
    ensures
        (final(context)@, final(page)@) == run_command_on_page(old(context)@, command@, old(page)@),
        final(context).current_line <= old(context).current_line,
{
    match command {
        Command::SetTransition(t) => {
            page.transition = Some(t);
        },
        Command::InsertImage(background, path, width, height) => {
            let image = ImageElement {
                location: path,
                x: context.x(),
                y: context.y(),
                background,
                w: width,
                h: height,
                color: context.current_element_color,
            };
            let ghost before = elements_view(page.elements@);
            page.elements.push(SlideElement::Image(image));
            assert(elements_view(page.elements@) == before.push(ElementView::Image(image@)));
        },
        _ => {
            execute_command(context, command);
        },
    }
}

/// Reads a command and carries it out on the context; unreadable ones are dropped.
pub fn handle_command(context: &mut SlideSettingsContext, command: &SlideLineCommand)
    ensures
        final(context)@ == (match parse_command(command@) {
            Some(k) => run_command(old(context)@, k),
            None => old(context)@,
        }),
        final(context).current_line <= old(context).current_line,
{
    if let Some(command) = parse_single_command(command) {
        execute_command(context, command);
    }
}

/// Reads a command and carries it out inside a page; unreadable ones are dropped.
pub fn handle_command_with_page(context: &mut SlideSettingsContext, command: &SlideLineCommand, page: &mut Page)
    ensures
        (final(context)@, final(page)@) == (match parse_command(command@) {
            Some(k) => run_command_on_page(old(context)@, k, old(page)@),
            None => (old(context)@, old(page)@),
        }),
        final(context).current_line <= old(context).current_line,
{
    if let Some(command) = parse_single_command(command) {
        execute_command_on_page(context, command, page);
    }
}

/// Tabs widened to four spaces.
pub open spec fn expand_tabs(s: Seq<char>) -> Seq<char>
    decreases s.len(),
{
    if s.len() == 0 {
        seq![]
    } else {
        expand_tabs(s.drop_last()) + if s.last() == '\t' {
            seq![' ', ' ', ' ', ' ']
        } else {
            seq![s.last()]
        }
    }
}

/// The text of a body line: without a leading `$`, tabs widened.
pub open spec fn body_text(line: Seq<char>) -> Seq<char> {
    if line.len() > 0 && line[0] == '$' {
        expand_tabs(line.subrange(1, line.len() as int))
    } else {
        expand_tabs(line)
    }
}

/// A page being built: the context, the page so far, and the blank lines
/// since the last text line.
pub struct PageBuild {
    pub ctx: ContextView,
    pub page: PageView,
    pub blank: nat,
}

/// Carries out the commands of one directive line inside a page, from the
/// `i`-th on; after each the page takes the context's background color.
pub open spec fn apply_line_commands(cmds: Seq<LineCommandView>, i: int, c: ContextView, p: PageView) -> (ContextView, PageView)
    decreases cmds.len() - i,
{
    if i < 0 || i >= cmds.len() {
        (c, p)
    } else {
        let (c2, p2) = match parse_command(cmds[i]) {
            Some(k) => run_command_on_page(c, k, p),
            None => (c, p),
        };
        apply_line_commands(cmds, i + 1, c2, PageView { background_color: c2.current_background_color, ..p2 })
    }
}

/// One source line inside a page block.
pub open spec fn page_line(b: PageBuild, line: Seq<char>) -> PageBuild {
    match tokenize(line) {
        Some(cmds) => {
            let (c, p) = apply_line_commands(cmds, 0, b.ctx, b.page);
            PageBuild { ctx: c, page: p, blank: b.blank }
        },
        None => if line.len() >= 1 {
            PageBuild {
                ctx: ContextView { current_line: 0, ..b.ctx },
                page: PageView {
                    elements: b.page.elements.push(
                        ElementView::Text(
                            TextElementView {
                                x: b.ctx.current_x,
                                y: b.ctx.current_y,
                                line_breaks: b.blank,
                                text: body_text(line),
                                color: b.ctx.current_element_color,
                                font_size: b.ctx.current_font_size,
                                font_name: b.ctx.current_font_path,
                            },
                        ),
                    ),
                    ..b.page
                },
                blank: 0,
            }
        } else {
            PageBuild { ctx: ContextView { current_line: b.ctx.current_line + 1, ..b.ctx }, blank: b.blank + 1, ..b }
        },
    }
}

pub open spec fn page_lines_from(lines: Seq<Seq<char>>, i: int, b: PageBuild) -> PageBuild
    decreases lines.len() - i,
{
    if i < 0 || i >= lines.len() {
        b
    } else {
        page_lines_from(lines, i + 1, page_line(b, lines[i]))
    }
}

/// A page with no elements, in the context's background color.
pub open spec fn page_in(c: ContextView) -> PageView {
    PageView { transition: None, background_color: c.current_background_color, elements: seq![] }
}

/// The page that the lines of a page block make, and the context after it;
/// the page starts in the context's background color and the position is
/// unset when the block opens.
pub open spec fn build_page(c: ContextView, lines: Seq<Seq<char>>) -> (ContextView, PageView) {
    let b = page_lines_from(lines, 0, PageBuild { ctx: with_position(c, None, None), page: page_in(c), blank: 0 });
    (b.ctx, b.page)
}

fn body_text_of(line: &String) -> (r: String)
    ensures
        r@ == body_text(line@),
{
    let v = chars_of(line.as_str());
    let from: usize = if v.len() > 0 && v[0] == '$' {
        1
    } else {
        0
    };
    let ghost body = v@.subrange(from as int, v@.len() as int);
    let mut out = String::new();
    let mut k = from;
    while k < v.len()
        invariant
            from <= k <= v@.len(),
            body == v@.subrange(from as int, v@.len() as int),
            out@ == expand_tabs(v@.subrange(from as int, k as int)),
        decreases v@.len() - k,
    {
        let c = v[k];
        assert(v@.subrange(from as int, k + 1).drop_last() == v@.subrange(from as int, k as int));
        if c == '\t' {
            push_char(&mut out, ' ');
            push_char(&mut out, ' ');
            push_char(&mut out, ' ');
            push_char(&mut out, ' ');
        } else {
            push_char(&mut out, c);
        }
        k = k + 1;
    }
    assert(v@.subrange(from as int, v@.len() as int) == body);
    if from == 0 {
        assert(body == v@);
    }
    out
}

fn apply_commands_on_page(context: &mut SlideSettingsContext, commands: &Vec<SlideLineCommand>, page: &mut Page)
    ensures
        (final(context)@, final(page)@) == apply_line_commands(commands_view(commands@), 0, old(context)@, old(page)@),
        final(context).current_line <= old(context).current_line,
{
    let ghost cv = commands_view(commands@);
    let mut j: usize = 0;
    while j < commands.len()
        invariant
            j <= commands@.len(),
            cv == commands_view(commands@),
            apply_line_commands(cv, 0, old(context)@, old(page)@) == apply_line_commands(cv, j as int, context@, page@),
            context.current_line <= old(context).current_line,
        decreases commands@.len() - j,
    {
        handle_command_with_page(context, &commands[j], page);
        page.background_color = context.current_background_color;
        j = j + 1;
    }
}

/// Builds the page of the lines of a page block (see `build_page`).
pub fn parse_page(context: &mut SlideSettingsContext, page_lines: Vec<String>) -> (r: Page)
    ensures
        (final(context)@, r@) == build_page(old(context)@, strings_view(page_lines@)),
{
    let ghost lines = strings_view(page_lines@);
    let mut new_page = Page {
        transition: None,
        background_color: context.current_background_color,
        elements: Vec::new(),
    };
    assert(elements_view(new_page.elements@) =~= seq![]);
    context.set_position(None, None);
    let mut blank: usize = 0;
    let mut i: usize = 0;
    while i < page_lines.len()
        invariant
            i <= page_lines@.len(),
            lines == strings_view(page_lines@),
            blank <= i,
            context.current_line <= i,
            build_page(old(context)@, lines) == ({
                let b = page_lines_from(lines, i as int, PageBuild { ctx: context@, page: new_page@, blank: blank as nat });
                (b.ctx, b.page)
            }),
        decreases page_lines@.len() - i,
    {
        let line = &page_lines[i];
        assert(line@ == lines[i as int]);
        match parse_slide_command(line.as_str()) {
            Some(commands) => {
                apply_commands_on_page(context, &commands, &mut new_page);
            },
            None => {
                if line.as_str().unicode_len() >= 1 {
                    let text = TextElement {
                        x: context.x(),
                        y: context.y(),
                        line_breaks: blank,
                        text: body_text_of(line),
                        font_size: context.current_font_size,
                        font_name: clone_path(&context.current_font_path),
                        color: context.current_element_color,
                    };
                    let ghost before = elements_view(new_page.elements@);
                    new_page.elements.push(SlideElement::Text(text));
                    assert(elements_view(new_page.elements@) == before.push(ElementView::Text(text@)));
                    context.current_line = 0;
                    blank = 0;
                } else {
                    context.current_line = context.current_line + 1;
                    blank = blank + 1;
                }
            },
        }
        i = i + 1;
    }
    new_page
}

/// Whether a line is a directive whose first command is named `name`.
pub open spec fn opens_with(line: Seq<char>, name: Seq<char>) -> bool {
    match tokenize(line) {
        Some(cmds) => cmds[0].name == name,
        None => false,
    }
}

/// The first line at or after `i` whose first command is `name`, or the count of lines.
pub open spec fn closing_line(lines: Seq<Seq<char>>, i: int, name: Seq<char>) -> int
    decreases lines.len() - i,
{
    if i < 0 || i >= lines.len() {
        lines.len() as int
    } else if opens_with(lines[i], name) {
        i
    } else {
        closing_line(lines, i + 1, name)
    }
}

pub proof fn lemma_closing_line(lines: Seq<Seq<char>>, i: int, name: Seq<char>)
    requires
        0 <= i <= lines.len(),
    ensures
        i <= closing_line(lines, i, name) <= lines.len(),
        closing_line(lines, i, name) < lines.len() ==> opens_with(lines[closing_line(lines, i, name)], name),
    decreases lines.len() - i,
{
    if i < lines.len() && !opens_with(lines[i], name) {
        lemma_closing_line(lines, i + 1, name);
    }
}

fn opens_with_name(line: &String, name: &str) -> (r: bool)
    ensures
        r == opens_with(line@, name@),
{
    match parse_slide_command(line.as_str()) {
        Some(commands) => str_eq(&commands[0].name, name),
        None => false,
    }
}

/// The first line from `from` on whose first command is `match_name`.
pub fn find_closing_command(lines: &Vec<String>, from: usize, match_name: &str) -> (r: Option<usize>)
    requires
        from <= lines@.len(),
    ensures
        match r {
            Some(k) => k as int == closing_line(strings_view(lines@), from as int, match_name@) && k
                < lines.len(),
            None => closing_line(strings_view(lines@), from as int, match_name@) == lines@.len(),
        },
{
    let ghost lv = strings_view(lines@);
    let mut k = from;
    while k < lines.len()
        invariant
            from <= k <= lines@.len(),
            lv == strings_view(lines@),
            closing_line(lv, from as int, match_name@) == closing_line(lv, k as int, match_name@),
        decreases lines@.len() - k,
    {
        assert(lv[k as int] == lines@[k as int]@);
        if opens_with_name(&lines[k], match_name) {
            return Some(k);
        }
        k = k + 1;
    }
    None
}

/// What compiling has gathered so far.
pub struct CompileState {
    pub ctx: ContextView,
    pub pages: Seq<PageView>,
    pub resolution: (u32, u32),
    pub default_transition: Option<SlideTransition>,
}

/// Why a source does not compile.
#[derive(Debug, Clone, Copy, PartialEq, Eq, Structural)]
pub enum CompileError {
    /// A `page` directive with no `end_page` after it.
    UnclosedPage,
}

/// A directive outside any page: `resolution` and `transition` set the
/// document's resolution and default transition, the others act on the context.
pub open spec fn run_top_command(st: CompileState, k: CommandView) -> CompileState {
    match k {
        CommandView::SetVirtualResolution(w, h) => CompileState { resolution: (w, h), ..st },
        CommandView::SetTransition(t) => CompileState { default_transition: Some(t), ..st },
        _ => CompileState { ctx: run_command(st.ctx, k), ..st },
    }
}

/// The directives of a line outside any page, from the `i`-th on, in order;
/// unreadable ones are dropped.
pub open spec fn top_commands(cmds: Seq<LineCommandView>, i: int, st: CompileState) -> CompileState
    decreases cmds.len() - i,
{
    if i < 0 || i >= cmds.len() {
        st
    } else {
        top_commands(
            cmds,
            i + 1,
            match parse_command(cmds[i]) {
                Some(k) => run_top_command(st, k),
                None => st,
            },
        )
    }
}

#[verifier::opaque]
pub open spec fn compile_from(lines: Seq<Seq<char>>, i: int, st: CompileState) -> Result<CompileState, CompileError>
    decreases lines.len() - i
    via compile_from_decreases
{
    if i < 0 || i >= lines.len() {
        Ok(st)
    } else {
        match tokenize(lines[i]) {
            None => compile_from(lines, i + 1, st),
            Some(cmds) => {
                let n = cmds[0].name;
                if n == "page"@ {
                    let e = closing_line(lines, i + 1, "end_page"@);
                    if e >= lines.len() {
                        Err(CompileError::UnclosedPage)
                    } else {
                        let (c, p) = build_page(st.ctx, lines.subrange(i + 1, e));
                        compile_from(lines, e + 1, CompileState { ctx: c, pages: st.pages.push(p), ..st })
                    }
                } else {
                    compile_from(lines, i + 1, top_commands(cmds, 0, st))
                }
            },
        }
    }
}

#[via_fn]
proof fn compile_from_decreases(lines: Seq<Seq<char>>, i: int, st: CompileState) {
    if 0 <= i < lines.len() {
        lemma_closing_line(lines, i + 1, "end_page"@);
    }
}

pub open spec fn initial_state() -> CompileState {
    CompileState { ctx: default_context(), pages: seq![], resolution: (1280, 720), default_transition: None }
}

/// The document that a source compiles to: comment lines are dropped, then
/// each line is read in turn. A line whose first command is `page` opens a
/// block that runs to the next line whose first command is `end_page` (with
/// none, the whole compile fails); every command of any other directive line
/// is carried out in order.
pub open spec fn compile(source: Seq<char>) -> Result<SlideView, CompileError> {
    match compile_from(lines_of(strip_comments(source)), 0, initial_state()) {
        Ok(st) => Ok(
            SlideView {
                file_name: seq![],
                last_modified_time: 0,
                pages: st.pages,
                current_page: 0,
                resolution: st.resolution,
                default_transition: st.default_transition,
            },
        ),
        Err(e) => Err(e),
    }
}

fn copy_lines(lines: &Vec<String>, from: usize, to: usize) -> (r: Vec<String>)
    requires
        from <= to <= lines@.len(),
    ensures
        strings_view(r@) == strings_view(lines@).subrange(from as int, to as int),
{
    let mut r: Vec<String> = Vec::new();
    let mut k = from;
    while k < to
        invariant
            from <= k <= to <= lines@.len(),
            strings_view(r@) == strings_view(lines@).subrange(from as int, k as int),
        decreases to - k,
    {
        let ghost before = strings_view(r@);
        r.push(lines[k].clone());
        assert(strings_view(r@) == before.push(lines@[k as int]@));
        assert(strings_view(lines@).subrange(from as int, k + 1) == strings_view(lines@).subrange(from as int, k as int).push(lines@[k as int]@));
        k = k + 1;
    }
    r
}

fn run_top_commands(b: &mut DocumentBuilder, commands: &Vec<SlideLineCommand>)
    ensures
        final(b)@ == top_commands(commands_view(commands@), 0, old(b)@),
        final(b).pages == old(b).pages,
{
    let ghost cv = commands_view(commands@);
    let mut j: usize = 0;
    while j < commands.len()
        invariant
            j <= commands@.len(),
            cv == commands_view(commands@),
            top_commands(cv, 0, old(b)@) == top_commands(cv, j as int, b@),
            b.pages == old(b).pages,
        decreases commands@.len() - j,
    {
        match parse_single_command(&commands[j]) {
            Some(Command::SetVirtualResolution(w, h)) => {
                b.resolution = (w, h);
            },
            Some(Command::SetTransition(t)) => {
                b.default_transition = Some(t);
            },
            Some(k) => {
                execute_command(&mut b.context, k);
            },
            None => {},
        }
        j = j + 1;
    }
}

struct DocumentBuilder {
    context: SlideSettingsContext,
    pages: Vec<Page>,
    resolution: (u32, u32),
    default_transition: Option<SlideTransition>,
}

impl View for DocumentBuilder {
    type V = CompileState;

    closed spec fn view(&self) -> CompileState {
        CompileState {
            ctx: self.context@,
            pages: pages_view(self.pages@),
            resolution: self.resolution,
            default_transition: self.default_transition,
        }
    }
}

/// Takes in line `i` (with the block that it opens): the index of the next
/// line to read, or the error.
fn compile_step(lines: &Vec<String>, i: usize, b: &mut DocumentBuilder) -> (r: Result<usize, CompileError>)
    requires
        i < lines.len(),
        old(b).pages@.len() * 2 <= i,
    ensures
        match r {
            Ok(j) => i < j <= lines@.len() && final(b).pages@.len() * 2 <= j && compile_from(
                strings_view(lines@),
                i as int,
                old(b)@,
            ) == compile_from(strings_view(lines@), j as int, final(b)@),
            Err(e) => compile_from(strings_view(lines@), i as int, old(b)@) == Err::<CompileState, CompileError>(e),
        },
{
    let ghost lv = strings_view(lines@);
    assert(lv[i as int] == lines@[i as int]@);
    reveal(compile_from);
    match parse_slide_command(lines[i].as_str()) {
        Some(commands) => {
            assert(commands_view(commands@)[0] == commands@[0]@);
            if str_eq(&commands[0].name, "page") {
                proof {
                    lemma_closing_line(lv, i + 1, "end_page"@);
                }
                match find_closing_command(lines, i + 1, "end_page") {
                    Some(e) => {
                        let page_source_lines = copy_lines(lines, i + 1, e);
                        let new_page = parse_page(&mut b.context, page_source_lines);
                        let ghost before = pages_view(b.pages@);
                        b.pages.push(new_page);
                        assert(pages_view(b.pages@) == before.push(new_page@));
                        Ok(e + 1)
                    },
                    None => Err(CompileError::UnclosedPage),
                }
            } else {
                run_top_commands(b, &commands);
                Ok(i + 1)
            }
        },
        None => Ok(i + 1),
    }
}

/// Compiles a slideshow source (see `compile`).
pub fn compile_slide(slide_source: &str) -> (r: Result<Slide, CompileError>)
    ensures
        match r {
            Ok(s) => compile(slide_source@) == Ok::<SlideView, CompileError>(s@) && s.pages@.len() <= isize::MAX,
            Err(e) => compile(slide_source@) == Err::<SlideView, CompileError>(e),
        },
{
    let text = remove_comments_from_source(slide_source);
    let lines = split_lines(text.as_str());
    let ghost lv = strings_view(lines@);
    assert(lv == lines_of(strip_comments(slide_source@)));
    let mut b = DocumentBuilder {
        context: SlideSettingsContext::default(),
        pages: Vec::new(),
        resolution: (1280, 720),
        default_transition: None,
    };
    assert(pages_view(b.pages@) =~= seq![]);
    assert(b@ == initial_state());
    let mut i: usize = 0;
    while i < lines.len()
        invariant
            i <= lines@.len(),
            lv == strings_view(lines@),
            lv == lines_of(strip_comments(slide_source@)),
            b.pages@.len() * 2 <= i,
            compile_from(lv, 0, initial_state()) == compile_from(lv, i as int, b@),
        decreases lines@.len() - i,
    {
        match compile_step(&lines, i, &mut b) {
            Ok(j) => {
                i = j;
            },
            Err(e) => {
                assert(compile_from(lv, 0, initial_state()) == Err::<CompileState, CompileError>(e));
                assert(compile(slide_source@) == Err::<SlideView, CompileError>(e));
                return Err(e);
            },
        }
    }
    proof {
        reveal(compile_from);
    }
    assert(compile_from(lv, i as int, b@) == Ok::<CompileState, CompileError>(b@));
    Ok(
        Slide {
            file_name: String::new(),
            last_modified_time: 0,
            pages: b.pages,
            current_page: 0,
            resolution: b.resolution,
            default_transition: b.default_transition,
        },
    )
}

} // verus!
