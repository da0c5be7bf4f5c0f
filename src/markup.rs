use vstd::prelude::*;
use crate::text::{chars_of, push_char};

verus! {

/// A run of text and its style.
#[derive(Debug)]
pub enum Markup {
    Plain(String),
    Bold(String),
    Strikethrough(String),
    Italics(String),
    Underlined(String),
}

pub enum MarkupView {
    Plain(Seq<char>),
    Bold(Seq<char>),
    Strikethrough(Seq<char>),
    Italics(Seq<char>),
    Underlined(Seq<char>),
}

impl MarkupView {
    pub open spec fn text(self) -> Seq<char> {
        match self {
            MarkupView::Plain(t) => t,
            MarkupView::Bold(t) => t,
            MarkupView::Strikethrough(t) => t,
            MarkupView::Italics(t) => t,
            MarkupView::Underlined(t) => t,
        }
    }
}

impl View for Markup {
    type V = MarkupView;

    open spec fn view(&self) -> MarkupView {
        match self {
            Markup::Plain(t) => MarkupView::Plain(t@),
            Markup::Bold(t) => MarkupView::Bold(t@),
            Markup::Strikethrough(t) => MarkupView::Strikethrough(t@),
            Markup::Italics(t) => MarkupView::Italics(t@),
            Markup::Underlined(t) => MarkupView::Underlined(t@),
        }
    }
}

impl PartialEq for Markup {
    fn eq(&self, other: &Markup) -> (r: bool)
        ensures
            r == (self@ == other@),
    {
        match (self, other) {
            (Markup::Plain(a), Markup::Plain(b)) => a.eq(b),
            (Markup::Bold(a), Markup::Bold(b)) => a.eq(b),
            (Markup::Strikethrough(a), Markup::Strikethrough(b)) => a.eq(b),
            (Markup::Italics(a), Markup::Italics(b)) => a.eq(b),
            (Markup::Underlined(a), Markup::Underlined(b)) => a.eq(b),
            _ => false,
        }
    }
}

impl vstd::std_specs::cmp::PartialEqSpecImpl for Markup {
    open spec fn obeys_eq_spec() -> bool {
        true
    }

    open spec fn eq_spec(&self, other: &Markup) -> bool {
        self@ == other@
    }
}

impl Markup {
    /// The text of the run, whatever its style.
    pub fn get_text_content(&self) -> (r: &String)
        ensures
            r@ == self@.text(),
    {
        match self {
            Markup::Plain(t) => t,
            Markup::Bold(t) => t,
            Markup::Strikethrough(t) => t,
            Markup::Italics(t) => t,
            Markup::Underlined(t) => t,
        }
    }
}

pub open spec fn spec_is_whitespace(c: char) -> bool {
    c == ' ' || c == '\n' || c == '\t' || c == '\r'
}

pub open spec fn is_delimiter(c: char) -> bool {
    c == '*' || c == '/' || c == '_' || c == '+'
}

pub open spec fn is_punctuation(c: char) -> bool {
    c == '!' || c == '?' || c == '.' || c == ';' || c == ',' || c == '\'' || c == '"'
}

pub fn is_whitespace(c: char) -> (r: bool)
    ensures
        r == spec_is_whitespace(c),
{
    c == ' ' || c == '\n' || c == '\t' || c == '\r'
}

/// The end of a plain run, looking from `k` on: the first delimiter that
/// follows whitespace, or the end of the text.
pub open spec fn run_end(s: Seq<char>, k: int) -> int
    decreases s.len() - k,
{
    if k <= 0 || k >= s.len() {
        s.len() as int
    } else if is_delimiter(s[k]) && spec_is_whitespace(s[k - 1]) {
        k
    } else {
        run_end(s, k + 1)
    }
}

/// Whether `s[k]` is the delimiter `c` standing between two characters that
/// are not whitespace, as inside `snake_case`.
pub open spec fn interior_at(s: Seq<char>, c: char, k: int) -> bool {
    &&& s[k] == c
    &&& !spec_is_whitespace(s[k - 1])
    &&& !spec_is_whitespace(s[k + 1])
}

/// Whether some index in `[from, to)` holds an interior delimiter `c`.
pub open spec fn interior_between(s: Seq<char>, c: char, from: int, to: int) -> bool
    decreases to - from,
{
    if to <= from {
        false
    } else {
        interior_between(s, c, from, to - 1) || interior_at(s, c, to - 1)
    }
}

/// Whether the delimiter `c` at `j` closes a span opened at `i`: it follows
/// a character of the span that is neither whitespace nor `c`, comes before
/// whitespace, punctuation or the end of the text, and the span's text holds
/// no `c` between two characters that are not whitespace.
pub open spec fn closes_at(s: Seq<char>, c: char, i: int, j: int) -> bool {
    &&& s[j] == c
    &&& j >= i + 2
    &&& !spec_is_whitespace(s[j - 1])
    &&& s[j - 1] != c
    &&& (j + 1 >= s.len() || is_punctuation(s[j + 1]) || spec_is_whitespace(s[j + 1]))
    &&& !interior_between(s, c, i + 1, j)
}

/// The first index from `j` on that closes the span opened at `i`, or the length.
pub open spec fn close_from(s: Seq<char>, c: char, i: int, j: int) -> int
    decreases s.len() - j,
{
    if j < 0 || j >= s.len() {
        s.len() as int
    } else if closes_at(s, c, i, j) {
        j
    } else {
        close_from(s, c, i, j + 1)
    }
}

pub open spec fn styled(c: char, t: Seq<char>) -> MarkupView {
    if c == '*' {
        MarkupView::Bold(t)
    } else if c == '+' {
        MarkupView::Strikethrough(t)
    } else if c == '/' {
        MarkupView::Italics(t)
    } else if c == '_' {
        MarkupView::Underlined(t)
    } else {
        MarkupView::Plain(t)
    }
}

/// The runs of `s` from index `i` on. At a delimiter a span is sought; with
/// no acceptable close the rest of the text is plain, delimiter included.
pub open spec fn items_from(s: Seq<char>, i: int) -> Seq<MarkupView>
    decreases s.len() - i
    via items_from_decreases
{
    if i < 0 || i >= s.len() {
        seq![]
    } else if is_delimiter(s[i]) {
        let j = close_from(s, s[i], i, i + 1);
        if j < s.len() {
            seq![styled(s[i], s.subrange(i + 1, j))] + items_from(s, j + 1)
        } else {
            seq![MarkupView::Plain(s.subrange(i, s.len() as int))]
        }
    } else {
        let k = run_end(s, i + 1);
        seq![MarkupView::Plain(s.subrange(i, k))] + items_from(s, k)
    }
}

proof fn lemma_run_end(s: Seq<char>, k: int)
    requires
        1 <= k,
    ensures
        k <= run_end(s, k) || run_end(s, k) == s.len(),
        run_end(s, k) <= s.len() || k > s.len(),
    decreases s.len() - k,
{
    if k < s.len() && !(is_delimiter(s[k]) && spec_is_whitespace(s[k - 1])) {
        lemma_run_end(s, k + 1);
    }
}

proof fn lemma_close_from(s: Seq<char>, c: char, i: int, j: int)
    requires
        0 <= j,
    ensures
        j <= close_from(s, c, i, j) || close_from(s, c, i, j) == s.len(),
        close_from(s, c, i, j) <= s.len() || j > s.len(),
    decreases s.len() - j,
{
    if j < s.len() && !closes_at(s, c, i, j) {
        lemma_close_from(s, c, i, j + 1);
    }
}

#[via_fn]
proof fn items_from_decreases(s: Seq<char>, i: int) {
    if 0 <= i < s.len() {
        lemma_run_end(s, i + 1);
        lemma_close_from(s, s[i], i, i + 1);
    }
}

/// The runs of a line of text.
pub open spec fn lex(s: Seq<char>) -> Seq<MarkupView> {
    items_from(s, 0)
}

/// The texts of the runs, in order.
pub open spec fn stitched(items: Seq<MarkupView>) -> Seq<char>
    decreases items.len(),
{
    if items.len() == 0 {
        seq![]
    } else {
        stitched(items.drop_last()) + items.last().text()
    }
}

proof fn lemma_stitched_cons(x: MarkupView, rest: Seq<MarkupView>)
    ensures
        stitched(seq![x] + rest) == x.text() + stitched(rest),
    decreases rest.len(),
{
    if rest.len() == 0 {
        assert(seq![x] + rest == seq![x]);
        assert(seq![x].drop_last() == Seq::<MarkupView>::empty());
        assert(stitched(Seq::<MarkupView>::empty()) == Seq::<char>::empty());
        assert(stitched(seq![x]) == Seq::<char>::empty() + x.text());
        assert(x.text() + Seq::<char>::empty() == x.text());
        assert(Seq::<char>::empty() + x.text() == x.text());
    } else {
        let whole = seq![x] + rest;
        assert(whole.drop_last() == seq![x] + rest.drop_last());
        assert(whole.last() == rest.last());
        lemma_stitched_cons(x, rest.drop_last());
        assert(stitched(whole) == stitched(whole.drop_last()) + whole.last().text());
        assert(stitched(rest) == stitched(rest.drop_last()) + rest.last().text());
        assert(x.text() + stitched(rest.drop_last()) + rest.last().text() == x.text() + (stitched(rest.drop_last()) + rest.last().text()));
    }
}

proof fn lemma_plain_stitch_from(s: Seq<char>, i: int)
    requires
        0 <= i <= s.len(),
        forall|k: int| 0 <= k < items_from(s, i).len() ==> #[trigger] items_from(s, i)[k] is Plain,
    ensures
        stitched(items_from(s, i)) == s.subrange(i, s.len() as int),
    decreases s.len() - i,
{
    if i == s.len() {
        assert(items_from(s, i) == Seq::<MarkupView>::empty());
        assert(s.subrange(i, s.len() as int) == Seq::<char>::empty());
    } else {
        if is_delimiter(s[i]) {
            lemma_close_from(s, s[i], i, i + 1);
            let j = close_from(s, s[i], i, i + 1);
            if j < s.len() {
                assert(items_from(s, i)[0] == styled(s[i], s.subrange(i + 1, j)));
                assert(false);
            } else {
                let only = MarkupView::Plain(s.subrange(i, s.len() as int));
                assert(items_from(s, i) == seq![only]);
                lemma_stitched_cons(only, Seq::<MarkupView>::empty());
                assert(seq![only] + Seq::<MarkupView>::empty() == seq![only]);
                assert(stitched(Seq::<MarkupView>::empty()) == Seq::<char>::empty());
                assert(only.text() + Seq::<char>::empty() == only.text());
            }
        } else {
            lemma_run_end(s, i + 1);
            let k = run_end(s, i + 1);
            let first = MarkupView::Plain(s.subrange(i, k));
            let rest = items_from(s, k);
            assert(items_from(s, i) == seq![first] + rest);
            assert forall|m: int| 0 <= m < rest.len() implies #[trigger] rest[m] is Plain by {
                assert(items_from(s, i)[m + 1] == rest[m]);
            }
            lemma_plain_stitch_from(s, k);
            lemma_stitched_cons(first, rest);
            assert(s.subrange(i, k) + s.subrange(k, s.len() as int) == s.subrange(i, s.len() as int));
        }
    }
}

/// Where the lexer matches no span, all its runs are plain and stitching
/// them gives back the text exactly.
pub proof fn lemma_plain_stitch(s: Seq<char>)
    requires
        forall|k: int| 0 <= k < lex(s).len() ==> #[trigger] lex(s)[k] is Plain,
    ensures
        stitched(lex(s)) == s,
{
    assert forall|k: int| 0 <= k < items_from(s, 0).len() implies #[trigger] items_from(s, 0)[k] is Plain by {
        assert(lex(s)[k] == items_from(s, 0)[k]);
    }
    lemma_plain_stitch_from(s, 0);
    assert(s.subrange(0, s.len() as int) == s);
}

/// Splits a line of text into styled runs, one at a time.
pub struct MarkupLexer {
    chars: Vec<char>,
    position: usize,
}

impl View for MarkupLexer {
    type V = Seq<MarkupView>;

    /// The runs still to come.
    closed spec fn view(&self) -> Seq<MarkupView> {
        items_from(self.chars@, self.position as int)
    }
}

pub open spec fn markups_view(v: Seq<Markup>) -> Seq<MarkupView> {
    v.map_values(|m: Markup| m@)
}

impl MarkupLexer {
    pub closed spec fn wf(&self) -> bool {
        self.position <= self.chars@.len()
    }

    pub fn new(source: &str) -> (r: MarkupLexer)
        ensures
            r@ == lex(source@),
            r.wf(),
    {
        MarkupLexer { chars: chars_of(source), position: 0 }
    }

    fn is_special_character(c: char) -> (r: bool)
        ensures
            r == is_delimiter(c),
    {
        match c {
            '*' | '/' | '_' | '+' => true,
            _ => false,
        }
    }

    fn peek_character(&self) -> (r: Option<char>)
        requires
            self.wf(),
        ensures
            r == (if self.position < self.chars@.len() {
                Some(self.chars@[self.position as int])
            } else {
                None::<char>
            }),
    {
        if self.position < self.chars.len() {
            Some(self.chars[self.position])
        } else {
            None
        }
    }

    fn next_character(&mut self) -> (r: Option<char>)
        requires
            old(self).wf(),
        ensures
            final(self).wf(),
            final(self).chars == old(self).chars,
            r == (if old(self).position < old(self).chars@.len() {
                Some(old(self).chars@[old(self).position as int])
            } else {
                None::<char>
            }),
            final(self).position == (if old(self).position < old(self).chars@.len() {
                old(self).position + 1
            } else {
                old(self).position as int
            }),
    {
        if self.position < self.chars.len() {
            let c = self.chars[self.position];
            self.position = self.position + 1;
            Some(c)
        } else {
            None
        }
    }

    fn next_words_until_special(&mut self) -> (r: String)
        requires
            old(self).wf(),
            old(self).position < old(self).chars@.len(),
            !is_delimiter(old(self).chars@[old(self).position as int]),
        ensures
            final(self).wf(),
            final(self).chars == old(self).chars,
            final(self).position == run_end(old(self).chars@, old(self).position + 1),
            r@ == old(self).chars@.subrange(old(self).position as int, final(self).position as int),
    {
        let ghost s = self.chars@;
        let ghost start = self.position as int;
        let mut sentence = String::new();
        let mut previous_character: Option<char> = None;
        proof {
            lemma_run_end(s, start + 1);
        }
        loop
            invariant
                self.wf(),
                self.chars@ == s,
                self.chars == old(self).chars,
                start == old(self).position,
                start <= self.position,
                start < s.len(),
                !is_delimiter(s[start]),
                sentence@ == s.subrange(start, self.position as int),
                previous_character == (if self.position > start {
                    Some(s[self.position - 1])
                } else {
                    None::<char>
                }),
                run_end(s, start + 1) == (if self.position == start {
                    run_end(s, start + 1)
                } else {
                    run_end(s, self.position as int)
                }),
            decreases s.len() - self.position,
        {
            let character = match self.peek_character() {
                Some(c) => c,
                None => {
                    return sentence;
                },
            };
            if MarkupLexer::is_special_character(character) {
                if let Some(p) = previous_character {
                    if !is_whitespace(character) && is_whitespace(p) {
                        return sentence;
                    }
                }
            }
            push_char(&mut sentence, character);
            assert(s.subrange(start, self.position + 1) == s.subrange(start, self.position as int).push(character));
            previous_character = Some(character);
            self.next_character();
        }
    }

    fn find_type(identifier: char, text_contents: String) -> (r: Markup)
        ensures
            r@ == styled(identifier, text_contents@),
    {
        match identifier {
            '*' => Markup::Bold(text_contents),
            '+' => Markup::Strikethrough(text_contents),
            '/' => Markup::Italics(text_contents),
            '_' => Markup::Underlined(text_contents),
            _ => Markup::Plain(text_contents),
        }
    }

    fn find_match_and_pass(&mut self, to_match: char) -> (r: (String, bool))
        requires
            old(self).wf(),
            old(self).position < old(self).chars@.len(),
            old(self).chars@[old(self).position as int] == to_match,
        ensures
            final(self).wf(),
            final(self).chars == old(self).chars,
            ({
                let s = old(self).chars@;
                let i = old(self).position as int;
                let j = close_from(s, to_match, i, i + 1);
                if j < s.len() {
                    r.1 && r.0@ == s.subrange(i + 1, j) && final(self).position == j + 1
                } else {
                    !r.1 && r.0@ == s.subrange(i + 1, s.len() as int) && final(self).position == s.len()
                }
            }),
    {
        let ghost s = self.chars@;
        let ghost i = self.position as int;
        let start = self.position;
        let mut sentence = String::new();
        let mut previous_character: Option<char> = None;
        let mut interior = false;
        self.next_character();
        proof {
            lemma_close_from(s, to_match, i, i + 1);
        }
        loop
            invariant
                self.wf(),
                self.chars@ == s,
                self.chars == old(self).chars,
                i == old(self).position,
                start == i,
                interior == interior_between(s, to_match, i + 1, self.position - 1),
                0 <= i < s.len(),
                i + 1 <= self.position,
                sentence@ == s.subrange(i + 1, self.position as int),
                previous_character == (if self.position > i + 1 {
                    Some(s[self.position - 1])
                } else {
                    None::<char>
                }),
                close_from(s, to_match, i, i + 1) == close_from(s, to_match, i, self.position as int),
            decreases s.len() - self.position,
        {
            let character = match self.next_character() {
                Some(c) => c,
                None => {
                    return (sentence, false);
                },
            };
            let j = self.position - 1;
            if j >= start + 2 && self.chars[j - 1] == to_match && !is_whitespace(self.chars[j - 2])
                && !is_whitespace(character) {
                interior = true;
            }
            assert(interior == interior_between(s, to_match, i + 1, j as int));
            if character == to_match && !interior {
                let good_match = if let Some(p) = previous_character {
                    if !is_whitespace(p) && character != p {
                        if let Some(next_character) = self.peek_character() {
                            is_punctuation_char(next_character) || is_whitespace(next_character)
                        } else {
                            true
                        }
                    } else {
                        false
                    }
                } else {
                    false
                };
                assert(good_match == closes_at(s, to_match, i, j as int));
                if good_match {
                    return (sentence, good_match);
                }
            } else {
                assert(!closes_at(s, to_match, i, j as int));
            }
            push_char(&mut sentence, character);
            assert(s.subrange(i + 1, j + 1) == s.subrange(i + 1, j as int).push(character));
            previous_character = Some(character);
        }
    }

    fn next_markup_item(&mut self) -> (r: Option<Markup>)
        requires
            old(self).wf(),
        ensures
            final(self).wf(),
            old(self)@.len() == 0 ==> r is None && final(self)@.len() == 0,
            old(self)@.len() > 0 ==> r is Some && r->0@ == old(self)@[0] && final(self)@ == old(self)@.drop_first(),
    {
        let ghost s = self.chars@;
        let ghost i = self.position as int;
        if let Some(character) = self.peek_character() {
            if MarkupLexer::is_special_character(character) {
                let (text_within_boundaries, was_good_match) = self.find_match_and_pass(character);
                let item = if was_good_match {
                    MarkupLexer::find_type(character, text_within_boundaries)
                } else {
                    Markup::Plain(string_prepend(&text_within_boundaries, character))
                };
                proof {
                    let j = close_from(s, character, i, i + 1);
                    if j >= s.len() {
                        assert(s.subrange(i, s.len() as int) == seq![character] + s.subrange(i + 1, s.len() as int));
                        assert(items_from(s, s.len() as int) == Seq::<MarkupView>::empty());
                    }
                }
                Some(item)
            } else {
                let text = self.next_words_until_special();
                Some(Markup::Plain(text))
            }
        } else {
            None
        }
    }

    /// The next run, or `None` at the end of the text.
    pub fn next(&mut self) -> (r: Option<Markup>)
        requires
            old(self).wf(),
        ensures
            final(self).wf(),
            old(self)@.len() == 0 ==> r is None && final(self)@.len() == 0,
            old(self)@.len() > 0 ==> r is Some && r->0@ == old(self)@[0] && final(self)@ == old(self)@.drop_first(),
    {
        self.next_markup_item()
    }

    /// All the runs still to come.
    pub fn collect(self) -> (r: Vec<Markup>)
        requires
            self.wf(),
        ensures
            markups_view(r@) == self@,
    {
        let mut lexer = self;
        let mut out: Vec<Markup> = Vec::new();
        loop
            invariant
                lexer.wf(),
                markups_view(out@) + lexer@ == self@,
            decreases lexer@.len(),
        {
            match lexer.next() {
                Some(item) => {
                    let ghost before = markups_view(out@);
                    out.push(item);
                    assert(markups_view(out@) == before.push(item@));
                },
                None => {
                    assert(markups_view(out@) + seq![] == markups_view(out@));
                    return out;
                },
            }
        }
    }

    /// The text of all the runs still to come, without the delimiters of
    /// the spans.
    pub fn stitch(self) -> (r: String)
        requires
            self.wf(),
        ensures
            r@ == stitched(self@),
    {
        let items = self.collect();
        let mut result = String::new();
        let mut k: usize = 0;
        while k < items.len()
            invariant
                k <= items@.len(),
                result@ == stitched(markups_view(items@).subrange(0, k as int)),
            decreases items@.len() - k,
        {
            let t = items[k].get_text_content();
            let ghost before = result@;
            result.append(t.as_str());
            assert(markups_view(items@).subrange(0, k + 1).drop_last() == markups_view(items@).subrange(0, k as int));
            k = k + 1;
        }
        assert(markups_view(items@).subrange(0, items@.len() as int) == markups_view(items@));
        result
    }
}

fn is_punctuation_char(c: char) -> (r: bool)
    ensures
        r == is_punctuation(c),
{
    match c {
        '!' | '?' | '.' | ';' | ',' | '\'' | '"' => true,
        _ => false,
    }
}

fn string_prepend(input: &String, c: char) -> (r: String)
    ensures
        r@ == seq![c] + input@,
{
    let mut result = String::new();
    push_char(&mut result, c);
    result.append(input.as_str());
    result
}

} // verus!
