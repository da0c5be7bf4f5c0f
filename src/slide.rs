use vstd::prelude::*;
use crate::color::{Color, color_white};
use crate::utility::{EasingFunction, FRACTION_ONE, clamp};

verus! {

/// A line of body text. Positions are in thousandths of a logical pixel;
/// `None` means "lay out after the previous element".
#[derive(Debug, Clone)]
pub struct TextElement {
    pub x: Option<i64>,
    pub y: Option<i64>,
    /// How many blank source lines came right before this one.
    pub line_breaks: usize,
    pub text: String,
    pub color: Color,
    pub font_size: u16,
    pub font_name: Option<String>,
}

/// An image. Positions and sizes are in thousandths of a logical pixel.
#[derive(Debug, Clone)]
pub struct ImageElement {
    /// A background image does not move the layout cursor.
    pub background: bool,
    pub location: String,
    pub x: Option<i64>,
    pub y: Option<i64>,
    pub w: Option<i64>,
    pub h: Option<i64>,
    pub color: Color,
}

#[derive(Debug, Clone)]
pub enum SlideElement {
    Text(TextElement),
    Image(ImageElement),
}

#[derive(Debug, Clone, Copy, PartialEq, Eq, Structural)]
pub enum SlideTransitionType {
    HorizontalSlide,
    VerticalSlide,
    FadeTo(Color),
}

/// A transition and how far it has run; times are in milliseconds.
#[derive(Debug, Clone, Copy, PartialEq, Eq, Structural)]
pub struct SlideTransition {
    pub transition_type: SlideTransitionType,
    pub easing_function: EasingFunction,
    pub time: u64,
    pub finish_time: u64,
}

#[derive(Debug, Clone)]
pub struct Page {
    pub transition: Option<SlideTransition>,
    pub background_color: Color,
    pub elements: Vec<SlideElement>,
}

/// A compiled slideshow and the page being shown.
#[derive(Debug)]
pub struct Slide {
    /// Where the source was read from, kept for reloading.
    pub file_name: String,
    /// When the source was last modified, as the file system gave it.
    pub last_modified_time: u64,
    pub pages: Vec<Page>,
    pub current_page: isize,
    pub resolution: (u32, u32),
    /// The transition of pages that name none.
    pub default_transition: Option<SlideTransition>,
}

pub open spec fn opt_str_view(o: Option<String>) -> Option<Seq<char>> {
    match o {
        Some(s) => Some(s@),
        None => None,
    }
}

pub struct TextElementView {
    pub x: Option<i64>,
    pub y: Option<i64>,
    pub line_breaks: nat,
    pub text: Seq<char>,
    pub color: Color,
    pub font_size: u16,
    pub font_name: Option<Seq<char>>,
}

pub struct ImageElementView {
    pub background: bool,
    pub location: Seq<char>,
    pub x: Option<i64>,
    pub y: Option<i64>,
    pub w: Option<i64>,
    pub h: Option<i64>,
    pub color: Color,
}

pub enum ElementView {
    Text(TextElementView),
    Image(ImageElementView),
}

pub struct PageView {
    pub transition: Option<SlideTransition>,
    pub background_color: Color,
    pub elements: Seq<ElementView>,
}

pub struct SlideView {
    pub file_name: Seq<char>,
    pub last_modified_time: u64,
    pub pages: Seq<PageView>,
    pub current_page: int,
    pub resolution: (u32, u32),
    pub default_transition: Option<SlideTransition>,
}

impl View for TextElement {
    type V = TextElementView;

    open spec fn view(&self) -> TextElementView {
        TextElementView {
            x: self.x,
            y: self.y,
            line_breaks: self.line_breaks as nat,
            text: self.text@,
            color: self.color,
            font_size: self.font_size,
            font_name: opt_str_view(self.font_name),
        }
    }
}

impl View for ImageElement {
    type V = ImageElementView;

    open spec fn view(&self) -> ImageElementView {
        ImageElementView {
            background: self.background,
            location: self.location@,
            x: self.x,
            y: self.y,
            w: self.w,
            h: self.h,
            color: self.color,
        }
    }
}

impl View for SlideElement {
    type V = ElementView;

    open spec fn view(&self) -> ElementView {
        match self {
            SlideElement::Text(t) => ElementView::Text(t@),
            SlideElement::Image(i) => ElementView::Image(i@),
        }
    }
}

pub open spec fn elements_view(v: Seq<SlideElement>) -> Seq<ElementView> {
    v.map_values(|e: SlideElement| e@)
}

impl View for Page {
    type V = PageView;

    open spec fn view(&self) -> PageView {
        PageView {
            transition: self.transition,
            background_color: self.background_color,
            elements: elements_view(self.elements@),
        }
    }
}

pub open spec fn pages_view(v: Seq<Page>) -> Seq<PageView> {
    v.map_values(|p: Page| p@)
}

impl View for Slide {
    type V = SlideView;

    open spec fn view(&self) -> SlideView {
        SlideView {
            file_name: self.file_name@,
            last_modified_time: self.last_modified_time,
            pages: pages_view(self.pages@),
            current_page: self.current_page as int,
            resolution: self.resolution,
            default_transition: self.default_transition,
        }
    }
}

pub open spec fn empty_page() -> PageView {
    PageView { transition: None, background_color: color_white(), elements: seq![] }
}

impl Default for Page {
    fn default() -> (p: Page)
        ensures
            p@ == empty_page(),
    {
        let p = Page { transition: None, background_color: Color::white(), elements: Vec::new() };
        assert(elements_view(p.elements@) =~= seq![]);
        p
    }
}

impl SlideTransition {
    /// How far the transition has run, in millionths, at most one whole;
    /// one whole when it has no duration.
    pub open spec fn spec_finished_fraction(self) -> int {
        if self.finish_time == 0 {
            FRACTION_ONE as int
        } else if self.time * FRACTION_ONE / (self.finish_time as int) >= FRACTION_ONE {
            FRACTION_ONE as int
        } else {
            self.time * FRACTION_ONE / (self.finish_time as int)
        }
    }

    pub open spec fn spec_finished_transition(self) -> bool {
        self.time >= self.finish_time
    }

    /// The eased progress, in millionths, held within one whole.
    pub open spec fn spec_easing_amount(self) -> int {
        let v = self.easing_function.spec_evaluate(0, FRACTION_ONE as int, self.spec_finished_fraction());
        if v > FRACTION_ONE {
            FRACTION_ONE as int
        } else {
            v
        }
    }

    pub fn finished_fraction(&self) -> (r: u64)
        ensures
            r as int == self.spec_finished_fraction(),
            r <= FRACTION_ONE,
    {
        if self.finish_time == 0 {
            return FRACTION_ONE;
        }
        assert((self.time as u128) * (FRACTION_ONE as u128) <= 0xffff_ffff_ffff_ffffu128 * 1_000_000u128) by (nonlinear_arith)
            requires
                self.time <= 0xffff_ffff_ffff_ffffu64,
        ;
        let f = (self.time as u128) * (FRACTION_ONE as u128) / (self.finish_time as u128);
        if f >= FRACTION_ONE as u128 {
            FRACTION_ONE
        } else {
            f as u64
        }
    }

    pub fn finished_transition(&self) -> (r: bool)
        ensures
            r == self.spec_finished_transition(),
    {
        self.time >= self.finish_time
    }

    pub fn easing_amount(&self) -> (r: u64)
        ensures
            r as int == self.spec_easing_amount(),
            r <= FRACTION_ONE,
    {
        let v = self.easing_function.evaluate(0, FRACTION_ONE as u32, self.finished_fraction());
        if v > FRACTION_ONE {
            FRACTION_ONE
        } else {
            v
        }
    }
}

impl Default for Slide {
    /// A document with no pages and no source.
    fn default() -> (s: Slide)
        ensures
            s.wf(),
            s@ == (SlideView {
                file_name: seq![],
                last_modified_time: 0,
                pages: seq![],
                current_page: 0,
                resolution: (1280, 720),
                default_transition: None,
            }),
    {
        let s = Slide {
            file_name: String::new(),
            last_modified_time: 0,
            pages: Vec::new(),
            current_page: 0,
            resolution: (1280, 720),
            default_transition: None,
        };
        assert(pages_view(s.pages@) =~= seq![]);
        s
    }
}

pub open spec fn spec_clamp(input: int, min: int, max: int) -> int {
    if input < min {
        min
    } else if input > max {
        max
    } else {
        input
    }
}

/// The page shown after a move to `desired`, held within the pages.
pub open spec fn settle(desired: int, len: int) -> int {
    spec_clamp(desired, 0, len - 1)
}

impl Slide {
    /// The page index is within the pages (or, with none, -1 or 0).
    pub open spec fn wf(&self) -> bool {
        &&& self.pages@.len() <= isize::MAX
        &&& self.pages@.len() > 0 ==> 0 <= self.current_page < self.pages@.len()
        &&& self.pages@.len() == 0 ==> -1 <= self.current_page <= 0
    }

    pub fn resolution(&self) -> (r: (u32, u32))
        ensures
            r == self.resolution,
    {
        self.resolution
    }

    pub fn len(&self) -> (r: usize)
        ensures
            r == self.pages@.len(),
    {
        self.pages.len()
    }

    pub fn current_page(&self) -> (r: isize)
        ensures
            r == self.current_page,
    {
        self.current_page
    }

    pub fn get(&self, index: usize) -> (r: Option<&Page>)
        ensures
            index < self.pages@.len() ==> r == Some(&self.pages@[index as int]),
            index >= self.pages@.len() ==> r is None,
    {
        if index < self.pages.len() {
            Some(&self.pages[index])
        } else {
            None
        }
    }

    pub fn get_current_page(&self) -> (r: Option<&Page>)
        ensures
            0 <= self.current_page < self.pages@.len() ==> r == Some(&self.pages@[self.current_page as int]),
            !(0 <= self.current_page < self.pages@.len()) ==> r is None,
    {
        if self.current_page < 0 {
            None
        } else {
            self.get(self.current_page as usize)
        }
    }

    /// Moves to the next page, staying within the pages; returns the index
    /// asked for, which may lie past the end.
    pub fn next_page(&mut self) -> (r: isize)
        requires
            old(self).wf(),
        ensures
            final(self).wf(),
            r == old(self).current_page + 1,
            final(self).current_page == settle(old(self).current_page + 1, old(self).pages@.len() as int),
            final(self).pages == old(self).pages,
            final(self)@ == (SlideView { current_page: final(self).current_page as int, ..old(self)@ }),
    {
        let desired_next_page = self.current_page + 1;
        self.current_page = clamp(desired_next_page as i64, 0, self.pages.len() as i64 - 1) as isize;
        desired_next_page
    }

    /// Moves to the previous page, staying within the pages; returns the
    /// index asked for, which may be -1.
    pub fn previous_page(&mut self) -> (r: isize)
        requires
            old(self).wf(),
        ensures
            final(self).wf(),
            r == old(self).current_page - 1,
            final(self).current_page == settle(old(self).current_page - 1, old(self).pages@.len() as int),
            final(self).pages == old(self).pages,
            final(self)@ == (SlideView { current_page: final(self).current_page as int, ..old(self)@ }),
    {
        let desired_previous_page = self.current_page - 1;
        self.current_page = clamp(desired_previous_page as i64, 0, self.pages.len() as i64 - 1) as isize;
        desired_previous_page
    }

    /// The transition into page `index`: its own, else the document's.
    pub fn transition_for(&self, index: usize) -> (r: Option<SlideTransition>)
        ensures
            r == (if index < self.pages@.len() && self.pages@[index as int].transition is Some {
                self.pages@[index as int].transition
            } else {
                self.default_transition
            }),
    {
        if index < self.pages.len() {
            if let Some(t) = self.pages[index].transition {
                return Some(t);
            }
        }
        self.default_transition
    }
}

/// Whatever the moves, a document of one page stays on it.
pub proof fn lemma_single_page_stays(start: int, forward: Seq<bool>)
    requires
        start == 0,
    ensures
        moves_from(start, forward, 1) == 0,
    decreases forward.len(),
{
    if forward.len() > 0 {
        lemma_single_page_stays(start, forward.drop_last());
    }
}

/// The page reached by a series of moves (`true` forward) in a document of
/// `len` pages.
pub open spec fn moves_from(start: int, forward: Seq<bool>, len: int) -> int
    decreases forward.len(),
{
    if forward.len() == 0 {
        start
    } else {
        let here = moves_from(start, forward.drop_last(), len);
        if forward.last() {
            settle(here + 1, len)
        } else {
            settle(here - 1, len)
        }
    }
}

/// A transition of positive duration is finished once its time reaches the
/// duration, and at exactly that time its eased progress is one whole,
/// whatever the easing curve.
pub proof fn lemma_transition_completes(t: SlideTransition)
    requires
        t.finish_time > 0,
    ensures
        t.time >= t.finish_time ==> t.spec_finished_transition(),
        t.time == t.finish_time ==> t.spec_easing_amount() == FRACTION_ONE,
{
    if t.time == t.finish_time {
        let d = t.finish_time as int;
        assert(t.time * FRACTION_ONE / d == FRACTION_ONE as int) by {
            vstd::arithmetic::div_mod::lemma_div_multiples_vanish(FRACTION_ONE as int, d);
            assert(d * FRACTION_ONE == t.time * FRACTION_ONE);
        }
        assert(t.spec_finished_fraction() == FRACTION_ONE);
        let s = FRACTION_ONE as int;
        assert(s * s * s - (s - s) * (s - s) * (s - s) == s * s * s);
        assert(s * s * (2 * s - s) == s * s * s) by (nonlinear_arith);
        assert(s * (s * s * s) / (s * s * s) == s) by {
            vstd::arithmetic::div_mod::lemma_div_multiples_vanish(s, s * s * s);
            assert((s * s * s) * s == s * (s * s * s)) by (nonlinear_arith);
        }
        assert(s * s * s * s / (s * s * s) == s) by {
            assert(s * s * s * s == s * (s * s * s)) by (nonlinear_arith);
        }
        assert(s * s * s / (s * s) == s) by {
            vstd::arithmetic::div_mod::lemma_div_multiples_vanish(s, s * s);
            assert(s * s * s == (s * s) * s) by (nonlinear_arith);
        }
        assert(s * s * (2 * s - s) / (s * s) == s) by {
            assert(s * s * (2 * s - s) == s * s * s) by (nonlinear_arith);
        }
        assert(((s - s) * 0 + s * s) / s == s) by {
            vstd::arithmetic::div_mod::lemma_div_multiples_vanish(s, s);
        }
    }
}

} // verus!
