use vstd::prelude::*;
use crate::slide::{Slide, SlideView, SlideTransition, settle};
use crate::utility::{EasingFunction, FRACTION_ONE};

verus! {

#[derive(Clone, Copy, Debug, PartialEq, Eq, Structural)]
pub struct InvalidOrNoSlideState;

#[derive(Clone, Copy, Debug, PartialEq, Eq, Structural)]
pub struct OptionsState;

#[derive(Clone, Copy, Debug, PartialEq, Eq, Structural)]
pub struct ShowingSlideState;

#[derive(Clone, Copy, Debug, PartialEq, Eq, Structural)]
pub struct SelectSlideToLoadState;

/// A page change under way: the pages it runs between and the transition,
/// whose `time` is the time elapsed.
#[derive(Clone, Copy, Debug, PartialEq, Eq, Structural)]
pub struct ChangePageState {
    pub from: isize,
    pub to: isize,
    pub transition: SlideTransition,
}

#[derive(Clone, Copy, Debug, PartialEq, Eq, Structural)]
pub struct QuitState;

/// What the application is doing.
#[derive(Clone, Copy, Debug, PartialEq, Eq, Structural)]
pub enum ApplicationScreen {
    InvalidOrNoSlide(InvalidOrNoSlideState),
    Options(OptionsState),
    ShowingSlide(ShowingSlideState),
    SelectSlideToLoad(SelectSlideToLoadState),
    ChangePage(ChangePageState),
    Quit(QuitState),
}

/// The transition into the page now shown: its own, else the document's.
pub open spec fn transition_into(s: SlideView) -> Option<SlideTransition> {
    if 0 <= s.current_page < s.pages.len() && s.pages[s.current_page].transition is Some {
        s.pages[s.current_page].transition
    } else {
        s.default_transition
    }
}

/// A page change from `from` to `to`: a transition when the page now shown
/// has one, started at time zero; else straight to showing the page.
pub open spec fn begin_change(s: SlideView, from: isize, to: isize) -> ApplicationScreen {
    match transition_into(s) {
        Some(t) => ApplicationScreen::ChangePage(
            ChangePageState { from, to, transition: SlideTransition { time: 0, ..t } },
        ),
        None => ApplicationScreen::ShowingSlide(ShowingSlideState),
    }
}

pub open spec fn is_page_index(i: isize, count: nat) -> bool {
    0 <= i < count
}

/// One tick of a page change: it runs on, `delta_time` later, while both
/// pages exist and its time has not reached the duration; else it ends.
pub open spec fn tick(c: ChangePageState, page_count: nat, delta_time: u64) -> ApplicationScreen {
    if is_page_index(c.from, page_count) && is_page_index(c.to, page_count) && !c.transition.spec_finished_transition() {
        ApplicationScreen::ChangePage(
            ChangePageState {
                transition: SlideTransition {
                    time: if c.transition.time + delta_time > u64::MAX {
                        u64::MAX
                    } else {
                        (c.transition.time + delta_time) as u64
                    },
                    ..c.transition
                },
                ..c
            },
        )
    } else {
        ApplicationScreen::ShowingSlide(ShowingSlideState)
    }
}

/// `x` over `d` in millionths, at most one whole (one whole when `d` is 0).
pub open spec fn fraction(x: int, d: int) -> int {
    if d == 0 || x * FRACTION_ONE / d >= FRACTION_ONE {
        FRACTION_ONE as int
    } else {
        x * FRACTION_ONE / d
    }
}

pub open spec fn alpha_of(e: EasingFunction, t: int) -> int {
    let v = e.spec_evaluate(0, 255, t);
    if v > 255 {
        255
    } else {
        v
    }
}

/// A fade: in the first half of the duration the page left behind, under
/// the color with its alpha eased up to 255; in the second half the page
/// arrived at, with the alpha eased back down to 0.
pub open spec fn fade(c: ChangePageState) -> (u8, isize) {
    let half = c.transition.finish_time / 2;
    let e = c.transition.easing_function;
    if c.transition.time < half {
        (alpha_of(e, fraction(c.transition.time as int, half as int)) as u8, c.from)
    } else {
        ((255 - alpha_of(e, fraction(c.transition.time - half, half as int))) as u8, c.to)
    }
}

/// A slide along an axis of `extent`: the page left behind is moved back by
/// the eased share of the extent, the page arrived at follows one extent
/// behind it; forward moves go toward lower positions.
pub open spec fn slide_positions(c: ChangePageState, extent: u32) -> (i64, i64) {
    let moved = extent * c.transition.spec_easing_amount() / (FRACTION_ONE as int);
    if c.to > c.from {
        ((-moved) as i64, (extent - moved) as i64)
    } else {
        (moved as i64, (moved - extent) as i64)
    }
}

fn fraction_of(x: u64, d: u64) -> (r: u64)
    ensures
        r == fraction(x as int, d as int),
        r <= FRACTION_ONE,
{
    if d == 0 {
        return FRACTION_ONE;
    }
    assert((x as u128) * (FRACTION_ONE as u128) <= 0xffff_ffff_ffff_ffffu128 * 1_000_000u128) by (nonlinear_arith)
        requires
            x <= 0xffff_ffff_ffff_ffffu64,
    ;
    let f = (x as u128) * (FRACTION_ONE as u128) / (d as u128);
    if f >= FRACTION_ONE as u128 {
        FRACTION_ONE
    } else {
        f as u64
    }
}

fn alpha(e: EasingFunction, t: u64) -> (r: u64)
    requires
        t <= FRACTION_ONE,
    ensures
        r == alpha_of(e, t as int),
        r <= 255,
{
    let v = e.evaluate(0, 255, t);
    if v > 255 {
        255
    } else {
        v
    }
}

impl ChangePageState {
    /// Starts a page change (see `begin_change`).
    pub fn begin(slide: &Slide, from: isize, to: isize) -> (r: ApplicationScreen)
        ensures
            r == begin_change(slide@, from, to),
    {
        let current = slide.current_page();
        let transition = if current >= 0 {
            slide.transition_for(current as usize)
        } else {
            slide.default_transition
        };
        match transition {
            Some(t) => ApplicationScreen::ChangePage(
                ChangePageState { from, to, transition: SlideTransition { time: 0, ..t } },
            ),
            None => ApplicationScreen::ShowingSlide(ShowingSlideState),
        }
    }

    /// Advances the page change by `delta_time` milliseconds (see `tick`).
    pub fn update(&self, page_count: usize, delta_time: u64) -> (r: ApplicationScreen)
        ensures
            r == tick(*self, page_count as nat, delta_time),
    {
        let valid = 0 <= self.from && (self.from as usize) < page_count && 0 <= self.to && (self.to as usize)
            < page_count;
        if valid && !self.transition.finished_transition() {
            let time = self.transition.time.saturating_add(delta_time);
            ApplicationScreen::ChangePage(
                ChangePageState { transition: SlideTransition { time, ..self.transition }, ..*self },
            )
        } else {
            ApplicationScreen::ShowingSlide(ShowingSlideState)
        }
    }

    /// The alpha of the fade color and the page to draw under it (see `fade`).
    pub fn fade_frame(&self) -> (r: (u8, isize))
        ensures
            r == fade(*self),
    {
        let half = self.transition.finish_time / 2;
        let e = self.transition.easing_function;
        if self.transition.time < half {
            (alpha(e, fraction_of(self.transition.time, half)) as u8, self.from)
        } else {
            ((255 - alpha(e, fraction_of(self.transition.time - half, half))) as u8, self.to)
        }
    }

    /// Where the two pages of a slide stand along the axis (see `slide_positions`).
    pub fn slide_offsets(&self, extent: u32) -> (r: (i64, i64))
        ensures
            r == slide_positions(*self, extent),
    {
        let amount = self.transition.easing_amount();
        assert((extent as u128) * (amount as u128) <= 0xffff_ffffu128 * 1_000_000u128) by (nonlinear_arith)
            requires
                extent <= 0xffff_ffffu32,
                amount <= 1_000_000u64,
        ;
        let moved = ((extent as u128) * (amount as u128) / (FRACTION_ONE as u128)) as i64;
        proof {
            let x = (extent as int) * (amount as int);
            assert(x <= (extent as int) * 1_000_000) by (nonlinear_arith)
                requires
                    amount <= 1_000_000,
                    x == (extent as int) * (amount as int),
                    extent >= 0,
            ;
            assert(0 <= x) by (nonlinear_arith)
                requires
                    x == (extent as int) * (amount as int),
                    extent >= 0,
                    amount >= 0,
            ;
            vstd::arithmetic::div_mod::lemma_div_is_ordered(x, (extent as int) * 1_000_000, 1_000_000);
            vstd::arithmetic::div_mod::lemma_div_is_ordered(0, x, 1_000_000);
            vstd::arithmetic::div_mod::lemma_div_multiples_vanish(extent as int, 1_000_000);
            assert(1_000_000 * (extent as int) == (extent as int) * 1_000_000);
            assert(x / 1_000_000 <= extent);
        }
        assert(moved as int == (extent as int) * (amount as int) / 1_000_000);
        assert(moved as int == extent * self.transition.spec_easing_amount() / (FRACTION_ONE as int));
        if self.to > self.from {
            (-moved, extent as i64 - moved)
        } else {
            (moved, -(extent as i64) + moved)
        }
    }
}

impl ShowingSlideState {
    /// Moves to the next page and starts the change toward it.
    pub fn next_page(slide: &mut Slide) -> (r: ApplicationScreen)
        requires
            old(slide).wf(),
        ensures
            final(slide).wf(),
            final(slide).current_page == settle(old(slide).current_page + 1, old(slide).pages@.len() as int),
            final(slide)@ == (SlideView { current_page: final(slide).current_page as int, ..old(slide)@ }),
            r == begin_change(final(slide)@, old(slide).current_page, (old(slide).current_page + 1) as isize),
    {
        let from = slide.current_page();
        let to = slide.next_page();
        ChangePageState::begin(slide, from, to)
    }

    /// Moves to the previous page and starts the change toward it.
    pub fn previous_page(slide: &mut Slide) -> (r: ApplicationScreen)
        requires
            old(slide).wf(),
        ensures
            final(slide).wf(),
            final(slide).current_page == settle(old(slide).current_page - 1, old(slide).pages@.len() as int),
            final(slide)@ == (SlideView { current_page: final(slide).current_page as int, ..old(slide)@ }),
            r == begin_change(final(slide)@, old(slide).current_page, (old(slide).current_page - 1) as isize),
    {
        let from = slide.current_page();
        let to = slide.previous_page();
        ChangePageState::begin(slide, from, to)
    }
}

} // verus!
