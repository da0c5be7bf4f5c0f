use slideshow::application_states::{ApplicationScreen, ChangePageState, ShowingSlideState};
use slideshow::color::Color;
use slideshow::layout::{TextJustification, TextJustificationHorizontal, TextJustificationVertical};
use slideshow::reload::{nearest_hash, page_hash, ReloadError};
use slideshow::slide::{Slide, SlideTransition, SlideTransitionType};
use slideshow::slide_parser::{compile_slide, CompileError};
use slideshow::utility::{
    clamp, cubic_ease_in, cubic_ease_out, lerp, parse_thousandths, parse_unsigned,
    quadratic_ease_in, quadratic_ease_out, EasingFunction, FRACTION_ONE,
};
use slideshow::text::split_lines;
use slideshow::utility::remove_comments_from_source;

const THREE_PAGES: &str = "$page\nOne\n$end_page\n$page\nTwo\n$end_page\n$page\nThree\n$end_page\n";

fn deck(current: usize) -> Slide {
    let mut slide = Slide::new_from_file("deck.txt", THREE_PAGES, 1).unwrap();
    for _ in 0..current {
        slide.next_page();
    }
    slide
}

fn transition(kind: SlideTransitionType, easing: EasingFunction, time: u64, finish_time: u64) -> SlideTransition {
    SlideTransition { transition_type: kind, easing_function: easing, time, finish_time }
}

#[test]
fn compiling_twice_gives_equal_hashes() {
    let a = compile_slide(THREE_PAGES).unwrap();
    let b = compile_slide(THREE_PAGES).unwrap();
    assert_eq!(a.len(), b.len());
    for i in 0..a.len() {
        assert_eq!(page_hash(a.get(i).unwrap()), page_hash(b.get(i).unwrap()));
    }
    assert_ne!(page_hash(a.get(0).unwrap()), page_hash(a.get(1).unwrap()));
}

#[test]
fn reload_after_append_keeps_page() {
    let mut slide = deck(1);
    assert_eq!(slide.current_page(), 1);
    let appended = format!("{}$page\nFour\n$end_page\n", THREE_PAGES);
    assert_eq!(slide.reload(&appended, 2), Ok(()));
    assert_eq!(slide.len(), 4);
    assert_eq!(slide.current_page(), 1);
    assert_eq!(slide.file_name, "deck.txt");
    assert_eq!(slide.last_modified_time, 2);
}

#[test]
fn reload_after_insert_follows_page() {
    let mut slide = deck(2);
    assert_eq!(slide.current_page(), 2);
    let inserted = format!("$page\nZero\n$end_page\n{}", THREE_PAGES);
    assert_eq!(slide.reload(&inserted, 2), Ok(()));
    assert_eq!(slide.len(), 4);
    assert_eq!(slide.current_page(), 3);
}

#[test]
fn reload_with_same_count_keeps_index() {
    let mut slide = deck(2);
    let edited = "$page\nA\n$end_page\n$page\nB\n$end_page\n$page\nC\n$end_page\n";
    assert_eq!(slide.reload(edited, 5), Ok(()));
    assert_eq!(slide.current_page(), 2);
    assert_eq!(slide.len(), 3);
}

#[test]
fn reload_of_older_source_changes_nothing() {
    let mut slide = deck(1);
    assert_eq!(slide.reload("$page\nX\n$end_page\n", 1), Ok(()));
    assert_eq!(slide.len(), 3);
    assert_eq!(slide.current_page(), 1);
}

#[test]
fn failed_reload_keeps_document() {
    let mut slide = deck(2);
    assert_eq!(slide.reload("$page\nX\n", 9), Err(ReloadError::Compile(CompileError::UnclosedPage)));
    assert_eq!(slide.len(), 3);
    assert_eq!(slide.current_page(), 2);
    assert_eq!(slide.last_modified_time, 1);
}

#[test]
fn reload_to_empty_document() {
    let mut slide = deck(2);
    assert_eq!(slide.reload("", 3), Ok(()));
    assert_eq!(slide.len(), 0);
    assert_eq!(slide.current_page(), 0);
}

#[test]
fn nearest_hash_picks_lowest_on_tie() {
    assert_eq!(nearest_hash(10, &vec![20, 5, 15, 10, 10]), 3);
    assert_eq!(nearest_hash(10, &vec![14, 6, 13]), 2);
    assert_eq!(nearest_hash(10, &vec![14, 6]), 0);
    assert_eq!(nearest_hash(0, &vec![7]), 0);
}

#[test]
fn single_page_navigation_stays() {
    let mut slide = Slide::new_from_file("one.txt", "$page\nOnly\n$end_page", 0).unwrap();
    for _ in 0..5 {
        assert_eq!(slide.next_page(), 1);
        assert_eq!(slide.current_page(), 0);
    }
    for _ in 0..5 {
        assert_eq!(slide.previous_page(), -1);
        assert_eq!(slide.current_page(), 0);
    }
}

#[test]
fn navigation_returns_desired_index() {
    let mut slide = deck(0);
    assert_eq!(slide.next_page(), 1);
    assert_eq!(slide.next_page(), 2);
    assert_eq!(slide.next_page(), 3);
    assert_eq!(slide.current_page(), 2);
    assert_eq!(slide.previous_page(), 1);
    assert_eq!(slide.current_page(), 1);
    assert!(slide.get(3).is_none());
    assert!(slide.get_current_page().is_some());
}

#[test]
fn new_from_file_reports_unclosed_page() {
    assert_eq!(Slide::new_from_file("x", "$page", 0).unwrap_err(), CompileError::UnclosedPage);
}

#[test]
fn easing_curves_at_half() {
    assert_eq!(lerp(0, 100, 500_000), 50);
    assert_eq!(lerp(100, 0, 500_000), 50);
    assert_eq!(quadratic_ease_in(0, 100, 500_000), 25);
    assert_eq!(quadratic_ease_out(0, 100, 500_000), 75);
    assert_eq!(cubic_ease_in(10, 1000, 500_000), 135);
    assert_eq!(cubic_ease_out(0, 1000, 500_000), 875);
    assert_eq!(EasingFunction::Linear.evaluate(0, 255, FRACTION_ONE), 255);
}

#[test]
fn transition_finishes_at_duration() {
    for easing in [
        EasingFunction::Linear,
        EasingFunction::QuadraticEaseIn,
        EasingFunction::QuadraticEaseOut,
        EasingFunction::CubicEaseIn,
        EasingFunction::CubicEaseOut,
    ] {
        let t = transition(SlideTransitionType::HorizontalSlide, easing, 1000, 1000);
        assert!(t.finished_transition());
        assert_eq!(t.easing_amount(), FRACTION_ONE);
        let later = transition(SlideTransitionType::HorizontalSlide, easing, 1500, 1000);
        assert!(later.finished_transition());
        assert_eq!(later.finished_fraction(), FRACTION_ONE);
    }
    let half = transition(SlideTransitionType::HorizontalSlide, EasingFunction::Linear, 500, 1000);
    assert!(!half.finished_transition());
    assert_eq!(half.finished_fraction(), 500_000);
    assert_eq!(half.easing_amount(), 500_000);
}

#[test]
fn page_change_ticks_until_done() {
    let slide = compile_slide("$transition:horizontal:linear:1\n$page\n$end_page\n$page\n$end_page").unwrap();
    let state = match ChangePageState::begin(&slide, 0, 1) {
        ApplicationScreen::ChangePage(c) => c,
        _ => panic!("expected a page change"),
    };
    assert_eq!(state.transition.time, 0);
    assert_eq!(state.transition.finish_time, 1000);
    let state = match state.update(slide.len(), 600) {
        ApplicationScreen::ChangePage(c) => c,
        _ => panic!("still changing"),
    };
    assert_eq!(state.transition.time, 600);
    let state = match state.update(slide.len(), 600) {
        ApplicationScreen::ChangePage(c) => c,
        _ => panic!("still changing"),
    };
    assert_eq!(state.transition.time, 1200);
    assert!(matches!(state.update(slide.len(), 1), ApplicationScreen::ShowingSlide(_)));
    assert!(matches!(state.update(1, 1), ApplicationScreen::ShowingSlide(_)));
}

#[test]
fn page_change_without_transition_shows_page() {
    let mut slide = deck(0);
    assert!(matches!(ShowingSlideState::next_page(&mut slide), ApplicationScreen::ShowingSlide(_)));
    assert_eq!(slide.current_page(), 1);
}

#[test]
fn page_change_past_the_end_ends_at_once() {
    let mut slide = compile_slide("$transition:vertical\n$page\n$end_page").unwrap();
    let state = match ShowingSlideState::next_page(&mut slide) {
        ApplicationScreen::ChangePage(c) => c,
        _ => panic!("expected a page change"),
    };
    assert_eq!(state.from, 0);
    assert_eq!(state.to, 1);
    assert!(matches!(state.update(slide.len(), 10), ApplicationScreen::ShowingSlide(_)));
}

#[test]
fn fade_and_slide_frames() {
    let fade = ChangePageState {
        from: 0,
        to: 1,
        transition: transition(SlideTransitionType::FadeTo(Color::new(0, 0, 0, 255)), EasingFunction::Linear, 250, 1000),
    };
    assert_eq!(fade.fade_frame(), (127, 0));
    let fade_later = ChangePageState { transition: SlideTransition { time: 750, ..fade.transition }, ..fade };
    assert_eq!(fade_later.fade_frame(), (128, 1));
    let slide = ChangePageState {
        from: 0,
        to: 1,
        transition: transition(SlideTransitionType::HorizontalSlide, EasingFunction::Linear, 500, 1000),
    };
    assert_eq!(slide.slide_offsets(1280), (-640, 640));
    let back = ChangePageState { from: 1, to: 0, ..slide };
    assert_eq!(back.slide_offsets(1280), (640, -640));
}

#[test]
fn decimal_numbers() {
    assert_eq!(parse_thousandths("12.5"), Some(12500));
    assert_eq!(parse_thousandths("-0.25"), Some(-250));
    assert_eq!(parse_thousandths("+3"), Some(3000));
    assert_eq!(parse_thousandths("1.2345"), Some(1234));
    assert_eq!(parse_thousandths(".5"), Some(500));
    assert_eq!(parse_thousandths("abc"), None);
    assert_eq!(parse_thousandths("."), None);
    assert_eq!(parse_thousandths(""), None);
    assert_eq!(parse_unsigned("+42", 100), Some(42));
    assert_eq!(parse_unsigned("101", 100), None);
    assert_eq!(parse_unsigned("-1", 100), None);
}

#[test]
fn clamp_values() {
    assert_eq!(clamp(5, 0, 3), 3);
    assert_eq!(clamp(-2, 0, 3), 0);
    assert_eq!(clamp(2, 0, 3), 2);
    assert_eq!(clamp(1, 0, -1), -1);
}

#[test]
fn comment_lines_and_line_splitting() {
    assert_eq!(remove_comments_from_source("#a\nb\n"), "b\n\n");
    assert_eq!(remove_comments_from_source("x"), "x\n");
    assert_eq!(split_lines("a\r\nb\n"), vec!["a".to_string(), "b".to_string()]);
    assert_eq!(split_lines("a\n\nb"), vec!["a".to_string(), String::new(), "b".to_string()]);
}

#[test]
fn centered_justification() {
    let j = TextJustification::center();
    assert_eq!(j, TextJustification(TextJustificationHorizontal::Center, TextJustificationVertical::Center));
}
