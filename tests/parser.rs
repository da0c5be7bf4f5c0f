use slideshow::color::{hexadecimal_to_decimal, Color};
use slideshow::slide::{SlideElement, SlideTransitionType};
use slideshow::slide_parser::{
    compile_slide, parse_single_command, parse_slide_command, Command, CompileError,
    SlideLineCommand,
};
use slideshow::utility::EasingFunction;

fn line_command(name: &str, args: &[&str]) -> SlideLineCommand {
    SlideLineCommand {
        name: name.to_string(),
        args: args.iter().map(|a| a.to_string()).collect(),
    }
}

fn text_of(e: &SlideElement) -> String {
    match e {
        SlideElement::Text(t) => t.text.clone(),
        SlideElement::Image(_) => panic!("an image"),
    }
}

#[test]
fn tokenize_quoted_color() {
    let commands = parse_slide_command("$color:\"#FF0000FF\"").unwrap();
    assert_eq!(commands.len(), 1);
    assert_eq!(commands[0].name, "color");
    assert_eq!(commands[0].args, vec!["#FF0000FF".to_string()]);
}

#[test]
fn tokenize_escaped_dollar() {
    assert!(parse_slide_command("$$literal").is_none());
    assert!(parse_slide_command("$").is_none());
    assert!(parse_slide_command("plain text").is_none());
    assert!(parse_slide_command("").is_none());
}

#[test]
fn tokenize_chained_commands() {
    let commands = parse_slide_command("$font-size:32 color:\"#000000\"").unwrap();
    assert_eq!(commands.len(), 2);
    assert_eq!(commands[0].name, "font-size");
    assert_eq!(commands[0].args, vec!["32".to_string()]);
    assert_eq!(commands[1].name, "color");
    assert_eq!(commands[1].args, vec!["#000000".to_string()]);
}

#[test]
fn tokenize_several_arguments() {
    let commands = parse_slide_command("$set-position:10.5:current").unwrap();
    assert_eq!(commands.len(), 1);
    assert_eq!(commands[0].args, vec!["10.5".to_string(), "current".to_string()]);
}

#[test]
fn tokenize_dollar_between_tokens() {
    assert!(parse_slide_command("$a $b").is_none());
}

#[test]
fn hex_digits() {
    assert_eq!(hexadecimal_to_decimal("FF"), 255);
    assert_eq!(hexadecimal_to_decimal("0A"), 10);
    assert_eq!(hexadecimal_to_decimal("7"), 7);
    assert_eq!(hexadecimal_to_decimal("c0"), 192);
}

#[test]
fn color_literals() {
    assert_eq!(Color::parse_hexadecimal_literal("#FF8000"), Some(Color::new(255, 128, 0, 255)));
    assert_eq!(Color::parse_hexadecimal_literal("#01020304"), Some(Color::new(1, 2, 3, 4)));
    assert_eq!(Color::parse_hexadecimal_literal("#12"), None);
    assert_eq!(Color::parse_hexadecimal_literal("FF0000"), None);
    assert_eq!(Color::parse_hexadecimal_literal("#GG0000"), None);
}

#[test]
fn read_color_commands() {
    match parse_single_command(&line_command("color", &["#FF0000"])) {
        Some(Command::SetColor(c)) => assert_eq!(c, Color::new(255, 0, 0, 255)),
        _ => panic!("expected a color"),
    }
    match parse_single_command(&line_command("background_color", &["#00FF0080"])) {
        Some(Command::SetBackgroundColor(c)) => assert_eq!(c, Color::new(0, 255, 0, 128)),
        _ => panic!("expected a background color"),
    }
    assert!(parse_single_command(&line_command("color", &["#12"])).is_none());
    assert!(parse_single_command(&line_command("color", &[])).is_none());
}

#[test]
fn read_font_commands() {
    match parse_single_command(&line_command("font-size", &["32"])) {
        Some(Command::SetFontSize(n)) => assert_eq!(n, 32),
        _ => panic!("expected a font size"),
    }
    assert!(parse_single_command(&line_command("font-size", &["abc"])).is_none());
    assert!(parse_single_command(&line_command("font-size", &["70000"])).is_none());
    match parse_single_command(&line_command("font", &["a.ttf"])) {
        Some(Command::SetFont(p)) => assert_eq!(p, "a.ttf"),
        _ => panic!("expected a font"),
    }
    assert!(matches!(parse_single_command(&line_command("font", &[])), Some(Command::ResetFont)));
    assert!(matches!(parse_single_command(&line_command("reset-font", &[])), Some(Command::ResetFont)));
}

#[test]
fn read_resolution_commands() {
    assert!(matches!(
        parse_single_command(&line_command("resolution", &[])),
        Some(Command::SetVirtualResolution(1280, 720))
    ));
    assert!(matches!(
        parse_single_command(&line_command("resolution", &["800", "x"])),
        Some(Command::SetVirtualResolution(800, 720))
    ));
}

#[test]
fn read_transition_commands() {
    match parse_single_command(&line_command("transition", &["fade", "#FF0000FF", "cubic_ease_in", "2.5"])) {
        Some(Command::SetTransition(t)) => {
            assert_eq!(t.transition_type, SlideTransitionType::FadeTo(Color::new(255, 0, 0, 255)));
            assert_eq!(t.easing_function, EasingFunction::CubicEaseIn);
            assert_eq!(t.finish_time, 2500);
            assert_eq!(t.time, 0);
        }
        _ => panic!("expected a transition"),
    }
    match parse_single_command(&line_command("transition", &["vertical"])) {
        Some(Command::SetTransition(t)) => {
            assert_eq!(t.transition_type, SlideTransitionType::VerticalSlide);
            assert_eq!(t.easing_function, EasingFunction::Linear);
            assert_eq!(t.finish_time, 1000);
        }
        _ => panic!("expected a transition"),
    }
    match parse_single_command(&line_command("transition", &["bogus", "bogus_easing", "abc"])) {
        Some(Command::SetTransition(t)) => {
            assert_eq!(t.transition_type, SlideTransitionType::HorizontalSlide);
            assert_eq!(t.easing_function, EasingFunction::Linear);
            assert_eq!(t.finish_time, 1000);
        }
        _ => panic!("expected a transition"),
    }
}

#[test]
fn read_position_and_image_commands() {
    assert!(matches!(
        parse_single_command(&line_command("set-position", &["current", "12.25"])),
        Some(Command::SetPosition(None, Some(12250)))
    ));
    assert!(parse_single_command(&line_command("set-position", &["abc"])).is_none());
    assert!(matches!(parse_single_command(&line_command("reset-position", &[])), Some(Command::ResetPosition)));
    match parse_single_command(&line_command("image", &["pic.png", "100", "50"])) {
        Some(Command::InsertImage(background, path, w, h)) => {
            assert!(!background);
            assert_eq!(path, "pic.png");
            assert_eq!(w, Some(100000));
            assert_eq!(h, Some(50000));
        }
        _ => panic!("expected an image"),
    }
    assert!(matches!(
        parse_single_command(&line_command("bkimage", &["pic.png"])),
        Some(Command::InsertImage(true, _, None, None))
    ));
    assert!(parse_single_command(&line_command("image", &[])).is_none());
    assert!(parse_single_command(&line_command("no-such-thing", &[])).is_none());
}

#[test]
fn compile_one_text_page() {
    let slide = compile_slide("$page\nA\n\n$end_page").unwrap();
    assert_eq!(slide.len(), 1);
    let page = slide.get(0).unwrap();
    assert_eq!(page.elements.len(), 1);
    match &page.elements[0] {
        SlideElement::Text(t) => {
            assert_eq!(t.text, "A");
            assert_eq!(t.line_breaks, 0);
            assert_eq!(t.font_size, 48);
            assert_eq!(t.color, Color::new(0, 0, 0, 0));
        }
        SlideElement::Image(_) => panic!("expected text"),
    }
}

#[test]
fn compile_unclosed_page_fails() {
    assert_eq!(compile_slide("$page\nA\n").unwrap_err(), CompileError::UnclosedPage);
    assert_eq!(
        compile_slide("$page\nA\n$end_page\n$page\nB").unwrap_err(),
        CompileError::UnclosedPage
    );
}

#[test]
fn compile_counts_blank_lines() {
    let slide = compile_slide("$page\nA\n\n\nB\n$end_page").unwrap();
    match &slide.get(0).unwrap().elements[1] {
        SlideElement::Text(t) => {
            assert_eq!(t.text, "B");
            assert_eq!(t.line_breaks, 2);
        }
        SlideElement::Image(_) => panic!("expected text"),
    }
}

#[test]
fn compile_strips_comments_escapes_and_tabs() {
    let slide = compile_slide("# title\n$page\n#hidden\n$$hi\n\tx\n$end_page\n").unwrap();
    let page = slide.get(0).unwrap();
    assert_eq!(page.elements.len(), 2);
    assert_eq!(text_of(&page.elements[0]), "$hi");
    assert_eq!(text_of(&page.elements[1]), "    x");
}

#[test]
fn compile_carries_settings_into_pages() {
    let slide = compile_slide("$color:\"#FF0000\" font-size:20\n$page\nA\n$end_page\n$page\n$background_color:\"#000000\"\nB\n$end_page").unwrap();
    let first = slide.get(0).unwrap();
    assert_eq!(first.background_color, Color::new(255, 255, 255, 255));
    match &first.elements[0] {
        SlideElement::Text(t) => {
            assert_eq!(t.color, Color::new(255, 0, 0, 255));
            assert_eq!(t.font_size, 20);
        }
        SlideElement::Image(_) => panic!("expected text"),
    }
    assert_eq!(slide.get(1).unwrap().background_color, Color::new(0, 0, 0, 255));
}

#[test]
fn compile_document_settings() {
    let slide = compile_slide("$resolution:800:600\n$transition:vertical\n$page\n$transition:fade\n$end_page\n$page\n$end_page").unwrap();
    assert_eq!(slide.resolution(), (800, 600));
    assert_eq!(slide.default_transition.unwrap().transition_type, SlideTransitionType::VerticalSlide);
    assert_eq!(
        slide.get(0).unwrap().transition.unwrap().transition_type,
        SlideTransitionType::FadeTo(Color::new(0, 0, 0, 255))
    );
    assert!(slide.get(1).unwrap().transition.is_none());
    assert_eq!(slide.transition_for(1).unwrap().transition_type, SlideTransitionType::VerticalSlide);
}

#[test]
fn compile_positions_reset_at_each_page() {
    let slide = compile_slide("$page\n$set-position:10:20\nA\n$set-position:current:5\nB\n$end_page\n$page\nC\n$end_page").unwrap();
    match &slide.get(0).unwrap().elements[0] {
        SlideElement::Text(t) => {
            assert_eq!(t.x, Some(10000));
            assert_eq!(t.y, Some(20000));
        }
        SlideElement::Image(_) => panic!("expected text"),
    }
    match &slide.get(0).unwrap().elements[1] {
        SlideElement::Text(t) => {
            assert_eq!(t.x, Some(10000));
            assert_eq!(t.y, Some(5000));
        }
        SlideElement::Image(_) => panic!("expected text"),
    }
    match &slide.get(1).unwrap().elements[0] {
        SlideElement::Text(t) => {
            assert_eq!(t.x, None);
            assert_eq!(t.y, None);
        }
        SlideElement::Image(_) => panic!("expected text"),
    }
}

#[test]
fn compile_images() {
    let slide = compile_slide("$page\n$image:\"a.png\":10:20\n$bkimage:b.png\n$end_page").unwrap();
    let page = slide.get(0).unwrap();
    assert_eq!(page.elements.len(), 2);
    match &page.elements[0] {
        SlideElement::Image(i) => {
            assert_eq!(i.location, "a.png");
            assert!(!i.background);
            assert_eq!(i.w, Some(10000));
            assert_eq!(i.h, Some(20000));
        }
        SlideElement::Text(_) => panic!("expected an image"),
    }
    match &page.elements[1] {
        SlideElement::Image(i) => assert!(i.background),
        SlideElement::Text(_) => panic!("expected an image"),
    }
}

#[test]
fn compile_empty_source() {
    let slide = compile_slide("").unwrap();
    assert_eq!(slide.len(), 0);
    assert_eq!(slide.resolution(), (1280, 720));
}

#[test]
fn tokenize_literal_ends_at_closing_quote() {
    let commands = parse_slide_command("$font:\"a\" \"b\"").unwrap();
    assert_eq!(commands.len(), 2);
    assert_eq!(commands[0].name, "font");
    assert_eq!(commands[0].args, vec!["a".to_string()]);
    assert_eq!(commands[1].name, "b");
    assert!(commands[1].args.is_empty());
}

#[test]
fn compile_applies_commands_chained_after_transition() {
    let slide = compile_slide("$page\n$transition:fade set-position:10:10\nA\n$end_page").unwrap();
    let page = slide.get(0).unwrap();
    assert!(matches!(page.transition.unwrap().transition_type, SlideTransitionType::FadeTo(_)));
    match &page.elements[0] {
        SlideElement::Text(t) => {
            assert_eq!(t.x, Some(10000));
            assert_eq!(t.y, Some(10000));
        }
        SlideElement::Image(_) => panic!("expected text"),
    }
}

#[test]
fn compile_applies_every_top_level_command() {
    let slide = compile_slide("$resolution:800:600 transition:vertical color:\"#00FF00\"\n$page\nA\n$end_page").unwrap();
    assert_eq!(slide.resolution(), (800, 600));
    assert_eq!(slide.default_transition.unwrap().transition_type, SlideTransitionType::VerticalSlide);
    match &slide.get(0).unwrap().elements[0] {
        SlideElement::Text(t) => assert_eq!(t.color, Color::new(0, 255, 0, 255)),
        SlideElement::Image(_) => panic!("expected text"),
    }
    let later = compile_slide("$color:\"#00FF00\" resolution:640:480\n$page\n$color:\"#FF0000\" transition:vertical\n$end_page").unwrap();
    assert_eq!(later.resolution(), (640, 480));
    assert_eq!(later.get(0).unwrap().transition.unwrap().transition_type, SlideTransitionType::VerticalSlide);
}

#[test]
fn compile_page_takes_context_background() {
    let slide = compile_slide("$background_color:\"#102030\"\n$page\nA\n$end_page\n$page\nB\n$end_page").unwrap();
    assert_eq!(slide.get(0).unwrap().background_color, Color::new(16, 32, 48, 255));
    assert_eq!(slide.get(1).unwrap().background_color, Color::new(16, 32, 48, 255));
}
