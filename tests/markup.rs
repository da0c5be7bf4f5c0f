use slideshow::markup::{is_whitespace, Markup, MarkupLexer};

#[test]
fn very_simple_case_a() {
    let markup_lex = MarkupLexer::new("_t t_");
    assert_eq!(vec![Markup::Underlined(String::from("t t"))], markup_lex.collect());
}

#[test]
fn very_simple_case_b() {
    let markup_lex = MarkupLexer::new("+t t+");
    assert_eq!(vec![Markup::Strikethrough(String::from("t t"))], markup_lex.collect());
}

#[test]
fn simpler_case_a() {
    let markup_lex = MarkupLexer::new("a + b");
    assert_eq!(
        vec![Markup::Plain(String::from("a ")), Markup::Plain(String::from("+ b"))],
        markup_lex.collect()
    );
}

#[test]
fn simpler_case_b() {
    let markup_lex = MarkupLexer::new("_sad _t t_");
    assert_eq!(vec![Markup::Underlined(String::from("sad _t t"))], markup_lex.collect());
}

#[test]
fn test_output() {
    let markup_lex = MarkupLexer::new("This is a *thing* Cool_right_ _sad _t t_ a + b!");
    assert_eq!(
        vec![
            Markup::Plain(String::from("This is a ")),
            Markup::Bold(String::from("thing")),
            Markup::Plain(String::from(" Cool_right_ ")),
            Markup::Underlined(String::from("sad _t t")),
            Markup::Plain(String::from(" a ")),
            Markup::Plain(String::from("+ b!"))
        ],
        markup_lex.collect()
    );
}

#[test]
fn bold_span_and_stitch() {
    assert_eq!(
        vec![
            Markup::Plain(String::from("a ")),
            Markup::Bold(String::from("bold")),
            Markup::Plain(String::from(" b"))
        ],
        MarkupLexer::new("a *bold* b").collect()
    );
    assert_eq!(MarkupLexer::new("a *bold* b").stitch(), "a bold b");
}

#[test]
fn interior_delimiter_does_not_close() {
    let items = MarkupLexer::new("_snake_case_ word").collect();
    assert!(!items.contains(&Markup::Underlined(String::from("snake_case"))));
    assert!(!items.contains(&Markup::Underlined(String::from("_snake_case_"))));
    assert_eq!(vec![Markup::Plain(String::from("_snake_case_ word"))], items);
    assert_eq!(MarkupLexer::new("_snake_case_ word").stitch(), "_snake_case_ word");
}

#[test]
fn span_around_whole_words_still_forms() {
    assert_eq!(
        vec![
            Markup::Underlined(String::from("two words")),
            Markup::Plain(String::from(" x"))
        ],
        MarkupLexer::new("_two words_ x").collect()
    );
}

#[test]
fn italics_before_punctuation() {
    assert_eq!(
        vec![
            Markup::Plain(String::from("say ")),
            Markup::Italics(String::from("this")),
            Markup::Plain(String::from("!"))
        ],
        MarkupLexer::new("say /this/!").collect()
    );
}

#[test]
fn unmatched_delimiter_stays_plain() {
    let text = "x *never closed";
    assert_eq!(
        vec![
            Markup::Plain(String::from("x ")),
            Markup::Plain(String::from("*never closed"))
        ],
        MarkupLexer::new(text).collect()
    );
    assert_eq!(MarkupLexer::new(text).stitch(), text);
}

#[test]
fn empty_text_has_no_runs() {
    assert!(MarkupLexer::new("").collect().is_empty());
    assert_eq!(MarkupLexer::new("").stitch(), "");
}

#[test]
fn next_hands_out_runs_in_order() {
    let mut lexer = MarkupLexer::new("a *b*");
    assert_eq!(lexer.next(), Some(Markup::Plain(String::from("a "))));
    assert_eq!(lexer.next(), Some(Markup::Bold(String::from("b"))));
    assert_eq!(lexer.next(), None);
}

#[test]
fn text_content_of_a_run() {
    assert_eq!(Markup::Bold(String::from("x")).get_text_content(), "x");
}

#[test]
fn whitespace_characters() {
    assert!(is_whitespace(' '));
    assert!(is_whitespace('\t'));
    assert!(is_whitespace('\r'));
    assert!(is_whitespace('\n'));
    assert!(!is_whitespace('a'));
}
