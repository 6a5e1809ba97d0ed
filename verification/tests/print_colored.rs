use source_span::Span;

#[test]
fn print_marks_the_span_in_red() {
    colored::control::set_override(true);
    let text = "const x = 1;\nconst y = 2;";
    let span = Span::from_usize(text.find('y').unwrap(), 1);
    let out = span.print(text, 1, 1);
    assert!(out.starts_with("2:7:\n"));
    assert_eq!(out, "2:7:\nconst \u{1b}[31my\u{1b}[0m = 2;");
}

#[test]
fn print_marks_an_empty_span() {
    colored::control::set_override(true);
    assert_eq!(
        Span::new(3, 0).print("hello", 1, 1),
        "1:4:\nhel\u{1b}[31m\u{1b}[0mlo"
    );
}

#[test]
fn print_shows_the_line_after_a_span_that_ends_its_line() {
    colored::control::set_override(true);
    assert_eq!(
        Span::new(0, 5).print("line1\nline2\nline3", 1, 1),
        "1:1:\n\u{1b}[31mline1\u{1b}[0m\nline2\n"
    );
}

#[test]
fn print_is_render_with_the_painted_text() {
    colored::control::set_override(true);
    let text = "a\u{e9}b\nc";
    let span = Span::new(1, 2);
    assert_eq!(
        span.print(text, 5, 2),
        span.render(text, 5, 2, "\u{1b}[31m\u{e9}\u{1b}[0m")
    );
}

#[test]
fn printing_twice_gives_the_same_text() {
    colored::control::set_override(true);
    let text = "const x = 1;\nconst y = 2;";
    let span = Span::new(6, 1);
    assert_eq!(span.print(text, 1, 1), span.print(text, 1, 1));
}

#[test]
fn print_turns_red_on_again_after_a_reset_in_the_span() {
    colored::control::set_override(true);
    let text = "a\u{1b}[0mb\u{1b}[0m";
    assert_eq!(
        Span::new(0, 10).print(text, 1, 1),
        "1:1:\n\u{1b}[31ma\u{1b}[0m\u{1b}[31mb\u{1b}[0m\u{1b}[31m\u{1b}[0m"
    );
    assert_eq!(
        Span::new(1, 4).print(text, 1, 1),
        "1:2:\na\u{1b}[31m\u{1b}[0m\u{1b}[31m\u{1b}[0mb\u{1b}[0m"
    );
}

#[test]
fn print_leaves_other_escape_sequences_alone() {
    colored::control::set_override(true);
    let text = "a\u{1b}[1mb\u{1b}[";
    assert_eq!(
        Span::new(0, 8).print(text, 1, 1),
        "1:1:\n\u{1b}[31ma\u{1b}[1mb\u{1b}[\u{1b}[0m"
    );
}
