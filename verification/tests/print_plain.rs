use source_span::Span;

#[test]
fn print_without_colors_shows_the_source_as_it_is() {
    colored::control::set_override(false);
    let text = "const x = 1;\nconst y = 2;";
    let span = Span::from_usize(text.find('y').unwrap(), 1);
    assert_eq!(span.print(text, 1, 1), "2:7:\nconst y = 2;");
}

#[test]
fn print_without_colors_is_render_with_the_span_text() {
    colored::control::set_override(false);
    let text = "line1\nline2\nline3";
    let span = Span::new(7, 2);
    assert_eq!(span.print(text, 1, 1), span.render(text, 1, 1, "in"));
    assert_eq!(span.print(text, 1, 1), "2:2:\nline2\n");
}

#[test]
fn print_without_colors_keeps_escape_sequences_of_the_source() {
    colored::control::set_override(false);
    let text = "a\u{1b}[0mb";
    assert_eq!(Span::new(0, 6).print(text, 1, 1), "1:1:\na\u{1b}[0mb");
}
