use source_span::Span;

#[test]
fn end_to_end_example_renders() {
    let text = "const x = 1;\nconst y = 2;";
    let span = Span::from_usize(text.find('y').unwrap(), 1);
    let out = span.render(text, 1, 1, "<y>");
    assert!(out.starts_with("2:7:\n"));
    assert_eq!(out, "2:7:\nconst <y> = 2;");
}

#[test]
fn excerpt_holds_the_whole_line_of_any_span_in_it() {
    let text = "line1\nline2\nline3";
    let lines = [(0usize, 5usize, "line1"), (6, 11, "line2"), (12, 17, "line3")];
    for (number, (from, to, line)) in lines.iter().enumerate() {
        for start in *from..=*to {
            for end in start..=*to {
                let span = Span::from_usize(start, end - start);
                let out = span.render(text, 1, 1, &text[start..end]);
                let header = format!("{}:{}:\n", number + 1, start - from + 1);
                assert!(out.starts_with(&header));
                let body = &out[header.len()..];
                assert!(body.starts_with(line));
                assert!(text[*from..].starts_with(body));
            }
        }
    }
}

#[test]
fn excerpt_for_a_span_inside_a_middle_line() {
    let text = "line1\nline2\nline3";
    assert_eq!(Span::new(7, 2).render(text, 1, 1, "<in>"), "2:2:\nl<in>e2\n");
}

#[test]
fn excerpt_for_a_span_inside_the_last_line() {
    let text = "line1\nline2\nline3";
    assert_eq!(Span::new(13, 3).render(text, 1, 1, "<ine>"), "3:2:\nl<ine>3");
}

#[test]
fn excerpt_for_a_span_that_ends_at_a_line_feed_goes_on_a_line() {
    let text = "line1\nline2\nline3";
    assert_eq!(
        Span::new(0, 5).render(text, 1, 1, "<line1>"),
        "1:1:\n<line1>\nline2\n"
    );
    assert_eq!(
        Span::new(6, 5).render(text, 1, 1, "<line2>"),
        "2:1:\n<line2>\nline3"
    );
}

#[test]
fn excerpt_for_a_span_over_two_lines() {
    let text = "line1\nline2\nline3";
    assert_eq!(
        Span::new(3, 5).render(text, 1, 1, "[]"),
        "1:4:\nlin[]ne2\n"
    );
}

#[test]
fn first_column_counts_on_the_first_line_only() {
    assert_eq!(Span::new(1, 1).render("abc", 1, 0, "<b>"), "1:1:\na<b>c");
    assert_eq!(Span::new(1, 1).render("abc", 1, 1, "<b>"), "1:2:\na<b>c");
    assert_eq!(Span::new(1, 1).render("abc", 1, 40, "<b>"), "1:41:\na<b>c");
    assert_eq!(Span::new(5, 1).render("abc\nde", 1, 40, "<e>"), "2:2:\nd<e>");
}

#[test]
fn first_line_is_added_to_the_line_count() {
    assert_eq!(Span::new(0, 1).render("a\nb", 0, 0, "<a>"), "0:0:\n<a>\nb");
    assert_eq!(Span::new(2, 1).render("a\nb", 0, 0, "<b>"), "1:1:\n<b>");
    assert_eq!(Span::new(2, 1).render("a\nb", 41, 0, "<b>"), "42:1:\n<b>");
}

#[test]
fn zero_length_span_at_the_end_of_the_text() {
    assert_eq!(Span::new(3, 0).render("abc", 1, 1, "^"), "1:4:\nabc^");
    assert_eq!(Span::new(4, 0).render("abc\n", 1, 1, "^"), "2:1:\n^");
    assert_eq!(Span::empty().render("", 1, 1, "^"), "1:1:\n^");
}

#[test]
fn zero_length_span_inside_a_line() {
    assert_eq!(Span::new(3, 0).render("hello", 1, 1, "|"), "1:4:\nhel|lo");
}

#[test]
fn numbers_are_printed_in_decimal() {
    assert_eq!(Span::new(1, 0).render("\n", 99, 0, "^"), "100:1:\n^");
    assert_eq!(Span::new(0, 0).render("x", 1234567890, 9876543210, "^"), "1234567890:9876543210:\n^x");
    let text = "0123456789abcdef";
    assert_eq!(
        Span::new(12, 1).render(text, 7, 0, "<c>"),
        "7:12:\n0123456789ab<c>def"
    );
}

#[test]
fn numbers_beyond_the_machine_word_are_printed() {
    let line = usize::MAX as u128 + 1;
    let column = usize::MAX as u128 + 2;
    assert_eq!(
        Span::new(1, 0).render("\n", usize::MAX, usize::MAX, "^"),
        format!("{}:1:\n^", line)
    );
    assert_eq!(
        Span::new(2, 0).render("ab", usize::MAX, usize::MAX, "^"),
        format!("{}:{}:\nab^", usize::MAX, column)
    );
}

#[test]
fn columns_count_characters_not_bytes() {
    let text = "\u{e4}\n\u{f6}\u{fc}";
    assert_eq!(text.len(), 7);
    assert_eq!(
        Span::new(5, 2).render(text, 1, 1, "<\u{fc}>"),
        "2:2:\n\u{f6}<\u{fc}>"
    );
    assert_eq!(
        Span::new(0, 2).render(text, 1, 1, "<\u{e4}>"),
        "1:1:\n<\u{e4}>\n\u{f6}\u{fc}"
    );
}

#[test]
fn only_a_line_feed_ends_a_line_of_the_excerpt() {
    assert_eq!(Span::new(2, 1).render("a\rb", 1, 1, "<b>"), "1:3:\na\r<b>");
    assert_eq!(
        Span::new(4, 1).render("a\u{2028}b", 1, 1, "<b>"),
        "1:3:\na\u{2028}<b>"
    );
    assert_eq!(
        Span::new(3, 1).render("a\r\nb\r\nc", 1, 1, "<b>"),
        "2:1:\n<b>\r\n"
    );
}

#[test]
fn emphasized_text_is_put_in_as_given() {
    assert_eq!(Span::new(1, 3).render("abcde", 1, 1, ""), "1:2:\nae");
    assert_eq!(
        Span::new(1, 3).render("abcde", 1, 1, "\u{1b}[1mBCD\u{1b}[0m"),
        "1:2:\na\u{1b}[1mBCD\u{1b}[0me"
    );
}

#[test]
fn rendering_twice_gives_the_same_text() {
    let text = "const x = 1;\nconst y = 2;";
    let span = Span::new(6, 1);
    let first = span.render(text, 1, 1, "x");
    let second = span.render(text, 1, 1, "x");
    assert_eq!(first, second);
    assert_eq!(first, "1:7:\nconst x = 1;\n");
}
