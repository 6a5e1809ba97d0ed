use source_span::decimal::push_decimal;
use source_span::text::{char_width, slice, text_len};

#[test]
fn char_width_is_the_encoded_length() {
    assert_eq!(char_width('a'), 1);
    assert_eq!(char_width('\u{e9}'), 2);
    assert_eq!(char_width('\u{20ac}'), 3);
    assert_eq!(char_width('\u{1f600}'), 4);
    for c in [
        '\0', '\u{7f}', '\u{80}', '\u{7ff}', '\u{800}', '\u{d7ff}', '\u{e000}', '\u{ffff}',
        '\u{10000}', '\u{10ffff}', '\n', '\r', '\u{2028}', '\u{2029}',
    ] {
        assert_eq!(char_width(c), c.len_utf8());
    }
}

#[test]
fn text_len_counts_bytes() {
    assert_eq!(text_len(""), 0);
    assert_eq!(text_len("hello"), 5);
    assert_eq!(text_len("h\u{e9}llo"), 6);
    assert_eq!(text_len("\u{1f600}\u{20ac}"), 7);
}

#[test]
fn slice_cuts_between_byte_offsets() {
    let text = "a\u{e9}\u{1f600}b\nc";
    assert_eq!(slice(text, 0, 0), "");
    assert_eq!(slice(text, 0, 1), "a");
    assert_eq!(slice(text, 1, 3), "\u{e9}");
    assert_eq!(slice(text, 3, 8), "\u{1f600}b");
    assert_eq!(slice(text, 8, 10), "\nc");
    assert_eq!(slice(text, 10, 10), "");
    assert_eq!(slice(text, 0, 10), text);
}

#[test]
fn push_decimal_appends_the_digits() {
    let mut out = String::from("n=");
    push_decimal(&mut out, 0);
    assert_eq!(out, "n=0");
    push_decimal(&mut out, 9);
    push_decimal(&mut out, 10);
    push_decimal(&mut out, 1234567890);
    assert_eq!(out, "n=09101234567890");
    let mut big = String::new();
    push_decimal(&mut big, u128::MAX);
    assert_eq!(big, "340282366920938463463374607431768211455");
}
