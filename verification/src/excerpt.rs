//! The excerpt that a diagnostic prints for a span.
//!
//! The excerpt is a line `line:column:` followed by the source from the
//! start of the line on which the span starts to the end of the line on
//! which it ends, with the text of the span emphasized. Here a line ends at
//! a line feed and at nothing else. Lines are numbered from the line number
//! given for the first line of the text. Columns on that first line are
//! counted from the column given for its first character; on every later
//! line the first character is in column 1.
use crate::decimal::{decimal, push_decimal};
use crate::span::Span;
use crate::text::{
    byte_len, byte_offset, char_index, char_width, lemma_boundary_within, lemma_byte_offset_grows,
    lemma_char_index_monotonic, lemma_char_index_of_offset, lemma_char_index_on_boundary, slice,
    text_len,
};
use vstd::prelude::*;
use vstd::std_specs::iter::IteratorSpec;
use vstd::string::StringExecFns;

verus! {

/// Number of line feeds among the first `k` characters of `text`.
pub open spec fn line_feeds(text: Seq<char>, k: int) -> int
    decreases k,
{
    if k <= 0 {
        0
    } else {
        line_feeds(text, k - 1) + if text[k - 1] == '\n' {
            1int
        } else {
            0int
        }
    }
}

/// Index just past the last line feed among the first `k` characters of
/// `text`, which is where the line of character `k` starts; 0 where there
/// is no line feed.
pub open spec fn excerpt_start(text: Seq<char>, k: int) -> int
    decreases k,
{
    if k <= 0 {
        0
    } else if text[k - 1] == '\n' {
        k
    } else {
        excerpt_start(text, k - 1)
    }
}

/// Index just past the first line feed at index `k` or later; the length of
/// `text` where there is none.
pub open spec fn line_end(text: Seq<char>, k: int) -> int
    decreases text.len() - k,
{
    if k < 0 || k >= text.len() {
        text.len() as int
    } else if text[k] == '\n' {
        k + 1
    } else {
        line_end(text, k + 1)
    }
}

/// Where the excerpt for a span that ends before character `e` ends: just
/// past the first line feed that comes after character `e`, or at the end
/// of the text.
pub open spec fn excerpt_end(text: Seq<char>, e: int) -> int {
    line_end(text, e + 1)
}

/// Number of the line on which character `k` stands, where the first line
/// of `text` has the number `first_line`.
pub open spec fn line_number(text: Seq<char>, k: int, first_line: nat) -> nat {
    (first_line + line_feeds(text, k)) as nat
}

/// Column of character `k`, where the first character of `text` is in
/// column `first_column`.
pub open spec fn column_number(text: Seq<char>, k: int, first_column: nat) -> nat {
    if excerpt_start(text, k) == 0 {
        (first_column + k) as nat
    } else {
        (1 + k - excerpt_start(text, k)) as nat
    }
}

/// The escape sequence that turns the foreground red.
pub open spec fn red_on() -> Seq<char> {
    seq!['\u{1b}', '[', '3', '1', 'm']
}

/// The escape sequence that clears every style.
pub open spec fn style_off() -> Seq<char> {
    seq!['\u{1b}', '[', '0', 'm']
}

/// `plain` with the red escape sequence put in again after each place at
/// which `plain` itself clears every style, so that what follows such a
/// place is red too.
pub open spec fn repainted(plain: Seq<char>) -> Seq<char>
    decreases plain.len(),
{
    if plain.len() == 0 {
        plain
    } else if plain.len() >= 4 && plain.take(4) == style_off() {
        style_off() + red_on() + repainted(plain.skip(4))
    } else {
        seq![plain[0]] + repainted(plain.skip(1))
    }
}

/// `plain` in red: between the sequence that turns red on and the one that
/// clears every style.
pub open spec fn painted(plain: Seq<char>) -> Seq<char> {
    red_on() + repainted(plain) + style_off()
}

/// `shown` is one of the two forms in which `plain` comes out emphasized:
/// as it is, where colors are off, or in red.
pub open spec fn is_emphasis_of(shown: Seq<char>, plain: Seq<char>) -> bool {
    shown == plain || shown == painted(plain)
}

/// Text without an escape character stands as it is between the two
/// escape sequences.
pub proof fn lemma_painted_without_escape(plain: Seq<char>)
    requires
        !plain.contains('\u{1b}'),
    ensures
        repainted(plain) == plain,
        painted(plain) == red_on() + plain + style_off(),
    decreases plain.len(),
{
    if plain.len() > 0 {
        assert(plain[0] != '\u{1b}');
        if plain.len() >= 4 {
            assert(plain.take(4)[0] == plain[0]);
            assert(style_off()[0] == '\u{1b}');
        }
        let rest = plain.skip(1);
        assert forall|c: char| rest.contains(c) implies plain.contains(c) by {
            let i = choose|i: int| 0 <= i < rest.len() && rest[i] == c;
            assert(plain[i + 1] == c);
        }
        lemma_painted_without_escape(rest);
        assert(seq![plain[0]] + rest =~= plain);
    }
}

impl Span {
    /// The text of the span.
    pub open spec fn marked(self, text: Seq<char>) -> Seq<char> {
        text.subrange(char_index(text, self.start as int), char_index(text, self.end()))
    }

    /// The first line of the excerpt: the line and the column at which
    /// the span starts, each followed by a colon.
    pub open spec fn heading(self, text: Seq<char>, first_line: nat, first_column: nat) -> Seq<
        char,
    > {
        let s = char_index(text, self.start as int);
        decimal(line_number(text, s, first_line)) + seq![':'] + decimal(
            column_number(text, s, first_column),
        ) + seq![':', '\n']
    }

    /// The excerpt for the span, with `shown` in the place of its text.
    pub open spec fn excerpt(
        self,
        text: Seq<char>,
        first_line: nat,
        first_column: nat,
        shown: Seq<char>,
    ) -> Seq<char> {
        let s = char_index(text, self.start as int);
        let e = char_index(text, self.end());
        self.heading(text, first_line, first_column) + text.subrange(excerpt_start(text, s), s)
            + shown + text.subrange(e, excerpt_end(text, e))
    }
}

/// The source shown for a span from character `s` to character `e` starts
/// where a line starts, ends where a line ends, and holds both: no line on
/// which the span stands is cut.
pub proof fn lemma_excerpt_bounds(text: Seq<char>, s: int, e: int)
    requires
        0 <= s <= e <= text.len(),
    ensures
        0 <= excerpt_start(text, s) <= s,
        e <= excerpt_end(text, e) <= text.len(),
        excerpt_start(text, s) == 0 || text[excerpt_start(text, s) - 1] == '\n',
        excerpt_end(text, e) == text.len() || text[excerpt_end(text, e) - 1] == '\n',
        forall|i: int| excerpt_start(text, s) <= i < s ==> text[i] != '\n',
        forall|i: int| e < i < excerpt_end(text, e) - 1 ==> text[i] != '\n',
{
    lemma_excerpt_start(text, s);
    lemma_line_end(text, e + 1);
}

/// Shown with the text of the span as it is, the excerpt is its heading and
/// then the source from the start of the line on which the span starts to
/// the end of the line on which it ends: whole lines, never a part of one.
pub proof fn lemma_excerpt_shows_whole_lines(
    span: Span,
    text: Seq<char>,
    first_line: nat,
    first_column: nat,
)
    requires
        span.fits(text),
    ensures
        ({
            let s = char_index(text, span.start as int);
            let e = char_index(text, span.end());
            let from = excerpt_start(text, s);
            let to = excerpt_end(text, e);
            &&& 0 <= from <= s <= e <= to <= text.len()
            &&& from == 0 || text[from - 1] == '\n'
            &&& to == text.len() || text[to - 1] == '\n'
            &&& span.excerpt(text, first_line, first_column, span.marked(text)) == span.heading(
                text,
                first_line,
                first_column,
            ) + text.subrange(from, to)
        }),
{
    let s = char_index(text, span.start as int);
    let e = char_index(text, span.end());
    lemma_char_index_on_boundary(text, span.start as int);
    lemma_char_index_on_boundary(text, span.end());
    lemma_char_index_monotonic(text, span.start as int, span.end());
    lemma_excerpt_bounds(text, s, e);
    let from = excerpt_start(text, s);
    let to = excerpt_end(text, e);
    assert(text.subrange(from, s) + text.subrange(s, e) + text.subrange(e, to) =~= text.subrange(
        from,
        to,
    ));
    assert(span.excerpt(text, first_line, first_column, span.marked(text)) =~= span.heading(
        text,
        first_line,
        first_column,
    ) + text.subrange(from, to));
}

/// `excerpt_start` is the start of the line of character `k`.
proof fn lemma_excerpt_start(text: Seq<char>, k: int)
    requires
        0 <= k,
    ensures
        0 <= excerpt_start(text, k) <= k,
        0 <= line_feeds(text, k) <= k,
        excerpt_start(text, k) == 0 || text[excerpt_start(text, k) - 1] == '\n',
        forall|i: int| excerpt_start(text, k) <= i < k ==> text[i] != '\n',
    decreases k,
{
    if k > 0 {
        lemma_excerpt_start(text, k - 1);
    }
}

/// `line_end` is the end of the line of character `k`.
proof fn lemma_line_end(text: Seq<char>, k: int)
    requires
        0 <= k,
    ensures
        k <= line_end(text, k) || text.len() < k,
        line_end(text, k) <= text.len(),
        line_end(text, k) == text.len() || text[line_end(text, k) - 1] == '\n',
        forall|i: int| k <= i < line_end(text, k) - 1 ==> text[i] != '\n',
    decreases text.len() - k,
{
    if k < text.len() && text[k] != '\n' {
        lemma_line_end(text, k + 1);
    }
}

/// What the scan finds for a span: where it stands and what to print of
/// the source around it.
struct Layout {
    line: u128,
    column: u128,
    slice_start: usize,
    slice_end: usize,
}

/// Emphasizes `text` for a terminal.
///
/// Calls `colored::Colorize::color` with `"red"` on `text` and renders the
/// `ColoredString` through its `Display`. Whether colors are on is for
/// `colored` to decide, from the variables of the process, the terminal and
/// its override switch, so the contract names both outcomes and not which
/// of them comes. With colors off the text comes back as it is. With colors
/// on it comes back after `ESC[31m` and before `ESC[0m`, and wherever the
/// text holds `ESC[0m` itself, `ESC[31m` is put in right after it.
/// `colored` reads its switch as it renders: this speaks of a call during
/// which nobody turns it.
#[verifier::external_body]
fn paint_red(text: &str) -> (shown: String)
    ensures
        is_emphasis_of(shown@, text@),
{
    colored::Colorize::color(text, "red").to_string()
}

impl Span {
    /// Scans `source` once for the place of the span and the lines around
    /// it.
    fn layout(self, source: &str, first_line: usize, first_column: usize) -> (lay: Layout)
        requires
            self.fits(source@),
        ensures
            lay.line == line_number(source@, char_index(source@, self.start as int), first_line as nat),
            lay.column == column_number(
                source@,
                char_index(source@, self.start as int),
                first_column as nat,
            ),
            lay.slice_start == byte_offset(
                source@,
                excerpt_start(source@, char_index(source@, self.start as int)),
            ),
            lay.slice_end == byte_offset(
                source@,
                excerpt_end(source@, char_index(source@, self.end())),
            ),
    {
        let ghost text = source@;
        let ghost s = char_index(text, self.start as int);
        let ghost e = char_index(text, self.end());
        let len = text_len(source);
        proof {
            lemma_char_index_on_boundary(text, self.start as int);
            lemma_char_index_on_boundary(text, self.end());
            lemma_char_index_monotonic(text, self.start as int, self.end());
            lemma_boundary_within(text, self.end());
        }
        let start: usize = self.start as usize;
        let end: usize = (self.start as u64 + self.length as u64) as usize;
        let mut chars = source.chars();
        let ghost mut k: int = 0;
        let mut index: usize = 0;
        let mut found = false;
        let mut feeds: u128 = 0;
        let mut column: u128 = first_column as u128;
        let mut start_column: u128 = first_column as u128;
        let mut line_start: usize = 0;
        let mut slice_start: usize = 0;
        let mut slice_end: usize = end;
        let mut closed = false;
        loop
            invariant_except_break
                !closed,
            invariant
                len == byte_len(text),
                0 <= s <= e <= text.len(),
                start == byte_offset(text, s),
                end == byte_offset(text, e),
                0 <= k <= text.len(),
                chars.remaining() == text.skip(k),
                index == byte_offset(text, k),
                index <= len,
                found == (s < k),
                !found ==> feeds == line_feeds(text, k),
                found ==> feeds == line_feeds(text, s),
                column == column_number(text, k, first_column as nat),
                line_start == byte_offset(text, excerpt_start(text, k)),
                found ==> start_column == column_number(text, s, first_column as nat),
                found ==> slice_start == byte_offset(text, excerpt_start(text, s)),
                !closed && k > e ==> excerpt_end(text, e) == line_end(text, k),
                closed ==> k > e,
                closed ==> slice_end == byte_offset(text, excerpt_end(text, e)),
                feeds <= k <= index,
            ensures
                closed || k == text.len(),
            decreases text.len() - k,
        {
            let next = chars.next();
            if next.is_none() {
                break ;
            }
            let c = next.unwrap();
            proof {
                assert(c == text[k]);
                assert(text.skip(k).drop_first() =~= text.skip(k + 1));
                lemma_excerpt_start(text, k);
                lemma_byte_offset_grows(text, 0, k);
                lemma_byte_offset_grows(text, k, k + 1);
                lemma_byte_offset_grows(text, k + 1, text.len() as int);
                if k < s {
                    lemma_byte_offset_grows(text, k, s);
                } else if s < k {
                    lemma_byte_offset_grows(text, s, k);
                }
                if k < e {
                    lemma_byte_offset_grows(text, k, e);
                } else if e < k {
                    lemma_byte_offset_grows(text, e, k);
                }
            }
            if index == start {
                slice_start = line_start;
                start_column = column;
                found = true;
            }
            let width = char_width(c);
            if c == '\n' {
                line_start = index + 1;
                column = 1;
                if index < start {
                    feeds = feeds + 1;
                }
                if index > end {
                    slice_end = line_start;
                    closed = true;
                }
            } else {
                column = column + 1;
            }
            index = index + width;
            proof {
                k = k + 1;
            }
            if closed {
                break ;
            }
        }
        if !closed {
            proof {
                lemma_excerpt_start(text, k);
                if s < k {
                    lemma_byte_offset_grows(text, s, k);
                }
            }
            if index == start {
                slice_start = line_start;
                start_column = column;
            }
            slice_end = index;
        }
        Layout { line: first_line as u128 + feeds, column: start_column, slice_start, slice_end }
    }

    /// The excerpt for the span in `source`, with `emphasized` standing
    /// for the text of the span.
    ///
    /// `first_line` is the number of the first line of `source`, and
    /// `first_column` the column of its first character.
    pub fn render(
        self,
        source: &str,
        first_line: usize,
        first_column: usize,
        emphasized: &str,
    ) -> (out: String)
        requires
            self.fits(source@),
        ensures
            out@ == self.excerpt(source@, first_line as nat, first_column as nat, emphasized@),
    {
        let ghost text = source@;
        let ghost s = char_index(text, self.start as int);
        let ghost e = char_index(text, self.end());
        proof {
            lemma_char_index_on_boundary(text, self.start as int);
            lemma_char_index_on_boundary(text, self.end());
            lemma_char_index_monotonic(text, self.start as int, self.end());
            lemma_boundary_within(text, self.end());
            lemma_excerpt_bounds(text, s, e);
            lemma_char_index_of_offset(text, excerpt_start(text, s));
            lemma_char_index_of_offset(text, excerpt_end(text, e));
            lemma_byte_offset_grows(text, excerpt_start(text, s), s);
            lemma_byte_offset_grows(text, e, excerpt_end(text, e));
        }
        let len = text_len(source);
        let start: usize = self.start as usize;
        let end: usize = (self.start as u64 + self.length as u64) as usize;
        let lay = self.layout(source, first_line, first_column);
        let before = slice(source, lay.slice_start, start);
        let after = slice(source, end, lay.slice_end);
        let mut out = String::new();
        push_decimal(&mut out, lay.line);
        proof {
            reveal_strlit(":");
            reveal_strlit(":\n");
        }
        out.append(":");
        push_decimal(&mut out, lay.column);
        out.append(":\n");
        out.append(before);
        out.append(emphasized);
        out.append(after);
        proof {
            assert(":"@ =~= seq![':']);
            assert(":\n"@ =~= seq![':', '\n']);
            assert(out@ =~= self.excerpt(text, first_line as nat, first_column as nat, emphasized@));
        }
        out
    }

    /// The excerpt for the span in `source`, with the text of the span
    /// emphasized for a terminal.
    ///
    /// `start_line_count_offset` is the number of the first line of
    /// `source`, and `start_line_offset` the column of its first
    /// character.
    pub fn print(self, source: &str, start_line_count_offset: usize, start_line_offset: usize) -> (out:
        String)
        requires
            self.fits(source@),
        ensures
            out@ == self.excerpt(
                source@,
                start_line_count_offset as nat,
                start_line_offset as nat,
                self.marked(source@),
            ) || out@ == self.excerpt(
                source@,
                start_line_count_offset as nat,
                start_line_offset as nat,
                painted(self.marked(source@)),
            ),
    {
        proof {
            lemma_boundary_within(source@, self.end());
        }
        let len = text_len(source);
        let start: usize = self.start as usize;
        let end: usize = (self.start as u64 + self.length as u64) as usize;
        let shown = paint_red(slice(source, start, end));
        self.render(source, start_line_count_offset, start_line_offset, shown.as_str())
    }
}

/// Rendering is a function of its arguments: whatever two calls on the
/// same span, text, offsets and emphasized text return is the same.
pub proof fn lemma_render_is_deterministic(
    span: Span,
    source: &str,
    first_line: usize,
    first_column: usize,
    emphasized: &str,
    first: String,
    second: String,
)
    requires
        span.fits(source@),
        call_ensures(Span::render, (span, source, first_line, first_column, emphasized), first),
        call_ensures(Span::render, (span, source, first_line, first_column, emphasized), second),
    ensures
        first@ == second@,
{
}

} // verus!
