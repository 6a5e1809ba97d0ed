//! Line and character positions of a span, as an editor addresses them.
//!
//! Lines and characters are counted from zero, and a character is one
//! decoded character of the text, whatever the number of bytes it takes. A
//! line ends at a line feed, a carriage return, a LINE SEPARATOR or a
//! PARAGRAPH SEPARATOR; a carriage return and the line feed right after it
//! end one line, not two. A position that falls on a line terminator is
//! reported where the next line starts.
use crate::span::{Span, SpanError};
use crate::text::{
    byte_len, byte_offset, char_index, char_width, lemma_byte_offset_grows,
    lemma_char_index_monotonic, lemma_char_index_of_offset, lemma_char_index_on_boundary,
    text_len,
};
use vstd::prelude::*;
use vstd::std_specs::iter::IteratorSpec;

verus! {

/// A place in a text: a line, and a character on that line, both from zero.
#[derive(Copy, Clone, Debug, PartialEq, Eq, Structural, Hash, PartialOrd, Ord)]
pub struct Position {
    pub line: u32,
    pub character: u32,
}

/// The positions of the two ends of a span; the end is exclusive.
#[derive(Copy, Clone, Debug, PartialEq, Eq, Structural, Hash)]
pub struct Range {
    pub start: Position,
    pub end: Position,
}

impl Position {
    /// `self` comes no later than `other`: on an earlier line, or on the
    /// same line and no further right.
    pub open spec fn at_or_before(self, other: Position) -> bool {
        self.line < other.line || (self.line == other.line && self.character <= other.character)
    }
}

/// `c` is one of the four characters that end a line.
pub open spec fn is_line_terminator(c: char) -> bool {
    c == '\n' || c == '\r' || c == '\u{2028}' || c == '\u{2029}'
}

/// Character `i` of `text` is a line terminator that ends a line of its own:
/// any terminator but a line feed that follows a carriage return.
pub open spec fn ends_line(text: Seq<char>, i: int) -> bool {
    is_line_terminator(text[i]) && !(i > 0 && text[i] == '\n' && text[i - 1] == '\r')
}

/// Number of lines that end within the first `k` characters of `text`.
pub open spec fn lines_ended(text: Seq<char>, k: int) -> int
    decreases k,
{
    if k <= 0 {
        0
    } else {
        lines_ended(text, k - 1) + if ends_line(text, k - 1) {
            1int
        } else {
            0int
        }
    }
}

/// Index just past the last line terminator among the first `k` characters
/// of `text`; 0 where there is none.
pub open spec fn line_start(text: Seq<char>, k: int) -> int
    decreases k,
{
    if k <= 0 {
        0
    } else if is_line_terminator(text[k - 1]) {
        k
    } else {
        line_start(text, k - 1)
    }
}

/// Line reached after the first `k` characters of `text`, in a document
/// where the text starts on line `line_offset`.
pub open spec fn line_after(text: Seq<char>, k: int, line_offset: int) -> int {
    line_offset + lines_ended(text, k)
}

/// Character reached on that line. On the line that the text starts on,
/// characters are counted from `character_offset`; on every later line, from
/// zero.
pub open spec fn character_after(text: Seq<char>, k: int, character_offset: int) -> int {
    if line_start(text, k) == 0 {
        character_offset + k
    } else {
        k - line_start(text, k)
    }
}

/// Number of characters that count for the position of character `k`: a
/// line terminator counts for its own position, so that position is the
/// start of the next line.
pub open spec fn counted(text: Seq<char>, k: int) -> int {
    if 0 <= k < text.len() && is_line_terminator(text[k]) {
        k + 1
    } else {
        k
    }
}

/// Line of the position of character `k` of `text`; `k == text.len()` is
/// the end of the text.
pub open spec fn line_of(text: Seq<char>, k: int, line_offset: int) -> int {
    line_after(text, counted(text, k), line_offset)
}

/// Character of the position of character `k` of `text`.
pub open spec fn character_of(text: Seq<char>, k: int, character_offset: int) -> int {
    character_after(text, counted(text, k), character_offset)
}

impl Span {
    /// The range of the span in `text`: the positions of its two ends,
    /// where the span fits the text and the four coordinates are 32-bit
    /// numbers.
    pub open spec fn resolve(
        self,
        text: Seq<char>,
        line_offset: int,
        character_offset: int,
    ) -> Result<Range, SpanError> {
        let s = char_index(text, self.start as int);
        let e = char_index(text, self.end());
        if self.placement(text) is Err {
            Err(self.placement(text)->Err_0)
        } else if line_of(text, s, line_offset) > u32::MAX || character_of(
            text,
            s,
            character_offset,
        ) > u32::MAX || line_of(text, e, line_offset) > u32::MAX || character_of(
            text,
            e,
            character_offset,
        ) > u32::MAX {
            Err(SpanError::ArithmeticOverflow)
        } else {
            Ok(
                Range {
                    start: Position {
                        line: line_of(text, s, line_offset) as u32,
                        character: character_of(text, s, character_offset) as u32,
                    },
                    end: Position {
                        line: line_of(text, e, line_offset) as u32,
                        character: character_of(text, e, character_offset) as u32,
                    },
                },
            )
        }
    }
}

/// What the scan has counted when it reaches a position.
#[derive(Copy, Clone)]
struct Mark {
    /// Lines ended so far.
    lines: usize,
    /// Characters since the last line terminator, or since the start.
    characters: usize,
    /// No line terminator was seen yet.
    first_line: bool,
}

impl Mark {
    /// The mark holds the counts for the position of character `k`.
    spec fn marks(self, text: Seq<char>, k: int) -> bool {
        let n = counted(text, k);
        &&& self.lines == lines_ended(text, n)
        &&& self.characters == n - line_start(text, n)
        &&& self.first_line == (line_start(text, n) == 0)
    }

    /// The position that the mark stands for, or `None` where a coordinate
    /// is no 32-bit number.
    fn position(self, line_offset: usize, character_offset: usize) -> (p: Option<Position>)
        ensures
            match p {
                Some(p) => {
                    &&& p.line == line_offset + self.lines
                    &&& p.character == if self.first_line {
                        character_offset + self.characters
                    } else {
                        self.characters as int
                    }
                },
                None => {
                    ||| line_offset + self.lines > u32::MAX
                    ||| (if self.first_line {
                        character_offset + self.characters
                    } else {
                        self.characters as int
                    }) > u32::MAX
                },
            },
    {
        let line: u128 = line_offset as u128 + self.lines as u128;
        let character: u128 = if self.first_line {
            character_offset as u128 + self.characters as u128
        } else {
            self.characters as u128
        };
        if line > 0xffff_ffff || character > 0xffff_ffff {
            None
        } else {
            Some(Position { line: line as u32, character: character as u32 })
        }
    }
}

/// `line_start` never passes the characters that it looks at, and
/// `lines_ended` never counts more lines than there are characters.
proof fn lemma_counts_bounded(text: Seq<char>, k: int)
    requires
        0 <= k,
    ensures
        0 <= line_start(text, k) <= k,
        0 <= lines_ended(text, k) <= k,
    decreases k,
{
    if k > 0 {
        lemma_counts_bounded(text, k - 1);
    }
}

impl Span {
    /// Resolves the span to the positions of its two ends in `source`.
    ///
    /// `line_offset` and `character_offset` say where `source` starts in
    /// the document that it is a part of; the character offset holds for
    /// the first line of `source` only. A span that does not fit `source`
    /// is refused, and so is one with a coordinate beyond 32 bits.
    pub fn to_range(self, source: &str, line_offset: usize, character_offset: usize) -> (r: Result<
        Range,
        SpanError,
    >)
        ensures
            r == self.resolve(source@, line_offset as int, character_offset as int),
    {
        let ghost text = source@;
        let len = text_len(source);
        let start: u64 = self.start as u64;
        let end: u64 = self.start as u64 + self.length as u64;
        if end > len as u64 {
            return Err(SpanError::OutOfBounds);
        }
        let mut chars = source.chars();
        let ghost mut k: int = 0;
        let ghost mut s: int = 0;
        let ghost mut e: int = 0;
        let mut index: usize = 0;
        let mut here = Mark { lines: 0, characters: 0, first_line: true };
        let mut after_cr = false;
        let mut start_mark: Option<Mark> = None;
        let mut end_mark: Option<Mark> = None;
        let mut exhausted = false;
        loop
            invariant_except_break
                !exhausted,
                end_mark is None,
            invariant
                len == byte_len(text),
                start == self.start,
                end == self.end(),
                end <= len,
                0 <= k <= text.len(),
                chars.remaining() == text.skip(k),
                index == byte_offset(text, k),
                index <= len,
                here.lines == lines_ended(text, k),
                here.characters == k - line_start(text, k),
                here.first_line == (line_start(text, k) == 0),
                after_cr == (k > 0 && text[k - 1] == '\r'),
                exhausted ==> k == text.len(),
                exhausted ==> end_mark is None,
                match start_mark {
                    Some(m) => 0 <= s < k && byte_offset(text, s) == start && m.marks(text, s),
                    None => forall|i: int| 0 <= i < k ==> #[trigger] byte_offset(text, i) != start,
                },
                match end_mark {
                    Some(m) => 0 <= e < k && byte_offset(text, e) == end && m.marks(text, e),
                    None => forall|i: int| 0 <= i < k ==> #[trigger] byte_offset(text, i) != end,
                },
            ensures
                exhausted || end_mark is Some,
            decreases text.len() - k,
        {
            let next = chars.next();
            if next.is_none() {
                exhausted = true;
                break ;
            }
            let c = next.unwrap();
            proof {
                assert(c == text[k]);
                assert(text.skip(k).drop_first() =~= text.skip(k + 1));
                lemma_counts_bounded(text, k);
                lemma_byte_offset_grows(text, 0, k);
                lemma_byte_offset_grows(text, k + 1, text.len() as int);
            }
            let terminator = c == '\n' || c == '\r' || c == '\u{2028}' || c == '\u{2029}';
            let mut at = here;
            if terminator {
                if !(c == '\n' && after_cr) {
                    at.lines = at.lines + 1;
                }
                at.characters = 0;
                at.first_line = false;
            }
            proof {
                assert(at.marks(text, k));
            }
            if index as u64 == start {
                start_mark = Some(at);
                proof {
                    s = k;
                }
            }
            if index as u64 == end {
                end_mark = Some(at);
                proof {
                    e = k;
                }
            }
            if terminator {
                here = at;
            } else {
                here.characters = here.characters + 1;
            }
            after_cr = c == '\r';
            index = index + char_width(c);
            proof {
                k = k + 1;
            }
            if end_mark.is_some() {
                break ;
            }
        }
        if exhausted {
            proof {
                lemma_counts_bounded(text, k);
                assert(here.marks(text, k));
            }
            if index as u64 == start {
                start_mark = Some(here);
                proof {
                    s = k;
                }
            }
            if index as u64 == end {
                end_mark = Some(here);
                proof {
                    e = k;
                }
            }
        }
        proof {
            if end_mark is Some {
                lemma_char_index_of_offset(text, e);
                if start_mark is Some {
                    lemma_char_index_of_offset(text, s);
                } else {
                    assert forall|i: int| 0 <= i <= text.len() implies #[trigger] byte_offset(
                        text,
                        i,
                    ) != start by {
                        if i > e {
                            lemma_byte_offset_grows(text, e, i);
                        }
                    }
                }
            } else {
                assert(forall|i: int|
                    0 <= i <= text.len() ==> #[trigger] byte_offset(text, i) != end);
            }
        }
        if start_mark.is_none() || end_mark.is_none() {
            return Err(SpanError::NotCharBoundary);
        }
        let first = start_mark.unwrap().position(line_offset, character_offset);
        let last = end_mark.unwrap().position(line_offset, character_offset);
        if first.is_none() || last.is_none() {
            return Err(SpanError::ArithmeticOverflow);
        }
        Ok(Range { start: first.unwrap(), end: last.unwrap() })
    }
}

/// The counts never go back: after more characters the line is the same
/// or a later one, and on the same line the character is the same or a
/// later one.
pub proof fn lemma_counts_monotonic(
    text: Seq<char>,
    n1: int,
    n2: int,
    line_offset: int,
    character_offset: int,
)
    requires
        0 <= n1 <= n2,
    ensures
        line_after(text, n1, line_offset) <= line_after(text, n2, line_offset),
        line_after(text, n1, line_offset) == line_after(text, n2, line_offset) ==> character_after(
            text,
            n1,
            character_offset,
        ) <= character_after(text, n2, character_offset),
    decreases n2,
{
    if n1 < n2 {
        lemma_counts_monotonic(text, n1, n2 - 1, line_offset, character_offset);
        lemma_counts_bounded(text, n2 - 1);
        if n2 >= 2 {
            lemma_counts_bounded(text, n2 - 2);
        }
    }
}

/// A position later in the text is on the same line or a later one, and on
/// the same line it is no further left.
pub proof fn lemma_positions_ordered(
    text: Seq<char>,
    k1: int,
    k2: int,
    line_offset: int,
    character_offset: int,
)
    requires
        0 <= k1 <= k2,
    ensures
        line_of(text, k1, line_offset) <= line_of(text, k2, line_offset),
        line_of(text, k1, line_offset) == line_of(text, k2, line_offset) ==> character_of(
            text,
            k1,
            character_offset,
        ) <= character_of(text, k2, character_offset),
{
    lemma_counts_monotonic(
        text,
        counted(text, k1),
        counted(text, k2),
        line_offset,
        character_offset,
    );
}

/// Of two spans that resolve in one text, the one that starts at the
/// smaller byte offset has the start position that comes first, or the same
/// one.
pub proof fn lemma_start_positions_ordered(
    a: Span,
    b: Span,
    text: Seq<char>,
    line_offset: usize,
    character_offset: usize,
)
    requires
        a.start < b.start,
        a.resolve(text, line_offset as int, character_offset as int) is Ok,
        b.resolve(text, line_offset as int, character_offset as int) is Ok,
    ensures
        a.resolve(text, line_offset as int, character_offset as int)->Ok_0.start.at_or_before(
            b.resolve(text, line_offset as int, character_offset as int)->Ok_0.start,
        ),
{
    lemma_char_index_monotonic(text, a.start as int, b.start as int);
    lemma_char_index_on_boundary(text, a.start as int);
    lemma_char_index_on_boundary(text, b.start as int);
    let ka = char_index(text, a.start as int);
    let kb = char_index(text, b.start as int);
    lemma_positions_ordered(text, ka, kb, line_offset as int, character_offset as int);
    lemma_counts_bounded(text, counted(text, ka));
    lemma_counts_bounded(text, counted(text, kb));
}

/// A span of no bytes resolves to a range whose two ends are one position.
pub proof fn lemma_empty_span_is_a_point(
    span: Span,
    text: Seq<char>,
    line_offset: usize,
    character_offset: usize,
)
    requires
        span.length == 0,
        span.resolve(text, line_offset as int, character_offset as int) is Ok,
    ensures
        span.resolve(text, line_offset as int, character_offset as int)->Ok_0.start
            == span.resolve(text, line_offset as int, character_offset as int)->Ok_0.end,
{
}

/// Resolving is a function of its arguments: whatever two calls on the same
/// span, text and offsets return is the same.
pub proof fn lemma_to_range_is_deterministic(
    span: Span,
    source: &str,
    line_offset: usize,
    character_offset: usize,
    first: Result<Range, SpanError>,
    second: Result<Range, SpanError>,
)
    requires
        call_ensures(Span::to_range, (span, source, line_offset, character_offset), first),
        call_ensures(Span::to_range, (span, source, line_offset, character_offset), second),
    ensures
        first == second,
{
}

} // verus!
