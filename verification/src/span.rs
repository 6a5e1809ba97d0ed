//! Spans: byte ranges of a source text.
use crate::decimal::{decimal, push_decimal};
use crate::text::{
    byte_len, is_boundary, lemma_boundary_is_char_boundary, lemma_boundary_within, text_len,
};
use vstd::prelude::*;
use vstd::string::StringExecFns;

verus! {

/// Why a span could not be built, or could not be placed in a text.
#[derive(Copy, Clone, Debug, PartialEq, Eq, Structural, Hash)]
pub enum SpanError {
    /// An offset, a length or a resolved coordinate is beyond what 32 bits hold.
    ArithmeticOverflow,
    /// The span reaches past the end of the text.
    OutOfBounds,
    /// The span lies within the text, but starts or ends inside the encoding
    /// of a character.
    NotCharBoundary,
}

/// The bytes `[start, start + length)` of a source text.
///
/// Offsets count bytes of the text as it is stored, not characters. The
/// fields come in the order by which spans are sorted: first by `start`,
/// then by `length`.
#[derive(Copy, Clone, Debug, PartialEq, Eq, Structural, Hash, Ord)]
pub struct Span {
    pub start: u32,
    pub length: u32,
}

/// A value together with the span of source text that it came from.
#[derive(Copy, Clone, Debug, Hash, PartialEq, Eq, Ord, PartialOrd)]
pub struct Spanned<T> {
    pub span: Span,
    pub item: T,
}

impl Span {
    /// Offset just past the last byte of the span.
    pub open spec fn end(self) -> int {
        self.start + self.length
    }

    /// The end of the span is itself a 32-bit offset.
    pub open spec fn wf(self) -> bool {
        self.end() <= u32::MAX
    }

    /// `other` lies within `self`, the two ends included.
    pub open spec fn spec_contains(&self, other: Span) -> bool {
        other.start >= self.start && other.end() <= self.end()
    }

    /// Both ends of the span are boundaries of `text`.
    pub open spec fn fits(self, text: Seq<char>) -> bool {
        is_boundary(text, self.start as int) && is_boundary(text, self.end())
    }

    /// How the span lies in `text`: `Ok` where it fits, else what is wrong
    /// with it.
    pub open spec fn placement(self, text: Seq<char>) -> Result<(), SpanError> {
        if self.end() > byte_len(text) {
            Err(SpanError::OutOfBounds)
        } else if !self.fits(text) {
            Err(SpanError::NotCharBoundary)
        } else {
            Ok(())
        }
    }

    /// The span of no bytes at offset 0, which stands for "no location".
    pub fn empty() -> (s: Span)
        ensures
            s.start == 0,
            s.length == 0,
            s.wf(),
    {
        Span { start: 0, length: 0 }
    }

    /// The span of `length` bytes from `start`.
    pub fn new(start: u32, length: u32) -> (s: Span)
        requires
            start + length <= u32::MAX,
        ensures
            s.start == start,
            s.length == length,
            s.wf(),
    {
        Span { start, length }
    }

    /// The span of `length` bytes from `start`, both known to be 32-bit
    /// offsets.
    pub fn from_usize(start: usize, length: usize) -> (s: Span)
        requires
            start + length <= u32::MAX,
        ensures
            s.start == start,
            s.length == length,
            s.wf(),
    {
        Span { start: start as u32, length: length as u32 }
    }

    /// The span of `length` bytes from `start`, or `ArithmeticOverflow`
    /// where its end is no 32-bit offset.
    pub fn checked_from_usize(start: usize, length: usize) -> (r: Result<Span, SpanError>)
        ensures
            start + length <= u32::MAX ==> r == Ok::<Span, SpanError>(
                Span { start: start as u32, length: length as u32 },
            ),
            start + length > u32::MAX ==> r == Err::<Span, SpanError>(
                SpanError::ArithmeticOverflow,
            ),
    {
        if start > 0xffff_ffff || length > 0xffff_ffff - start {
            Err(SpanError::ArithmeticOverflow)
        } else {
            Ok(Span { start: start as u32, length: length as u32 })
        }
    }

    /// `(start, length)`.
    pub fn as_usize(self) -> (pair: (usize, usize))
        ensures
            pair.0 == self.start,
            pair.1 == self.length,
    {
        (self.start as usize, self.length as usize)
    }

    /// Whether `subspan` lies within `self`, the two ends included.
    #[verifier::when_used_as_spec(spec_contains)]
    pub fn contains(&self, subspan: Span) -> (inside: bool)
        ensures
            inside == self.spec_contains(subspan),
    {
        subspan.start >= self.start && subspan.start as u64 + subspan.length as u64
            <= self.start as u64 + self.length as u64
    }

    /// The span as `start:end`, both in decimal.
    pub open spec fn label(self) -> Seq<char> {
        decimal(self.start as nat) + seq![':'] + decimal(self.end() as nat)
    }

    /// The span as `start:end`, the form in which a span is shown when a
    /// structure that holds it is printed for debugging.
    pub fn debug_string(&self) -> (s: String)
        ensures
            s@ == self.label(),
    {
        let mut s = String::new();
        push_decimal(&mut s, self.start as u128);
        proof {
            reveal_strlit(":");
        }
        s.append(":");
        push_decimal(&mut s, self.start as u128 + self.length as u128);
        proof {
            assert(":"@ =~= seq![':']);
            assert(s@ =~= self.label());
        }
        s
    }

    /// Checks the span against the text that it is meant for.
    pub fn validate(&self, source: &str) -> (r: Result<(), SpanError>)
        ensures
            r == self.placement(source@),
            r is Ok <==> self.fits(source@),
    {
        let len = text_len(source);
        let end: u64 = self.start as u64 + self.length as u64;
        proof {
            lemma_boundary_is_char_boundary(source@, self.start as int);
            lemma_boundary_is_char_boundary(source@, self.end());
            if is_boundary(source@, self.end()) {
                lemma_boundary_within(source@, self.end());
            }
        }
        if end > len as u64 {
            Err(SpanError::OutOfBounds)
        } else if source.is_char_boundary(self.start as usize) && source.is_char_boundary(
            end as usize,
        ) {
            Ok(())
        } else {
            Err(SpanError::NotCharBoundary)
        }
    }
}

impl<T> Spanned<T> {
    /// `item`, marked as coming from `span`.
    pub fn new(span: Span, item: T) -> (s: Spanned<T>)
        ensures
            s.span == span,
            s.item == item,
    {
        Spanned { span, item }
    }
}

/// Every span contains itself.
pub proof fn lemma_contains_reflexive(s: Span)
    ensures
        s.contains(s),
{
}

/// Two spans that contain each other are the same span.
pub proof fn lemma_contains_antisymmetric(a: Span, b: Span)
    requires
        a.contains(b),
        b.contains(a),
    ensures
        a == b,
{
}

} // verus!
