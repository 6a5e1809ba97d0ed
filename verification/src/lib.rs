//! Source spans: byte ranges of a source text, their line and character
//! positions, and the excerpt that a diagnostic prints for them.
//!
//! A [`Span`] is a start and a length in bytes and knows nothing of the text
//! that it points into. Positions and excerpts are computed on demand, in
//! one pass over the text, from a span and the text that it was made for.
//!
//! A span that does not fit the text it is used with is never clamped to
//! it. [`Span::validate`] and [`Span::to_range`] report such a span;
//! [`Span::render`] and [`Span::print`] demand one that fits.
pub mod decimal;
pub mod excerpt;
pub mod order;
pub mod position;
pub mod span;
pub mod text;

pub use position::{Position, Range};
pub use span::{Span, SpanError, Spanned};
