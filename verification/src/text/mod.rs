//! Documents, locations, spans and the scanning window.

pub mod decode;
pub mod document;
pub mod location;
pub mod pattern;
pub mod window;

pub use decode::read_char;
pub use document::Document;
pub use location::{Location, NonContiguousSpansError, Span, Spanned, TextError};
pub use pattern::{lemma_predicate_pattern, CharPattern};
pub use window::{Window, WindowView};
