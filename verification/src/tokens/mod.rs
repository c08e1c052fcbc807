//! Tokens read from a window, and the buffer that looks one token ahead.

pub mod buffer;
pub mod error;
pub mod rules;
pub mod stream;

pub use buffer::{TokenBuffer, TokenBufferView};
pub use error::{TokenError, TokenErrorView};
