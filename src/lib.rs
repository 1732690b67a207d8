//! Tokenizer for window-description templates: literal text mixed with
//! `%`-escaped placeholders such as `%i` (window id) or `%g` (geometry).
pub mod parse_format;

pub use parse_format::{
    parse_format_string, Format, FormatToken, ParseError, ParseErrorKind, TokenModel,
};
