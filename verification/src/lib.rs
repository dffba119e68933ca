//! A recursive-descent parser for JSON text.
//!
//! [`parser::parse`] takes a document and returns the tree of values it
//! denotes together with the input that follows the value. The parsers it
//! is made of are public too: each takes the input as a slice of characters
//! and a position, and returns either a value with the position after it or
//! a [`error::ParseError`].
//!
//! Every parser is specified by a function on the remaining input, which
//! says what it accepts, what value it yields and where and how it fails,
//! and the executable function is proved to compute exactly that.
//!
//! - `lexical`: whitespace, digits, integers, punctuation and literals
//! - `number`: numbers
//! - `string`: strings and their escapes
//! - `value`: the tree of values
//! - `grammar`: values, arrays, objects and documents, as functions on the
//!   remaining input
//! - `parser`: the executable parsers of those
//! - `whitespace`: whitespace between tokens does not change the value
//!
//! What to know before use:
//!
//! - A number is kept as it was written: sign, integer part, digits of the
//!   fraction, exponent. The library does no floating-point arithmetic.
//! - An integer part or exponent that does not fit 64 bits wraps around.
//! - Of the escapes in strings, `\u` with four hexadecimal digits is not
//!   supported: it fails as an unrecognized escape.
//! - An object keeps one member for each key; of two members with one key
//!   the later one stays.
//! - Input after the value is not an error: it is handed back.
//! - Arrays and objects may be nested up to a limit, `parser::MAX_DEPTH`
//!   unless another is given; deeper nesting is a failure, not a crash.

pub mod error;
pub mod lexical;
pub mod number;
pub mod string;
pub mod value;
pub mod grammar;
pub mod parser;
pub mod whitespace;
