//! A lexer for a small Lisp-like surface syntax.
//!
//! The input text is scanned left to right in a single pass and classified
//! into a flat sequence of tokens: parentheses, string literals, number
//! literals, keywords, binary operators and plain symbols. There is no
//! parser here; grammar-level validation is a caller's concern.

pub mod lexer;
pub mod props;
