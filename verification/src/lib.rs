//! A lexical scanner for a small scripting language.
//!
//! The scanner turns raw source text into an ordered stream of [`lex::Token`]
//! values, classifying multi-character operators, quoted text with escape
//! passthrough, numeric and identifier lexemes, and keywords, while tracking
//! the source line for diagnostics. Scanning is a single forward pass with
//! one-character lookahead; it either yields the complete token sequence,
//! terminated by an end-of-input marker, or the first fatal lexical error.

pub mod error;
pub mod lex;
pub mod props;
