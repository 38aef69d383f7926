//! A decoder for a permissive, JSON-adjacent configuration text format.
//!
//! The format differs from JSON in a few deliberate ways: structs use
//! parentheses, separators (commas, whitespace, newlines) are interchangeable
//! and may repeat or vanish, line and block comments are legal wherever a
//! separator is, and a top-level document may omit its outer bracket when the
//! content is unambiguous.

pub mod grammar;
pub mod parsing;
pub mod de;
pub mod structs;
