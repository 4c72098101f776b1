//! Expansion of bracketed numeric ranges in a pattern string.
//!
//! A pattern such as `img[1-2][3-4].jpg` denotes the list of strings obtained
//! by replacing each `[from-to]` span with every integer of the inclusive
//! range, in ascending order, preserving the zero-padding width of the left
//! literal.  The leftmost bracket varies slowest.  Malformed input is reported
//! through [`errors::RenbanError`]; the intended top-level policy is to fall
//! back to the unchanged input on any error.

pub mod errors;
pub mod expand;
pub mod num;
pub mod text;
