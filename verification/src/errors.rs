//! The error taxonomy of the expansion pipeline.

use vstd::prelude::*;

verus! {

/// Why a range boundary failed to parse as an `i32`, mirroring the stages of
/// decimal integer parsing: an empty literal, a character outside `0..=9`
/// (or a stray sign), or a value outside the `i32` range.
#[derive(Debug, PartialEq, Eq, Clone, Copy)]
pub enum IntParseKind {
    Empty,
    InvalidDigit,
    PosOverflow,
    NegOverflow,
}

/// An error of the expansion pipeline.  Errors short-circuit: they propagate
/// unchanged through every stage, and the top-level caller is expected to
/// fall back to echoing the original input.
#[derive(Debug, PartialEq, Eq, Clone, Copy)]
pub enum RenbanError {
    /// A required delimiter (`-` inside a range token, `[` or `]` inside a
    /// pattern) was not found.
    InvalidArgs,
    /// The parsed `to` bound is less than the parsed `from` bound.
    InvalidRange,
    /// A range boundary is not a valid `i32` literal; carries the detail.
    ParseError(IntParseKind),
}

} // verus!
