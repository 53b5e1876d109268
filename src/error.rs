//! Why a parse failed.
use vstd::prelude::*;

verus! {

/// The first failure met while parsing; parsing stops there.
#[derive(Debug, Clone, Copy, PartialEq, Eq, Structural)]
pub enum ParseError {
    /// The next character was not the one the grammar requires here, or the input ended.
    ExpectedChar(char),
    /// A bare token was neither `true` nor `false`.
    InvalidLiteral,
    /// A run of digits does not fit in an `i64`.
    NumericOverflow,
}

} // verus!
