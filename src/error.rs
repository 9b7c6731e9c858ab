//! Errors reported by ticket generation and probability calculations.

use vstd::prelude::*;

verus! {

/// Every failure the library reports.
#[derive(Debug, Clone, PartialEq)]
pub enum LottoError {
    /// The starting number is greater than or equal to the ending number.
    InvalidRange { start: u8, end: u8 },
    /// The number of balls to pick is zero or exceeds the available range.
    PickExceedsRange { pick: usize, available: usize },
    /// The number of games requested is zero.
    ZeroGames,
    /// An intermediate value of a combinatorial calculation does not fit in 128 bits.
    CalculationOverflow { operation: String },
    /// The number of balls to match exceeds the pick size.
    InvalidMatchCount { match_count: usize, pick_count: usize },
    /// More unique tickets were requested than there are distinct tickets.
    TooManyUniqueGames { requested: usize, maximum: u128 },
    /// The attempt budget ran out before enough distinct tickets were drawn.
    UniqueGenerationFailed { requested: usize, generated: usize },
    /// Input/output failure in a caller's interaction layer.
    IoError(String),
    /// A caller's input could not be parsed.
    ParseError(String),
}

/// Results that fail with a [`LottoError`].
pub type Result<T> = std::result::Result<T, LottoError>;

} // verus!
