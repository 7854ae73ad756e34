use vstd::prelude::*;

verus! {

/// Errors of the textual card conversions.
#[derive(Debug)]
pub enum Error {
    /// Number -> Rank conversion failed (argument is the given number, in decimal)
    InvalidRankNumber(String),
    /// Char -> Rank conversion failed (argument is the given character)
    InvalidRankChar(char),
    /// Char -> Suit conversion failed (argument is the given character)
    InvalidSuitChar(char),
    /// str -> Card conversion failed (the text is not exactly two characters long)
    InvalidStringLen,
}

} // verus!
