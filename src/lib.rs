//! Finds the words of a word list that can be spelled from a rack of letters,
//! and shapes the matches into one of several orders.

pub mod configuration;
pub mod letters;
pub mod runner;

use vstd::prelude::*;

verus! {

/// The ordering policy applied to the matches.
#[derive(Debug, Clone, Copy, PartialEq, Eq, Structural)]
pub enum Options {
    /// Matches stay in the order in which the words were supplied.
    ScanOrder,
    /// Matches in ascending order.
    Alpha,
    /// Matches grouped by descending length, each group in ascending order.
    Len,
    /// Only the matches of the greatest length, in the order supplied.
    Longest,
}

/// Why a command line was not accepted.
#[derive(Debug, PartialEq)]
pub enum Error {
    /// The arguments do not follow the usage.
    Usage,
    /// The dictionary file with this name cannot be opened.
    FileIO(String),
    /// The rack has fewer than three letters.
    LettersLength,
    /// The rack holds a character that is not alphabetic.
    LettersContainsNumerics,
}

} // verus!
