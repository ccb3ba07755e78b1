//! A solver core for a fixed-length word-guessing game.
//!
//! The library has three parts: a feedback engine that compares a guess
//! against a hidden target word and encodes the per-position outcomes as a
//! base-3 integer signature, a dictionary that consolidates the word universe
//! and precomputes the signature of every (guess, solution) pair, and a bot
//! that scores candidate guesses by how evenly they partition the remaining
//! candidate solutions and selects the minimizing guess.

use vstd::prelude::*;

pub mod feedback_calculator;
pub mod wordle_bot;
pub mod wordle_dictionary;

verus! {

/// The error taxonomy of the library: configuration errors detected when a
/// dictionary is built, and exhaustion errors surfaced by the bot.
#[derive(Clone, Copy, Debug, PartialEq, Eq, Structural)]
pub enum WordleError {
    /// Two words of the universe differ in length.
    LengthMismatch,
    /// The signature space `3^word_length` does not fit the signature type.
    SignatureOverflow,
    /// A solution word does not occur in the guessable-word list.
    SolutionNotInUniverse,
    /// The signature table or a class count would exceed the machine's limits.
    CapacityExceeded,
    /// A guess was requested from an empty word universe.
    EmptyUniverse,
    /// Feedback ruled out every remaining candidate solution.
    ContradictoryFeedback,
}

} // verus!
