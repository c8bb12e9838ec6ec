//! A solver core for a fixed-length numeric equation guessing game.
//!
//! The library enumerates the universe of valid equation strings of a given
//! length, scores a guess against a goal with positional clues, filters a
//! candidate pool against an observed clue, and ranks candidate guesses by
//! precomputed information scores with deterministic tie-breaking.

pub mod alphabet;
pub mod clue;
pub mod counts;
pub mod enumerate;
pub mod filter;
pub mod optimize;
pub mod strings;
pub mod walker;
