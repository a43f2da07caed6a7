//! A terminal word-guessing game library: a hidden target word of fixed
//! length must be found within a fixed number of attempts, with per-letter
//! feedback (correct spot, elsewhere in the word, absent) after each guess.
//!
//! This crate holds the verified core: dictionary loading, guess scoring,
//! and the game state machine. Terminal rendering and raw keyboard capture
//! are left to the surrounding program.

use vstd::prelude::*;

pub mod dict;
pub mod game;
pub mod score;

verus! {

/// Length of every word in the game: dictionary entries, the target,
/// and every guess.
pub const WORD_LENGTH: usize = 5;

/// Number of guesses the player is allowed.
pub const GUESSES: usize = 5;

/// ASCII code of lowercase `a`, the first letter the game accepts.
pub const ASCII_A: u8 = 97;

/// ASCII code of lowercase `z`, the last letter the game accepts.
pub const ASCII_Z: u8 = 122;

} // verus!
