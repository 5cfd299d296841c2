//! Daily puzzle generator for lettersoep.
//!
//! Seeds derive from the date via FNV-1a and drive a Mulberry32 generator,
//! so a date maps to one puzzle forever. Moves are scored by the Dutch
//! Scrabble rules on a fixed 15x15 board.

pub mod bag;
pub mod board;
pub mod dict;
pub mod letters;
pub mod moves;
pub mod puzzle;
pub mod rng;
pub mod scoring;

pub use board::{Board, Tile};
pub use dict::Dictionary;
pub use letters::{letter_value, is_vowel, premium_at, Premium};
pub use rng::{fnv1a, Rng};
pub use moves::{find_all_moves, Move};
pub use puzzle::{
    daily_puzzle, epoch, opening_words, puzzle_number, puzzle_request, seed_for_date, servable, DailyPuzzle, PlacedWord,
    RequestError,
    PuzzleError, ViewRect, EPOCH_DAY, GENERATOR_VERSION,
};
pub use scoring::{score_placement, Scored, ScoredWord};
