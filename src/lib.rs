//! Evaluation engine of a five-letter word-guessing game: per-letter feedback,
//! hard-mode consistency, a keyboard aggregate and cross-game statistics.

pub mod config;
pub mod error;
pub mod interactor;
pub mod plate;
pub mod statistic;
pub mod util;
pub mod word_gen;
