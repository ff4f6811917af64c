//! A verified engine for the word-guessing game "Wordle".
//!
//! The library encodes guess feedback, narrows candidate word sets
//! consistently with accumulated feedback, and selects the next guess by an
//! information-theoretic scoring rule (a fixed-point Shannon-entropy score
//! over feedback-pattern partitions), with a letter-overlap heuristic as an
//! alternative rule. A game loop orchestrates guessing under an attempt
//! budget. Words are byte strings of one fixed length per dictionary.

pub mod constraint;
pub mod entropy;
pub mod filter;
pub mod game;
pub mod logarithm;
pub mod overlap;
pub mod pattern;
pub mod select;
