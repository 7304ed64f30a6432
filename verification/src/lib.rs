//! Core of a heads-up postflop solver for Texas Hold'em.
//!
//! The library holds what a solve is built on, each piece with a
//! machine-checked contract:
//!
//! - `cards`, `card_encoding`, `ranges`: cards, their notation and their
//!   coding as integers 0..51; range text and hand classes.
//! - `hand_evaluator`, `lookup_eval`: the value of a poker hand and the
//!   fast evaluator that computes it for 5 to 7 cards.
//! - `by_the_book`, `best_five`: the proofs that five cards are worth what
//!   the rules of poker give them, and six or seven what their best five
//!   are worth.
//! - `river_solver`, `turn_solver`: hands of a range beside a board, the
//!   showdown table, payoffs at the end of a hand, and the inputs of a
//!   solve on one street or on two.
//! - `postflop_tree`: the betting tree of one street or of two, with its
//!   action nodes numbered.
//! - `bucketing`: equity of a hand against a random hand, and buckets of
//!   equal size by equity.
//! - `cfr`: keys of information sets and the order of the sweeps.
//! - `text`: numbers and amounts as text.
//!
//! Amounts are whole chip units, `postflop_tree::SCALE` to the chip. The
//! iteration itself, which runs on floating-point numbers, is left to the
//! program that uses the library.

pub mod best_five;
pub mod bucketing;
pub mod by_the_book;
pub mod cards;
pub mod card_encoding;
pub mod cfr;
pub mod hand_evaluator;
pub mod lookup_eval;
pub mod postflop_tree;
pub mod ranges;
pub mod river_solver;
pub mod text;
pub mod turn_solver;
