//! Validation and scoring of candidate solutions for a tower-placement
//! puzzle: a line-oriented numeric text format is parsed into a problem
//! specification and a solution, both are checked for structural
//! consistency, and a validated pair is scored by simulating each wave.

pub mod parser;
pub mod score;
pub mod validation;
