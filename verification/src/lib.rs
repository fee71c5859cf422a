//! A small combinatorial search library for letter-feedback puzzles.
//!
//! Given a fixed solution word, every candidate word produces a
//! deterministic per-letter feedback signature (`calculate_pattern`).
//! Candidates are grouped by signature in a word index; a wildcarded
//! query pattern is expanded into the concrete signatures it denotes
//! (`expand_query_pattern`) and resolved against the index.

#![verifier::loop_isolation(false)]

pub mod expand;
pub mod index;
pub mod parse;
pub mod signature;
pub mod states;
