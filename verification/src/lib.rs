//! A verified decision-table engine.
//!
//! A decision model is an ordered collection of named decision tables. Each
//! table matches input facts against its rules (string equality, with a
//! wildcard cell that matches anything) and, on the first matching rule,
//! produces values for its output columns. The evaluator orders the tables so
//! that a table consuming another table's output runs after its producer,
//! folds every output into a growing fact environment, and finally extracts
//! the caller's exported names. Malformed models and inputs surface as
//! structured errors; no function here panics.

pub mod adapter;
pub mod engine;
pub mod errors;
pub mod facts;
pub mod matcher;
pub mod table;
