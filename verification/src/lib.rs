//! Query Rust source with tree-sitter and prepare the code fragments that hold
//! an `unsafe` keyword for a classifier that predicts whether they need it.
pub mod query;
pub mod safe;
