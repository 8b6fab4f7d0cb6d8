//! Preparing the `unsafe` code fragments found by a query for the classifier.
pub mod inference;

pub use inference::{show_languages, ClassificationInput, MatchText};
