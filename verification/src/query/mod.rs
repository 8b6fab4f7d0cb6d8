//! Languages, tree-sitter queries and the command-line configuration of a query run.
pub mod chooser;
pub mod cli;
pub mod compiled;
pub mod extractor;
pub mod language;
pub mod order;
mod ts;

pub use chooser::{ExtractorChooser, TypeMatcher};
pub use cli::{ArgValues, ConfigError, Invocation, QueryFormat, QueryOpts, UnknownFormat};
pub use compiled::{Capture, CompiledQuery};
pub use extractor::{ExtractError, ExtractedFile, ExtractedMatch, Extractor, Point};
pub use language::{Language, UnknownLanguage};
