//! Errors raised while reading the configuration.

use vstd::prelude::*;

verus! {

/// A malformed configuration value or exclusion directive. Each variant holds
/// the offending text.
#[derive(Debug, PartialEq, Eq)]
pub enum ConfigError {
    /// A directive whose pattern (the text before the first `:`) is empty.
    EmptyPattern,
    /// A pattern that the glob syntax rejects.
    InvalidPattern(String),
    /// A line token that is neither a line number nor an ascending `start-end` span.
    InvalidLineSpec(String),
    /// A required setting that is absent.
    MissingField(String),
    /// A setting that should be a single string but is not.
    NotText(String),
    /// A setting that should be a list of strings but is not.
    NotList(String),
}

} // verus!
