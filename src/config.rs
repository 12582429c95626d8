//! Settings for publishing the changelog, and what can go wrong doing so.

use vstd::prelude::*;

verus! {

/// The settings file: one section, for GitHub.
pub struct Config {
    pub github: GithubConfig,
}

/// The credentials used to publish on GitHub.
pub struct GithubConfig {
    pub token: String,
}

/// Why publishing the changelog failed.
#[derive(Debug, Clone, PartialEq, Eq)]
pub enum PublishError {
    /// A file or process could not be accessed.
    IoError(String),
    /// The publishing script ran and reported failure, with its error output.
    ExecutionError(String),
    /// The settings could not be loaded.
    ConfigError(String),
}

} // verus!
