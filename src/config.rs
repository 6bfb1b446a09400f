//! Run configuration: where the statistics come from and how they are shown.
use vstd::prelude::*;
use crate::language::LanguageType;

verus! {

/// The options of a run.
pub struct Args {
    /// Access token for a live scan.
    pub personal_token: Option<String>,
    /// Path of a cached aggregate to replay instead of a live scan.
    pub cache_path: Option<String>,
    /// Categories to show; empty shows every category.
    pub categories: Vec<LanguageType>,
    /// Language names never shown.
    pub hidden: Vec<String>,
    /// Relative cutoff divisor for grouping the long tail; 0 groups nothing.
    pub group_threshold: usize,
}

/// Where the statistics of a run come from.
pub enum DataSource {
    /// Replay the cached aggregate at this path.
    Cache(String),
    /// Scan live with this access token.
    Live(String),
}

/// A run configuration that names no source, or both.
#[derive(Clone, Copy, Debug, PartialEq, Eq, Structural)]
pub enum ConfigError {
    NoSource,
    BothSources,
}

impl Args {
    /// The one source that the options name: the cache path or the token.
    pub fn data_source(&self) -> (r: Result<DataSource, ConfigError>)
        ensures
            match (self.cache_path, self.personal_token) {
                (Some(p), None) => r matches Ok(DataSource::Cache(q)) && q@ == p@,
                (None, Some(t)) => r matches Ok(DataSource::Live(u)) && u@ == t@,
                (None, None) => r == Err::<DataSource, ConfigError>(ConfigError::NoSource),
                (Some(_), Some(_)) => r == Err::<DataSource, ConfigError>(ConfigError::BothSources),
            },
    {
        match (&self.cache_path, &self.personal_token) {
            (Some(p), None) => Ok(DataSource::Cache(p.clone())),
            (None, Some(t)) => Ok(DataSource::Live(t.clone())),
            (None, None) => Err(ConfigError::NoSource),
            (Some(_), Some(_)) => Err(ConfigError::BothSources),
        }
    }

    /// Whether unclassified entries are shown: exactly when the long tail is
    /// grouped, so that a threshold of 0 leaves no "Others" bar at all.
    pub fn keep_unclassified(&self) -> (r: bool)
        ensures
            r == (self.group_threshold != 0),
    {
        self.group_threshold != 0
    }
}

} // verus!
