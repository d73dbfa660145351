//! Process configuration, as plain values.
//!
//! The surrounding program reads these from its environment at startup and
//! hands them in; missing credentials abort startup there.

use vstd::prelude::*;

verus! {

/// Where the remote copy of the rule file lives.
#[derive(Debug, PartialEq, Eq)]
pub struct GithubConfig {
    pub owner: String,
    pub repo: String,
    pub branch: String,
    pub token: Option<String>,
}

/// The credentials the process starts with.
#[derive(Debug, PartialEq, Eq)]
pub struct EnvConfig {
    pub discord_token: String,
    pub github_token: Option<String>,
}

impl EnvConfig {
    /// Whether the remote store can be used at all.
    pub fn has_github(&self) -> (r: bool)
        ensures
            r == (self.github_token is Some),
    {
        self.github_token.is_some()
    }
}

} // verus!
