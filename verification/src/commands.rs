//! The administrative storage command: which store operation to run and
//! what to answer when it succeeds.

use vstd::prelude::*;

verus! {

/// The storage operations an administrator can request.
#[derive(Debug, Clone, Copy, PartialEq, Eq, Structural)]
pub enum StorageCommandOptions {
    SaveToFile,
    LoadFromFile,
    SaveToGithub,
    LoadFromGithub,
}

/// One parsed storage command.
#[derive(Debug, Clone, Copy, PartialEq, Eq, Structural)]
pub struct StorageCommand {
    pub storage_command: StorageCommandOptions,
}

impl StorageCommand {
    /// Whether the requested operation needs the remote store
    /// configuration.
    pub fn needs_github(&self) -> (r: bool)
        ensures
            r == (self.storage_command is SaveToGithub || self.storage_command is LoadFromGithub),
    {
        match self.storage_command {
            StorageCommandOptions::SaveToGithub => true,
            StorageCommandOptions::LoadFromGithub => true,
            _ => false,
        }
    }

    /// Whether the requested operation replaces the in-memory rules with
    /// stored ones (as opposed to writing them out).
    pub fn is_load(&self) -> (r: bool)
        ensures
            r == (self.storage_command is LoadFromFile || self.storage_command is LoadFromGithub),
    {
        match self.storage_command {
            StorageCommandOptions::LoadFromFile => true,
            StorageCommandOptions::LoadFromGithub => true,
            _ => false,
        }
    }

    /// The confirmation text reported after the operation succeeds.
    pub fn success_message(&self) -> (r: String)
        ensures
            self.storage_command is SaveToFile ==> r@ == "Rules saved to file"@,
            self.storage_command is LoadFromFile ==> r@ == "Rules loaded from file"@,
            self.storage_command is SaveToGithub ==> r@ == "Rules saved to github"@,
            self.storage_command is LoadFromGithub ==> r@ == "Rules loaded from github"@,
    {
        match self.storage_command {
            StorageCommandOptions::SaveToFile => String::from_str("Rules saved to file"),
            StorageCommandOptions::LoadFromFile => String::from_str("Rules loaded from file"),
            StorageCommandOptions::SaveToGithub => String::from_str("Rules saved to github"),
            StorageCommandOptions::LoadFromGithub => String::from_str("Rules loaded from github"),
        }
    }
}

} // verus!
