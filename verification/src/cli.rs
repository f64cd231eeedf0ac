//! What the user can ask for.
use vstd::prelude::*;
use vstd::string::*;

verus! {

/// How many changes are shown where no number was given.
pub const DEFAULT_RECENT_LIMIT: usize = 20;

/// A command line.
#[derive(Debug, Clone, PartialEq, Eq)]
pub struct Cli {
    pub command: Command,
}

/// A command with its arguments.
#[derive(Debug, Clone, PartialEq, Eq)]
pub enum Command {
    /// Watch a project and record its history.
    Watch {
        /// The project directory; the current directory where none is given.
        path: Option<String>,
    },
    /// Show the revisions of a file.
    History { file: String },
    /// Show the difference between two states of a file.
    Diff { file: String, at: String, at2: String },
    /// Bring a file back to the state that it had at a time.
    RestoreFile { file: String, at: String, dry_run: bool, allow_cross_context: bool },
    /// Bring every file of the project back to a time.
    RestoreProject { at: String, dry_run: bool, allow_cross_context: bool },
    /// Show the state of the watcher and of the storage.
    Status,
    /// Remove the history that is older than the retention.
    Prune,
    /// Show the latest changes.
    Recent { limit: usize },
}

} // verus!
