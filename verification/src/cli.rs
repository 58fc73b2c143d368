//! The subcommands of the command line.
use vstd::prelude::*;

verus! {

/// What to do instead of capturing a new note.
#[derive(Debug, Clone, PartialEq, Eq)]
pub enum Commands {
    /// List notes (also `ls`).
    List {
        /// Output as JSON.
        json: bool,
    },
    /// Show a single note by its path.
    Show {
        /// The repository-relative path of the note.
        path: String,
        /// Output as JSON.
        json: bool,
        /// Output the unmodified file contents.
        raw: bool,
    },
    /// Edit an existing note in your editor.
    Edit {
        /// The repository-relative path of the note.
        path: String,
    },
    /// Fetch the latest notes from the remote and rebase onto them.
    Refresh,
}

} // verus!
