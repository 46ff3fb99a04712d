//! The command surface as plain data: a closed union of the operations a
//! dispatcher may request, matched exhaustively by whoever drives the
//! registry. Argument parsing itself lives outside the library.

use vstd::prelude::*;

verus! {

/// One parsed invocation: exactly one command.
pub struct Cli {
    pub command: Command,
}

/// Every operation the registry supports, one variant per command.
pub enum Command {
    /// Associate `name` with `path` (insert or overwrite).
    Add { name: String, path: String },
    /// Remove a project and its favorite mark.
    Rm { name: String },
    /// List projects, filtered and sorted.
    Ls(LsArgs),
    /// Resolve a project's path, record the visit, and remember it as the
    /// pending go-to path.
    Go { name: String },
    /// Open a project in an editor (the launch itself is outside work).
    Open(OpenArgs),
    /// Move a mapping to a new name; the favorite mark is not carried over.
    Rename { old_name: String, new_name: String },
    /// Mark or unmark a project as favorite.
    Fav { name: String, unset: bool },
    /// Show the recent history resolved against the current projects.
    Recent,
    /// Write the whole registry document to a file.
    Export { file: String },
    /// Read a registry document from a file and merge it into this one.
    Import { file: String },
    /// Add every git repository found under a directory.
    Scan { dir: String },
}

/// Options of the listing command.
pub struct LsArgs {
    /// Sort key: "name" or "path"; any other value keeps the input order.
    pub sort: String,
    /// Case-insensitive substring filter against name or path.
    pub filter: Option<String>,
    /// Keep only favorite projects.
    pub favorites: bool,
    /// Keep only projects present in the recent history.
    pub recent: bool,
}

/// Options of the open command.
pub struct OpenArgs {
    pub name: String,
    pub editor: String,
}

} // verus!
