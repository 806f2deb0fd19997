//! The commands of the tool, as plain values.

use vstd::prelude::*;

verus! {

/// What was asked of the tool.
#[derive(Debug)]
pub struct Cli {
    pub command: Commands,
}

/// The commands.
#[derive(Debug)]
pub enum Commands {
    /// Stage the files under a path.
    Add { path: String },
    /// Commit what is staged.
    Commit,
    /// Set up an empty repository.
    Init,
    /// Show the history from the head.
    Log,
    /// Show the header and the body of the object under a hash.
    Debug { hash: String },
}

} // verus!
