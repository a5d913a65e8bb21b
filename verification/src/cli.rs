//! The command line of `pave`: its subcommands and the shells it knows.

use vstd::prelude::*;

verus! {

/// The parsed command line.
pub struct Cli {
    pub command: Commands,
}

/// The subcommands.
#[allow(inconsistent_fields)]
pub enum Commands {
    /// Add a directory or executable to the PATH; `all` searches hidden and
    /// ignored folders too.
    Add { path: String, all: bool },
    /// Remove a directory from the PATH; without a path, pick one.
    Remove { path: Option<String> },
    /// List all directories on the PATH.
    List,
    /// Search for executables matching a query across PATH directories.
    Search { query: String },
    /// Output the current PATH value for a given shell.
    Env { shell: Shell },
}

/// The shells whose PATH syntax `pave` knows.
#[derive(Clone, Copy, Debug, PartialEq, Eq, Structural)]
pub enum Shell {
    Bash,
    Zsh,
    Fish,
    Xonsh,
    Nushell,
    Pwsh,
}

} // verus!
