//! Helpers of the commands: paths, search, shells and terminal output.

pub mod path;
pub mod search;
pub mod shell;
pub mod ui;
