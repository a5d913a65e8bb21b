//! Verified core of `pave`, a command-line tool that manages the directories
//! on the user's PATH: the list files it keeps, the PATH value it prints for
//! each shell, the path arithmetic it relies on, and the decisions of its
//! commands.

pub mod text;
pub mod platform;
pub mod components;
pub mod cli;
pub mod util;
pub mod path_store;
pub mod commands;
