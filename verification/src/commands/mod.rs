//! The decisions of the subcommands. A command that alternates outside work
//! and decisions is a function from an event (what the last action found
//! out) to the next action; the program performs the action and reports
//! back what it found.

pub mod add;
pub mod env;
pub mod remove;
pub mod search;
