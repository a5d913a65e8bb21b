//! `pave add`: put a directory on the PATH, given as a path or found from
//! an executable's name.

use vstd::prelude::*;
use vstd::string::*;
use crate::cli::Shell;
use crate::platform::Platform;
use crate::util::ui::{success, warn, info, hint_reload, format_tree, status_line, hint_line, tree_line, reload_message, Tone};
use crate::text::owned;

verus! {

/// What the program found out since the last action.
#[allow(inconsistent_fields)]
pub enum AddEvent {
    /// The command starts for `arg`, which names an existing path or not.
    Start { arg: String, exists: bool },
    /// The directory to add for an existing path, or why there is none.
    Resolved { result: Result<String, String> },
    /// The store was asked to add `dir`; whether it was new.
    Stored { dir: String, added: bool },
    /// The executables called `arg` that are already on the PATH.
    FoundOnPath { arg: String, found: Vec<String> },
    /// The directories on disk that hold an executable called `arg`.
    Searched { arg: String, dirs: Vec<String> },
    /// The user's pick among `dirs`, or none.
    Picked { dirs: Vec<String>, choice: Option<usize> },
}

/// What the program does next.
#[allow(inconsistent_fields)]
pub enum AddAction {
    /// Resolve the existing path `arg` to a directory; report `Resolved`.
    Resolve { arg: String },
    /// Add `dir` to the store; report `Stored`.
    Store { dir: String },
    /// Look for executables called `arg` on the PATH; report `FoundOnPath`.
    LookOnPath { arg: String },
    /// Print `notice`, then search the disk for executables called `arg`;
    /// report `Searched`.
    Search { arg: String, notice: String },
    /// Let the user pick one of `dirs`; report `Picked`.
    Ask { dirs: Vec<String>, prompt: String },
    /// Print `lines` and end successfully.
    Finish { lines: Vec<String> },
    /// End with the error `message`.
    Fail { message: String },
}

/// `'arg'` followed by `rest`.
fn quoted(arg: &str, rest: &str) -> (r: String)
    ensures
        r@ == "'"@ + arg@ + rest@,
{
    let mut s = owned("'");
    s.append(arg);
    s.append(rest);
    s
}

/// The next step of `pave add` after `event`, for the detected `shell`.
pub fn run(event: AddEvent, shell: Option<Shell>, p: Platform) -> (r: AddAction)
    requires
        event matches AddEvent::Picked { dirs, choice } ==> (choice matches Some(i) ==> i < dirs@.len()),
    ensures
        match event {
            AddEvent::Start { arg, exists: present } => if present {
                r matches AddAction::Resolve { arg: a } && a@ == arg@
            } else {
                r matches AddAction::LookOnPath { arg: a } && a@ == arg@
            },
            AddEvent::Resolved { result } => match result {
                Ok(dir) => r matches AddAction::Store { dir: d } && d@ == dir@,
                Err(e) => r matches AddAction::Fail { message } && message@ == e@,
            },
            AddEvent::Stored { dir, added } => if added {
                r matches AddAction::Finish { lines } && lines@.len() == 2
                    && status_line("✓"@, Tone::Success, "Added to PATH: "@ + dir@, lines@[0]@)
                    && hint_line(reload_message(shell, p), lines@[1]@)
            } else {
                r matches AddAction::Finish { lines } && lines@.len() == 1
                    && status_line("!"@, Tone::Warning, "Already on PATH: "@ + dir@, lines@[0]@)
            },
            AddEvent::FoundOnPath { arg, found } => if found@.len() > 0 {
                r matches AddAction::Finish { lines } && lines@.len() == found@.len() + 1
                    && status_line("●"@, Tone::Info, "'"@ + arg@ + "' is already available on PATH:"@, lines@[0]@)
                    && forall|i: int| 0 <= i < found@.len() ==> tree_line(i, found@.len() as int, found@[i]@, #[trigger] lines@[i + 1]@)
            } else {
                r matches AddAction::Search { arg: a, notice } && a@ == arg@
                    && status_line("●"@, Tone::Info, "'"@ + arg@ + "' not found on PATH, searching filesystem..."@, notice@)
            },
            AddEvent::Searched { arg, dirs } => if dirs@.len() == 0 {
                r matches AddAction::Fail { message } && message@ == "No executables matching '"@ + arg@ + "' found"@
            } else if dirs@.len() == 1 {
                r matches AddAction::Store { dir } && dir@ == dirs@[0]@
            } else {
                r matches AddAction::Ask { dirs: offered, prompt } && offered@ == dirs@
                    && prompt@ == "Select a directory to add to PATH"@
            },
            AddEvent::Picked { dirs, choice } => match choice {
                None => r matches AddAction::Finish { lines } && lines@.len() == 0,
                Some(i) => r matches AddAction::Store { dir } && dir@ == dirs@[i as int]@,
            },
        },
{
    match event {
        AddEvent::Start { arg, exists } => {
            if exists {
                AddAction::Resolve { arg }
            } else {
                AddAction::LookOnPath { arg }
            }
        },
        AddEvent::Resolved { result } => match result {
            Ok(dir) => AddAction::Store { dir },
            Err(e) => AddAction::Fail { message: e },
        },
        AddEvent::Stored { dir, added } => {
            let mut lines: Vec<String> = Vec::new();
            if added {
                let mut msg = owned("Added to PATH: ");
                msg.append(dir.as_str());
                lines.push(success(msg.as_str()));
                lines.push(hint_reload(shell, p));
            } else {
                let mut msg = owned("Already on PATH: ");
                msg.append(dir.as_str());
                lines.push(warn(msg.as_str()));
            }
            AddAction::Finish { lines }
        },
        AddEvent::FoundOnPath { arg, found } => {
            if found.len() > 0 {
                let head = quoted(arg.as_str(), "' is already available on PATH:");
                let mut lines: Vec<String> = Vec::new();
                lines.push(info(head.as_str()));
                let tree = format_tree(&found);
                let mut i: usize = 0;
                while i < tree.len()
                    invariant
                        i <= tree@.len() == found@.len(),
                        lines@.len() == i + 1,
                        status_line("●"@, Tone::Info, "'"@ + arg@ + "' is already available on PATH:"@, lines@[0]@),
                        forall|k: int| 0 <= k < tree@.len() ==> tree_line(k, found@.len() as int, found@[k]@, #[trigger] tree@[k]@),
                        forall|k: int| 0 <= k < i ==> lines@[k + 1] == #[trigger] tree@[k],
                    decreases tree@.len() - i,
                {
                    lines.push(tree[i].clone());
                    i = i + 1;
                }
                proof {
                    assert forall|k: int| 0 <= k < found@.len() implies tree_line(k, found@.len() as int, found@[k]@, #[trigger] lines@[k + 1]@) by {
                        assert(lines@[k + 1] == tree@[k]);
                    }
                }
                AddAction::Finish { lines }
            } else {
                let notice = quoted(arg.as_str(), "' not found on PATH, searching filesystem...");
                AddAction::Search { arg, notice: info(notice.as_str()) }
            }
        },
        AddEvent::Searched { arg, dirs } => {
            if dirs.len() == 0 {
                let mut m = owned("No executables matching '");
                m.append(arg.as_str());
                m.append("' found");
                AddAction::Fail { message: m }
            } else if dirs.len() == 1 {
                AddAction::Store { dir: dirs[0].clone() }
            } else {
                AddAction::Ask { dirs, prompt: owned("Select a directory to add to PATH") }
            }
        },
        AddEvent::Picked { dirs, choice } => match choice {
            None => AddAction::Finish { lines: Vec::new() },
            Some(i) => AddAction::Store { dir: dirs[i].clone() },
        },
    }
}

} // verus!
