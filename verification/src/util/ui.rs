//! The lines `pave` writes to the terminal.

use vstd::prelude::*;
use vstd::string::*;
use crate::cli::Shell;
use crate::platform::Platform;


verus! {

/// The styles `pave` gives to its output.
#[derive(Clone, Copy, Debug, PartialEq, Eq, Structural)]
pub enum Tone {
    /// Green and bold.
    Success,
    /// Yellow and bold.
    Warning,
    /// Cyan and bold.
    Info,
    /// Red and bold.
    Error,
    /// Dim.
    Dim,
}

/// The escape sequence that starts a style: colour first, then attribute.
pub open spec fn sgr(tone: Tone) -> Seq<char> {
    match tone {
        Tone::Success => seq!['\u{1b}', '[', '3', '2', 'm', '\u{1b}', '[', '1', 'm'],
        Tone::Warning => seq!['\u{1b}', '[', '3', '3', 'm', '\u{1b}', '[', '1', 'm'],
        Tone::Info => seq!['\u{1b}', '[', '3', '6', 'm', '\u{1b}', '[', '1', 'm'],
        Tone::Error => seq!['\u{1b}', '[', '3', '1', 'm', '\u{1b}', '[', '1', 'm'],
        Tone::Dim => seq!['\u{1b}', '[', '2', 'm'],
    }
}

/// The escape sequence that ends a style.
pub open spec fn reset() -> Seq<char> {
    seq!['\u{1b}', '[', '0', 'm']
}

/// What `text` may look like once styled: as it is, when the terminal takes
/// no colours, or wrapped in the style's escape sequences.
pub open spec fn painted(text: Seq<char>, tone: Tone, shown: Seq<char>) -> bool {
    shown == text || shown == sgr(tone) + text + reset()
}

/// Calls `console::Style::apply_to` and formats the result. Whether escape
/// sequences are written depends on the terminal and the environment
/// (`console::colors_enabled`), so the result is either `text` or `text`
/// wrapped in the style's sequences; which one is not stated.
#[verifier::external_body]
fn paint(text: &str, tone: Tone) -> (r: String)
    ensures
        painted(text@, tone, r@),
{
    let style = match tone {
        Tone::Success => console::Style::new().green().bold(),
        Tone::Warning => console::Style::new().yellow().bold(),
        Tone::Info => console::Style::new().cyan().bold(),
        Tone::Error => console::Style::new().red().bold(),
        Tone::Dim => console::Style::new().dim(),
    };
    style.apply_to(text).to_string()
}

/// A status line: a styled mark, a space and the message.
pub open spec fn status_line(mark: Seq<char>, tone: Tone, msg: Seq<char>, line: Seq<char>) -> bool {
    exists|m: Seq<char>| painted(mark, tone, m) && line == m + seq![' '] + msg
}

fn mark_line(mark: &str, tone: Tone, msg: &str) -> (r: String)
    ensures
        status_line(mark@, tone, msg@, r@),
{
    let mut line = paint(mark, tone);
    let ghost m = line@;
    line.append(" ");
    line.append(msg);
    proof {
        reveal_strlit(" ");
        assert(line@ =~= m + seq![' '] + msg@);
    }
    line
}

/// The line that reports a success: a green check mark and the message.
pub fn success(msg: &str) -> (r: String)
    ensures
        status_line("✓"@, Tone::Success, msg@, r@),
{
    mark_line("✓", Tone::Success, msg)
}

/// The line that warns: a yellow `!` and the message.
pub fn warn(msg: &str) -> (r: String)
    ensures
        status_line("!"@, Tone::Warning, msg@, r@),
{
    mark_line("!", Tone::Warning, msg)
}

/// The line that informs: a cyan dot and the message.
pub fn info(msg: &str) -> (r: String)
    ensures
        status_line("●"@, Tone::Info, msg@, r@),
{
    mark_line("●", Tone::Info, msg)
}

/// The line that reports an error: a red cross and the message.
pub fn error(msg: &str) -> (r: String)
    ensures
        status_line("✗"@, Tone::Error, msg@, r@),
{
    mark_line("✗", Tone::Error, msg)
}

/// A hint line: two spaces and the dimmed message.
pub open spec fn hint_line(msg: Seq<char>, line: Seq<char>) -> bool {
    exists|m: Seq<char>| painted(msg, Tone::Dim, m) && line == seq![' ', ' '] + m
}

/// The line that gives a hint: indented and dim.
pub fn hint(msg: &str) -> (r: String)
    ensures
        hint_line(msg@, r@),
{
    let mut line = String::from_str("  ");
    let dimmed = paint(msg, Tone::Dim);
    line.append(dimmed.as_str());
    proof {
        reveal_strlit("  ");
        assert(line@ =~= seq![' ', ' '] + dimmed@);
    }
    line
}

/// The tree connector in front of item `i` of `n`: a corner for the last.
pub open spec fn connector(i: int, n: int) -> Seq<char> {
    if i == n - 1 {
        "╰─"@
    } else {
        "├─"@
    }
}

/// A line of a tree listing: indent, styled connector, a space, the item.
pub open spec fn tree_line(i: int, n: int, item: Seq<char>, line: Seq<char>) -> bool {
    exists|c: Seq<char>| painted(connector(i, n), Tone::Dim, c) && line == seq![' ', ' '] + c + seq![' '] + item
}

/// The items as a tree: one line each, the last with a corner.
pub fn format_tree(items: &Vec<String>) -> (r: Vec<String>)
    ensures
        r@.len() == items@.len(),
        forall|i: int| 0 <= i < r@.len() ==> tree_line(i, items@.len() as int, items@[i]@, #[trigger] r@[i]@),
{
    let n = items.len();
    let mut out: Vec<String> = Vec::new();
    let mut i: usize = 0;
    while i < n
        invariant
            n == items@.len(),
            i <= n,
            out@.len() == i,
            forall|k: int| 0 <= k < i ==> tree_line(k, n as int, items@[k]@, #[trigger] out@[k]@),
        decreases n - i,
    {
        let corner = if i == n - 1 {
            "╰─"
        } else {
            "├─"
        };
        let mut line = String::from_str("  ");
        let c = paint(corner, Tone::Dim);
        line.append(c.as_str());
        line.append(" ");
        line.append(items[i].as_str());
        proof {
            reveal_strlit("  ");
            reveal_strlit(" ");
            assert(line@ =~= seq![' ', ' '] + c@ + seq![' '] + items@[i as int]@);
            assert(corner@ == connector(i as int, n as int));
        }
        out.push(line);
        i = i + 1;
    }
    out
}

/// What to do so that a changed PATH takes effect, for the detected shell.
pub open spec fn reload_message(shell: Option<Shell>, p: Platform) -> Seq<char> {
    if p == Platform::Windows {
        match shell {
            Some(Shell::Bash) => "Run `export PATH=\"$(pave env bash)\"` to apply in this session, or open a new terminal."@,
            Some(Shell::Zsh) => "Run `export PATH=\"$(pave env zsh)\"` to apply in this session, or open a new terminal."@,
            Some(Shell::Fish) => "Run `set -gx PATH (pave env fish)` to apply in this session, or open a new terminal."@,
            Some(Shell::Pwsh) => "Run `$env:PATH = (pave env pwsh)` to apply in this session, or open a new terminal."@,
            Some(Shell::Xonsh) => "Run `$PATH = $(pave env xonsh).strip().split('\\n')` to apply in this session, or open a new terminal."@,
            _ => "Open a new terminal window for the updated PATH to take effect."@,
        }
    } else {
        match shell {
            Some(Shell::Bash) => "Restart your shell or re-run `export PATH=\"$(pave env bash)\"` to apply."@,
            Some(Shell::Zsh) => "Restart your shell or re-run `export PATH=\"$(pave env zsh)\"` to apply."@,
            Some(Shell::Fish) => "Restart your shell or re-run `set -gx PATH (pave env fish)` to apply."@,
            Some(Shell::Pwsh) => "Restart your shell or re-run `$env:PATH = (pave env pwsh)` to apply."@,
            Some(Shell::Xonsh) => "Restart your shell or re-run `$PATH = $(pave env xonsh).strip().split('\\n')` to apply."@,
            Some(Shell::Nushell) => "Restart your shell or re-run `$env.PATH = (pave env nushell | lines)` to apply."@,
            None => "Open a new terminal window for the updated PATH to take effect."@,
        }
    }
}

fn reload_text(shell: Option<Shell>, p: Platform) -> (r: &'static str)
    ensures
        r@ == reload_message(shell, p),
{
    if p == Platform::Windows {
        match shell {
            Some(Shell::Bash) => "Run `export PATH=\"$(pave env bash)\"` to apply in this session, or open a new terminal.",
            Some(Shell::Zsh) => "Run `export PATH=\"$(pave env zsh)\"` to apply in this session, or open a new terminal.",
            Some(Shell::Fish) => "Run `set -gx PATH (pave env fish)` to apply in this session, or open a new terminal.",
            Some(Shell::Pwsh) => "Run `$env:PATH = (pave env pwsh)` to apply in this session, or open a new terminal.",
            Some(Shell::Xonsh) => "Run `$PATH = $(pave env xonsh).strip().split('\\n')` to apply in this session, or open a new terminal.",
            _ => "Open a new terminal window for the updated PATH to take effect.",
        }
    } else {
        match shell {
            Some(Shell::Bash) => "Restart your shell or re-run `export PATH=\"$(pave env bash)\"` to apply.",
            Some(Shell::Zsh) => "Restart your shell or re-run `export PATH=\"$(pave env zsh)\"` to apply.",
            Some(Shell::Fish) => "Restart your shell or re-run `set -gx PATH (pave env fish)` to apply.",
            Some(Shell::Pwsh) => "Restart your shell or re-run `$env:PATH = (pave env pwsh)` to apply.",
            Some(Shell::Xonsh) => "Restart your shell or re-run `$PATH = $(pave env xonsh).strip().split('\\n')` to apply.",
            Some(Shell::Nushell) => "Restart your shell or re-run `$env.PATH = (pave env nushell | lines)` to apply.",
            None => "Open a new terminal window for the updated PATH to take effect.",
        }
    }
}

/// The hint line that tells how to make a changed PATH take effect, for
/// the detected shell.
pub fn hint_reload(shell: Option<Shell>, p: Platform) -> (r: String)
    ensures
        hint_line(reload_message(shell, p), r@),
{
    hint(reload_text(shell, p))
}

} // verus!
