use pave::cli::Shell;
use pave::platform::Platform;
use pave::util::ui::{error, format_tree, hint, hint_reload, info, success, warn};

fn v(items: &[&str]) -> Vec<String> {
    items.iter().map(|s| s.to_string()).collect()
}

#[test]
fn plain_status_lines() {
    console::set_colors_enabled(false);
    assert_eq!(success("Added to PATH: /x"), "✓ Added to PATH: /x");
    assert_eq!(warn("careful"), "! careful");
    assert_eq!(info("note"), "● note");
    assert_eq!(error("bad"), "✗ bad");
    assert_eq!(hint("try this"), "  try this");
}

#[test]
fn styled_status_lines() {
    console::set_colors_enabled(true);
    assert_eq!(success("ok"), "\u{1b}[32m\u{1b}[1m✓\u{1b}[0m ok");
    assert_eq!(warn("w"), "\u{1b}[33m\u{1b}[1m!\u{1b}[0m w");
    assert_eq!(info("i"), "\u{1b}[36m\u{1b}[1m●\u{1b}[0m i");
    assert_eq!(error("e"), "\u{1b}[31m\u{1b}[1m✗\u{1b}[0m e");
    assert_eq!(hint("h"), "  \u{1b}[2mh\u{1b}[0m");
}

#[test]
fn tree_lines() {
    console::set_colors_enabled(false);
    assert_eq!(format_tree(&v(&["a", "b", "c"])), v(&["  ├─ a", "  ├─ b", "  ╰─ c"]));
    assert_eq!(format_tree(&v(&["only"])), v(&["  ╰─ only"]));
    assert_eq!(format_tree(&v(&[])), v(&[]));
    console::set_colors_enabled(true);
    assert_eq!(format_tree(&v(&["x"])), v(&["  \u{1b}[2m╰─\u{1b}[0m x"]));
}

#[test]
fn reload_hints() {
    console::set_colors_enabled(false);
    assert_eq!(
        hint_reload(Some(Shell::Bash), Platform::Unix),
        "  Restart your shell or re-run `export PATH=\"$(pave env bash)\"` to apply."
    );
    assert_eq!(
        hint_reload(Some(Shell::Xonsh), Platform::Unix),
        "  Restart your shell or re-run `$PATH = $(pave env xonsh).strip().split('\\n')` to apply."
    );
    assert_eq!(
        hint_reload(Some(Shell::Nushell), Platform::Unix),
        "  Restart your shell or re-run `$env.PATH = (pave env nushell | lines)` to apply."
    );
    assert_eq!(
        hint_reload(None, Platform::Unix),
        "  Open a new terminal window for the updated PATH to take effect."
    );
    assert_eq!(
        hint_reload(Some(Shell::Fish), Platform::Windows),
        "  Run `set -gx PATH (pave env fish)` to apply in this session, or open a new terminal."
    );
    assert_eq!(
        hint_reload(Some(Shell::Nushell), Platform::Windows),
        "  Open a new terminal window for the updated PATH to take effect."
    );
}
