use pave::commands::add::{self, AddAction, AddEvent};
use pave::commands::remove::{self, RemoveAction, RemoveEntry, RemoveEvent};
use pave::commands::search::report;
use pave::cli::Shell;
use pave::path_store::PathEntry;
use pave::platform::Platform;

fn entries(pairs: &[(&str, &str)]) -> Vec<PathEntry> {
    pairs
        .iter()
        .map(|(t, c)| PathEntry { text: t.to_string(), canonical: c.to_string() })
        .collect()
}

fn v(items: &[&str]) -> Vec<String> {
    items.iter().map(|s| s.to_string()).collect()
}

fn lines_of_remove(a: RemoveAction) -> Vec<String> {
    match a {
        RemoveAction::Finish { lines } => lines,
        _ => panic!("expected Finish"),
    }
}

fn lines_of_add(a: AddAction) -> Vec<String> {
    match a {
        AddAction::Finish { lines } => lines,
        _ => panic!("expected Finish"),
    }
}

#[test]
fn remove_directly_managed() {
    console::set_colors_enabled(false);
    let u = Platform::Unix;
    match remove::run(RemoveEvent::Start { path: Some("/opt/x".to_string()) }, None, u) {
        RemoveAction::Remove { path } => assert_eq!(path, "/opt/x"),
        _ => panic!("expected Remove"),
    }
    let lines = lines_of_remove(remove::run(
        RemoveEvent::Removed { path: "/opt/x".to_string(), removed: true },
        Some(Shell::Zsh),
        u,
    ));
    assert_eq!(
        lines,
        v(&[
            "✓ Removed from PATH: /opt/x",
            "  Restart your shell or re-run `export PATH=\"$(pave env zsh)\"` to apply.",
        ])
    );
}

#[test]
fn remove_directly_from_environment() {
    console::set_colors_enabled(false);
    let u = Platform::Unix;
    match remove::run(RemoveEvent::Removed { path: "/usr/games".to_string(), removed: false }, None, u) {
        RemoveAction::CheckEnv { path } => assert_eq!(path, "/usr/games"),
        _ => panic!("expected CheckEnv"),
    }
    match remove::run(RemoveEvent::InEnv { path: "/usr/games".to_string(), in_env: true }, None, u) {
        RemoveAction::Block { path } => assert_eq!(path, "/usr/games"),
        _ => panic!("expected Block"),
    }
    let lines = lines_of_remove(remove::run(RemoveEvent::Blocked { path: "/usr/games".to_string() }, None, u));
    assert_eq!(
        lines,
        v(&[
            "✓ Blocked from PATH: /usr/games",
            "  This path comes from your shell config, not pave.",
            "  Open a new terminal window for the updated PATH to take effect.",
        ])
    );
}

#[test]
fn remove_directly_errors() {
    match remove::run(RemoveEvent::InEnv { path: "/nope".to_string(), in_env: false }, None, Platform::Unix) {
        RemoveAction::Fail { message } => assert_eq!(message, "'/nope' is not on PATH"),
        _ => panic!("expected Fail"),
    }
    match remove::run(RemoveEvent::InEnv { path: "C:\\Windows".to_string(), in_env: true }, None, Platform::Windows) {
        RemoveAction::Fail { message } => assert_eq!(
            message,
            "'C:\\Windows' is a system PATH entry and cannot be removed without admin rights"
        ),
        _ => panic!("expected Fail"),
    }
}

#[test]
fn remove_interactive_entries() {
    let listed = RemoveEvent::Listed {
        managed: entries(&[("/m", "/m"), ("/n", "/n")]),
        env_dirs: entries(&[
            ("/m/", "/m"),
            ("/usr/bin", "/usr/bin"),
            ("/bin", "/bin"),
            ("/usr//bin", "/usr/bin"),
            ("/gone", ""),
            ("/also-gone", ""),
        ]),
    };
    match remove::run(listed, None, Platform::Unix) {
        RemoveAction::Ask { entries, labels, prompt } => {
            let got: Vec<(String, bool)> = entries.iter().map(|e| (e.path.clone(), e.managed)).collect();
            assert_eq!(
                got,
                vec![
                    ("/m".to_string(), true),
                    ("/n".to_string(), true),
                    ("/usr/bin".to_string(), false),
                    ("/bin".to_string(), false),
                    ("/gone".to_string(), false),
                ]
            );
            assert_eq!(labels, v(&["/m", "/n", "/usr/bin (env)", "/bin (env)", "/gone (env)"]));
            assert_eq!(prompt, "Select an entry to remove from PATH");
        }
        _ => panic!("expected Ask"),
    }
}

#[test]
fn remove_interactive_on_windows_offers_managed_only() {
    let listed = RemoveEvent::Listed {
        managed: entries(&[("C:\\m", "C:\\m")]),
        env_dirs: entries(&[("C:\\other", "C:\\other")]),
    };
    match remove::run(listed, None, Platform::Windows) {
        RemoveAction::Ask { labels, .. } => assert_eq!(labels, v(&["C:\\m"])),
        _ => panic!("expected Ask"),
    }
}

#[test]
fn remove_interactive_nothing_to_offer() {
    console::set_colors_enabled(false);
    let listed = RemoveEvent::Listed { managed: vec![], env_dirs: vec![] };
    assert_eq!(lines_of_remove(remove::run(listed, None, Platform::Unix)), v(&["! No PATH entries to remove."]));
}

#[test]
fn remove_interactive_pick() {
    console::set_colors_enabled(false);
    let entries = || {
        vec![
            RemoveEntry { path: "/m".to_string(), managed: true },
            RemoveEntry { path: "/usr/bin".to_string(), managed: false },
        ]
    };
    match remove::run(RemoveEvent::Picked { entries: entries(), choice: Some(0) }, None, Platform::Unix) {
        RemoveAction::RemoveEntry { path } => assert_eq!(path, "/m"),
        _ => panic!("expected RemoveEntry"),
    }
    match remove::run(RemoveEvent::Picked { entries: entries(), choice: Some(1) }, None, Platform::Unix) {
        RemoveAction::BlockEntry { path } => assert_eq!(path, "/usr/bin"),
        _ => panic!("expected BlockEntry"),
    }
    assert!(lines_of_remove(remove::run(RemoveEvent::Picked { entries: entries(), choice: None }, None, Platform::Unix)).is_empty());
    assert_eq!(
        lines_of_remove(remove::run(RemoveEvent::EntryBlocked { path: "/usr/bin".to_string() }, None, Platform::Unix))[0],
        "✓ Blocked: /usr/bin"
    );
    assert_eq!(
        lines_of_remove(remove::run(RemoveEvent::EntryRemoved { path: "/m".to_string() }, None, Platform::Unix))[0],
        "✓ Removed: /m"
    );
}

#[test]
fn add_existing_path() {
    console::set_colors_enabled(false);
    let u = Platform::Unix;
    match add::run(AddEvent::Start { arg: ".".to_string(), exists: true }, None, u) {
        AddAction::Resolve { arg } => assert_eq!(arg, "."),
        _ => panic!("expected Resolve"),
    }
    match add::run(AddEvent::Resolved { result: Ok("/home/me/bin".to_string()) }, None, u) {
        AddAction::Store { dir } => assert_eq!(dir, "/home/me/bin"),
        _ => panic!("expected Store"),
    }
    match add::run(AddEvent::Resolved { result: Err("Cannot resolve path: x".to_string()) }, None, u) {
        AddAction::Fail { message } => assert_eq!(message, "Cannot resolve path: x"),
        _ => panic!("expected Fail"),
    }
    assert_eq!(
        lines_of_add(add::run(AddEvent::Stored { dir: "/home/me/bin".to_string(), added: true }, Some(Shell::Fish), u)),
        v(&["✓ Added to PATH: /home/me/bin", "  Restart your shell or re-run `set -gx PATH (pave env fish)` to apply."])
    );
    assert_eq!(
        lines_of_add(add::run(AddEvent::Stored { dir: "/home/me/bin".to_string(), added: false }, None, u)),
        v(&["! Already on PATH: /home/me/bin"])
    );
}

#[test]
fn add_by_executable_name() {
    console::set_colors_enabled(false);
    let u = Platform::Unix;
    match add::run(AddEvent::Start { arg: "rustup".to_string(), exists: false }, None, u) {
        AddAction::LookOnPath { arg } => assert_eq!(arg, "rustup"),
        _ => panic!("expected LookOnPath"),
    }
    assert_eq!(
        lines_of_add(add::run(
            AddEvent::FoundOnPath { arg: "rustup".to_string(), found: v(&["/a/rustup", "/b/rustup"]) },
            None,
            u
        )),
        v(&["● 'rustup' is already available on PATH:", "  ├─ /a/rustup", "  ╰─ /b/rustup"])
    );
    match add::run(AddEvent::FoundOnPath { arg: "rustup".to_string(), found: v(&[]) }, None, u) {
        AddAction::Search { arg, notice } => {
            assert_eq!(arg, "rustup");
            assert_eq!(notice, "● 'rustup' not found on PATH, searching filesystem...");
        }
        _ => panic!("expected Search"),
    }
}

#[test]
fn add_after_search() {
    let u = Platform::Unix;
    match add::run(AddEvent::Searched { arg: "zig".to_string(), dirs: v(&[]) }, None, u) {
        AddAction::Fail { message } => assert_eq!(message, "No executables matching 'zig' found"),
        _ => panic!("expected Fail"),
    }
    match add::run(AddEvent::Searched { arg: "zig".to_string(), dirs: v(&["/opt/zig"]) }, None, u) {
        AddAction::Store { dir } => assert_eq!(dir, "/opt/zig"),
        _ => panic!("expected Store"),
    }
    match add::run(AddEvent::Searched { arg: "zig".to_string(), dirs: v(&["/a", "/b"]) }, None, u) {
        AddAction::Ask { dirs, prompt } => {
            assert_eq!(dirs, v(&["/a", "/b"]));
            assert_eq!(prompt, "Select a directory to add to PATH");
        }
        _ => panic!("expected Ask"),
    }
    match add::run(AddEvent::Picked { dirs: v(&["/a", "/b"]), choice: Some(1) }, None, u) {
        AddAction::Store { dir } => assert_eq!(dir, "/b"),
        _ => panic!("expected Store"),
    }
    assert!(lines_of_add(add::run(AddEvent::Picked { dirs: v(&["/a"]), choice: None }, None, u)).is_empty());
}

#[test]
fn search_reports() {
    console::set_colors_enabled(false);
    assert_eq!(report("node", &v(&[])), v(&["! No executables matching 'node' found on PATH."]));
    assert_eq!(
        report("node", &v(&["/usr/bin/node", "/usr/bin/nodejs"])),
        v(&["● Executables matching 'node':", "  ├─ /usr/bin/node", "  ╰─ /usr/bin/nodejs"])
    );
}
