use pave::platform::Platform;
use pave::util::path::{
    find_on_path, search_executables, FileEntry,
    drive_root, env_path_entries, executable_candidates, is_executable, matches_candidate,
    name_matches, path_dirs, resolve_dir_to_add, search_candidates, text_contains,
};
use pave::util::search::{
    is_cloud_placeholder, override_globs, progress_message, search_parent_dirs, searched_message,
    sorted_distinct_paths,
};

fn v(items: &[&str]) -> Vec<String> {
    items.iter().map(|s| s.to_string()).collect()
}

#[test]
fn path_dirs_split_and_skip_empty() {
    assert_eq!(path_dirs("/a::/b:", Platform::Unix), v(&["/a", "/b"]));
    assert_eq!(path_dirs("C:\\a;;C:\\b", Platform::Windows), v(&["C:\\a", "C:\\b"]));
    assert_eq!(path_dirs("", Platform::Unix), v(&[]));
}

#[test]
fn env_path_entries_keep_empty() {
    assert_eq!(env_path_entries("/a::/b", Platform::Unix), v(&["/a", "", "/b"]));
    assert_eq!(env_path_entries("", Platform::Unix), v(&[""]));
}

#[test]
fn candidates_on_unix_are_the_name() {
    assert_eq!(executable_candidates("rustup", Platform::Unix), v(&["rustup"]));
}

#[test]
fn candidates_on_windows_add_extensions() {
    assert_eq!(
        executable_candidates("rustup", Platform::Windows),
        v(&["rustup", "rustup.exe", "rustup.cmd", "rustup.bat", "rustup.com", "rustup.ps1"])
    );
    assert_eq!(executable_candidates("tool.exe", Platform::Windows), v(&["tool.exe"]));
    assert_eq!(executable_candidates("run.ps1", Platform::Windows), v(&["run.ps1"]));
    assert_eq!(executable_candidates("tool.txt", Platform::Windows).len(), 6);
}

#[test]
fn search_candidates_lowercase_the_name() {
    assert_eq!(search_candidates("RustUp", Platform::Unix), v(&["rustup"]));
    assert_eq!(search_candidates("Tool.EXE", Platform::Windows), v(&["tool.exe"]));
}

#[test]
fn candidate_match_ignores_case() {
    assert!(matches_candidate("RUSTUP", &v(&["rustup"])));
    assert!(!matches_candidate("rustup-init", &v(&["rustup"])));
}

#[test]
fn query_match_ignores_case() {
    assert!(name_matches("NodeJS", "node"));
    assert!(name_matches("nodejs", "JS"));
    assert!(name_matches("anything", ""));
    assert!(!name_matches("nodejs", "py"));
    assert!(text_contains("abc", "bc"));
    assert!(!text_contains("ab", "abc"));
}

#[test]
fn executable_by_mode_or_extension() {
    assert!(is_executable("/bin/ls", true, Some(0o755), Platform::Unix));
    assert!(is_executable("/bin/x", true, Some(0o100), Platform::Unix));
    assert!(!is_executable("/etc/passwd", true, Some(0o644), Platform::Unix));
    assert!(!is_executable("/bin/ls", true, None, Platform::Unix));
    assert!(!is_executable("/bin", false, Some(0o755), Platform::Unix));
    assert!(is_executable("C:\\x\\Tool.EXE", true, None, Platform::Windows));
    assert!(is_executable("C:\\x\\run.Ps1", true, None, Platform::Windows));
    assert!(!is_executable("C:\\x\\notes.txt", true, None, Platform::Windows));
    assert!(!is_executable("C:\\x\\tool", true, None, Platform::Windows));
}

#[test]
fn resolving_the_directory_to_add() {
    assert_eq!(
        resolve_dir_to_add(None, "nowhere", false, Platform::Unix),
        Err("Cannot resolve path: nowhere".to_string())
    );
    assert_eq!(
        resolve_dir_to_add(Some("/opt/tool/bin/tool".to_string()), "tool", true, Platform::Unix),
        Ok("/opt/tool/bin".to_string())
    );
    assert_eq!(
        resolve_dir_to_add(Some("/opt/tool/bin".to_string()), "bin", false, Platform::Unix),
        Ok("/opt/tool/bin".to_string())
    );
    assert_eq!(
        resolve_dir_to_add(Some("/".to_string()), "/", true, Platform::Unix),
        Err("File has no parent directory: /".to_string())
    );
}

#[test]
fn search_root() {
    assert_eq!(drive_root(Some("/home/me".to_string()), Platform::Unix), "/");
    assert_eq!(drive_root(Some("C:\\Users\\me".to_string()), Platform::Windows), "C:\\");
    assert_eq!(drive_root(Some("d:\\work".to_string()), Platform::Windows), "d:\\");
    assert_eq!(drive_root(None, Platform::Windows), "\\");
    assert_eq!(drive_root(Some("".to_string()), Platform::Windows), "/");
}

#[test]
fn parent_dirs_are_distinct_and_sorted() {
    let files = v(&["/b/x/rustup", "/a/rustup", "/b/x/rustup2", "/a-b/rustup", "/a/b/rustup", "/"]);
    assert_eq!(search_parent_dirs(&files, Platform::Unix), v(&["/a", "/a/b", "/a-b", "/b/x"]));
    assert_eq!(search_parent_dirs(&v(&[]), Platform::Unix), v(&[]));
}

#[test]
fn paths_sort_by_components() {
    let xs = v(&["/a-b", "/a/b", "/a", "/a/", "/Z", "/a/b"]);
    assert_eq!(sorted_distinct_paths(&xs, Platform::Unix), v(&["/Z", "/a", "/a/b", "/a-b"]));
}

#[test]
fn skipped_directories() {
    assert_eq!(
        override_globs(Platform::Unix),
        v(&["!**/node_modules/", "!**/.git/", "!**/__pycache__/", "!**/.cache/", "!**/site-packages/"])
    );
    let w = override_globs(Platform::Windows);
    assert_eq!(w.len(), 8);
    assert_eq!(w[5], "!Windows/WinSxS/");
    assert_eq!(w[7], "!Windows/servicing/");
}

#[test]
fn progress_every_thousand_entries() {
    assert_eq!(progress_message(1000), Some("Searching... 1000 entries scanned".to_string()));
    assert_eq!(progress_message(25000), Some("Searching... 25000 entries scanned".to_string()));
    assert_eq!(progress_message(999), None);
    assert_eq!(progress_message(1001), None);
    assert_eq!(searched_message(42), "Searched 42 entries.");
    assert_eq!(searched_message(0), "Searched 0 entries.");
    assert_eq!(searched_message(u64::MAX), format!("Searched {} entries.", u64::MAX));
}

#[test]
fn cloud_placeholders() {
    assert!(is_cloud_placeholder(0x00400000));
    assert!(is_cloud_placeholder(0x00001020));
    assert!(!is_cloud_placeholder(0x20));
}

fn fe(name: &str, path: &str, entry_is_file: bool, is_file: bool, mode: Option<u32>) -> FileEntry {
    FileEntry {
        name: name.to_string(),
        path: path.to_string(),
        entry_is_file,
        is_file,
        mode,
    }
}

#[test]
fn find_on_path_goes_directory_by_directory() {
    let listings = vec![
        vec![
            fe("Rustc", "/a/Rustc", true, true, Some(0o755)),
            fe("rustc", "/a/rustc", false, true, Some(0o755)),
            fe("cargo", "/a/cargo", true, true, Some(0o755)),
        ],
        vec![],
        vec![fe("rustc", "/c/rustc", true, true, Some(0o644))],
    ];
    assert_eq!(find_on_path("RUSTC", &listings, Platform::Unix), v(&["/a/Rustc", "/c/rustc"]));
    let win = vec![vec![
        fe("git.EXE", "C:\\x\\git.EXE", true, true, None),
        fe("git.txt", "C:\\x\\git.txt", true, true, None),
        fe("git", "C:\\x\\git", true, true, None),
    ]];
    assert_eq!(find_on_path("git", &win, Platform::Windows), v(&["C:\\x\\git.EXE", "C:\\x\\git"]));
    assert_eq!(find_on_path("nothing", &win, Platform::Windows), v(&[]));
}

#[test]
fn search_executables_filters_by_name_and_kind() {
    let listings = vec![vec![
        fe("rustc", "/a/rustc", true, true, Some(0o755)),
        fe("rustdoc", "/a/rustdoc", true, true, Some(0o644)),
        fe("rust-gdb", "/a/rust-gdb", true, false, Some(0o755)),
        fe("cargo", "/a/cargo", true, true, Some(0o755)),
    ], vec![fe("RustFmt", "/b/RustFmt", true, true, Some(0o700))]];
    assert_eq!(search_executables("RUST", &listings, Platform::Unix), v(&["/a/rustc", "/b/RustFmt"]));
    let win = vec![vec![
        fe("Tool.EXE", "C:\\b\\Tool.EXE", true, true, None),
        fe("tool.txt", "C:\\b\\tool.txt", true, true, None),
        fe("toolbox.cmd", "C:\\b\\toolbox.cmd", true, false, None),
    ]];
    assert_eq!(search_executables("tool", &win, Platform::Windows), v(&["C:\\b\\Tool.EXE"]));
}

#[test]
fn searches_ignore_case() {
    let listings = vec![vec![
        fe("Rustc", "/a/Rustc", true, true, Some(0o755)),
        fe("RUSTUP", "/a/RUSTUP", true, true, Some(0o755)),
    ]];
    assert_eq!(search_candidates("RUSTC", Platform::Windows), search_candidates("rustc", Platform::Windows));
    assert_eq!(
        find_on_path("RUSTC", &listings, Platform::Unix),
        find_on_path("rustc", &listings, Platform::Unix)
    );
    assert_eq!(
        search_executables("Rust", &listings, Platform::Unix),
        search_executables("rUST", &listings, Platform::Unix)
    );
    assert_eq!(search_executables("rust", &listings, Platform::Unix), v(&["/a/Rustc", "/a/RUSTUP"]));
}
