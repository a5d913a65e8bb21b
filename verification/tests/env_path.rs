use pave::cli::Shell;
use pave::commands::env::{extra_entries, merge_converted, output, parse_cygpath_output};
use pave::platform::Platform;
use pave::util::shell::compute_env_path;

fn v(items: &[&str]) -> Vec<String> {
    items.iter().map(|s| s.to_string()).collect()
}

#[test]
fn managed_first_blocked_dropped_rest_kept() {
    let r = compute_env_path(
        "/usr/bin:/opt/x::/usr/bin:/blocked:/m1",
        &v(&["/m1", "/m2", "/m1"]),
        &v(&["/blocked"]),
    );
    assert_eq!(r, v(&["/m1", "/m2", "/usr/bin", "/opt/x", "/usr/bin"]));
}

#[test]
fn managed_directory_wins_over_block() {
    let r = compute_env_path("/a:/b", &v(&["/b"]), &v(&["/b", "/a"]));
    assert_eq!(r, v(&["/b"]));
}

#[test]
fn empty_path_gives_managed_only() {
    assert_eq!(compute_env_path("", &v(&["/m"]), &v(&[])), v(&["/m"]));
    assert_eq!(compute_env_path("", &v(&[]), &v(&[])), v(&[]));
}

#[test]
fn env_path_is_idempotent() {
    let managed = v(&["/m1", "/m2"]);
    let blocked = v(&["/b"]);
    let once = compute_env_path("/x:/b:/m2:/y", &managed, &blocked);
    let joined = output(&once, Shell::Bash, Platform::Unix);
    let twice = compute_env_path(&joined, &managed, &blocked);
    assert_eq!(once, twice);
    assert_eq!(joined, "/m1:/m2:/x:/y");
}

#[test]
fn output_per_shell() {
    let parts = v(&["/a", "/b"]);
    assert_eq!(output(&parts, Shell::Bash, Platform::Unix), "/a:/b");
    assert_eq!(output(&parts, Shell::Zsh, Platform::Windows), "/a:/b");
    assert_eq!(output(&parts, Shell::Fish, Platform::Unix), "/a\n/b\n");
    assert_eq!(output(&parts, Shell::Xonsh, Platform::Unix), "/a\n/b\n");
    assert_eq!(output(&parts, Shell::Nushell, Platform::Unix), "/a\n/b\n");
    assert_eq!(output(&parts, Shell::Pwsh, Platform::Unix), "/a:/b");
    assert_eq!(output(&parts, Shell::Pwsh, Platform::Windows), "/a;/b");
    assert_eq!(output(&v(&[]), Shell::Fish, Platform::Unix), "");
}

#[test]
fn windows_extra_entries_skip_registry_ones() {
    let extras = extra_entries("C:\\A\\;;c:\\b;D:\\x;C:\\msys\\usr\\bin", &v(&["C:\\a", "C:\\B\\\\"]));
    assert_eq!(extras, v(&["D:\\x", "C:\\msys\\usr\\bin"]));
}

#[test]
fn converted_entries_merge_once() {
    let merged = merge_converted(v(&["/c/a", "/c/b"]), &vec![v(&["/c/b", "/d/x"]), v(&["/d/x", "/e"])]);
    assert_eq!(merged, v(&["/c/a", "/c/b", "/d/x", "/e"]));
}

#[test]
fn cygpath_output_is_trimmed_and_split() {
    assert_eq!(parse_cygpath_output("  /c/a:/c/b::\n"), v(&["/c/a", "/c/b"]));
    assert_eq!(parse_cygpath_output("\n"), v(&[]));
    assert_eq!(parse_cygpath_output("/c/with space\u{a0}"), v(&["/c/with space"]));
}

fn procedure(current: &str, managed: &[String], blocked: &[String]) -> Vec<String> {
    let mut dirs: std::collections::VecDeque<String> =
        current.split(':').filter(|s| !s.is_empty()).map(String::from).collect();
    for b in blocked {
        dirs.retain(|d| d != b);
    }
    for p in managed.iter().rev() {
        dirs.retain(|d| d != p);
        dirs.push_front(p.clone());
    }
    dirs.into_iter().collect()
}

#[test]
fn env_path_matches_retain_and_push_front() {
    let pool = ["/a", "/b", "/c", "/d"];
    let mut seed: u64 = 7;
    let mut next = |n: usize| {
        seed = seed.wrapping_mul(6364136223846793005).wrapping_add(1442695040888963407);
        ((seed >> 33) as usize) % n
    };
    for _ in 0..300 {
        let mut pick = |len: usize| -> Vec<String> { (0..len).map(|_| pool[next(4)].to_string()).collect() };
        let current = pick(5).join(":");
        let managed = pick(3);
        let blocked = pick(2);
        assert_eq!(
            compute_env_path(&current, &managed, &blocked),
            procedure(&current, &managed, &blocked),
            "{current:?} {managed:?} {blocked:?}"
        );
    }
}

#[test]
fn blocking_more_only_drops_more() {
    let current = "/a:/b:/c:/m";
    let fewer = compute_env_path(current, &v(&["/m"]), &v(&["/b"]));
    let more = compute_env_path(current, &v(&["/m"]), &v(&["/b", "/c", "/m"]));
    assert_eq!(fewer, v(&["/m", "/a", "/c"]));
    assert_eq!(more, v(&["/m", "/a"]));
}

#[test]
fn env_path_round_trip_with_an_empty_managed_entry() {
    let managed = v(&["/m", ""]);
    let blocked = v(&["/b"]);
    let first = compute_env_path("/a:/b:/m", &managed, &blocked);
    assert_eq!(first, v(&["/m", "", "/a"]));
    let again = compute_env_path(&first.join(":"), &managed, &blocked);
    assert_eq!(again, first);
}
