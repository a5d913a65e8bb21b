use pave::path_store::{
    add, block, effective_registry_path, is_in_env_path, list_blocked, list_managed, remove,
    to_reg_expand_sz, write_blocked, write_managed,
};
use pave::path_store::PathEntry;
use pave::platform::Platform;

fn entries(pairs: &[(&str, &str)]) -> Vec<PathEntry> {
    pairs
        .iter()
        .map(|(t, c)| PathEntry { text: t.to_string(), canonical: c.to_string() })
        .collect()
}

fn v(items: &[&str]) -> Vec<String> {
    items.iter().map(|s| s.to_string()).collect()
}

#[test]
fn list_managed_reads_nonempty_lines() {
    assert_eq!(list_managed("/a\n\n/b\r\n/c", Platform::Unix), v(&["/a", "/b", "/c"]));
    assert_eq!(list_managed("", Platform::Unix), v(&[]));
    assert_eq!(list_managed("/a\r", Platform::Unix), v(&["/a\r"]));
}

#[test]
fn list_managed_reads_registry_entries() {
    assert_eq!(list_managed("C:\\a;;C:\\b;", Platform::Windows), v(&["C:\\a", "C:\\b"]));
}

#[test]
fn write_managed_formats() {
    assert_eq!(write_managed(&v(&["/a", "/b"]), Platform::Unix), "/a\n/b\n");
    assert_eq!(write_managed(&v(&["C:\\a", "C:\\b"]), Platform::Windows), "C:\\a;C:\\b");
    assert_eq!(write_managed(&v(&[]), Platform::Unix), "");
}

#[test]
fn managed_round_trip() {
    let paths = v(&["/usr/local/bin", "/opt/tool", "/home/me/.cargo/bin"]);
    for p in [Platform::Unix, Platform::Windows] {
        assert_eq!(list_managed(&write_managed(&paths, p), p), paths);
    }
}

#[test]
fn blocked_list_is_unix_only() {
    assert_eq!(list_blocked("/x\n/y\n", Platform::Unix), v(&["/x", "/y"]));
    assert_eq!(list_blocked("/x\n/y\n", Platform::Windows), v(&[]));
    assert_eq!(write_blocked(&v(&["/x"]), Platform::Unix), Some("/x\n".to_string()));
    assert_eq!(write_blocked(&v(&["/x"]), Platform::Windows), None);
}

#[test]
fn add_appends_new_directory() {
    let plan = add(&v(&["/a"]), &v(&["/z"]), &"/b".to_string(), Platform::Unix);
    assert!(plan.added);
    assert_eq!(plan.managed, v(&["/a", "/b"]));
    assert_eq!(plan.blocked, None);
}

#[test]
fn add_unblocks_directory() {
    let plan = add(&v(&["/a"]), &v(&["/z", "/b/", "/y"]), &"/b".to_string(), Platform::Unix);
    assert!(plan.added);
    assert_eq!(plan.managed, v(&["/a", "/b"]));
    assert_eq!(plan.blocked, Some(v(&["/z", "/y"])));
}

#[test]
fn add_twice_adds_once() {
    let first = add(&v(&["/a"]), &v(&[]), &"/b".to_string(), Platform::Unix);
    assert!(first.added);
    let second = add(&first.managed, &v(&[]), &"/b".to_string(), Platform::Unix);
    assert!(!second.added);
    assert_eq!(second.managed, first.managed);
    assert_eq!(second.blocked, None);
}

#[test]
fn add_recognises_same_path_spelled_differently() {
    let plan = add(&v(&["/a//b/"]), &v(&[]), &"/a/b".to_string(), Platform::Unix);
    assert!(!plan.added);
}

#[test]
fn remove_drops_matching_entries() {
    let managed = entries(&[("~/bin", "/home/me/bin"), ("/opt/x", "/opt/x"), ("/opt/x/", "/opt/x")]);
    assert_eq!(remove(&managed, &"/opt/x".to_string(), Platform::Unix), Some(v(&["~/bin"])));
    assert_eq!(remove(&managed, &"/nope".to_string(), Platform::Unix), None);
}

#[test]
fn block_twice_blocks_once() {
    let first = block(&entries(&[("/x", "/x")]), &"/usr/games".to_string(), Platform::Unix);
    assert_eq!(first, Some(v(&["/x", "/usr/games"])));
    let list = entries(&[("/x", "/x"), ("/usr/games", "/usr/games")]);
    assert_eq!(block(&list, &"/usr/games/".to_string(), Platform::Unix), None);
}

#[test]
fn env_path_membership() {
    let dirs = v(&["/usr/bin", "", "/bin"]);
    assert!(is_in_env_path(&dirs, &"/bin/".to_string(), Platform::Unix));
    assert!(!is_in_env_path(&dirs, &"/sbin".to_string(), Platform::Unix));
}

#[test]
fn registry_path_combines_system_and_user() {
    assert_eq!(effective_registry_path("", ""), "");
    assert_eq!(effective_registry_path("", "U"), "U");
    assert_eq!(effective_registry_path("S", ""), "S");
    assert_eq!(effective_registry_path("S", "U"), "S;U");
}

#[test]
fn registry_encoding_is_utf16_le_with_terminator() {
    assert_eq!(to_reg_expand_sz(""), vec![0, 0]);
    assert_eq!(to_reg_expand_sz("A"), vec![0x41, 0, 0, 0]);
    assert_eq!(to_reg_expand_sz("é;"), vec![0xE9, 0, 0x3B, 0, 0, 0]);
    assert_eq!(to_reg_expand_sz("\u{1F600}"), vec![0x3D, 0xD8, 0x00, 0xDE, 0, 0]);
    let expected: Vec<u8> = "C:\\x;€"
        .encode_utf16()
        .chain(std::iter::once(0))
        .flat_map(|w| w.to_le_bytes())
        .collect();
    assert_eq!(to_reg_expand_sz("C:\\x;€"), expected);
}

#[test]
fn remove_undoes_add() {
    let managed = v(&["/a", "/b"]);
    let plan = add(&managed, &v(&[]), &"/c".to_string(), Platform::Unix);
    assert!(plan.added);
    assert_eq!(plan.managed, v(&["/a", "/b", "/c"]));
    let stored = entries(&[("/a", "/a"), ("/b", "/b"), ("/c", "/c")]);
    assert_eq!(remove(&stored, &"/c".to_string(), Platform::Unix), Some(managed));
}
