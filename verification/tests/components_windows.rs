use pave::components::{
    compare_parts, components, file_name, parent, paths_equal, Component, PathPrefix, Rank,
};
use pave::platform::Platform;
use pave::util::path::drive_root;

const W: Platform = Platform::Windows;

/// A short description of each component, to compare with expected lists.
fn shape(s: &str) -> Vec<String> {
    components(s, W)
        .iter()
        .map(|c| match c {
            Component::Prefix(PathPrefix::Verbatim(x)) => format!("Verbatim({x})"),
            Component::Prefix(PathPrefix::VerbatimUNC(a, b)) => format!("VerbatimUNC({a},{b})"),
            Component::Prefix(PathPrefix::VerbatimDisk(d)) => format!("VerbatimDisk({})", char::from_u32(*d).unwrap()),
            Component::Prefix(PathPrefix::DeviceNS(x)) => format!("DeviceNS({x})"),
            Component::Prefix(PathPrefix::UNC(a, b)) => format!("UNC({a},{b})"),
            Component::Prefix(PathPrefix::Disk(d)) => format!("Disk({})", char::from_u32(*d).unwrap()),
            Component::RootDir => "/".to_string(),
            Component::CurDir => ".".to_string(),
            Component::ParentDir => "..".to_string(),
            Component::Normal(x) => x.clone(),
        })
        .collect()
}

fn v(items: &[&str]) -> Vec<String> {
    items.iter().map(|s| s.to_string()).collect()
}

#[test]
fn drive_prefixes() {
    assert_eq!(shape(r"c:\Users\me"), v(&["Disk(C)", "/", "Users", "me"]));
    assert_eq!(shape("C:foo"), v(&["Disk(C)", "foo"]));
    assert_eq!(shape("C:"), v(&["Disk(C)"]));
    assert_eq!(shape(r"C:.\foo"), v(&["Disk(C)", "foo"]));
    assert!(paths_equal(r"c:\a", r"C:\a", W));
    assert!(paths_equal("C:.", "C:", W));
}

#[test]
fn unc_prefixes() {
    assert_eq!(shape(r"\\server\share\dir"), v(&["UNC(server,share)", "/", "dir"]));
    assert_eq!(shape(r"\\server\share"), v(&["UNC(server,share)", "/"]));
    assert_eq!(shape("//server/share/dir"), v(&["UNC(server,share)", "/", "dir"]));
    assert!(paths_equal("//server/share/dir", r"\\server\share\dir", W));
    assert!(!paths_equal(r"\\Server\share", r"\\server\share", W));
    // Without a share there is no prefix.
    assert_eq!(shape(r"\\server"), v(&["/", "server"]));
}

#[test]
fn verbatim_prefixes() {
    assert_eq!(shape(r"\\?\C:\a\.\b"), v(&["VerbatimDisk(C)", "/", "a", ".", "b"]));
    assert_eq!(shape(r"\\?\C:\a/b"), v(&["VerbatimDisk(C)", "/", "a/b"]));
    assert_eq!(shape(r"\\?\UNC\srv\sh\a"), v(&["VerbatimUNC(srv,sh)", "/", "a"]));
    assert_eq!(shape(r"\\?\pictures\x"), v(&["Verbatim(pictures)", "/", "x"]));
    assert_eq!(shape(r"\\?\C:"), v(&["VerbatimDisk(C)"]));
    // Forward slashes do not make a verbatim prefix.
    assert!(!paths_equal("//?/C:/x", r"\\?\C:\x", W));
    assert!(!paths_equal(r"\\?\C:\x", r"C:\x", W));
}

#[test]
fn device_prefixes() {
    assert_eq!(shape(r"\\.\COM1"), v(&["DeviceNS(COM1)", "/"]));
    assert_eq!(shape(r"\\.\pipe\name"), v(&["DeviceNS(pipe)", "/", "name"]));
}

#[test]
fn prefixes_order_by_kind() {
    let order = [r"\\?\x", r"\\?\UNC\a\b", r"\\?\C:", r"\\.\COM1", r"\\a\b", r"C:\"];
    for i in 0..order.len() {
        for j in 0..order.len() {
            let r = compare_parts(&components(order[i], W), &components(order[j], W));
            let want = if i < j {
                Rank::Less
            } else if i == j {
                Rank::Same
            } else {
                Rank::Greater
            };
            assert_eq!(r, want, "{} against {}", order[i], order[j]);
        }
    }
    let a = compare_parts(&components(r"\\a\b", W), &components(r"\\a\c", W));
    assert_eq!(a, Rank::Less);
}

#[test]
fn parents_and_names_with_prefixes() {
    assert_eq!(parent(r"\\server\share\dir", W), Some(r"\\server\share\".to_string()));
    assert_eq!(parent(r"\\server\share", W), None);
    assert_eq!(parent(r"\\?\C:\a\.", W), Some(r"\\?\C:\a".to_string()));
    assert_eq!(parent("C:.", W), None);
    assert_eq!(parent("C:foo", W), Some("C:".to_string()));
    assert_eq!(file_name(r"\\?\C:\a\.", W), None);
    assert_eq!(file_name(r"\\server\share\dir", W), Some("dir".to_string()));
    assert_eq!(file_name(r"\\server\share", W), None);
}

#[test]
fn drive_root_keeps_the_prefix() {
    assert_eq!(drive_root(Some(r"C:\Users\me".to_string()), W), r"C:\");
    assert_eq!(drive_root(Some(r"\\server\share\dir".to_string()), W), r"\\server\share\");
    assert_eq!(drive_root(Some(r"\\?\C:\x".to_string()), W), r"\\?\C:\");
    assert_eq!(drive_root(Some(r"\dir".to_string()), W), r"\");
    assert_eq!(drive_root(None, W), r"\");
}
