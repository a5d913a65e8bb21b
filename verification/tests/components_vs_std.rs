use pave::components::{compare_parts, components, extension, file_name, parent, paths_equal, Rank};
use pave::platform::Platform;
use std::cmp::Ordering;
use std::path::Path;

const SAMPLES: &[&str] = &[
    "", "/", "//", "/a", "/a/", "/a//b", "/a/./b", "/a/b/.", "./a", ".", "./", "..", "../a", "a/..",
    "a", "a/b", "a/b/", "a/b/c.txt", "/usr/local/bin", "/usr/local/bin/", "/usr/local", "/usr/local-bin",
    ".hidden", "a/.hidden", "a/b.tar.gz", "a/b.", "/a/b/..", "a//./b//", "/.", "/./a", "x/./", "x/.",
    "/a-b", "/a/b", "/a/c", "/ab", "é/ü", "/a/Z", "/a/z",
];

#[test]
fn same_path_agrees_with_std() {
    for a in SAMPLES {
        for b in SAMPLES {
            assert_eq!(
                paths_equal(a, b, Platform::Unix),
                Path::new(a) == Path::new(b),
                "{a:?} vs {b:?}"
            );
        }
    }
}

#[test]
fn order_agrees_with_std() {
    for a in SAMPLES {
        for b in SAMPLES {
            let ours = compare_parts(&components(a, Platform::Unix), &components(b, Platform::Unix));
            let theirs = Path::new(a).cmp(Path::new(b));
            let expected = match theirs {
                Ordering::Less => Rank::Less,
                Ordering::Equal => Rank::Same,
                Ordering::Greater => Rank::Greater,
            };
            assert_eq!(ours, expected, "{a:?} vs {b:?}");
        }
    }
}

#[test]
fn parent_agrees_with_std() {
    for a in SAMPLES {
        let theirs = Path::new(a).parent().map(|p| p.to_str().unwrap().to_string());
        assert_eq!(parent(a, Platform::Unix), theirs, "{a:?}");
    }
}

#[test]
fn file_name_agrees_with_std() {
    for a in SAMPLES {
        let theirs = Path::new(a).file_name().map(|p| p.to_str().unwrap().to_string());
        assert_eq!(file_name(a, Platform::Unix), theirs, "{a:?}");
    }
}

#[test]
fn extension_agrees_with_std() {
    for a in SAMPLES {
        let theirs = Path::new(a).extension().map(|p| p.to_str().unwrap().to_string());
        assert_eq!(extension(a, Platform::Unix), theirs, "{a:?}");
    }
}

#[test]
fn windows_drive_paths() {
    let p = Platform::Windows;
    assert!(paths_equal("C:\\Users\\me", "c:/Users/me/", p));
    assert!(!paths_equal("C:\\Users", "C:Users", p));
    assert_eq!(parent("C:\\Users\\me", p), Some("C:\\Users".to_string()));
    assert_eq!(parent("C:\\tool.exe", p), Some("C:\\".to_string()));
    assert_eq!(parent("C:\\", p), None);
    assert_eq!(file_name("C:\\bin\\Tool.EXE", p), Some("Tool.EXE".to_string()));
    assert_eq!(extension("C:\\bin\\Tool.EXE", p), Some("EXE".to_string()));
}
