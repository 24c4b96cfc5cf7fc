use ccusage_adapters::location::{file_name, join, parent, same_path};

#[test]
fn paths_are_joined_with_one_separator() {
    let bytes = |text: &str| text.as_bytes().to_vec();
    assert_eq!(join(&bytes("/home/me"), b".hermes", b'/'), bytes("/home/me/.hermes"));
    assert_eq!(join(&bytes("/home/me/"), b".hermes", b'/'), bytes("/home/me/.hermes"));
    assert_eq!(join(&bytes("/"), b"x", b'/'), bytes("/x"));
    assert_eq!(join(&bytes(""), b"x", b'/'), bytes("x"));
    assert_eq!(join(&bytes("c:\\me"), b"x", b'\\'), bytes("c:\\me\\x"));
    assert_eq!(join(&bytes("c:/me/"), b"x", b'\\'), bytes("c:/me/x"));
}

#[test]
fn paths_are_compared_by_their_names() {
    let same = |left: &str, right: &str| {
        same_path(&left.as_bytes().to_vec(), &right.as_bytes().to_vec(), b'/')
    };
    assert!(same("/a/b", "/a/b"));
    assert!(same("/a//b/", "/a/b"));
    assert!(same("/a/./b/.", "//a/b"));
    assert!(same("./a", ".//a"));
    assert!(same("", ""));
    assert!(same("/", "//."));
    assert!(!same("./a", "a"));
    assert!(!same("a", "/a"));
    assert!(!same("", "/"));
    assert!(!same("", "."));
    assert!(!same("a/../b", "b"));
    assert!(!same("a/b", "ab"));
    assert!(!same("a/b", "a"));
    assert!(!same("a\\b", "a/b"));
}

#[test]
fn paths_are_compared_as_the_standard_library_does() {
    let paths = [
        "", "/", ".", "..", "a", "a/", "a//", "./a", "a/.", "a/./b", "a/b", "/a/b", "//a//b//",
        "./", "./.", "/.", "/./a", "../a", "a/..", ".a", "a./b",
    ];
    for left in paths {
        for right in paths {
            assert_eq!(
                same_path(&left.as_bytes().to_vec(), &right.as_bytes().to_vec(), b'/'),
                std::path::Path::new(left) == std::path::Path::new(right),
                "{left:?} {right:?}"
            );
        }
    }
}

#[test]
fn paths_of_windows_are_compared_by_prefix_root_and_names() {
    let same = |left: &str, right: &str| {
        same_path(&left.as_bytes().to_vec(), &right.as_bytes().to_vec(), b'\\')
    };
    assert!(same(r"c:\a\b", "c:/a//b/"));
    assert!(same(r"\a", "/a"));
    assert!(!same(r"c:\a", r"c:\b"));
    assert!(same("c:", "C:"));
    assert!(same(r"c:\a", r"C:\a"));
    assert!(!same(r"c:\a", r"d:\a"));
    assert!(!same(r"C:\a", r"C:\A"));
    assert!(!same("C:", r"C:\"));
    assert!(same("C:a", r"C:.\a"));
    assert!(!same(r".\a", "a"));
    assert!(same(r"\\server\share", r"//server/share/"));
    assert!(!same(r"\\server\share", r"\\Server\share"));
    assert!(same(r"\\server", r"\server\."));
    assert!(same(r"\\server", r"\server"));
    assert!(same(r"\\.\COM1", "//./COM1/"));
    assert!(!same(r"\\?\C:\a", r"C:\a"));
    assert!(same(r"\\?\c:\a", r"\\?\C:\a\"));
    assert!(!same(r"\\?\C:\a/b", r"\\?\C:\a\b"));
    assert!(!same(r"\\?\C:\.\a", r"\\?\C:\a"));
    assert!(same(r"\\?\UNC\server\share", r"\\?\UNC\server\share"));
    assert!(!same(r"\\?\UNC\server\share", r"\\server\share"));
    assert!(!same(r"\\?\name", r"\\?\Name"));
}

#[test]
fn paths_of_windows_are_joined_by_their_prefix() {
    let joined = |base: &str, name: &str| {
        String::from_utf8(join(&base.as_bytes().to_vec(), name.as_bytes(), b'\\')).unwrap()
    };
    assert_eq!(joined("C:", "state.db"), "C:state.db");
    assert_eq!(joined("c:", "state.db"), "c:state.db");
    assert_eq!(joined(r"C:\", "state.db"), r"C:\state.db");
    assert_eq!(joined("C:a", "state.db"), r"C:a\state.db");
    assert_eq!(joined("1:", "state.db"), r"1:\state.db");
    assert_eq!(joined(r"\\server\share", "x"), r"\\server\share\x");
    assert_eq!(joined(r"C:\a", r"D:x"), "D:x");
    assert_eq!(joined(r"C:\a", r"\x"), r"C:\x");
    assert_eq!(joined(r"\\?\C:", "x"), r"\\?\C:\x");
    assert_eq!(joined(r"\\?\C:\", "x"), r"\\?\C:\x");
    assert_eq!(joined(r"\\?\C:\a\\b\", "x"), r"\\?\C:\a\b\x");
    assert_eq!(joined(r"\\?\C:\a/", "x"), r"\\?\C:\a/\x");
    assert_eq!(joined(r"\\?\C:\a\b", r"..\.\x"), r"\\?\C:\a\x");
    assert_eq!(joined(r"\\?\C:\a", r"\x"), r"\\?\C:\x");
    assert_eq!(joined(r"\\?\C:\a", r"\"), r"\\?\C:\");
}

#[test]
fn paths_are_joined_as_the_standard_library_does() {
    for base in ["", "/", "a", "a/", "/a//b", ".", "C:", "\\\\?\\C:"] {
        for name in ["", "x", ".hermes", "/x", "x/y", "..", "C:x"] {
            assert_eq!(
                join(&base.as_bytes().to_vec(), name.as_bytes(), b'/'),
                std::path::Path::new(base).join(name).to_str().unwrap().as_bytes().to_vec()
            );
        }
    }
}

#[test]
fn paths_are_taken_apart_as_the_standard_library_does() {
    let paths = [
        "", "/", "//", ".", "..", "a", "a/", "a//", "./a", "./a/b", "a/.", "a/./", "a/./b", "a/b",
        "/a/b", "/a", "//a//b//", "./", "./.", "/.", "/./a", "../a", "a/..", "a/../b", ".a", "a./b",
        "state.db", "/home/me/.hermes/state.db", "a/././b/./.", "C:a", "...", "a/...",
    ];
    let text = |bytes: Vec<u8>| String::from_utf8(bytes).unwrap();
    for path in paths {
        let bytes = path.as_bytes().to_vec();
        let expected = std::path::Path::new(path);
        assert_eq!(
            parent(&bytes, b'/').map(text),
            expected.parent().map(|parent| parent.to_str().unwrap().to_string()),
            "{path:?}"
        );
        assert_eq!(
            file_name(&bytes, b'/').map(text),
            expected.file_name().map(|name| name.to_str().unwrap().to_string()),
            "{path:?}"
        );
    }
}

#[test]
fn paths_of_windows_are_taken_apart_after_their_prefix() {
    let text = |bytes: Vec<u8>| String::from_utf8(bytes).unwrap();
    let taken_apart = |path: &str| {
        let bytes = path.as_bytes().to_vec();
        (parent(&bytes, b'\\').map(text), file_name(&bytes, b'\\').map(text))
    };
    let parts = |parent: &str, name: &str| (Some(parent.to_string()), Some(name.to_string()));
    assert_eq!(taken_apart(r"C:\a\b"), parts(r"C:\a", "b"));
    assert_eq!(taken_apart(r"C:\a"), parts(r"C:\", "a"));
    assert_eq!(taken_apart("C:a"), parts("C:", "a"));
    assert_eq!(taken_apart(r"C:.\a"), parts("C:.", "a"));
    assert_eq!(taken_apart("C:"), (None, None));
    assert_eq!(taken_apart(r"C:\"), (None, None));
    assert_eq!(taken_apart("C:."), (None, None));
    assert_eq!(taken_apart(r"C:\a\.."), (Some(r"C:\a".to_string()), None));
    assert_eq!(taken_apart(r"\\server\share\a"), parts(r"\\server\share\", "a"));
    assert_eq!(taken_apart(r"\\server\share"), (None, None));
    assert_eq!(taken_apart(r"\\?\C:\a\b/c"), parts(r"\\?\C:\a", "b/c"));
    assert_eq!(taken_apart(r"\\?\C:\a\."), (Some(r"\\?\C:\a".to_string()), None));
}
