use delfaf::guard::{is_forbidden, PathStyle};

#[test]
fn forbids_root_and_dot() {
    assert!(is_forbidden(b"/", PathStyle::Unix));
    assert!(is_forbidden(b".", PathStyle::Unix));
    assert!(is_forbidden(b"..", PathStyle::Unix));
    assert!(!is_forbidden(b"/tmp/node_modules", PathStyle::Unix));
    assert!(is_forbidden(b"/tmp/../etc", PathStyle::Unix));
    assert!(is_forbidden(b"/./", PathStyle::Unix));
    assert!(is_forbidden(b"foo/../../bar", PathStyle::Unix));
}

#[test]
fn forbids_empty_path_and_slashes() {
    assert!(is_forbidden(b"", PathStyle::Unix));
    assert!(is_forbidden(b"//", PathStyle::Unix));
    assert!(is_forbidden(b"./.", PathStyle::Unix));
}

#[test]
fn allows_names_with_dots() {
    assert!(!is_forbidden(b"...", PathStyle::Unix));
    assert!(!is_forbidden(b".cache", PathStyle::Unix));
    assert!(!is_forbidden(b"./node_modules", PathStyle::Unix));
    assert!(!is_forbidden(b"a/./b/", PathStyle::Unix));
    assert!(!is_forbidden(b"node_modules", PathStyle::Unix));
}

#[test]
fn forbids_trailing_parent() {
    assert!(is_forbidden(b"/tmp/x/..", PathStyle::Unix));
    assert!(is_forbidden(b"../x", PathStyle::Unix));
}

fn win(p: &str) -> bool {
    is_forbidden(p.as_bytes(), PathStyle::Windows)
}

#[test]
fn windows_forbids_parents_and_bare_roots() {
    assert!(win(r"..\x"));
    assert!(win(r"a\..\b"));
    assert!(win(r"C:\"));
    assert!(win(r"C:"));
    assert!(win(r"c:/"));
    assert!(win(r"\\"));
    assert!(win(r"\\server\share"));
    assert!(win(r"\\server\share\"));
    assert!(win(r"//server/share/."));
    assert!(win(r"\\?\C:\"));
    assert!(win(r"\\?\UNC\server\share"));
    assert!(win(r"\\?\Volume{x}\"));
    assert!(win(r"\\.\COM1"));
    assert!(win(r"\\?\C:\a\.."));
}

#[test]
fn windows_allows_named_entries() {
    assert!(!win(r"C:\Users\me\node_modules"));
    assert!(!win(r"C:node_modules"));
    assert!(!win(r"\\server\share\x"));
    assert!(!win(r"\\server"));
    assert!(!win(r"\\?\C:\a"));
    assert!(!win(r"\\?\C:\a/.."));
    assert!(!win(r"\\.\pipe\name"));
    assert!(!win("/tmp/node_modules"));
}

#[test]
fn windows_separators_differ_from_unix() {
    assert!(!is_forbidden(br"..\x", PathStyle::Unix));
    assert!(is_forbidden(br"..\x", PathStyle::Windows));
    assert!(!is_forbidden(br"C:\", PathStyle::Unix));
}
