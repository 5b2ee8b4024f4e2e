use fileagg::paths::{
    file_name, is_safe_relative_path, matches_filter, relative_to_root,
};

fn filter_of(exts: &[&str]) -> Vec<Vec<u8>> {
    exts.iter().map(|e| e.as_bytes().to_vec()).collect()
}

#[test]
fn empty_filter_admits_everything() {
    let filter = filter_of(&[]);
    assert!(matches_filter(b"notes.txt", &filter));
    assert!(matches_filter(b"notes", &filter));
    assert!(matches_filter(b"", &filter));
}

#[test]
fn txt_filter_admits_only_txt() {
    let filter = filter_of(&["txt"]);
    assert!(matches_filter(b"notes.txt", &filter));
    assert!(matches_filter(b"a.b.txt", &filter));
    assert!(!matches_filter(b"notes", &filter));
    assert!(!matches_filter(b"notes.md", &filter));
    assert!(!matches_filter(b"txt", &filter));
}

#[test]
fn filter_is_case_sensitive_and_exact() {
    let filter = filter_of(&["rs", "md"]);
    assert!(matches_filter(b"lib.rs", &filter));
    assert!(matches_filter(b"README.md", &filter));
    assert!(!matches_filter(b"lib.RS", &filter));
    assert!(!matches_filter(b"archive.tar.gz", &filter));
}

#[test]
fn file_name_takes_last_component() {
    assert_eq!(file_name(b"a/b/c.txt"), b"c.txt".to_vec());
    assert_eq!(file_name(b"c.txt"), b"c.txt".to_vec());
    assert_eq!(file_name(b"a/b/"), b"".to_vec());
}

#[test]
fn relative_to_root_strips_prefix() {
    assert_eq!(relative_to_root(b"/home/me", b"/home/me/a/b.txt"), Some(b"a/b.txt".to_vec()));
    assert_eq!(relative_to_root(b"/home/me/", b"/home/me/a.txt"), Some(b"a.txt".to_vec()));
}

#[test]
fn relative_to_root_rejects_non_descendants() {
    assert_eq!(relative_to_root(b"/home/me", b"/home/metoo/a.txt"), None);
    assert_eq!(relative_to_root(b"/home/me", b"/home/me"), None);
    assert_eq!(relative_to_root(b"/home/me", b"/etc/passwd"), None);
}

#[test]
fn safe_path_accepts_plain_relative_paths() {
    assert!(is_safe_relative_path(b"a.txt"));
    assert!(is_safe_relative_path(b"a/b/c.txt"));
    assert!(is_safe_relative_path(b"..a/weird..name"));
}

#[test]
fn safe_path_rejects_escapes() {
    assert!(!is_safe_relative_path(b"../../etc/passwd"));
    assert!(!is_safe_relative_path(b"a/../b.txt"));
    assert!(!is_safe_relative_path(b"a/.."));
    assert!(!is_safe_relative_path(b".."));
    assert!(!is_safe_relative_path(b"/etc/passwd"));
    assert!(!is_safe_relative_path(b""));
}
