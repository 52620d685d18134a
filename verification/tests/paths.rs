use qomicex_updater::path::{can_be_name, file_name, join, parent, separates, Style};
use qomicex_updater::staging::staging_path;
use std::path::Path;

const SAMPLES: [&str; 34] = [
    "", "/", "//", ".", "./", "..", "../", "a", "a/", "a//", "/a", "//a", "./a", "./a/", "././a",
    "a/b", "a//b", "a/./b", "a/.", "a/./", "a/..", "a/../b", "/a/b/", "/a/./", "/.", "/./", "/..",
    ".a", "..a", "...", "/opt/launcher.AppImage", "a b/c", "目录/包.zip", "a\\b",
];

#[test]
fn unix_paths_are_those_of_the_standard_library() {
    for s in SAMPLES {
        let std_name = Path::new(s).file_name().map(|n| n.to_str().unwrap().to_owned());
        assert_eq!(file_name(Style::Unix, s), std_name, "file name of {:?}", s);
        let std_parent = Path::new(s).parent().map(|p| p.to_str().unwrap().to_owned());
        assert_eq!(parent(Style::Unix, s), std_parent, "parent of {:?}", s);
        let std_joined = Path::new(s).join("x.log").to_str().unwrap().to_owned();
        assert_eq!(join(Style::Unix, s, "x.log"), std_joined, "join of {:?}", s);
    }
}

#[test]
fn a_joined_name_can_be_taken_apart_again() {
    for s in SAMPLES {
        let path = join(Style::Unix, s, "x.log");
        assert_eq!(file_name(Style::Unix, &path), Some("x.log".to_owned()));
    }
    assert_eq!(parent(Style::Unix, "/tmp/sig/x.log"), Some("/tmp/sig".to_owned()));
}

fn windows(path: &str) -> (Option<String>, Option<String>, String) {
    (
        parent(Style::Windows, path),
        file_name(Style::Windows, path),
        join(Style::Windows, path, "x"),
    )
}

fn parts(dir: Option<&str>, name: Option<&str>, joined: &str) -> (
    Option<String>,
    Option<String>,
    String,
) {
    (dir.map(|s| s.to_owned()), name.map(|s| s.to_owned()), joined.to_owned())
}

#[test]
fn windows_drives() {
    assert_eq!(windows(r"C:\"), parts(None, None, r"C:\x"));
    assert_eq!(windows(r"C:"), parts(None, None, r"C:x"));
    assert_eq!(windows(r"C:a"), parts(Some(r"C:"), Some("a"), r"C:a\x"));
    assert_eq!(windows(r"C:\a"), parts(Some(r"C:\"), Some("a"), r"C:\a\x"));
    assert_eq!(windows(r"C:\a\b\"), parts(Some(r"C:\a"), Some("b"), r"C:\a\b\x"));
    assert_eq!(windows(r"C:/a/b"), parts(Some(r"C:/a"), Some("b"), r"C:/a/b\x"));
    assert_eq!(windows(r"a\b"), parts(Some("a"), Some("b"), r"a\b\x"));
    assert_eq!(windows(r"\a"), parts(Some(r"\"), Some("a"), r"\a\x"));
}

#[test]
fn windows_shares_and_devices() {
    assert_eq!(windows(r"\\server\share"), parts(None, None, r"\\server\share\x"));
    assert_eq!(
        windows(r"\\server\share\a"),
        parts(Some(r"\\server\share\"), Some("a"), r"\\server\share\a\x")
    );
    assert_eq!(windows(r"\\.\COM1\a"), parts(Some(r"\\.\COM1\"), Some("a"), r"\\.\COM1\a\x"));
}

#[test]
fn windows_verbatim_paths() {
    assert_eq!(windows(r"\\?\C:\a"), parts(Some(r"\\?\C:\"), Some("a"), r"\\?\C:\a\x"));
    assert_eq!(
        windows(r"\\?\UNC\server\share\a\b"),
        parts(Some(r"\\?\UNC\server\share\a"), Some("b"), r"\\?\UNC\server\share\a\b\x")
    );
    assert_eq!(windows(r"\\?\pics\a"), parts(Some(r"\\?\pics\"), Some("a"), r"\\?\pics\a\x"));
    assert_eq!(file_name(Style::Windows, r"\\?\C:\a/b"), Some("a/b".to_owned()));
    assert_eq!(join(Style::Windows, r"\\?\C:", "x"), r"\\?\C:\x");
    assert_eq!(join(Style::Windows, r"\\?\C:\\a", "x"), r"\\?\C:\a\x");
    assert_eq!(join(Style::Windows, r"\\?\C:\a\\b\\\", "x"), r"\\?\C:\a\b\x");
    assert_eq!(join(Style::Windows, r"\\?\C:/a", "x"), r"\\?\C:\a\x");
    assert_eq!(join(Style::Windows, r"C:\\a\\b", "x"), r"C:\\a\\b\x");
}

#[test]
fn separators() {
    assert!(separates(Style::Unix, '/'));
    assert!(!separates(Style::Unix, '\\'));
    assert!(separates(Style::Windows, '/'));
    assert!(separates(Style::Windows, '\\'));
    assert!(!separates(Style::Windows, ':'));
}

#[test]
fn an_update_is_staged_next_to_its_target() {
    let staged = |target| staging_path(Style::Unix, target, "dir");
    assert_eq!(staged("/opt/qomicex"), "/opt/.dir-update-tmp-qomicex");
    assert_eq!(staged("/opt/qomicex/"), "/opt/.dir-update-tmp-qomicex");
    assert_eq!(staged("qomicex"), ".dir-update-tmp-qomicex");
    assert_eq!(staged("./qomicex"), "./.dir-update-tmp-qomicex");
    assert_eq!(staged("/"), "/.dir-update-tmp");
    assert_eq!(staged(".."), ".dir-update-tmp");
    assert_eq!(
        staging_path(Style::Unix, "/home/u/Q.AppImage", "appimage"),
        "/home/u/.appimage-update-tmp-Q.AppImage"
    );
    assert_eq!(
        staging_path(Style::Windows, r"C:\Program Files\Qomicex", "dir"),
        r"C:\Program Files\.dir-update-tmp-Qomicex"
    );
    assert_eq!(
        staging_path(Style::Windows, r"\\?\C:\Qomicex", "dir"),
        r"\\?\C:\.dir-update-tmp-Qomicex"
    );
    assert_eq!(
        staging_path(Style::Windows, r"\\?\C:\\apps\\Qomicex\", "dir"),
        r"\\?\C:\apps\.dir-update-tmp-Qomicex"
    );
}

#[test]
fn other_names_and_tags_are_staged_elsewhere() {
    let staged = |target, tag| staging_path(Style::Windows, target, tag);
    assert_ne!(staged(r"C:\q", "dir"), staged(r"C:\p", "dir"));
    assert_ne!(staged(r"C:\q", "dir"), staged(r"C:\q", "appimage"));
    for target in [r"C:\q", r"C:q", r"\\s\t\q", r"\\?\C:\q", r"\\?\UNC\s\t\q", r"a\q", r"\q"] {
        let staging = staged(target, "dir");
        assert_eq!(parent(Style::Windows, &staging), parent(Style::Windows, target), "{}", target);
    }
}

#[test]
fn names_that_files_can_have() {
    for (name, unix, windows) in [
        ("a", true, true), ("", false, false), (".", false, false), ("..", false, false),
        ("...", true, true), ("a/b", false, false), (r"a\b", true, false), ("C:", true, false),
        ("C:x", true, false), ("ab:c", true, true), (":", true, true), ("1:", true, true),
    ] {
        assert_eq!(can_be_name(Style::Unix, name), unix, "{}", name);
        assert_eq!(can_be_name(Style::Windows, name), windows, "{}", name);
    }
}

#[test]
fn the_staging_directory_has_the_parent_of_its_target() {
    for target in ["/opt/qomicex", "qomicex", "./q", "/a//b/./c/", "/x"] {
        let staging = staging_path(Style::Unix, target, "dir");
        assert_eq!(parent(Style::Unix, &staging), parent(Style::Unix, target));
        assert!(!staging.starts_with(&format!("{}/", target)));
    }
}
