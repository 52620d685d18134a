use qomicex_updater::appimage::{first_file, replace_image, Found, EXECUTABLE_MODE};
use qomicex_updater::archive::{extract_entry, extract_files, extract_zip, Entry};
use qomicex_updater::files::{FileOp, Plan};
use qomicex_updater::host::Platform;
use qomicex_updater::merge::{move_tree, replace_file, Listing, Node};
use qomicex_updater::path::Style;
use std::io::{Cursor, Write};

fn text(op: &FileOp<String, Vec<u8>>) -> String {
    match op {
        FileOp::CreateDirAll { dir } => format!("mkdir {}", dir),
        FileOp::WriteFile { path, data } => {
            format!("write {} {}", path, String::from_utf8(data.clone()).unwrap())
        }
        FileOp::SetMode { path, mode } => format!("chmod {} {:o}", path, mode),
        FileOp::RemoveFile { path } => format!("rm {}", path),
        FileOp::Rename { from, to } => format!("mv {} {}", from, to),
    }
}

fn texts(plan: &Plan) -> Vec<String> {
    plan.ops.iter().map(text).collect()
}

fn archive(entries: &[(&str, &str, u32)]) -> Vec<u8> {
    let mut zip = zip::ZipWriter::new(Cursor::new(Vec::new()));
    for (name, data, mode) in entries {
        let options = zip::write::SimpleFileOptions::default().unix_permissions(*mode);
        if name.ends_with('/') {
            zip.add_directory(*name, options).unwrap();
        } else {
            zip.start_file(*name, options).unwrap();
            zip.write_all(data.as_bytes()).unwrap();
        }
    }
    zip.finish().unwrap().into_inner()
}

fn stored(name: &str, path: &[&str], is_dir: bool, mode: Option<u32>, data: &str) -> Entry {
    Entry {
        name: name.to_owned(),
        path: path.iter().map(|c| (*c).to_owned()).collect(),
        is_dir,
        mode,
        data: data.as_bytes().to_vec(),
        fault: None,
    }
}

fn extracted(platform: Platform, staging: &str, entries: Vec<Result<Entry, String>>) -> Plan {
    let mut plan = Plan::new();
    let mut modes = Vec::new();
    for entry in entries {
        extract_entry(&mut plan, &mut modes, platform, staging, entry);
    }
    plan
}

#[test]
fn a_package_is_extracted_with_its_modes() {
    let package = archive(&[("bin/", "", 0o755), ("bin/q", "ELF", 0o755), ("notes.txt", "v2", 0o644)]);
    let plan = extract_zip(Platform::Linux, package, "/s");
    assert_eq!(plan.fault, None);
    assert_eq!(
        texts(&plan),
        vec![
            "mkdir /s/bin",
            "mkdir /s/bin",
            "write /s/bin/q ELF",
            "chmod /s/bin/q 100755",
            "mkdir /s",
            "write /s/notes.txt v2",
            "chmod /s/notes.txt 100644",
            "chmod /s/bin 40755",
        ],
    );
}

#[test]
fn directories_get_their_modes_at_the_end() {
    let package = archive(&[("private/", "", 0o700), ("private/in/", "", 0o500), ("x", "1", 0o644)]);
    let plan = extract_zip(Platform::Linux, package, "/s");
    assert_eq!(plan.fault, None);
    let all = texts(&plan);
    assert_eq!(all[all.len() - 2..], ["chmod /s/private/in 40500", "chmod /s/private 40700"]);
    let package = archive(&[("private/", "", 0o700)]);
    let plan = extract_zip(Platform::Windows, package, "/s");
    assert_eq!(texts(&plan), vec!["mkdir /s\\private"]);
}

#[test]
fn windows_has_no_modes() {
    let package = archive(&[("bin/q.exe", "MZ", 0o755)]);
    let plan = extract_zip(Platform::Windows, package, r"C:\s");
    assert_eq!(texts(&plan), vec![r"mkdir C:\s\bin", r"write C:\s\bin\q.exe MZ"]);
}

#[test]
fn an_empty_package_is_extracted() {
    let plan = extract_zip(Platform::Linux, archive(&[]), "/s");
    assert_eq!(plan.fault, None);
    assert!(plan.ops.is_empty());
}

#[test]
fn directories_can_stay_as_they_are_made() {
    let package = archive(&[("closed/", "", 0o500), ("closed/x", "1", 0o444)]);
    let plan = extract_files(Platform::Linux, package.clone(), "/s");
    assert_eq!(plan.fault, None);
    assert_eq!(
        texts(&plan),
        vec!["mkdir /s/closed", "mkdir /s/closed", "write /s/closed/x 1", "chmod /s/closed/x 100444"],
    );
    let full = texts(&extract_zip(Platform::Linux, package, "/s"));
    assert_eq!(full.len(), 5);
    assert_eq!(full[4], "chmod /s/closed 40500");
    let plan = extract_files(Platform::Linux, b"garbage".to_vec(), "/s");
    assert!(plan.fault.is_some());
}

#[test]
fn a_file_named_like_a_drive_is_not_left_out() {
    let plan = extract_zip(Platform::Linux, archive(&[("A::B.3", "man", 0o644)]), "/s");
    assert_eq!(plan.fault, None);
    assert_eq!(plan.ops.len(), 3);
}

#[test]
fn an_entry_that_leads_out_is_rejected() {
    for name in [
        "../evil.txt", "../../etc/passwd", "/abs", "x/../../y", r"..\win\z", r"a\..\b", "a/..", "..",
        r"\abs",
    ] {
        let package = archive(&[("first", "1", 0o644), (name, "2", 0o644), ("last", "3", 0o644)]);
        let plan = extract_zip(Platform::Linux, package, "/s");
        assert_eq!(plan.fault, Some(format!("path traversal entry: {}", name)));
        assert_eq!(texts(&plan), vec!["mkdir /s", "write /s/first 1", "chmod /s/first 100644"]);
    }
}

#[test]
fn dots_within_names_lead_nowhere() {
    let package = archive(&[("..a/b..", "1", 0o644), ("./c/./d", "2", 0o644), ("...", "3", 0o644)]);
    let plan = extract_zip(Platform::Linux, package, "/s");
    assert_eq!(plan.fault, None);
    let written: Vec<String> =
        texts(&plan).into_iter().filter(|line| line.starts_with("write")).collect();
    assert_eq!(written, vec!["write /s/..a/b.. 1", "write /s/c/d 2", "write /s/... 3"]);
}

#[test]
fn names_may_hold_colons() {
    let package = archive(&[("usr/share/man/man3/A::B.3", "man", 0o644), ("x/ab:c", "1", 0o644)]);
    let plan = extract_zip(Platform::Linux, package.clone(), "/s");
    assert_eq!(plan.fault, None);
    assert!(texts(&plan).contains(&"write /s/usr/share/man/man3/A::B.3 man".to_owned()));
    let package = archive(&[("x/ab:c", "1", 0o644)]);
    let plan = extract_zip(Platform::Windows, package, "s");
    assert_eq!(plan.fault, None);
    assert!(texts(&plan).contains(&r"write s\x\ab:c 1".to_owned()));
}

#[test]
fn a_path_that_does_not_lead_down_is_rejected() {
    for (platform, path) in [
        (Platform::Linux, vec![".."]),
        (Platform::Linux, vec!["a", ".", "b"]),
        (Platform::Linux, vec!["a/b"]),
        (Platform::Linux, vec![""]),
        (Platform::Windows, vec!["C:", ".."]),
        (Platform::Windows, vec!["x", "C:foo"]),
        (Platform::Windows, vec![r"a\b"]),
    ] {
        let plan = extracted(platform, "/s", vec![Ok(stored("evil", &path, false, None, "x"))]);
        assert!(plan.ops.is_empty());
        assert_eq!(plan.fault.as_deref(), Some("path traversal entry: evil"));
    }
    let entry = stored("C:x", &["C:x"], false, None, "1");
    let plan = extracted(Platform::Linux, "/s", vec![Ok(entry)]);
    assert_eq!(texts(&plan), vec!["mkdir /s", "write /s/C:x 1"]);
    let entry = stored(r"C:\x", &["x"], false, None, "1");
    let plan = extracted(Platform::Windows, "s", vec![Ok(entry)]);
    assert_eq!(plan.fault.as_deref(), Some(r"path traversal entry: C:\x"));
}

#[test]
fn an_entry_that_names_nothing_is_skipped() {
    let plan = extracted(Platform::Linux, "/s", vec![Ok(stored("./", &[], true, Some(1), ""))]);
    assert!(plan.ops.is_empty());
    assert_eq!(plan.fault, None);
}

#[test]
fn entries_are_extracted_one_by_one() {
    let mut plan = Plan::new();
    let mut modes = Vec::new();
    let dir = stored("d/", &["d"], true, Some(0o700), "");
    let file = stored("d/f", &["d", "f"], false, None, "x");
    extract_entry(&mut plan, &mut modes, Platform::MacOs, "s", Ok(dir));
    extract_entry(&mut plan, &mut modes, Platform::MacOs, "s", Ok(file));
    assert_eq!(texts(&plan), vec!["mkdir s/d", "mkdir s/d", "write s/d/f x"]);
    assert_eq!(modes.iter().map(text).collect::<Vec<String>>(), vec!["chmod s/d 700"]);
    extract_entry(&mut plan, &mut modes, Platform::MacOs, "s", Err("broken".to_owned()));
    assert_eq!(plan.fault.as_deref(), Some("broken"));
    assert_eq!(modes.len(), 1);
}

#[test]
fn contents_that_cannot_be_read_end_the_plan() {
    let mut entry = stored("d/f", &["d", "f"], false, Some(0o644), "hal");
    entry.fault = Some("Invalid checksum".to_owned());
    let plan = extracted(Platform::Linux, "s", vec![Ok(entry)]);
    assert_eq!(texts(&plan), vec!["mkdir s/d", "write s/d/f hal"]);
    assert_eq!(plan.fault.as_deref(), Some("Invalid checksum"));
}

#[test]
fn a_damaged_file_is_found_out() {
    let mut package = Vec::new();
    {
        let mut zip = zip::ZipWriter::new(Cursor::new(&mut package));
        let options = zip::write::SimpleFileOptions::default()
            .compression_method(zip::CompressionMethod::Stored);
        zip.start_file("a", options).unwrap();
        zip.write_all(b"AAAA").unwrap();
        zip.start_file("b", options).unwrap();
        zip.write_all(b"BBBB").unwrap();
        zip.finish().unwrap();
    }
    let at = package.windows(4).position(|w| w == b"BBBB").unwrap();
    package[at] = b'C';
    let plan = extract_zip(Platform::Linux, package, "/s");
    assert_eq!(plan.fault.as_deref(), Some("Invalid checksum"));
    assert!(texts(&plan).contains(&"write /s/a AAAA".to_owned()));
    assert_eq!(texts(&plan).last().unwrap(), "write /s/b CBBB");
}

#[test]
fn what_is_no_archive_is_refused() {
    let plan = extract_zip(Platform::Linux, b"garbage".to_vec(), "/s");
    assert!(plan.ops.is_empty());
    let expected = zip::ZipArchive::new(Cursor::new(b"garbage".to_vec())).err().unwrap();
    assert_eq!(plan.fault, Some(std::io::Error::from(expected).to_string()));
}

fn file(name: &str, replaces: bool) -> Node {
    Node::File { name: name.to_owned(), replaces }
}

fn dir(name: &str, entries: Vec<Node>) -> Node {
    Node::Dir { name: name.to_owned(), listing: Listing { entries, fault: None } }
}

#[test]
fn a_tree_is_moved_file_by_file() {
    let listing = Listing {
        entries: vec![
            dir("bin", vec![file("app.exe", true), file("new.dll", false)]),
            file("changelog.txt", false),
        ],
        fault: None,
    };
    let plan = move_tree(Style::Unix, "/s", "/opt/q", &listing);
    assert_eq!(plan.fault, None);
    assert_eq!(
        texts(&plan),
        vec![
            "mkdir /opt/q/bin",
            "rm /opt/q/bin/app.exe",
            "mv /s/bin/app.exe /opt/q/bin/app.exe",
            "mv /s/bin/new.dll /opt/q/bin/new.dll",
            "mv /s/changelog.txt /opt/q/changelog.txt",
        ],
    );
}

#[test]
fn a_directory_that_cannot_be_read_stops_the_move() {
    let below = Listing { entries: vec![file("a", false)], fault: Some("denied".to_owned()) };
    let listing = Listing {
        entries: vec![
            file("first", false),
            Node::Dir { name: "d".to_owned(), listing: below },
            file("last", false),
        ],
        fault: None,
    };
    let plan = move_tree(Style::Unix, "s", "t", &listing);
    assert_eq!(plan.fault.as_deref(), Some("denied"));
    assert_eq!(texts(&plan), vec!["mv s/first t/first", "mkdir t/d", "mv s/d/a t/d/a"]);
}

#[test]
fn windows_trees_are_moved_with_backslashes() {
    let listing = Listing { entries: vec![dir("bin", vec![file("a", true)])], fault: None };
    let plan = move_tree(Style::Windows, r"C:\s", r"C:\q", &listing);
    assert_eq!(
        texts(&plan),
        vec![r"mkdir C:\q\bin", r"rm C:\q\bin\a", r"mv C:\s\bin\a C:\q\bin\a"],
    );
}

#[test]
fn a_file_takes_the_place_of_another() {
    let mut plan = Plan::new();
    replace_file(&mut plan, "a", "b", true);
    replace_file(&mut plan, "c", "d", false);
    assert_eq!(texts(&plan), vec!["rm b", "mv a b", "mv c d"]);
}

#[test]
fn plans_are_put_together() {
    let mut plan = Plan::new();
    plan.push(FileOp::CreateDirAll { dir: "x".to_owned() });
    let mut other = Plan::new();
    other.push(FileOp::RemoveFile { path: "y".to_owned() });
    other.fail("bad".to_owned());
    plan.absorb(other);
    assert_eq!(texts(&plan), vec!["mkdir x", "rm y"]);
    assert_eq!(plan.fault.as_deref(), Some("bad"));
}

#[test]
fn operations_can_be_added_backwards() {
    let mut plan = Plan::new();
    plan.push(FileOp::CreateDirAll { dir: "x".to_owned() });
    plan.append_reversed(vec![
        FileOp::RemoveFile { path: "a".to_owned() },
        FileOp::RemoveFile { path: "b".to_owned() },
    ]);
    assert_eq!(texts(&plan), vec!["mkdir x", "rm b", "rm a"]);
}

#[test]
fn the_image_is_the_first_regular_file() {
    let found = |path: &str| Found::File { path: path.to_owned() };
    assert_eq!(first_file(&Some(vec![Found::Other, found("a"), found("b")])), Some("a".to_owned()));
    assert_eq!(first_file(&Some(vec![found("a"), Found::Unknown])), Some("a".to_owned()));
    assert_eq!(first_file(&Some(vec![Found::Unknown, found("a")])), None);
    assert_eq!(first_file(&Some(vec![Found::Other])), None);
    assert_eq!(first_file(&Some(vec![])), None);
    assert_eq!(first_file(&None), None);
}

#[test]
fn an_image_takes_its_place_as_an_executable() {
    let image = Some("/s/new".to_owned());
    let plan = replace_image(Platform::Linux, &image, "/h/Q.AppImage", true);
    assert_eq!(plan.fault, None);
    assert_eq!(
        texts(&plan),
        vec!["rm /h/Q.AppImage", "mv /s/new /h/Q.AppImage", "chmod /h/Q.AppImage 755"],
    );
    let plan = replace_image(Platform::Windows, &image, "q", false);
    assert_eq!(texts(&plan), vec!["mv /s/new q"]);
    assert_eq!(EXECUTABLE_MODE, 0o755);
}

#[test]
fn a_package_without_an_image_is_refused() {
    let plan = replace_image(Platform::Linux, &None, "/h/Q.AppImage", true);
    assert!(plan.ops.is_empty());
    assert_eq!(plan.fault.as_deref(), Some("package contains no AppImage"));
}
