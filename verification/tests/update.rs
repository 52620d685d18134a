use qomicex_updater::archive::extract_files;
use qomicex_updater::files::{FileOp, Plan};
use qomicex_updater::host::{Host, Platform};
use qomicex_updater::install::{BundleFacts, Task};
use qomicex_updater::merge::{move_tree, Listing, Node};
use qomicex_updater::path::Style;
use qomicex_updater::run::{
    exit_notice, log_path, scrubbed_env, ulog, Action, Outcome, Turn, Updater, EXIT_IO, EXIT_OK,
    EXIT_SIGNATURE, EXIT_STRATEGY, EXIT_TIMEOUT, EXIT_USAGE,
};
use qomicex_updater::verify::{verify_package, PUBLIC_KEY};
use std::collections::BTreeMap;
use std::io::{Cursor, Write};

fn words(words: &[&str]) -> Vec<String> {
    let mut argv = vec!["qomicex-updater".to_owned()];
    argv.extend(words.iter().map(|w| (*w).to_owned()));
    argv
}

fn start(options: &[&str]) -> (Updater, Turn) {
    let host = Host { platform: Platform::Linux, temp_dir: "/tmp".to_owned(), pid: 77 };
    match Updater::start(&words(options), host) {
        Ok(begun) => begun,
        Err(message) => panic!("{}", message),
    }
}

fn text(action: &Action<String>) -> String {
    match action {
        Action::Verify { package, signature } => format!("verify {} {}", package, signature),
        Action::Wait { pid, limit_secs } => format!("wait {} {}", pid, limit_secs),
        Action::Inspect { bundle } => format!("inspect {}", bundle),
        Action::Perform { task } => match task {
            Task::Create { dir, .. } => format!("create {}", dir),
            Task::Discard { tree } => format!("discard {}", tree),
            Task::Unpack { package, into, .. } => format!("unpack {} {}", package, into),
            Task::Merge { from, into } => format!("merge {} {}", from, into),
            Task::Promote { from, onto } => format!("promote {} {}", from, onto),
            Task::Elevate { from, onto, .. } => format!("elevate {} {}", from, onto),
        },
        Action::Launch { exe } => format!("launch {}", exe),
        Action::Exit { code } => format!("exit {}", code),
    }
}

/// Runs an update to its end, where the action that starts with `weak` fails.
/// Gives the actions, and the log without its first line.
fn course(options: &[&str], weak: &str, facts: BundleFacts) -> (Vec<String>, Vec<String>) {
    let (mut updater, mut turn) = start(options);
    let mut actions = Vec::new();
    let mut log = Vec::new();
    loop {
        log.extend(turn.log.iter().cloned());
        let action = text(&turn.action);
        actions.push(action.clone());
        if let Action::Exit { .. } = turn.action {
            log.remove(0);
            return (actions, log);
        }
        let outcome = if !weak.is_empty() && action.starts_with(weak) {
            Outcome::Failed { error: "broken".to_owned() }
        } else if let Action::Inspect { .. } = turn.action {
            Outcome::Bundle { facts }
        } else {
            Outcome::Done
        };
        turn = updater.advance(outcome);
    }
}

const NO_FACTS: BundleFacts = BundleFacts { is_dir: false, writable: false };
const STAGED: &str = "/opt/.dir-update-tmp-q";
const DIR: [&str; 12] = [
    "--package", "p.zip", "--signature", "s/p.sig", "--strategy", "dir", "--install-dir", "/opt/q",
    "--wait-pid", "4711", "--launch", "/opt/q/bin/q",
];
const APP: [&str; 8] = [
    "--package", "p.zip", "--signature", "s/p.sig", "--strategy", "app", "--app-bundle", "/A/Q.app",
];

fn line(prefix: &str) -> String {
    format!("{} {}", prefix, STAGED)
}

#[test]
fn an_update_takes_its_course() {
    let (actions, log) = course(&DIR, "", NO_FACTS);
    assert_eq!(
        actions,
        vec![
            "verify p.zip s/p.sig".to_owned(),
            "wait 4711 30".to_owned(),
            "create /opt/q".to_owned(),
            line("discard"),
            line("create"),
            line("unpack p.zip"),
            format!("merge {} /opt/q", STAGED),
            line("discard"),
            "launch /opt/q/bin/q".to_owned(),
            "exit 0".to_owned(),
        ],
    );
    assert_eq!(
        log,
        vec![
            "verify ok",
            "waiting for pid 4711 (max 30s)",
            "target exited",
            "install ok",
            "launching /opt/q/bin/q",
            "done",
        ],
    );
}

#[test]
fn the_log_starts_with_the_process() {
    let (updater, turn) = start(&DIR);
    assert_eq!(turn.log, vec!["start pid=77 package=p.zip strategy=dir"]);
    assert_eq!(updater.log_path(), "s/qomicex-updater-77.log");
}

#[test]
fn nothing_is_done_with_a_bad_signature() {
    let (actions, log) = course(&DIR, "verify", NO_FACTS);
    assert_eq!(actions, vec!["verify p.zip s/p.sig", "exit 3"]);
    assert_eq!(log, vec!["verify failed: broken"]);
}

#[test]
fn nothing_is_touched_while_the_launcher_runs() {
    let (actions, log) = course(&DIR, "wait", NO_FACTS);
    assert_eq!(actions, vec!["verify p.zip s/p.sig", "wait 4711 30", "exit 5"]);
    assert_eq!(log.last().unwrap(), "wait failed: broken");
}

#[test]
fn a_target_that_cannot_be_created_ends_the_update() {
    let (actions, log) = course(&DIR, "create /opt/q", NO_FACTS);
    assert_eq!(actions.last().unwrap(), "exit 2");
    assert_eq!(actions[actions.len() - 2], "create /opt/q");
    assert_eq!(log.last().unwrap(), "install failed: cannot create /opt/q: broken");
}

#[test]
fn a_failed_step_cleans_up() {
    for weak in ["unpack", "merge"] {
        let (actions, log) = course(&DIR, weak, NO_FACTS);
        assert!(actions[actions.len() - 3].starts_with(weak));
        assert_eq!(actions[actions.len() - 2], line("discard"));
        assert_eq!(actions.last().unwrap(), "exit 2");
        assert_eq!(log.last().unwrap(), "install failed: broken");
    }
}

#[test]
fn a_directory_that_cannot_be_discarded_does_no_harm() {
    let (actions, _) = course(&DIR, "discard", NO_FACTS);
    assert_eq!(actions.last().unwrap(), "exit 0");
}

#[test]
fn a_launcher_that_does_not_start_is_reported() {
    let (actions, log) = course(&DIR, "launch", NO_FACTS);
    assert_eq!(actions.last().unwrap(), "exit 2");
    assert_eq!(log[log.len() - 2], "launching /opt/q/bin/q");
    assert_eq!(log.last().unwrap(), "relaunch failed: broken");
}

#[test]
fn nothing_is_launched_without_being_asked_for() {
    let (actions, log) = course(&DIR[..8], "", NO_FACTS);
    assert!(!actions.iter().any(|a| a.starts_with("launch") || a.starts_with("wait")));
    assert_eq!(log, vec!["verify ok", "install ok", "done"]);
}

#[test]
fn a_bundle_is_inspected_first() {
    let facts = BundleFacts { is_dir: true, writable: true };
    let (actions, _) = course(&APP, "", facts);
    assert_eq!(actions[1], "inspect /A/Q.app");
    assert_eq!(actions[2], "create /A/Q.app");
    assert!(!actions.iter().any(|a| a.starts_with("elevate")));
    assert_eq!(actions.last().unwrap(), "exit 0");
}

#[test]
fn a_failed_elevation_cleans_up() {
    let facts = BundleFacts { is_dir: true, writable: false };
    let (actions, log) = course(&APP, "elevate", facts);
    assert_eq!(actions[actions.len() - 3], "elevate /tmp/qomicex-update-app-77 /A/Q.app");
    assert_eq!(actions[actions.len() - 2], "discard /tmp/qomicex-update-app-77");
    assert_eq!(actions.last().unwrap(), "exit 4");
    assert_eq!(log.last().unwrap(), "install failed: broken");
}

#[test]
fn a_missing_bundle_fails_the_strategy() {
    let (actions, log) = course(&APP, "", NO_FACTS);
    assert_eq!(actions.last().unwrap(), "exit 4");
    assert_eq!(log.last().unwrap(), "install failed: app bundle /A/Q.app not found");
    let (actions, _) = course(&APP[..6], "", NO_FACTS);
    assert_eq!(actions, vec!["verify p.zip s/p.sig", "exit 4"]);
}

#[test]
fn the_system_strategy_elevates_rights() {
    let options = ["--package", "p", "--signature", "s", "--strategy", "system"];
    let (actions, _) = course(&options, "", NO_FACTS);
    assert_eq!(
        actions[1..],
        [
            "discard /tmp/qomicex-update-system-77",
            "create /tmp/qomicex-update-system-77",
            "unpack p /tmp/qomicex-update-system-77",
            "elevate /tmp/qomicex-update-system-77 /",
            "exit 0",
        ],
    );
    let (actions, _) = course(&options, "unpack", NO_FACTS);
    assert_eq!(actions.last().unwrap(), "exit 4");
}

#[test]
fn an_unknown_strategy_fails() {
    let options = ["--package", "p", "--signature", "s", "--strategy", "magic"];
    let (actions, log) = course(&options, "", NO_FACTS);
    assert_eq!(actions, vec!["verify p s", "exit 4"]);
    assert_eq!(log.last().unwrap(), "install failed: unknown strategy: magic");
}

#[test]
fn a_strategy_without_its_target_fails() {
    for (strategy, message) in [
        ("dir", "install failed: --install-dir is required for the dir strategy"),
        ("appimage", "install failed: --appimage is required for the appimage strategy"),
    ] {
        let options = ["--package", "p", "--signature", "s", "--strategy", strategy];
        let (actions, log) = course(&options, "", NO_FACTS);
        assert_eq!(actions, vec!["verify p s", "exit 4"]);
        assert_eq!(log.last().unwrap(), message);
    }
}

#[test]
fn an_update_that_has_ended_stays_so() {
    let (mut updater, _) = start(&DIR);
    let turn = updater.advance(Outcome::Failed { error: "x".to_owned() });
    assert_eq!(text(&turn.action), "exit 3");
    let turn = updater.advance(Outcome::Done);
    assert_eq!(text(&turn.action), "exit 3");
    assert!(turn.log.is_empty());
}

#[test]
fn a_wrong_command_line_is_answered_with_the_usage() {
    let host = Host { platform: Platform::Linux, temp_dir: "/tmp".to_owned(), pid: 1 };
    let message = Updater::start(&words(&["--package"]), host).err().unwrap();
    assert_eq!(
        message,
        "missing value for --package\n\nusage: qomicex-updater --package <zip> --signature <file> --strategy <dir|appimage|app|system> [--install-dir <path>] [--appimage <path>] [--app-bundle <path>] [--wait-pid <pid>] [--launch <exe>]",
    );
}

#[test]
fn exit_codes_have_their_numbers() {
    assert_eq!(
        [EXIT_OK, EXIT_USAGE, EXIT_IO, EXIT_SIGNATURE, EXIT_STRATEGY, EXIT_TIMEOUT],
        [0, 1, 2, 3, 4, 5],
    );
    assert_eq!(exit_notice(0), None);
    assert_eq!(exit_notice(3), Some("qomicex-updater failed with exit code 3".to_owned()));
    assert_eq!(exit_notice(-1), Some("qomicex-updater failed with exit code -1".to_owned()));
}

#[test]
fn log_lines_carry_the_time() {
    assert_eq!(ulog(1700000000, "verify ok"), "[1700000000] verify ok\n");
    assert_eq!(ulog(0, ""), "[0] \n");
}

#[test]
fn the_log_lies_next_to_the_signature() {
    let path = |signature, pid| log_path(Style::Unix, signature, "/tmp", pid);
    assert_eq!(path("/run/u/p.sig", 5), "/run/u/qomicex-updater-5.log");
    assert_eq!(path("p.sig", 5), "qomicex-updater-5.log");
    assert_eq!(path("/", 5), "/tmp/qomicex-updater-5.log");
    assert_eq!(path("", 5), "/tmp/qomicex-updater-5.log");
    assert_ne!(path("p.sig", 5), path("p.sig", 55));
    assert_eq!(
        log_path(Style::Windows, r"C:\T\p.sig", r"C:\Temp", 5),
        r"C:\T\qomicex-updater-5.log",
    );
}

#[test]
fn the_launcher_starts_without_leftover_variables() {
    assert_eq!(scrubbed_env(), vec!["QOMICEX_LAUNCHER_MANAGED", "QOMICEX_UPDATER_PATH"]);
}

type Disk = BTreeMap<String, Vec<u8>>;

fn carry_out(disk: &mut Disk, plan: Plan) -> Result<(), String> {
    for op in plan.ops {
        match op {
            FileOp::CreateDirAll { .. } | FileOp::SetMode { .. } => {}
            FileOp::WriteFile { path, data } => {
                disk.insert(path, data);
            }
            FileOp::RemoveFile { path } => {
                disk.remove(&path).unwrap();
            }
            FileOp::Rename { from, to } => {
                let data = disk.remove(&from).unwrap();
                disk.insert(to, data);
            }
        }
    }
    match plan.fault {
        Some(fault) => Err(fault),
        None => Ok(()),
    }
}

fn list(disk: &Disk, src: &str, dst: &str) -> Listing {
    let mut entries = Vec::new();
    let mut dirs = Vec::new();
    for path in disk.keys() {
        if let Some(rest) = path.strip_prefix(&format!("{}/", src)) {
            match rest.split_once('/') {
                None => entries.push(Node::File {
                    name: rest.to_owned(),
                    replaces: disk.contains_key(&format!("{}/{}", dst, rest)),
                }),
                Some((dir, _)) => {
                    if !dirs.contains(&dir.to_owned()) {
                        dirs.push(dir.to_owned());
                        let listing =
                            list(disk, &format!("{}/{}", src, dir), &format!("{}/{}", dst, dir));
                        entries.push(Node::Dir { name: dir.to_owned(), listing });
                    }
                }
            }
        }
    }
    Listing { entries, fault: None }
}

fn perform(disk: &mut Disk, task: Task<String>) -> Result<(), String> {
    match task {
        Task::Create { .. } => Ok(()),
        Task::Discard { tree } => {
            let prefix = format!("{}/", tree);
            disk.retain(|path, _| !path.starts_with(&prefix));
            Ok(())
        }
        Task::Unpack { package, into, .. } => {
            let plan = extract_files(Platform::Linux, disk[&package].clone(), &into);
            carry_out(disk, plan)
        }
        Task::Merge { from, into } => {
            let listing = list(disk, &from, &into);
            let plan = move_tree(Style::Unix, &from, &into, &listing);
            carry_out(disk, plan)
        }
        Task::Promote { .. } | Task::Elevate { .. } => panic!("not a task of the dir strategy"),
    }
}

/// Runs an update on files in memory. `trusted` stands in for the signature
/// check where it is given.
fn run(disk: &mut Disk, options: &[&str], trusted: Option<bool>) -> (i32, Vec<String>) {
    let (mut updater, mut turn) = start(options);
    let mut launched = Vec::new();
    loop {
        let result = match turn.action {
            Action::Verify { package, signature } => match trusted {
                Some(true) => Ok(()),
                _ => verify_package(
                    &package,
                    &signature,
                    Ok(String::from_utf8(disk[&signature].clone()).unwrap()),
                    Ok(disk[&package].clone()),
                    PUBLIC_KEY,
                ),
            },
            Action::Wait { .. } => Ok(()),
            Action::Inspect { .. } => panic!("not an action of the dir strategy"),
            Action::Perform { task } => perform(disk, task),
            Action::Launch { exe } => {
                launched.push(exe);
                Ok(())
            }
            Action::Exit { code } => return (code, launched),
        };
        turn = updater.advance(match result {
            Ok(()) => Outcome::Done,
            Err(error) => Outcome::Failed { error },
        });
    }
}

fn zip_dir(files: &[(&str, &[u8])]) -> Vec<u8> {
    let mut zip = zip::ZipWriter::new(Cursor::new(Vec::new()));
    let opts = zip::write::SimpleFileOptions::default().unix_permissions(0o755);
    for (rel, data) in files {
        zip.start_file(*rel, opts).unwrap();
        zip.write_all(data).unwrap();
    }
    zip.finish().unwrap().into_inner()
}

fn old_install() -> Disk {
    let mut disk = Disk::new();
    disk.insert("/t/install/bin/app.exe".to_owned(), b"OLD".to_vec());
    disk.insert("/t/install/stale.txt".to_owned(), b"old leftover".to_vec());
    disk.insert(
        "/t/pkg.zip".to_owned(),
        zip_dir(&[("bin/app.exe", b"NEW"), ("changelog.txt", b"v2")]),
    );
    disk
}

const FOREIGN: &str = "untrusted comment: signature from minisign secret key
RUQf6LRCGA9i559r3g7V1qNyJDApGip8MfqcadIgT9CuhV3EMhHoN1mGTkUidF/z7SrlQgXdy8ofjb7bNJJylDOocrCo8KLzZwo=
trusted comment: timestamp:1633700835\tfile:test\tprehashed
wLMDjy9FLAuxZ3q4NlEvkgtyhrr0gtTu6KC4KBJdITbbOeAi1zBIYo0v4iTgt8jJpIidRJnp94ABQkJAgAooBQ==";

const OPTIONS: [&str; 8] = [
    "--package", "/t/pkg.zip", "--signature", "/t/pkg.zip.sig", "--strategy", "dir",
    "--install-dir", "/t/install",
];

#[test]
fn dir_strategy_overwrites_and_relaunches() {
    let mut disk = old_install();
    disk.insert("/t/pkg.zip.sig".to_owned(), b"garbage".to_vec());
    let (code, launched) = run(&mut disk, &OPTIONS, None);
    assert_eq!(code, 3, "bad signature must be rejected");
    assert_eq!(disk["/t/install/bin/app.exe"], b"OLD");
    assert!(launched.is_empty());

    disk.insert("/t/pkg.zip.sig".to_owned(), FOREIGN.as_bytes().to_vec());
    let (code, _) = run(&mut disk, &OPTIONS, None);
    assert_eq!(code, 3, "signature from a foreign key must be rejected");
    assert_eq!(disk["/t/install/bin/app.exe"], b"OLD");
}

#[test]
fn an_update_overlays_the_install_directory() {
    let mut disk = old_install();
    let before = disk.len();
    let mut options = OPTIONS.to_vec();
    options.extend(["--launch", "/t/fake-launcher.sh"]);
    let (code, launched) = run(&mut disk, &options, Some(true));
    assert_eq!(code, 0);
    assert_eq!(launched, vec!["/t/fake-launcher.sh"]);
    assert_eq!(disk["/t/install/bin/app.exe"], b"NEW");
    assert_eq!(disk["/t/install/changelog.txt"], b"v2");
    assert_eq!(disk["/t/install/stale.txt"], b"old leftover");
    assert_eq!(disk.len(), before + 1);
}

#[test]
fn updating_twice_is_updating_once() {
    let mut disk = old_install();
    run(&mut disk, &OPTIONS, Some(true));
    let once = disk.clone();
    disk.insert("/t/.dir-update-tmp-install/leftover".to_owned(), b"half".to_vec());
    let (code, _) = run(&mut disk, &OPTIONS, Some(true));
    assert_eq!(code, 0);
    assert_eq!(disk, once);
}

#[test]
fn a_package_that_leads_out_changes_nothing() {
    let mut disk = old_install();
    disk.insert("/t/pkg.zip".to_owned(), zip_dir(&[("a", b"1"), ("../evil.txt", b"2")]));
    let before = disk.clone();
    let (code, _) = run(&mut disk, &OPTIONS, Some(true));
    assert_eq!(code, 2);
    assert_eq!(disk, before);
}

#[test]
fn a_package_that_is_no_archive_changes_nothing() {
    let mut disk = old_install();
    disk.insert("/t/pkg.zip".to_owned(), b"garbage".to_vec());
    let before = disk.clone();
    let (code, launched) = run(&mut disk, &OPTIONS, Some(true));
    assert_eq!(code, 2);
    assert_eq!(disk, before);
    assert!(launched.is_empty());
}
