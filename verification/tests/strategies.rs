use qomicex_updater::args::{parse_args, Args};
use qomicex_updater::host::{Host, Platform};
use qomicex_updater::install::{
    install_app, install_appimage, install_dir, install_system, plan_installation, probe_path,
    task_failure_text, BundleFacts, Step, Task,
};
use qomicex_updater::path::Style;

fn text(step: &Step<String>) -> String {
    let task = match &step.task {
        Task::Create { dir, named } => format!("create {} {}", dir, named),
        Task::Discard { tree } => format!("discard {}", tree),
        Task::Unpack { package, into, dir_modes } => {
            format!("unpack {} {} {}", package, into, dir_modes)
        }
        Task::Merge { from, into } => format!("merge {} {}", from, into),
        Task::Promote { from, onto } => format!("promote {} {}", from, onto),
        Task::Elevate { from, onto, sweep } => format!("elevate {} {} {}", from, onto, sweep),
    };
    match &step.rescue {
        Some(tree) => format!("{} or discard {}", task, tree),
        None => task,
    }
}

fn texts(steps: &Vec<Step<String>>) -> Vec<String> {
    steps.iter().map(text).collect()
}

fn host(pid: u32) -> Host {
    Host { platform: Platform::Linux, temp_dir: "/tmp".to_owned(), pid }
}

fn some(s: &str) -> Option<String> {
    Some(s.to_owned())
}

const READ_ONLY: BundleFacts = BundleFacts { is_dir: true, writable: false };
const WRITABLE: BundleFacts = BundleFacts { is_dir: true, writable: true };
const MISSING: BundleFacts = BundleFacts { is_dir: false, writable: false };

const DIR_STEPS: [&str; 6] = [
    "create /opt/q true",
    "discard /opt/.dir-update-tmp-q",
    "create /opt/.dir-update-tmp-q false",
    "unpack p.zip /opt/.dir-update-tmp-q false or discard /opt/.dir-update-tmp-q",
    "merge /opt/.dir-update-tmp-q /opt/q or discard /opt/.dir-update-tmp-q",
    "discard /opt/.dir-update-tmp-q",
];

#[test]
fn the_dir_strategy_merges_a_staged_tree() {
    let steps = install_dir(Style::Unix, "p.zip", &some("/opt/q")).ok().unwrap();
    assert_eq!(texts(&steps), DIR_STEPS);
}

#[test]
fn the_dir_strategy_needs_a_directory() {
    assert_eq!(
        install_dir(Style::Unix, "p.zip", &None).err().unwrap(),
        "--install-dir is required for the dir strategy",
    );
}

#[test]
fn the_appimage_strategy_replaces_one_file() {
    let steps = install_appimage(Style::Unix, "p.zip", &some("/h/Q")).ok().unwrap();
    assert_eq!(
        texts(&steps),
        vec![
            "discard /h/.appimage-update-tmp-Q",
            "create /h/.appimage-update-tmp-Q false",
            "unpack p.zip /h/.appimage-update-tmp-Q false or discard /h/.appimage-update-tmp-Q",
            "promote /h/.appimage-update-tmp-Q /h/Q or discard /h/.appimage-update-tmp-Q",
            "discard /h/.appimage-update-tmp-Q",
        ],
    );
}

#[test]
fn the_appimage_strategy_needs_an_image() {
    assert_eq!(
        install_appimage(Style::Unix, "p.zip", &None).err().unwrap(),
        "--appimage is required for the appimage strategy",
    );
}

#[test]
fn a_writable_bundle_is_updated_like_a_directory() {
    let steps = install_app(&host(7), "p.zip", &some("/opt/q"), WRITABLE).ok().unwrap();
    assert_eq!(texts(&steps), DIR_STEPS);
}

#[test]
fn rights_are_elevated_for_a_bundle_that_is_not_writable() {
    let steps = install_app(&host(7), "p.zip", &some("/A/Q.app"), READ_ONLY).ok().unwrap();
    assert_eq!(
        texts(&steps),
        vec![
            "discard /tmp/qomicex-update-app-7",
            "create /tmp/qomicex-update-app-7 false",
            "unpack p.zip /tmp/qomicex-update-app-7 true",
            "elevate /tmp/qomicex-update-app-7 /A/Q.app true or discard /tmp/qomicex-update-app-7",
        ],
    );
}

#[test]
fn the_app_strategy_needs_a_bundle() {
    assert_eq!(
        install_app(&host(7), "p.zip", &None, WRITABLE).err().unwrap(),
        "--app-bundle is required for the app strategy",
    );
    assert_eq!(
        install_app(&host(7), "p.zip", &some("/A/Q.app"), MISSING).err().unwrap(),
        "app bundle /A/Q.app not found",
    );
}

const SYSTEM_STEPS: [&str; 4] = [
    "discard /tmp/qomicex-update-system-7",
    "create /tmp/qomicex-update-system-7 false",
    "unpack p.zip /tmp/qomicex-update-system-7 true",
    "elevate /tmp/qomicex-update-system-7 / false or discard /tmp/qomicex-update-system-7",
];

#[test]
fn the_system_strategy_covers_the_root() {
    assert_eq!(texts(&install_system(&host(7), "p.zip").ok().unwrap()), SYSTEM_STEPS);
}

#[test]
fn the_system_strategy_is_for_linux() {
    for platform in [Platform::MacOs, Platform::Windows, Platform::OtherUnix] {
        let host = Host { platform, temp_dir: "/tmp".to_owned(), pid: 7 };
        assert_eq!(
            install_system(&host, "p.zip").err().unwrap(),
            "elevation not supported on this platform",
        );
    }
}

#[test]
fn processes_stage_in_directories_of_their_own() {
    let staged = |pid| texts(&install_system(&host(pid), "p").ok().unwrap());
    assert_ne!(staged(7), staged(77));
}

fn args(strategy: &str) -> Args {
    let words = [
        "updater", "--package", "p.zip", "--signature", "s", "--strategy", strategy,
        "--install-dir", "/opt/q", "--appimage", "/h/Q", "--app-bundle", "/opt/q",
    ];
    parse_args(&words.iter().map(|w| (*w).to_owned()).collect()).ok().unwrap()
}

#[test]
fn the_strategy_is_chosen_by_its_name() {
    let plan = |strategy| plan_installation(&args(strategy), &host(7), WRITABLE);
    assert_eq!(texts(&plan("dir").ok().unwrap()), DIR_STEPS);
    assert_eq!(plan("appimage").ok().unwrap().len(), 5);
    assert_eq!(texts(&plan("app").ok().unwrap()), DIR_STEPS);
    assert_eq!(texts(&plan("system").ok().unwrap()), SYSTEM_STEPS);
    assert_eq!(plan("Dir").err().unwrap(), "unknown strategy: Dir");
}

#[test]
fn a_directory_is_probed_by_a_hidden_file() {
    assert_eq!(probe_path(Style::Unix, "/A/Q.app"), "/A/Q.app/.qomicex-update-probe");
    assert_eq!(probe_path(Style::Windows, r"C:\q"), r"C:\q\.qomicex-update-probe");
}

#[test]
fn only_the_target_directory_is_named_in_a_failure() {
    let named: Task<String> = Task::Create { dir: "/opt/q".to_owned(), named: true };
    assert_eq!(task_failure_text(&named, "denied".to_owned()), "cannot create /opt/q: denied");
    let staging: Task<String> = Task::Create { dir: "/opt/s".to_owned(), named: false };
    assert_eq!(task_failure_text(&staging, "denied".to_owned()), "denied");
    let merge = Task::Merge { from: "a".to_owned(), into: "b".to_owned() };
    assert_eq!(task_failure_text(&merge, "denied".to_owned()), "denied");
}
