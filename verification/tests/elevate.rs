use qomicex_updater::elevate::{elevate_copy, elevation_result, CommandEnd};
use qomicex_updater::host::{Host, Platform};
use qomicex_updater::quoting::{apple_quote, shell_quote};

fn host(platform: Platform, pid: u32) -> Host {
    Host { platform, temp_dir: "/tmp".to_owned(), pid }
}

#[test]
fn linux_asks_polkit() {
    let plan = elevate_copy(&host(Platform::Linux, 99), "/tmp/s", "/", false).ok().unwrap();
    assert_eq!(plan.script, "/tmp/qomicex-update-elevate-99.sh");
    assert_eq!(plan.text, "#!/bin/sh\nset -e\ncp -a '/tmp/s'/. '/'/ && rm -rf '/tmp/s'\n");
    assert_eq!(plan.command.program, "pkexec");
    assert_eq!(plan.command.args, vec!["sh", "/tmp/qomicex-update-elevate-99.sh"]);
}

#[test]
fn leftovers_of_downloads_can_be_swept() {
    let plan = elevate_copy(&host(Platform::Linux, 1), "/tmp/s", "/opt/q", true).ok().unwrap();
    assert_eq!(
        plan.text,
        "#!/bin/sh\nset -e\ncp -a '/tmp/s'/. '/opt/q'/ && rm -rf '/tmp/s' '/opt/q'/*.qdtmp\n",
    );
}

#[test]
fn macos_asks_by_a_dialog() {
    let plan = elevate_copy(&host(Platform::MacOs, 5), "/tmp/s", "/Applications/Q.app", true)
        .ok()
        .unwrap();
    assert_eq!(plan.command.program, "osascript");
    assert_eq!(
        plan.command.args,
        vec![
            "-e",
            "do shell script \"sh '/tmp/qomicex-update-elevate-5.sh'\" with administrator privileges",
        ],
    );
}

#[test]
fn quotes_in_paths_are_kept() {
    let plan = elevate_copy(&host(Platform::Linux, 1), "/tmp/s", "/opt/o'brien", true).ok().unwrap();
    assert_eq!(
        plan.text,
        "#!/bin/sh\nset -e\ncp -a '/tmp/s'/. '/opt/o'\\''brien'/ && rm -rf '/tmp/s' '/opt/o'\\''brien'/*.qdtmp\n",
    );
    let host = Host { platform: Platform::MacOs, temp_dir: "/t \"m\"'p".to_owned(), pid: 2 };
    let plan = elevate_copy(&host, "/tmp/s", "/A", true).ok().unwrap();
    assert_eq!(
        plan.command.args[1],
        r#"do shell script "sh '/t \"m\"'\\''p/qomicex-update-elevate-2.sh'" with administrator privileges"#,
    );
}

#[test]
fn text_is_quoted_for_a_shell() {
    assert_eq!(shell_quote(""), "''");
    assert_eq!(shell_quote("/opt/a b"), "'/opt/a b'");
    assert_eq!(shell_quote(r#"$(x)`"\"#), r#"'$(x)`"\'"#);
    assert_eq!(shell_quote("'"), r"''\'''");
}

#[test]
fn text_is_quoted_for_apple_script() {
    assert_eq!(apple_quote(""), r#""""#);
    assert_eq!(apple_quote("a'b"), r#""a'b""#);
    assert_eq!(apple_quote(r#"a"b\c"#), r#""a\"b\\c""#);
}

#[test]
fn other_platforms_have_no_elevation() {
    for platform in [Platform::Windows, Platform::OtherUnix] {
        assert_eq!(
            elevate_copy(&host(platform, 1), "a", "b", true).err().unwrap(),
            "elevation not supported on this platform",
        );
    }
}

#[test]
fn processes_write_scripts_of_their_own() {
    let one = elevate_copy(&host(Platform::Linux, 11), "a", "b", true).ok().unwrap();
    let other = elevate_copy(&host(Platform::Linux, 1), "a", "b", true).ok().unwrap();
    assert_ne!(one.script, other.script);
}

#[test]
fn a_copy_that_worked_is_fine() {
    assert_eq!(elevation_result("pkexec", CommandEnd::Exited { code: Some(0) }), Ok(()));
}

#[test]
fn a_copy_that_failed_says_how() {
    assert_eq!(
        elevation_result("pkexec", CommandEnd::Exited { code: Some(126) }),
        Err("elevated copy failed (pkexec exit 126)".to_owned()),
    );
    assert_eq!(
        elevation_result("pkexec", CommandEnd::Exited { code: None }),
        Err("elevated copy failed (pkexec exit -1)".to_owned()),
    );
}

#[test]
fn a_copy_that_could_not_start_says_why() {
    assert_eq!(
        elevation_result("pkexec", CommandEnd::NotStarted { error: "not found".to_owned() }),
        Err("cannot run pkexec (polkit agent missing?): not found".to_owned()),
    );
    assert_eq!(
        elevation_result("osascript", CommandEnd::NotStarted { error: "not found".to_owned() }),
        Err("cannot run osascript: not found".to_owned()),
    );
}
