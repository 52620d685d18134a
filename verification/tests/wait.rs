use qomicex_updater::host::Platform;
use qomicex_updater::wait::{
    probe_command, process_alive, wait_process_exit, Look, Wait, POLL_MILLIS, WAIT_LIMIT_SECS,
};

const LIMIT: u128 = 30_000_000_000;

#[test]
fn a_process_that_is_gone_ends_the_wait() {
    assert!(matches!(wait_process_exit(7, LIMIT, false, 0), Wait::Exited));
    assert!(matches!(wait_process_exit(7, LIMIT, false, LIMIT * 2), Wait::Exited));
}

#[test]
fn a_live_process_is_looked_at_again() {
    assert!(matches!(wait_process_exit(7, LIMIT, true, 0), Wait::Again { millis: 500 }));
    assert!(matches!(wait_process_exit(7, LIMIT, true, LIMIT), Wait::Again { millis: 500 }));
}

#[test]
fn the_wait_has_a_limit() {
    match wait_process_exit(4711, LIMIT, true, LIMIT + 1) {
        Wait::TimedOut { message } => {
            assert_eq!(message, "timed out waiting for pid 4711 to exit");
        }
        _ => panic!("waits on"),
    }
    assert_eq!(WAIT_LIMIT_SECS, 30);
    assert_eq!(POLL_MILLIS, 500);
}

#[test]
fn processes_are_looked_for_by_pid() {
    let unix = probe_command(Platform::Linux, 42);
    assert_eq!(unix.program, "ps");
    assert_eq!(unix.args, vec!["-p", "42"]);
    let mac = probe_command(Platform::MacOs, 1);
    assert_eq!(mac.program, "ps");
    let windows = probe_command(Platform::Windows, 42);
    assert_eq!(windows.program, "tasklist");
    assert_eq!(windows.args, vec!["/FI", "PID eq 42", "/NH", "/FO", "CSV"]);
}

fn ran(success: bool, output: &str) -> Look {
    Look::Ran { success, output: output.to_owned() }
}

#[test]
fn unix_goes_by_the_exit_status() {
    assert!(process_alive(Platform::Linux, &ran(true, "INFO: any")));
    assert!(!process_alive(Platform::Linux, &ran(false, "")));
    assert!(!process_alive(Platform::MacOs, &ran(false, "  PID TTY")));
}

#[test]
fn windows_goes_by_the_output() {
    let none = "INFO: No tasks are running which match the specified criteria.";
    assert!(!process_alive(Platform::Windows, &ran(true, none)));
    assert!(process_alive(Platform::Windows, &ran(true, "\"qomicex.exe\",\"42\"")));
    assert!(process_alive(Platform::Windows, &ran(false, "")));
}

#[test]
fn an_unknown_process_counts_as_alive() {
    assert!(process_alive(Platform::Windows, &Look::NotRun));
    assert!(process_alive(Platform::Linux, &Look::NotRun));
}

#[test]
fn a_wait_ends_with_the_first_look_that_settles_it() {
    let looks = [(true, 0), (true, LIMIT), (false, LIMIT + 5), (true, LIMIT * 2)];
    let mut ends = Vec::new();
    for (alive, elapsed) in looks {
        match wait_process_exit(1, LIMIT, alive, elapsed) {
            Wait::Again { .. } => {}
            Wait::Exited => ends.push("exited"),
            Wait::TimedOut { .. } => ends.push("timed out"),
        }
    }
    assert_eq!(ends, vec!["exited", "timed out"]);
}
