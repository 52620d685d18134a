use qomicex_updater::args::{parse_args, Args};

fn read(words: &[&str]) -> Result<Args, String> {
    let mut argv = vec!["qomicex-updater".to_owned()];
    for word in words {
        argv.push((*word).to_owned());
    }
    parse_args(&argv)
}

fn fault(words: &[&str]) -> String {
    match read(words) {
        Ok(_) => panic!("accepted"),
        Err(message) => message,
    }
}

const MANDATORY: [&str; 6] = ["--package", "p.zip", "--signature", "p.sig", "--strategy", "dir"];

#[test]
fn every_option_is_read() {
    let args = read(&[
        "--package", "p.zip", "--signature", "s/p.sig", "--strategy", "app", "--install-dir",
        "/opt/q", "--appimage", "/home/q.AppImage", "--app-bundle", "/Applications/Q.app",
        "--wait-pid", "4711", "--launch", "/opt/q/bin/q",
    ]).unwrap();
    assert_eq!(args.package, "p.zip");
    assert_eq!(args.signature, "s/p.sig");
    assert_eq!(args.strategy, "app");
    assert_eq!(args.install_dir.as_deref(), Some("/opt/q"));
    assert_eq!(args.appimage.as_deref(), Some("/home/q.AppImage"));
    assert_eq!(args.app_bundle.as_deref(), Some("/Applications/Q.app"));
    assert_eq!(args.wait_pid, Some(4711));
    assert_eq!(args.launch.as_deref(), Some("/opt/q/bin/q"));
}

#[test]
fn options_may_be_left_out() {
    let args = read(&MANDATORY).unwrap();
    assert_eq!(args.install_dir, None);
    assert_eq!(args.appimage, None);
    assert_eq!(args.app_bundle, None);
    assert_eq!(args.wait_pid, None);
    assert_eq!(args.launch, None);
}

#[test]
fn mandatory_options_are_asked_for_in_order() {
    assert_eq!(fault(&[]), "missing --package");
    assert_eq!(fault(&["--strategy", "dir"]), "missing --package");
    assert_eq!(fault(&["--package", "p"]), "missing --signature");
    assert_eq!(fault(&["--package", "p", "--signature", "s"]), "missing --strategy");
    assert_eq!(parse_args(&Vec::new()).err().unwrap(), "missing --package");
}

#[test]
fn unknown_words_are_refused() {
    assert_eq!(fault(&["--version"]), "unknown argument: --version");
    assert_eq!(fault(&["p.zip"]), "unknown argument: p.zip");
    assert_eq!(fault(&["--Package", "p"]), "unknown argument: --Package");
    assert_eq!(fault(&[""]), "unknown argument: ");
}

#[test]
fn values_are_asked_for() {
    assert_eq!(fault(&["--package"]), "missing value for --package");
    assert_eq!(fault(&["--package", "p", "--wait-pid"]), "missing value for --wait-pid");
    assert_eq!(fault(&["--install-dir"]), "missing value for --install-dir");
}

#[test]
fn a_pid_is_a_number() {
    assert_eq!(fault(&["--wait-pid", "launcher"]), "--wait-pid expects a pid");
    assert_eq!(fault(&["--wait-pid", "-1"]), "--wait-pid expects a pid");
    assert_eq!(fault(&["--wait-pid", "4294967296"]), "--wait-pid expects a pid");
    assert_eq!(fault(&["--wait-pid", ""]), "--wait-pid expects a pid");
}

#[test]
fn the_first_fault_is_reported() {
    assert_eq!(fault(&["--wait-pid", "x", "--nope"]), "--wait-pid expects a pid");
    assert_eq!(fault(&["--nope", "--wait-pid", "x"]), "unknown argument: --nope");
}

#[test]
fn an_option_may_be_the_value_of_another() {
    let args = read(&["--package", "--signature", "--signature", "s", "--strategy", "x"]).unwrap();
    assert_eq!(args.package, "--signature");
    assert_eq!(args.signature, "s");
    assert_eq!(args.strategy, "x");
}

#[test]
fn the_last_value_counts() {
    let mut words = MANDATORY.to_vec();
    words.extend(["--strategy", "system", "--wait-pid", "1", "--wait-pid", "2"]);
    let args = read(&words).unwrap();
    assert_eq!(args.strategy, "system");
    assert_eq!(args.wait_pid, Some(2));
    assert_eq!(args.package, "p.zip");
}

#[test]
fn the_order_of_options_is_free() {
    let one = read(&MANDATORY).unwrap();
    let other = read(&["--strategy", "dir", "--package", "p.zip", "--signature", "p.sig"]).unwrap();
    assert_eq!(one.package, other.package);
    assert_eq!(one.signature, other.signature);
    assert_eq!(one.strategy, other.strategy);
}
