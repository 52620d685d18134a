//! The course of an update.
//!
//! The updater is a machine: it asks for one action after the other, and goes
//! on by what came of each. It verifies the package, waits for the launcher to
//! exit, installs the package, starts the launcher again, and exits.

use vstd::prelude::*;
use crate::args::{optional, options_of, parse_args, texts, words_of, Args, ArgsView};
use crate::carry::lies_right_in;
use crate::host::{Host, HostView};
use crate::install::{
    installation, lemma_steps_count, plan_installation, steps_view, task_failure, task_failure_text,
    BundleFacts, Step, Task,
};
use crate::path::{
    is_file_name, is_separator, join, joined, opened, parent, parent_of, Style,
};
use crate::text::{
    all_digits, concat, decimal, decimal_text, digits_value, is_digit, lemma_decimal,
    lemma_decimal_between, lemma_decimal_read, same, signed_decimal, signed_decimal_text, u32_of,
};
use crate::wait::WAIT_LIMIT_SECS;

verus! {

/// Everything went well.
pub const EXIT_OK: i32 = 0;

/// The command line is wrong.
pub const EXIT_USAGE: i32 = 1;

/// Files could not be read or written, or the launcher could not be started.
pub const EXIT_IO: i32 = 2;

/// The package is not the one that was signed.
pub const EXIT_SIGNATURE: i32 = 3;

/// The strategy failed: it is unknown, what it needs is missing, or a step failed
/// of one that may elevate rights.
pub const EXIT_STRATEGY: i32 = 4;

/// The launcher did not exit in time.
pub const EXIT_TIMEOUT: i32 = 5;

/// What the updater asks for.
pub enum Action<S> {
    /// Verify the package.
    Verify { package: S, signature: S },
    /// Wait for a process to exit.
    Wait { pid: u32, limit_secs: u64 },
    /// Find out what the bundle of the `app` strategy is.
    Inspect { bundle: S },
    /// Perform a task of the installation.
    Perform { task: Task<S> },
    /// Start the launcher.
    Launch { exe: S },
    /// End the process.
    Exit { code: i32 },
}

/// What came of an action.
pub enum Outcome<S> {
    Done,
    Failed { error: S },
    /// What was found out of a bundle.
    Bundle { facts: BundleFacts },
}

/// What the updater does at one time: lines to log, and then an action.
pub struct Turn {
    pub log: Vec<String>,
    pub action: Action<String>,
}

/// What [`Turn`] holds, as text.
#[verifier::ext_equal]
pub struct TurnView {
    pub log: Seq<Seq<char>>,
    pub action: Action<Seq<char>>,
}

impl View for Action<String> {
    type V = Action<Seq<char>>;

    open spec fn view(&self) -> Action<Seq<char>> {
        match self {
            Action::Verify { package, signature } => Action::Verify {
                package: package@,
                signature: signature@,
            },
            Action::Wait { pid, limit_secs } => Action::Wait {
                pid: *pid,
                limit_secs: *limit_secs,
            },
            Action::Inspect { bundle } => Action::Inspect { bundle: bundle@ },
            Action::Perform { task } => Action::Perform { task: task@ },
            Action::Launch { exe } => Action::Launch { exe: exe@ },
            Action::Exit { code } => Action::Exit { code: *code },
        }
    }
}

impl View for Outcome<String> {
    type V = Outcome<Seq<char>>;

    open spec fn view(&self) -> Outcome<Seq<char>> {
        match self {
            Outcome::Done => Outcome::Done,
            Outcome::Failed { error } => Outcome::Failed { error: error@ },
            Outcome::Bundle { facts } => Outcome::Bundle { facts: *facts },
        }
    }
}

impl View for Turn {
    type V = TurnView;

    open spec fn view(&self) -> TurnView {
        TurnView { log: texts(self.log@), action: self.action@ }
    }
}

/// How far the updater has come: the action that it waits for.
#[derive(Clone, Copy, PartialEq, Eq, Structural, Debug)]
pub enum Phase {
    Verifying,
    Waiting,
    Inspecting,
    /// Performing the step at this position.
    Installing { at: usize },
    /// Discarding the staging directory of a failed step.
    Rescuing,
    Launching,
    Finished { code: i32 },
}

/// An update in its course.
pub struct Updater {
    args: Args,
    host: Host,
    phase: Phase,
    /// The steps of the installation, once it has begun.
    steps: Vec<Step<String>>,
    /// Why the installation failed, while it is being cleaned up after.
    failure: String,
}

/// What [`Updater`] holds, as text.
#[verifier::ext_equal]
pub struct UpdaterView {
    pub args: ArgsView,
    pub host: HostView,
    pub phase: Phase,
    pub steps: Seq<Step<Seq<char>>>,
    pub failure: Seq<char>,
}

impl View for Updater {
    type V = UpdaterView;

    closed spec fn view(&self) -> UpdaterView {
        UpdaterView {
            args: self.args@,
            host: self.host@,
            phase: self.phase,
            steps: steps_view(self.steps@),
            failure: self.failure@,
        }
    }
}

impl UpdaterView {
    /// While a step is performed, there is such a step.
    pub open spec fn is_valid(self) -> bool {
        match self.phase {
            Phase::Installing { at } => at < self.steps.len(),
            _ => true,
        }
    }

    pub open spec fn in_phase(self, phase: Phase) -> UpdaterView {
        UpdaterView { phase, ..self }
    }

    /// The updater ends with an exit code.
    pub open spec fn ending(self, log: Seq<Seq<char>>, code: i32) -> (UpdaterView, TurnView) {
        (self.in_phase(Phase::Finished { code }), TurnView { log, action: Action::Exit { code } })
    }

    /// There is nothing to install by: the strategy is unknown, or what it needs is
    /// missing. No file has been touched.
    pub open spec fn refusing(self, log: Seq<Seq<char>>, message: Seq<char>) -> (
        UpdaterView,
        TurnView,
    ) {
        self.ending(log.push("install failed: "@ + message), EXIT_STRATEGY)
    }

    /// A step of the installation has failed.
    pub open spec fn failing(self, log: Seq<Seq<char>>, message: Seq<char>) -> (
        UpdaterView,
        TurnView,
    ) {
        let code = if self.args.strategy == "system"@ || self.args.strategy == "app"@ {
            EXIT_STRATEGY
        } else {
            EXIT_IO
        };
        self.ending(log.push("install failed: "@ + message), code)
    }

    /// The installation begins.
    pub open spec fn installing(self, log: Seq<Seq<char>>, facts: BundleFacts) -> (
        UpdaterView,
        TurnView,
    ) {
        match installation(self.args, self.host, facts) {
            Ok(steps) => (
                UpdaterView { phase: Phase::Installing { at: 0 }, steps, ..self },
                TurnView { log, action: Action::Perform { task: steps[0].task } },
            ),
            Err(message) => self.refusing(log, message),
        }
    }

    /// Files may be touched from here on. What the `app` strategy does depends
    /// on the bundle.
    pub open spec fn beginning(self, log: Seq<Seq<char>>) -> (UpdaterView, TurnView) {
        if self.args.strategy == "app"@ && self.args.app_bundle is Some {
            (
                self.in_phase(Phase::Inspecting),
                TurnView { log, action: Action::Inspect { bundle: self.args.app_bundle->0 } },
            )
        } else {
            self.installing(log, BundleFacts { is_dir: false, writable: false })
        }
    }

    /// The package is installed.
    pub open spec fn installed(self) -> (UpdaterView, TurnView) {
        match self.args.launch {
            Some(exe) => (
                self.in_phase(Phase::Launching),
                TurnView {
                    log: seq!["install ok"@, "launching "@ + exe],
                    action: Action::Launch { exe },
                },
            ),
            None => self.ending(seq!["install ok"@, "done"@], EXIT_OK),
        }
    }

    /// What the updater does next, and what it is then, by what came of the
    /// action that it asked for.
    pub open spec fn next(self, outcome: Outcome<Seq<char>>) -> (UpdaterView, TurnView) {
        match self.phase {
            Phase::Verifying => match outcome {
                Outcome::Failed { error } => self.ending(
                    seq!["verify failed: "@ + error],
                    EXIT_SIGNATURE,
                ),
                _ => match self.args.wait_pid {
                    Some(pid) => (
                        self.in_phase(Phase::Waiting),
                        TurnView {
                            log: seq![
                                "verify ok"@,
                                "waiting for pid "@ + decimal(pid as nat) + " (max "@ + decimal(
                                    WAIT_LIMIT_SECS as nat,
                                ) + "s)"@,
                            ],
                            action: Action::Wait { pid, limit_secs: WAIT_LIMIT_SECS },
                        },
                    ),
                    None => self.beginning(seq!["verify ok"@]),
                },
            },
            Phase::Waiting => match outcome {
                Outcome::Failed { error } => self.ending(
                    seq!["wait failed: "@ + error],
                    EXIT_TIMEOUT,
                ),
                _ => self.beginning(seq!["target exited"@]),
            },
            Phase::Inspecting => match outcome {
                Outcome::Bundle { facts } => self.installing(seq![], facts),
                _ => self.installing(seq![], BundleFacts { is_dir: false, writable: false }),
            },
            Phase::Installing { at } => {
                let step = self.steps[at as int];
                match outcome {
                    Outcome::Failed { error } if !(step.task is Discard) => {
                        let message = task_failure(step.task, error);
                        match step.rescue {
                            Some(tree) => (
                                UpdaterView { phase: Phase::Rescuing, failure: message, ..self },
                                TurnView {
                                    log: seq![],
                                    action: Action::Perform { task: Task::Discard { tree } },
                                },
                            ),
                            None => self.failing(seq![], message),
                        }
                    },
                    _ => if at < self.steps.len() - 1 {
                        (
                            self.in_phase(Phase::Installing { at: (at + 1) as usize }),
                            TurnView {
                                log: seq![],
                                action: Action::Perform { task: self.steps[at + 1].task },
                            },
                        )
                    } else {
                        self.installed()
                    },
                }
            },
            Phase::Rescuing => self.failing(seq![], self.failure),
            Phase::Launching => match outcome {
                Outcome::Failed { error } => self.ending(
                    seq!["relaunch failed: "@ + error],
                    EXIT_IO,
                ),
                _ => self.ending(seq!["done"@], EXIT_OK),
            },
            Phase::Finished { code } => self.ending(seq![], code),
        }
    }
}

/// The line that the log starts with.
pub open spec fn start_line(args: ArgsView, pid: u32) -> Seq<char> {
    "start pid="@ + decimal(pid as nat) + " package="@ + args.package + " strategy="@
        + args.strategy
}

/// What is printed where the command line is wrong.
pub open spec fn usage(message: Seq<char>) -> Seq<char> {
    message
        + "\n\nusage: qomicex-updater --package <zip> --signature <file> --strategy <dir|appimage|app|system> [--install-dir <path>] [--appimage <path>] [--app-bundle <path>] [--wait-pid <pid>] [--launch <exe>]"@
}

/// The log file: next to the signature, under a name of its own for every
/// process. Where the signature's path has no parent, being empty or a root, the
/// log goes to the temporary files.
pub open spec fn log_file(style: Style, signature: Seq<char>, temp_dir: Seq<char>, pid: u32) -> Seq<
    char,
> {
    let dir = match parent_of(style, signature) {
        Some(dir) => dir,
        None => temp_dir,
    };
    joined(style, dir, "qomicex-updater-"@ + decimal(pid as nat) + ".log"@)
}

/// A line of the log file.
pub open spec fn log_entry(secs: u64, message: Seq<char>) -> Seq<char> {
    "["@ + decimal(secs as nat) + "] "@ + message + "\n"@
}

/// How an update begins.
pub open spec fn started(args: ArgsView, host: HostView) -> (UpdaterView, TurnView) {
    (
        UpdaterView { args, host, phase: Phase::Verifying, steps: seq![], failure: seq![] },
        TurnView {
            log: seq![start_line(args, host.pid)],
            action: Action::Verify { package: args.package, signature: args.signature },
        },
    )
}

/// The path of the log file.
pub fn log_path(style: Style, signature: &str, temp_dir: &str, pid: u32) -> (r: String)
    ensures
        r@ == log_file(style, signature@, temp_dir@, pid),
{
    let mut name = concat("qomicex-updater-", &decimal_text(pid as u64));
    name.append(".log");
    match parent(style, signature) {
        Some(dir) => join(style, &dir, &name),
        None => join(style, temp_dir, &name),
    }
}

/// The line of the log file for a message, logged at a number of seconds since
/// the Unix epoch.
pub fn ulog(secs: u64, msg: &str) -> (r: String)
    ensures
        r@ == log_entry(secs, msg@),
{
    let mut line = concat("[", &decimal_text(secs));
    line.append("] ");
    line.append(msg);
    line.append("\n");
    line
}

/// What is printed at the end of a run, if anything: a run that failed says so.
pub open spec fn farewell(code: i32) -> Option<Seq<char>> {
    if code == 0 {
        None
    } else {
        Some(
            "qomicex-updater failed with exit code "@ + signed_decimal(code as int),
        )
    }
}

/// What is printed at the end of a run, if anything.
pub fn exit_notice(code: i32) -> (r: Option<String>)
    ensures
        optional(r) == farewell(code),
{
    if code == 0 {
        None
    } else {
        Some(
            concat(
                "qomicex-updater failed with exit code ",
                &signed_decimal_text(code),
            ),
        )
    }
}

/// The environment variables that the launcher is started without: they would
/// keep it from starting its own backend, and from using its own updater.
pub open spec fn dropped_variables() -> Seq<Seq<char>> {
    seq!["QOMICEX_LAUNCHER_MANAGED"@, "QOMICEX_UPDATER_PATH"@]
}

/// The environment variables that the launcher is started without.
pub fn scrubbed_env() -> (r: Vec<String>)
    ensures
        texts(r@) == dropped_variables(),
{
    let r = vec!["QOMICEX_LAUNCHER_MANAGED".to_owned(), "QOMICEX_UPDATER_PATH".to_owned()];
    assert(texts(r@) =~= dropped_variables());
    r
}

impl Turn {
    fn new(log: Vec<String>, action: Action<String>) -> (r: Turn)
        ensures
            r@ == (TurnView { log: texts(log@), action: action@ }),
    {
        Turn { log, action }
    }
}

impl Updater {
    #[verifier::type_invariant]
    spec fn has_current_step(self) -> bool {
        self@.is_valid()
    }

    /// Begins an update with the command line `argv`, whose first word is the
    /// program's name. Where the command line is wrong, there is a message to
    /// print, and the process is to exit with [`EXIT_USAGE`].
    pub fn start(argv: &Vec<String>, host: Host) -> (r: Result<(Updater, Turn), String>)
        ensures
            match options_of(words_of(texts(argv@))) {
                Ok(args) => r is Ok && (r->Ok_0.0@, r->Ok_0.1@) == started(args, host@),
                Err(message) => r is Err && r->Err_0@ == usage(message),
            },
    {
        match parse_args(argv) {
            Err(message) => Err(
                concat(
                    &message,
                    "\n\nusage: qomicex-updater --package <zip> --signature <file> --strategy <dir|appimage|app|system> [--install-dir <path>] [--appimage <path>] [--app-bundle <path>] [--wait-pid <pid>] [--launch <exe>]",
                ),
            ),
            Ok(args) => {
                let mut line = concat("start pid=", &decimal_text(host.pid as u64));
                line.append(" package=");
                line.append(&args.package);
                line.append(" strategy=");
                line.append(&args.strategy);
                let action = Action::Verify {
                    package: args.package.clone(),
                    signature: args.signature.clone(),
                };
                let updater = Updater {
                    args,
                    host,
                    phase: Phase::Verifying,
                    steps: Vec::new(),
                    failure: String::new(),
                };
                let log = vec![line];
                assert(texts(log@) =~= seq![line@]);
                assert(updater@.steps =~= seq![]);
                Ok((updater, Turn::new(log, action)))
            },
        }
    }

    /// The path of the log file of this update.
    pub fn log_path(&self) -> (r: String)
        ensures
            r@ == log_file(
                self@.host.platform.path_style(),
                self@.args.signature,
                self@.host.temp_dir,
                self@.host.pid,
            ),
    {
        log_path(
            self.host.platform.style(),
            &self.args.signature,
            &self.host.temp_dir,
            self.host.pid,
        )
    }

    fn end(&mut self, log: Vec<String>, code: i32) -> (r: Turn)
        ensures
            (final(self)@, r@) == old(self)@.ending(texts(log@), code),
    {
        self.phase = Phase::Finished { code };
        Turn::new(log, Action::Exit { code })
    }

    fn fail(&mut self, log: Vec<String>, message: &str) -> (r: Turn)
        ensures
            (final(self)@, r@) == old(self)@.failing(texts(log@), message@),
    {
        let code: i32 = if same(&self.args.strategy, "system") || same(&self.args.strategy, "app") {
            EXIT_STRATEGY
        } else {
            EXIT_IO
        };
        self.end(with_failure(log, message), code)
    }

    fn refuse(&mut self, log: Vec<String>, message: &str) -> (r: Turn)
        ensures
            (final(self)@, r@) == old(self)@.refusing(texts(log@), message@),
    {
        self.end(with_failure(log, message), EXIT_STRATEGY)
    }

    fn install(&mut self, log: Vec<String>, facts: BundleFacts) -> (r: Turn)
        requires
            !(old(self)@.phase is Installing),
        ensures
            (final(self)@, r@) == old(self)@.installing(texts(log@), facts),
    {
        match plan_installation(&self.args, &self.host, facts) {
            Ok(steps) => {
                proof {
                    lemma_steps_count(self.args@, self.host@, facts);
                }
                let task = steps[0].task.clone();
                self.steps = steps;
                self.phase = Phase::Installing { at: 0 };
                Turn::new(log, Action::Perform { task })
            },
            Err(message) => self.refuse(log, &message),
        }
    }

    fn begin(&mut self, log: Vec<String>) -> (r: Turn)
        requires
            !(old(self)@.phase is Installing),
        ensures
            (final(self)@, r@) == old(self)@.beginning(texts(log@)),
    {
        if same(&self.args.strategy, "app") {
            if let Some(bundle) = &self.args.app_bundle {
                let bundle = bundle.clone();
                self.phase = Phase::Inspecting;
                return Turn::new(log, Action::Inspect { bundle });
            }
        }
        self.install(log, BundleFacts { is_dir: false, writable: false })
    }

    fn finish_install(&mut self) -> (r: Turn)
        ensures
            (final(self)@, r@) == old(self)@.installed(),
    {
        match &self.args.launch {
            Some(exe) => {
                let exe = exe.clone();
                let line = concat("launching ", &exe);
                self.phase = Phase::Launching;
                let log = vec!["install ok".to_owned(), line];
                assert(texts(log@) =~= seq!["install ok"@, line@]);
                Turn::new(log, Action::Launch { exe })
            },
            None => {
                let log = vec!["install ok".to_owned(), "done".to_owned()];
                assert(texts(log@) =~= seq!["install ok"@, "done"@]);
                self.end(log, EXIT_OK)
            },
        }
    }

    /// Goes on by what came of the action that was last asked for.
    pub fn advance(&mut self, outcome: Outcome<String>) -> (r: Turn)
        ensures
            (final(self)@, r@) == old(self)@.next(outcome@),
    {
        proof {
            use_type_invariant(&*self);
        }
        match self.phase {
            Phase::Verifying => self.after_verify(outcome),
            Phase::Waiting => match outcome {
                Outcome::Failed { error } => self.end(
                    one_line(concat("wait failed: ", &error)),
                    EXIT_TIMEOUT,
                ),
                _ => self.begin(one_line("target exited".to_owned())),
            },
            Phase::Inspecting => {
                let facts = match outcome {
                    Outcome::Bundle { facts } => facts,
                    _ => BundleFacts { is_dir: false, writable: false },
                };
                self.install(no_lines(), facts)
            },
            Phase::Installing { at } => self.after_step(at, outcome),
            Phase::Rescuing => {
                let message = self.failure.clone();
                self.fail(no_lines(), &message)
            },
            Phase::Launching => match outcome {
                Outcome::Failed { error } => self.end(
                    one_line(concat("relaunch failed: ", &error)),
                    EXIT_IO,
                ),
                _ => self.end(one_line("done".to_owned()), EXIT_OK),
            },
            Phase::Finished { code } => self.end(no_lines(), code),
        }
    }

    fn after_verify(&mut self, outcome: Outcome<String>) -> (r: Turn)
        requires
            old(self)@.phase == Phase::Verifying,
        ensures
            (final(self)@, r@) == old(self)@.next(outcome@),
    {
        if let Outcome::Failed { error } = outcome {
            return self.end(one_line(concat("verify failed: ", &error)), EXIT_SIGNATURE);
        }
        match self.args.wait_pid {
            Some(pid) => {
                let mut line = concat("waiting for pid ", &decimal_text(pid as u64));
                line.append(" (max ");
                line.append(&decimal_text(WAIT_LIMIT_SECS));
                line.append("s)");
                self.phase = Phase::Waiting;
                let log = vec!["verify ok".to_owned(), line];
                assert(texts(log@) =~= seq!["verify ok"@, line@]);
                Turn::new(log, Action::Wait { pid, limit_secs: WAIT_LIMIT_SECS })
            },
            None => self.begin(one_line("verify ok".to_owned())),
        }
    }

    fn after_step(&mut self, at: usize, outcome: Outcome<String>) -> (r: Turn)
        requires
            old(self)@.phase == (Phase::Installing { at }),
            at < old(self)@.steps.len(),
        ensures
            (final(self)@, r@) == old(self)@.next(outcome@),
    {
        let is_discard = match &self.steps[at].task {
            Task::Discard { .. } => true,
            _ => false,
        };
        match outcome {
            Outcome::Failed { error } if !is_discard => {
                let message = task_failure_text(&self.steps[at].task, error);
                match &self.steps[at].rescue {
                    Some(tree) => {
                        let tree = tree.clone();
                        self.phase = Phase::Rescuing;
                        self.failure = message;
                        Turn::new(no_lines(), Action::Perform { task: Task::Discard { tree } })
                    },
                    None => self.fail(no_lines(), &message),
                }
            },
            _ => if at < self.steps.len() - 1 {
                let task = self.steps[at + 1].task.clone();
                self.phase = Phase::Installing { at: at + 1 };
                Turn::new(no_lines(), Action::Perform { task })
            } else {
                self.finish_install()
            },
        }
    }
}

fn no_lines() -> (r: Vec<String>)
    ensures
        texts(r@) == Seq::<Seq<char>>::empty(),
{
    let r: Vec<String> = Vec::new();
    assert(texts(r@) =~= Seq::<Seq<char>>::empty());
    r
}

fn with_failure(log: Vec<String>, message: &str) -> (r: Vec<String>)
    ensures
        texts(r@) == texts(log@).push("install failed: "@ + message@),
{
    let ghost before = texts(log@);
    let mut log = log;
    let line = concat("install failed: ", message);
    log.push(line);
    assert(texts(log@) =~= before.push(line@));
    log
}

fn one_line(line: String) -> (r: Vec<String>)
    ensures
        texts(r@) == seq![line@],
{
    let r = vec![line];
    assert(texts(r@) =~= seq![line@]);
    r
}

/// Updates that run at the same time, in different processes, have different log
/// files.
pub proof fn law_log_of_its_own(
    style: Style,
    signature: Seq<char>,
    temp_dir: Seq<char>,
    a: u32,
    b: u32,
)
    requires
        a != b,
    ensures
        log_file(style, signature, temp_dir, a) != log_file(style, signature, temp_dir, b),
{
    let dir = match parent_of(style, signature) {
        Some(dir) => dir,
        None => temp_dir,
    };
    let front = opened(style, dir) + "qomicex-updater-"@;
    lemma_decimal_between(front, a as nat, b as nat, ".log"@);
    assert(log_file(style, signature, temp_dir, a) =~= front + decimal(a as nat) + ".log"@);
    assert(log_file(style, signature, temp_dir, b) =~= front + decimal(b as nat) + ".log"@);
}

/// The log file lies right in the directory of the signature, where the signature has
/// one, and otherwise right in the directory for temporary files.
pub proof fn law_log_next_to_signature(
    style: Style,
    signature: Seq<char>,
    temp_dir: Seq<char>,
    pid: u32,
)
    ensures
        parent_of(style, signature) matches Some(dir) ==> lies_right_in(
            style,
            dir,
            log_file(style, signature, temp_dir, pid),
        ),
        parent_of(style, signature) is None ==> lies_right_in(
            style,
            temp_dir,
            log_file(style, signature, temp_dir, pid),
        ),
{
    let name = "qomicex-updater-"@ + decimal(pid as nat) + ".log"@;
    reveal_strlit("qomicex-updater-");
    reveal_strlit(".log");
    lemma_decimal(pid as nat);
    let digits = decimal(pid as nat);
    let front = "qomicex-updater-"@;
    assert(name.len() > 2 && name[0] == 'q' && name[1] == 'o');
    assert forall|i: int| 0 <= i < name.len() implies !is_separator(style, #[trigger] name[i]) by {
        if i < front.len() {
            assert(name[i] == front[i]);
        } else if i < front.len() + digits.len() {
            assert(name[i] == digits[i - front.len()]);
            assert(is_digit(digits[i - front.len()]));
        } else {
            assert(name[i] == ".log"@[i - front.len() - digits.len()]);
        }
    }
    assert(is_file_name(style, name));
}

/// A message is one line of the log file, behind the time: what the line holds after
/// `[`, the seconds and `] `, and before the line feed at its end, is the message.
pub proof fn law_log_entry(secs: u64, message: Seq<char>)
    ensures
        exists|digits: Seq<char>|
            log_entry(secs, message) == "["@ + digits + "] "@ + message + "\n"@ && all_digits(digits)
                && #[trigger] digits_value(digits) == secs,
        log_entry(secs, message).last() == '\n',
{
    reveal_strlit("\n");
    lemma_decimal(secs as nat);
    assert(digits_value(decimal(secs as nat)) == secs);
}

/// Only a run that failed says something at its end: the code it failed with.
pub proof fn law_farewell(code: i32)
    ensures
        farewell(code) is None <==> code == 0,
        code > 0 ==> exists|digits: Seq<char>|
            farewell(code) == Some("qomicex-updater failed with exit code "@ + digits)
                && #[trigger] u32_of(digits) == Some(code as u32),
{
    if code > 0 {
        lemma_decimal_read(code as u32);
        assert(u32_of(decimal(code as nat)) == Some(code as u32));
    }
}

/// What is printed where the command line is wrong starts with what is wrong, and goes
/// on with how the command is used, the same for every fault.
pub proof fn law_usage(a: Seq<char>, b: Seq<char>)
    ensures
        a.is_prefix_of(usage(a)),
        usage(a).skip(a.len() as int) == usage(b).skip(b.len() as int),
        "\n\nusage: "@.is_prefix_of(usage(a).skip(a.len() as int)),
{
    let rest = usage(seq![]);
    assert(usage(a).subrange(0, a.len() as int) =~= a);
    assert(usage(a).skip(a.len() as int) =~= rest);
    assert(usage(b).skip(b.len() as int) =~= rest);
    reveal_strlit("\n\nusage: ");
    reveal_strlit(
        "\n\nusage: qomicex-updater --package <zip> --signature <file> --strategy <dir|appimage|app|system> [--install-dir <path>] [--appimage <path>] [--app-bundle <path>] [--wait-pid <pid>] [--launch <exe>]",
    );
    assert(rest.subrange(0, "\n\nusage: "@.len() as int) =~= "\n\nusage: "@);
}

} // verus!
