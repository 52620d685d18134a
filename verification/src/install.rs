//! Installing an update, strategy by strategy.
//!
//! An installation is a list of steps. Each step is a task that touches files
//! or runs a command; what a task is in detail, the modules for archives,
//! merges and elevation say.

use vstd::prelude::*;
use crate::args::{optional, Args, ArgsView};
use crate::carry::lies_right_in;
use crate::host::{Host, HostView, Platform};
use crate::path::{is_file_name, join, joined, opened, Style};
use crate::staging::{staging_of, staging_path};
use crate::text::{concat, decimal, decimal_text, lemma_decimal_between, same};

verus! {

/// Something to do in the course of an installation.
pub enum Task<S> {
    /// Create a directory and those above it. With `named`, a failure is
    /// reported with the directory's path.
    Create { dir: S, named: bool },
    /// Remove a directory with all that is in it. A failure means nothing.
    Discard { tree: S },
    /// Extract the package into a directory. With `dir_modes`, the directories in
    /// it get the permission bits that the package gives them; without, they stay
    /// as they are made, so that files can be moved out of them.
    Unpack { package: S, into: S, dir_modes: bool },
    /// Move all that is in one directory into another.
    Merge { from: S, into: S },
    /// Put the image in a directory in the place of a file, as an executable.
    Promote { from: S, onto: S },
    /// Copy all that is in one directory over another with elevated rights. With
    /// `sweep`, leftovers of downloads there are removed too.
    Elevate { from: S, onto: S, sweep: bool },
}

/// A task, and the directory to discard where it fails.
pub struct Step<S> {
    pub task: Task<S>,
    pub rescue: Option<S>,
}

impl View for Task<String> {
    type V = Task<Seq<char>>;

    open spec fn view(&self) -> Task<Seq<char>> {
        match self {
            Task::Create { dir, named } => Task::Create { dir: dir@, named: *named },
            Task::Discard { tree } => Task::Discard { tree: tree@ },
            Task::Unpack { package, into, dir_modes } => Task::Unpack {
                package: package@,
                into: into@,
                dir_modes: *dir_modes,
            },
            Task::Merge { from, into } => Task::Merge { from: from@, into: into@ },
            Task::Promote { from, onto } => Task::Promote { from: from@, onto: onto@ },
            Task::Elevate { from, onto, sweep } => Task::Elevate {
                from: from@,
                onto: onto@,
                sweep: *sweep,
            },
        }
    }
}

impl Clone for Task<String> {
    fn clone(&self) -> (r: Self)
        ensures
            r@ == self@,
    {
        match self {
            Task::Create { dir, named } => Task::Create { dir: dir.clone(), named: *named },
            Task::Discard { tree } => Task::Discard { tree: tree.clone() },
            Task::Unpack { package, into, dir_modes } => Task::Unpack {
                package: package.clone(),
                into: into.clone(),
                dir_modes: *dir_modes,
            },
            Task::Merge { from, into } => Task::Merge { from: from.clone(), into: into.clone() },
            Task::Promote { from, onto } => Task::Promote {
                from: from.clone(),
                onto: onto.clone(),
            },
            Task::Elevate { from, onto, sweep } => Task::Elevate {
                from: from.clone(),
                onto: onto.clone(),
                sweep: *sweep,
            },
        }
    }
}

impl View for Step<String> {
    type V = Step<Seq<char>>;

    open spec fn view(&self) -> Step<Seq<char>> {
        Step { task: self.task@, rescue: optional(self.rescue) }
    }
}

/// The steps as text.
pub open spec fn steps_view(steps: Seq<Step<String>>) -> Seq<Step<Seq<char>>> {
    steps.map_values(|step: Step<String>| step@)
}

/// A list of steps stands for a specified one.
pub open spec fn steps_match(
    r: Result<Vec<Step<String>>, String>,
    expected: Result<Seq<Step<Seq<char>>>, Seq<char>>,
) -> bool {
    match expected {
        Ok(steps) => r is Ok && steps_view(r->Ok_0@) == steps,
        Err(message) => r is Err && r->Err_0@ == message,
    }
}

pub open spec fn step(task: Task<Seq<char>>) -> Step<Seq<char>> {
    Step { task, rescue: None }
}

pub open spec fn rescued(task: Task<Seq<char>>, tree: Seq<char>) -> Step<Seq<char>> {
    Step { task, rescue: Some(tree) }
}

/// The steps of the `dir` strategy: the package is extracted next to the target
/// directory, and what it holds is moved into the target. The staging directory
/// is gone afterwards, also where extracting or moving fails.
pub open spec fn dir_steps(style: Style, package: Seq<char>, dir: Seq<char>) -> Seq<
    Step<Seq<char>>,
> {
    let staging = staging_of(style, dir, "dir"@);
    seq![
        step(Task::Create { dir, named: true }),
        step(Task::Discard { tree: staging }),
        step(Task::Create { dir: staging, named: false }),
        rescued(Task::Unpack { package, into: staging, dir_modes: false }, staging),
        rescued(Task::Merge { from: staging, into: dir }, staging),
        step(Task::Discard { tree: staging }),
    ]
}

/// The steps of the `appimage` strategy: the package is extracted next to the
/// target file, and the image in it takes the target's place. The staging
/// directory is gone afterwards, also where extracting or replacing fails.
pub open spec fn appimage_steps(style: Style, package: Seq<char>, target: Seq<char>) -> Seq<
    Step<Seq<char>>,
> {
    let staging = staging_of(style, target, "appimage"@);
    seq![
        step(Task::Discard { tree: staging }),
        step(Task::Create { dir: staging, named: false }),
        rescued(Task::Unpack { package, into: staging, dir_modes: false }, staging),
        rescued(Task::Promote { from: staging, onto: target }, staging),
        step(Task::Discard { tree: staging }),
    ]
}

/// The steps of an installation with elevated rights: the package is extracted
/// into a temporary directory, which the elevated copy removes. Where the copy
/// fails, the directory is discarded.
pub open spec fn elevated_steps(
    package: Seq<char>,
    staging: Seq<char>,
    dst: Seq<char>,
    sweep: bool,
) -> Seq<Step<Seq<char>>> {
    seq![
        step(Task::Discard { tree: staging }),
        step(Task::Create { dir: staging, named: false }),
        step(Task::Unpack { package, into: staging, dir_modes: true }),
        rescued(Task::Elevate { from: staging, onto: dst, sweep }, staging),
    ]
}

/// A directory for temporary files, under a name of its own for every process.
pub open spec fn temp_staging(host: HostView, label: Seq<char>) -> Seq<char> {
    joined(
        host.platform.path_style(),
        host.temp_dir,
        "qomicex-update-"@ + label + "-"@ + decimal(host.pid as nat),
    )
}

/// What the `dir` strategy does.
pub open spec fn dir_install(
    style: Style,
    package: Seq<char>,
    install_dir: Option<Seq<char>>,
) -> Result<Seq<Step<Seq<char>>>, Seq<char>> {
    match install_dir {
        Some(dir) => Ok(dir_steps(style, package, dir)),
        None => Err("--install-dir is required for the dir strategy"@),
    }
}

/// What the `appimage` strategy does.
pub open spec fn appimage_install(
    style: Style,
    package: Seq<char>,
    appimage: Option<Seq<char>>,
) -> Result<Seq<Step<Seq<char>>>, Seq<char>> {
    match appimage {
        Some(target) => Ok(appimage_steps(style, package, target)),
        None => Err("--appimage is required for the appimage strategy"@),
    }
}

/// What is known of the bundle that the `app` strategy installs into: whether it
/// is a directory, and whether the user may write to it.
#[derive(Clone, Copy, PartialEq, Eq, Structural, Debug)]
pub struct BundleFacts {
    pub is_dir: bool,
    pub writable: bool,
}

/// The file that is written into a directory, and removed again, to find out
/// whether the user may write there.
pub open spec fn probe_file(style: Style, dir: Seq<char>) -> Seq<char> {
    joined(style, dir, ".qomicex-update-probe"@)
}

/// The path of the file that shows whether the user may write to a directory.
pub fn probe_path(style: Style, dir: &str) -> (r: String)
    ensures
        r@ == probe_file(style, dir@),
{
    join(style, dir, ".qomicex-update-probe")
}

/// What the `app` strategy does. Rights are elevated only where the user may
/// not write to the bundle.
pub open spec fn app_install(
    host: HostView,
    package: Seq<char>,
    app_bundle: Option<Seq<char>>,
    facts: BundleFacts,
) -> Result<Seq<Step<Seq<char>>>, Seq<char>> {
    match app_bundle {
        Some(bundle) => if !facts.is_dir {
            Err("app bundle "@ + bundle + " not found"@)
        } else if facts.writable {
            Ok(dir_steps(host.platform.path_style(), package, bundle))
        } else {
            Ok(elevated_steps(package, temp_staging(host, "app"@), bundle, true))
        },
        None => Err("--app-bundle is required for the app strategy"@),
    }
}

/// What the `system` strategy does: the package is laid over the root directory.
/// Only Linux has it.
pub open spec fn system_install(host: HostView, package: Seq<char>) -> Result<
    Seq<Step<Seq<char>>>,
    Seq<char>,
> {
    if host.platform == Platform::Linux {
        Ok(elevated_steps(package, temp_staging(host, "system"@), "/"@, false))
    } else {
        Err("elevation not supported on this platform"@)
    }
}

fn make_dir_steps(style: Style, package: &str, dir: &str) -> (r: Vec<Step<String>>)
    ensures
        steps_view(r@) == dir_steps(style, package@, dir@),
{
    let staging = staging_path(style, dir, "dir");
    let steps = vec![
        Step { task: Task::Create { dir: dir.to_owned(), named: true }, rescue: None },
        Step { task: Task::Discard { tree: staging.clone() }, rescue: None },
        Step { task: Task::Create { dir: staging.clone(), named: false }, rescue: None },
        Step {
            task: Task::Unpack {
                package: package.to_owned(),
                into: staging.clone(),
                dir_modes: false,
            },
            rescue: Some(staging.clone()),
        },
        Step {
            task: Task::Merge { from: staging.clone(), into: dir.to_owned() },
            rescue: Some(staging.clone()),
        },
        Step { task: Task::Discard { tree: staging }, rescue: None },
    ];
    assert(steps_view(steps@) =~= dir_steps(style, package@, dir@));
    steps
}

/// Plans the `dir` strategy.
pub fn install_dir(style: Style, package: &str, dir: &Option<String>) -> (r: Result<
    Vec<Step<String>>,
    String,
>)
    ensures
        steps_match(r, dir_install(style, package@, optional(*dir))),
{
    match dir {
        Some(dir) => Ok(make_dir_steps(style, package, dir)),
        None => Err("--install-dir is required for the dir strategy".to_owned()),
    }
}

/// Plans the `appimage` strategy.
pub fn install_appimage(style: Style, package: &str, appimage: &Option<String>) -> (r: Result<
    Vec<Step<String>>,
    String,
>)
    ensures
        steps_match(r, appimage_install(style, package@, optional(*appimage))),
{
    let target = match appimage {
        Some(target) => target,
        None => {
            return Err("--appimage is required for the appimage strategy".to_owned());
        },
    };
    let staging = staging_path(style, target, "appimage");
    let steps = vec![
        Step { task: Task::Discard { tree: staging.clone() }, rescue: None },
        Step { task: Task::Create { dir: staging.clone(), named: false }, rescue: None },
        Step {
            task: Task::Unpack {
                package: package.to_owned(),
                into: staging.clone(),
                dir_modes: false,
            },
            rescue: Some(staging.clone()),
        },
        Step {
            task: Task::Promote { from: staging.clone(), onto: target.clone() },
            rescue: Some(staging.clone()),
        },
        Step { task: Task::Discard { tree: staging }, rescue: None },
    ];
    assert(steps_view(steps@) =~= appimage_steps(style, package@, target@));
    Ok(steps)
}

fn make_elevated_steps(package: &str, staging: String, dst: &str, sweep: bool) -> (r: Vec<
    Step<String>,
>)
    ensures
        steps_view(r@) == elevated_steps(package@, staging@, dst@, sweep),
{
    let steps = vec![
        Step { task: Task::Discard { tree: staging.clone() }, rescue: None },
        Step { task: Task::Create { dir: staging.clone(), named: false }, rescue: None },
        Step {
            task: Task::Unpack {
                package: package.to_owned(),
                into: staging.clone(),
                dir_modes: true,
            },
            rescue: None,
        },
        Step {
            task: Task::Elevate { from: staging.clone(), onto: dst.to_owned(), sweep },
            rescue: Some(staging),
        },
    ];
    assert(steps_view(steps@) =~= elevated_steps(package@, staging@, dst@, sweep));
    steps
}

fn temp_staging_path(host: &Host, label: &str) -> (r: String)
    ensures
        r@ == temp_staging(host@, label@),
{
    let mut name = concat("qomicex-update-", label);
    name.append("-");
    name.append(&decimal_text(host.pid as u64));
    join(host.platform.style(), &host.temp_dir, &name)
}

/// Plans the `app` strategy.
pub fn install_app(host: &Host, package: &str, app_bundle: &Option<String>, facts: BundleFacts) -> (r:
    Result<Vec<Step<String>>, String>)
    ensures
        steps_match(r, app_install(host@, package@, optional(*app_bundle), facts)),
{
    let bundle = match app_bundle {
        Some(bundle) => bundle,
        None => {
            return Err("--app-bundle is required for the app strategy".to_owned());
        },
    };
    if !facts.is_dir {
        let mut message = concat("app bundle ", bundle);
        message.append(" not found");
        return Err(message);
    }
    if facts.writable {
        return Ok(make_dir_steps(host.platform.style(), package, bundle));
    }
    Ok(make_elevated_steps(package, temp_staging_path(host, "app"), bundle, true))
}

/// Plans the `system` strategy.
pub fn install_system(host: &Host, package: &str) -> (r: Result<Vec<Step<String>>, String>)
    ensures
        steps_match(r, system_install(host@, package@)),
{
    if host.platform != Platform::Linux {
        return Err("elevation not supported on this platform".to_owned());
    }
    Ok(make_elevated_steps(package, temp_staging_path(host, "system"), "/", false))
}

/// What a strategy does.
#[verifier::opaque]
pub open spec fn installation(args: ArgsView, host: HostView, facts: BundleFacts) -> Result<
    Seq<Step<Seq<char>>>,
    Seq<char>,
> {
    let style = host.platform.path_style();
    if args.strategy == "dir"@ {
        dir_install(style, args.package, args.install_dir)
    } else if args.strategy == "appimage"@ {
        appimage_install(style, args.package, args.appimage)
    } else if args.strategy == "app"@ {
        app_install(host, args.package, args.app_bundle, facts)
    } else if args.strategy == "system"@ {
        system_install(host, args.package)
    } else {
        Err("unknown strategy: "@ + args.strategy)
    }
}

/// Plans what the strategy of the command line does. `facts` counts for the
/// `app` strategy only.
pub fn plan_installation(args: &Args, host: &Host, facts: BundleFacts) -> (r: Result<
    Vec<Step<String>>,
    String,
>)
    ensures
        steps_match(r, installation(args@, host@, facts)),
{
    proof {
        reveal(installation);
    }
    let style = host.platform.style();
    if same(&args.strategy, "dir") {
        install_dir(style, &args.package, &args.install_dir)
    } else if same(&args.strategy, "appimage") {
        install_appimage(style, &args.package, &args.appimage)
    } else if same(&args.strategy, "app") {
        install_app(host, &args.package, &args.app_bundle, facts)
    } else if same(&args.strategy, "system") {
        install_system(host, &args.package)
    } else {
        Err(concat("unknown strategy: ", &args.strategy))
    }
}

/// Every installation has a first step, and few of them.
pub proof fn lemma_steps_count(args: ArgsView, host: HostView, facts: BundleFacts)
    ensures
        installation(args, host, facts) is Ok ==> 0 < installation(
            args,
            host,
            facts,
        )->Ok_0.len() <= 6,
{
    reveal(installation);
}

/// The directory that the `dir` or `appimage` strategy extracts the package into.
pub open spec fn own_staging(args: ArgsView, host: HostView) -> Seq<char> {
    let style = host.platform.path_style();
    if args.strategy == "dir"@ {
        staging_of(style, args.install_dir->0, "dir"@)
    } else {
        staging_of(style, args.appimage->0, "appimage"@)
    }
}

/// Once the `dir` or `appimage` strategy has a staging directory, every step
/// discards it, itself or where it fails.
pub proof fn lemma_staging_discarded(args: ArgsView, host: HostView, facts: BundleFacts)
    requires
        args.strategy == "dir"@ || args.strategy == "appimage"@,
        installation(args, host, facts) is Ok,
    ensures
        ({
            let steps = installation(args, host, facts)->Ok_0;
            let tree = own_staging(args, host);
            &&& steps.len() > 0
            &&& steps.last().task == Task::Discard { tree }
            &&& forall|i: int|
                0 <= i < steps.len() ==> {
                    ||| (#[trigger] steps[i]).task is Create && steps[i].rescue is None
                    ||| steps[i].task == Task::Discard { tree }
                    ||| steps[i].rescue == Some(tree)
                }
        }),
{
    reveal(installation);
    reveal_strlit("dir");
    reveal_strlit("appimage");
}

/// The message of a task that failed with an error.
pub open spec fn task_failure(task: Task<Seq<char>>, error: Seq<char>) -> Seq<char> {
    match task {
        Task::Create { dir, named: true } => "cannot create "@ + dir + ": "@ + error,
        _ => error,
    }
}

/// The message of a task that failed with an error.
pub fn task_failure_text(task: &Task<String>, error: String) -> (r: String)
    ensures
        r@ == task_failure(task@, error@),
{
    match task {
        Task::Create { dir, named } => if *named {
            let mut message = concat("cannot create ", dir);
            message.append(": ");
            message.append(&error);
            message
        } else {
            error
        },
        _ => error,
    }
}

/// Updates that run at the same time, in different processes, extract into
/// different temporary directories.
pub proof fn law_temp_staging_of_its_own(a: HostView, b: HostView, label: Seq<char>)
    requires
        a.platform == b.platform,
        a.temp_dir == b.temp_dir,
        a.pid != b.pid,
    ensures
        temp_staging(a, label) != temp_staging(b, label),
{
    let front = opened(a.platform.path_style(), a.temp_dir) + "qomicex-update-"@ + label + "-"@;
    lemma_decimal_between(front, a.pid as nat, b.pid as nat, seq![]);
    assert(temp_staging(a, label) =~= front + decimal(a.pid as nat) + seq![]);
    assert(temp_staging(b, label) =~= front + decimal(b.pid as nat) + seq![]);
}

/// No two strategies have the same name.
pub proof fn lemma_names_differ()
    ensures
        "dir"@ != "appimage"@,
        "dir"@ != "app"@,
        "dir"@ != "system"@,
        "appimage"@ != "app"@,
        "appimage"@ != "system"@,
        "app"@ != "system"@,
{
    reveal_strlit("dir");
    reveal_strlit("appimage");
    reveal_strlit("app");
    reveal_strlit("system");
    assert("dir"@[0] == 'd' && "app"@[0] == 'a' && "system"@[0] == 's');
    assert("appimage"@[0] == 'a' && "appimage"@.len() == 8 && "app"@.len() == 3);
}

/// The file that is written to find out whether the user may write to a directory lies
/// right in that directory.
pub proof fn law_probe_lies_in_directory(style: Style, dir: Seq<char>)
    ensures
        lies_right_in(style, dir, probe_file(style, dir)),
{
    reveal_strlit(".qomicex-update-probe");
    let name = ".qomicex-update-probe"@;
    assert(name.len() > 2 && name[0] == '.');
    assert(is_file_name(style, name));
}

/// The message of a failure ends with the error. Only where the target directory could
/// not be created does it tell more: which directory that is.
pub proof fn law_failure_tells_the_error(task: Task<Seq<char>>, error: Seq<char>)
    ensures
        error.is_suffix_of(task_failure(task, error)),
        !(task is Create) ==> task_failure(task, error) == error,
        task matches Task::Create { dir, named } ==> if named {
            task_failure(task, error) == "cannot create "@ + dir + ": "@ + error
        } else {
            task_failure(task, error) == error
        },
{
    let message = task_failure(task, error);
    assert(message.subrange(message.len() - error.len(), message.len() as int) =~= error);
}

} // verus!
