//! What holds of the whole course of an update, whatever comes of its actions.

use vstd::prelude::*;
use crate::args::ArgsView;
use crate::host::HostView;
use crate::install::{
    installation, lemma_staging_discarded, lemma_steps_count, own_staging, task_failure,
    BundleFacts, Step, Task,
};
use crate::run::{
    started, Action, Outcome, Phase, TurnView, UpdaterView, EXIT_IO, EXIT_OK, EXIT_SIGNATURE,
    EXIT_STRATEGY, EXIT_TIMEOUT,
};
use crate::text::decimal;
use crate::wait::WAIT_LIMIT_SECS;

verus! {

/// The updater and its last turn, once its actions have had these outcomes.
pub open spec fn course(args: ArgsView, host: HostView, outcomes: Seq<Outcome<Seq<char>>>) -> (
    UpdaterView,
    TurnView,
)
    decreases outcomes.len(),
{
    if outcomes.len() == 0 {
        started(args, host)
    } else {
        course(args, host, outcomes.drop_last()).0.next(outcomes.last())
    }
}

/// The action that the updater asks for, once its actions have had these
/// outcomes.
pub open spec fn asked(
    args: ArgsView,
    host: HostView,
    outcomes: Seq<Outcome<Seq<char>>>,
) -> Action<Seq<char>> {
    course(args, host, outcomes).1.action
}

/// An action has had a good outcome.
pub open spec fn went_well(outcomes: Seq<Outcome<Seq<char>>>, i: int) -> bool {
    i < outcomes.len() && !(outcomes[i] is Failed)
}

/// How many waits there are: one, where there is a process to wait for.
pub open spec fn waits(args: ArgsView) -> nat {
    if args.wait_pid is Some {
        1
    } else {
        0
    }
}

/// How many inspections there are: one, where the `app` strategy has a bundle.
pub open spec fn inspects(args: ArgsView) -> nat {
    if args.strategy == "app"@ && args.app_bundle is Some {
        1
    } else {
        0
    }
}

/// The number of outcomes before that of the first step.
pub open spec fn lead(args: ArgsView) -> nat {
    1 + waits(args) + inspects(args)
}

/// The package was verified, and the launcher has exited, if there is one to
/// wait for.
pub open spec fn is_cleared(args: ArgsView, outcomes: Seq<Outcome<Seq<char>>>) -> bool {
    went_well(outcomes, 0) && (args.wait_pid is Some ==> went_well(outcomes, 1))
}

/// What was found out of the bundle.
pub open spec fn facts_found(args: ArgsView, outcomes: Seq<Outcome<Seq<char>>>) -> BundleFacts {
    let i = lead(args) - 1;
    if inspects(args) == 1 {
        match outcomes[i] {
            Outcome::Bundle { facts } => facts,
            _ => BundleFacts { is_dir: false, writable: false },
        }
    } else {
        BundleFacts { is_dir: false, writable: false }
    }
}

/// The steps of the installation, or why there is none.
pub open spec fn planned(
    args: ArgsView,
    host: HostView,
    outcomes: Seq<Outcome<Seq<char>>>,
) -> Result<Seq<Step<Seq<char>>>, Seq<char>> {
    installation(args, host, facts_found(args, outcomes))
}

/// The first `n` steps were performed, and did not fail where a failure counts.
pub open spec fn are_performed(
    args: ArgsView,
    steps: Seq<Step<Seq<char>>>,
    outcomes: Seq<Outcome<Seq<char>>>,
    n: int,
) -> bool {
    &&& lead(args) + n <= outcomes.len()
    &&& forall|j: int|
        0 <= j < n ==> (#[trigger] steps[j]).task is Discard || went_well(outcomes, lead(args) + j)
}

/// The whole installation was performed.
pub open spec fn is_installed(
    args: ArgsView,
    host: HostView,
    outcomes: Seq<Outcome<Seq<char>>>,
) -> bool {
    &&& is_cleared(args, outcomes)
    &&& lead(args) <= outcomes.len()
    &&& planned(args, host, outcomes) is Ok
    &&& are_performed(
        args,
        planned(args, host, outcomes)->Ok_0,
        outcomes,
        planned(args, host, outcomes)->Ok_0.len() as int,
    )
}

/// All that was asked for was done: the update is installed, and the launcher
/// started, if it is to be.
pub open spec fn is_success(
    args: ArgsView,
    host: HostView,
    outcomes: Seq<Outcome<Seq<char>>>,
) -> bool {
    &&& is_installed(args, host, outcomes)
    &&& args.launch is Some ==> went_well(
        outcomes,
        lead(args) + planned(args, host, outcomes)->Ok_0.len() as int,
    )
}

/// What holds of the updater after some outcomes, by its phase.
spec fn is_on_course(
    args: ArgsView,
    host: HostView,
    outcomes: Seq<Outcome<Seq<char>>>,
    state: UpdaterView,
) -> bool {
    let n = outcomes.len();
    let plan = planned(args, host, outcomes);
    let steps = plan->Ok_0;
    &&& state.args == args
    &&& state.host == host
    &&& match state.phase {
        Phase::Verifying => n == 0,
        Phase::Waiting => n == 1 && args.wait_pid is Some && went_well(outcomes, 0),
        Phase::Inspecting => n == lead(args) - 1 && inspects(args) == 1 && is_cleared(
            args,
            outcomes,
        ),
        Phase::Installing { at } => {
            &&& n == lead(args) + at
            &&& is_cleared(args, outcomes)
            &&& plan is Ok
            &&& state.steps == steps
            &&& at < steps.len()
            &&& are_performed(args, steps, outcomes, at as int)
        },
        Phase::Rescuing => {
            let j = n - lead(args) - 1;
            &&& 0 <= j
            &&& is_cleared(args, outcomes)
            &&& plan is Ok
            &&& j < steps.len()
            &&& !(steps[j].task is Discard)
            &&& steps[j].rescue is Some
            &&& !went_well(outcomes, n - 1)
        },
        Phase::Launching => {
            &&& n == lead(args) + steps.len()
            &&& args.launch is Some
            &&& is_installed(args, host, outcomes)
        },
        Phase::Finished { code } => {
            &&& n > 0
            &&& if code == EXIT_SIGNATURE {
                !went_well(outcomes, 0)
            } else if code == EXIT_TIMEOUT {
                n > 1 && args.wait_pid is Some && went_well(outcomes, 0) && !went_well(outcomes, 1)
            } else if code == EXIT_OK {
                is_success(args, host, outcomes)
            } else {
                &&& is_cleared(args, outcomes)
                &&& lead(args) <= n
                &&& !is_success(args, host, outcomes)
                &&& is_installed(args, host, outcomes) ==> code == EXIT_IO && n > lead(args)
                    + steps.len()
                &&& !is_installed(args, host, outcomes) ==> {
                    &&& code == if plan is Err || args.strategy == "system"@ || args.strategy
                        == "app"@ {
                        EXIT_STRATEGY
                    } else {
                        EXIT_IO
                    }
                    &&& plan is Ok ==> exists|j: int|
                        0 <= j < steps.len() && lead(args) + j < n && !((#[trigger] steps[j]).task is Discard)
                            && !went_well(outcomes, lead(args) + j)
                }
            }
        },
    }
}

/// Once the last outcome before the first step is known, the installation begins
/// or fails.
proof fn lemma_install(
    args: ArgsView,
    host: HostView,
    outcomes: Seq<Outcome<Seq<char>>>,
    state: UpdaterView,
    log: Seq<Seq<char>>,
)
    requires
        state.args == args,
        state.host == host,
        outcomes.len() == lead(args),
        is_cleared(args, outcomes),
    ensures
        is_on_course(
            args,
            host,
            outcomes,
            state.installing(log, facts_found(args, outcomes)).0,
        ),
{
    lemma_steps_count(args, host, facts_found(args, outcomes));
}

/// Once the package is verified and the launcher gone, the bundle is inspected
/// or the installation begins.
proof fn lemma_begin(
    args: ArgsView,
    host: HostView,
    outcomes: Seq<Outcome<Seq<char>>>,
    state: UpdaterView,
    log: Seq<Seq<char>>,
)
    requires
        state.args == args,
        state.host == host,
        outcomes.len() == 1 + waits(args),
        is_cleared(args, outcomes),
    ensures
        is_on_course(args, host, outcomes, state.beginning(log).0),
{
    if inspects(args) == 0 {
        lemma_install(args, host, outcomes, state, log);
    }
}

/// Outcomes that are known stay as they are when another one comes.
proof fn lemma_known(
    args: ArgsView,
    host: HostView,
    init: Seq<Outcome<Seq<char>>>,
    last: Outcome<Seq<char>>,
)
    ensures
        forall|i: int|
            0 <= i < init.len() ==> #[trigger] went_well(init.push(last), i) == went_well(init, i),
        lead(args) <= init.len() ==> planned(args, host, init.push(last)) == planned(
            args,
            host,
            init,
        ),
        forall|steps: Seq<Step<Seq<char>>>, n: int| #[trigger]
            are_performed(args, steps, init, n) ==> are_performed(args, steps, init.push(last), n),
        forall|steps: Seq<Step<Seq<char>>>, n: int|
            lead(args) + n <= init.len() && #[trigger] are_performed(args, steps, init.push(last), n)
                ==> are_performed(args, steps, init, n),
{
    let outcomes = init.push(last);
    assert forall|i: int| 0 <= i < init.len() implies #[trigger] went_well(outcomes, i)
        == went_well(init, i) by {
        assert(outcomes[i] == init[i]);
    }
    assert forall|steps: Seq<Step<Seq<char>>>, n: int| #[trigger]
        are_performed(args, steps, init, n) implies are_performed(args, steps, outcomes, n) by {
        assert forall|j: int| 0 <= j < n implies (#[trigger] steps[j]).task is Discard || went_well(
            outcomes,
            lead(args) + j,
        ) by {
            assert(went_well(outcomes, lead(args) + j) == went_well(init, lead(args) + j));
        }
    }
    assert forall|steps: Seq<Step<Seq<char>>>, n: int|
        lead(args) + n <= init.len() && #[trigger] are_performed(
            args,
            steps,
            outcomes,
            n,
        ) implies are_performed(args, steps, init, n) by {
        assert forall|j: int| 0 <= j < n implies (#[trigger] steps[j]).task is Discard || went_well(
            init,
            lead(args) + j,
        ) by {
            assert(went_well(outcomes, lead(args) + j) == went_well(init, lead(args) + j));
        }
    }
    if lead(args) <= init.len() {
        assert(outcomes[lead(args) - 1] == init[lead(args) - 1]);
    }
}

/// A step that failed where a failure counts keeps the installation from being
/// complete.
proof fn lemma_failed_step(
    args: ArgsView,
    host: HostView,
    outcomes: Seq<Outcome<Seq<char>>>,
    j: int,
)
    requires
        planned(args, host, outcomes) is Ok,
        0 <= j < planned(args, host, outcomes)->Ok_0.len(),
        !(planned(args, host, outcomes)->Ok_0[j].task is Discard),
        !went_well(outcomes, lead(args) + j),
    ensures
        !is_installed(args, host, outcomes),
{
    let steps = planned(args, host, outcomes)->Ok_0;
    if is_installed(args, host, outcomes) {
        assert(steps[j].task is Discard || went_well(outcomes, lead(args) + j));
    }
}

/// One more outcome keeps the updater on its course.
proof fn lemma_next_on_course(
    args: ArgsView,
    host: HostView,
    init: Seq<Outcome<Seq<char>>>,
    last: Outcome<Seq<char>>,
    state: UpdaterView,
)
    requires
        is_on_course(args, host, init, state),
    ensures
        is_on_course(args, host, init.push(last), state.next(last).0),
{
    let outcomes = init.push(last);
    let n = init.len() as int;
    lemma_known(args, host, init, last);
    assert(outcomes[n] == last);
    let plan = planned(args, host, outcomes);
    let steps = plan->Ok_0;
    match state.phase {
        Phase::Verifying => {
            if went_well(outcomes, 0) && args.wait_pid is None {
                lemma_begin(args, host, outcomes, state, seq!["verify ok"@]);
            }
        },
        Phase::Waiting => {
            if went_well(outcomes, 1) {
                lemma_begin(args, host, outcomes, state, seq!["target exited"@]);
            }
        },
        Phase::Inspecting => {
            lemma_install(args, host, outcomes, state, seq![]);
        },
        Phase::Installing { at } => {
            let step = steps[at as int];
            lemma_steps_count(args, host, facts_found(args, outcomes));
            if last is Failed && !(step.task is Discard) {
                lemma_failed_step(args, host, outcomes, at as int);
                assert(!went_well(outcomes, lead(args) + at));
            } else {
                assert(are_performed(args, steps, outcomes, at + 1)) by {
                    assert forall|j: int| 0 <= j < at + 1 implies (#[trigger] steps[j]).task is Discard
                        || went_well(outcomes, lead(args) + j) by {
                        assert(are_performed(args, steps, outcomes, at as int));
                    }
                }
            }
        },
        Phase::Rescuing => {
            let j = n - lead(args) - 1;
            lemma_failed_step(args, host, outcomes, j);
            assert(!(steps[j].task is Discard) && !went_well(outcomes, lead(args) + j));
        },
        Phase::Launching => {
            assert(is_installed(args, host, outcomes));
        },
        Phase::Finished { code } => {
            if code != EXIT_SIGNATURE && code != EXIT_TIMEOUT {
                let count = steps.len() as int;
                if code == EXIT_OK {
                    assert(is_success(args, host, outcomes));
                } else if is_installed(args, host, init) {
                    assert(is_installed(args, host, outcomes));
                } else if plan is Ok {
                    let j = choose|j: int|
                        0 <= j < steps.len() && lead(args) + j < n && !((#[trigger] steps[j]).task is Discard)
                            && !went_well(init, lead(args) + j);
                    lemma_failed_step(args, host, outcomes, j);
                    assert(!(steps[j].task is Discard) && !went_well(outcomes, lead(args) + j));
                }
            }
        },
    }
}

/// The updater is on its course after any outcomes.
proof fn lemma_on_course(args: ArgsView, host: HostView, outcomes: Seq<Outcome<Seq<char>>>)
    ensures
        is_on_course(args, host, outcomes, course(args, host, outcomes).0),
    decreases outcomes.len(),
{
    if outcomes.len() > 0 {
        let init = outcomes.drop_last();
        let last = outcomes.last();
        lemma_on_course(args, host, init);
        lemma_next_on_course(args, host, init, last, course(args, host, init).0);
        assert(init.push(last) =~= outcomes);
    }
}

/// The action that the updater asks for, by its phase.
spec fn is_asked(
    args: ArgsView,
    host: HostView,
    outcomes: Seq<Outcome<Seq<char>>>,
    phase: Phase,
    action: Action<Seq<char>>,
) -> bool {
    let steps = planned(args, host, outcomes)->Ok_0;
    action == match phase {
        Phase::Verifying => Action::Verify { package: args.package, signature: args.signature },
        Phase::Waiting => Action::Wait { pid: args.wait_pid->0, limit_secs: WAIT_LIMIT_SECS },
        Phase::Inspecting => Action::Inspect { bundle: args.app_bundle->0 },
        Phase::Installing { at } => Action::Perform { task: steps[at as int].task },
        Phase::Rescuing => Action::Perform {
            task: Task::Discard { tree: steps[outcomes.len() - lead(args) - 1].rescue->0 },
        },
        Phase::Launching => Action::Launch { exe: args.launch->0 },
        Phase::Finished { code } => Action::Exit { code },
    }
}

/// After any outcomes the updater is on its course, and asks for what its phase
/// says.
proof fn lemma_course(args: ArgsView, host: HostView, outcomes: Seq<Outcome<Seq<char>>>)
    ensures
        is_on_course(args, host, outcomes, course(args, host, outcomes).0),
        is_asked(
            args,
            host,
            outcomes,
            course(args, host, outcomes).0.phase,
            asked(args, host, outcomes),
        ),
{
    lemma_on_course(args, host, outcomes);
    if outcomes.len() > 0 {
        let init = outcomes.drop_last();
        let last = outcomes.last();
        lemma_on_course(args, host, init);
        lemma_known(args, host, init, last);
        assert(init.push(last) =~= outcomes);
    }
}

/// A package is verified before anything else is done. Where that fails, nothing
/// else is done at all: the updater exits with [`EXIT_SIGNATURE`].
pub proof fn law_verified_first(
    args: ArgsView,
    host: HostView,
    outcomes: Seq<Outcome<Seq<char>>>,
)
    ensures
        outcomes.len() == 0 ==> asked(args, host, outcomes) == (Action::Verify {
            package: args.package,
            signature: args.signature,
        }),
        outcomes.len() > 0 && outcomes[0] is Failed ==> asked(args, host, outcomes) == (
        Action::<Seq<char>>::Exit { code: EXIT_SIGNATURE }),
{
    lemma_course(args, host, outcomes);
}

/// Where there is a process to wait for, the updater waits for it once the
/// package is verified. Where that fails, no file is touched: the updater exits
/// with [`EXIT_TIMEOUT`].
pub proof fn law_launcher_gone_first(
    args: ArgsView,
    host: HostView,
    outcomes: Seq<Outcome<Seq<char>>>,
)
    requires
        args.wait_pid is Some,
        went_well(outcomes, 0),
    ensures
        outcomes.len() == 1 ==> asked(args, host, outcomes) == (Action::<Seq<char>>::Wait {
            pid: args.wait_pid->0,
            limit_secs: WAIT_LIMIT_SECS,
        }),
        outcomes.len() > 1 && outcomes[1] is Failed ==> asked(args, host, outcomes) == (
        Action::<Seq<char>>::Exit { code: EXIT_TIMEOUT }),
{
    lemma_course(args, host, outcomes);
}

/// Files are touched, and the launcher is started, only once the package is
/// verified and the launcher gone.
pub proof fn law_nothing_touched_before(
    args: ArgsView,
    host: HostView,
    outcomes: Seq<Outcome<Seq<char>>>,
)
    requires
        asked(args, host, outcomes) is Perform || asked(args, host, outcomes) is Inspect || asked(
            args,
            host,
            outcomes,
        ) is Launch,
    ensures
        is_cleared(args, outcomes),
{
    lemma_course(args, host, outcomes);
}

/// Where there is nothing to install by, because the strategy is unknown or what it
/// needs is missing, no file is touched: the updater exits with [`EXIT_STRATEGY`].
pub proof fn law_nothing_to_install_by(
    args: ArgsView,
    host: HostView,
    outcomes: Seq<Outcome<Seq<char>>>,
)
    requires
        is_cleared(args, outcomes),
        lead(args) <= outcomes.len(),
        planned(args, host, outcomes) is Err,
    ensures
        asked(args, host, outcomes) == (Action::<Seq<char>>::Exit { code: EXIT_STRATEGY }),
{
    lemma_course(args, host, outcomes);
}

/// The steps of an installation are performed one after the other, as long as
/// none of them fails that may not.
pub proof fn law_steps_in_order(
    args: ArgsView,
    host: HostView,
    outcomes: Seq<Outcome<Seq<char>>>,
    at: int,
)
    requires
        is_cleared(args, outcomes),
        planned(args, host, outcomes) is Ok,
        0 <= at < planned(args, host, outcomes)->Ok_0.len(),
        outcomes.len() == lead(args) + at,
        are_performed(args, planned(args, host, outcomes)->Ok_0, outcomes, at),
    ensures
        asked(args, host, outcomes) == (Action::Perform {
            task: planned(args, host, outcomes)->Ok_0[at].task,
        }),
{
    lemma_course(args, host, outcomes);
}

/// Where a step fails that may not, its staging directory is discarded, if it
/// has one. Otherwise the updater exits.
pub proof fn law_failed_step(
    args: ArgsView,
    host: HostView,
    outcomes: Seq<Outcome<Seq<char>>>,
    at: int,
    error: Seq<char>,
)
    requires
        is_cleared(args, outcomes),
        planned(args, host, outcomes) is Ok,
        0 <= at < planned(args, host, outcomes)->Ok_0.len(),
        outcomes.len() == lead(args) + at,
        are_performed(args, planned(args, host, outcomes)->Ok_0, outcomes, at),
        !(planned(args, host, outcomes)->Ok_0[at].task is Discard),
    ensures
        ({
            let after = asked(args, host, outcomes.push(Outcome::Failed { error }));
            match planned(args, host, outcomes)->Ok_0[at].rescue {
                Some(tree) => after == Action::Perform { task: Task::Discard { tree } },
                None => after is Exit,
            }
        }),
{
    lemma_course(args, host, outcomes);
    assert(outcomes.push(Outcome::Failed { error }).drop_last() =~= outcomes);
}

/// The launcher is started exactly when the whole installation has been
/// performed, if it is to be started.
pub proof fn law_launched_after_install(
    args: ArgsView,
    host: HostView,
    outcomes: Seq<Outcome<Seq<char>>>,
)
    ensures
        asked(args, host, outcomes) is Launch <==> {
            &&& args.launch is Some
            &&& is_installed(args, host, outcomes)
            &&& outcomes.len() == lead(args) + planned(args, host, outcomes)->Ok_0.len()
        },
        asked(args, host, outcomes) is Launch ==> asked(args, host, outcomes)
            == (Action::Launch { exe: args.launch->0 }),
{
    lemma_course(args, host, outcomes);
}

/// What an exit code tells of the update. Where there is nothing to install by,
/// the strategy has failed; [`EXIT_IO`] is for a step that failed and for a
/// launcher that did not start.
pub proof fn law_exit_codes(args: ArgsView, host: HostView, outcomes: Seq<Outcome<Seq<char>>>)
    requires
        asked(args, host, outcomes) is Exit,
    ensures
        ({
            let code = asked(args, host, outcomes)->code;
            &&& code == EXIT_OK <==> is_success(args, host, outcomes)
            &&& code == EXIT_SIGNATURE <==> !went_well(outcomes, 0)
            &&& code == EXIT_TIMEOUT <==> args.wait_pid is Some && went_well(outcomes, 0)
                && !went_well(outcomes, 1)
            &&& code == EXIT_STRATEGY <==> is_cleared(args, outcomes) && !is_installed(
                args,
                host,
                outcomes,
            ) && (planned(args, host, outcomes) is Err || args.strategy == "system"@
                || args.strategy == "app"@)
            &&& code == EXIT_IO <==> is_cleared(args, outcomes) && if is_installed(
                args,
                host,
                outcomes,
            ) {
                !is_success(args, host, outcomes)
            } else {
                planned(args, host, outcomes) is Ok && args.strategy != "system"@ && args.strategy
                    != "app"@
            }
        }),
{
    lemma_course(args, host, outcomes);
}

/// An update ends, and an update that has ended stays as it is.
pub proof fn law_ends(
    args: ArgsView,
    host: HostView,
    outcomes: Seq<Outcome<Seq<char>>>,
    last: Outcome<Seq<char>>,
)
    ensures
        outcomes.len() >= 10 ==> asked(args, host, outcomes) is Exit,
        asked(args, host, outcomes) is Exit ==> asked(args, host, outcomes.push(last)) == asked(
            args,
            host,
            outcomes,
        ),
{
    lemma_course(args, host, outcomes);
    lemma_steps_count(args, host, facts_found(args, outcomes));
    assert(outcomes.push(last).drop_last() =~= outcomes);
}

/// Rights are elevated by the `system` strategy, and by the `app` strategy where
/// the user may not write to the bundle, and nowhere else.
pub proof fn law_elevation(args: ArgsView, host: HostView, outcomes: Seq<Outcome<Seq<char>>>)
    requires
        asked(args, host, outcomes) matches Action::Perform { task } && task is Elevate,
    ensures
        args.strategy == "system"@ || args.strategy == "app"@ && !facts_found(
            args,
            outcomes,
        ).writable,
{
    lemma_course(args, host, outcomes);
    reveal(installation);
}

/// The directory that the `dir` or `appimage` strategy extracts the package into
/// is gone when the update goes on to its end: what was last done was to discard
/// it, unless a directory could not be created.
pub proof fn law_staging_discarded(
    args: ArgsView,
    host: HostView,
    outcomes: Seq<Outcome<Seq<char>>>,
    last: Outcome<Seq<char>>,
)
    requires
        args.strategy == "dir"@ || args.strategy == "appimage"@,
        asked(args, host, outcomes) is Perform,
        !(asked(args, host, outcomes.push(last)) is Perform),
    ensures
        ({
            let task = asked(args, host, outcomes)->task;
            ||| task is Create && last is Failed
            ||| task == Task::Discard { tree: own_staging(args, host) }
        }),
{
    let facts = facts_found(args, outcomes);
    lemma_course(args, host, outcomes);
    assert(outcomes.push(last).drop_last() =~= outcomes);
    lemma_staging_discarded(args, host, facts);
    let steps = installation(args, host, facts)->Ok_0;
    match course(args, host, outcomes).0.phase {
        Phase::Installing { at } => {
            assert(steps[at as int].task is Create || steps[at as int].task is Discard
                || steps[at as int].rescue is Some);
        },
        Phase::Rescuing => {
            let failed = steps[outcomes.len() - lead(args) - 1];
            assert(failed.task is Create || failed.rescue == Some(own_staging(args, host)));
            assert(failed.rescue is Some);
        },
        _ => {},
    }
}

/// The lines that the updater logs last, once its actions have had these outcomes.
pub open spec fn logged(
    args: ArgsView,
    host: HostView,
    outcomes: Seq<Outcome<Seq<char>>>,
) -> Seq<Seq<char>> {
    course(args, host, outcomes).1.log
}

/// What the log tells of an update that goes well: what is installed, that the package
/// is verified, which process is waited for and for how long, that it has exited, that
/// the installation is done, what is started, and that all is done.
pub proof fn law_log_of_success(
    args: ArgsView,
    host: HostView,
    outcomes: Seq<Outcome<Seq<char>>>,
)
    ensures
        outcomes.len() == 0 ==> logged(args, host, outcomes) == seq![
            "start pid="@ + decimal(host.pid as nat) + " package="@ + args.package + " strategy="@
                + args.strategy,
        ],
        outcomes.len() == 1 && went_well(outcomes, 0) ==> logged(args, host, outcomes).len() > 0
            && logged(args, host, outcomes)[0] == "verify ok"@,
        asked(args, host, outcomes) is Wait ==> logged(args, host, outcomes) == seq![
            "verify ok"@,
            "waiting for pid "@ + decimal(args.wait_pid->0 as nat) + " (max "@ + decimal(30)
                + "s)"@,
        ],
        outcomes.len() == 2 && args.wait_pid is Some && went_well(outcomes, 0) && went_well(
            outcomes,
            1,
        ) ==> logged(args, host, outcomes).len() > 0 && logged(args, host, outcomes)[0]
            == "target exited"@,
        asked(args, host, outcomes) is Launch ==> logged(args, host, outcomes) == seq![
            "install ok"@,
            "launching "@ + args.launch->0,
        ],
        is_success(args, host, outcomes) && outcomes.len() == lead(args) + planned(
            args,
            host,
            outcomes,
        )->Ok_0.len() + (if args.launch is Some {
            1int
        } else {
            0int
        }) ==> logged(args, host, outcomes) == if args.launch is Some {
            seq!["done"@]
        } else {
            seq!["install ok"@, "done"@]
        },
{
    lemma_course(args, host, outcomes);
    if outcomes.len() > 0 {
        let init = outcomes.drop_last();
        let last = outcomes.last();
        lemma_course(args, host, init);
        lemma_known(args, host, init, last);
        assert(init.push(last) =~= outcomes);
        lemma_steps_count(args, host, facts_found(args, outcomes));
    }
}

/// What the log tells of an update that fails: at the end there is a line for what
/// failed, with the error at its end. Where a staging directory is discarded after a
/// failed step, it is the error of that step.
pub proof fn law_log_of_failure(
    args: ArgsView,
    host: HostView,
    outcomes: Seq<Outcome<Seq<char>>>,
    error: Seq<char>,
)
    requires
        !(asked(args, host, outcomes) is Exit),
    ensures
        ({
            let failed = outcomes.push(Outcome::Failed { error });
            match asked(args, host, outcomes) {
                Action::Verify { .. } => logged(args, host, failed) == seq![
                    "verify failed: "@ + error,
                ],
                Action::Wait { .. } => logged(args, host, failed) == seq!["wait failed: "@ + error],
                Action::Launch { .. } => logged(args, host, failed) == seq![
                    "relaunch failed: "@ + error,
                ],
                Action::Perform { task } => !(task is Discard) ==> {
                    if asked(args, host, failed) is Exit {
                        logged(args, host, failed) == seq![
                            "install failed: "@ + task_failure(task, error),
                        ]
                    } else {
                        forall|last: Outcome<Seq<char>>|
                            #![trigger failed.push(last)]
                            asked(args, host, failed.push(last)) is Exit && logged(
                                args,
                                host,
                                failed.push(last),
                            ) == seq!["install failed: "@ + task_failure(task, error)]
                    }
                },
                _ => true,
            }
        }),
{
    let failed = outcomes.push(Outcome::Failed { error });
    lemma_course(args, host, outcomes);
    assert(failed.drop_last() =~= outcomes);
    assert forall|last: Outcome<Seq<char>>|
        #![trigger failed.push(last)]
        course(args, host, failed.push(last)) == course(args, host, failed).0.next(last) by {
        assert(failed.push(last).drop_last() =~= failed);
    }
    let none: Seq<Seq<char>> = seq![];
    assert forall|line: Seq<char>| #[trigger] none.push(line) == seq![line] by {
        assert(none.push(line) =~= seq![line]);
    }
}

/// Where there is nothing to install by, the log ends with the reason.
pub proof fn law_log_of_refusal(
    args: ArgsView,
    host: HostView,
    outcomes: Seq<Outcome<Seq<char>>>,
)
    requires
        is_cleared(args, outcomes),
        outcomes.len() == lead(args),
        planned(args, host, outcomes) is Err,
    ensures
        logged(args, host, outcomes).len() > 0,
        logged(args, host, outcomes).last() == "install failed: "@ + planned(
            args,
            host,
            outcomes,
        )->Err_0,
{
    let init = outcomes.drop_last();
    let last = outcomes.last();
    lemma_course(args, host, init);
    lemma_course(args, host, outcomes);
    lemma_known(args, host, init, last);
    assert(init.push(last) =~= outcomes);
}

/// The exit codes, and how long the launcher is waited for.
pub proof fn law_numbers(args: ArgsView, host: HostView, outcomes: Seq<Outcome<Seq<char>>>)
    ensures
        asked(args, host, outcomes) matches Action::Wait { pid, limit_secs } ==> Some(pid)
            == args.wait_pid && limit_secs == 30,
        asked(args, host, outcomes) matches Action::Exit { code } ==> {
            &&& code == 0 <==> is_success(args, host, outcomes)
            &&& code == 3 <==> !went_well(outcomes, 0)
            &&& code == 5 <==> args.wait_pid is Some && went_well(outcomes, 0) && !went_well(
                outcomes,
                1,
            )
            &&& code == 0 || code == 2 || code == 3 || code == 4 || code == 5
            &&& code == 4 ==> !is_installed(args, host, outcomes)
        },
{
    lemma_course(args, host, outcomes);
    if asked(args, host, outcomes) is Exit {
        law_exit_codes(args, host, outcomes);
    }
}

} // verus!
