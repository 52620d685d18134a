//! Waiting for the launcher to exit.

use vstd::prelude::*;
use crate::host::{CommandLine, CommandView, Platform};
use crate::text::{
    concat, contains, contains_text, decimal, decimal_text, lemma_decimal_read, occurs_at, u32_of,
};

verus! {

/// How long the updater waits for the launcher, in seconds.
pub const WAIT_LIMIT_SECS: u64 = 30;

/// How long it pauses between two looks at the launcher, in milliseconds.
pub const POLL_MILLIS: u64 = 500;

/// What follows from a look at a process that is waited for.
pub enum Wait<S> {
    /// The process is gone.
    Exited,
    /// The process did not go in time.
    TimedOut { message: S },
    /// The process is to be looked at again after a pause.
    Again { millis: u64 },
}

impl View for Wait<String> {
    type V = Wait<Seq<char>>;

    open spec fn view(&self) -> Wait<Seq<char>> {
        match self {
            Wait::Exited => Wait::Exited,
            Wait::TimedOut { message } => Wait::TimedOut { message: message@ },
            Wait::Again { millis } => Wait::Again { millis: *millis },
        }
    }
}

/// What follows from finding a process alive, or gone, after some time of
/// waiting.
pub open spec fn wait_decision(pid: u32, timeout: int, alive: bool, elapsed: int) -> Wait<
    Seq<char>,
> {
    if !alive {
        Wait::Exited
    } else if elapsed > timeout {
        Wait::TimedOut {
            message: "timed out waiting for pid "@ + decimal(pid as nat) + " to exit"@,
        }
    } else {
        Wait::Again { millis: POLL_MILLIS }
    }
}

/// Decides what follows from a look at the process `pid`, which was found alive
/// or gone `elapsed_nanos` after the wait began.
pub fn wait_process_exit(pid: u32, timeout_nanos: u128, alive: bool, elapsed_nanos: u128) -> (r: Wait<
    String,
>)
    ensures
        r@ == wait_decision(pid, timeout_nanos as int, alive, elapsed_nanos as int),
{
    if !alive {
        Wait::Exited
    } else if elapsed_nanos > timeout_nanos {
        let mut message = concat("timed out waiting for pid ", &decimal_text(pid as u64));
        message.append(" to exit");
        Wait::TimedOut { message }
    } else {
        Wait::Again { millis: POLL_MILLIS }
    }
}

/// The command that looks for a process.
pub open spec fn look_for(platform: Platform, pid: u32) -> CommandView {
    if platform == Platform::Windows {
        CommandView {
            program: "tasklist"@,
            args: seq!["/FI"@, "PID eq "@ + decimal(pid as nat), "/NH"@, "/FO"@, "CSV"@],
        }
    } else {
        CommandView { program: "ps"@, args: seq!["-p"@, decimal(pid as nat)] }
    }
}

/// The command that looks for a process.
pub fn probe_command(platform: Platform, pid: u32) -> (r: CommandLine)
    ensures
        r@ == look_for(platform, pid),
{
    let number = decimal_text(pid as u64);
    if platform == Platform::Windows {
        let args = vec![
            "/FI".to_owned(),
            concat("PID eq ", &number),
            "/NH".to_owned(),
            "/FO".to_owned(),
            "CSV".to_owned(),
        ];
        let r = CommandLine { program: "tasklist".to_owned(), args };
        assert(r@.args =~= look_for(platform, pid).args);
        r
    } else {
        let args = vec!["-p".to_owned(), number];
        let r = CommandLine { program: "ps".to_owned(), args };
        assert(r@.args =~= look_for(platform, pid).args);
        r
    }
}

/// What came of the command that looks for a process.
pub enum Look {
    /// The command could not be run.
    NotRun,
    /// The command ran: whether it succeeded, and what it printed.
    Ran { success: bool, output: String },
}

/// Whether a process is alive, by what came of looking for it. Where nothing
/// could be found out, it counts as alive.
pub open spec fn found_alive(platform: Platform, look: Look) -> bool {
    match look {
        Look::NotRun => true,
        Look::Ran { success, output } => if platform == Platform::Windows {
            !contains_text(output@, "INFO:"@)
        } else {
            success
        },
    }
}

/// Whether a process is alive, by what came of looking for it.
pub fn process_alive(platform: Platform, look: &Look) -> (r: bool)
    ensures
        r == found_alive(platform, *look),
{
    match look {
        Look::NotRun => true,
        Look::Ran { success, output } => if platform == Platform::Windows {
            !contains(output, "INFO:")
        } else {
            *success
        },
    }
}

/// One look at a process: whether it was found alive, and when.
pub struct Sight {
    pub alive: bool,
    pub elapsed: int,
}

/// How a wait ends, by the looks at the process: with the first one that
/// settles it, if there is one.
pub open spec fn wait_end(pid: u32, timeout: int, looks: Seq<Sight>) -> Option<Wait<Seq<char>>>
    decreases looks.len(),
{
    if looks.len() == 0 {
        None
    } else {
        let decision = wait_decision(pid, timeout, looks.first().alive, looks.first().elapsed);
        if decision is Again {
            wait_end(pid, timeout, looks.drop_first())
        } else {
            Some(decision)
        }
    }
}

/// A wait ends well exactly where the process is found gone at a look, and was
/// alive within the time limit at every look before.
pub proof fn law_wait_ends_well(pid: u32, timeout: int, looks: Seq<Sight>)
    ensures
        wait_end(pid, timeout, looks) == Some(Wait::<Seq<char>>::Exited) <==> exists|i: int|
            0 <= i < looks.len() && !(#[trigger] looks[i]).alive && forall|k: int|
                0 <= k < i ==> (#[trigger] looks[k]).alive && looks[k].elapsed <= timeout,
    decreases looks.len(),
{
    if looks.len() > 0 {
        let rest = looks.drop_first();
        law_wait_ends_well(pid, timeout, rest);
        if wait_decision(pid, timeout, looks[0].alive, looks[0].elapsed) is Again {
            if wait_end(pid, timeout, rest) == Some(Wait::<Seq<char>>::Exited) {
                let i = choose|i: int|
                    0 <= i < rest.len() && !(#[trigger] rest[i]).alive && forall|k: int|
                        0 <= k < i ==> (#[trigger] rest[k]).alive && rest[k].elapsed <= timeout;
                assert(!looks[i + 1].alive);
                assert forall|k: int| 0 <= k < i + 1 implies (#[trigger] looks[k]).alive
                    && looks[k].elapsed <= timeout by {
                    if k > 0 {
                        assert(rest[k - 1] == looks[k]);
                    }
                }
            }
            if exists|i: int|
                0 <= i < looks.len() && !(#[trigger] looks[i]).alive && forall|k: int|
                    0 <= k < i ==> (#[trigger] looks[k]).alive && looks[k].elapsed <= timeout {
                let i = choose|i: int|
                    0 <= i < looks.len() && !(#[trigger] looks[i]).alive && forall|k: int|
                        0 <= k < i ==> (#[trigger] looks[k]).alive && looks[k].elapsed <= timeout;
                assert(rest[i - 1] == looks[i]);
                assert forall|k: int| 0 <= k < i - 1 implies (#[trigger] rest[k]).alive
                    && rest[k].elapsed <= timeout by {
                    assert(rest[k] == looks[k + 1]);
                }
            }
        } else {
            if exists|i: int|
                0 <= i < looks.len() && !(#[trigger] looks[i]).alive && forall|k: int|
                    0 <= k < i ==> (#[trigger] looks[k]).alive && looks[k].elapsed <= timeout {
                let i = choose|i: int|
                    0 <= i < looks.len() && !(#[trigger] looks[i]).alive && forall|k: int|
                        0 <= k < i ==> (#[trigger] looks[k]).alive && looks[k].elapsed <= timeout;
                if i > 0 {
                    assert(looks[0].alive);
                }
            }
            if !looks[0].alive {
                assert(forall|k: int| 0 <= k < 0 ==> (#[trigger] looks[k]).alive);
            }
        }
    }
}

/// Off Windows a command that ran shows the process alive exactly where it succeeded,
/// whatever it printed. On Windows it shows the process gone exactly where it printed
/// `INFO:` somewhere, whether or not it succeeded. A command that could not be run
/// shows nothing, and the process counts as alive.
pub proof fn law_alive_by_look(platform: Platform, success: bool, output: String)
    ensures
        found_alive(platform, Look::NotRun),
        platform != Platform::Windows ==> found_alive(platform, Look::Ran { success, output })
            == success,
        platform == Platform::Windows ==> (found_alive(platform, Look::Ran { success, output })
            <==> forall|before: Seq<char>, behind: Seq<char>|
            output@ != #[trigger] (before + "INFO:"@ + behind)),
{
    reveal_strlit("INFO:");
    let mark = "INFO:"@;
    if contains_text(output@, mark) {
        let at = choose|at: int| occurs_at(output@, mark, at);
        let before = output@.take(at);
        let behind = output@.skip(at + 5);
        assert(output@ =~= before + output@.subrange(at, at + 5) + behind);
        assert(output@ == before + mark + behind);
    }
    if exists|before: Seq<char>, behind: Seq<char>|
        output@ == #[trigger] (before + mark + behind) {
        let (before, behind) = choose|before: Seq<char>, behind: Seq<char>|
            output@ == #[trigger] (before + mark + behind);
        assert(output@.subrange(before.len() as int, before.len() as int + 5) =~= mark);
        assert(occurs_at(output@, mark, before.len() as int));
    }
}

/// A process that was found gone ends the wait well, however long it took. One that
/// is alive is waited for as long as the time limit is not exceeded, with a pause of
/// half a second; then the wait fails, and the message tells the process.
pub proof fn law_wait_by_life_and_time(pid: u32, timeout: int, alive: bool, elapsed: int)
    ensures
        wait_decision(pid, timeout, alive, elapsed) is Exited <==> !alive,
        wait_decision(pid, timeout, alive, elapsed) is TimedOut <==> alive && timeout < elapsed,
        alive && elapsed <= timeout ==> wait_decision(pid, timeout, alive, elapsed) == (Wait::<
            Seq<char>,
        >::Again { millis: 500 }),
        wait_decision(pid, timeout, alive, elapsed) matches Wait::TimedOut { message }
            ==> exists|digits: Seq<char>|
            message == "timed out waiting for pid "@ + digits + " to exit"@ && #[trigger] u32_of(
                digits,
            ) == Some(pid),
{
    lemma_decimal_read(pid);
    assert(u32_of(decimal(pid as nat)) == Some(pid));
}

/// The command that looks for a process names that process, as the last word off
/// Windows and as what the tasks are filtered by on Windows.
pub proof fn law_looks_for_the_process(platform: Platform, pid: u32)
    ensures
        platform != Platform::Windows ==> {
            let command = look_for(platform, pid);
            &&& command.program == "ps"@
            &&& command.args.len() == 2
            &&& command.args[0] == "-p"@
            &&& u32_of(command.args[1]) == Some(pid)
        },
        platform == Platform::Windows ==> {
            let command = look_for(platform, pid);
            let front = "PID eq "@;
            &&& command.program == "tasklist"@
            &&& command.args.len() == 5
            &&& command.args[0] == "/FI"@
            &&& front.is_prefix_of(command.args[1])
            &&& u32_of(command.args[1].skip(front.len() as int)) == Some(pid)
            &&& command.args.skip(2) == seq!["/NH"@, "/FO"@, "CSV"@]
        },
{
    lemma_decimal_read(pid);
    let front = "PID eq "@;
    let filter = front + decimal(pid as nat);
    assert(filter.subrange(0, front.len() as int) =~= front);
    assert(filter.skip(front.len() as int) =~= decimal(pid as nat));
    if platform == Platform::Windows {
        assert(look_for(platform, pid).args.skip(2) =~= seq!["/NH"@, "/FO"@, "CSV"@]);
    }
}

} // verus!
