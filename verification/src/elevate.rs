//! Copying with the rights of an administrator.

use vstd::prelude::*;
use crate::args::texts;
use crate::host::{CommandLine, CommandView, Host, HostView, Platform};
use crate::path::{join, joined, opened};
use crate::quoting::{
    apple_quote, apple_string, apple_text, law_apple_string_stands_for_text,
    law_quoted_is_one_word, quoted, shell_quote, shell_word,
};
use crate::text::{
    concat, decimal, decimal_text, lemma_decimal_between, same, signed_decimal, signed_decimal_text,
};

verus! {

/// An elevated copy: a script to write, and the command that runs it with
/// elevated rights.
pub struct Elevation {
    pub script: String,
    pub text: String,
    pub command: CommandLine,
}

/// What [`Elevation`] holds, as text.
#[verifier::ext_equal]
pub struct ElevationView {
    pub script: Seq<char>,
    pub text: Seq<char>,
    pub command: CommandView,
}

impl View for Elevation {
    type V = ElevationView;

    open spec fn view(&self) -> ElevationView {
        ElevationView { script: self.script@, text: self.text@, command: self.command@ }
    }
}

/// The shell command that copies what is in `src` over `dst` and then removes
/// `src`, and with `sweep` also the leftovers of downloads in `dst`.
pub open spec fn copy_command(src: Seq<char>, dst: Seq<char>, sweep: bool) -> Seq<char> {
    let copy = "cp -a "@ + quoted(src) + "/. "@ + quoted(dst) + "/ && rm -rf "@ + quoted(src);
    if sweep {
        copy + " "@ + quoted(dst) + "/*.qdtmp"@
    } else {
        copy
    }
}

/// The script that runs the copy and stops at the first command that fails.
pub open spec fn script_text(src: Seq<char>, dst: Seq<char>, sweep: bool) -> Seq<char> {
    "#!/bin/sh\nset -e\n"@ + copy_command(src, dst, sweep) + "\n"@
}

/// Where the script is written: the temporary directory, under a name of its
/// own for every process.
pub open spec fn script_path(host: HostView) -> Seq<char> {
    joined(
        host.platform.path_style(),
        host.temp_dir,
        "qomicex-update-elevate-"@ + decimal(host.pid as nat) + ".sh"@,
    )
}

/// The program that asks the user for elevated rights, where there is one.
pub open spec fn elevator(platform: Platform) -> Option<Seq<char>> {
    match platform {
        Platform::Linux => Some("pkexec"@),
        Platform::MacOs => Some("osascript"@),
        _ => None,
    }
}

/// The arguments with which that program runs a shell script.
pub open spec fn elevator_args(platform: Platform, script: Seq<char>) -> Seq<Seq<char>> {
    if platform == Platform::MacOs {
        seq![
            "-e"@,
            "do shell script "@ + apple_string("sh "@ + quoted(script))
                + " with administrator privileges"@,
        ]
    } else {
        seq!["sh"@, script]
    }
}

/// The elevated copy of what is in `src` over `dst`, or why there is none.
pub open spec fn elevation(
    host: HostView,
    src: Seq<char>,
    dst: Seq<char>,
    sweep: bool,
) -> Result<ElevationView, Seq<char>> {
    match elevator(host.platform) {
        Some(program) => Ok(
            ElevationView {
                script: script_path(host),
                text: script_text(src, dst, sweep),
                command: CommandView {
                    program,
                    args: elevator_args(host.platform, script_path(host)),
                },
            },
        ),
        None => Err("elevation not supported on this platform"@),
    }
}

/// Plans the elevated copy of what is in `src` over `dst`. The script removes
/// `src` afterwards, and with `cleanup_dst` also the leftovers of downloads in
/// `dst`.
pub fn elevate_copy(host: &Host, src: &str, dst: &str, cleanup_dst: bool) -> (r: Result<
    Elevation,
    String,
>)
    ensures
        match elevation(host@, src@, dst@, cleanup_dst) {
            Ok(plan) => r is Ok && r->Ok_0@ == plan,
            Err(message) => r is Err && r->Err_0@ == message,
        },
{
    let mut name = "qomicex-update-elevate-".to_owned();
    name.append(&decimal_text(host.pid as u64));
    name.append(".sh");
    let script = join(host.platform.style(), &host.temp_dir, &name);

    let from = shell_quote(src);
    let onto = shell_quote(dst);
    let mut copy = concat("cp -a ", &from);
    copy.append("/. ");
    copy.append(&onto);
    copy.append("/ && rm -rf ");
    copy.append(&from);
    if cleanup_dst {
        copy.append(" ");
        copy.append(&onto);
        copy.append("/*.qdtmp");
    }
    let mut text = "#!/bin/sh\nset -e\n".to_owned();
    text.append(&copy);
    text.append("\n");

    let command = match host.platform {
        Platform::Linux => {
            let args = vec!["sh".to_owned(), script.clone()];
            assert(texts(args@) =~= seq!["sh"@, script@]);
            CommandLine { program: "pkexec".to_owned(), args }
        },
        Platform::MacOs => {
            let run = concat("sh ", &shell_quote(&script));
            let mut line = concat("do shell script ", &apple_quote(&run));
            line.append(" with administrator privileges");
            let args = vec!["-e".to_owned(), line];
            assert(texts(args@) =~= seq!["-e"@, line@]);
            CommandLine { program: "osascript".to_owned(), args }
        },
        _ => {
            return Err("elevation not supported on this platform".to_owned());
        },
    };
    Ok(Elevation { script, text, command })
}

/// How the command that runs the script ended: with an exit code, by a signal
/// (no code), or not at all, because it could not be started.
pub enum CommandEnd<S> {
    Exited { code: Option<i32> },
    NotStarted { error: S },
}

impl View for CommandEnd<String> {
    type V = CommandEnd<Seq<char>>;

    open spec fn view(&self) -> CommandEnd<Seq<char>> {
        match self {
            CommandEnd::Exited { code } => CommandEnd::Exited { code: *code },
            CommandEnd::NotStarted { error } => CommandEnd::NotStarted { error: error@ },
        }
    }
}

/// Why an elevated copy failed, if it did.
pub open spec fn elevation_failure(program: Seq<char>, end: CommandEnd<Seq<char>>) -> Option<
    Seq<char>,
> {
    match end {
        CommandEnd::Exited { code } => if code == Some(0i32) {
            None
        } else {
            let code = match code {
                Some(code) => code as int,
                None => -1,
            };
            Some(
                "elevated copy failed ("@ + program + " exit "@ + signed_decimal(code)
                    + ")"@,
            )
        },
        CommandEnd::NotStarted { error } => if program == "pkexec"@ {
            Some("cannot run pkexec (polkit agent missing?): "@ + error)
        } else {
            Some("cannot run "@ + program + ": "@ + error)
        },
    }
}

/// The result of an elevated copy, from the end of its command.
pub fn elevation_result(program: &str, end: CommandEnd<String>) -> (r: Result<(), String>)
    ensures
        match elevation_failure(program@, end@) {
            None => r is Ok,
            Some(message) => r is Err && r->Err_0@ == message,
        },
{
    match end {
        CommandEnd::Exited { code } => {
            let code: i32 = match code {
                Some(code) => {
                    if code == 0 {
                        return Ok(());
                    }
                    code
                },
                None => -1,
            };
            let mut message = "elevated copy failed (".to_owned();
            message.append(program);
            message.append(" exit ");
            message.append(&signed_decimal_text(code));
            message.append(")");
            Err(message)
        },
        CommandEnd::NotStarted { error } => {
            let mut message = String::new();
            if same(program, "pkexec") {
                message = "cannot run pkexec (polkit agent missing?): ".to_owned();
            } else {
                message = "cannot run ".to_owned();
                message.append(program);
                message.append(": ");
            }
            message.append(&error);
            Err(message)
        },
    }
}

/// The words of the copy command stand for the paths, whatever characters these
/// hold: no part of a path is read as anything else.
pub proof fn law_words_stand_for_paths(path: Seq<char>)
    ensures
        shell_word(quoted(path), false) == Some(path),
        shell_word(quoted(path) + "/."@, false) == Some(path + "/."@),
        shell_word(quoted(path) + "/"@, false) == Some(path + "/"@),
{
    reveal_strlit("/.");
    reveal_strlit("/");
    reveal_with_fuel(shell_word, 3);
    law_quoted_is_one_word(path, "/."@);
    law_quoted_is_one_word(path, "/"@);
    assert("/."@.skip(1) =~= seq!['.']);
    assert(seq!['.'].skip(1) =~= seq![]);
    assert("/"@.skip(1) =~= seq![]);
    assert(shell_word("/."@, false)->0 =~= "/."@);
    assert(shell_word("/"@, false)->0 =~= "/"@);
}

/// Updates that run at the same time, in different processes, write different
/// scripts.
pub proof fn law_script_of_its_own(a: HostView, b: HostView)
    requires
        a.platform == b.platform,
        a.temp_dir == b.temp_dir,
        a.pid != b.pid,
    ensures
        script_path(a) != script_path(b),
{
    let front = opened(a.platform.path_style(), a.temp_dir) + "qomicex-update-elevate-"@;
    lemma_decimal_between(front, a.pid as nat, b.pid as nat, ".sh"@);
    assert(script_path(a) =~= front + decimal(a.pid as nat) + ".sh"@);
    assert(script_path(b) =~= front + decimal(b.pid as nat) + ".sh"@);
}

/// Words of a command, one behind the other.
pub open spec fn spaced(words: Seq<Seq<char>>) -> Seq<char>
    decreases words.len(),
{
    if words.len() == 0 {
        seq![]
    } else if words.len() == 1 {
        words[0]
    } else {
        spaced(words.drop_last()) + " "@ + words.last()
    }
}

/// The command copies what is in `src` over `dst`, and once that is done removes
/// `src`, and with `sweep` the leftovers of downloads in `dst`, by what a shell makes
/// of its words.
pub open spec fn is_copy(
    words: Seq<Seq<char>>,
    src: Seq<char>,
    dst: Seq<char>,
    sweep: bool,
) -> bool {
    &&& words.len() == if sweep {
        9int
    } else {
        8int
    }
    &&& words[0] == "cp"@
    &&& words[1] == "-a"@
    &&& shell_word(words[2], false) == Some(src + "/."@)
    &&& shell_word(words[3], false) == Some(dst + "/"@)
    &&& words[4] == "&&"@
    &&& words[5] == "rm"@
    &&& words[6] == "-rf"@
    &&& shell_word(words[7], false) == Some(src)
    &&& sweep ==> exists|word: Seq<char>|
        words[8] == word + "/*.qdtmp"@ && #[trigger] shell_word(word, false) == Some(dst)
}

/// The script of an elevated copy stops at the first command that fails, and its one
/// line copies from the staging directory over the target, and not the other way
/// round, before anything is removed; only the staging directory is, and leftovers
/// of downloads in the target where they are to be.
pub proof fn law_script_copies(src: Seq<char>, dst: Seq<char>, sweep: bool)
    ensures
        exists|words: Seq<Seq<char>>|
            script_text(src, dst, sweep) == "#!/bin/sh\nset -e\n"@ + #[trigger] spaced(words)
                + "\n"@ && is_copy(words, src, dst, sweep),
{
    law_words_stand_for_paths(src);
    law_words_stand_for_paths(dst);
    reveal_strlit("cp -a ");
    reveal_strlit("/. ");
    reveal_strlit("/ && rm -rf ");
    reveal_strlit(" ");
    reveal_strlit("cp");
    reveal_strlit("-a");
    reveal_strlit("/.");
    reveal_strlit("/");
    reveal_strlit("&&");
    reveal_strlit("rm");
    reveal_strlit("-rf");
    let w0 = seq!["cp"@];
    let w1 = w0.push("-a"@);
    let w2 = w1.push(quoted(src) + "/."@);
    let w3 = w2.push(quoted(dst) + "/"@);
    let w4 = w3.push("&&"@);
    let w5 = w4.push("rm"@);
    let w6 = w5.push("-rf"@);
    let w7 = w6.push(quoted(src));
    let w8 = w7.push(quoted(dst) + "/*.qdtmp"@);
    lemma_spaced(w0, "-a"@);
    lemma_spaced(w1, quoted(src) + "/."@);
    lemma_spaced(w2, quoted(dst) + "/"@);
    lemma_spaced(w3, "&&"@);
    lemma_spaced(w4, "rm"@);
    lemma_spaced(w5, "-rf"@);
    lemma_spaced(w6, quoted(src));
    lemma_spaced(w7, quoted(dst) + "/*.qdtmp"@);
    assert(spaced(w0) == "cp"@);
    assert("cp -a "@ =~= "cp"@ + " "@ + "-a"@ + " "@);
    assert("/. "@ =~= "/."@ + " "@);
    assert("/ && rm -rf "@ =~= "/"@ + " "@ + "&&"@ + " "@ + "rm"@ + " "@ + "-rf"@ + " "@);
    assert(spaced(w7) =~= copy_command(src, dst, false));
    assert(spaced(w8) =~= copy_command(src, dst, true));
    let words = if sweep {
        w8
    } else {
        w7
    };
    assert(is_copy(words, src, dst, sweep)) by {
        assert(shell_word(quoted(dst), false) == Some(dst));
    }
    assert(script_text(src, dst, sweep) == "#!/bin/sh\nset -e\n"@ + spaced(words) + "\n"@);
}

proof fn lemma_spaced(words: Seq<Seq<char>>, word: Seq<char>)
    requires
        words.len() > 0,
    ensures
        spaced(words.push(word)) == spaced(words) + " "@ + word,
{
    assert(words.push(word).drop_last() =~= words);
}

/// An AppleScript line that has a shell run a script with the rights of an
/// administrator.
pub open spec fn is_apple_run(line: Seq<char>, script: Seq<char>) -> bool {
    exists|text: Seq<char>, word: Seq<char>|
        {
            &&& line == "do shell script "@ + text + " with administrator privileges"@
            &&& text.len() > 0 && text[0] == '"'
            &&& #[trigger] apple_text(text.skip(1)) == Some("sh "@ + word)
            &&& #[trigger] shell_word(word, false) == Some(script)
        }
}

/// Rights can be elevated on Linux and on macOS. There the command has a shell run
/// the very script that is written, whatever characters its path holds: on Linux by
/// `pkexec`, on macOS by `osascript`.
pub proof fn law_command_runs_the_script(
    host: HostView,
    src: Seq<char>,
    dst: Seq<char>,
    sweep: bool,
)
    ensures
        elevation(host, src, dst, sweep) is Ok <==> host.platform == Platform::Linux
            || host.platform == Platform::MacOs,
        elevation(host, src, dst, sweep) matches Ok(plan) ==> {
            &&& plan.text == script_text(src, dst, sweep)
            &&& opened(host.platform.path_style(), host.temp_dir).is_prefix_of(plan.script)
            &&& host.platform == Platform::Linux ==> plan.command == (CommandView {
                program: "pkexec"@,
                args: seq!["sh"@, plan.script],
            })
            &&& host.platform == Platform::MacOs ==> {
                &&& plan.command.program == "osascript"@
                &&& plan.command.args.len() == 2
                &&& plan.command.args[0] == "-e"@
                &&& is_apple_run(plan.command.args[1], plan.script)
            }
        },
{
    let script = script_path(host);
    let front = opened(host.platform.path_style(), host.temp_dir);
    assert(script.subrange(0, front.len() as int) =~= front);
    let word = quoted(script);
    let text = apple_string("sh "@ + word);
    law_quoted_is_one_word(script, seq![]);
    law_apple_string_stands_for_text("sh "@ + word);
    assert(apple_text(text.skip(1)) == Some("sh "@ + word));
    assert(shell_word(word, false) == Some(script));
}

/// An elevated copy has succeeded exactly where its command ended with the code zero.
/// Otherwise the message tells the program, and the code with which it ended, -1 where
/// there is none, or why it could not be started.
pub proof fn law_copy_succeeds_with_zero(program: Seq<char>, end: CommandEnd<Seq<char>>)
    ensures
        elevation_failure(program, end) is None <==> end == (CommandEnd::<Seq<char>>::Exited {
            code: Some(0i32),
        }),
        end matches CommandEnd::Exited { code } ==> (code != Some(0i32) ==> elevation_failure(
            program,
            end,
        ) == Some(
            "elevated copy failed ("@ + program + " exit "@ + signed_decimal(
                match code {
                    Some(code) => code as int,
                    None => -1,
                },
            ) + ")"@,
        )),
        end matches CommandEnd::NotStarted { error } ==> elevation_failure(program, end) is Some
            && error.is_suffix_of(elevation_failure(program, end)->0),
{
    if let CommandEnd::NotStarted { error } = end {
        let message = elevation_failure(program, end)->0;
        assert(message.subrange(message.len() - error.len(), message.len() as int) =~= error);
    }
}

} // verus!
