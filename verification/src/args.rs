//! The command line.
//!
//! Every option takes a value, so the words behind the program's name come in
//! pairs of an option and its value.

use vstd::prelude::*;
use crate::text::{concat, decimal, lemma_decimal_read, parse_u32, same, u32_of};

verus! {

/// The options of the command line.
pub struct Args {
    /// The downloaded update package.
    pub package: String,
    /// The signature over the package.
    pub signature: String,
    /// How to install: `dir`, `appimage`, `app` or `system`.
    pub strategy: String,
    /// The directory that the `dir` strategy installs into.
    pub install_dir: Option<String>,
    /// The file that the `appimage` strategy replaces.
    pub appimage: Option<String>,
    /// The bundle that the `app` strategy installs into.
    pub app_bundle: Option<String>,
    /// The process that has to exit before any file is touched.
    pub wait_pid: Option<u32>,
    /// The executable to start after a successful installation.
    pub launch: Option<String>,
}

/// What [`Args`] holds, as text.
#[verifier::ext_equal]
pub struct ArgsView {
    pub package: Seq<char>,
    pub signature: Seq<char>,
    pub strategy: Seq<char>,
    pub install_dir: Option<Seq<char>>,
    pub appimage: Option<Seq<char>>,
    pub app_bundle: Option<Seq<char>>,
    pub wait_pid: Option<u32>,
    pub launch: Option<Seq<char>>,
}

/// The text of an optional string.
pub open spec fn optional(s: Option<String>) -> Option<Seq<char>> {
    match s {
        Some(s) => Some(s@),
        None => None,
    }
}

/// The texts of a list of strings.
pub open spec fn texts(v: Seq<String>) -> Seq<Seq<char>> {
    v.map_values(|s: String| s@)
}

impl View for Args {
    type V = ArgsView;

    open spec fn view(&self) -> ArgsView {
        ArgsView {
            package: self.package@,
            signature: self.signature@,
            strategy: self.strategy@,
            install_dir: optional(self.install_dir),
            appimage: optional(self.appimage),
            app_bundle: optional(self.app_bundle),
            wait_pid: self.wait_pid,
            launch: optional(self.launch),
        }
    }
}

/// The options that the command line knows.
#[derive(Clone, Copy, PartialEq, Eq, Structural, Debug)]
pub enum Flag {
    Package,
    Signature,
    Strategy,
    InstallDir,
    AppImage,
    AppBundle,
    WaitPid,
    Launch,
}

/// How an option is written.
pub open spec fn flag_word(flag: Flag) -> Seq<char> {
    match flag {
        Flag::Package => "--package"@,
        Flag::Signature => "--signature"@,
        Flag::Strategy => "--strategy"@,
        Flag::InstallDir => "--install-dir"@,
        Flag::AppImage => "--appimage"@,
        Flag::AppBundle => "--app-bundle"@,
        Flag::WaitPid => "--wait-pid"@,
        Flag::Launch => "--launch"@,
    }
}

/// The option that a word is.
pub open spec fn flag_of(word: Seq<char>) -> Option<Flag> {
    if word == "--package"@ {
        Some(Flag::Package)
    } else if word == "--signature"@ {
        Some(Flag::Signature)
    } else if word == "--strategy"@ {
        Some(Flag::Strategy)
    } else if word == "--install-dir"@ {
        Some(Flag::InstallDir)
    } else if word == "--appimage"@ {
        Some(Flag::AppImage)
    } else if word == "--app-bundle"@ {
        Some(Flag::AppBundle)
    } else if word == "--wait-pid"@ {
        Some(Flag::WaitPid)
    } else if word == "--launch"@ {
        Some(Flag::Launch)
    } else {
        None
    }
}

/// What is wrong with the `k`-th pair of words, if anything.
pub open spec fn pair_fault(words: Seq<Seq<char>>, k: nat) -> Option<Seq<char>> {
    match flag_of(words[2 * k as int]) {
        None => Some("unknown argument: "@ + words[2 * k as int]),
        Some(flag) => if 2 * k + 1 >= words.len() {
            Some("missing value for "@ + flag_word(flag))
        } else if flag == Flag::WaitPid && u32_of(words[2 * k as int + 1]) is None {
            Some("--wait-pid expects a pid"@)
        } else {
            None
        },
    }
}

/// The fault of the first faulty pair from the `k`-th on.
pub open spec fn first_fault(words: Seq<Seq<char>>, k: nat) -> Option<Seq<char>>
    decreases words.len() - 2 * k,
{
    if 2 * k >= words.len() {
        None
    } else if pair_fault(words, k) is Some {
        pair_fault(words, k)
    } else {
        first_fault(words, k + 1)
    }
}

/// The value of an option among the first `n` pairs: where it is given more
/// than once, the last one counts.
pub open spec fn value_in(words: Seq<Seq<char>>, flag: Flag, n: nat) -> Option<Seq<char>>
    decreases n,
{
    if n == 0 {
        None
    } else if flag_of(words[2 * (n - 1)]) == Some(flag) {
        Some(words[2 * (n - 1) + 1])
    } else {
        value_in(words, flag, (n - 1) as nat)
    }
}

/// The value of an option.
pub open spec fn value_of(words: Seq<Seq<char>>, flag: Flag) -> Option<Seq<char>> {
    value_in(words, flag, words.len() / 2)
}

/// The options that a list of words gives, or what is wrong with it: the first
/// faulty pair comes first, then a missing mandatory option.
pub open spec fn options_of(words: Seq<Seq<char>>) -> Result<ArgsView, Seq<char>> {
    if first_fault(words, 0) is Some {
        Err(first_fault(words, 0)->0)
    } else if value_of(words, Flag::Package) is None {
        Err("missing --package"@)
    } else if value_of(words, Flag::Signature) is None {
        Err("missing --signature"@)
    } else if value_of(words, Flag::Strategy) is None {
        Err("missing --strategy"@)
    } else {
        Ok(
            ArgsView {
                package: value_of(words, Flag::Package)->0,
                signature: value_of(words, Flag::Signature)->0,
                strategy: value_of(words, Flag::Strategy)->0,
                install_dir: value_of(words, Flag::InstallDir),
                appimage: value_of(words, Flag::AppImage),
                app_bundle: value_of(words, Flag::AppBundle),
                wait_pid: match value_of(words, Flag::WaitPid) {
                    Some(word) => u32_of(word),
                    None => None,
                },
                launch: value_of(words, Flag::Launch),
            },
        )
    }
}

/// The words of a command line behind the program's name.
pub open spec fn words_of(argv: Seq<Seq<char>>) -> Seq<Seq<char>> {
    if argv.len() == 0 {
        argv
    } else {
        argv.drop_first()
    }
}

/// How the outcome of reading a command line stands for a specified one.
pub open spec fn args_match(r: Result<Args, String>, expected: Result<ArgsView, Seq<char>>) -> bool {
    match expected {
        Ok(args) => r is Ok && r->Ok_0@ == args,
        Err(message) => r is Err && r->Err_0@ == message,
    }
}

fn read_flag(word: &str) -> (r: Option<Flag>)
    ensures
        r == flag_of(word@),
{
    if same(word, "--package") {
        Some(Flag::Package)
    } else if same(word, "--signature") {
        Some(Flag::Signature)
    } else if same(word, "--strategy") {
        Some(Flag::Strategy)
    } else if same(word, "--install-dir") {
        Some(Flag::InstallDir)
    } else if same(word, "--appimage") {
        Some(Flag::AppImage)
    } else if same(word, "--app-bundle") {
        Some(Flag::AppBundle)
    } else if same(word, "--wait-pid") {
        Some(Flag::WaitPid)
    } else if same(word, "--launch") {
        Some(Flag::Launch)
    } else {
        None
    }
}

/// Reads the command line `argv`, whose first word is the program's name.
pub fn parse_args(argv: &Vec<String>) -> (r: Result<Args, String>)
    ensures
        args_match(r, options_of(words_of(texts(argv@)))),
{
    let ghost words = words_of(texts(argv@));
    let mut package: Option<String> = None;
    let mut signature: Option<String> = None;
    let mut strategy: Option<String> = None;
    let mut install_dir: Option<String> = None;
    let mut appimage: Option<String> = None;
    let mut app_bundle: Option<String> = None;
    let mut wait_pid: Option<u32> = None;
    let mut launch: Option<String> = None;

    let count: usize = argv.len();
    let mut i: usize = 1;
    let ghost mut k: nat = 0;
    while i < count
        invariant
            count == argv@.len(),
            words == words_of(texts(argv@)),
            i == 2 * k + 1,
            count > 0 ==> i <= count,
            count == 0 ==> k == 0,
            first_fault(words, 0) == first_fault(words, k),
            optional(package) == value_in(words, Flag::Package, k),
            optional(signature) == value_in(words, Flag::Signature, k),
            optional(strategy) == value_in(words, Flag::Strategy, k),
            optional(install_dir) == value_in(words, Flag::InstallDir, k),
            optional(appimage) == value_in(words, Flag::AppImage, k),
            optional(app_bundle) == value_in(words, Flag::AppBundle, k),
            wait_pid == match value_in(words, Flag::WaitPid, k) {
                Some(word) => u32_of(word),
                None => None,
            },
            optional(launch) == value_in(words, Flag::Launch, k),
        decreases count - i,
    {
        let word = argv[i].as_str();
        assert(word@ == words[2 * k as int]);
        let flag = match read_flag(word) {
            Some(flag) => flag,
            None => {
                return Err(concat("unknown argument: ", word));
            },
        };
        if i == count - 1 {
            return Err(concat("missing value for ", word));
        }
        let value = argv[i + 1].clone();
        assert(value@ == words[2 * k as int + 1]);
        match flag {
            Flag::Package => {
                package = Some(value);
            },
            Flag::Signature => {
                signature = Some(value);
            },
            Flag::Strategy => {
                strategy = Some(value);
            },
            Flag::InstallDir => {
                install_dir = Some(value);
            },
            Flag::AppImage => {
                appimage = Some(value);
            },
            Flag::AppBundle => {
                app_bundle = Some(value);
            },
            Flag::WaitPid => {
                wait_pid = parse_u32(&value);
                if wait_pid.is_none() {
                    return Err("--wait-pid expects a pid".to_owned());
                }
            },
            Flag::Launch => {
                launch = Some(value);
            },
        }
        i += 2;
        proof {
            k = k + 1;
        }
    }
    assert(words.len() / 2 == k);
    let package = match package {
        Some(path) => path,
        None => {
            return Err("missing --package".to_owned());
        },
    };
    let signature = match signature {
        Some(path) => path,
        None => {
            return Err("missing --signature".to_owned());
        },
    };
    let strategy = match strategy {
        Some(name) => name,
        None => {
            return Err("missing --strategy".to_owned());
        },
    };
    Ok(
        Args {
            package,
            signature,
            strategy,
            install_dir,
            appimage,
            app_bundle,
            wait_pid,
            launch,
        },
    )
}

/// An option with its value, as words of the command line.
pub open spec fn pair(flag: Flag, value: Seq<char>) -> Seq<Seq<char>> {
    seq![flag_word(flag), value]
}

/// Every word of an option is read as that option.
proof fn lemma_flag_word(flag: Flag)
    ensures
        flag_of(flag_word(flag)) == Some(flag),
{
    reveal_strlit("--package");
    reveal_strlit("--signature");
    reveal_strlit("--strategy");
    reveal_strlit("--install-dir");
    reveal_strlit("--appimage");
    reveal_strlit("--app-bundle");
    reveal_strlit("--wait-pid");
    reveal_strlit("--launch");
    assert("--package"@.len() == 9);
    assert("--package"@[2] == 'p');
    assert("--signature"@[3] == 'i');
    assert("--strategy"@[3] == 't');
    assert("--appimage"@[5] == 'i');
    assert("--wait-pid"@[2] == 'w');
    assert("--launch"@.len() == 8);
    assert("--install-dir"@.len() == 13);
    assert("--app-bundle"@.len() == 12);
}

/// The first `n` pairs do not depend on what follows them.
proof fn lemma_value_before(a: Seq<Seq<char>>, b: Seq<Seq<char>>, flag: Flag, n: nat)
    requires
        2 * n <= a.len(),
    ensures
        value_in(a + b, flag, n) == value_in(a, flag, n),
    decreases n,
{
    if n > 0 {
        lemma_value_before(a, b, flag, (n - 1) as nat);
    }
}

proof fn lemma_value_behind(a: Seq<Seq<char>>, b: Seq<Seq<char>>, flag: Flag, n: nat)
    requires
        a.len() % 2 == 0,
        2 * n <= b.len(),
    ensures
        value_in(a + b, flag, a.len() / 2 + n) == match value_in(b, flag, n) {
            Some(value) => Some(value),
            None => value_of(a, flag),
        },
    decreases n,
{
    if n > 0 {
        lemma_value_behind(a, b, flag, (n - 1) as nat);
        let at = 2 * (a.len() / 2 + n - 1);
        assert((a + b)[at] == b[2 * (n - 1)]);
        assert((a + b)[at + 1] == b[2 * (n - 1) + 1]);
    } else {
        lemma_value_before(a, b, flag, a.len() / 2);
    }
}

proof fn lemma_fault_behind(a: Seq<Seq<char>>, b: Seq<Seq<char>>, k: nat)
    requires
        a.len() % 2 == 0,
    ensures
        first_fault(a + b, a.len() / 2 + k) == first_fault(b, k),
    decreases b.len() + 1 - 2 * k,
{
    if 2 * k < b.len() {
        let at = a.len() / 2 + k;
        assert((a + b)[2 * at as int] == b[2 * k as int]);
        if 2 * k + 1 < b.len() {
            assert((a + b)[2 * at as int + 1] == b[2 * k as int + 1]);
        }
        assert(pair_fault(a + b, at) == pair_fault(b, k));
        lemma_fault_behind(a, b, k + 1);
    }
}

proof fn lemma_fault_before(a: Seq<Seq<char>>, b: Seq<Seq<char>>, k: nat)
    requires
        a.len() % 2 == 0,
        2 * k <= a.len(),
    ensures
        first_fault(a + b, k) == match first_fault(a, k) {
            Some(fault) => Some(fault),
            None => first_fault(b, 0),
        },
    decreases a.len() - 2 * k,
{
    if 2 * k < a.len() {
        assert((a + b)[2 * k as int] == a[2 * k as int]);
        assert((a + b)[2 * k as int + 1] == a[2 * k as int + 1]);
        assert(pair_fault(a + b, k) == pair_fault(a, k));
        lemma_fault_before(a, b, k + 1);
    } else {
        lemma_fault_behind(a, b, 0);
    }
}

/// Two lists of words, one behind the other: a fault of the first comes first,
/// and an option has the value that the second gives it, if it gives it one.
pub proof fn law_one_behind_the_other(a: Seq<Seq<char>>, b: Seq<Seq<char>>, flag: Flag)
    requires
        a.len() % 2 == 0,
    ensures
        first_fault(a + b, 0) == match first_fault(a, 0) {
            Some(fault) => Some(fault),
            None => first_fault(b, 0),
        },
        value_of(a + b, flag) == match value_of(b, flag) {
            Some(value) => Some(value),
            None => value_of(a, flag),
        },
{
    lemma_fault_before(a, b, 0);
    lemma_value_behind(a, b, flag, b.len() / 2);
}

/// What a single option with its value says.
proof fn lemma_pair(flag: Flag, value: Seq<char>, other: Flag)
    ensures
        value_of(pair(flag, value), other) == if other == flag {
            Some(value)
        } else {
            None
        },
        first_fault(pair(flag, value), 0) == if flag == Flag::WaitPid && u32_of(value) is None {
            Some("--wait-pid expects a pid"@)
        } else {
            None
        },
{
    lemma_flag_word(flag);
    reveal_with_fuel(value_in, 2);
    reveal_with_fuel(first_fault, 2);
    assert(pair(flag, value)[0] == flag_word(flag));
}

/// Where an option is given more than once, the last value counts, and the other
/// options stay as they are.
pub proof fn law_last_counts(words: Seq<Seq<char>>, flag: Flag, value: Seq<char>, other: Flag)
    requires
        words.len() % 2 == 0,
    ensures
        value_of(words + pair(flag, value), flag) == Some(value),
        other != flag ==> value_of(words + pair(flag, value), other) == value_of(words, other),
{
    law_one_behind_the_other(words, pair(flag, value), flag);
    law_one_behind_the_other(words, pair(flag, value), other);
    lemma_pair(flag, value, flag);
    lemma_pair(flag, value, other);
}

/// The order of different options does not matter.
pub proof fn law_order_is_free(
    before: Seq<Seq<char>>,
    first: Flag,
    first_value: Seq<char>,
    second: Flag,
    second_value: Seq<char>,
    behind: Seq<Seq<char>>,
)
    requires
        before.len() % 2 == 0,
        first != second,
    ensures
        options_of(before + pair(first, first_value) + pair(second, second_value) + behind)
            == options_of(before + pair(second, second_value) + pair(first, first_value) + behind),
{
    let p = pair(first, first_value);
    let q = pair(second, second_value);
    assert forall|flag: Flag| #[trigger]
        value_of(before + p + q + behind, flag) == value_of(before + q + p + behind, flag) by {
        law_one_behind_the_other(before, p, flag);
        law_one_behind_the_other(before + p, q, flag);
        law_one_behind_the_other(before + p + q, behind, flag);
        law_one_behind_the_other(before, q, flag);
        law_one_behind_the_other(before + q, p, flag);
        law_one_behind_the_other(before + q + p, behind, flag);
        lemma_pair(first, first_value, flag);
        lemma_pair(second, second_value, flag);
    }
    assert(first_fault(before + p + q + behind, 0) == first_fault(before + q + p + behind, 0)) by {
        law_one_behind_the_other(before, p, first);
        law_one_behind_the_other(before + p, q, first);
        law_one_behind_the_other(before + p + q, behind, first);
        law_one_behind_the_other(before, q, first);
        law_one_behind_the_other(before + q, p, first);
        law_one_behind_the_other(before + q + p, behind, first);
        lemma_pair(first, first_value, first);
        lemma_pair(second, second_value, first);
    }
}

/// The words of an option that may be left out.
pub open spec fn optional_pair(flag: Flag, value: Option<Seq<char>>) -> Seq<Seq<char>> {
    match value {
        Some(value) => pair(flag, value),
        None => seq![],
    }
}

/// A list of words that gives these options.
pub open spec fn command_words(args: ArgsView) -> Seq<Seq<char>> {
    let pid = match args.wait_pid {
        Some(pid) => Some(decimal(pid as nat)),
        None => None,
    };
    pair(Flag::Package, args.package) + pair(Flag::Signature, args.signature) + pair(
        Flag::Strategy,
        args.strategy,
    ) + optional_pair(Flag::InstallDir, args.install_dir) + optional_pair(
        Flag::AppImage,
        args.appimage,
    ) + optional_pair(Flag::AppBundle, args.app_bundle) + optional_pair(Flag::WaitPid, pid)
        + optional_pair(Flag::Launch, args.launch)
}

/// One more option at the end of the words, if it is not left out.
proof fn lemma_add_optional(words: Seq<Seq<char>>, flag: Flag, value: Option<Seq<char>>)
    requires
        words.len() % 2 == 0,
        first_fault(words, 0) is None,
        flag == Flag::WaitPid && value is Some ==> u32_of(value->0) is Some,
        value_of(words, flag) is None,
    ensures
        (words + optional_pair(flag, value)).len() % 2 == 0,
        first_fault(words + optional_pair(flag, value), 0) is None,
        forall|other: Flag| #[trigger]
            value_of(words + optional_pair(flag, value), other) == if other == flag {
                value
            } else {
                value_of(words, other)
            },
{
    match value {
        Some(value) => {
            law_one_behind_the_other(words, pair(flag, value), flag);
            lemma_pair(flag, value, flag);
            assert forall|other: Flag| other != flag implies #[trigger] value_of(
                words + pair(flag, value),
                other,
            ) == value_of(words, other) by {
                law_last_counts(words, flag, value, other);
            }
        },
        None => {
            assert(words + optional_pair(flag, value) =~= words);
        },
    }
}

/// Whatever the options are, there is a command line that gives them.
pub proof fn law_every_choice_can_be_given(args: ArgsView)
    ensures
        options_of(command_words(args)) == Ok::<ArgsView, Seq<char>>(args),
{
    let pid = match args.wait_pid {
        Some(pid) => Some(decimal(pid as nat)),
        None => None,
    };
    if args.wait_pid is Some {
        lemma_decimal_read(args.wait_pid->0);
    }
    let w0: Seq<Seq<char>> = seq![];
    lemma_add_optional(w0, Flag::Package, Some(args.package));
    let w1 = pair(Flag::Package, args.package);
    assert(w0 + w1 =~= w1);
    lemma_add_optional(w1, Flag::Signature, Some(args.signature));
    let w2 = w1 + pair(Flag::Signature, args.signature);
    lemma_add_optional(w2, Flag::Strategy, Some(args.strategy));
    let w3 = w2 + pair(Flag::Strategy, args.strategy);
    lemma_add_optional(w3, Flag::InstallDir, args.install_dir);
    let w4 = w3 + optional_pair(Flag::InstallDir, args.install_dir);
    lemma_add_optional(w4, Flag::AppImage, args.appimage);
    let w5 = w4 + optional_pair(Flag::AppImage, args.appimage);
    lemma_add_optional(w5, Flag::AppBundle, args.app_bundle);
    let w6 = w5 + optional_pair(Flag::AppBundle, args.app_bundle);
    lemma_add_optional(w6, Flag::WaitPid, pid);
    let w7 = w6 + optional_pair(Flag::WaitPid, pid);
    lemma_add_optional(w7, Flag::Launch, args.launch);
}

/// The word at the place of the `k`-th option.
pub open spec fn option_at(words: Seq<Seq<char>>, k: int) -> Seq<char> {
    words[2 * k]
}

/// The word behind the `k`-th option.
pub open spec fn value_at(words: Seq<Seq<char>>, k: int) -> Seq<char> {
    words[2 * k + 1]
}

/// The option is given under `word` at least once, with `value` behind it the last
/// time; or it is not given at all, and there is no value.
pub open spec fn is_given(
    words: Seq<Seq<char>>,
    word: Seq<char>,
    value: Option<Seq<char>>,
) -> bool {
    match value {
        Some(value) => exists|k: int|
            {
                &&& 0 <= k
                &&& 2 * k + 1 < words.len()
                &&& #[trigger] option_at(words, k) == word
                &&& value_at(words, k) == value
                &&& forall|later: int|
                    k < later && 2 * later + 1 < words.len() ==> #[trigger] option_at(words, later)
                        != word
            },
        None => forall|k: int|
            0 <= k && 2 * k + 1 < words.len() ==> #[trigger] option_at(words, k) != word,
    }
}

/// A word that is an option.
pub open spec fn is_option(word: Seq<char>) -> bool {
    ||| word == "--package"@
    ||| word == "--signature"@
    ||| word == "--strategy"@
    ||| word == "--install-dir"@
    ||| word == "--appimage"@
    ||| word == "--app-bundle"@
    ||| word == "--wait-pid"@
    ||| word == "--launch"@
}

/// A word is read as an option exactly where it is how the option is written.
proof fn lemma_flag_of(word: Seq<char>, flag: Flag)
    ensures
        flag_of(word) == Some(flag) <==> word == flag_word(flag),
        flag_of(word) is Some <==> is_option(word),
{
    lemma_flag_word(flag);
}

proof fn lemma_no_fault(words: Seq<Seq<char>>, k: nat)
    ensures
        first_fault(words, k) is None <==> forall|i: nat|
            k <= i && 2 * i < words.len() ==> #[trigger] pair_fault(words, i) is None,
    decreases words.len() + 2 - 2 * k,
{
    if 2 * k < words.len() {
        lemma_no_fault(words, k + 1);
        if first_fault(words, k) is None {
            assert forall|i: nat| k <= i && 2 * i < words.len() implies #[trigger] pair_fault(
                words,
                i,
            ) is None by {
                if i > k {
                    assert(k + 1 <= i);
                }
            }
        } else if pair_fault(words, k) is None {
            assert(first_fault(words, k + 1) is Some);
        }
    }
}

proof fn lemma_value_in(words: Seq<Seq<char>>, flag: Flag, n: nat)
    requires
        2 * n <= words.len(),
    ensures
        value_in(words, flag, n) matches Some(value) ==> exists|k: int|
            {
                &&& 0 <= k < n
                &&& #[trigger] option_at(words, k) == flag_word(flag)
                &&& value_at(words, k) == value
                &&& forall|later: int|
                    k < later < n ==> #[trigger] option_at(words, later) != flag_word(flag)
            },
        value_in(words, flag, n) is None ==> forall|k: int|
            0 <= k < n ==> #[trigger] option_at(words, k) != flag_word(flag),
    decreases n,
{
    if n > 0 {
        let m = (n - 1) as nat;
        lemma_flag_of(words[2 * (n - 1)], flag);
        lemma_value_in(words, flag, m);
        if flag_of(words[2 * (n - 1)]) == Some(flag) {
            assert(option_at(words, n - 1) == flag_word(flag));
        } else if value_in(words, flag, n) is Some {
            let value = value_in(words, flag, n)->0;
            let k = choose|k: int|
                {
                    &&& 0 <= k < m
                    &&& #[trigger] option_at(words, k) == flag_word(flag)
                    &&& value_at(words, k) == value
                    &&& forall|later: int|
                        k < later < m ==> #[trigger] option_at(words, later) != flag_word(flag)
                };
            assert forall|later: int| k < later < n implies #[trigger] option_at(words, later)
                != flag_word(flag) by {
                if later == n - 1 {
                    assert(option_at(words, later) == words[2 * (n - 1)]);
                }
            }
            assert(option_at(words, k) == flag_word(flag));
        } else {
            assert forall|k: int| 0 <= k < n implies #[trigger] option_at(words, k) != flag_word(
                flag,
            ) by {
                if k == n - 1 {
                    assert(option_at(words, k) == words[2 * (n - 1)]);
                }
            }
        }
    }
}

proof fn lemma_given(words: Seq<Seq<char>>, flag: Flag)
    ensures
        is_given(words, flag_word(flag), value_of(words, flag)),
{
    let n = words.len() / 2;
    lemma_value_in(words, flag, n);
    match value_of(words, flag) {
        Some(value) => {
            let k = choose|k: int|
                {
                    &&& 0 <= k < n
                    &&& #[trigger] option_at(words, k) == flag_word(flag)
                    &&& value_at(words, k) == value
                    &&& forall|later: int|
                        k < later < n ==> #[trigger] option_at(words, later) != flag_word(flag)
                };
            assert(option_at(words, k) == flag_word(flag));
        },
        None => {},
    }
}

/// What a command line says: each option has the word behind it as its value, the last
/// time it is given, and no other option says anything of it. The process to wait for
/// is the number that its word denotes.
pub proof fn law_options_have_their_values(words: Seq<Seq<char>>)
    requires
        options_of(words) is Ok,
    ensures
        ({
            let args = options_of(words)->Ok_0;
            &&& is_given(words, "--package"@, Some(args.package))
            &&& is_given(words, "--signature"@, Some(args.signature))
            &&& is_given(words, "--strategy"@, Some(args.strategy))
            &&& is_given(words, "--install-dir"@, args.install_dir)
            &&& is_given(words, "--appimage"@, args.appimage)
            &&& is_given(words, "--app-bundle"@, args.app_bundle)
            &&& is_given(words, "--launch"@, args.launch)
            &&& match args.wait_pid {
                Some(pid) => exists|word: Seq<char>|
                    is_given(words, "--wait-pid"@, Some(word)) && #[trigger] u32_of(word) == Some(
                        pid,
                    ),
                None => is_given(words, "--wait-pid"@, None),
            }
        }),
{
    lemma_given(words, Flag::Package);
    lemma_given(words, Flag::Signature);
    lemma_given(words, Flag::Strategy);
    lemma_given(words, Flag::InstallDir);
    lemma_given(words, Flag::AppImage);
    lemma_given(words, Flag::AppBundle);
    lemma_given(words, Flag::WaitPid);
    lemma_given(words, Flag::Launch);
    lemma_no_fault(words, 0);
    if value_of(words, Flag::WaitPid) is Some {
        let word = value_of(words, Flag::WaitPid)->0;
        let k = choose|k: int|
            {
                &&& 0 <= k
                &&& 2 * k + 1 < words.len()
                &&& #[trigger] option_at(words, k) == "--wait-pid"@
                &&& value_at(words, k) == word
                &&& forall|later: int|
                    k < later && 2 * later + 1 < words.len() ==> #[trigger] option_at(words, later)
                        != "--wait-pid"@
            };
        assert(pair_fault(words, k as nat) is None);
        lemma_flag_of(words[2 * k], Flag::WaitPid);
        assert(u32_of(word) is Some);
    }
}

/// A command line is accepted exactly where it comes in pairs of an option and its
/// value, the value of `--wait-pid` is a number, and the package, the signature and
/// the strategy are given.
pub proof fn law_command_line_is_accepted(words: Seq<Seq<char>>)
    ensures
        options_of(words) is Ok <==> {
            &&& words.len() % 2 == 0
            &&& forall|k: int|
                0 <= k && 2 * k < words.len() ==> is_option(#[trigger] option_at(words, k)) && (
                option_at(words, k) == "--wait-pid"@ ==> u32_of(value_at(words, k)) is Some)
            &&& !is_given(words, "--package"@, None)
            &&& !is_given(words, "--signature"@, None)
            &&& !is_given(words, "--strategy"@, None)
        },
{
    lemma_no_fault(words, 0);
    lemma_given(words, Flag::Package);
    lemma_given(words, Flag::Signature);
    lemma_given(words, Flag::Strategy);
    if first_fault(words, 0) is None {
        assert forall|k: int| 0 <= k && 2 * k < words.len() implies is_option(
            #[trigger] option_at(words, k),
        ) && 2 * k + 1 < words.len() && (option_at(words, k) == "--wait-pid"@ ==> u32_of(
            value_at(words, k),
        ) is Some) by {
            assert(pair_fault(words, k as nat) is None);
            lemma_flag_of(words[2 * k], Flag::WaitPid);
        }
        if words.len() % 2 == 1 {
            let k = words.len() / 2;
            assert(is_option(option_at(words, k as int)));
        }
    }
    if words.len() % 2 == 0 && forall|k: int|
        0 <= k && 2 * k < words.len() ==> is_option(#[trigger] option_at(words, k)) && (option_at(
            words,
            k,
        ) == "--wait-pid"@ ==> u32_of(value_at(words, k)) is Some) {
        assert forall|i: nat| 0 <= i && 2 * i < words.len() implies #[trigger] pair_fault(
            words,
            i,
        ) is None by {
            assert(is_option(option_at(words, i as int)));
            lemma_flag_of(words[2 * i as int], Flag::WaitPid);
        }
    }
}

/// What is said of a command line that goes wrong: the first pair of words that is
/// wrong is told, whatever comes behind it, and then a mandatory option that is not
/// given.
pub proof fn law_first_wrong_word_is_told(
    words: Seq<Seq<char>>,
    word: Seq<char>,
    behind: Seq<Seq<char>>,
)
    requires
        words.len() % 2 == 0,
        forall|k: int|
            0 <= k && 2 * k < words.len() ==> is_option(#[trigger] option_at(words, k)) && (
            option_at(words, k) == "--wait-pid"@ ==> u32_of(value_at(words, k)) is Some),
    ensures
        !is_option(word) ==> options_of(words + seq![word] + behind) == Err::<ArgsView, _>(
            "unknown argument: "@ + word,
        ),
        is_option(word) ==> options_of(words + seq![word]) == Err::<ArgsView, _>(
            "missing value for "@ + word,
        ),
        u32_of(word) is None ==> options_of(words + seq!["--wait-pid"@, word] + behind) == Err::<
            ArgsView,
            _,
        >("--wait-pid expects a pid"@),
        is_given(words, "--package"@, None) ==> options_of(words) == Err::<ArgsView, _>(
            "missing --package"@,
        ),
        !is_given(words, "--package"@, None) && is_given(words, "--signature"@, None)
            ==> options_of(words) == Err::<ArgsView, _>("missing --signature"@),
        !is_given(words, "--package"@, None) && !is_given(words, "--signature"@, None) && is_given(
            words,
            "--strategy"@,
            None,
        ) ==> options_of(words) == Err::<ArgsView, _>("missing --strategy"@),
{
    lemma_no_fault(words, 0);
    assert forall|i: nat| 0 <= i && 2 * i < words.len() implies #[trigger] pair_fault(
        words,
        i,
    ) is None by {
        assert(is_option(option_at(words, i as int)));
        lemma_flag_of(words[2 * i as int], Flag::WaitPid);
    }
    lemma_given(words, Flag::Package);
    lemma_given(words, Flag::Signature);
    lemma_given(words, Flag::Strategy);
    let one = seq![word] + behind;
    assert(words + seq![word] + behind =~= words + one);
    lemma_fault_before(words, one, 0);
    lemma_fault_before(words, seq![word], 0);
    let two = seq!["--wait-pid"@, word] + behind;
    assert(words + seq!["--wait-pid"@, word] + behind =~= words + two);
    lemma_fault_before(words, two, 0);
    lemma_flag_of(word, Flag::WaitPid);
    lemma_flag_word(Flag::WaitPid);
    assert(one[0] == word && two[0] == "--wait-pid"@ && two[1] == word);
    if is_option(word) {
        let flag = flag_of(word)->0;
        lemma_flag_of(word, flag);
    }
}

} // verus!
