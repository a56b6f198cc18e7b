//! The command line: which command it asks for, and with which options.

use vstd::prelude::*;
use vstd::slice::*;
use vstd::string::*;

use crate::flake::{reference, reference_of};
use crate::number::{parse_unsigned, read_unsigned};
use crate::text::{
    after_prefix, debug_form, debug_text, has_prefix, opt_view, same_text, views, Text,
};

verus! {

// ---------------------------------------------------------------------------
// Options
// ---------------------------------------------------------------------------

/// What the flags of a command set.
#[derive(Debug, PartialEq, Eq)]
pub struct Options {
    /// The flake reference.
    pub flake: String,
    /// The attribute that holds the process map.
    pub attr: String,
    /// The attribute that holds the test map.
    pub tests_attr: String,
    /// Seconds between asking a process to stop and killing it.
    pub grace_seconds: u64,
    /// Where the state file is.
    pub state_path: String,
}

/// The model of options.
#[verifier::ext_equal]
pub struct Settings {
    pub flake: Text,
    pub attr: Text,
    pub tests_attr: Text,
    pub grace_seconds: nat,
    pub state_path: Text,
}

impl View for Options {
    type V = Settings;

    open spec fn view(&self) -> Settings {
        Settings {
            flake: self.flake@,
            attr: self.attr@,
            tests_attr: self.tests_attr@,
            grace_seconds: self.grace_seconds as nat,
            state_path: self.state_path@,
        }
    }
}

/// What holds where no flag says otherwise.
pub open spec fn default_settings() -> Settings {
    Settings {
        flake: "."@,
        attr: "processes"@,
        tests_attr: "tests"@,
        grace_seconds: 10,
        state_path: ".nix-process/state.json"@,
    }
}

/// The options that hold where no flag says otherwise.
pub fn default_options() -> (r: Options)
    ensures
        r@ == default_settings(),
        r.flake@ == "."@,
        r.attr@ == "processes"@,
        r.tests_attr@ == "tests"@,
        r.grace_seconds == 10,
        r.state_path@ == ".nix-process/state.json"@,
{
    Options {
        flake: ".".to_owned(),
        attr: "processes".to_owned(),
        tests_attr: "tests".to_owned(),
        grace_seconds: 10,
        state_path: ".nix-process/state.json".to_owned(),
    }
}

/// What is wrong with a command line.
pub enum CliFault {
    /// The flag has no value behind it.
    NeedsValue(Text),
    /// The value of `--grace-seconds` is no number of seconds.
    BadGrace(Text),
    /// There is no such flag.
    UnknownFlag(Text),
    /// There is no such command.
    UnknownCommand(Text),
    /// The `test` command has no test name.
    NeedsTestName,
}

/// Why a command line is refused.
#[derive(Debug, PartialEq, Eq)]
pub enum CliError {
    /// The flag has no value behind it.
    NeedsValue(String),
    /// The value of `--grace-seconds` is no number of seconds.
    BadGrace(String),
    /// There is no such flag.
    UnknownFlag(String),
    /// There is no such command.
    UnknownCommand(String),
    /// The `test` command has no test name.
    NeedsTestName,
}

impl View for CliError {
    type V = CliFault;

    open spec fn view(&self) -> CliFault {
        match self {
            CliError::NeedsValue(f) => CliFault::NeedsValue(f@),
            CliError::BadGrace(v) => CliFault::BadGrace(v@),
            CliError::UnknownFlag(f) => CliFault::UnknownFlag(f@),
            CliError::UnknownCommand(c) => CliFault::UnknownCommand(c@),
            CliError::NeedsTestName => CliFault::NeedsTestName,
        }
    }
}

/// What a fault is about.
pub open spec fn cli_fault_subject(f: CliFault) -> Text {
    match f {
        CliFault::NeedsValue(t) => t,
        CliFault::BadGrace(t) => t,
        CliFault::UnknownFlag(t) => t,
        CliFault::UnknownCommand(t) => t,
        CliFault::NeedsTestName => ""@,
    }
}

/// The message for a fault, with what it is about shown as `shown` where it is quoted.
pub open spec fn cli_fault_says(f: CliFault, shown: Text) -> Text {
    match f {
        CliFault::NeedsValue(flag) => "flag "@ + flag + " needs a value"@,
        CliFault::BadGrace(_) => "invalid --grace-seconds "@ + shown,
        CliFault::UnknownFlag(_) => "unknown flag "@ + shown,
        CliFault::UnknownCommand(_) => "unknown command "@ + shown,
        CliFault::NeedsTestName =>
            "`test` needs a test name, e.g. `nix-process test backend`"@,
    }
}

impl CliError {
    /// The message, with what it is about given as it is to be shown.
    pub fn message_showing(&self, shown: &str) -> (r: String)
        ensures
            r@ == cli_fault_says(self@, shown@),
            match self {
                CliError::NeedsValue(flag) => r@ == "flag "@ + flag@ + " needs a value"@,
                CliError::BadGrace(_) => r@ == "invalid --grace-seconds "@ + shown@,
                CliError::UnknownFlag(_) => r@ == "unknown flag "@ + shown@,
                CliError::UnknownCommand(_) => r@ == "unknown command "@ + shown@,
                CliError::NeedsTestName => r@
                    == "`test` needs a test name, e.g. `nix-process test backend`"@,
            },
    {
        match self {
            CliError::NeedsValue(flag) => "flag ".to_owned().concat(flag.as_str()).concat(
                " needs a value",
            ),
            CliError::BadGrace(_) => "invalid --grace-seconds ".to_owned().concat(shown),
            CliError::UnknownFlag(_) => "unknown flag ".to_owned().concat(shown),
            CliError::UnknownCommand(_) => "unknown command ".to_owned().concat(shown),
            CliError::NeedsTestName =>
                "`test` needs a test name, e.g. `nix-process test backend`".to_owned(),
        }
    }

    /// The message, with what it is about in quotes.
    pub fn message(&self) -> (r: String)
        ensures
            r@ == cli_fault_says(self@, debug_form(cli_fault_subject(self@))),
            match self {
                CliError::NeedsValue(flag) => r@ == "flag "@ + flag@ + " needs a value"@,
                CliError::BadGrace(t) => r@ == "invalid --grace-seconds "@ + debug_form(t@),
                CliError::UnknownFlag(t) => r@ == "unknown flag "@ + debug_form(t@),
                CliError::UnknownCommand(t) => r@ == "unknown command "@ + debug_form(t@),
                CliError::NeedsTestName => r@
                    == "`test` needs a test name, e.g. `nix-process test backend`"@,
            },
    {
        let shown = debug_text(self.subject());
        self.message_showing(shown.as_str())
    }

    /// What the message is about.
    pub fn subject(&self) -> (r: &str)
        ensures
            r@ == cli_fault_subject(self@),
            match self {
                CliError::NeedsValue(t) => r@ == t@,
                CliError::BadGrace(t) => r@ == t@,
                CliError::UnknownFlag(t) => r@ == t@,
                CliError::UnknownCommand(t) => r@ == t@,
                CliError::NeedsTestName => r@ == ""@,
            },
    {
        match self {
            CliError::NeedsValue(t) => t.as_str(),
            CliError::BadGrace(t) => t.as_str(),
            CliError::UnknownFlag(t) => t.as_str(),
            CliError::UnknownCommand(t) => t.as_str(),
            CliError::NeedsTestName => "",
        }
    }
}

/// Takes the value behind the flag at position `*i`, and moves `*i` to it.
pub fn flag_value(args: &[String], i: &mut usize, flag: &str) -> (r: Result<String, CliError>)
    requires
        *old(i) < usize::MAX,
    ensures
        *final(i) == *old(i) + 1,
        match r {
            Ok(v) => *old(i) + 1 < args@.len() && v@ == args@[*old(i) + 1]@,
            Err(e) => *old(i) + 1 >= args@.len() && e@ == CliFault::NeedsValue(flag@),
        },
        r matches Err(e) ==> e matches CliError::NeedsValue(f) && f@ == flag@,
{
    *i = *i + 1;
    if *i < args.len() {
        Ok(args[*i].clone())
    } else {
        Err(CliError::NeedsValue(flag.to_owned()))
    }
}

/// Whether `flag` is one that takes a value.
pub open spec fn known_flag(flag: Text) -> bool {
    ||| flag == "--flake"@
    ||| flag == "--attr"@
    ||| flag == "--tests-attr"@
    ||| flag == "--grace-seconds"@
    ||| flag == "--state"@
}

/// The settings with a known flag set to a value.
pub open spec fn with_flag(s: Settings, flag: Text, value: Text) -> Result<Settings, CliFault> {
    if flag == "--flake"@ {
        Ok(Settings { flake: value, ..s })
    } else if flag == "--attr"@ {
        Ok(Settings { attr: value, ..s })
    } else if flag == "--tests-attr"@ {
        Ok(Settings { tests_attr: value, ..s })
    } else if flag == "--grace-seconds"@ {
        match read_unsigned(value, 0xffff_ffff_ffff_ffff) {
            Ok(n) => Ok(Settings { grace_seconds: n, ..s }),
            Err(_) => Err(CliFault::BadGrace(value)),
        }
    } else {
        Ok(Settings { state_path: value, ..s })
    }
}

/// The settings that the arguments from position `i` on make of `s`: flags, each with its value
/// behind it, or the first fault.
pub open spec fn settings_from(args: Seq<Text>, i: int, s: Settings) -> Result<Settings, CliFault>
    decreases args.len() - i,
{
    if i >= args.len() {
        Ok(s)
    } else if !known_flag(args[i]) {
        Err(CliFault::UnknownFlag(args[i]))
    } else if i + 1 >= args.len() {
        Err(CliFault::NeedsValue(args[i]))
    } else {
        match with_flag(s, args[i], args[i + 1]) {
            Ok(t) => settings_from(args, i + 2, t),
            Err(f) => Err(f),
        }
    }
}

/// Reads the flags of a command.
pub fn parse_options(args: &[String]) -> (r: Result<Options, CliError>)
    ensures
        match r {
            Ok(o) => settings_from(views(args@), 0, default_settings()) == Ok::<
                Settings,
                CliFault,
            >(o@),
            Err(e) => settings_from(views(args@), 0, default_settings()) == Err::<
                Settings,
                CliFault,
            >(e@),
        },
{
    let ghost vs = views(args@);
    let ghost whole = settings_from(vs, 0, default_settings());
    let mut opts = default_options();
    let mut i: usize = 0;
    while i < args.len()
        invariant
            vs == views(args@),
            whole == settings_from(vs, 0, default_settings()),
            whole == settings_from(vs, i as int, opts@),
            i <= args@.len(),
        decreases args@.len() - i,
    {
        let ghost s = opts@;
        let ghost at = i as int;
        let flag: &str = args[i].as_str();
        assert(vs[at] == flag@);
        if same_text(flag, "--flake") {
            match flag_value(args, &mut i, flag) {
                Ok(v) => {
                    opts.flake = v;
                },
                Err(e) => {
                    return Err(e);
                },
            }
        } else if same_text(flag, "--attr") {
            match flag_value(args, &mut i, flag) {
                Ok(v) => {
                    opts.attr = v;
                },
                Err(e) => {
                    return Err(e);
                },
            }
        } else if same_text(flag, "--tests-attr") {
            match flag_value(args, &mut i, flag) {
                Ok(v) => {
                    opts.tests_attr = v;
                },
                Err(e) => {
                    return Err(e);
                },
            }
        } else if same_text(flag, "--grace-seconds") {
            match flag_value(args, &mut i, flag) {
                Ok(v) => match parse_unsigned(v.as_str(), 0xffff_ffff_ffff_ffff) {
                    Ok(seconds) => {
                        opts.grace_seconds = seconds;
                    },
                    Err(_) => {
                        return Err(CliError::BadGrace(v));
                    },
                },
                Err(e) => {
                    return Err(e);
                },
            }
        } else if same_text(flag, "--state") {
            match flag_value(args, &mut i, flag) {
                Ok(v) => {
                    opts.state_path = v;
                },
                Err(e) => {
                    return Err(e);
                },
            }
        } else {
            return Err(CliError::UnknownFlag(flag.to_owned()));
        }
        assert(vs[at + 1] == args@[at + 1]@);
        assert(with_flag(s, vs[at], vs[at + 1]) == Ok::<Settings, CliFault>(opts@));
        i += 1;
    }
    Ok(opts)
}

// ---------------------------------------------------------------------------
// Commands
// ---------------------------------------------------------------------------

/// What a command line asks for.
#[derive(Debug, PartialEq, Eq)]
pub enum Invocation {
    /// Show how the program is used.
    Help,
    /// Start all processes and supervise them.
    Up(Options),
    /// Bring up the services of the named test, run it, and tear them down.
    Test(String, Options),
    /// Clean up what an earlier run left behind.
    Down(Options),
    /// Nothing that can be done.
    Refused(CliError),
}

/// The model of what a command line asks for.
pub enum Wish {
    Help,
    Up(Settings),
    Test(Text, Settings),
    Down(Settings),
    Refused(CliFault),
}

impl View for Invocation {
    type V = Wish;

    open spec fn view(&self) -> Wish {
        match self {
            Invocation::Help => Wish::Help,
            Invocation::Up(o) => Wish::Up(o@),
            Invocation::Test(n, o) => Wish::Test(n@, o@),
            Invocation::Down(o) => Wish::Down(o@),
            Invocation::Refused(e) => Wish::Refused(e@),
        }
    }
}

/// Whether a text starts with a dash.
pub open spec fn dashed(t: Text) -> bool {
    has_prefix(t, "-"@)
}

/// What the arguments of the program ask for: the first names the command, the others are its
/// flags. For `test` the second is the name of the test.
pub open spec fn wish_of(args: Seq<Text>) -> Wish {
    if args.len() == 0 {
        Wish::Help
    } else if args[0] == "up"@ {
        match settings_from(args.skip(1), 0, default_settings()) {
            Ok(s) => Wish::Up(s),
            Err(f) => Wish::Refused(f),
        }
    } else if args[0] == "test"@ {
        if args.len() < 2 || dashed(args[1]) {
            Wish::Refused(CliFault::NeedsTestName)
        } else {
            match settings_from(args.skip(2), 0, default_settings()) {
                Ok(s) => Wish::Test(args[1], s),
                Err(f) => Wish::Refused(f),
            }
        }
    } else if args[0] == "down"@ {
        match settings_from(args.skip(1), 0, default_settings()) {
            Ok(s) => Wish::Down(s),
            Err(f) => Wish::Refused(f),
        }
    } else if args[0] == "-h"@ || args[0] == "--help"@ || args[0] == "help"@ {
        Wish::Help
    } else {
        Wish::Refused(CliFault::UnknownCommand(args[0]))
    }
}

/// Reads the arguments of the program.
pub fn parse_args(args: &[String]) -> (r: Invocation)
    ensures
        r@ == wish_of(views(args@)),
{
    let n = args.len();
    if n == 0 {
        return Invocation::Help;
    }
    let command: &str = args[0].as_str();
    assert(views(args@)[0] == command@);
    let rest = slice_subrange(args, 1, n);
    assert(views(rest@) =~= views(args@).skip(1));
    if same_text(command, "up") {
        match parse_options(rest) {
            Ok(o) => Invocation::Up(o),
            Err(e) => Invocation::Refused(e),
        }
    } else if same_text(command, "test") {
        if n < 2 {
            return Invocation::Refused(CliError::NeedsTestName);
        }
        assert(views(args@)[1] == args@[1]@);
        if after_prefix(args[1].as_str(), "-").is_some() {
            return Invocation::Refused(CliError::NeedsTestName);
        }
        let flags = slice_subrange(args, 2, n);
        assert(views(flags@) =~= views(args@).skip(2));
        match parse_options(flags) {
            Ok(o) => Invocation::Test(args[1].clone(), o),
            Err(e) => Invocation::Refused(e),
        }
    } else if same_text(command, "down") {
        match parse_options(rest) {
            Ok(o) => Invocation::Down(o),
            Err(e) => Invocation::Refused(e),
        }
    } else if same_text(command, "-h") || same_text(command, "--help") || same_text(command, "help") {
        Invocation::Help
    } else {
        Invocation::Refused(CliError::UnknownCommand(command.to_owned()))
    }
}

/// What to do about a command line before anything else.
#[derive(Debug, PartialEq, Eq)]
pub struct Opening {
    /// What to print to standard error, as a line.
    pub complaint: Option<String>,
    /// Whether to show how the program is used behind that.
    pub usage: bool,
    /// The code to exit with, unless there is a command to be run.
    pub exit: Option<i32>,
}

/// The complaint about a refused command line, with what it is about shown as `shown`. That
/// about an unknown command has an empty line behind it.
pub open spec fn complaint_says(f: CliFault, shown: Text) -> Text {
    let said = "nix-process: "@ + cli_fault_says(f, shown);
    if f is UnknownCommand {
        said + "\n"@
    } else {
        said
    }
}

/// The complaint about a refused command line, with what it is about given as it is to be shown.
pub fn complaint_showing(error: &CliError, shown: &str) -> (r: String)
    ensures
        r@ == complaint_says(error@, shown@),
        match error {
            CliError::NeedsValue(flag) => r@ == "nix-process: "@ + ("flag "@ + flag@
                + " needs a value"@),
            CliError::BadGrace(_) => r@ == "nix-process: "@ + ("invalid --grace-seconds "@ + shown@),
            CliError::UnknownFlag(_) => r@ == "nix-process: "@ + ("unknown flag "@ + shown@),
            CliError::UnknownCommand(_) => r@ == "nix-process: "@ + ("unknown command "@ + shown@)
                + "\n"@,
            CliError::NeedsTestName => r@ == "nix-process: "@
                + "`test` needs a test name, e.g. `nix-process test backend`"@,
        },
{
    let said = "nix-process: ".to_owned().concat(error.message_showing(shown).as_str());
    match error {
        CliError::UnknownCommand(_) => said.concat("\n"),
        _ => said,
    }
}

/// What to do about a command line before anything else: a refused one is complained about and
/// exits with 2, one that asks for help shows the usage and exits with 0, and a command is run.
pub fn opening(invocation: &Invocation) -> (r: Opening)
    ensures
        match invocation@ {
            Wish::Help => r.complaint is None && r.usage && r.exit == Some(0i32),
            Wish::Refused(f) => {
                &&& r.complaint is Some
                &&& r.complaint->Some_0@ == complaint_says(f, debug_form(cli_fault_subject(f)))
                &&& r.usage == (f is UnknownCommand)
                &&& r.exit == Some(2i32)
            },
            _ => r.complaint is None && !r.usage && r.exit is None,
        },
        match invocation {
            Invocation::Help => r.complaint is None && r.usage && r.exit == Some(0i32),
            Invocation::Refused(e) => {
                &&& r.complaint is Some
                &&& r.complaint->Some_0@ == match e {
                    CliError::NeedsValue(flag) => "nix-process: "@ + ("flag "@ + flag@
                        + " needs a value"@),
                    CliError::BadGrace(t) => "nix-process: "@ + ("invalid --grace-seconds "@
                        + debug_form(t@)),
                    CliError::UnknownFlag(t) => "nix-process: "@ + ("unknown flag "@ + debug_form(
                        t@,
                    )),
                    CliError::UnknownCommand(t) => "nix-process: "@ + ("unknown command "@
                        + debug_form(t@)) + "\n"@,
                    CliError::NeedsTestName => "nix-process: "@
                        + "`test` needs a test name, e.g. `nix-process test backend`"@,
                }
                &&& r.usage <==> e is UnknownCommand
                &&& r.exit == Some(2i32)
            },
            _ => r.complaint is None && !r.usage && r.exit is None,
        },
{
    match invocation {
        Invocation::Help => Opening { complaint: None, usage: true, exit: Some(0) },
        Invocation::Refused(e) => {
            let shown = debug_text(e.subject());
            let usage = match e {
                CliError::UnknownCommand(_) => true,
                _ => false,
            };
            Opening { complaint: Some(complaint_showing(e, shown.as_str())), usage, exit: Some(2) }
        },
        _ => Opening { complaint: None, usage: false, exit: None },
    }
}

/// The line to log once what an earlier run left behind has been cleaned up, where there is one.
pub open spec fn announcement_says(w: Wish) -> Option<Text> {
    match w {
        Wish::Up(s) => Some("evaluating "@ + reference_of(s.flake, s.attr)),
        Wish::Down(_) => Some("cleanup complete"@),
        _ => None,
    }
}

/// The line to log once what an earlier run left behind has been cleaned up, where there is one.
pub fn announcement(invocation: &Invocation) -> (r: Option<String>)
    ensures
        opt_view(r) == announcement_says(invocation@),
        match invocation {
            Invocation::Up(o) => opt_view(r) == Some(
                "evaluating "@ + (o.flake@ + "#"@ + o.attr@),
            ),
            Invocation::Down(_) => opt_view(r) == Some("cleanup complete"@),
            _ => r is None,
        },
{
    match invocation {
        Invocation::Up(o) => Some(
            "evaluating ".to_owned().concat(reference(o.flake.as_str(), o.attr.as_str()).as_str()),
        ),
        Invocation::Down(_) => Some("cleanup complete".to_owned()),
        _ => None,
    }
}

// ---------------------------------------------------------------------------
// Laws
// ---------------------------------------------------------------------------

/// Setting a flag behind all others gives it that value, whatever they set before.
pub proof fn law_last_flag_wins(args: Seq<Text>, s: Settings, flag: Text, value: Text)
    requires
        settings_from(args, 0, s) is Ok,
        known_flag(flag),
    ensures
        settings_from(args.push(flag).push(value), 0, s) == with_flag(
            settings_from(args, 0, s)->Ok_0,
            flag,
            value,
        ),
{
    lemma_appended(args, 0, s, flag, value);
}

proof fn lemma_appended(args: Seq<Text>, i: int, s: Settings, flag: Text, value: Text)
    requires
        0 <= i <= args.len(),
        settings_from(args, i, s) is Ok,
        known_flag(flag),
    ensures
        settings_from(args.push(flag).push(value), i, s) == with_flag(
            settings_from(args, i, s)->Ok_0,
            flag,
            value,
        ),
    decreases args.len() - i,
{
    let more = args.push(flag).push(value);
    if i >= args.len() {
        assert(more[i] == flag);
        assert(more[i + 1] == value);
        match with_flag(s, flag, value) {
            Ok(t) => {
                assert(settings_from(more, i + 2, t) == Ok::<Settings, CliFault>(t));
            },
            Err(_) => {},
        }
    } else {
        assert(more[i] == args[i]);
        assert(more[i + 1] == args[i + 1]);
        lemma_appended(args, i + 2, with_flag(s, args[i], args[i + 1])->Ok_0, flag, value);
    }
}

/// A setting whose flag does not occur keeps its value.
pub proof fn law_unset_flags_keep_their_values(args: Seq<Text>, i: int, s: Settings)
    requires
        0 <= i,
        settings_from(args, i, s) is Ok,
    ensures
        ({
            let t = settings_from(args, i, s)->Ok_0;
            &&& !args.contains("--flake"@) ==> t.flake == s.flake
            &&& !args.contains("--attr"@) ==> t.attr == s.attr
            &&& !args.contains("--tests-attr"@) ==> t.tests_attr == s.tests_attr
            &&& !args.contains("--grace-seconds"@) ==> t.grace_seconds == s.grace_seconds
            &&& !args.contains("--state"@) ==> t.state_path == s.state_path
        }),
    decreases args.len() - i,
{
    if i < args.len() {
        assert(args.contains(args[i]));
        let t = with_flag(s, args[i], args[i + 1])->Ok_0;
        law_unset_flags_keep_their_values(args, i + 2, t);
        reveal_strlit("--flake");
        reveal_strlit("--attr");
        reveal_strlit("--tests-attr");
        reveal_strlit("--grace-seconds");
        reveal_strlit("--state");
        assert("--flake"@.len() == 7 && "--attr"@.len() == 6 && "--tests-attr"@.len() == 12
            && "--grace-seconds"@.len() == 15 && "--state"@.len() == 7);
        assert("--flake"@[2] != "--state"@[2]);
    }
}


proof fn lemma_settings_of_the_rest(before: Seq<Text>, rest: Seq<Text>, i: int, s: Settings)
    requires
        0 <= i,
    ensures
        settings_from(before + rest, before.len() + i, s) == settings_from(rest, i, s),
    decreases rest.len() - i,
{
    let all = before + rest;
    if i < rest.len() {
        assert(all[before.len() + i] == rest[i]);
        if i + 1 < rest.len() {
            assert(all[before.len() + i + 1] == rest[i + 1]);
            if let Ok(t) = with_flag(s, rest[i], rest[i + 1]) {
                lemma_settings_of_the_rest(before, rest, i + 2, t);
            }
        }
    }
}

proof fn lemma_flags_differ()
    ensures
        "--flake"@ != "--attr"@,
        "--flake"@ != "--tests-attr"@,
        "--flake"@ != "--grace-seconds"@,
        "--flake"@ != "--state"@,
        "--attr"@ != "--tests-attr"@,
        "--attr"@ != "--grace-seconds"@,
        "--attr"@ != "--state"@,
        "--tests-attr"@ != "--grace-seconds"@,
        "--tests-attr"@ != "--state"@,
        "--grace-seconds"@ != "--state"@,
{
    reveal_strlit("--flake");
    reveal_strlit("--attr");
    reveal_strlit("--tests-attr");
    reveal_strlit("--grace-seconds");
    reveal_strlit("--state");
    assert("--flake"@.len() == 7 && "--attr"@.len() == 6 && "--tests-attr"@.len() == 12
        && "--grace-seconds"@.len() == 15 && "--state"@.len() == 7);
    assert("--flake"@[2] != "--state"@[2]);
}

/// Every flag sets one thing, and leaves the rest to what follows it: a flag with its value in
/// front of other arguments is those arguments read with that one thing set. A value for the
/// seconds has to be a number that fits; a flag at the end lacks its value; and anything else in
/// place of a flag is unknown.
pub proof fn law_each_flag_sets_one_thing(rest: Seq<Text>, value: Text, s: Settings)
    ensures
        settings_from(Seq::empty(), 0, s) == Ok::<Settings, CliFault>(s),
        settings_from(seq!["--flake"@, value] + rest, 0, s) == settings_from(
            rest,
            0,
            Settings { flake: value, ..s },
        ),
        settings_from(seq!["--attr"@, value] + rest, 0, s) == settings_from(
            rest,
            0,
            Settings { attr: value, ..s },
        ),
        settings_from(seq!["--tests-attr"@, value] + rest, 0, s) == settings_from(
            rest,
            0,
            Settings { tests_attr: value, ..s },
        ),
        settings_from(seq!["--state"@, value] + rest, 0, s) == settings_from(
            rest,
            0,
            Settings { state_path: value, ..s },
        ),
        settings_from(seq!["--grace-seconds"@, value] + rest, 0, s) == match read_unsigned(
            value,
            18446744073709551615,
        ) {
            Ok(n) => settings_from(rest, 0, Settings { grace_seconds: n, ..s }),
            Err(_) => Err(CliFault::BadGrace(value)),
        },
        value == "--flake"@ || value == "--attr"@ || value == "--tests-attr"@ || value
            == "--grace-seconds"@ || value == "--state"@ ==> settings_from(seq![value], 0, s)
            == Err::<Settings, CliFault>(CliFault::NeedsValue(value)),
        !(value == "--flake"@ || value == "--attr"@ || value == "--tests-attr"@ || value
            == "--grace-seconds"@ || value == "--state"@) ==> settings_from(
            seq![value] + rest,
            0,
            s,
        ) == Err::<Settings, CliFault>(CliFault::UnknownFlag(value)),
{
    lemma_flags_differ();
    lemma_one_flag("--flake"@, value, rest, s);
    lemma_one_flag("--attr"@, value, rest, s);
    lemma_one_flag("--tests-attr"@, value, rest, s);
    lemma_one_flag("--state"@, value, rest, s);
    lemma_one_flag("--grace-seconds"@, value, rest, s);
    assert((seq![value] + rest)[0] == value);
    assert(seq![value][0] == value);
}

proof fn lemma_one_flag(flag: Text, value: Text, rest: Seq<Text>, s: Settings)
    requires
        known_flag(flag),
    ensures
        settings_from(seq![flag, value] + rest, 0, s) == match with_flag(s, flag, value) {
            Ok(t) => settings_from(rest, 0, t),
            Err(f) => Err(f),
        },
{
    let all = seq![flag, value] + rest;
    assert(all[0] == flag);
    assert(all[1] == value);
    if let Ok(t) = with_flag(s, flag, value) {
        lemma_settings_of_the_rest(seq![flag, value], rest, 0, t);
    }
}

/// The first argument names the command, and its flags are read over the defaults. `test` has the
/// name of the test in front of them, which does not start with a dash. Without arguments, and
/// where it is asked for, there is help; any other command is unknown.
pub proof fn law_the_first_argument_names_the_command(rest: Seq<Text>, t: Text)
    ensures
        ({
            let plain = Settings {
                flake: "."@,
                attr: "processes"@,
                tests_attr: "tests"@,
                grace_seconds: 10,
                state_path: ".nix-process/state.json"@,
            };
            &&& wish_of(Seq::empty()) == Wish::Help
            &&& wish_of(seq!["help"@] + rest) == Wish::Help
            &&& wish_of(seq!["-h"@] + rest) == Wish::Help
            &&& wish_of(seq!["--help"@] + rest) == Wish::Help
            &&& wish_of(seq!["up"@] + rest) == match settings_from(rest, 0, plain) {
                Ok(s) => Wish::Up(s),
                Err(f) => Wish::Refused(f),
            }
            &&& wish_of(seq!["down"@] + rest) == match settings_from(rest, 0, plain) {
                Ok(s) => Wish::Down(s),
                Err(f) => Wish::Refused(f),
            }
            &&& wish_of(seq!["test"@]) == Wish::Refused(CliFault::NeedsTestName)
            &&& wish_of(seq!["test"@, t] + rest) == if t.len() > 0 && t[0] == '-' {
                Wish::Refused(CliFault::NeedsTestName)
            } else {
                match settings_from(rest, 0, plain) {
                    Ok(s) => Wish::Test(t, s),
                    Err(f) => Wish::Refused(f),
                }
            }
            &&& t != "up"@ && t != "test"@ && t != "down"@ && t != "-h"@ && t != "--help"@ && t
                != "help"@ ==> wish_of(seq![t] + rest) == Wish::Refused(CliFault::UnknownCommand(t))
        }),
{
    reveal_strlit("up");
    reveal_strlit("test");
    reveal_strlit("down");
    reveal_strlit("help");
    reveal_strlit("-h");
    reveal_strlit("--help");
    reveal_strlit("-");
    assert("up"@.len() == 2 && "test"@.len() == 4 && "down"@.len() == 4 && "help"@.len() == 4
        && "-h"@.len() == 2 && "--help"@.len() == 6);
    assert("up"@[0] != "-h"@[0]);
    assert("test"@[0] != "down"@[0]);
    assert("help"@[0] != "down"@[0]);
    assert("help"@[0] != "test"@[0]);
    assert((seq!["help"@] + rest)[0] == "help"@);
    assert((seq!["-h"@] + rest)[0] == "-h"@);
    assert((seq!["--help"@] + rest)[0] == "--help"@);
    assert((seq!["up"@] + rest)[0] == "up"@);
    assert((seq!["up"@] + rest).skip(1) =~= rest);
    assert((seq!["down"@] + rest)[0] == "down"@);
    assert((seq!["down"@] + rest).skip(1) =~= rest);
    assert((seq!["test"@, t] + rest)[0] == "test"@);
    assert((seq!["test"@, t] + rest)[1] == t);
    assert((seq!["test"@, t] + rest).skip(2) =~= rest);
    assert((seq![t] + rest)[0] == t);
    if t.len() > 0 {
        if t[0] == '-' {
            assert(t.take(1) =~= "-"@);
        }
        if dashed(t) {
            assert(t.take(1)[0] == '-');
        }
    }
}

/// Options, errors and invocations stand for themselves.
pub proof fn law_options_and_invocations_stand_for_themselves(
    o: Options,
    e: CliError,
    i: Invocation,
)
    ensures
        o@.flake == o.flake@,
        o@.attr == o.attr@,
        o@.tests_attr == o.tests_attr@,
        o@.grace_seconds == o.grace_seconds,
        o@.state_path == o.state_path@,
        match e {
            CliError::NeedsValue(t) => e@ == CliFault::NeedsValue(t@),
            CliError::BadGrace(t) => e@ == CliFault::BadGrace(t@),
            CliError::UnknownFlag(t) => e@ == CliFault::UnknownFlag(t@),
            CliError::UnknownCommand(t) => e@ == CliFault::UnknownCommand(t@),
            CliError::NeedsTestName => e@ == CliFault::NeedsTestName,
        },
        match i {
            Invocation::Help => i@ == Wish::Help,
            Invocation::Up(x) => i@ == Wish::Up(x@),
            Invocation::Test(n, x) => i@ == Wish::Test(n@, x@),
            Invocation::Down(x) => i@ == Wish::Down(x@),
            Invocation::Refused(f) => i@ == Wish::Refused(f@),
        },
{
}

} // verus!
