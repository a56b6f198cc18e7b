//! Signals: their numbers, their names, and what a repeated termination signal asks for.

use vstd::prelude::*;

use crate::text::{same_text, Text};

verus! {

/// The number of `SIGHUP`.
pub open spec fn hup() -> i32 {
    1
}

/// The number of `SIGINT`.
pub open spec fn int_signal() -> i32 {
    2
}

/// The number of `SIGQUIT`.
pub open spec fn quit() -> i32 {
    3
}

/// The number of `SIGKILL`.
pub open spec fn kill() -> i32 {
    9
}

/// The number of `SIGTERM`.
pub open spec fn term() -> i32 {
    15
}

/// Reads `libc::SIGHUP`, which is 1 on every platform that has it.
#[verifier::external_body]
fn sighup() -> (r: i32)
    ensures
        r == hup(),
{
    libc::SIGHUP
}

/// Reads `libc::SIGINT`, which is 2 on every platform that has it.
#[verifier::external_body]
fn sigint() -> (r: i32)
    ensures
        r == int_signal(),
{
    libc::SIGINT
}

/// Reads `libc::SIGQUIT`, which is 3 on every platform that has it.
#[verifier::external_body]
fn sigquit() -> (r: i32)
    ensures
        r == quit(),
{
    libc::SIGQUIT
}

/// Reads `libc::SIGKILL`, which is 9 on every platform that has it.
#[verifier::external_body]
pub(crate) fn sigkill() -> (r: i32)
    ensures
        r == kill(),
{
    libc::SIGKILL
}

/// Reads `libc::SIGTERM`, which is 15 on every platform that has it.
#[verifier::external_body]
pub(crate) fn sigterm() -> (r: i32)
    ensures
        r == term(),
{
    libc::SIGTERM
}

/// The number of the signal with the given name, with or without its `SIG`. A name that is not
/// known, or none, stands for `SIGTERM`.
pub open spec fn signal_number(name: Option<Text>) -> i32 {
    match name {
        Some(n) => if n == "SIGINT"@ || n == "INT"@ {
            int_signal()
        } else if n == "SIGKILL"@ || n == "KILL"@ {
            kill()
        } else if n == "SIGQUIT"@ || n == "QUIT"@ {
            quit()
        } else if n == "SIGHUP"@ || n == "HUP"@ {
            hup()
        } else {
            term()
        },
        None => term(),
    }
}

/// No two of the names that are known are the same.
proof fn lemma_names_differ()
    ensures
        "SIGINT"@.len() == 6,
        "INT"@.len() == 3,
        "SIGKILL"@.len() == 7,
        "KILL"@.len() == 4,
        "SIGQUIT"@.len() == 7,
        "QUIT"@.len() == 4,
        "SIGHUP"@.len() == 6,
        "HUP"@.len() == 3,
        "SIGINT"@[3] != "SIGHUP"@[3],
        "INT"@[0] != "HUP"@[0],
        "SIGKILL"@[3] != "SIGQUIT"@[3],
        "KILL"@[0] != "QUIT"@[0],
{
    reveal_strlit("SIGINT");
    reveal_strlit("INT");
    reveal_strlit("SIGKILL");
    reveal_strlit("KILL");
    reveal_strlit("SIGQUIT");
    reveal_strlit("QUIT");
    reveal_strlit("SIGHUP");
    reveal_strlit("HUP");
}

/// Maps a signal name to its number. Unknown names fall back to `SIGTERM`.
pub fn parse_signal(name: Option<&str>) -> (r: i32)
    ensures
        r == signal_number(match name {
            Some(n) => Some(n@),
            None => None,
        }),
        name is None ==> r == 15,
        name matches Some(n) ==> {
            &&& r == 2 <==> n@ == "SIGINT"@ || n@ == "INT"@
            &&& r == 9 <==> n@ == "SIGKILL"@ || n@ == "KILL"@
            &&& r == 3 <==> n@ == "SIGQUIT"@ || n@ == "QUIT"@
            &&& r == 1 <==> n@ == "SIGHUP"@ || n@ == "HUP"@
            &&& r == 15 || r == 2 || r == 9 || r == 3 || r == 1
        },
{
    proof {
        lemma_names_differ();
    }
    match name {
        Some(n) => {
            if same_text(n, "SIGINT") || same_text(n, "INT") {
                sigint()
            } else if same_text(n, "SIGKILL") || same_text(n, "KILL") {
                sigkill()
            } else if same_text(n, "SIGQUIT") || same_text(n, "QUIT") {
                sigquit()
            } else if same_text(n, "SIGHUP") || same_text(n, "HUP") {
                sighup()
            } else {
                sigterm()
            }
        },
        None => sigterm(),
    }
}

/// What to do about a termination signal.
#[derive(Clone, Copy, Debug, PartialEq, Eq, Structural)]
pub enum SignalAction {
    /// Begin a graceful shutdown.
    ShutDown,
    /// Stop by force, at once.
    ForceStop,
}

/// The exit code after a forced shutdown.
pub const FORCED_EXIT_CODE: i32 = 130;

/// What the next termination signal asks for after `seen` earlier ones: the first begins a
/// graceful shutdown, any further one forces it.
pub fn on_termination_signal(seen: u32) -> (r: SignalAction)
    ensures
        r == (if seen == 0 {
            SignalAction::ShutDown
        } else {
            SignalAction::ForceStop
        }),
{
    if seen == 0 {
        SignalAction::ShutDown
    } else {
        SignalAction::ForceStop
    }
}

/// What came of sending the null signal to a process group.
#[derive(Clone, Copy, Debug, PartialEq, Eq, Structural)]
pub enum NullSignal {
    /// It was sent.
    Sent,
    /// The group exists, but may not be signalled.
    Denied,
    /// It failed in another way.
    Failed,
}

/// Whether any process of the group still exists.
pub fn pgid_alive(null_signal: NullSignal) -> (r: bool)
    ensures
        r == (null_signal == NullSignal::Sent || null_signal == NullSignal::Denied),
{
    match null_signal {
        NullSignal::Sent | NullSignal::Denied => true,
        NullSignal::Failed => false,
    }
}

// ---------------------------------------------------------------------------
// Laws
// ---------------------------------------------------------------------------

/// A process is stopped with the signal that it names, with or without `SIG` in front; one that
/// names none, or one that is not known, with 15.
pub proof fn law_signals_go_by_their_names(n: Text)
    ensures
        signal_number(None) == 15,
        signal_number(Some("SIGINT"@)) == 2 && signal_number(Some("INT"@)) == 2,
        signal_number(Some("SIGKILL"@)) == 9 && signal_number(Some("KILL"@)) == 9,
        signal_number(Some("SIGQUIT"@)) == 3 && signal_number(Some("QUIT"@)) == 3,
        signal_number(Some("SIGHUP"@)) == 1 && signal_number(Some("HUP"@)) == 1,
        signal_number(Some("SIGTERM"@)) == 15 && signal_number(Some("TERM"@)) == 15,
        n != "SIGINT"@ && n != "INT"@ && n != "SIGKILL"@ && n != "KILL"@ && n != "SIGQUIT"@ && n
            != "QUIT"@ && n != "SIGHUP"@ && n != "HUP"@ ==> signal_number(Some(n)) == 15,
{
    lemma_names_differ();
    reveal_strlit("SIGTERM");
    reveal_strlit("TERM");
    reveal_strlit("SIGKILL");
    reveal_strlit("SIGQUIT");
    reveal_strlit("KILL");
    reveal_strlit("QUIT");
    assert("SIGTERM"@.len() == 7 && "TERM"@.len() == 4);
    assert("SIGTERM"@[3] != "SIGKILL"@[3] && "SIGTERM"@[3] != "SIGQUIT"@[3]);
    assert("TERM"@[0] != "KILL"@[0] && "TERM"@[0] != "QUIT"@[0]);
}

} // verus!
