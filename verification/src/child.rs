//! How a child process has ended, in words and as an event.

use vstd::prelude::*;
use vstd::string::*;

use crate::number::{signed_decimal, signed_text};
use crate::run::{Act, Ev};
use crate::supervisor::{Effect, Event};
use crate::text::Text;

verus! {

/// How waiting for a child has ended.
#[derive(Debug, PartialEq, Eq)]
pub enum WaitOutcome {
    /// The child has ended: with an exit code, by a signal, or in a way that tells neither.
    Ended { code: Option<i32>, signal: Option<i32> },
    /// Waiting for it has failed, for the reason given.
    Failed(String),
}

/// The description of how a child has ended.
pub open spec fn status_says(code: Option<i32>, signal: Option<i32>) -> Text {
    match (code, signal) {
        (Some(c), _) => if c == 0 {
            "exited cleanly"@
        } else {
            "exit code "@ + signed_decimal(c as int)
        },
        (None, Some(s)) => "killed by signal "@ + signed_decimal(s as int),
        (None, None) => "terminated"@,
    }
}

/// Describes how a child has ended.
pub fn describe_status(code: Option<i32>, signal: Option<i32>) -> (r: String)
    ensures
        r@ == status_says(code, signal),
        code == Some(0i32) ==> r@ == "exited cleanly"@,
        code is Some && code->Some_0 != 0 ==> r@ == "exit code "@ + signed_decimal(
            code->Some_0 as int,
        ),
        code is None && signal is Some ==> r@ == "killed by signal "@ + signed_decimal(
            signal->Some_0 as int,
        ),
        code is None && signal is None ==> r@ == "terminated"@,
{
    match code {
        Some(c) => {
            if c == 0 {
                "exited cleanly".to_owned()
            } else {
                "exit code ".to_owned().concat(signed_text(c).as_str())
            }
        },
        None => match signal {
            Some(s) => "killed by signal ".to_owned().concat(signed_text(s).as_str()),
            None => "terminated".to_owned(),
        },
    }
}

/// The event that the end of a child gives rise to: only exit code 0 is a success.
pub open spec fn exit_of(name: Text, outcome: WaitOutcome) -> Ev {
    match outcome {
        WaitOutcome::Ended { code, signal } => Ev::Exited {
            name,
            success: code == Some(0i32),
            desc: status_says(code, signal),
        },
        WaitOutcome::Failed(e) => Ev::Exited { name, success: false, desc: "wait failed: "@ + e@ },
    }
}

/// The event that the end of a child gives rise to.
pub fn exit_event(name: String, outcome: WaitOutcome) -> (r: Event)
    ensures
        r@ == exit_of(name@, outcome),
        r is Exited,
        r->Exited_name@ == name@,
        r->success <==> (outcome matches WaitOutcome::Ended { code, .. } && code == Some(0i32)),
        outcome matches WaitOutcome::Failed(e) ==> r->desc@ == "wait failed: "@ + e@,
        outcome matches WaitOutcome::Ended { code, signal } ==> r->desc@ == status_says(code, signal),
{
    match outcome {
        WaitOutcome::Ended { code, signal } => {
            let success = match code {
                Some(c) => c == 0,
                None => false,
            };
            Event::Exited { name, success, desc: describe_status(code, signal) }
        },
        WaitOutcome::Failed(e) => Event::Exited {
            name,
            success: false,
            desc: "wait failed: ".to_owned().concat(e.as_str()),
        },
    }
}

/// What comes of the end of a child, in this order: it is dropped from the state file, and then
/// its exit is reported.
pub fn reaped(name: String, outcome: WaitOutcome) -> (r: (Effect, Event))
    ensures
        r.0@ == Act::Forget(name@),
        r.1@ == exit_of(name@, outcome),
        r.0 is Forget && r.0->Forget_0@ == name@,
        r.1 is Exited && r.1->Exited_name@ == name@,
        r.1->success <==> (outcome matches WaitOutcome::Ended { code, .. } && code == Some(0i32)),
{
    (Effect::Forget(name.clone()), exit_event(name, outcome))
}

/// What the end of a child is reported as. It is a success exactly if the child ended with exit
/// code 0, and the description says how it ended.
pub proof fn law_only_a_clean_exit_is_a_success(
    name: Text,
    code: Option<i32>,
    signal: Option<i32>,
    why: String,
)
    ensures
        exit_of(name, WaitOutcome::Ended { code, signal }) == (Ev::Exited {
            name,
            success: code == Some(0i32),
            desc: match code {
                Some(c) => if c == 0 {
                    "exited cleanly"@
                } else {
                    "exit code "@ + signed_decimal(c as int)
                },
                None => match signal {
                    Some(s) => "killed by signal "@ + signed_decimal(s as int),
                    None => "terminated"@,
                },
            },
        }),
        exit_of(name, WaitOutcome::Failed(why)) == (Ev::Exited {
            name,
            success: false,
            desc: "wait failed: "@ + why@,
        }),
{
}

} // verus!
