//! The model of a supervised run: what has been started, what is ready, what has exited, and
//! how all of it changes with every input.

use vstd::prelude::*;

use crate::config::{fault_text, graph_of, Process};
use crate::graph::plan;
use crate::names::in_order;
use crate::number::{decimal, signed_decimal};
use crate::signals::{kill, signal_number, term};
use crate::text::{debug_form, opt_view, views, Text};

verus! {

/// Bookkeeping for one started process.
#[derive(Clone, Copy, Debug, PartialEq, Eq, Structural)]
pub struct Handle {
    /// The process group, whose leader the process is.
    pub pgid: i32,
    /// The signal that asks it to stop.
    pub shutdown_signal: i32,
    /// Whether it has been seen to exit.
    pub exited: bool,
}

/// Where a run stands.
#[derive(Clone, Copy, Debug, PartialEq, Eq, Structural)]
pub enum Phase {
    /// Nothing has begun.
    Idle,
    /// The next process waits until what it depends on is ready.
    Gating,
    /// The next process is being started.
    Spawning,
    /// Everything has been started.
    Supervising,
    /// The test command is running.
    Testing,
    /// Of processes that have exited on their own it is found out whether they have left a
    /// group behind.
    Surveying,
    /// Every group has been asked to stop, and has time to.
    Grace,
    /// Groups that have time to stop are looked at.
    GraceCheck,
    /// The time to stop is over, and the groups that still exist are killed.
    Forcing,
    /// Groups that did not stop in time have been killed, and are being reaped.
    Draining,
    /// Groups that have been killed are looked at.
    DrainCheck,
    /// The run is over.
    Finished,
}

/// What the outside reports about a process, or about the run as a whole.
pub enum Ev {
    Healthy(Text),
    HealthFailed(Text, Text),
    Exited { name: Text, success: bool, desc: Text },
    Signal,
}

/// What a run is told, one at a time.
pub enum In {
    Begin,
    BeginTest(Seq<Text>),
    Event(Ev),
    Spawned(u32),
    SpawnFailed(Text),
    Alive(bool),
    Paused,
    TimedOut,
    TestExited(Option<i32>),
}

/// What a run does to the outside.
pub enum Act {
    Log(Text),
    Record { name: Text, pid: i32, pgid: i32 },
    Forget(Text),
    Stream(Text),
    Watch(Text),
    Reap(Text),
    CancelProbes,
    Kill { pgid: i32, signal: i32 },
    SignalTest(i32),
    StartTimer(u64),
    ClearState,
}

/// What a run waits for.
pub enum Ask {
    Begin,
    Receive,
    ReceiveTimed(u64),
    Alive(i32),
    Spawn(Text),
    RunTest,
    Exit(i32),
}

/// The state of a run.
#[verifier::ext_equal]
pub struct Run {
    /// The processes that are defined.
    pub defs: Map<Text, Process>,
    /// Their names in ascending order.
    pub names: Seq<Text>,
    /// The processes to start, in start order.
    pub order: Seq<Text>,
    /// Whether a test command runs once everything is ready.
    pub test: bool,
    /// Seconds between asking a group to stop and killing it.
    pub grace: u64,
    pub phase: Phase,
    /// How many processes of `order` have been started.
    pub started: nat,
    /// The ready processes: healthy services and completed oneshots.
    pub healthy: Set<Text>,
    /// The processes that have been seen to exit.
    pub exited: Set<Text>,
    /// The started processes.
    pub handles: Map<Text, Handle>,
    /// Whether it has been said that everything is ready.
    pub announced: bool,
    /// Whether the test command has been started and not been seen to end.
    pub command: bool,
    /// The processes whose groups are still to be looked at, in this order.
    pub checks: Seq<Text>,
    /// The processes that exited before the shutdown and have left a group behind.
    pub headless: Set<Text>,
    /// The processes that have been asked to stop and whose exit, or the end of whose group, has
    /// not been seen.
    pub remaining: Set<Text>,
    /// The code to exit with.
    pub code: i32,
}

// ---------------------------------------------------------------------------
// Events
// ---------------------------------------------------------------------------

/// Whether the run is past the point where it started to shut down.
pub open spec fn shutting_down(r: Run) -> bool {
    match r.phase {
        Phase::Surveying => true,
        Phase::Grace => true,
        Phase::GraceCheck => true,
        Phase::Forcing => true,
        Phase::Draining => true,
        Phase::DrainCheck => true,
        Phase::Finished => true,
        _ => false,
    }
}

/// Whether `n` is defined as a oneshot.
pub open spec fn oneshot(r: Run, n: Text) -> bool {
    r.defs.contains_key(n) && r.defs[n].oneshot
}

/// The state with `n` marked as exited, in so far as it was started.
pub open spec fn mark_exited(handles: Map<Text, Handle>, n: Text) -> Map<Text, Handle> {
    if handles.contains_key(n) {
        handles.insert(n, Handle { exited: true, ..handles[n] })
    } else {
        handles
    }
}

/// The state after an event: a healthy process is ready, and so is a oneshot that completed; a
/// process that exited is marked.
pub open spec fn told(r: Run, ev: Ev) -> Run {
    match ev {
        Ev::Healthy(n) => Run { healthy: r.healthy.insert(n), ..r },
        Ev::Exited { name, success, desc } => Run {
            exited: r.exited.insert(name),
            handles: mark_exited(r.handles, name),
            healthy: if !shutting_down(r) && oneshot(r, name) && success {
                r.healthy.insert(name)
            } else {
                r.healthy
            },
            ..r
        },
        _ => r,
    }
}

/// Why the run has to stop on an event, and the code to exit with. A failed health check, a
/// failed oneshot and the exit of anything that is no oneshot are failures; a signal is not.
pub open spec fn verdict(r: Run, ev: Ev) -> Option<(Text, i32)> {
    match ev {
        Ev::Healthy(_) => None,
        Ev::HealthFailed(n, _) => Some((n + " failed its health check"@, 1)),
        Ev::Exited { name, success, desc } => if shutting_down(r) {
            None
        } else if oneshot(r, name) {
            if success {
                None
            } else {
                Some(("oneshot "@ + name + " failed"@, 1))
            }
        } else {
            Some((name + " exited unexpectedly"@, 1))
        },
        Ev::Signal => Some(("received termination signal"@, 0)),
    }
}

/// What is logged about an event.
pub open spec fn remark(r: Run, ev: Ev) -> Option<Text> {
    match ev {
        Ev::Healthy(n) => Some(n + " is ready"@),
        Ev::HealthFailed(n, e) => Some(n + " health check failed: "@ + e),
        Ev::Exited { name, success, desc } => if shutting_down(r) {
            None
        } else if oneshot(r, name) {
            if success {
                Some(name + " completed"@)
            } else {
                Some(name + " failed ("@ + desc + ")"@)
            }
        } else {
            Some(name + " exited ("@ + desc + ")"@)
        },
        Ev::Signal => None,
    }
}

/// A log line, where there is one.
pub open spec fn logged(line: Option<Text>) -> Seq<Act> {
    match line {
        Some(t) => seq![Act::Log(t)],
        None => Seq::empty(),
    }
}

// ---------------------------------------------------------------------------
// Startup
// ---------------------------------------------------------------------------

/// The first of `deps` that is not ready.
pub open spec fn first_unready(deps: Seq<Text>, healthy: Set<Text>) -> Option<Text>
    decreases deps.len(),
{
    if deps.len() == 0 {
        None
    } else {
        match first_unready(deps.drop_last(), healthy) {
            Some(d) => Some(d),
            None => if healthy.contains(deps.last()) {
                None
            } else {
                Some(deps.last())
            },
        }
    }
}

/// What `n` depends on, as it is listed.
pub open spec fn deps_of(r: Run, n: Text) -> Seq<Text> {
    views(r.defs[n].depends_on@)
}

/// Whether as many processes are ready as were to be started.
pub open spec fn all_ready(r: Run) -> bool {
    r.healthy.len() == r.order.len()
}

/// The message for a dependency that exited too early, shown as `shown`.
pub open spec fn early_exit_says(shown: Text) -> Text {
    shown + " exited before becoming healthy; aborting startup"@
}

/// The message for a process, shown as `shown`, that could not be started.
pub open spec fn start_failure_says(shown: Text, e: Text) -> Text {
    "failed to start "@ + shown + ": "@ + e
}

/// A run that has everything ready says so once, and runs its test if it has one.
pub open spec fn announce(r: Run) -> (Run, Seq<Act>) {
    if !r.announced && all_ready(r) {
        (
            Run {
                announced: true,
                phase: if r.test {
                    Phase::Testing
                } else {
                    r.phase
                },
                command: r.test,
                ..r
            },
            seq![Act::Log("all processes ready"@)],
        )
    } else {
        (r, Seq::empty())
    }
}

/// Goes on with the startup: asks for the next process as soon as all that it depends on is
/// ready, and supervises once every process has been started.
pub open spec fn gate(r: Run) -> (Run, Seq<Act>) {
    if r.started >= r.order.len() {
        let up = Run { phase: Phase::Supervising, ..r };
        let said = Act::Log("all "@ + decimal(r.order.len()) + " processes started"@);
        if r.test {
            let (s, acts) = announce(up);
            (s, seq![said] + acts)
        } else {
            (up, seq![said])
        }
    } else {
        match first_unready(deps_of(r, r.order[r.started as int]), r.healthy) {
            None => (Run { phase: Phase::Spawning, ..r }, Seq::empty()),
            Some(d) => if r.exited.contains(d) {
                stop(r, early_exit_says(debug_form(d)), 1)
            } else {
                (Run { phase: Phase::Gating, ..r }, Seq::empty())
            },
        }
    }
}

/// The handle of a process that was started with the given process id.
pub open spec fn new_handle(p: Process, pid: u32) -> Handle {
    Handle {
        pgid: pid as i32,
        shutdown_signal: signal_number(opt_view(p.shutdown_signal)),
        exited: false,
    }
}

/// What is done once a process has been started: it is recorded, its output is streamed, its
/// health is watched unless it is a oneshot, its exit is waited for, and its start is logged.
pub open spec fn launched(n: Text, one: bool, pid: u32) -> Seq<Act> {
    let pgid = pid as i32;
    let head = seq![Act::Record { name: n, pid: pgid, pgid }, Act::Stream(n)];
    let probe = if one {
        Seq::empty()
    } else {
        seq![Act::Watch(n)]
    };
    let tail = seq![
        Act::Reap(n),
        Act::Log("started "@ + n + " (pgid "@ + signed_decimal(pgid as int) + ")"@),
    ];
    head + probe + tail
}

// ---------------------------------------------------------------------------
// Shutdown
// ---------------------------------------------------------------------------

/// `n` is a oneshot that has completed. What it may have left behind is not torn down.
pub open spec fn completed(r: Run, n: Text) -> bool {
    &&& r.handles.contains_key(n)
    &&& r.handles[n].exited
    &&& oneshot(r, n)
    &&& r.healthy.contains(n)
}

/// The processes that have exited on their own, but for completed oneshots, in ascending order.
pub open spec fn doubtful(r: Run) -> Seq<Text> {
    in_order(r.handles.dom()).filter(|n: Text| r.handles[n].exited && !completed(r, n))
}

/// The started processes whose groups are to be torn down, in ascending order: those that have
/// not been seen to exit, and those that have left a group behind.
pub open spec fn live(r: Run) -> Seq<Text> {
    in_order(r.handles.dom()).filter(|n: Text| !r.handles[n].exited || r.headless.contains(n))
}

/// The groups of all started processes, in ascending order of the processes' names.
pub open spec fn all_groups(r: Run) -> Seq<i32> {
    in_order(r.handles.dom()).map_values(|n: Text| r.handles[n].pgid)
}

/// What a forced shutdown does: every group is killed at once, and the state file is deleted.
pub open spec fn forced(r: Run) -> Seq<Act> {
    seq![Act::Log("second signal — force-killing all process groups"@)] + all_groups(r).map_values(
        |g: i32| Act::Kill { pgid: g, signal: kill() },
    ) + seq![Act::ClearState]
}

/// Asks a process to stop.
pub open spec fn ask_to_stop(r: Run, n: Text) -> Act {
    Act::Kill { pgid: r.handles[n].pgid, signal: r.handles[n].shutdown_signal }
}

/// Kills a process.
pub open spec fn force_kill(r: Run, n: Text) -> Act {
    Act::Kill { pgid: r.handles[n].pgid, signal: kill() }
}

/// The line for a process whose group is killed.
pub open spec fn force_says(r: Run, n: Text) -> Text {
    "force-killing "@ + n + " (pgid "@ + signed_decimal(r.handles[n].pgid as int) + ")"@
}

/// Logs `line` and starts to shut down.
pub open spec fn stop(r: Run, line: Text, code: i32) -> (Run, Seq<Act>) {
    let (s, acts) = shut_down(r, code);
    (s, seq![Act::Log(line)] + acts)
}

/// Asks the test command to stop, if it is running.
pub open spec fn stop_command(r: Run) -> Seq<Act> {
    if r.command {
        seq![Act::SignalTest(term())]
    } else {
        Seq::empty()
    }
}

/// Kills the test command, if it is running.
pub open spec fn kill_command(r: Run) -> Seq<Act> {
    if r.command {
        seq![Act::SignalTest(kill())]
    } else {
        Seq::empty()
    }
}

/// Whether the shutdown has something to wait for.
pub open spec fn waiting(r: Run) -> bool {
    r.remaining.len() > 0 || r.command
}

/// Starts to shut down: no probe goes on, a running test command is asked to stop, and of the
/// processes that have exited on their own it is found out whether they have left a group behind.
pub open spec fn shut_down(r: Run, code: i32) -> (Run, Seq<Act>) {
    let s = Run { code, checks: doubtful(r), headless: Set::empty(), ..r };
    let (t, acts) = if s.checks.len() == 0 {
        ask_all(s)
    } else {
        (Run { phase: Phase::Surveying, ..s }, Seq::empty())
    };
    (t, seq![Act::CancelProbes] + stop_command(r) + acts)
}

/// The group of the process at the head of the checks has been found to exist or not.
pub open spec fn surveyed(r: Run, there: bool) -> (Run, Seq<Act>) {
    let n = r.checks[0];
    let s = Run {
        checks: r.checks.skip(1),
        headless: if there {
            r.headless.insert(n)
        } else {
            r.headless
        },
        ..r
    };
    if s.checks.len() == 0 {
        ask_all(s)
    } else {
        (s, Seq::empty())
    }
}

/// Every live group is asked to stop and has `grace` seconds to, and so has a running test
/// command. Where there is neither the run is over at once.
pub open spec fn ask_all(r: Run) -> (Run, Seq<Act>) {
    let pending = live(r);
    if pending.len() == 0 && !r.command {
        (
            Run { phase: Phase::Finished, remaining: Set::empty(), ..r },
            seq![Act::ClearState],
        )
    } else {
        (
            Run { phase: Phase::Grace, remaining: pending.to_set(), ..r },
            seq![
                Act::Log(
                    "stopping "@ + decimal(pending.len()) + " process(es), "@ + decimal(
                        r.grace as nat,
                    ) + "s grace before SIGKILL"@,
                ),
            ] + pending.map_values(|n: Text| ask_to_stop(r, n)) + seq![Act::StartTimer(r.grace)],
        )
    }
}

/// Seconds to wait for killed groups to be reaped.
pub const DRAIN_SECONDS: u64 = 3;

/// Milliseconds between two looks at the groups that the shutdown waits for.
pub const LOOK_MILLIS: u64 = 100;

/// The processes that are waited for though they have exited, in ascending order: what is left
/// of their groups is waited for.
pub open spec fn leaderless(r: Run) -> Seq<Text> {
    in_order(r.remaining).filter(|n: Text| r.exited.contains(n))
}

/// Looks at the groups of `ns`.
pub open spec fn look(r: Run, ns: Seq<Text>) -> Run {
    Run {
        checks: ns,
        phase: if r.phase == Phase::Grace {
            Phase::GraceCheck
        } else {
            Phase::DrainCheck
        },
        ..r
    }
}

/// The checks without the one at their head. A process whose group is not there any more is
/// waited for no longer, once its exit has been seen too.
pub open spec fn checked(r: Run, there: bool) -> Run {
    Run {
        checks: r.checks.skip(1),
        remaining: if !there && r.exited.contains(r.checks[0]) {
            r.remaining.remove(r.checks[0])
        } else {
            r.remaining
        },
        ..r
    }
}

/// The group of the process at the head of the checks has been found to exist or not. The run
/// is over when nothing is waited for any more.
pub open spec fn looked(r: Run, there: bool) -> (Run, Seq<Act>) {
    let s = checked(r, there);
    if s.checks.len() > 0 {
        (s, Seq::empty())
    } else if !waiting(s) {
        finish(s)
    } else {
        (
            Run {
                phase: if r.phase == Phase::GraceCheck {
                    Phase::Grace
                } else {
                    Phase::Draining
                },
                ..s
            },
            Seq::empty(),
        )
    }
}

/// The time to stop is over: a test command that is still running is killed, and every group
/// that is waited for is looked at once more.
pub open spec fn force_remaining(r: Run) -> (Run, Seq<Act>) {
    if r.remaining.len() == 0 {
        (
            Run { phase: Phase::Draining, ..r },
            kill_command(r) + seq![Act::StartTimer(DRAIN_SECONDS)],
        )
    } else {
        (Run { checks: in_order(r.remaining), phase: Phase::Forcing, ..r }, kill_command(r))
    }
}

/// The group of the process at the head of the checks has been found to exist or not. One that
/// exists is killed.
pub open spec fn struck(r: Run, there: bool) -> (Run, Seq<Act>) {
    let n = r.checks[0];
    let s = checked(r, there);
    let kills = if there {
        seq![Act::Log(force_says(r, n)), force_kill(r, n)]
    } else {
        Seq::empty()
    };
    if s.checks.len() > 0 {
        (s, kills)
    } else if !waiting(s) {
        let (t, acts) = finish(s);
        (t, kills + acts)
    } else {
        (Run { phase: Phase::Draining, ..s }, kills + seq![Act::StartTimer(DRAIN_SECONDS)])
    }
}

/// The run is over.
pub open spec fn finish(r: Run) -> (Run, Seq<Act>) {
    (
        Run { phase: Phase::Finished, ..r },
        seq![Act::ClearState, Act::Log("all processes stopped"@)],
    )
}

// ---------------------------------------------------------------------------
// The run
// ---------------------------------------------------------------------------

/// A run that has not begun.
pub open spec fn idle(defs: Map<Text, Process>, names: Seq<Text>, grace: u64) -> Run {
    Run {
        defs,
        names,
        order: Seq::empty(),
        test: false,
        grace,
        phase: Phase::Idle,
        started: 0,
        healthy: Set::empty(),
        exited: Set::empty(),
        handles: Map::empty(),
        announced: false,
        command: false,
        checks: Seq::empty(),
        headless: Set::empty(),
        remaining: Set::empty(),
        code: 0,
    }
}

/// Begins a run of all processes, if they have a start order.
pub open spec fn begin(r: Run) -> (Run, Seq<Act>) {
    match plan(graph_of(r.defs), r.names) {
        Ok(order) => gate(Run { order, ..r }),
        Err(f) => (
            Run { phase: Phase::Finished, code: 1, ..r },
            seq![Act::Log("config error: "@ + fault_text(f))],
        ),
    }
}

/// Begins a run of the processes of `order` for a test.
pub open spec fn begin_test(r: Run, order: Seq<Text>) -> (Run, Seq<Act>) {
    gate(Run { order, test: true, ..r })
}

/// One event during startup.
pub open spec fn gating(r: Run, ev: Ev) -> (Run, Seq<Act>) {
    let t = told(r, ev);
    let line = logged(remark(r, ev));
    match verdict(r, ev) {
        Some((reason, code)) => {
            let (s, acts) = stop(t, "aborting startup: "@ + reason, code);
            (s, line + acts)
        },
        None => {
            let (s, acts) = gate(t);
            (s, line + acts)
        },
    }
}

/// One event while everything runs, and the test command if there is one.
pub open spec fn supervising(r: Run, ev: Ev) -> (Run, Seq<Act>) {
    let t = told(r, ev);
    let line = logged(remark(r, ev));
    match verdict(r, ev) {
        Some((reason, code)) => {
            let (s, acts) = stop(t, "shutting down: "@ + reason, code);
            (s, line + acts)
        },
        None => {
            let (s, acts) = announce(t);
            (s, line + acts)
        },
    }
}

/// One event while the run shuts down: only exits matter. That a process has exited does not
/// mean that its group is gone, so the group is looked at.
pub open spec fn ending(r: Run, ev: Ev) -> Run {
    match ev {
        Ev::Exited { name, success, desc } => {
            let s = Run { exited: r.exited.insert(name), ..r };
            if r.remaining.contains(name) {
                look(s, seq![name])
            } else {
                s
            }
        },
        _ => r,
    }
}

/// The test command has ended while the run shuts down.
pub open spec fn command_ended(r: Run) -> (Run, Seq<Act>) {
    let s = Run { command: false, ..r };
    if waiting(s) {
        (s, Seq::empty())
    } else {
        finish(s)
    }
}

/// The state and the acts that an input leads to. An input that the run did not wait for
/// changes nothing.
pub open spec fn next(r: Run, i: In) -> (Run, Seq<Act>) {
    match i {
        In::Begin => if r.phase == Phase::Idle {
            begin(r)
        } else {
            (r, Seq::empty())
        },
        In::BeginTest(order) => if r.phase == Phase::Idle {
            begin_test(r, order)
        } else {
            (r, Seq::empty())
        },
        In::Event(ev) => match r.phase {
            Phase::Gating => gating(r, ev),
            Phase::Supervising => supervising(r, ev),
            Phase::Testing => supervising(r, ev),
            Phase::Grace => (ending(r, ev), Seq::empty()),
            Phase::Draining => (ending(r, ev), Seq::empty()),
            _ => (r, Seq::empty()),
        },
        In::Spawned(pid) => if r.phase == Phase::Spawning {
            let n = r.order[r.started as int];
            let (s, acts) = gate(
                Run {
                    started: r.started + 1,
                    handles: r.handles.insert(n, new_handle(r.defs[n], pid)),
                    ..r
                },
            );
            (s, launched(n, oneshot(r, n), pid) + acts)
        } else {
            (r, Seq::empty())
        },
        In::SpawnFailed(e) => if r.phase == Phase::Spawning {
            stop(r, start_failure_says(debug_form(r.order[r.started as int]), e), 1)
        } else {
            (r, Seq::empty())
        },
        In::Alive(there) => match r.phase {
            Phase::Surveying => surveyed(r, there),
            Phase::GraceCheck => looked(r, there),
            Phase::Forcing => struck(r, there),
            Phase::DrainCheck => looked(r, there),
            _ => (r, Seq::empty()),
        },
        In::Paused => if (r.phase == Phase::Grace || r.phase == Phase::Draining) && leaderless(
            r,
        ).len() > 0 {
            (look(r, leaderless(r)), Seq::empty())
        } else {
            (r, Seq::empty())
        },
        In::TimedOut => match r.phase {
            Phase::Grace => force_remaining(r),
            Phase::Draining => finish(r),
            _ => (r, Seq::empty()),
        },
        In::TestExited(code) => match r.phase {
            Phase::Testing => shut_down(
                Run { command: false, ..r },
                match code {
                    Some(c) => c,
                    None => 1,
                },
            ),
            Phase::Grace => command_ended(r),
            Phase::Draining => command_ended(r),
            _ => (r, Seq::empty()),
        },
    }
}

/// What the run waits for.
pub open spec fn asking(r: Run) -> Ask {
    match r.phase {
        Phase::Idle => Ask::Begin,
        Phase::Gating => Ask::Receive,
        Phase::Spawning => Ask::Spawn(r.order[r.started as int]),
        Phase::Supervising => Ask::Receive,
        Phase::Testing => Ask::RunTest,
        Phase::Surveying => Ask::Alive(r.handles[r.checks[0]].pgid),
        Phase::Grace => Ask::ReceiveTimed(LOOK_MILLIS),
        Phase::GraceCheck => Ask::Alive(r.handles[r.checks[0]].pgid),
        Phase::Forcing => Ask::Alive(r.handles[r.checks[0]].pgid),
        Phase::Draining => Ask::ReceiveTimed(LOOK_MILLIS),
        Phase::DrainCheck => Ask::Alive(r.handles[r.checks[0]].pgid),
        Phase::Finished => Ask::Exit(r.code),
    }
}

} // verus!
