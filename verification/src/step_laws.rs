//! What one input makes of a run: what it takes in, what it starts, whom it signals, how long it
//! waits, and what it says.

use vstd::prelude::*;
use vstd::seq_lib::lemma_seq_concat_contains_all_elements;

use crate::config::{fault_text, graph_of, Process};
use crate::graph::{plan, Fault};
use crate::names::{
    ascending, in_order, lemma_ascending_distinct, lemma_ascending_unique, lemma_in_order_exists,
};
use crate::number::{decimal, signed_decimal};
use crate::run::{
    announce, ask_all, ask_to_stop, asking, completed, deps_of, doubtful, early_exit_says,
    first_unready, gate, idle, launched, leaderless, live, logged, new_handle, next, oneshot, remark,
    shut_down, shutting_down, start_failure_says, stop, stop_command, surveyed, told, verdict, Act,
    Ask, Ev, In, Phase, Run,
};
use crate::run_laws::{
    lemma_defs_stay, lemma_filter_members, lemma_grace_stays, lemma_ready, lemma_unready, play,
};
use crate::signals::signal_number;
use crate::text::{debug_form, opt_view, text_lt, Text};

verus! {

// ---------------------------------------------------------------------------
// Acts
// ---------------------------------------------------------------------------

/// The act signals no group, starts no timer and leaves the state file.
spec fn quiet(a: Act) -> bool {
    !(a is Kill) && !(a is StartTimer) && !(a is ClearState)
}

spec fn all_quiet(acts: Seq<Act>) -> bool {
    forall|k: int| 0 <= k < acts.len() ==> quiet(#[trigger] acts[k])
}

proof fn lemma_quiet_add(a: Seq<Act>, b: Seq<Act>)
    requires
        all_quiet(a),
    ensures
        all_quiet(b) ==> all_quiet(a + b),
        forall|x: Act| !quiet(x) ==> (#[trigger] (a + b).contains(x) <==> b.contains(x)),
{
    assert forall|x: Act| !quiet(x) implies (#[trigger] (a + b).contains(x) <==> b.contains(x)) by {
        lemma_seq_concat_contains_all_elements(a, b, x);
        if a.contains(x) {
            assert(quiet(a[a.index_of(x)]));
        }
    }
    if all_quiet(b) {
        assert forall|k: int| 0 <= k < (a + b).len() implies quiet(#[trigger] (a + b)[k]) by {
            if k < a.len() {
                assert((a + b)[k] == a[k]);
            } else {
                assert((a + b)[k] == b[k - a.len()]);
            }
        }
    }
}

proof fn lemma_quiet_absent(acts: Seq<Act>)
    requires
        all_quiet(acts),
    ensures
        forall|x: Act| !quiet(x) ==> !#[trigger] acts.contains(x),
{
    assert forall|x: Act| !quiet(x) implies !#[trigger] acts.contains(x) by {
        if acts.contains(x) {
            assert(quiet(acts[acts.index_of(x)]));
        }
    }
}

proof fn lemma_filter_ascending(s: Seq<Text>, pred: spec_fn(Text) -> bool)
    requires
        ascending(s),
    ensures
        ascending(s.filter(pred)),
    decreases s.len(),
{
    reveal(Seq::filter);
    if s.len() > 0 {
        let d = s.drop_last();
        let z = s.last();
        assert(ascending(d));
        lemma_filter_ascending(d, pred);
        lemma_filter_members(d, pred);
        let f = d.filter(pred);
        if pred(z) {
            assert forall|i: int, j: int| 0 <= i < j < f.push(z).len() implies text_lt(
                #[trigger] f.push(z)[i],
                #[trigger] f.push(z)[j],
            ) by {
                if j < f.len() {
                    assert(text_lt(f[i], f[j]));
                } else {
                    assert(f.contains(f[i]));
                    let k = d.index_of(f[i]);
                    assert(s[k] == f[i]);
                    assert(text_lt(s[k], s[s.len() - 1]));
                }
            }
        }
    }
}

// ---------------------------------------------------------------------------
// Shutting down
// ---------------------------------------------------------------------------

/// The groups to tear down are asked to stop, or their survey begins, or the run is over.
spec fn entered(s: Run, acts: Seq<Act>) -> bool {
    &&& s.phase == Phase::Surveying || s.phase == Phase::Grace || s.phase == Phase::Finished
    &&& forall|pgid: i32, signal: i32| #[trigger]
        acts.contains(Act::Kill { pgid, signal }) <==> s.phase == Phase::Grace && exists|n: Text| {
            &&& #[trigger] s.handles.contains_key(n)
            &&& !s.handles[n].exited || s.headless.contains(n)
            &&& s.handles[n].pgid == pgid
            &&& s.handles[n].shutdown_signal == signal
        }
    &&& forall|g: u64| #[trigger]
        acts.contains(Act::StartTimer(g)) <==> s.phase == Phase::Grace && g == s.grace
    &&& acts.contains(Act::ClearState) <==> s.phase == Phase::Finished
    &&& s.phase != Phase::Surveying ==> forall|n: Text| #[trigger]
        s.remaining.contains(n) <==> s.handles.contains_key(n) && (!s.handles[n].exited
            || s.headless.contains(n))
    &&& s.phase == Phase::Grace ==> s.command || exists|n: Text| #[trigger] s.remaining.contains(n)
    &&& s.phase == Phase::Finished ==> !s.command && forall|n: Text|
        !#[trigger] s.remaining.contains(n)
}

proof fn lemma_entered_after(pre: Seq<Act>, s: Run, acts: Seq<Act>)
    requires
        all_quiet(pre),
        entered(s, acts),
    ensures
        entered(s, pre + acts),
{
    lemma_quiet_add(pre, acts);
}

proof fn lemma_live_members(r: Run)
    requires
        r.handles.dom().finite(),
    ensures
        forall|n: Text| #[trigger]
            live(r).contains(n) <==> r.handles.contains_key(n) && (!r.handles[n].exited
                || r.headless.contains(n)),
        ascending(live(r)),
{
    let all = in_order(r.handles.dom());
    let pred = |n: Text| !r.handles[n].exited || r.headless.contains(n);
    lemma_in_order_exists(r.handles.dom());
    lemma_filter_members(all, pred);
    lemma_filter_ascending(all, pred);
    assert forall|n: Text| #[trigger] live(r).contains(n) <==> r.handles.contains_key(n) && (
    !r.handles[n].exited || r.headless.contains(n)) by {
        assert(all.to_set().contains(n) == r.handles.contains_key(n));
        assert(all.to_set().contains(n) == all.contains(n));
    }
}

proof fn lemma_asked(r: Run)
    requires
        r.handles.dom().finite(),
    ensures
        entered(ask_all(r).0, ask_all(r).1),
{
    lemma_live_members(r);
    let pending = live(r);
    let (s, acts) = ask_all(r);
    let kills = pending.map_values(|n: Text| ask_to_stop(r, n));
    if pending.len() == 0 && !r.command {
        assert forall|n: Text| !#[trigger] pending.contains(n) by {}
        assert(acts =~= seq![Act::ClearState]);
        assert(acts[0] == Act::ClearState);
        assert forall|n: Text| #[trigger] s.remaining.contains(n) <==> s.handles.contains_key(n) && (
        !s.handles[n].exited || s.headless.contains(n)) by {
            assert(!pending.contains(n));
        }
    } else {
        assert(acts.len() == kills.len() + 2);
        assert(acts[0] is Log);
        assert forall|k: int| 0 <= k < kills.len() implies #[trigger] acts[k + 1] == ask_to_stop(
            r,
            pending[k],
        ) by {}
        assert(acts[acts.len() - 1] == Act::StartTimer(r.grace));
        assert forall|k: int| 0 <= k < acts.len() implies (#[trigger] acts[k] is Log && k == 0) || (
        acts[k] is StartTimer && k == acts.len() - 1) || acts[k] is Kill by {
            if 0 < k < acts.len() - 1 {
                assert(acts[(k - 1) + 1] == ask_to_stop(r, pending[k - 1]));
            }
        }
        assert forall|pgid: i32, signal: i32| #[trigger]
            acts.contains(Act::Kill { pgid, signal }) <==> exists|n: Text| {
                &&& #[trigger] s.handles.contains_key(n)
                &&& !s.handles[n].exited || s.headless.contains(n)
                &&& s.handles[n].pgid == pgid
                &&& s.handles[n].shutdown_signal == signal
            } by {
            let a = Act::Kill { pgid, signal };
            if acts.contains(a) {
                let k = acts.index_of(a);
                assert(acts[(k - 1) + 1] == ask_to_stop(r, pending[k - 1]));
                assert(pending.contains(pending[k - 1]));
                assert(s.handles.contains_key(pending[k - 1]));
            }
            if exists|n: Text| {
                &&& #[trigger] s.handles.contains_key(n)
                &&& !s.handles[n].exited || s.headless.contains(n)
                &&& s.handles[n].pgid == pgid
                &&& s.handles[n].shutdown_signal == signal
            } {
                let n = choose|n: Text| {
                    &&& #[trigger] s.handles.contains_key(n)
                    &&& !s.handles[n].exited || s.headless.contains(n)
                    &&& s.handles[n].pgid == pgid
                    &&& s.handles[n].shutdown_signal == signal
                };
                assert(pending.contains(n));
                let k = pending.index_of(n);
                assert(acts[k + 1] == a);
            }
        }
        assert forall|g: u64| #[trigger] acts.contains(Act::StartTimer(g)) <==> g == s.grace by {
            if acts.contains(Act::StartTimer(g)) {
                let k = acts.index_of(Act::StartTimer(g));
                assert(acts[k] is StartTimer);
            }
        }
        assert(!acts.contains(Act::ClearState)) by {
            if acts.contains(Act::ClearState) {
                let k = acts.index_of(Act::ClearState);
                assert(acts[k] is ClearState);
            }
        }
        assert forall|n: Text| #[trigger] s.remaining.contains(n) <==> s.handles.contains_key(n) && (
        !s.handles[n].exited || s.headless.contains(n)) by {
            assert(s.remaining.contains(n) == pending.contains(n));
        }
        if !s.command {
            assert(pending.contains(pending[0]));
            assert(s.remaining.contains(pending[0]));
        }
    }
}

proof fn lemma_shut_down_enters(r: Run, code: i32)
    requires
        r.handles.dom().finite(),
    ensures
        entered(shut_down(r, code).0, shut_down(r, code).1),
{
    let s = Run { code, checks: doubtful(r), headless: Set::empty(), ..r };
    let pre = seq![Act::CancelProbes] + stop_command(r);
    assert(all_quiet(pre));
    if s.checks.len() == 0 {
        lemma_asked(s);
        lemma_entered_after(pre, ask_all(s).0, ask_all(s).1);
        assert(shut_down(r, code).1 =~= pre + ask_all(s).1);
    } else {
        assert(shut_down(r, code).1 =~= pre);
        lemma_quiet_absent(pre);
    }
}

proof fn lemma_stop_enters(r: Run, line: Text, code: i32)
    requires
        r.handles.dom().finite(),
    ensures
        entered(stop(r, line, code).0, stop(r, line, code).1),
{
    lemma_shut_down_enters(r, code);
    lemma_entered_after(seq![Act::Log(line)], shut_down(r, code).0, shut_down(r, code).1);
}

/// The run goes on and does nothing to groups, timers and the state file, or it shuts down.
spec fn goes_on_or_enters(s: Run, acts: Seq<Act>) -> bool {
    ||| entered(s, acts)
    ||| (s.phase == Phase::Gating || s.phase == Phase::Spawning || s.phase == Phase::Supervising
        || s.phase == Phase::Testing) && all_quiet(acts)
}

proof fn lemma_goes_on_after(pre: Seq<Act>, s: Run, acts: Seq<Act>)
    requires
        all_quiet(pre),
        goes_on_or_enters(s, acts),
    ensures
        goes_on_or_enters(s, pre + acts),
{
    lemma_quiet_add(pre, acts);
    if entered(s, acts) {
        lemma_entered_after(pre, s, acts);
    }
}

proof fn lemma_gate_goes_on(r: Run)
    requires
        r.handles.dom().finite(),
    ensures
        goes_on_or_enters(gate(r).0, gate(r).1),
{
    if r.started >= r.order.len() {
        assert(all_quiet(gate(r).1));
    } else {
        let n = r.order[r.started as int];
        match first_unready(deps_of(r, n), r.healthy) {
            None => {},
            Some(d) => {
                if r.exited.contains(d) {
                    lemma_stop_enters(
                        r,
                        early_exit_says(debug_form(d)),
                        1,
                    );
                }
            },
        }
    }
}

proof fn lemma_event_goes_on(r: Run, ev: Ev)
    requires
        r.handles.dom().finite(),
        r.phase == Phase::Gating || r.phase == Phase::Supervising || r.phase == Phase::Testing,
    ensures
        goes_on_or_enters(next(r, In::Event(ev)).0, next(r, In::Event(ev)).1),
{
    let t = told(r, ev);
    let line = logged(remark(r, ev));
    assert(all_quiet(line));
    assert(t.handles.dom() =~= r.handles.dom());
    match verdict(r, ev) {
        Some((reason, code)) => {
            let said = if r.phase == Phase::Gating {
                "aborting startup: "@ + reason
            } else {
                "shutting down: "@ + reason
            };
            lemma_stop_enters(t, said, code);
            lemma_goes_on_after(line, stop(t, said, code).0, stop(t, said, code).1);
        },
        None => {
            if r.phase == Phase::Gating {
                lemma_gate_goes_on(t);
                lemma_goes_on_after(line, gate(t).0, gate(t).1);
            } else {
                assert(all_quiet(announce(t).1));
                lemma_goes_on_after(line, announce(t).0, announce(t).1);
            }
        },
    }
}

proof fn lemma_spawned_goes_on(r: Run, pid: u32)
    requires
        r.handles.dom().finite(),
        r.phase == Phase::Spawning,
    ensures
        goes_on_or_enters(next(r, In::Spawned(pid)).0, next(r, In::Spawned(pid)).1),
{
    let n = r.order[r.started as int];
    let t = Run {
        started: r.started + 1,
        handles: r.handles.insert(n, new_handle(r.defs[n], pid)),
        ..r
    };
    let pre = launched(n, oneshot(r, n), pid);
    assert(all_quiet(pre));
    assert(t.handles.dom() =~= r.handles.dom().insert(n));
    lemma_gate_goes_on(t);
    lemma_goes_on_after(pre, gate(t).0, gate(t).1);
}

/// What a step of a run that does not shut down yet, or that surveys, comes to.
proof fn lemma_goes_on(r: Run, i: In)
    requires
        r.handles.dom().finite(),
        match r.phase {
            Phase::Idle => i is Begin || i is BeginTest,
            Phase::Gating => i is Event,
            Phase::Spawning => i is Spawned || i is SpawnFailed,
            Phase::Supervising => i is Event,
            Phase::Testing => i is Event || i is TestExited,
            Phase::Surveying => i is Alive,
            _ => false,
        },
    ensures
        goes_on_or_enters(next(r, i).0, next(r, i).1) || (next(r, i).0.phase == Phase::Finished
            && i is Begin && next(r, i).1.len() == 1 && next(r, i).1[0] is Log),
{
    match i {
        In::Begin => {
            if let Ok(order) = plan(graph_of(r.defs), r.names) {
                lemma_gate_goes_on(Run { order, ..r });
            }
        },
        In::BeginTest(order) => {
            lemma_gate_goes_on(Run { order, test: true, ..r });
        },
        In::Event(ev) => {
            lemma_event_goes_on(r, ev);
        },
        In::Spawned(pid) => {
            lemma_spawned_goes_on(r, pid);
        },
        In::SpawnFailed(e) => {
            lemma_stop_enters(
                r,
                start_failure_says(
                    debug_form(r.order[r.started as int]),
                    e,
                ),
                1,
            );
        },
        In::TestExited(code) => {
            lemma_shut_down_enters(
                Run { command: false, ..r },
                match code {
                    Some(c) => c,
                    None => 1,
                },
            );
        },
        In::Alive(there) => {
            let n = r.checks[0];
            let s = Run {
                checks: r.checks.skip(1),
                headless: if there {
                    r.headless.insert(n)
                } else {
                    r.headless
                },
                ..r
            };
            if s.checks.len() == 0 {
                lemma_asked(s);
            } else {
                assert(surveyed(r, there).0.phase == Phase::Surveying);
                lemma_quiet_absent(surveyed(r, there).1);
            }
        },
        _ => {},
    }
}

// ---------------------------------------------------------------------------
// Laws
// ---------------------------------------------------------------------------

/// A timer is started only to begin the grace, for as many seconds as the run was given, and to
/// begin waiting for what has been killed, for three seconds; and there it is started.
pub proof fn law_the_grace_lasts_as_long_as_was_given(r: Run, i: In, g: u64)
    requires
        r.handles.dom().finite(),
    ensures
        ({
            let (s, acts) = next(r, i);
            let begins_grace = s.phase == Phase::Grace && r.phase != Phase::Grace && r.phase
                != Phase::GraceCheck;
            let begins_drain = s.phase == Phase::Draining && r.phase != Phase::Draining && r.phase
                != Phase::DrainCheck;
            &&& s.grace == r.grace
            &&& acts.contains(Act::StartTimer(g)) <==> (begins_grace && g == r.grace) || (
            begins_drain && g == 3)
        }),
{
    let (s, acts) = next(r, i);
    lemma_grace_stays(r, i);
    match (r.phase, i) {
        (Phase::Idle, In::Begin)
        | (Phase::Idle, In::BeginTest(_))
        | (Phase::Gating, In::Event(_))
        | (Phase::Spawning, In::Spawned(_))
        | (Phase::Spawning, In::SpawnFailed(_))
        | (Phase::Supervising, In::Event(_))
        | (Phase::Testing, In::Event(_))
        | (Phase::Testing, In::TestExited(_))
        | (Phase::Surveying, In::Alive(_)) => {
            lemma_goes_on(r, i);
            if all_quiet(acts) {
                lemma_quiet_absent(acts);
            }
        },
        (Phase::Forcing, In::Alive(there)) => {
            lemma_timer_at_the_end(acts);
        },
        (Phase::Grace, In::TimedOut) => {
            lemma_timer_at_the_end(acts);
        },
        _ => {
            assert forall|k: int| 0 <= k < acts.len() implies !(#[trigger] acts[k] is StartTimer) by {}
            if acts.contains(Act::StartTimer(g)) {
                assert(acts[acts.index_of(Act::StartTimer(g))] is StartTimer);
            }
        },
    }
}

proof fn lemma_timer_at_the_end(acts: Seq<Act>)
    requires
        forall|k: int| 0 <= k < acts.len() - 1 ==> !(#[trigger] acts[k] is StartTimer),
    ensures
        forall|g: u64| #[trigger]
            acts.contains(Act::StartTimer(g)) <==> acts.len() > 0 && acts.last()
                == Act::StartTimer(g),
{
    assert forall|g: u64| #[trigger]
        acts.contains(Act::StartTimer(g)) <==> acts.len() > 0 && acts.last() == Act::StartTimer(
            g,
        ) by {
        if acts.contains(Act::StartTimer(g)) {
            let k = acts.index_of(Act::StartTimer(g));
            assert(acts[k] is StartTimer);
        }
        if acts.len() > 0 && acts.last() == Act::StartTimer(g) {
            assert(acts[acts.len() - 1] == Act::StartTimer(g));
        }
    }
}


/// A group is signalled in two cases only. When the grace begins, every started process that has
/// not been seen to exit, or has left a group behind, is sent its own shutdown signal. When the
/// time is over and a group that is looked at still exists, it is sent SIGKILL.
pub proof fn law_whom_a_step_signals(r: Run, i: In, pgid: i32, signal: i32)
    requires
        r.handles.dom().finite(),
    ensures
        ({
            let (s, acts) = next(r, i);
            acts.contains(Act::Kill { pgid, signal }) <==> {
                ||| s.phase == Phase::Grace && r.phase != Phase::Grace && r.phase
                    != Phase::GraceCheck && exists|n: Text|
                    {
                        &&& #[trigger] s.handles.contains_key(n)
                        &&& !s.handles[n].exited || s.headless.contains(n)
                        &&& s.handles[n].pgid == pgid
                        &&& s.handles[n].shutdown_signal == signal
                    }
                ||| r.phase == Phase::Forcing && i == In::Alive(true)
                    && r.handles[r.checks[0]].pgid == pgid && signal == 9
            }
        }),
{
    let (s, acts) = next(r, i);
    let a = Act::Kill { pgid, signal };
    match (r.phase, i) {
        (Phase::Idle, In::Begin)
        | (Phase::Idle, In::BeginTest(_))
        | (Phase::Gating, In::Event(_))
        | (Phase::Spawning, In::Spawned(_))
        | (Phase::Spawning, In::SpawnFailed(_))
        | (Phase::Supervising, In::Event(_))
        | (Phase::Testing, In::Event(_))
        | (Phase::Testing, In::TestExited(_))
        | (Phase::Surveying, In::Alive(_)) => {
            lemma_goes_on(r, i);
            if all_quiet(acts) {
                lemma_quiet_absent(acts);
            } else if !entered(s, acts) {
                assert(!acts.contains(a));
            }
        },
        (Phase::Forcing, In::Alive(there)) => {
            if there {
                assert(acts[1] == Act::Kill { pgid: r.handles[r.checks[0]].pgid, signal: 9 });
            }
            assert forall|k: int| 0 <= k < acts.len() && #[trigger] acts[k] is Kill implies there
                && k == 1 by {}
            if acts.contains(a) {
                assert(acts[acts.index_of(a)] is Kill);
            }
        },
        _ => {
            assert forall|k: int| 0 <= k < acts.len() implies !(#[trigger] acts[k] is Kill) by {}
            if acts.contains(a) {
                assert(acts[acts.index_of(a)] is Kill);
            }
        },
    }
}

/// The state file is deleted when the run comes to its end, and at no other time. Only a run
/// whose processes have no start order, and that has started nothing, ends without.
pub proof fn law_the_state_file_is_deleted_at_the_end(r: Run, i: In)
    requires
        r.handles.dom().finite(),
    ensures
        ({
            let (s, acts) = next(r, i);
            acts.contains(Act::ClearState) <==> {
                &&& s.phase == Phase::Finished
                &&& r.phase != Phase::Finished
                &&& !(r.phase == Phase::Idle && i is Begin && plan(graph_of(r.defs), r.names) is Err)
            }
        }),
{
    let (s, acts) = next(r, i);
    let a = Act::ClearState;
    match (r.phase, i) {
        (Phase::Idle, In::Begin)
        | (Phase::Idle, In::BeginTest(_))
        | (Phase::Gating, In::Event(_))
        | (Phase::Spawning, In::Spawned(_))
        | (Phase::Spawning, In::SpawnFailed(_))
        | (Phase::Supervising, In::Event(_))
        | (Phase::Testing, In::Event(_))
        | (Phase::Testing, In::TestExited(_))
        | (Phase::Surveying, In::Alive(_)) => {
            lemma_goes_on(r, i);
            if all_quiet(acts) {
                lemma_quiet_absent(acts);
            } else if !entered(s, acts) {
                assert(!acts.contains(a));
            }
            if r.phase == Phase::Idle && i is Begin {
                if let Ok(order) = plan(graph_of(r.defs), r.names) {
                    lemma_gate_goes_on(Run { order, ..r });
                    assert(goes_on_or_enters(s, acts));
                }
            }
        },
        _ => {
            if s.phase == Phase::Finished && r.phase != Phase::Finished {
                assert(acts.len() >= 2 && acts[acts.len() - 2] == Act::ClearState);
            } else {
                assert forall|k: int| 0 <= k < acts.len() implies !(#[trigger] acts[k] is ClearState) by {}
                if acts.contains(a) {
                    assert(acts[acts.index_of(a)] is ClearState);
                }
            }
        },
    }
}

/// An input that a run does not wait for changes nothing and does nothing.
pub proof fn law_only_what_is_waited_for_counts(r: Run, i: In)
    requires
        match asking(r) {
            Ask::Begin => !(i is Begin) && !(i is BeginTest),
            Ask::Receive => !(i is Event),
            Ask::ReceiveTimed(_) => !(i is Event) && !(i is Paused) && !(i is TimedOut)
                && !(i is TestExited),
            Ask::Alive(_) => !(i is Alive),
            Ask::Spawn(_) => !(i is Spawned) && !(i is SpawnFailed),
            Ask::RunTest => !(i is Event) && !(i is TestExited),
            Ask::Exit(_) => true,
        },
    ensures
        next(r, i) == (r, Seq::<Act>::empty()),
{
}

/// What is reported while a run starts up or is up is taken in, whatever comes of it: the
/// healthy process, and the oneshot that has completed, is ready from then on, with all that was
/// ready before; the process that has exited is marked; and nothing else changes.
pub proof fn law_reports_are_taken_in(r: Run, ev: Ev, n: Text)
    requires
        r.phase == Phase::Gating || r.phase == Phase::Supervising || r.phase == Phase::Testing,
    ensures
        ({
            let s = next(r, In::Event(ev)).0;
            let exit = match ev {
                Ev::Exited { name, success, desc } => name == n,
                _ => false,
            };
            let ready = match ev {
                Ev::Healthy(name) => name == n,
                Ev::Exited { name, success, desc } => name == n && success && r.defs.contains_key(n)
                    && r.defs[n].oneshot,
                _ => false,
            };
            &&& s.healthy.contains(n) <==> r.healthy.contains(n) || ready
            &&& s.exited.contains(n) <==> r.exited.contains(n) || exit
            &&& s.handles.contains_key(n) <==> r.handles.contains_key(n)
            &&& s.handles.contains_key(n) ==> {
                &&& s.handles[n].pgid == r.handles[n].pgid
                &&& s.handles[n].shutdown_signal == r.handles[n].shutdown_signal
                &&& s.handles[n].exited <==> r.handles[n].exited || exit
            }
            &&& s.started == r.started
            &&& s.order == r.order
            &&& s.test == r.test
            &&& s.defs == r.defs
        }),
{
    lemma_taken_in(r, ev);
}

proof fn lemma_shut_down_keeps(r: Run, code: i32)
    ensures
        ({
            let s = shut_down(r, code).0;
            &&& s.healthy == r.healthy
            &&& s.exited == r.exited
            &&& s.handles == r.handles
            &&& s.started == r.started
            &&& s.order == r.order
            &&& s.test == r.test
            &&& s.defs == r.defs
            &&& s.code == code
            &&& s.command == r.command
        }),
{
}

proof fn lemma_gate_keeps(r: Run)
    ensures
        ({
            let s = gate(r).0;
            &&& s.healthy == r.healthy
            &&& s.exited == r.exited
            &&& s.handles == r.handles
            &&& s.started == r.started
            &&& s.order == r.order
            &&& s.test == r.test
            &&& s.defs == r.defs
        }),
{
    if r.started < r.order.len() {
        lemma_shut_down_keeps(r, 1);
    }
}

proof fn lemma_taken_in(r: Run, ev: Ev)
    requires
        r.phase == Phase::Gating || r.phase == Phase::Supervising || r.phase == Phase::Testing,
    ensures
        ({
            let s = next(r, In::Event(ev)).0;
            let t = told(r, ev);
            &&& s.healthy == t.healthy
            &&& s.exited == t.exited
            &&& s.handles == t.handles
            &&& s.started == t.started
            &&& s.order == t.order
            &&& s.test == t.test
            &&& s.defs == t.defs
        }),
{
    let t = told(r, ev);
    match verdict(r, ev) {
        Some((reason, code)) => {
            lemma_shut_down_keeps(t, code);
        },
        None => {
            lemma_gate_keeps(t);
        },
    }
}

/// What is ready changes with reports alone, and with none that comes while the run shuts down.
pub proof fn law_nothing_else_makes_ready(r: Run, i: In)
    requires
        !(i is Event) || !(r.phase == Phase::Gating || r.phase == Phase::Supervising || r.phase
            == Phase::Testing),
    ensures
        next(r, i).0.healthy == r.healthy,
{
    match i {
        In::Begin => {
            if let Ok(order) = plan(graph_of(r.defs), r.names) {
                lemma_gate_keeps(Run { order, ..r });
            }
        },
        In::BeginTest(order) => {
            lemma_gate_keeps(Run { order, test: true, ..r });
        },
        In::Spawned(pid) => {
            let n = r.order[r.started as int];
            lemma_gate_keeps(
                Run {
                    started: r.started + 1,
                    handles: r.handles.insert(n, new_handle(r.defs[n], pid)),
                    ..r
                },
            );
        },
        In::SpawnFailed(e) => {
            lemma_shut_down_keeps(r, 1);
        },
        In::TestExited(code) => {
            lemma_shut_down_keeps(
                Run { command: false, ..r },
                match code {
                    Some(c) => c,
                    None => 1,
                },
            );
        },
        _ => {},
    }
}

/// The startup goes on as far as it can. After an input that is no failure, the next process of
/// the order is asked for once all that it lists as dependencies is ready, and not before; if the
/// first that is not ready has exited, the startup is given up; and when every process has been
/// started, the run waits, or runs its test if everything is ready already.
pub proof fn law_the_startup_goes_on(r: Run, i: In)
    requires
        match i {
            In::Begin => r.phase == Phase::Idle && plan(graph_of(r.defs), r.names) is Ok,
            In::BeginTest(_) => r.phase == Phase::Idle,
            In::Spawned(_) => r.phase == Phase::Spawning,
            In::Event(Ev::Healthy(_)) => r.phase == Phase::Gating,
            In::Event(Ev::Exited { name, success, desc }) => r.phase == Phase::Gating && success
                && r.defs.contains_key(name) && r.defs[name].oneshot,
            _ => false,
        },
    ensures
        ({
            let (s, acts) = next(r, i);
            let deps = s.defs[s.order[s.started as int]].depends_on@;
            &&& s.defs == r.defs
            &&& s.started == r.started + (if i is Spawned {
                1int
            } else {
                0
            })
            &&& match i {
                In::Begin => plan(graph_of(r.defs), r.names) == Ok::<Seq<Text>, Fault>(s.order)
                    && s.test == r.test,
                In::BeginTest(order) => s.order == order && s.test,
                _ => s.order == r.order && s.test == r.test,
            }
            &&& s.started >= s.order.len() ==> {
                &&& acts.contains(Act::Log("all "@ + decimal(s.order.len()) + " processes started"@))
                &&& asking(s) == if s.test && !r.announced && s.healthy.len() == s.order.len() {
                    Ask::RunTest
                } else {
                    Ask::Receive
                }
            }
            &&& s.started < s.order.len() && (forall|k: int|
                0 <= k < deps.len() ==> s.healthy.contains(#[trigger] deps[k]@)) ==> asking(s)
                == Ask::Spawn(s.order[s.started as int])
            &&& s.started < s.order.len() ==> forall|k: int|
                0 <= k < deps.len() && !s.healthy.contains(#[trigger] deps[k]@) && (forall|j: int|
                    0 <= j < k ==> s.healthy.contains(#[trigger] deps[j]@)) ==> {
                    if s.exited.contains(deps[k]@) {
                        &&& s.phase == Phase::Surveying || s.phase == Phase::Grace || s.phase
                            == Phase::Finished
                        &&& s.code == 1
                        &&& acts.contains(
                            Act::Log(
                                debug_form(deps[k]@)
                                    + " exited before becoming healthy; aborting startup"@,
                            ),
                        )
                    } else {
                        asking(s) == Ask::Receive
                    }
                }
        }),
{
    match i {
        In::Begin => {
            if let Ok(order) = plan(graph_of(r.defs), r.names) {
                lemma_gate_asks(Run { order, ..r }, Seq::empty());
            }
        },
        In::BeginTest(order) => {
            lemma_gate_asks(Run { order, test: true, ..r }, Seq::empty());
        },
        In::Spawned(pid) => {
            let n = r.order[r.started as int];
            let t = Run {
                started: r.started + 1,
                handles: r.handles.insert(n, new_handle(r.defs[n], pid)),
                ..r
            };
            lemma_gate_asks(t, launched(n, oneshot(r, n), pid));
        },
        In::Event(ev) => {
            lemma_gate_asks(told(r, ev), logged(remark(r, ev)));
        },
        _ => {},
    }
}

proof fn lemma_gate_asks(t: Run, pre: Seq<Act>)
    ensures
        ({
            let s = gate(t).0;
            let acts = pre + gate(t).1;
            let deps = s.defs[s.order[s.started as int]].depends_on@;
            &&& s.defs == t.defs
            &&& s.started == t.started
            &&& s.order == t.order
            &&& s.test == t.test
            &&& s.healthy == t.healthy
            &&& s.exited == t.exited
            &&& s.started >= s.order.len() ==> {
                &&& acts.contains(Act::Log("all "@ + decimal(s.order.len()) + " processes started"@))
                &&& asking(s) == if s.test && !t.announced && s.healthy.len() == s.order.len() {
                    Ask::RunTest
                } else {
                    Ask::Receive
                }
            }
            &&& s.started < s.order.len() && (forall|k: int|
                0 <= k < deps.len() ==> s.healthy.contains(#[trigger] deps[k]@)) ==> asking(s)
                == Ask::Spawn(s.order[s.started as int])
            &&& s.started < s.order.len() ==> forall|k: int|
                0 <= k < deps.len() && !s.healthy.contains(#[trigger] deps[k]@) && (forall|j: int|
                    0 <= j < k ==> s.healthy.contains(#[trigger] deps[j]@)) ==> {
                    if s.exited.contains(deps[k]@) {
                        &&& s.phase == Phase::Surveying || s.phase == Phase::Grace || s.phase
                            == Phase::Finished
                        &&& s.code == 1
                        &&& acts.contains(
                            Act::Log(
                                debug_form(deps[k]@)
                                    + " exited before becoming healthy; aborting startup"@,
                            ),
                        )
                    } else {
                        asking(s) == Ask::Receive
                    }
                }
        }),
{
    let (s, more) = gate(t);
    let acts = pre + more;
    lemma_gate_keeps(t);
    if t.started >= t.order.len() {
        assert(acts[pre.len() as int] == more[0]);
    } else {
        let n = t.order[t.started as int];
        let deps = t.defs[n].depends_on@;
        let names = deps_of(t, n);
        if forall|k: int| 0 <= k < deps.len() ==> s.healthy.contains(#[trigger] deps[k]@) {
            assert forall|d: Text| #[trigger] names.contains(d) implies t.healthy.contains(d) by {
                let k = names.index_of(d);
                assert(s.healthy.contains(deps[k]@));
            }
            lemma_ready(names, t.healthy);
        }
        assert forall|k: int|
            0 <= k < deps.len() && !s.healthy.contains(#[trigger] deps[k]@) && (forall|j: int|
                0 <= j < k ==> s.healthy.contains(#[trigger] deps[j]@)) implies {
            if s.exited.contains(deps[k]@) {
                &&& s.phase == Phase::Surveying || s.phase == Phase::Grace || s.phase
                    == Phase::Finished
                &&& s.code == 1
                &&& acts.contains(
                    Act::Log(
                        debug_form(deps[k]@) + " exited before becoming healthy; aborting startup"@,
                    ),
                )
            } else {
                asking(s) == Ask::Receive
            }
        } by {
            assert forall|j: int| 0 <= j < k implies t.healthy.contains(#[trigger] names[j]) by {
                assert(s.healthy.contains(deps[j]@));
            }
            lemma_first_unready_at(names, t.healthy, k);
            if s.exited.contains(deps[k]@) {
                lemma_shut_down_keeps(t, 1);
                assert(acts[pre.len() as int] == more[0]);
            }
        }
    }
}

proof fn lemma_first_unready_at(deps: Seq<Text>, healthy: Set<Text>, k: int)
    requires
        0 <= k < deps.len(),
        !healthy.contains(deps[k]),
        forall|j: int| 0 <= j < k ==> healthy.contains(#[trigger] deps[j]),
    ensures
        first_unready(deps, healthy) == Some(deps[k]),
    decreases deps.len(),
{
    let fewer = deps.drop_last();
    if k == deps.len() - 1 {
        assert forall|d: Text| #[trigger] fewer.contains(d) implies healthy.contains(d) by {
            let j = fewer.index_of(d);
            assert(healthy.contains(deps[j]));
        }
        lemma_ready(fewer, healthy);
    } else {
        assert forall|j: int| 0 <= j < k implies healthy.contains(#[trigger] fewer[j]) by {
            assert(fewer[j] == deps[j]);
        }
        lemma_first_unready_at(fewer, healthy, k);
    }
}


/// A process that has been started is recorded under its process id, which is its group's too,
/// its output is streamed, its health is watched exactly if it is no oneshot, its exit is waited
/// for, and its start is logged, in this order and before anything else. It is to be stopped with
/// the signal that it is defined with.
pub proof fn law_a_start_is_followed_up(r: Run, pid: u32)
    requires
        r.phase == Phase::Spawning,
        r.defs.contains_key(r.order[r.started as int]),
    ensures
        ({
            let (s, acts) = next(r, In::Spawned(pid));
            let n = r.order[r.started as int];
            let said = "started "@ + n + " (pgid "@ + signed_decimal((pid as i32) as int) + ")"@;
            &&& acts[0] == Act::Record { name: n, pid: pid as i32, pgid: pid as i32 }
            &&& acts[1] == Act::Stream(n)
            &&& r.defs[n].oneshot ==> {
                &&& acts.len() >= 4
                &&& acts[2] == Act::Reap(n)
                &&& acts[3] == Act::Log(said)
            }
            &&& !r.defs[n].oneshot ==> {
                &&& acts.len() >= 5
                &&& acts[2] == Act::Watch(n)
                &&& acts[3] == Act::Reap(n)
                &&& acts[4] == Act::Log(said)
            }
            &&& s.handles.contains_key(n)
            &&& s.handles[n].pgid == pid as i32
            &&& s.handles[n].shutdown_signal == signal_number(opt_view(r.defs[n].shutdown_signal))
            &&& !s.handles[n].exited
            &&& forall|m: Text|
                m != n ==> (#[trigger] s.handles.contains_key(m) <==> r.handles.contains_key(m))
            &&& forall|m: Text|
                m != n && r.handles.contains_key(m) ==> #[trigger] s.handles[m] == r.handles[m]
            &&& s.exited == r.exited
            &&& s.healthy == r.healthy
        }),
{
    let n = r.order[r.started as int];
    let t = Run {
        started: r.started + 1,
        handles: r.handles.insert(n, new_handle(r.defs[n], pid)),
        ..r
    };
    lemma_gate_keeps(t);
}

/// What is logged of an event, and what it means for the run. A failed health check, a oneshot
/// that failed and the exit of anything else are failures, with 1 as the code to exit with; a
/// signal has 0; anything else is no reason to stop.
pub proof fn law_which_events_stop_a_run(r: Run, ev: Ev)
    requires
        r.phase == Phase::Gating || r.phase == Phase::Supervising || r.phase == Phase::Testing,
    ensures
        ({
            let (s, acts) = next(r, In::Event(ev));
            let down = s.phase == Phase::Surveying || s.phase == Phase::Grace || s.phase
                == Phase::Finished;
            let stops = if r.phase == Phase::Gating {
                "aborting startup: "@
            } else {
                "shutting down: "@
            };
            match ev {
                Ev::Healthy(n) => {
                    &&& acts.len() >= 1
                    &&& acts[0] == Act::Log(n + " is ready"@)
                    &&& r.phase != Phase::Gating ==> !down
                },
                Ev::HealthFailed(n, e) => {
                    &&& down
                    &&& s.code == 1
                    &&& acts.len() >= 3
                    &&& acts[0] == Act::Log(n + " health check failed: "@ + e)
                    &&& acts[1] == Act::Log(stops + (n + " failed its health check"@))
                    &&& acts[2] == Act::CancelProbes
                },
                Ev::Exited { name, success, desc } => if r.defs.contains_key(name)
                    && r.defs[name].oneshot {
                    if success {
                        &&& acts.len() >= 1
                        &&& acts[0] == Act::Log(name + " completed"@)
                        &&& r.phase != Phase::Gating ==> !down
                    } else {
                        &&& down
                        &&& s.code == 1
                        &&& acts.len() >= 3
                        &&& acts[0] == Act::Log(name + " failed ("@ + desc + ")"@)
                        &&& acts[1] == Act::Log(stops + ("oneshot "@ + name + " failed"@))
                        &&& acts[2] == Act::CancelProbes
                    }
                } else {
                    &&& down
                    &&& s.code == 1
                    &&& acts.len() >= 3
                    &&& acts[0] == Act::Log(name + " exited ("@ + desc + ")"@)
                    &&& acts[1] == Act::Log(stops + (name + " exited unexpectedly"@))
                    &&& acts[2] == Act::CancelProbes
                },
                Ev::Signal => {
                    &&& down
                    &&& s.code == 0
                    &&& acts.len() >= 2
                    &&& acts[0] == Act::Log(stops + "received termination signal"@)
                    &&& acts[1] == Act::CancelProbes
                },
            }
        }),
{
    let t = told(r, ev);
    let line = logged(remark(r, ev));
    match verdict(r, ev) {
        Some((reason, code)) => {
            lemma_shut_down_keeps(t, code);
            let said = if r.phase == Phase::Gating {
                "aborting startup: "@ + reason
            } else {
                "shutting down: "@ + reason
            };
            let more = stop(t, said, code).1;
            assert(more[0] == Act::Log(said));
            assert(more[1] == Act::CancelProbes);
            assert(next(r, In::Event(ev)).1 == line + more);
        },
        None => {},
    }
}

/// A process that could not be started, and the end of the test command, end a run too.
pub proof fn law_what_else_stops_a_run(r: Run, i: In)
    requires
        match i {
            In::SpawnFailed(_) => r.phase == Phase::Spawning,
            In::TestExited(_) => r.phase == Phase::Testing,
            _ => false,
        },
    ensures
        ({
            let (s, acts) = next(r, i);
            &&& s.phase == Phase::Surveying || s.phase == Phase::Grace || s.phase == Phase::Finished
            &&& match i {
                In::SpawnFailed(e) => {
                    &&& s.code == 1
                    &&& acts.len() >= 2
                    &&& acts[0] == Act::Log(
                        "failed to start "@ + debug_form(r.order[r.started as int]) + ": "@ + e,
                    )
                    &&& acts[1] == Act::CancelProbes
                },
                In::TestExited(code) => {
                    &&& s.code == match code {
                        Some(c) => c,
                        None => 1,
                    }
                    &&& !s.command
                    &&& acts.len() >= 1
                    &&& acts[0] == Act::CancelProbes
                },
                _ => true,
            }
        }),
{
    match i {
        In::SpawnFailed(e) => {
            lemma_shut_down_keeps(r, 1);
        },
        In::TestExited(code) => {
            let c: i32 = match code {
                Some(c) => c,
                None => 1,
            };
            lemma_shut_down_keeps(Run { command: false, ..r }, c);
        },
        _ => {},
    }
}

/// Processes that have no start order are not run: the run is over at once, with code 1.
pub proof fn law_no_order_ends_the_run(r: Run)
    requires
        r.phase == Phase::Idle,
        plan(graph_of(r.defs), r.names) is Err,
    ensures
        ({
            let (s, acts) = next(r, In::Begin);
            &&& asking(s) == Ask::Exit(1)
            &&& acts.len() == 1
            &&& acts[0] == Act::Log(
                "config error: "@ + fault_text(plan(graph_of(r.defs), r.names)->Err_0),
            )
        }),
{
}

/// As the shutdown begins, the processes that have exited, but for oneshots that are ready, are
/// looked at first, in ascending order. Where there are none, the groups are asked to stop at
/// once, unless there is nothing to wait for, which ends the run. A test command that is running
/// is asked to stop.
pub proof fn law_how_the_shutdown_begins(r: Run, i: In)
    requires
        r.handles.dom().finite(),
        match i {
            In::Event(_) => r.phase == Phase::Gating || r.phase == Phase::Supervising || r.phase
                == Phase::Testing,
            In::SpawnFailed(_) => r.phase == Phase::Spawning,
            In::Spawned(_) => r.phase == Phase::Spawning,
            In::TestExited(_) => r.phase == Phase::Testing,
            _ => false,
        },
        ({
            let s = next(r, i).0;
            s.phase == Phase::Surveying || s.phase == Phase::Grace || s.phase == Phase::Finished
        }),
    ensures
        ({
            let (s, acts) = next(r, i);
            &&& acts.contains(Act::CancelProbes)
            &&& acts.contains(Act::SignalTest(15)) <==> r.command && !(i is TestExited)
            &&& s.command <==> r.command && !(i is TestExited)
            &&& s.headless == Set::<Text>::empty()
            &&& forall|a: int, b: int|
                0 <= a < b < s.checks.len() ==> text_lt(#[trigger] s.checks[a], #[trigger] s.checks[b])
            &&& forall|n: Text| #[trigger]
                s.checks.contains(n) <==> {
                    &&& s.handles.contains_key(n)
                    &&& s.handles[n].exited
                    &&& !(s.defs.contains_key(n) && s.defs[n].oneshot && s.healthy.contains(n))
                }
            &&& s.phase == Phase::Surveying <==> s.checks.len() > 0
            &&& s.checks.len() == 0 ==> (s.phase == Phase::Grace <==> s.command || exists|n: Text|
                #[trigger] s.handles.contains_key(n) && !s.handles[n].exited)
        }),
{
    match i {
        In::Event(ev) => {
            let t = told(r, ev);
            assert(t.handles.dom() =~= r.handles.dom());
            let line = logged(remark(r, ev));
            match verdict(r, ev) {
                Some((reason, code)) => {
                    let said = if r.phase == Phase::Gating {
                        "aborting startup: "@ + reason
                    } else {
                        "shutting down: "@ + reason
                    };
                    lemma_begins(t, code, line + seq![Act::Log(said)]);
                    assert(next(r, i).1 =~= line + seq![Act::Log(said)] + shut_down(t, code).1);
                },
                None => {
                    if r.phase == Phase::Gating {
                        lemma_gate_begins(t, line);
                    }
                },
            }
        },
        In::SpawnFailed(e) => {
            let said = start_failure_says(debug_form(r.order[r.started as int]), e);
            lemma_begins(r, 1, seq![Act::Log(said)]);
        },
        In::Spawned(pid) => {
            let n = r.order[r.started as int];
            let t = Run {
                started: r.started + 1,
                handles: r.handles.insert(n, new_handle(r.defs[n], pid)),
                ..r
            };
            assert(t.handles.dom() =~= r.handles.dom().insert(n));
            lemma_gate_begins(t, launched(n, oneshot(r, n), pid));
        },
        In::TestExited(code) => {
            let c: i32 = match code {
                Some(c) => c,
                None => 1,
            };
            let t = Run { command: false, ..r };
            lemma_begins(t, c, Seq::empty());
            assert(next(r, i).1 =~= Seq::<Act>::empty() + shut_down(t, c).1);
        },
        _ => {},
    }
}

spec fn mild(a: Act) -> bool {
    quiet(a) && !(a is SignalTest) && !(a is CancelProbes)
}

/// How a shutdown begins, told of its outcome.
spec fn begun(r: Run, s: Run, acts: Seq<Act>) -> bool {
    &&& acts.contains(Act::CancelProbes)
    &&& acts.contains(Act::SignalTest(15)) <==> r.command
    &&& s.command == r.command
    &&& s.headless == Set::<Text>::empty()
    &&& ascending(s.checks)
    &&& forall|n: Text| #[trigger]
        s.checks.contains(n) <==> {
            &&& s.handles.contains_key(n)
            &&& s.handles[n].exited
            &&& !(s.defs.contains_key(n) && s.defs[n].oneshot && s.healthy.contains(n))
        }
    &&& s.phase == Phase::Surveying <==> s.checks.len() > 0
    &&& s.checks.len() == 0 ==> (s.phase == Phase::Grace <==> s.command || exists|n: Text| #[trigger]
        s.handles.contains_key(n) && !s.handles[n].exited)
}

proof fn lemma_begins(r: Run, code: i32, pre: Seq<Act>)
    requires
        r.handles.dom().finite(),
        forall|k: int| 0 <= k < pre.len() ==> mild(#[trigger] pre[k]),
    ensures
        begun(r, shut_down(r, code).0, pre + shut_down(r, code).1),
{
    let (s, more) = shut_down(r, code);
    let acts = pre + more;
    lemma_doubtful_members(r);
    lemma_shut_down_keeps(r, code);
    lemma_shut_down_enters(r, code);
    let start = Run { code, checks: doubtful(r), headless: Set::empty(), ..r };
    assert(acts[pre.len() as int] == Act::CancelProbes);
    let asked = if start.checks.len() == 0 {
        ask_all(start).1
    } else {
        Seq::empty()
    };
    assert(more =~= seq![Act::CancelProbes] + stop_command(r) + asked);
    if r.command {
        assert(acts[pre.len() as int + 1] == Act::SignalTest(15));
    }
    assert forall|k: int| 0 <= k < asked.len() implies !(#[trigger] asked[k] is SignalTest) by {
        let pending = live(start);
        if pending.len() > 0 || start.command {
            if 0 < k < asked.len() - 1 {
                assert(asked[k] == ask_to_stop(start, pending[k - 1]));
            }
        }
    }
    if acts.contains(Act::SignalTest(15)) && !r.command {
        let k = acts.index_of(Act::SignalTest(15));
        if k < pre.len() {
            assert(mild(pre[k]));
        } else if k > pre.len() {
            assert(acts[k] == asked[k - pre.len() - 1]);
        }
    }
    if start.checks.len() == 0 {
        assert(s.checks == start.checks);
        if s.phase == Phase::Grace && !s.command {
            let n = choose|n: Text| #[trigger] s.remaining.contains(n);
            assert(s.handles.contains_key(n) && !s.handles[n].exited);
        }
        if exists|n: Text| #[trigger] s.handles.contains_key(n) && !s.handles[n].exited {
            let n = choose|n: Text| #[trigger] s.handles.contains_key(n) && !s.handles[n].exited;
            assert(s.remaining.contains(n));
        }
    }
}

proof fn lemma_gate_begins(t: Run, pre: Seq<Act>)
    requires
        t.handles.dom().finite(),
        forall|k: int| 0 <= k < pre.len() ==> mild(#[trigger] pre[k]),
    ensures
        ({
            let s = gate(t).0;
            s.phase == Phase::Surveying || s.phase == Phase::Grace || s.phase == Phase::Finished
                ==> begun(t, s, pre + gate(t).1)
        }),
{
    if t.started < t.order.len() {
        match first_unready(deps_of(t, t.order[t.started as int]), t.healthy) {
            None => {},
            Some(d) => {
                if t.exited.contains(d) {
                    let said = early_exit_says(debug_form(d));
                    let before = pre + seq![Act::Log(said)];
                    assert forall|k: int| 0 <= k < before.len() implies mild(#[trigger] before[k]) by {
                        if k < pre.len() {
                            assert(before[k] == pre[k]);
                        }
                    }
                    lemma_begins(t, 1, before);
                    assert(pre + gate(t).1 =~= before + shut_down(t, 1).1);
                }
            },
        }
    }
}

proof fn lemma_doubtful_members(r: Run)
    requires
        r.handles.dom().finite(),
    ensures
        forall|n: Text| #[trigger]
            doubtful(r).contains(n) <==> {
                &&& r.handles.contains_key(n)
                &&& r.handles[n].exited
                &&& !(r.defs.contains_key(n) && r.defs[n].oneshot && r.healthy.contains(n))
            },
        ascending(doubtful(r)),
{
    let all = in_order(r.handles.dom());
    let pred = |n: Text| r.handles[n].exited && !completed(r, n);
    lemma_in_order_exists(r.handles.dom());
    lemma_filter_members(all, pred);
    lemma_filter_ascending(all, pred);
    assert forall|n: Text| #[trigger] doubtful(r).contains(n) <==> {
        &&& r.handles.contains_key(n)
        &&& r.handles[n].exited
        &&& !(r.defs.contains_key(n) && r.defs[n].oneshot && r.healthy.contains(n))
    } by {
        assert(all.to_set().contains(n) == r.handles.contains_key(n));
        assert(all.to_set().contains(n) == all.contains(n));
    }
}


/// The survey goes through its groups one by one: one that exists is to be torn down, one that
/// does not is not. After the last, the groups are asked to stop, unless there is nothing to wait
/// for.
pub proof fn law_the_survey_finds_what_is_left(r: Run, there: bool)
    requires
        r.handles.dom().finite(),
        r.phase == Phase::Surveying,
        r.checks.len() > 0,
    ensures
        ({
            let (s, acts) = next(r, In::Alive(there));
            &&& asking(r) == Ask::Alive(r.handles[r.checks[0]].pgid)
            &&& forall|n: Text| #[trigger]
                s.headless.contains(n) <==> r.headless.contains(n) || (there && n == r.checks[0])
            &&& s.checks == r.checks.skip(1)
            &&& s.handles == r.handles
            &&& s.command == r.command
            &&& s.code == r.code
            &&& r.checks.len() > 1 ==> s.phase == Phase::Surveying && acts.len() == 0
            &&& r.checks.len() == 1 ==> {
                ||| s.phase == Phase::Grace && (s.command || exists|n: Text| #[trigger]
                    s.handles.contains_key(n) && (!s.handles[n].exited || s.headless.contains(n)))
                ||| s.phase == Phase::Finished && !s.command && forall|n: Text| #[trigger]
                    s.handles.contains_key(n) ==> s.handles[n].exited && !s.headless.contains(n)
            }
        }),
{
    let n = r.checks[0];
    let t = Run {
        checks: r.checks.skip(1),
        headless: if there {
            r.headless.insert(n)
        } else {
            r.headless
        },
        ..r
    };
    if r.checks.len() == 1 {
        lemma_asked(t);
        let s = ask_all(t).0;
        if s.phase == Phase::Grace && !s.command {
            let m = choose|m: Text| #[trigger] s.remaining.contains(m);
            assert(s.handles.contains_key(m));
        }
        if s.phase == Phase::Finished {
            assert forall|m: Text| #[trigger] s.handles.contains_key(m) implies s.handles[m].exited
                && !s.headless.contains(m) by {
                assert(!s.remaining.contains(m));
            }
        }
    }
}

/// When the grace begins, what is waited for is what is asked to stop, in ascending order, behind
/// a line that says how many there are and how long they have.
pub proof fn law_all_that_is_asked_to_stop_is_waited_for(r: Run, i: In)
    requires
        r.handles.dom().finite(),
        r.phase != Phase::Grace,
        r.phase != Phase::GraceCheck,
        next(r, i).0.phase == Phase::Grace,
    ensures
        ({
            let (s, acts) = next(r, i);
            let q = in_order(s.remaining);
            let first = acts.len() - q.len() - 1;
            &&& forall|n: Text| #[trigger]
                s.remaining.contains(n) <==> s.handles.contains_key(n) && (!s.handles[n].exited
                    || s.headless.contains(n))
            &&& first >= 1
            &&& acts[first - 1] == Act::Log(
                "stopping "@ + decimal(q.len()) + " process(es), "@ + decimal(s.grace as nat)
                    + "s grace before SIGKILL"@,
            )
            &&& forall|k: int|
                0 <= k < q.len() ==> acts[first + k] == (Act::Kill {
                    pgid: s.handles[#[trigger] q[k]].pgid,
                    signal: s.handles[q[k]].shutdown_signal,
                })
            &&& acts.last() == Act::StartTimer(s.grace)
        }),
{
    let (s, acts) = next(r, i);
    match i {
        In::Begin => {
            if let Ok(order) = plan(graph_of(r.defs), r.names) {
                lemma_gate_tail(Run { order, ..r }, Seq::empty());
            }
        },
        In::BeginTest(order) => {
            lemma_gate_tail(Run { order, test: true, ..r }, Seq::empty());
        },
        In::Event(ev) => {
            let t = told(r, ev);
            let line = logged(remark(r, ev));
            assert(t.handles.dom() =~= r.handles.dom());
            match verdict(r, ev) {
                Some((reason, code)) => {
                    let said = if r.phase == Phase::Gating {
                        "aborting startup: "@ + reason
                    } else {
                        "shutting down: "@ + reason
                    };
                    let pre = line + seq![Act::Log(said)];
                    lemma_shut_down_tail(t, code, pre);
                    assert(acts =~= pre + shut_down(t, code).1);
                },
                None => {
                    if r.phase == Phase::Gating {
                        lemma_gate_tail(t, line);
                    }
                },
            }
        },
        In::Spawned(pid) => {
            let n = r.order[r.started as int];
            let t = Run {
                started: r.started + 1,
                handles: r.handles.insert(n, new_handle(r.defs[n], pid)),
                ..r
            };
            assert(t.handles.dom() =~= r.handles.dom().insert(n));
            lemma_gate_tail(t, launched(n, oneshot(r, n), pid));
        },
        In::SpawnFailed(e) => {
            let said = start_failure_says(debug_form(r.order[r.started as int]), e);
            lemma_shut_down_tail(r, 1, seq![Act::Log(said)]);
        },
        In::TestExited(code) => {
            let c: i32 = match code {
                Some(c) => c,
                None => 1,
            };
            let t = Run { command: false, ..r };
            lemma_shut_down_tail(t, c, Seq::empty());
            assert(acts =~= Seq::<Act>::empty() + shut_down(t, c).1);
        },
        In::Alive(there) => {
            let t = Run {
                checks: r.checks.skip(1),
                headless: if there {
                    r.headless.insert(r.checks[0])
                } else {
                    r.headless
                },
                ..r
            };
            lemma_asked_tail(t, Seq::empty());
            assert(acts =~= Seq::<Act>::empty() + ask_all(t).1);
        },
        _ => {},
    }
}

/// The end of the acts with which the grace begins.
spec fn tail(s: Run, acts: Seq<Act>) -> bool {
    let q = in_order(s.remaining);
    let first = acts.len() - q.len() - 1;
    &&& forall|n: Text| #[trigger]
        s.remaining.contains(n) <==> s.handles.contains_key(n) && (!s.handles[n].exited
            || s.headless.contains(n))
    &&& first >= 1
    &&& acts[first - 1] == Act::Log(
        "stopping "@ + decimal(q.len()) + " process(es), "@ + decimal(s.grace as nat)
            + "s grace before SIGKILL"@,
    )
    &&& forall|k: int|
        0 <= k < q.len() ==> acts[first + k] == (Act::Kill {
            pgid: s.handles[#[trigger] q[k]].pgid,
            signal: s.handles[q[k]].shutdown_signal,
        })
    &&& acts.last() == Act::StartTimer(s.grace)
}

proof fn lemma_asked_tail(r: Run, pre: Seq<Act>)
    requires
        r.handles.dom().finite(),
    ensures
        ask_all(r).0.phase == Phase::Grace ==> tail(ask_all(r).0, pre + ask_all(r).1),
{
    let (s, more) = ask_all(r);
    if s.phase == Phase::Grace {
        let pending = live(r);
        lemma_live_members(r);
        lemma_asked(r);
        vstd::seq_lib::seq_to_set_is_finite(pending);
        if pending.len() > 0 || r.command {
            assert(s.remaining == pending.to_set());
            lemma_in_order_exists(s.remaining);
            lemma_ascending_unique(pending, in_order(s.remaining));
            let acts = pre + more;
            let first = acts.len() - pending.len() - 1;
            assert(first == pre.len() + 1);
            assert forall|k: int| 0 <= k < pending.len() implies acts[first + k] == ask_to_stop(
                r,
                #[trigger] pending[k],
            ) by {
                assert(acts[first + k] == more[k + 1]);
            }
        }
    }
}

proof fn lemma_shut_down_tail(r: Run, code: i32, pre: Seq<Act>)
    requires
        r.handles.dom().finite(),
    ensures
        shut_down(r, code).0.phase == Phase::Grace ==> tail(
            shut_down(r, code).0,
            pre + shut_down(r, code).1,
        ),
{
    let s = Run { code, checks: doubtful(r), headless: Set::empty(), ..r };
    if s.checks.len() == 0 {
        let before = pre + (seq![Act::CancelProbes] + stop_command(r));
        lemma_asked_tail(s, before);
        assert(pre + shut_down(r, code).1 =~= before + ask_all(s).1);
    }
}

proof fn lemma_gate_tail(t: Run, pre: Seq<Act>)
    requires
        t.handles.dom().finite(),
    ensures
        gate(t).0.phase == Phase::Grace ==> tail(gate(t).0, pre + gate(t).1),
{
    if t.started < t.order.len() {
        match first_unready(deps_of(t, t.order[t.started as int]), t.healthy) {
            None => {},
            Some(d) => {
                if t.exited.contains(d) {
                    let before = pre + seq![Act::Log(early_exit_says(debug_form(d)))];
                    lemma_shut_down_tail(t, 1, before);
                    assert(pre + gate(t).1 =~= before + shut_down(t, 1).1);
                }
            },
        }
    }
}

/// While the shutdown waits, an exit is taken in, and has the group looked at if it is waited
/// for; nothing stops being waited for by it. No other event changes anything.
pub proof fn law_an_exit_does_not_end_the_wait(r: Run, ev: Ev)
    requires
        r.phase == Phase::Grace || r.phase == Phase::Draining,
    ensures
        ({
            let (s, acts) = next(r, In::Event(ev));
            &&& acts.len() == 0
            &&& s.remaining == r.remaining
            &&& s.healthy == r.healthy
            &&& s.handles == r.handles
            &&& s.command == r.command
            &&& s.code == r.code
            &&& match ev {
                Ev::Exited { name, success, desc } => {
                    &&& forall|n: Text| #[trigger]
                        s.exited.contains(n) <==> r.exited.contains(n) || n == name
                    &&& r.remaining.contains(name) ==> {
                        &&& asking(s) == Ask::Alive(r.handles[name].pgid)
                        &&& s.checks.len() == 1
                        &&& s.checks[0] == name
                        &&& s.phase == if r.phase == Phase::Grace {
                            Phase::GraceCheck
                        } else {
                            Phase::DrainCheck
                        }
                    }
                    &&& !r.remaining.contains(name) ==> s.phase == r.phase
                },
                _ => s == r,
            }
        }),
{
}

/// In a pause, the groups that are waited for though their leaders have exited are looked at,
/// all of them, in ascending order; where there are none nothing happens.
pub proof fn law_a_pause_has_leaderless_groups_looked_at(r: Run)
    requires
        r.remaining.finite(),
        r.phase == Phase::Grace || r.phase == Phase::Draining,
    ensures
        ({
            let (s, acts) = next(r, In::Paused);
            &&& acts.len() == 0
            &&& s.remaining == r.remaining
            &&& s.exited == r.exited
            &&& s.handles == r.handles
            &&& s.command == r.command
            &&& s.code == r.code
            &&& if exists|n: Text| #[trigger] r.remaining.contains(n) && r.exited.contains(n) {
                &&& forall|n: Text| #[trigger]
                    s.checks.contains(n) <==> r.remaining.contains(n) && r.exited.contains(n)
                &&& forall|a: int, b: int|
                    0 <= a < b < s.checks.len() ==> text_lt(
                        #[trigger] s.checks[a],
                        #[trigger] s.checks[b],
                    )
                &&& s.phase == if r.phase == Phase::Grace {
                    Phase::GraceCheck
                } else {
                    Phase::DrainCheck
                }
            } else {
                s == r
            }
        }),
{
    let all = in_order(r.remaining);
    let pred = |n: Text| r.exited.contains(n);
    lemma_in_order_exists(r.remaining);
    lemma_filter_members(all, pred);
    lemma_filter_ascending(all, pred);
    let ns = leaderless(r);
    assert forall|n: Text| #[trigger] ns.contains(n) <==> r.remaining.contains(n)
        && r.exited.contains(n) by {
        assert(all.to_set().contains(n) == all.contains(n));
    }
    if exists|n: Text| #[trigger] r.remaining.contains(n) && r.exited.contains(n) {
        let n = choose|n: Text| #[trigger] r.remaining.contains(n) && r.exited.contains(n);
        assert(ns.contains(n));
    } else if ns.len() > 0 {
        assert(ns.contains(ns[0]));
        assert(r.remaining.contains(ns[0]));
    }
}

/// A group that is looked at is waited for no longer exactly if it is gone and the exit of its
/// leader has been seen. The rest is looked at next; behind the last, the wait goes on as it was,
/// or the run is over if nothing is left to wait for.
pub proof fn law_the_wait_for_a_group_ends_with_the_group(r: Run, there: bool)
    requires
        r.phase == Phase::GraceCheck || r.phase == Phase::Forcing || r.phase == Phase::DrainCheck,
        r.checks.len() > 0,
    ensures
        ({
            let (s, acts) = next(r, In::Alive(there));
            let n = r.checks[0];
            &&& asking(r) == Ask::Alive(r.handles[n].pgid)
            &&& forall|m: Text| #[trigger]
                s.remaining.contains(m) <==> r.remaining.contains(m) && !(m == n && !there
                    && r.exited.contains(n))
            &&& s.checks == r.checks.skip(1)
            &&& s.exited == r.exited
            &&& s.handles == r.handles
            &&& s.command == r.command
            &&& s.code == r.code
            &&& r.checks.len() > 1 ==> s.phase == r.phase
            &&& r.checks.len() == 1 ==> s.phase == if s.remaining.len() == 0 && !s.command {
                Phase::Finished
            } else if r.phase == Phase::GraceCheck {
                Phase::Grace
            } else {
                Phase::Draining
            }
            &&& r.phase != Phase::Forcing && s.phase != Phase::Finished ==> acts.len() == 0
            &&& r.phase == Phase::Forcing && there ==> acts[0] == Act::Log(
                "force-killing "@ + n + " (pgid "@ + signed_decimal(r.handles[n].pgid as int)
                    + ")"@,
            )
            &&& s.phase == Phase::Finished ==> acts.last() == Act::Log("all processes stopped"@)
            &&& acts.len() == (if r.phase == Phase::Forcing && there {
                2int
            } else {
                0
            }) + (if s.phase == Phase::Finished {
                2int
            } else if r.phase == Phase::Forcing && s.phase == Phase::Draining {
                1
            } else {
                0
            })
        }),
{
}

/// When the time to stop is over, a test command that is still running is killed, and every group
/// that is waited for is looked at once more, in ascending order. When the time to be reaped is
/// over too, the run is over.
pub proof fn law_the_end_of_the_time(r: Run)
    requires
        r.remaining.finite(),
        r.phase == Phase::Grace || r.phase == Phase::Draining,
    ensures
        ({
            let (s, acts) = next(r, In::TimedOut);
            &&& s.remaining == r.remaining
            &&& s.exited == r.exited
            &&& s.handles == r.handles
            &&& s.command == r.command
            &&& s.code == r.code
            &&& acts.contains(Act::SignalTest(9)) <==> r.phase == Phase::Grace && r.command
            &&& r.phase == Phase::Grace ==> acts.len() == (if r.command {
                1int
            } else {
                0
            }) + (if s.phase == Phase::Draining {
                1int
            } else {
                0
            })
            &&& r.phase == Phase::Grace && r.remaining.len() == 0 ==> s.phase == Phase::Draining
            &&& r.phase == Phase::Grace && r.remaining.len() > 0 ==> {
                &&& s.phase == Phase::Forcing
                &&& forall|n: Text| #[trigger] s.checks.contains(n) <==> r.remaining.contains(n)
                &&& forall|a: int, b: int|
                    0 <= a < b < s.checks.len() ==> text_lt(
                        #[trigger] s.checks[a],
                        #[trigger] s.checks[b],
                    )
            }
            &&& r.phase == Phase::Draining ==> {
                &&& asking(s) == Ask::Exit(r.code)
                &&& acts == seq![Act::ClearState, Act::Log("all processes stopped"@)]
            }
        }),
{
    let (s, acts) = next(r, In::TimedOut);
    lemma_in_order_exists(r.remaining);
    let all = in_order(r.remaining);
    assert forall|n: Text| #[trigger] all.contains(n) <==> r.remaining.contains(n) by {
        assert(all.to_set().contains(n) == all.contains(n));
    }
    if r.phase == Phase::Grace && r.command {
        assert(acts[0] == Act::SignalTest(9));
    } else {
        assert forall|k: int| 0 <= k < acts.len() implies !(#[trigger] acts[k] is SignalTest) by {}
    }
}

/// A test command that ends during the shutdown is waited for no longer, and the run is over if
/// nothing else is waited for.
pub proof fn law_the_wait_for_the_test_ends_with_it(r: Run, code: Option<i32>)
    requires
        r.phase == Phase::Grace || r.phase == Phase::Draining,
    ensures
        ({
            let (s, acts) = next(r, In::TestExited(code));
            &&& !s.command
            &&& s.remaining == r.remaining
            &&& s.handles == r.handles
            &&& s.exited == r.exited
            &&& s.code == r.code
            &&& r.remaining.len() == 0 ==> {
                &&& asking(s) == Ask::Exit(r.code)
                &&& acts == seq![Act::ClearState, Act::Log("all processes stopped"@)]
            }
            &&& r.remaining.len() > 0 ==> s.phase == r.phase && acts.len() == 0
        }),
{
}

/// A run that is up says that everything is ready as soon as that is so, and only once: at the
/// report with which as many processes are ready as there are. A test is run from then on.
pub proof fn law_readiness_is_announced_when_all_are_ready(r: Run, ev: Ev)
    requires
        r.phase == Phase::Supervising || r.phase == Phase::Testing,
        match ev {
            Ev::Healthy(_) => true,
            Ev::Exited { name, success, desc } => success && r.defs.contains_key(name)
                && r.defs[name].oneshot,
            _ => false,
        },
    ensures
        ({
            let (s, acts) = next(r, In::Event(ev));
            if !r.announced && s.healthy.len() == r.order.len() {
                &&& acts.len() == 2
                &&& acts[1] == Act::Log("all processes ready"@)
                &&& s.announced
                &&& s.command == r.test
                &&& asking(s) == if r.test {
                    Ask::RunTest
                } else {
                    asking(r)
                }
            } else {
                &&& acts.len() == 1
                &&& s.announced == r.announced
                &&& s.command == r.command
                &&& s.phase == r.phase
            }
        }),
{
}

/// What a run waits for follows from where it stands: groups that are waited for are looked at
/// every tenth of a second, and a run that is over exits with its code.
pub proof fn law_how_a_run_waits(r: Run)
    ensures
        match r.phase {
            Phase::Idle => asking(r) == Ask::Begin,
            Phase::Gating | Phase::Supervising => asking(r) == Ask::Receive,
            Phase::Spawning => asking(r) == Ask::Spawn(r.order[r.started as int]),
            Phase::Testing => asking(r) == Ask::RunTest,
            Phase::Grace | Phase::Draining => asking(r) == Ask::ReceiveTimed(100),
            Phase::Finished => asking(r) == Ask::Exit(r.code),
            _ => asking(r) == Ask::Alive(r.handles[r.checks[0]].pgid),
        },
        shutting_down(r) <==> asking(r) is Alive || asking(r) is ReceiveTimed || asking(r) is Exit,
{
}

/// When the last process has been started, a run that has everything ready for its test already
/// says so, as the last thing, and has the test run; any other has said last that all have been
/// started.
pub proof fn law_a_test_begins_when_all_are_ready(r: Run, i: In)
    requires
        match i {
            In::Begin => r.phase == Phase::Idle && plan(graph_of(r.defs), r.names) is Ok,
            In::BeginTest(_) => r.phase == Phase::Idle,
            In::Spawned(_) => r.phase == Phase::Spawning,
            In::Event(Ev::Healthy(_)) => r.phase == Phase::Gating,
            In::Event(Ev::Exited { name, success, desc }) => r.phase == Phase::Gating && success
                && r.defs.contains_key(name) && r.defs[name].oneshot,
            _ => false,
        },
        next(r, i).0.started >= next(r, i).0.order.len(),
    ensures
        ({
            let (s, acts) = next(r, i);
            let all = s.test && !r.announced && s.healthy.len() == s.order.len();
            &&& acts.len() >= 1
            &&& acts.last() == Act::Log(
                if all {
                    "all processes ready"@
                } else {
                    "all "@ + decimal(s.order.len()) + " processes started"@
                },
            )
            &&& s.announced <==> r.announced || all
            &&& s.command <==> if all {
                true
            } else {
                r.command
            }
        }),
{
    match i {
        In::Begin => {
            if let Ok(order) = plan(graph_of(r.defs), r.names) {
                lemma_gate_up(Run { order, ..r }, Seq::empty());
                assert(Seq::<Act>::empty() + gate(Run { order, ..r }).1 =~= gate(
                    Run { order, ..r },
                ).1);
            }
        },
        In::BeginTest(order) => {
            let t = Run { order, test: true, ..r };
            lemma_gate_up(t, Seq::empty());
            assert(Seq::<Act>::empty() + gate(t).1 =~= gate(t).1);
        },
        In::Spawned(pid) => {
            let n = r.order[r.started as int];
            let t = Run {
                started: r.started + 1,
                handles: r.handles.insert(n, new_handle(r.defs[n], pid)),
                ..r
            };
            lemma_gate_up(t, launched(n, oneshot(r, n), pid));
        },
        In::Event(ev) => {
            lemma_gate_up(told(r, ev), logged(remark(r, ev)));
        },
        _ => {},
    }
}

proof fn lemma_gate_up(t: Run, pre: Seq<Act>)
    ensures
        gate(t).0.started >= gate(t).0.order.len() ==> {
            let s = gate(t).0;
            let acts = pre + gate(t).1;
            let all = s.test && !t.announced && s.healthy.len() == s.order.len();
            &&& acts.len() >= 1
            &&& acts.last() == Act::Log(
                if all {
                    "all processes ready"@
                } else {
                    "all "@ + decimal(s.order.len()) + " processes started"@
                },
            )
            &&& s.announced <==> t.announced || all
            &&& s.command <==> if all {
                true
            } else {
                t.command
            }
        },
{
    lemma_gate_keeps(t);
}

/// A step does no more than what the other laws say of it. What is reported gives one line, but
/// a signal none; a start gives its four or five acts; the last start one line, and readiness
/// another. A shutdown has a line that says why, unless a test has ended, and stops the probes
/// and the test command; and then groups are asked to stop, between a line and the timer, or the
/// state file is deleted.
pub proof fn law_a_step_does_no_more(r: Run, i: In)
    requires
        r.handles.dom().finite(),
        match r.phase {
            Phase::Idle => i is BeginTest || (i is Begin && plan(graph_of(r.defs), r.names) is Ok),
            Phase::Gating => i is Event,
            Phase::Spawning => i is Spawned || i is SpawnFailed,
            Phase::Supervising => i is Event,
            Phase::Testing => i is Event || i is TestExited,
            Phase::Surveying => i is Alive,
            _ => false,
        },
    ensures
        ({
            let (s, acts) = next(r, i);
            let n = r.order[r.started as int];
            let reported: int = match i {
                In::Event(Ev::Signal) => 0,
                In::Event(_) => 1,
                In::Spawned(_) => if r.defs.contains_key(n) && r.defs[n].oneshot {
                    4
                } else {
                    5
                },
                _ => 0,
            };
            let torn: int = match s.phase {
                Phase::Grace => s.remaining.len() as int + 2,
                Phase::Finished => 1,
                _ => 0,
            };
            let down = s.phase == Phase::Surveying || s.phase == Phase::Grace || s.phase
                == Phase::Finished;
            let up = s.phase == Phase::Supervising || s.phase == Phase::Testing;
            acts.len() == if r.phase == Phase::Surveying {
                torn
            } else if down {
                reported + (if i is TestExited {
                    0int
                } else {
                    1
                }) + 1 + (if s.command {
                    1int
                } else {
                    0
                }) + torn
            } else {
                reported + (if up && r.phase != Phase::Supervising && r.phase != Phase::Testing {
                    1int
                } else {
                    0
                }) + (if s.announced && !r.announced {
                    1int
                } else {
                    0
                })
            }
        }),
{
    match i {
        In::Begin => {
            if let Ok(order) = plan(graph_of(r.defs), r.names) {
                lemma_gate_len(Run { order, ..r });
            }
        },
        In::BeginTest(order) => {
            lemma_gate_len(Run { order, test: true, ..r });
        },
        In::Event(ev) => {
            let t = told(r, ev);
            assert(t.handles.dom() =~= r.handles.dom());
            match verdict(r, ev) {
                Some((reason, code)) => {
                    lemma_shut_down_len(t, code);
                },
                None => {
                    lemma_gate_len(t);
                },
            }
        },
        In::Spawned(pid) => {
            let n = r.order[r.started as int];
            let t = Run {
                started: r.started + 1,
                handles: r.handles.insert(n, new_handle(r.defs[n], pid)),
                ..r
            };
            assert(t.handles.dom() =~= r.handles.dom().insert(n));
            lemma_gate_len(t);
        },
        In::SpawnFailed(e) => {
            lemma_shut_down_len(r, 1);
        },
        In::TestExited(code) => {
            let c: i32 = match code {
                Some(c) => c,
                None => 1,
            };
            lemma_shut_down_len(Run { command: false, ..r }, c);
        },
        In::Alive(there) => {
            let t = Run {
                checks: r.checks.skip(1),
                headless: if there {
                    r.headless.insert(r.checks[0])
                } else {
                    r.headless
                },
                ..r
            };
            lemma_asked_len(t);
        },
        _ => {},
    }
}

proof fn lemma_asked_len(r: Run)
    requires
        r.handles.dom().finite(),
    ensures
        ({
            let (s, acts) = ask_all(r);
            &&& s.phase == Phase::Grace ==> acts.len() == s.remaining.len() + 2
            &&& s.phase == Phase::Finished ==> acts.len() == 1
            &&& s.phase == Phase::Grace || s.phase == Phase::Finished
        }),
{
    lemma_live_members(r);
    lemma_ascending_distinct(live(r));
    live(r).unique_seq_to_set();
}

proof fn lemma_shut_down_len(r: Run, code: i32)
    requires
        r.handles.dom().finite(),
    ensures
        ({
            let (s, acts) = shut_down(r, code);
            let torn: int = match s.phase {
                Phase::Grace => s.remaining.len() as int + 2,
                Phase::Finished => 1,
                _ => 0,
            };
            &&& s.phase == Phase::Surveying || s.phase == Phase::Grace || s.phase == Phase::Finished
            &&& s.command == r.command
            &&& acts.len() == 1 + (if r.command {
                1int
            } else {
                0
            }) + torn
        }),
{
    let t = Run { code, checks: doubtful(r), headless: Set::empty(), ..r };
    lemma_asked_len(t);
    lemma_shut_down_keeps(r, code);
}

proof fn lemma_gate_len(t: Run)
    requires
        t.handles.dom().finite(),
    ensures
        ({
            let (s, acts) = gate(t);
            let torn: int = match s.phase {
                Phase::Grace => s.remaining.len() as int + 2,
                Phase::Finished => 1,
                _ => 0,
            };
            let down = s.phase == Phase::Surveying || s.phase == Phase::Grace || s.phase
                == Phase::Finished;
            let up = s.phase == Phase::Supervising || s.phase == Phase::Testing;
            acts.len() == if down {
                2 + (if s.command {
                    1int
                } else {
                    0
                }) + torn
            } else {
                (if up {
                    1int
                } else {
                    0
                }) + (if s.announced && !t.announced {
                    1int
                } else {
                    0
                })
            }
        }),
{
    if t.started < t.order.len() {
        lemma_shut_down_len(t, 1);
    }
}


// ---------------------------------------------------------------------------
// Laws of histories
// ---------------------------------------------------------------------------

/// A run that has not begun has started nothing, heard nothing and waits to begin.
pub proof fn law_a_run_begins_with_nothing(
    defs: Map<Text, Process>,
    names: Seq<Text>,
    grace: u64,
    n: Text,
)
    ensures
        ({
            let r = idle(defs, names, grace);
            &&& r.defs == defs
            &&& r.names == names
            &&& r.grace == grace
            &&& r.phase == Phase::Idle
            &&& r.started == 0
            &&& !r.handles.contains_key(n)
            &&& !r.healthy.contains(n)
            &&& !r.exited.contains(n)
            &&& !r.test
            &&& !r.announced
            &&& !r.command
        }),
{
}

proof fn lemma_finite_step(r: Run, i: In)
    requires
        r.handles.dom().finite(),
    ensures
        next(r, i).0.handles.dom().finite(),
{
    match i {
        In::Begin => {
            if let Ok(order) = plan(graph_of(r.defs), r.names) {
                lemma_gate_keeps(Run { order, ..r });
            }
        },
        In::BeginTest(order) => {
            lemma_gate_keeps(Run { order, test: true, ..r });
        },
        In::Event(ev) => {
            if r.phase == Phase::Gating || r.phase == Phase::Supervising || r.phase
                == Phase::Testing {
                lemma_taken_in(r, ev);
                assert(told(r, ev).handles.dom() =~= r.handles.dom());
            }
        },
        In::Spawned(pid) => {
            let n = r.order[r.started as int];
            let t = Run {
                started: r.started + 1,
                handles: r.handles.insert(n, new_handle(r.defs[n], pid)),
                ..r
            };
            lemma_gate_keeps(t);
            assert(t.handles.dom() =~= r.handles.dom().insert(n));
        },
        In::SpawnFailed(e) => {
            lemma_shut_down_keeps(r, 1);
        },
        In::TestExited(code) => {
            lemma_shut_down_keeps(
                Run { command: false, ..r },
                match code {
                    Some(c) => c,
                    None => 1,
                },
            );
        },
        _ => {},
    }
}

proof fn lemma_finite_play(r: Run, inputs: Seq<In>)
    requires
        r.handles.dom().finite(),
    ensures
        play(r, inputs).0.handles.dom().finite(),
        play(r, inputs).0.grace == r.grace,
    decreases inputs.len(),
{
    if inputs.len() > 0 {
        lemma_finite_play(r, inputs.drop_last());
        lemma_finite_step(play(r, inputs.drop_last()).0, inputs.last());
        lemma_grace_stays(play(r, inputs.drop_last()).0, inputs.last());
    }
}

/// Whatever a run has been told before: when the groups are asked to stop, they are given the
/// seconds that the run was made with, neither more nor less, and no other timer is started.
pub proof fn law_every_grace_is_the_given_one(
    defs: Map<Text, Process>,
    names: Seq<Text>,
    grace: u64,
    inputs: Seq<In>,
    i: In,
)
    ensures
        ({
            let r = play(idle(defs, names, grace), inputs).0;
            let (s, acts) = next(r, i);
            s.phase == Phase::Grace && r.phase != Phase::Grace && r.phase != Phase::GraceCheck ==> {
                &&& acts.contains(Act::StartTimer(grace))
                &&& forall|g: u64| #[trigger] acts.contains(Act::StartTimer(g)) ==> g == grace
                &&& acts.last() == Act::StartTimer(grace)
            }
        }),
{
    let made = idle(defs, names, grace);
    assert(made.handles.dom() =~= Set::<Text>::empty());
    lemma_finite_play(made, inputs);
    let r = play(made, inputs).0;
    let (s, acts) = next(r, i);
    if s.phase == Phase::Grace && r.phase != Phase::Grace && r.phase != Phase::GraceCheck {
        assert forall|g: u64| #[trigger] acts.contains(Act::StartTimer(g)) implies g == grace by {
            law_the_grace_lasts_as_long_as_was_given(r, i, g);
        }
        law_the_grace_lasts_as_long_as_was_given(r, i, grace);
        law_all_that_is_asked_to_stop_is_waited_for(r, i);
    }
}

/// The input at position `k` told the run `r`, which was listening, that `n` is healthy, or that
/// `n`, a oneshot, has exited with success.
#[verifier::opaque]
pub open spec fn told_ready(r: Run, inputs: Seq<In>, k: int, n: Text) -> bool {
    let s = play(r, inputs.take(k)).0;
    (asking(s) is Receive || asking(s) is RunTest) && match inputs[k] {
        In::Event(Ev::Healthy(name)) => name == n,
        In::Event(Ev::Exited { name, success, desc }) => name == n && success
            && r.defs.contains_key(n) && r.defs[n].oneshot,
        _ => false,
    }
}

/// Some input told the run `r`, which was listening, that `n` is ready.
pub open spec fn heard(r: Run, inputs: Seq<In>, n: Text) -> bool {
    exists|k: int| 0 <= k < inputs.len() && #[trigger] told_ready(r, inputs, k, n)
}

proof fn lemma_heard_last(r: Run, inputs: Seq<In>, n: Text)
    requires
        inputs.len() > 0,
    ensures
        heard(r, inputs, n) <==> heard(r, inputs.drop_last(), n) || told_ready(
            r,
            inputs,
            inputs.len() - 1,
            n,
        ),
{
    let rest = inputs.drop_last();
    if heard(r, rest, n) {
        let k = choose|k: int| 0 <= k < rest.len() && #[trigger] told_ready(r, rest, k, n);
        lemma_told_earlier(r, inputs, k, n);
    }
    if heard(r, inputs, n) {
        let k = choose|k: int| 0 <= k < inputs.len() && #[trigger] told_ready(r, inputs, k, n);
        if k < rest.len() {
            lemma_told_earlier(r, inputs, k, n);
        }
    }
}

proof fn lemma_told_earlier(r: Run, inputs: Seq<In>, k: int, n: Text)
    requires
        0 <= k < inputs.len() - 1,
    ensures
        told_ready(r, inputs, k, n) == told_ready(r, inputs.drop_last(), k, n),
{
    reveal(told_ready);
    assert(inputs.take(k) =~= inputs.drop_last().take(k));
}

proof fn lemma_told_last(r: Run, s: Run, inputs: Seq<In>, n: Text)
    requires
        inputs.len() > 0,
        s == play(r, inputs.drop_last()).0,
        s.defs == r.defs,
    ensures
        next(s, inputs.last()).0.healthy.contains(n) <==> s.healthy.contains(n) || told_ready(
            r,
            inputs,
            inputs.len() - 1,
            n,
        ),
{
    let i = inputs.last();
    assert(inputs.take(inputs.len() - 1) =~= inputs.drop_last());
    assert(told_ready(r, inputs, inputs.len() - 1, n) == ((asking(s) is Receive || asking(
        s,
    ) is RunTest) && match i {
        In::Event(Ev::Healthy(name)) => name == n,
        In::Event(Ev::Exited { name, success, desc }) => name == n && success
            && r.defs.contains_key(n) && r.defs[n].oneshot,
        _ => false,
    })) by {
        reveal(told_ready);
    }
    let listening = s.phase == Phase::Gating || s.phase == Phase::Supervising || s.phase
        == Phase::Testing;
    law_how_a_run_waits(s);
    match i {
        In::Event(ev) => {
            if listening {
                law_reports_are_taken_in(s, ev, n);
            } else {
                law_nothing_else_makes_ready(s, i);
            }
        },
        _ => {
            law_nothing_else_makes_ready(s, i);
        },
    }
}

/// What is ready is what has been heard to be: every process that was reported healthy, and every
/// oneshot that was reported to have exited with success, while the run was starting up or up;
/// and nothing else.
pub proof fn law_ready_is_what_was_heard(
    defs: Map<Text, Process>,
    names: Seq<Text>,
    grace: u64,
    inputs: Seq<In>,
    n: Text,
)
    ensures
        play(idle(defs, names, grace), inputs).0.healthy.contains(n) <==> heard(
            idle(defs, names, grace),
            inputs,
            n,
        ),
    decreases inputs.len(),
{
    let r = idle(defs, names, grace);
    if inputs.len() > 0 {
        let rest = inputs.drop_last();
        law_ready_is_what_was_heard(defs, names, grace, rest, n);
        lemma_defs_play(r, rest);
        lemma_heard_last(r, inputs, n);
        lemma_told_last(r, play(r, rest).0, inputs, n);
    }
}

proof fn lemma_defs_play(r: Run, inputs: Seq<In>)
    ensures
        play(r, inputs).0.defs == r.defs,
    decreases inputs.len(),
{
    if inputs.len() > 0 {
        let rest = inputs.drop_last();
        lemma_defs_play(r, rest);
        lemma_defs_stay(play(r, rest).0, inputs.last());
    }
}

proof fn lemma_waits(s: Run)
    requires
        s.phase == Phase::Gating || s.phase == Phase::Spawning,
    ensures
        s.started < s.order.len() ==> {
            let deps = s.defs[s.order[s.started as int]].depends_on@;
            &&& (forall|k: int| 0 <= k < deps.len() ==> s.healthy.contains(#[trigger] deps[k]@))
                <==> first_unready(deps_of(s, s.order[s.started as int]), s.healthy) is None
        },
{
    if s.started < s.order.len() {
        let deps = s.defs[s.order[s.started as int]].depends_on@;
        let names = deps_of(s, s.order[s.started as int]);
        if first_unready(names, s.healthy) is None {
            lemma_unready(names, s.healthy);
            assert forall|k: int| 0 <= k < deps.len() implies s.healthy.contains(
                #[trigger] deps[k]@,
            ) by {
                assert(names[k] == deps[k]@);
                assert(names.contains(names[k]));
            }
        }
        if forall|k: int| 0 <= k < deps.len() ==> s.healthy.contains(#[trigger] deps[k]@) {
            assert forall|d: Text| #[trigger] names.contains(d) implies s.healthy.contains(d) by {
                let k = names.index_of(d);
                assert(s.healthy.contains(deps[k]@));
            }
            lemma_ready(names, s.healthy);
        }
    }
}

/// A run that starts up waits exactly for what has not been heard yet: whatever it has been told
/// so far, as long as it has neither started everything nor begun to shut down, it asks for the
/// next process if every dependency that this one lists has been heard to be ready, and goes on
/// listening if not.
pub proof fn law_the_next_process_waits_for_what_was_not_heard(
    defs: Map<Text, Process>,
    names: Seq<Text>,
    grace: u64,
    inputs: Seq<In>,
)
    ensures
        ({
            let r = idle(defs, names, grace);
            let s = play(r, inputs).0;
            let deps = defs[s.order[s.started as int]].depends_on@;
            s.started < s.order.len() && (asking(s) is Receive || asking(s) is Spawn || asking(
                s,
            ) is RunTest) ==> {
                asking(s) == if forall|k: int|
                    0 <= k < deps.len() ==> heard(r, inputs, #[trigger] deps[k]@) {
                    Ask::Spawn(s.order[s.started as int])
                } else {
                    Ask::Receive
                }
            }
        }),
{
    let r = idle(defs, names, grace);
    let s = play(r, inputs).0;
    lemma_gated(r, inputs);
    lemma_defs_play(r, inputs);
    let deps = defs[s.order[s.started as int]].depends_on@;
    if s.started < s.order.len() && (asking(s) is Receive || asking(s) is Spawn || asking(
        s,
    ) is RunTest) {
        assert forall|k: int| 0 <= k < deps.len() implies heard(r, inputs, #[trigger] deps[k]@)
            == s.healthy.contains(deps[k]@) by {
            law_ready_is_what_was_heard(defs, names, grace, inputs, deps[k]@);
        }
        lemma_waits(s);
    }
}

/// A run that waits for a dependency has one that is not ready, one that asks for a process has
/// none, and one that is up has started everything.
spec fn gated(s: Run) -> bool {
    match s.phase {
        Phase::Idle => s.healthy == Set::<Text>::empty(),
        Phase::Gating => s.started < s.order.len() && first_unready(
            deps_of(s, s.order[s.started as int]),
            s.healthy,
        ) is Some,
        Phase::Spawning => s.started < s.order.len() && first_unready(
            deps_of(s, s.order[s.started as int]),
            s.healthy,
        ) is None,
        Phase::Supervising | Phase::Testing => s.started >= s.order.len(),
        _ => true,
    }
}

proof fn lemma_gate_gates(r: Run)
    ensures
        gated(gate(r).0),
{
    lemma_gate_keeps(r);
    if r.started < r.order.len() {
        let n = r.order[r.started as int];
        assert(deps_of(gate(r).0, n) == deps_of(r, n));
        lemma_shut_down_phase(r, 1);
    }
}

proof fn lemma_shut_down_phase(r: Run, code: i32)
    ensures
        ({
            let s = shut_down(r, code).0;
            s.phase == Phase::Surveying || s.phase == Phase::Grace || s.phase == Phase::Finished
        }),
{
}

proof fn lemma_gated_step(r: Run, i: In)
    requires
        gated(r),
    ensures
        gated(next(r, i).0),
{
    match i {
        In::Begin => {
            if let Ok(order) = plan(graph_of(r.defs), r.names) {
                lemma_gate_gates(Run { order, ..r });
            }
        },
        In::BeginTest(order) => {
            lemma_gate_gates(Run { order, test: true, ..r });
        },
        In::Event(ev) => {
            let t = told(r, ev);
            match verdict(r, ev) {
                Some((reason, code)) => {
                    lemma_shut_down_phase(t, code);
                },
                None => {
                    lemma_gate_gates(t);
                },
            }
        },
        In::Spawned(pid) => {
            let n = r.order[r.started as int];
            lemma_gate_gates(
                Run {
                    started: r.started + 1,
                    handles: r.handles.insert(n, new_handle(r.defs[n], pid)),
                    ..r
                },
            );
        },
        In::SpawnFailed(e) => {
            lemma_shut_down_phase(r, 1);
        },
        In::TestExited(code) => {
            lemma_shut_down_phase(
                Run { command: false, ..r },
                match code {
                    Some(c) => c,
                    None => 1,
                },
            );
        },
        _ => {},
    }
}

proof fn lemma_gated(r: Run, inputs: Seq<In>)
    requires
        gated(r),
    ensures
        gated(play(r, inputs).0),
    decreases inputs.len(),
{
    if inputs.len() > 0 {
        lemma_gated(r, inputs.drop_last());
        lemma_gated_step(play(r, inputs.drop_last()).0, inputs.last());
    }
}

/// The report that was still missing has the next process started: if all that the next process
/// lists has been heard to be ready, but for what the event says, the run asks for it.
pub proof fn law_the_missing_report_starts_the_next_process(
    defs: Map<Text, Process>,
    names: Seq<Text>,
    grace: u64,
    inputs: Seq<In>,
    n: Text,
)
    ensures
        ({
            let r = idle(defs, names, grace);
            let s = play(r, inputs).0;
            let deps = defs[s.order[s.started as int]].depends_on@;
            asking(s) is Receive && s.started < s.order.len() && (forall|k: int|
                0 <= k < deps.len() ==> #[trigger] deps[k]@ == n || heard(r, inputs, deps[k]@))
                ==> asking(play(r, inputs.push(In::Event(Ev::Healthy(n)))).0) == Ask::Spawn(
                s.order[s.started as int],
            )
        }),
{
    let r = idle(defs, names, grace);
    let s = play(r, inputs).0;
    let i = In::Event(Ev::Healthy(n));
    let t = play(r, inputs.push(i)).0;
    let deps = defs[s.order[s.started as int]].depends_on@;
    assert(inputs.push(i).drop_last() =~= inputs);
    assert(t == next(s, i).0);
    lemma_gated(r, inputs);
    lemma_defs_play(r, inputs);
    if asking(s) is Receive && s.started < s.order.len() && (forall|k: int|
        0 <= k < deps.len() ==> #[trigger] deps[k]@ == n || heard(r, inputs, deps[k]@)) {
        law_the_startup_goes_on(s, i);
        assert forall|k: int| 0 <= k < deps.len() implies t.healthy.contains(#[trigger] deps[k]@) by {
            law_ready_is_what_was_heard(defs, names, grace, inputs, deps[k]@);
            law_reports_are_taken_in(s, Ev::Healthy(n), deps[k]@);
        }
    }
}

} // verus!
