//! What holds of every run, whatever it is told and in whatever order.

use vstd::prelude::*;
use vstd::seq_lib::lemma_seq_concat_contains_all_elements;

use crate::config::{graph_of, Process};
use crate::graph::{law_dependencies_come_first, plan, Fault};
use crate::names::{ascending, in_order, lemma_ascending_distinct, lemma_in_order_exists};
use crate::run::{
    all_groups, all_ready, announce, ask_all, ask_to_stop, asking, checked, command_ended, completed,
    deps_of, doubtful, early_exit_says, ending, finish, first_unready, force_kill, force_remaining,
    force_says, forced, gate, gating, idle, kill_command, launched, leaderless, live, logged, look,
    looked, new_handle, next, oneshot, remark, shut_down, shutting_down, start_failure_says, stop,
    stop_command, struck, supervising, surveyed, told, verdict, waiting, Act, Ask, Ev, In, Phase,
    Run, DRAIN_SECONDS,
};
use crate::signals::{kill, term};
use crate::text::{debug_form, views, Text};

verus! {

// ---------------------------------------------------------------------------
// Histories
// ---------------------------------------------------------------------------

/// Where a run comes to from `r` when it is told `inputs`, and all that it does on the way.
pub open spec fn play(r: Run, inputs: Seq<In>) -> (Run, Seq<Act>)
    decreases inputs.len(),
{
    if inputs.len() == 0 {
        (r, Seq::empty())
    } else {
        let (s, done) = play(r, inputs.drop_last());
        let (t, more) = next(s, inputs.last());
        (t, done + more)
    }
}

/// A run that has not begun, with its processes listed in ascending order.
pub open spec fn unbegun(r: Run) -> bool {
    &&& r == idle(r.defs, r.names, r.grace)
    &&& ascending(r.names)
    &&& r.names.to_set() == r.defs.dom()
}

/// An order for a test holds defined processes, each once.
pub open spec fn fits(r: Run, i: In) -> bool {
    match i {
        In::BeginTest(order) => {
            &&& order.no_duplicates()
            &&& forall|k: int| 0 <= k < order.len() ==> r.defs.contains_key(#[trigger] order[k])
        },
        _ => true,
    }
}

/// Every order for a test that the run is told fits its processes.
pub open spec fn all_fit(r: Run, inputs: Seq<In>) -> bool {
    forall|k: int| 0 <= k < inputs.len() ==> fits(r, #[trigger] inputs[k])
}

/// The input says that `n` is ready: that it is healthy, or that it is a oneshot and has
/// completed.
pub open spec fn says_ready(defs: Map<Text, Process>, i: In, n: Text) -> bool {
    match i {
        In::Event(Ev::Healthy(name)) => name == n,
        In::Event(Ev::Exited { name, success, desc }) => {
            &&& name == n
            &&& success
            &&& defs.contains_key(n)
            &&& defs[n].oneshot
        },
        _ => false,
    }
}

/// It has been said that `n` is ready.
pub open spec fn heard_ready(defs: Map<Text, Process>, inputs: Seq<In>, n: Text) -> bool {
    exists|k: int| 0 <= k < inputs.len() && says_ready(defs, #[trigger] inputs[k], n)
}

/// The act sends a signal.
pub open spec fn is_kill(a: Act) -> bool {
    a is Kill
}

/// No signal has been sent.
pub open spec fn no_kills(acts: Seq<Act>) -> bool {
    forall|k: int| 0 <= k < acts.len() ==> !#[trigger] is_kill(acts[k])
}

/// `n` has been started, and its group is to be torn down: it was not seen to exit before the
/// shutdown, or it has left a group behind.
pub open spec fn alive(r: Run, n: Text) -> bool {
    r.handles.contains_key(n) && (!r.handles[n].exited || r.headless.contains(n))
}

/// The act, if it sends a signal, sends it to a group that is to be torn down.
pub open spec fn kills_own(r: Run, a: Act) -> bool {
    match a {
        Act::Kill { pgid, signal } => exists|n: Text| #[trigger]
            alive(r, n) && r.handles[n].pgid == pgid,
        _ => true,
    }
}

/// The groups known to be gone after one more input. What is said of a group that has been
/// killed already does not count.
pub open spec fn gone_after(s: Run, i: In, gone: Set<i32>) -> Set<i32> {
    match (asking(s), i) {
        (Ask::Alive(pgid), In::Alive(false)) => if s.phase == Phase::DrainCheck {
            gone
        } else {
            gone.insert(pgid)
        },
        _ => gone,
    }
}

/// The groups that the run, before it would have killed them, has been told are gone.
pub open spec fn told_gone(r: Run, inputs: Seq<In>) -> Set<i32>
    decreases inputs.len(),
{
    if inputs.len() == 0 {
        Set::empty()
    } else {
        let before = inputs.drop_last();
        gone_after(play(r, before).0, inputs.last(), told_gone(r, before))
    }
}

// ---------------------------------------------------------------------------
// The invariant
// ---------------------------------------------------------------------------

/// What holds in every phase: a process is started once, in start order, and only when all that
/// it depends on has been said to be ready.
spec fn orderly(r: Run, inputs: Seq<In>) -> bool {
    &&& r.order.no_duplicates()
    &&& forall|k: int| 0 <= k < r.order.len() ==> r.defs.contains_key(#[trigger] r.order[k])
    &&& r.started <= r.order.len()
    &&& r.handles.dom() == r.order.take(r.started as int).to_set()
    &&& forall|k: int, d: Text|
        0 <= k < r.started && #[trigger] views(r.defs[r.order[k]].depends_on@).contains(d)
            ==> r.healthy.contains(d)
    &&& forall|n: Text| #[trigger] r.healthy.contains(n) ==> heard_ready(r.defs, inputs, n)
}

/// `n` has exited on its own, is no completed oneshot, and is not known to have left a group.
spec fn undecided(r: Run, n: Text) -> bool {
    &&& r.handles.contains_key(n)
    &&& r.handles[n].exited
    &&& !completed(r, n)
    &&& !r.headless.contains(n)
}

/// Only what has exited on its own, and is no completed oneshot, has left a group behind.
spec fn proper(r: Run) -> bool {
    forall|n: Text| #[trigger]
        r.headless.contains(n) ==> r.handles.contains_key(n) && r.handles[n].exited && !completed(
            r,
            n,
        )
}

/// What holds once groups have been asked to stop: all that are to be torn down have been asked,
/// and each is waited for, known to be gone, or killed; and nothing else has been signalled.
spec fn closing(r: Run, acts: Seq<Act>, gone: Set<i32>) -> bool {
    &&& proper(r)
    &&& forall|n: Text| #[trigger] undecided(r, n) ==> gone.contains(r.handles[n].pgid)
    &&& forall|n: Text| #[trigger]
        alive(r, n) ==> acts.contains(ask_to_stop(r, n)) && (r.remaining.contains(n)
            || gone.contains(r.handles[n].pgid) || acts.contains(force_kill(r, n)))
    &&& forall|n: Text| #[trigger] r.remaining.contains(n) ==> alive(r, n)
    &&& forall|k: int| 0 <= k < acts.len() ==> #[trigger] kills_own(r, acts[k])
}

/// There is something to look at, each once, and all of it is waited for.
spec fn checking(r: Run) -> bool {
    &&& r.checks.len() > 0
    &&& r.checks.no_duplicates()
    &&& forall|k: int| 0 <= k < r.checks.len() ==> r.remaining.contains(#[trigger] r.checks[k])
}

/// All that is waited for is known to be gone, or has been killed.
spec fn all_killed(r: Run, acts: Seq<Act>, gone: Set<i32>) -> bool {
    forall|n: Text| #[trigger]
        r.remaining.contains(n) ==> gone.contains(r.handles[n].pgid) || acts.contains(
            force_kill(r, n),
        )
}

spec fn stage(r: Run, acts: Seq<Act>, gone: Set<i32>) -> bool {
    match r.phase {
        Phase::Idle => {
            &&& r.started == 0
            &&& no_kills(acts)
            &&& r.healthy == Set::<Text>::empty()
            &&& r.headless == Set::<Text>::empty()
            &&& !r.test
        },
        Phase::Gating => no_kills(acts),
        Phase::Spawning => {
            &&& no_kills(acts)
            &&& r.started < r.order.len()
            &&& forall|d: Text| #[trigger]
                views(r.defs[r.order[r.started as int]].depends_on@).contains(d)
                    ==> r.healthy.contains(d)
        },
        Phase::Supervising => no_kills(acts) && r.started == r.order.len(),
        Phase::Testing => {
            &&& no_kills(acts)
            &&& r.started == r.order.len()
            &&& r.test
        },
        Phase::Surveying => {
            &&& no_kills(acts)
            &&& proper(r)
            &&& r.checks.len() > 0
            &&& forall|k: int|
                0 <= k < r.checks.len() ==> {
                    &&& r.handles.contains_key(#[trigger] r.checks[k])
                    &&& r.handles[r.checks[k]].exited
                    &&& !completed(r, r.checks[k])
                }
            &&& forall|n: Text| #[trigger]
                undecided(r, n) ==> r.checks.contains(n) || gone.contains(r.handles[n].pgid)
        },
        Phase::Grace => closing(r, acts, gone) && waiting(r),
        Phase::GraceCheck => closing(r, acts, gone) && checking(r),
        Phase::Forcing => {
            &&& closing(r, acts, gone)
            &&& checking(r)
            &&& forall|n: Text| #[trigger]
                r.remaining.contains(n) ==> r.checks.contains(n) || gone.contains(r.handles[n].pgid)
                    || acts.contains(force_kill(r, n))
        },
        Phase::Draining => closing(r, acts, gone) && waiting(r) && all_killed(r, acts, gone),
        Phase::DrainCheck => closing(r, acts, gone) && checking(r) && all_killed(r, acts, gone),
        Phase::Finished => {
            &&& proper(r)
            &&& forall|n: Text| #[trigger] undecided(r, n) ==> gone.contains(r.handles[n].pgid)
            &&& forall|n: Text| #[trigger]
                alive(r, n) ==> acts.contains(ask_to_stop(r, n)) && (gone.contains(
                    r.handles[n].pgid,
                ) || acts.contains(force_kill(r, n)))
            &&& forall|k: int| 0 <= k < acts.len() ==> #[trigger] kills_own(r, acts[k])
            &&& acts.contains(Act::ClearState) || (!r.test && plan(graph_of(r.defs), r.names) is Err)
        },
    }
}

spec fn kept(r: Run, acts: Seq<Act>, inputs: Seq<In>, gone: Set<i32>) -> bool {
    orderly(r, inputs) && stage(r, acts, gone)
}

proof fn lemma_heard_more(defs: Map<Text, Process>, inputs: Seq<In>, i: In)
    ensures
        forall|n: Text| #[trigger]
            heard_ready(defs, inputs, n) ==> heard_ready(defs, inputs.push(i), n),
        forall|n: Text| #[trigger] says_ready(defs, i, n) ==> heard_ready(defs, inputs.push(i), n),
{
    let more = inputs.push(i);
    assert(more[inputs.len() as int] == i);
    assert forall|n: Text| #[trigger] heard_ready(defs, inputs, n) implies heard_ready(
        defs,
        more,
        n,
    ) by {
        let k = choose|k: int| 0 <= k < inputs.len() && says_ready(defs, #[trigger] inputs[k], n);
        assert(more[k] == inputs[k]);
    }
}

proof fn lemma_no_kills_add(a: Seq<Act>, b: Seq<Act>)
    requires
        no_kills(a),
        no_kills(b),
    ensures
        no_kills(a + b),
{
    assert forall|k: int| 0 <= k < (a + b).len() implies !#[trigger] is_kill((a + b)[k]) by {
        if k < a.len() {
            assert((a + b)[k] == a[k]);
        } else {
            assert((a + b)[k] == b[k - a.len()]);
        }
    }
}

proof fn lemma_own_add(r: Run, a: Seq<Act>, b: Seq<Act>)
    requires
        forall|k: int| 0 <= k < a.len() ==> #[trigger] kills_own(r, a[k]),
        forall|k: int| 0 <= k < b.len() ==> #[trigger] kills_own(r, b[k]),
    ensures
        forall|k: int| 0 <= k < (a + b).len() ==> #[trigger] kills_own(r, (a + b)[k]),
{
    assert forall|k: int| 0 <= k < (a + b).len() implies #[trigger] kills_own(r, (a + b)[k]) by {
        if k < a.len() {
            assert((a + b)[k] == a[k]);
        } else {
            assert((a + b)[k] == b[k - a.len()]);
        }
    }
}

/// What is said of processes depends on what has been started, what has exited and what is
/// ready alone.
proof fn lemma_same(a: Run, b: Run)
    requires
        a.defs == b.defs,
        a.handles == b.handles,
        a.healthy == b.healthy,
        a.headless == b.headless,
    ensures
        forall|n: Text| #[trigger] alive(a, n) == alive(b, n),
        forall|n: Text| #[trigger] completed(a, n) == completed(b, n),
        forall|n: Text| #[trigger] undecided(a, n) == undecided(b, n),
        forall|n: Text| #[trigger] ask_to_stop(a, n) == ask_to_stop(b, n),
        forall|n: Text| #[trigger] force_kill(a, n) == force_kill(b, n),
        forall|x: Act| #[trigger] kills_own(a, x) == kills_own(b, x),
        proper(a) == proper(b),
{
    assert forall|n: Text| #[trigger] alive(a, n) == alive(b, n) by {}
    assert forall|n: Text| #[trigger] completed(a, n) == completed(b, n) by {}
    assert forall|x: Act| #[trigger] kills_own(a, x) == kills_own(b, x) by {
        if let Act::Kill { pgid, signal } = x {
            if kills_own(a, x) {
                let n = choose|n: Text| #[trigger] alive(a, n) && a.handles[n].pgid == pgid;
                assert(alive(b, n));
            }
            if kills_own(b, x) {
                let n = choose|n: Text| #[trigger] alive(b, n) && b.handles[n].pgid == pgid;
                assert(alive(a, n));
            }
        }
    }
    if proper(a) {
        assert forall|n: Text| #[trigger] b.headless.contains(n) implies b.handles.contains_key(n)
            && b.handles[n].exited && !completed(b, n) by {
            assert(a.headless.contains(n));
        }
    }
    if proper(b) {
        assert forall|n: Text| #[trigger] a.headless.contains(n) implies a.handles.contains_key(n)
            && a.handles[n].exited && !completed(a, n) by {
            assert(b.headless.contains(n));
        }
    }
}

/// The live processes are those whose groups are to be torn down.
proof fn lemma_live(r: Run)
    requires
        r.handles.dom().finite(),
    ensures
        forall|n: Text| #[trigger] live(r).contains(n) <==> alive(r, n),
        live(r).no_duplicates(),
{
    let all = in_order(r.handles.dom());
    let pred = |n: Text| !r.handles[n].exited || r.headless.contains(n);
    lemma_in_order_exists(r.handles.dom());
    lemma_ascending_distinct(all);
    lemma_filter_members(all, pred);
    assert forall|n: Text| #[trigger] live(r).contains(n) <==> alive(r, n) by {
        assert(all.to_set().contains(n) == r.handles.contains_key(n));
        assert(all.to_set().contains(n) == all.contains(n));
    }
}

/// The doubtful processes are those that have exited on their own, but for completed oneshots.
proof fn lemma_doubtful(r: Run)
    requires
        r.handles.dom().finite(),
    ensures
        forall|n: Text| #[trigger]
            doubtful(r).contains(n) <==> r.handles.contains_key(n) && r.handles[n].exited
                && !completed(r, n),
{
    let all = in_order(r.handles.dom());
    let pred = |n: Text| r.handles[n].exited && !completed(r, n);
    lemma_in_order_exists(r.handles.dom());
    lemma_filter_members(all, pred);
    assert forall|n: Text| #[trigger] doubtful(r).contains(n) <==> r.handles.contains_key(n)
        && r.handles[n].exited && !completed(r, n) by {
        assert(all.to_set().contains(n) == r.handles.contains_key(n));
        assert(all.to_set().contains(n) == all.contains(n));
    }
}

pub(crate) proof fn lemma_filter_members(s: Seq<Text>, pred: spec_fn(Text) -> bool)
    ensures
        forall|n: Text| #[trigger] s.filter(pred).contains(n) <==> s.contains(n) && pred(n),
        s.no_duplicates() ==> s.filter(pred).no_duplicates(),
    decreases s.len(),
{
    reveal(Seq::filter);
    if s.len() > 0 {
        let d = s.drop_last();
        let z = s.last();
        lemma_filter_members(d, pred);
        let f = d.filter(pred);
        assert(s =~= d.push(z));
        assert forall|n: Text| #[trigger] s.contains(n) <==> d.contains(n) || n == z by {
            if d.contains(n) {
                assert(s[d.index_of(n)] == n);
            }
            if s.contains(n) && n != z {
                assert(d[s.index_of(n)] == n);
            }
            assert(s[s.len() - 1] == z);
        }
        if pred(z) {
            assert forall|n: Text| #[trigger] f.push(z).contains(n) <==> f.contains(n) || n == z by {
                if f.contains(n) {
                    assert(f.push(z)[f.index_of(n)] == n);
                }
                if f.push(z).contains(n) && n != z {
                    assert(f[f.push(z).index_of(n)] == n);
                }
                assert(f.push(z)[f.len() as int] == z);
            }
            if s.no_duplicates() {
                assert(d.no_duplicates());
                assert(!d.contains(z)) by {
                    if d.contains(z) {
                        assert(s[d.index_of(z)] == s[s.len() - 1]);
                    }
                }
                assert(!f.contains(z));
                assert(f.push(z).no_duplicates()) by {
                    assert forall|i: int, j: int|
                        0 <= i < f.push(z).len() && 0 <= j < f.push(z).len() && i != j implies f.push(
                        z,
                    )[i] != f.push(z)[j] by {
                        if i < f.len() && j < f.len() {
                        } else if i < f.len() {
                            assert(f.contains(f[i]));
                        } else {
                            assert(f.contains(f[j]));
                        }
                    }
                }
            }
        } else if s.no_duplicates() {
            assert(d.no_duplicates());
        }
    }
}

proof fn lemma_handles_finite(r: Run, inputs: Seq<In>)
    requires
        orderly(r, inputs),
    ensures
        r.handles.dom().finite(),
{
    vstd::seq_lib::seq_to_set_is_finite(r.order.take(r.started as int));
}

pub(crate) proof fn lemma_unready(deps: Seq<Text>, healthy: Set<Text>)
    requires
        first_unready(deps, healthy) is None,
    ensures
        forall|d: Text| #[trigger] deps.contains(d) ==> healthy.contains(d),
    decreases deps.len(),
{
    if deps.len() > 0 {
        lemma_unready(deps.drop_last(), healthy);
        assert forall|d: Text| #[trigger] deps.contains(d) implies healthy.contains(d) by {
            let k = deps.index_of(d);
            if k < deps.len() - 1 {
                assert(deps.drop_last()[k] == d);
                assert(deps.drop_last().contains(d));
            }
        }
    }
}

// ---------------------------------------------------------------------------
// The invariant is kept
// ---------------------------------------------------------------------------

proof fn lemma_ask_all(r: Run, acts: Seq<Act>, inputs: Seq<In>, gone: Set<i32>)
    requires
        orderly(r, inputs),
        no_kills(acts),
        proper(r),
        forall|n: Text| #[trigger] undecided(r, n) ==> gone.contains(r.handles[n].pgid),
    ensures
        kept(ask_all(r).0, acts + ask_all(r).1, inputs, gone),
{
    lemma_handles_finite(r, inputs);
    lemma_live(r);
    let pending = live(r);
    let (s, more) = ask_all(r);
    let done = acts + more;
    lemma_same(r, s);
    assert(orderly(s, inputs));
    assert forall|k: int| 0 <= k < acts.len() implies #[trigger] kills_own(s, acts[k]) by {
        assert(!is_kill(acts[k]));
    }
    assert forall|n: Text| #[trigger] undecided(s, n) implies gone.contains(s.handles[n].pgid) by {
        assert(undecided(r, n));
    }
    if pending.len() == 0 && !r.command {
        assert forall|n: Text| !#[trigger] alive(s, n) by {
            assert(alive(r, n) == live(r).contains(n));
        }
        assert(more[0] == Act::ClearState);
        lemma_seq_concat_contains_all_elements(acts, more, Act::ClearState);
        lemma_own_add(s, acts, more);
    } else {
        let kills = pending.map_values(|n: Text| ask_to_stop(r, n));
        let head = more.take(1);
        let tail = seq![Act::StartTimer(r.grace)];
        assert(more =~= head + kills + tail);
        assert forall|k: int| 0 <= k < kills.len() implies #[trigger] kills_own(s, kills[k]) by {
            let n = pending[k];
            assert(live(r).contains(n));
            assert(alive(r, n));
            assert(alive(s, n));
        }
        assert(head[0] is Log);
        lemma_own_add(s, head, kills);
        lemma_own_add(s, head + kills, tail);
        lemma_own_add(s, acts, more);
        assert forall|n: Text| #[trigger] alive(s, n) implies done.contains(ask_to_stop(s, n))
            && s.remaining.contains(n) by {
            assert(alive(r, n));
            assert(live(r).contains(n));
            let k = pending.index_of(n);
            assert(kills[k] == ask_to_stop(r, n));
            assert(kills.contains(ask_to_stop(r, n)));
            lemma_seq_concat_contains_all_elements(head, kills, ask_to_stop(r, n));
            lemma_seq_concat_contains_all_elements(head + kills, tail, ask_to_stop(r, n));
            lemma_seq_concat_contains_all_elements(acts, more, ask_to_stop(r, n));
            assert(ask_to_stop(s, n) == ask_to_stop(r, n));
            assert(pending.to_set().contains(n));
        }
        assert forall|n: Text| #[trigger] s.remaining.contains(n) implies alive(s, n) by {
            assert(pending.contains(n));
            assert(live(r).contains(n));
            assert(alive(r, n));
        }
        if pending.len() > 0 {
            assert(s.remaining.contains(pending[0]));
            vstd::seq_lib::seq_to_set_is_finite(pending);
            if s.remaining.len() == 0 {
                s.remaining.lemma_len0_is_empty();
            }
        }
    }
}

proof fn lemma_shut_down(r: Run, acts: Seq<Act>, inputs: Seq<In>, gone: Set<i32>, code: i32)
    requires
        orderly(r, inputs),
        no_kills(acts),
    ensures
        kept(shut_down(r, code).0, acts + shut_down(r, code).1, inputs, gone),
{
    lemma_handles_finite(r, inputs);
    lemma_doubtful(r);
    let s = Run { code, checks: doubtful(r), headless: Set::empty(), ..r };
    let first = seq![Act::CancelProbes] + stop_command(r);
    lemma_no_kills_add(acts, first);
    assert(orderly(s, inputs));
    assert forall|n: Text| #[trigger] completed(s, n) == completed(r, n) by {}
    assert forall|n: Text| #[trigger] undecided(s, n) implies s.checks.contains(n) by {
        assert(completed(s, n) == completed(r, n));
        assert(doubtful(r).contains(n));
    }
    if s.checks.len() == 0 {
        assert forall|n: Text| #[trigger] undecided(s, n) implies gone.contains(
            s.handles[n].pgid,
        ) by {
            assert(s.checks.contains(n));
        }
        lemma_ask_all(s, acts + first, inputs, gone);
        assert(acts + shut_down(r, code).1 =~= (acts + first) + ask_all(s).1);
    } else {
        let t = Run { phase: Phase::Surveying, ..s };
        assert(acts + shut_down(r, code).1 =~= acts + first);
        lemma_same(s, t);
        assert forall|k: int| 0 <= k < t.checks.len() implies {
            &&& t.handles.contains_key(#[trigger] t.checks[k])
            &&& t.handles[t.checks[k]].exited
            &&& !completed(t, t.checks[k])
        } by {
            assert(doubtful(r).contains(t.checks[k]));
            assert(completed(s, t.checks[k]) == completed(r, t.checks[k]));
            assert(completed(t, t.checks[k]) == completed(s, t.checks[k]));
        }
        assert forall|n: Text| #[trigger] undecided(t, n) implies t.checks.contains(n) by {
            assert(undecided(s, n));
        }
        assert(orderly(t, inputs));
    }
}

proof fn lemma_surveyed(r: Run, acts: Seq<Act>, inputs: Seq<In>, gone: Set<i32>, there: bool)
    requires
        kept(r, acts, inputs, gone),
        r.phase == Phase::Surveying,
    ensures
        kept(
            surveyed(r, there).0,
            acts + surveyed(r, there).1,
            inputs,
            gone_after(r, In::Alive(there), gone),
        ),
{
    let n = r.checks[0];
    let pgid = r.handles[n].pgid;
    let known = gone_after(r, In::Alive(there), gone);
    let s = Run {
        checks: r.checks.skip(1),
        headless: if there {
            r.headless.insert(n)
        } else {
            r.headless
        },
        ..r
    };
    assert(orderly(s, inputs));
    assert forall|m: Text| #[trigger] completed(s, m) == completed(r, m) by {}
    assert(r.handles.contains_key(r.checks[0]));
    assert(proper(s)) by {
        assert forall|m: Text| #[trigger] s.headless.contains(m) implies s.handles.contains_key(m)
            && s.handles[m].exited && !completed(s, m) by {
            assert(completed(s, m) == completed(r, m));
            if m != n {
                assert(r.headless.contains(m));
            }
        }
    }
    assert forall|m: Text| #[trigger] undecided(s, m) implies s.checks.contains(m)
        || known.contains(s.handles[m].pgid) by {
        assert(completed(s, m) == completed(r, m));
        assert(undecided(r, m));
        if r.checks.contains(m) && m != n {
            let k = r.checks.index_of(m);
            assert(s.checks[k - 1] == m);
        }
    }
    if s.checks.len() == 0 {
        assert forall|m: Text| #[trigger] undecided(s, m) implies known.contains(
            s.handles[m].pgid,
        ) by {}
        lemma_ask_all(s, acts, inputs, known);
    } else {
        assert(acts + surveyed(r, there).1 =~= acts);
        assert forall|k: int| 0 <= k < s.checks.len() implies {
            &&& s.handles.contains_key(#[trigger] s.checks[k])
            &&& s.handles[s.checks[k]].exited
            &&& !completed(s, s.checks[k])
        } by {
            assert(s.checks[k] == r.checks[k + 1]);
            assert(r.handles.contains_key(r.checks[k + 1]));
            assert(completed(s, s.checks[k]) == completed(r, s.checks[k]));
        }
    }
}

proof fn lemma_stop(
    r: Run,
    acts: Seq<Act>,
    inputs: Seq<In>,
    gone: Set<i32>,
    line: Text,
    code: i32,
)
    requires
        orderly(r, inputs),
        no_kills(acts),
    ensures
        kept(stop(r, line, code).0, acts + stop(r, line, code).1, inputs, gone),
{
    let said = seq![Act::Log(line)];
    lemma_no_kills_add(acts, said);
    lemma_shut_down(r, acts + said, inputs, gone, code);
    assert(acts + stop(r, line, code).1 =~= (acts + said) + shut_down(r, code).1);
}

proof fn lemma_announce(r: Run, acts: Seq<Act>, inputs: Seq<In>, gone: Set<i32>)
    requires
        orderly(r, inputs),
        r.phase == Phase::Supervising || r.phase == Phase::Testing,
        stage(r, acts, gone),
    ensures
        kept(announce(r).0, acts + announce(r).1, inputs, gone),
{
    lemma_no_kills_add(acts, announce(r).1);
}

proof fn lemma_gate(r: Run, acts: Seq<Act>, inputs: Seq<In>, gone: Set<i32>)
    requires
        orderly(r, inputs),
        no_kills(acts),
    ensures
        kept(gate(r).0, acts + gate(r).1, inputs, gone),
{
    if r.started >= r.order.len() {
        let up = Run { phase: Phase::Supervising, ..r };
        let said = seq![gate(r).1[0]];
        assert(orderly(up, inputs));
        assert(said[0] is Log);
        lemma_no_kills_add(acts, said);
        if r.test {
            lemma_announce(up, acts + said, inputs, gone);
            assert(acts + gate(r).1 =~= (acts + said) + announce(up).1);
        } else {
            assert(gate(r).1 =~= said);
        }
    } else {
        let deps = deps_of(r, r.order[r.started as int]);
        match first_unready(deps, r.healthy) {
            None => {
                lemma_unready(deps, r.healthy);
                assert(acts + gate(r).1 =~= acts);
                assert(orderly(gate(r).0, inputs));
            },
            Some(d) => {
                if r.exited.contains(d) {
                    let line = early_exit_says(debug_form(d));
                    lemma_stop(r, acts, inputs, gone, line, 1);
                } else {
                    assert(acts + gate(r).1 =~= acts);
                    assert(orderly(gate(r).0, inputs));
                }
            },
        }
    }
}

proof fn lemma_told(r: Run, inputs: Seq<In>, ev: Ev)
    requires
        orderly(r, inputs),
    ensures
        orderly(told(r, ev), inputs.push(In::Event(ev))),
        no_kills(logged(remark(r, ev))),
{
    let i = In::Event(ev);
    let t = told(r, ev);
    let more = inputs.push(i);
    lemma_heard_more(r.defs, inputs, i);
    assert(t.handles.dom() =~= r.handles.dom());
    assert forall|n: Text| #[trigger] t.healthy.contains(n) implies heard_ready(t.defs, more, n) by {
        if !r.healthy.contains(n) {
            assert(says_ready(r.defs, i, n));
        }
    }
    assert forall|k: int, d: Text|
        0 <= k < t.started && #[trigger] views(t.defs[t.order[k]].depends_on@).contains(d) implies t.healthy.contains(
        d,
    ) by {
        assert(views(r.defs[r.order[k]].depends_on@).contains(d));
    }
}

proof fn lemma_gating(r: Run, acts: Seq<Act>, inputs: Seq<In>, gone: Set<i32>, ev: Ev)
    requires
        orderly(r, inputs),
        no_kills(acts),
        r.phase == Phase::Gating,
    ensures
        kept(gating(r, ev).0, acts + gating(r, ev).1, inputs.push(In::Event(ev)), gone),
{
    let more = inputs.push(In::Event(ev));
    let t = told(r, ev);
    let line = logged(remark(r, ev));
    lemma_told(r, inputs, ev);
    lemma_no_kills_add(acts, line);
    match verdict(r, ev) {
        Some((reason, code)) => {
            let why = "aborting startup: "@ + reason;
            lemma_stop(t, acts + line, more, gone, why, code);
            assert(acts + gating(r, ev).1 =~= (acts + line) + stop(t, why, code).1);
        },
        None => {
            lemma_gate(t, acts + line, more, gone);
            assert(acts + gating(r, ev).1 =~= (acts + line) + gate(t).1);
        },
    }
}

proof fn lemma_supervising(r: Run, acts: Seq<Act>, inputs: Seq<In>, gone: Set<i32>, ev: Ev)
    requires
        orderly(r, inputs),
        stage(r, acts, gone),
        r.phase == Phase::Supervising || r.phase == Phase::Testing,
    ensures
        kept(supervising(r, ev).0, acts + supervising(r, ev).1, inputs.push(In::Event(ev)), gone),
{
    let more = inputs.push(In::Event(ev));
    let t = told(r, ev);
    let line = logged(remark(r, ev));
    lemma_told(r, inputs, ev);
    lemma_no_kills_add(acts, line);
    match verdict(r, ev) {
        Some((reason, code)) => {
            let why = "shutting down: "@ + reason;
            lemma_stop(t, acts + line, more, gone, why, code);
            assert(acts + supervising(r, ev).1 =~= (acts + line) + stop(t, why, code).1);
        },
        None => {
            lemma_announce(t, acts + line, more, gone);
            assert(acts + supervising(r, ev).1 =~= (acts + line) + announce(t).1);
        },
    }
}

/// Nothing that held is lost when more is heard and nothing is done.
proof fn lemma_idle_step(r: Run, acts: Seq<Act>, inputs: Seq<In>, gone: Set<i32>, i: In)
    requires
        kept(r, acts, inputs, gone),
    ensures
        kept(r, acts + Seq::<Act>::empty(), inputs.push(i), gone),
        kept(r, acts, inputs.push(i), gone),
{
    lemma_heard_more(r.defs, inputs, i);
    assert(acts + Seq::<Act>::empty() =~= acts);
}

/// What holds once groups have been asked to stop still holds when more is done, as long as that
/// signals nothing but what is to be torn down.
proof fn lemma_more_acts(r: Run, acts: Seq<Act>, gone: Set<i32>, more: Seq<Act>)
    requires
        closing(r, acts, gone),
        forall|k: int| 0 <= k < more.len() ==> #[trigger] kills_own(r, more[k]),
    ensures
        closing(r, acts + more, gone),
        all_killed(r, acts, gone) ==> all_killed(r, acts + more, gone),
{
    lemma_own_add(r, acts, more);
    assert forall|n: Text| #[trigger] alive(r, n) implies (acts + more).contains(ask_to_stop(r, n))
        && (r.remaining.contains(n) || gone.contains(r.handles[n].pgid) || (acts + more).contains(
        force_kill(r, n),
    )) by {
        lemma_seq_concat_contains_all_elements(acts, more, ask_to_stop(r, n));
        lemma_seq_concat_contains_all_elements(acts, more, force_kill(r, n));
    }
    if all_killed(r, acts, gone) {
        assert forall|n: Text| #[trigger] r.remaining.contains(n) implies gone.contains(
            r.handles[n].pgid,
        ) || (acts + more).contains(force_kill(r, n)) by {
            lemma_seq_concat_contains_all_elements(acts, more, force_kill(r, n));
        }
    }
}

proof fn lemma_finish(r: Run, acts: Seq<Act>, inputs: Seq<In>, gone: Set<i32>)
    requires
        orderly(r, inputs),
        closing(r, acts, gone),
        all_killed(r, acts, gone),
    ensures
        kept(finish(r).0, acts + finish(r).1, inputs, gone),
{
    let s = finish(r).0;
    let more = finish(r).1;
    lemma_same(r, s);
    assert(orderly(s, inputs));
    assert(more[0] == Act::ClearState);
    lemma_seq_concat_contains_all_elements(acts, more, Act::ClearState);
    lemma_more_acts(r, acts, gone, more);
    let done = acts + more;
    assert forall|n: Text| #[trigger] alive(s, n) implies done.contains(ask_to_stop(s, n)) && (
    gone.contains(s.handles[n].pgid) || done.contains(force_kill(s, n))) by {
        assert(alive(r, n));
        assert(ask_to_stop(s, n) == ask_to_stop(r, n));
        assert(force_kill(s, n) == force_kill(r, n));
    }
    assert forall|k: int| 0 <= k < done.len() implies #[trigger] kills_own(s, done[k]) by {
        assert(kills_own(r, done[k]));
    }
    assert forall|n: Text| #[trigger] undecided(s, n) implies gone.contains(s.handles[n].pgid) by {
        assert(undecided(r, n));
    }
}

/// A change of what is looked at, and of the phase, changes nothing about the closing.
proof fn lemma_closing_same(a: Run, b: Run, acts: Seq<Act>, gone: Set<i32>)
    requires
        closing(a, acts, gone),
        a.defs == b.defs,
        a.handles == b.handles,
        a.healthy == b.healthy,
        a.headless == b.headless,
        a.remaining == b.remaining,
    ensures
        closing(b, acts, gone),
        all_killed(a, acts, gone) == all_killed(b, acts, gone),
{
    lemma_same(a, b);
    assert forall|n: Text| #[trigger] undecided(b, n) implies gone.contains(b.handles[n].pgid) by {
        assert(undecided(a, n));
    }
    assert forall|n: Text| #[trigger] alive(b, n) implies acts.contains(ask_to_stop(b, n)) && (
    b.remaining.contains(n) || gone.contains(b.handles[n].pgid) || acts.contains(
        force_kill(b, n),
    )) by {
        assert(alive(a, n));
        assert(ask_to_stop(a, n) == ask_to_stop(b, n));
        assert(force_kill(a, n) == force_kill(b, n));
    }
    assert forall|n: Text| #[trigger] b.remaining.contains(n) implies alive(b, n) by {
        assert(a.remaining.contains(n));
        assert(alive(a, n));
    }
    assert forall|k: int| 0 <= k < acts.len() implies #[trigger] kills_own(b, acts[k]) by {
        assert(kills_own(a, acts[k]));
    }
    assert forall|n: Text| #[trigger] force_kill(a, n) == force_kill(b, n) by {}
    if all_killed(a, acts, gone) {
        assert forall|n: Text| #[trigger] b.remaining.contains(n) implies gone.contains(
            b.handles[n].pgid,
        ) || acts.contains(force_kill(b, n)) by {
            assert(a.remaining.contains(n));
            assert(force_kill(a, n) == force_kill(b, n));
        }
    }
    if all_killed(b, acts, gone) {
        assert forall|n: Text| #[trigger] a.remaining.contains(n) implies gone.contains(
            a.handles[n].pgid,
        ) || acts.contains(force_kill(a, n)) by {
            assert(b.remaining.contains(n));
            assert(force_kill(a, n) == force_kill(b, n));
        }
    }
}

proof fn lemma_remaining_finite(r: Run, acts: Seq<Act>, inputs: Seq<In>, gone: Set<i32>)
    requires
        orderly(r, inputs),
        closing(r, acts, gone),
    ensures
        r.remaining.finite(),
{
    lemma_handles_finite(r, inputs);
    assert forall|n: Text| #[trigger] r.remaining.contains(n) implies r.handles.dom().contains(n) by {
        assert(alive(r, n));
    }
    vstd::set_lib::lemma_set_subset_finite(r.handles.dom(), r.remaining);
}

/// All that is waited for can be looked at, each group once.
proof fn lemma_all_checks(r: Run, acts: Seq<Act>, inputs: Seq<In>, gone: Set<i32>)
    requires
        orderly(r, inputs),
        closing(r, acts, gone),
        r.remaining.len() > 0,
    ensures
        in_order(r.remaining).len() > 0,
        in_order(r.remaining).no_duplicates(),
        forall|k: int|
            0 <= k < in_order(r.remaining).len() ==> r.remaining.contains(
                #[trigger] in_order(r.remaining)[k],
            ),
        forall|n: Text| #[trigger] r.remaining.contains(n) ==> in_order(r.remaining).contains(n),
{
    lemma_remaining_finite(r, acts, inputs, gone);
    let all = in_order(r.remaining);
    lemma_in_order_exists(r.remaining);
    lemma_ascending_distinct(all);
    assert forall|k: int| 0 <= k < all.len() implies r.remaining.contains(#[trigger] all[k]) by {
        assert(all.to_set().contains(all[k]));
    }
    assert forall|n: Text| #[trigger] r.remaining.contains(n) implies all.contains(n) by {
        assert(all.to_set().contains(n));
    }
    if all.len() == 0 {
        assert(r.remaining =~= Set::<Text>::empty());
    }
}

proof fn lemma_ending(r: Run, acts: Seq<Act>, inputs: Seq<In>, gone: Set<i32>, ev: Ev)
    requires
        kept(r, acts, inputs, gone),
        r.phase == Phase::Grace || r.phase == Phase::Draining,
    ensures
        kept(ending(r, ev), acts, inputs.push(In::Event(ev)), gone),
{
    let more = inputs.push(In::Event(ev));
    lemma_idle_step(r, acts, inputs, gone, In::Event(ev));
    if let Ev::Exited { name, success, desc } = ev {
        let s = Run { exited: r.exited.insert(name), ..r };
        lemma_closing_same(r, s, acts, gone);
        assert(orderly(s, more));
        if r.remaining.contains(name) {
            let t = look(s, seq![name]);
            assert(ending(r, ev) == t);
            lemma_closing_same(s, t, acts, gone);
            assert(orderly(t, more));
            assert(checking(t));
        } else {
            assert(ending(r, ev) == s);
        }
    }
}

proof fn lemma_paused(r: Run, acts: Seq<Act>, inputs: Seq<In>, gone: Set<i32>)
    requires
        kept(r, acts, inputs, gone),
        r.phase == Phase::Grace || r.phase == Phase::Draining,
        leaderless(r).len() > 0,
    ensures
        kept(look(r, leaderless(r)), acts, inputs, gone),
{
    let all = in_order(r.remaining);
    let wanted = |n: Text| r.exited.contains(n);
    lemma_remaining_finite(r, acts, inputs, gone);
    lemma_in_order_exists(r.remaining);
    lemma_ascending_distinct(all);
    lemma_filter_members(all, wanted);
    let s = look(r, leaderless(r));
    assert forall|k: int| 0 <= k < s.checks.len() implies s.remaining.contains(
        #[trigger] s.checks[k],
    ) by {
        assert(all.filter(wanted).contains(s.checks[k]));
        assert(all.to_set().contains(s.checks[k]));
    }
    assert(checking(s));
    lemma_closing_same(r, s, acts, gone);
    assert(orderly(s, inputs));
}

proof fn lemma_force_remaining(r: Run, acts: Seq<Act>, inputs: Seq<In>, gone: Set<i32>)
    requires
        kept(r, acts, inputs, gone),
        r.phase == Phase::Grace,
    ensures
        kept(force_remaining(r).0, acts + force_remaining(r).1, inputs, gone),
{
    let (s, more) = force_remaining(r);
    lemma_more_acts(r, acts, gone, more);
    lemma_closing_same(r, s, acts + more, gone);
    assert(orderly(s, inputs));
    if r.remaining.len() == 0 {
        lemma_remaining_finite(r, acts, inputs, gone);
        r.remaining.lemma_len0_is_empty();
    } else {
        lemma_all_checks(r, acts, inputs, gone);
        assert(checking(s));
    }
}

proof fn lemma_command_ended(r: Run, acts: Seq<Act>, inputs: Seq<In>, gone: Set<i32>)
    requires
        kept(r, acts, inputs, gone),
        r.phase == Phase::Grace || r.phase == Phase::Draining,
    ensures
        kept(command_ended(r).0, acts + command_ended(r).1, inputs, gone),
{
    let s = Run { command: false, ..r };
    lemma_closing_same(r, s, acts, gone);
    assert(orderly(s, inputs));
    if waiting(s) {
        assert(acts + command_ended(r).1 =~= acts);
    } else {
        lemma_remaining_finite(s, acts, inputs, gone);
        s.remaining.lemma_len0_is_empty();
        lemma_finish(s, acts, inputs, gone);
    }
}

/// One check less leaves everything in order.
proof fn lemma_checked(r: Run, acts: Seq<Act>, inputs: Seq<In>, gone: Set<i32>, there: bool)
    requires
        kept(r, acts, inputs, gone),
        r.phase == Phase::GraceCheck || r.phase == Phase::Forcing || r.phase == Phase::DrainCheck,
    ensures
        orderly(checked(r, there), inputs),
        closing(checked(r, there), acts, gone_after(r, In::Alive(there), gone)),
        checked(r, there).checks.len() > 0 ==> checking(checked(r, there)),
        !waiting(checked(r, there)) ==> checked(r, there).remaining == Set::<Text>::empty(),
        r.phase == Phase::DrainCheck ==> all_killed(
            checked(r, there),
            acts,
            gone_after(r, In::Alive(there), gone),
        ),
{
    let n = r.checks[0];
    let known = gone_after(r, In::Alive(there), gone);
    let s = checked(r, there);
    lemma_same(r, s);
    lemma_remaining_finite(r, acts, inputs, gone);
    assert(r.remaining.contains(r.checks[0]));
    assert forall|m: Text| #[trigger] undecided(s, m) implies known.contains(s.handles[m].pgid) by {
        assert(undecided(r, m));
    }
    assert forall|m: Text| #[trigger] alive(s, m) implies acts.contains(ask_to_stop(s, m)) && (
    s.remaining.contains(m) || known.contains(s.handles[m].pgid) || acts.contains(
        force_kill(s, m),
    )) by {
        assert(alive(r, m));
        assert(ask_to_stop(s, m) == ask_to_stop(r, m));
        assert(force_kill(s, m) == force_kill(r, m));
    }
    assert forall|m: Text| #[trigger] s.remaining.contains(m) implies alive(s, m) by {
        assert(r.remaining.contains(m));
        assert(alive(r, m));
    }
    assert forall|k: int| 0 <= k < acts.len() implies #[trigger] kills_own(s, acts[k]) by {
        assert(kills_own(r, acts[k]));
    }
    if s.checks.len() > 0 {
        assert forall|k: int| 0 <= k < s.checks.len() implies s.remaining.contains(
            #[trigger] s.checks[k],
        ) by {
            assert(s.checks[k] == r.checks[k + 1]);
            assert(r.remaining.contains(r.checks[k + 1]));
        }
        assert forall|i: int, j: int|
            0 <= i < s.checks.len() && 0 <= j < s.checks.len() && i != j implies s.checks[i]
            != s.checks[j] by {
            assert(s.checks[i] == r.checks[i + 1]);
            assert(s.checks[j] == r.checks[j + 1]);
        }
    }
    if s.remaining.len() == 0 {
        s.remaining.lemma_len0_is_empty();
    }
    if r.phase == Phase::DrainCheck {
        assert forall|m: Text| #[trigger] s.remaining.contains(m) implies known.contains(
            s.handles[m].pgid,
        ) || acts.contains(force_kill(s, m)) by {
            assert(r.remaining.contains(m));
            assert(force_kill(s, m) == force_kill(r, m));
        }
    }
}

proof fn lemma_looked(r: Run, acts: Seq<Act>, inputs: Seq<In>, gone: Set<i32>, there: bool)
    requires
        kept(r, acts, inputs, gone),
        r.phase == Phase::GraceCheck || r.phase == Phase::DrainCheck,
    ensures
        kept(
            looked(r, there).0,
            acts + looked(r, there).1,
            inputs,
            gone_after(r, In::Alive(there), gone),
        ),
{
    let known = gone_after(r, In::Alive(there), gone);
    let s = checked(r, there);
    lemma_checked(r, acts, inputs, gone, there);
    if s.checks.len() > 0 {
        assert(acts + looked(r, there).1 =~= acts);
    } else if !waiting(s) {
        lemma_finish(s, acts, inputs, known);
    } else {
        let t = looked(r, there).0;
        assert(acts + looked(r, there).1 =~= acts);
        lemma_closing_same(s, t, acts, known);
        assert(orderly(t, inputs));
    }
}

/// What is done about the group at the head of the checks when the time to stop is over.
spec fn strike(r: Run, there: bool) -> Seq<Act> {
    if there {
        seq![Act::Log(force_says(r, r.checks[0])), force_kill(r, r.checks[0])]
    } else {
        Seq::empty()
    }
}

proof fn lemma_strike(r: Run, acts: Seq<Act>, inputs: Seq<In>, gone: Set<i32>, there: bool)
    requires
        kept(r, acts, inputs, gone),
        r.phase == Phase::Forcing,
    ensures
        closing(
            checked(r, there),
            acts + strike(r, there),
            gone_after(r, In::Alive(there), gone),
        ),
        forall|m: Text| #[trigger]
            checked(r, there).remaining.contains(m) ==> checked(r, there).checks.contains(m)
                || gone_after(r, In::Alive(there), gone).contains(r.handles[m].pgid) || (acts + strike(
                r,
                there,
            )).contains(force_kill(checked(r, there), m)),
{
    let n = r.checks[0];
    let known = gone_after(r, In::Alive(there), gone);
    let s = checked(r, there);
    let kills = strike(r, there);
    lemma_checked(r, acts, inputs, gone, there);
    assert(r.remaining.contains(r.checks[0]));
    assert(alive(r, n));
    assert(alive(s, n));
    assert forall|k: int| 0 <= k < kills.len() implies #[trigger] kills_own(s, kills[k]) by {}
    lemma_more_acts(s, acts, known, kills);
    assert forall|m: Text| #[trigger] s.remaining.contains(m) implies s.checks.contains(m)
        || known.contains(r.handles[m].pgid) || (acts + kills).contains(force_kill(s, m)) by {
        assert(r.remaining.contains(m));
        assert(force_kill(s, m) == force_kill(r, m));
        lemma_seq_concat_contains_all_elements(acts, kills, force_kill(r, m));
        if m == n {
            if there {
                assert(kills[1] == force_kill(r, m));
                assert(kills.contains(force_kill(r, m)));
            }
        } else if r.checks.contains(m) {
            let k = r.checks.index_of(m);
            assert(s.checks[k - 1] == m);
        }
    }
}

proof fn lemma_struck(r: Run, acts: Seq<Act>, inputs: Seq<In>, gone: Set<i32>, there: bool)
    requires
        kept(r, acts, inputs, gone),
        r.phase == Phase::Forcing,
    ensures
        kept(
            struck(r, there).0,
            acts + struck(r, there).1,
            inputs,
            gone_after(r, In::Alive(there), gone),
        ),
{
    let known = gone_after(r, In::Alive(there), gone);
    let s = checked(r, there);
    let done = acts + strike(r, there);
    lemma_checked(r, acts, inputs, gone, there);
    lemma_strike(r, acts, inputs, gone, there);
    if s.checks.len() > 0 {
        assert(struck(r, there) == (s, strike(r, there)));
        assert(s.phase == Phase::Forcing);
    } else {
        assert(all_killed(s, done, known)) by {
            assert forall|m: Text| #[trigger] s.remaining.contains(m) implies known.contains(
                s.handles[m].pgid,
            ) || done.contains(force_kill(s, m)) by {
                assert(s.checks =~= Seq::<Text>::empty());
            }
        }
        if !waiting(s) {
            lemma_finish(s, done, inputs, known);
            assert(struck(r, there).0 == finish(s).0);
            assert(acts + struck(r, there).1 =~= done + finish(s).1);
        } else {
            let timer = seq![Act::StartTimer(DRAIN_SECONDS)];
            lemma_drain(s, done, inputs, known);
            assert(acts + struck(r, there).1 =~= done + timer);
        }
    }
}

/// The groups that have been killed are waited for.
proof fn lemma_drain(s: Run, acts: Seq<Act>, inputs: Seq<In>, gone: Set<i32>)
    requires
        orderly(s, inputs),
        closing(s, acts, gone),
        all_killed(s, acts, gone),
        waiting(s),
    ensures
        kept(
            Run { phase: Phase::Draining, ..s },
            acts + seq![Act::StartTimer(DRAIN_SECONDS)],
            inputs,
            gone,
        ),
{
    let t = Run { phase: Phase::Draining, ..s };
    let timer = seq![Act::StartTimer(DRAIN_SECONDS)];
    lemma_more_acts(s, acts, gone, timer);
    lemma_closing_same(s, t, acts + timer, gone);
    assert(orderly(t, inputs));
}

proof fn lemma_spawned(r: Run, acts: Seq<Act>, inputs: Seq<In>, gone: Set<i32>, pid: u32)
    requires
        kept(r, acts, inputs, gone),
        r.phase == Phase::Spawning,
    ensures
        kept(
            next(r, In::Spawned(pid)).0,
            acts + next(r, In::Spawned(pid)).1,
            inputs.push(In::Spawned(pid)),
            gone,
        ),
{
    let i = In::Spawned(pid);
    let more = inputs.push(i);
    lemma_idle_step(r, acts, inputs, gone, i);
    let n = r.order[r.started as int];
    let h = new_handle(r.defs[n], pid);
    let s = Run { started: r.started + 1, handles: r.handles.insert(n, h), ..r };
    let did = launched(n, oneshot(r, n), pid);
    assert forall|k: int| 0 <= k < did.len() implies !#[trigger] is_kill(did[k]) by {}
    lemma_no_kills_add(acts, did);
    assert(s.order.take(s.started as int) =~= r.order.take(r.started as int).push(n));
    r.order.take(r.started as int).lemma_push_to_set_commute(n);
    assert(s.handles.dom() =~= s.order.take(s.started as int).to_set());
    assert forall|k: int, d: Text|
        0 <= k < s.started && #[trigger] views(s.defs[s.order[k]].depends_on@).contains(d) implies s.healthy.contains(
        d,
    ) by {
        assert(views(r.defs[r.order[k]].depends_on@).contains(d));
    }
    assert(orderly(s, more));
    lemma_gate(s, acts + did, more, gone);
    assert(acts + next(r, i).1 =~= (acts + did) + gate(s).1);
}

proof fn lemma_begin(
    r: Run,
    acts: Seq<Act>,
    inputs: Seq<In>,
    gone: Set<i32>,
    order: Seq<Text>,
    test: bool,
)
    requires
        orderly(r, inputs),
        no_kills(acts),
        r.started == 0,
        r.healthy == Set::<Text>::empty(),
        order.no_duplicates(),
        forall|k: int| 0 <= k < order.len() ==> r.defs.contains_key(#[trigger] order[k]),
    ensures
        kept(
            gate(Run { order, test, ..r }).0,
            acts + gate(Run { order, test, ..r }).1,
            inputs,
            gone,
        ),
{
    let s = Run { order, test, ..r };
    assert(s.order.take(0) =~= r.order.take(0));
    assert(orderly(s, inputs));
    lemma_gate(s, acts, inputs, gone);
}

/// Every input keeps the invariant.
proof fn lemma_step(r: Run, acts: Seq<Act>, inputs: Seq<In>, gone: Set<i32>, i: In)
    requires
        kept(r, acts, inputs, gone),
        fits(r, i),
        r.phase == Phase::Idle ==> ascending(r.names) && r.names.to_set() == r.defs.dom(),
    ensures
        kept(next(r, i).0, acts + next(r, i).1, inputs.push(i), gone_after(r, i, gone)),
{
    let more = inputs.push(i);
    lemma_idle_step(r, acts, inputs, gone, i);
    lemma_heard_more(r.defs, inputs, i);
    match i {
        In::Begin => {
            if r.phase == Phase::Idle {
                let g = graph_of(r.defs);
                assert(g.dom() =~= r.defs.dom());
                vstd::seq_lib::seq_to_set_is_finite(r.names);
                match plan(g, r.names) {
                    Ok(order) => {
                        law_dependencies_come_first(g, r.names);
                        assert forall|k: int| 0 <= k < order.len() implies r.defs.contains_key(
                            #[trigger] order[k],
                        ) by {
                            assert(g.contains_key(order[k]));
                        }
                        lemma_begin(r, acts, more, gone, order, r.test);
                    },
                    Err(f) => {
                        let s = next(r, i).0;
                        let did = next(r, i).1;
                        assert(orderly(s, more));
                        assert(r.order.take(0) =~= Seq::<Text>::empty());
                        assert forall|n: Text| !#[trigger] s.handles.contains_key(n) by {
                            assert(!r.order.take(0).to_set().contains(n));
                        }
                        lemma_no_kills_add(acts, did);
                        let done = acts + did;
                        assert forall|k: int| 0 <= k < done.len() implies #[trigger] kills_own(
                            s,
                            done[k],
                        ) by {
                            assert(!is_kill(done[k]));
                        }
                    },
                }
            }
        },
        In::BeginTest(order) => {
            if r.phase == Phase::Idle {
                lemma_begin(r, acts, more, gone, order, true);
            }
        },
        In::Event(ev) => {
            if r.phase == Phase::Gating {
                lemma_gating(r, acts, inputs, gone, ev);
            } else if r.phase == Phase::Supervising || r.phase == Phase::Testing {
                lemma_supervising(r, acts, inputs, gone, ev);
            } else if r.phase == Phase::Grace || r.phase == Phase::Draining {
                assert(acts + Seq::<Act>::empty() =~= acts);
                lemma_ending(r, acts, inputs, gone, ev);
            }
        },
        In::Spawned(pid) => {
            if r.phase == Phase::Spawning {
                lemma_spawned(r, acts, inputs, gone, pid);
            }
        },
        In::SpawnFailed(e) => {
            if r.phase == Phase::Spawning {
                let shown = debug_form(r.order[r.started as int]);
                lemma_stop(r, acts, more, gone, start_failure_says(shown, e), 1);
            }
        },
        In::Alive(there) => {
            if r.phase == Phase::Surveying {
                lemma_surveyed(r, acts, more, gone, there);
            } else if r.phase == Phase::GraceCheck || r.phase == Phase::DrainCheck {
                lemma_looked(r, acts, more, gone, there);
            } else if r.phase == Phase::Forcing {
                lemma_struck(r, acts, more, gone, there);
            }
        },
        In::Paused => {
            assert(acts + Seq::<Act>::empty() =~= acts);
            if (r.phase == Phase::Grace || r.phase == Phase::Draining) && leaderless(r).len() > 0 {
                lemma_paused(r, acts, more, gone);
            }
        },
        In::TimedOut => {
            if r.phase == Phase::Grace {
                lemma_force_remaining(r, acts, more, gone);
            } else if r.phase == Phase::Draining {
                lemma_finish(r, acts, more, gone);
            }
        },
        In::TestExited(code) => {
            if r.phase == Phase::Testing {
                let s = Run { command: false, ..r };
                assert(orderly(s, more));
                lemma_shut_down(
                    s,
                    acts,
                    more,
                    gone,
                    match code {
                        Some(c) => c,
                        None => 1,
                    },
                );
            } else if r.phase == Phase::Grace || r.phase == Phase::Draining {
                lemma_command_ended(r, acts, more, gone);
            }
        },
    }
}

/// Going on with the startup, or shutting down, changes nothing of what a run is about.
proof fn lemma_keeps(r: Run)
    ensures
        same_subject(gate(r).0, r),
        same_subject(announce(r).0, r),
        forall|code: i32| same_subject(#[trigger] shut_down(r, code).0, r),
        gate(r).0.phase != Phase::Idle,
        r.phase != Phase::Idle ==> announce(r).0.phase != Phase::Idle,
        forall|code: i32| shutting_down(#[trigger] shut_down(r, code).0),
        forall|code: i32| (#[trigger] shut_down(r, code).0).code == code,
        shutting_down(gate(r).0) ==> gate(r).0.code == 1,
        shutting_down(announce(r).0) ==> shutting_down(r),
        gate(r).0.phase == Phase::Testing ==> all_ready(gate(r).0),
        announce(r).0.phase == Phase::Testing && r.phase != Phase::Testing ==> all_ready(
            announce(r).0,
        ),
        gate(r).0.healthy == r.healthy,
        announce(r).0.healthy == r.healthy,
        forall|code: i32| (#[trigger] shut_down(r, code).0).healthy == r.healthy,
{
    lemma_ask_all_keeps(r);
}

proof fn lemma_ask_all_keeps(r: Run)
    ensures
        forall|code: i32, checks: Seq<Text>, headless: Set<Text>|
            {
                let s = Run { code, checks, headless, ..r };
                let t = #[trigger] ask_all(Run { code, checks, headless, ..r }).0;
                &&& same_subject(t, s)
                &&& shutting_down(t)
                &&& t.code == code
                &&& t.healthy == r.healthy
            },
{
}

/// What a run is about: its definitions, its order, and what has been started.
spec fn same_subject(a: Run, b: Run) -> bool {
    &&& a.defs == b.defs
    &&& a.names == b.names
    &&& a.grace == b.grace
    &&& a.order == b.order
    &&& a.test == b.test
    &&& a.started == b.started
    &&& a.handles == b.handles
}

/// What a run is about never changes, its order not once it has begun; what is ready stays
/// ready; a test command starts only when everything is ready; and what starts the shutdown decides the code to exit with.
spec fn steady(r: Run, i: In, s: Run) -> bool {
    &&& s.defs == r.defs
    &&& s.names == r.names
    &&& s.grace == r.grace
    &&& r.healthy.subset_of(s.healthy)
    &&& r.healthy.finite() ==> s.healthy.finite()
    &&& r.phase != Phase::Idle ==> {
        &&& s.order == r.order
        &&& s.test == r.test
        &&& s.phase != Phase::Idle
    }
    &&& s.phase == Phase::Testing && r.phase != Phase::Testing ==> all_ready(s)
    &&& !shutting_down(r) && shutting_down(s) ==> {
        &&& s.code == code_for(i)
        &&& i is TestExited ==> r.phase == Phase::Testing
    }
}

proof fn lemma_event_steady(r: Run, ev: Ev)
    ensures
        steady(r, In::Event(ev), next(r, In::Event(ev)).0),
{
    let t = told(r, ev);
    lemma_keeps(t);
    match r.phase {
        Phase::Gating => {
            match verdict(r, ev) {
                Some((reason, code)) => {
                    assert(gating(r, ev).0 == shut_down(t, code).0);
                },
                None => {
                    assert(gating(r, ev).0 == gate(t).0);
                },
            }
        },
        Phase::Supervising | Phase::Testing => {
            match verdict(r, ev) {
                Some((reason, code)) => {
                    assert(supervising(r, ev).0 == shut_down(t, code).0);
                },
                None => {
                    assert(supervising(r, ev).0 == announce(t).0);
                },
            }
        },
        _ => {},
    }
}

proof fn lemma_answer_steady(r: Run, there: bool)
    ensures
        steady(r, In::Alive(there), next(r, In::Alive(there)).0),
{
    lemma_ask_all_keeps(r);
}

proof fn lemma_spawned_steady(r: Run, pid: u32)
    ensures
        steady(r, In::Spawned(pid), next(r, In::Spawned(pid)).0),
{
    let n = r.order[r.started as int];
    let up = Run {
        started: r.started + 1,
        handles: r.handles.insert(n, new_handle(r.defs[n], pid)),
        ..r
    };
    lemma_keeps(up);
    if r.phase == Phase::Spawning {
        assert(next(r, In::Spawned(pid)).0 == gate(up).0);
    }
}

proof fn lemma_steady(r: Run, i: In)
    ensures
        steady(r, i, next(r, i).0),
{
    match i {
        In::Begin => {
            if let Ok(order) = plan(graph_of(r.defs), r.names) {
                lemma_keeps(Run { order, ..r });
            }
        },
        In::BeginTest(order) => {
            lemma_keeps(Run { order, test: true, ..r });
        },
        In::Event(ev) => {
            lemma_event_steady(r, ev);
        },
        In::Spawned(pid) => {
            lemma_spawned_steady(r, pid);
        },
        In::Alive(there) => {
            lemma_answer_steady(r, there);
        },
        In::SpawnFailed(e) => {
            lemma_keeps(r);
        },
        In::TestExited(code) => {
            lemma_keeps(Run { command: false, ..r });
        },
        _ => {},
    }
}

proof fn lemma_play(r: Run, inputs: Seq<In>)
    requires
        unbegun(r),
        all_fit(r, inputs),
    ensures
        kept(play(r, inputs).0, play(r, inputs).1, inputs, told_gone(r, inputs)),
        play(r, inputs).0.defs == r.defs,
        play(r, inputs).0.names == r.names,
    decreases inputs.len(),
{
    if inputs.len() == 0 {
        assert(inputs =~= Seq::<In>::empty());
        assert(r.order.take(0).to_set() =~= r.handles.dom());
        assert(orderly(r, inputs));
    } else {
        let rest = inputs.drop_last();
        assert forall|k: int| 0 <= k < rest.len() implies fits(r, #[trigger] rest[k]) by {
            assert(rest[k] == inputs[k]);
        }
        lemma_play(r, rest);
        let (s, done) = play(r, rest);
        assert(fits(r, inputs[inputs.len() - 1]));
        lemma_steady(s, inputs.last());
        lemma_step(s, done, rest, told_gone(r, rest), inputs.last());
        assert(rest.push(inputs.last()) =~= inputs);
    }
}

// ---------------------------------------------------------------------------
// Laws
// ---------------------------------------------------------------------------

/// Nothing is started before everything that it depends on has been said to be ready, which
/// means healthy, or completed where it is a oneshot.
pub proof fn law_starts_only_when_dependencies_are_ready(r: Run, inputs: Seq<In>, n: Text, d: Text)
    requires
        unbegun(r),
        all_fit(r, inputs),
        asking(play(r, inputs).0) == Ask::Spawn(n) || play(r, inputs).0.handles.contains_key(n),
        deps_of(r, n).contains(d),
    ensures
        heard_ready(r.defs, inputs, d),
{
    lemma_play(r, inputs);
    let s = play(r, inputs).0;
    assert(deps_of(s, n) == deps_of(r, n));
    if s.handles.contains_key(n) {
        assert(s.order.take(s.started as int).to_set().contains(n));
        let k = s.order.take(s.started as int).index_of(n);
        assert(s.order[k] == n);
        assert(views(s.defs[s.order[k]].depends_on@).contains(d));
    } else {
        assert(s.order[s.started as int] == n);
    }
    assert(s.healthy.contains(d));
}

/// The order of a run that has begun is the one it was given: the start order of all processes,
/// or for a test the order that it was told.
pub open spec fn planned(s: Run, inputs: Seq<In>) -> bool {
    if s.test {
        exists|k: int| 0 <= k < inputs.len() && #[trigger] inputs[k] == In::BeginTest(s.order)
    } else {
        plan(graph_of(s.defs), s.names) == Ok::<Seq<Text>, Fault>(s.order)
    }
}

proof fn lemma_planned(r: Run, inputs: Seq<In>)
    requires
        unbegun(r),
    ensures
        ({
            let s = play(r, inputs).0;
            &&& s.phase == Phase::Idle ==> !s.test
            &&& s.phase != Phase::Idle ==> planned(s, inputs) || (s.phase == Phase::Finished
                && !s.test && plan(graph_of(s.defs), s.names) is Err)
        }),
    decreases inputs.len(),
{
    if inputs.len() > 0 {
        let rest = inputs.drop_last();
        let i = inputs.last();
        lemma_planned(r, rest);
        let s = play(r, rest).0;
        let t = next(s, i).0;
        lemma_steady(s, i);
        if s.phase == Phase::Idle {
            match i {
                In::Begin => {
                    if let Ok(order) = plan(graph_of(s.defs), s.names) {
                        lemma_keeps(Run { order, ..s });
                    }
                },
                In::BeginTest(order) => {
                    lemma_keeps(Run { order, test: true, ..s });
                    assert(inputs[inputs.len() - 1] == In::BeginTest(t.order));
                },
                _ => {},
            }
        } else if planned(s, rest) {
            if s.test {
                let k = choose|k: int|
                    0 <= k < rest.len() && #[trigger] rest[k] == In::BeginTest(s.order);
                assert(inputs[k] == In::BeginTest(t.order));
            }
        }
    }
}

/// Processes are started in start order, and each at most once: once the run has begun its order
/// is the planned one, unless there is none; those started so far are the first ones of the
/// order; and what is asked for next is the one behind them.
pub proof fn law_starts_in_order_and_once(r: Run, inputs: Seq<In>)
    requires
        unbegun(r),
        all_fit(r, inputs),
    ensures
        ({
            let s = play(r, inputs).0;
            &&& asking(s) != Ask::Begin && (s.test || plan(graph_of(r.defs), r.names) is Ok)
                ==> planned(s, inputs)
            &&& s.order.no_duplicates()
            &&& s.started <= s.order.len()
            &&& s.handles.dom() == s.order.take(s.started as int).to_set()
            &&& match asking(s) {
                Ask::Spawn(n) => {
                    &&& s.started < s.order.len()
                    &&& s.order[s.started as int] == n
                    &&& !s.handles.contains_key(n)
                },
                _ => true,
            }
        }),
{
    lemma_play(r, inputs);
    lemma_planned(r, inputs);
    let s = play(r, inputs).0;
    if let Ask::Spawn(n) = asking(s) {
        if s.handles.contains_key(n) {
            assert(s.order.take(s.started as int).to_set().contains(n));
            let k = s.order.take(s.started as int).index_of(n);
            assert(s.order[k] == n);
        }
    }
}

/// When a run is over, every process that it started is a completed oneshot, or its group has
/// been reported gone, or the group has been sent its own shutdown signal and then been killed.
pub proof fn law_every_process_is_torn_down(r: Run, inputs: Seq<In>, n: Text)
    requires
        unbegun(r),
        all_fit(r, inputs),
        play(r, inputs).0.phase == Phase::Finished,
        play(r, inputs).0.handles.contains_key(n),
    ensures
        ({
            let (s, acts) = play(r, inputs);
            ||| completed(s, n)
            ||| told_gone(r, inputs).contains(s.handles[n].pgid)
            ||| acts.contains(ask_to_stop(s, n)) && acts.contains(force_kill(s, n))
        }),
{
    lemma_play(r, inputs);
    let s = play(r, inputs).0;
    if !alive(s, n) && !completed(s, n) {
        assert(undecided(s, n));
    }
}

/// The answer to what the run asked about a group is true, where `there` says which groups exist
/// at the end of the time that they have to stop: what is gone before that stays gone.
pub open spec fn truthful(there: spec_fn(i32) -> bool, s: Run, i: In) -> bool {
    match (asking(s), i) {
        (Ask::Alive(pgid), In::Alive(yes)) => match s.phase {
            Phase::Forcing => yes == there(pgid),
            Phase::DrainCheck => true,
            _ => !yes ==> !there(pgid),
        },
        _ => true,
    }
}

/// Every answer that the run is given about a group is true.
pub open spec fn all_truthful(there: spec_fn(i32) -> bool, r: Run, inputs: Seq<In>) -> bool {
    forall|k: int|
        0 <= k < inputs.len() ==> truthful(there, play(r, inputs.take(k)).0, #[trigger] inputs[k])
}

proof fn lemma_gone_is_gone(there: spec_fn(i32) -> bool, r: Run, inputs: Seq<In>, pgid: i32)
    requires
        all_truthful(there, r, inputs),
        told_gone(r, inputs).contains(pgid),
    ensures
        !there(pgid),
    decreases inputs.len(),
{
    if inputs.len() > 0 {
        let rest = inputs.drop_last();
        assert(inputs.take(inputs.len() - 1) =~= rest);
        assert(truthful(there, play(r, rest).0, inputs[inputs.len() - 1]));
        assert forall|k: int| 0 <= k < rest.len() implies truthful(
            there,
            play(r, rest.take(k)).0,
            #[trigger] rest[k],
        ) by {
            assert(rest.take(k) =~= inputs.take(k));
            assert(rest[k] == inputs[k]);
        }
        if told_gone(r, rest).contains(pgid) {
            lemma_gone_is_gone(there, r, rest, pgid);
        }
    }
}

/// Anything still alive after the grace period is killed: when a run that was told the truth is
/// over, every group that it started, but for those of completed oneshots, and that still
/// existed at the end of the time it had to stop has been sent its own shutdown signal and then
/// been killed, whether the process that led it had exited or not.
pub proof fn law_survivors_are_killed(
    there: spec_fn(i32) -> bool,
    r: Run,
    inputs: Seq<In>,
    n: Text,
)
    requires
        unbegun(r),
        all_fit(r, inputs),
        all_truthful(there, r, inputs),
        play(r, inputs).0.phase == Phase::Finished,
        play(r, inputs).0.handles.contains_key(n),
        !completed(play(r, inputs).0, n),
        there(play(r, inputs).0.handles[n].pgid),
    ensures
        play(r, inputs).1.contains(ask_to_stop(play(r, inputs).0, n)),
        play(r, inputs).1.contains(force_kill(play(r, inputs).0, n)),
{
    law_every_process_is_torn_down(r, inputs, n);
    let pgid = play(r, inputs).0.handles[n].pgid;
    if told_gone(r, inputs).contains(pgid) {
        lemma_gone_is_gone(there, r, inputs, pgid);
    }
}

/// When a run that has a start order is over, its state file has been deleted.
pub proof fn law_state_is_cleared(r: Run, inputs: Seq<In>)
    requires
        unbegun(r),
        all_fit(r, inputs),
        play(r, inputs).0.phase == Phase::Finished,
        play(r, inputs).0.test || plan(graph_of(r.defs), r.names) is Ok,
    ensures
        play(r, inputs).1.contains(Act::ClearState),
{
    lemma_play(r, inputs);
}

/// Nothing but a start changes which processes have been started, or their groups.
#[verifier::rlimit(40)]
proof fn lemma_groups_stay(r: Run, i: In)
    requires
        !(i is Spawned) || r.phase != Phase::Spawning,
    ensures
        next(r, i).0.handles.dom() == r.handles.dom(),
        forall|n: Text| #[trigger]
            r.handles.contains_key(n) ==> next(r, i).0.handles[n].pgid == r.handles[n].pgid,
{
    match i {
        In::Begin => {
            if let Ok(order) = plan(graph_of(r.defs), r.names) {
                lemma_keeps(Run { order, ..r });
            }
        },
        In::BeginTest(order) => {
            lemma_keeps(Run { order, test: true, ..r });
        },
        In::Event(ev) => {
            let t = told(r, ev);
            assert(t.handles.dom() =~= r.handles.dom());
            lemma_event_handles(r, ev);
        },
        In::Alive(there) => {
            lemma_ask_all_keeps(r);
        },
        In::TestExited(code) => {
            lemma_keeps(Run { command: false, ..r });
        },
        _ => {
            lemma_keeps(r);
        },
    }
}

proof fn lemma_event_handles(r: Run, ev: Ev)
    ensures
        next(r, In::Event(ev)).0.handles == r.handles || next(r, In::Event(ev)).0.handles == told(
            r,
            ev,
        ).handles,
{
    let t = told(r, ev);
    lemma_keeps(t);
    match r.phase {
        Phase::Gating => {
            match verdict(r, ev) {
                Some((reason, code)) => {
                    assert(gating(r, ev).0 == shut_down(t, code).0);
                },
                None => {
                    assert(gating(r, ev).0 == gate(t).0);
                },
            }
        },
        Phase::Supervising | Phase::Testing => {
            match verdict(r, ev) {
                Some((reason, code)) => {
                    assert(supervising(r, ev).0 == shut_down(t, code).0);
                },
                None => {
                    assert(supervising(r, ev).0 == announce(t).0);
                },
            }
        },
        _ => {},
    }
}

/// Every started process has been recorded, with its own id as that of its group.
#[verifier::spinoff_prover]
pub proof fn law_started_processes_are_recorded(r: Run, inputs: Seq<In>, n: Text)
    requires
        unbegun(r),
        play(r, inputs).0.handles.contains_key(n),
    ensures
        ({
            let pgid = play(r, inputs).0.handles[n].pgid;
            play(r, inputs).1.contains(Act::Record { name: n, pid: pgid, pgid })
        }),
    decreases inputs.len(),
{
    let (s, done) = play(r, inputs.drop_last());
    let i = inputs.last();
    let more = next(s, i).1;
    let pgid = play(r, inputs).0.handles[n].pgid;
    let x = Act::Record { name: n, pid: pgid, pgid };
    lemma_seq_concat_contains_all_elements(done, more, x);
    if i is Spawned && s.phase == Phase::Spawning {
        let m = s.order[s.started as int];
        let pid = i->Spawned_0;
        let up = Run {
            started: s.started + 1,
            handles: s.handles.insert(m, new_handle(s.defs[m], pid)),
            ..s
        };
        lemma_keeps(up);
        assert(next(s, i).0 == gate(up).0);
        if m == n {
            assert(launched(m, oneshot(s, m), pid)[0] == x);
            assert(more[0] == x);
        } else {
            law_started_processes_are_recorded(r, inputs.drop_last(), n);
        }
    } else {
        lemma_groups_stay(s, i);
        law_started_processes_are_recorded(r, inputs.drop_last(), n);
    }
}

/// As soon as groups are asked to stop, every process that was not seen to exit before, or that
/// has left a group behind, has been sent its shutdown signal.
pub proof fn law_every_live_process_is_asked_to_stop(r: Run, inputs: Seq<In>, n: Text)
    requires
        unbegun(r),
        all_fit(r, inputs),
        shutting_down(play(r, inputs).0),
        play(r, inputs).0.phase != Phase::Surveying,
        alive(play(r, inputs).0, n),
    ensures
        play(r, inputs).1.contains(ask_to_stop(play(r, inputs).0, n)),
{
    lemma_play(r, inputs);
}

/// No signal is sent before the shutdown begins, and none ever but to the group of a started
/// process that was not seen to exit before, or that has left a group behind.
pub proof fn law_signals_only_own_groups(r: Run, inputs: Seq<In>, pgid: i32, signal: i32)
    requires
        unbegun(r),
        all_fit(r, inputs),
        play(r, inputs).1.contains(Act::Kill { pgid, signal }),
    ensures
        shutting_down(play(r, inputs).0),
        exists|n: Text| #[trigger]
            alive(play(r, inputs).0, n) && play(r, inputs).0.handles[n].pgid == pgid,
{
    lemma_play(r, inputs);
    let (s, acts) = play(r, inputs);
    let k = acts.index_of(Act::Kill { pgid, signal });
    if no_kills(acts) {
        assert(!is_kill(acts[k]));
    }
    assert(kills_own(s, acts[k]));
}

/// A completed oneshot is skipped during shutdown: unless another process shares its group, its
/// group gets no signal.
pub proof fn law_completed_oneshots_are_skipped(r: Run, inputs: Seq<In>, n: Text, signal: i32)
    requires
        unbegun(r),
        all_fit(r, inputs),
        completed(play(r, inputs).0, n),
        forall|m: Text| #[trigger]
            play(r, inputs).0.handles.contains_key(m) && m != n ==> play(r, inputs).0.handles[m].pgid
                != play(r, inputs).0.handles[n].pgid,
    ensures
        !play(r, inputs).1.contains(Act::Kill { pgid: play(r, inputs).0.handles[n].pgid, signal }),
{
    let (s, acts) = play(r, inputs);
    let pgid = s.handles[n].pgid;
    if acts.contains(Act::Kill { pgid, signal }) {
        lemma_play(r, inputs);
        law_signals_only_own_groups(r, inputs, pgid, signal);
        let m = choose|m: Text| #[trigger] alive(s, m) && s.handles[m].pgid == pgid;
        assert(s.handles.contains_key(m));
        assert(m == n);
        assert(s.headless.contains(n));
    }
}

/// The code that a run exits with when the input starts its shutdown: 0 for a termination
/// signal, the status for a test command, and 1 for everything else.
pub open spec fn code_for(i: In) -> i32 {
    match i {
        In::Event(Ev::Signal) => 0,
        In::TestExited(Some(status)) => status,
        _ => 1,
    }
}

/// The shutdown begins with input `k`.
pub open spec fn begins_to_end(r: Run, inputs: Seq<In>, k: int) -> bool {
    &&& 0 <= k < inputs.len()
    &&& !shutting_down(play(r, inputs.take(k)).0)
    &&& shutting_down(play(r, inputs.take(k + 1)).0)
}

proof fn lemma_code(r: Run, inputs: Seq<In>)
    requires
        unbegun(r),
        shutting_down(play(r, inputs).0),
    ensures
        exists|k: int| #[trigger]
            begins_to_end(r, inputs, k) && play(r, inputs).0.code == code_for(inputs[k]),
    decreases inputs.len(),
{
    if inputs.len() > 0 {
        let rest = inputs.drop_last();
        let s = play(r, rest).0;
        let last = inputs.len() - 1;
        assert(inputs.take(last) =~= rest);
        assert(inputs.take(last + 1) =~= inputs);
        if shutting_down(s) {
            lemma_code(r, rest);
            law_shutdown_is_final(s, inputs.last());
            let k = choose|k: int| #[trigger]
                begins_to_end(r, rest, k) && s.code == code_for(rest[k]);
            assert(rest.take(k) =~= inputs.take(k));
            assert(rest.take(k + 1) =~= inputs.take(k + 1));
            assert(rest[k] == inputs[k]);
            assert(begins_to_end(r, inputs, k));
        } else {
            lemma_steady(s, inputs.last());
            assert(begins_to_end(r, inputs, last));
        }
    }
}

/// What a run exits with is decided by what started its shutdown: a run of all processes exits
/// with 0 exactly where that was a termination signal, and with 1 otherwise; a test exits with
/// the status of its command where that was its end.
pub proof fn law_exit_code_says_what_ended_the_run(r: Run, inputs: Seq<In>, code: i32)
    requires
        unbegun(r),
        all_fit(r, inputs),
        asking(play(r, inputs).0) == Ask::Exit(code),
    ensures
        exists|k: int| #[trigger]
            begins_to_end(r, inputs, k) && code == code_for(inputs[k]) && (!play(r, inputs).0.test
                ==> {
                &&& code == 0 || code == 1
                &&& code == 0 <==> inputs[k] == In::Event(Ev::Signal)
            }),
{
    lemma_code(r, inputs);
    let s = play(r, inputs).0;
    let k = choose|k: int| #[trigger]
        begins_to_end(r, inputs, k) && s.code == code_for(inputs[k]);
    let before = inputs.take(k);
    assert(inputs.take(k + 1).drop_last() =~= before);
    assert(inputs.take(k + 1).last() == inputs[k]);
    let b = play(r, before).0;
    lemma_steady(b, inputs[k]);
    if inputs[k] is TestExited {
        assert forall|j: int| 0 <= j < before.len() implies fits(r, #[trigger] before[j]) by {
            assert(before[j] == inputs[j]);
        }
        lemma_play(r, before);
        assert(b.test);
        lemma_test_stays(r, inputs, k);
    }
}

proof fn lemma_test_stays(r: Run, inputs: Seq<In>, k: int)
    requires
        0 <= k <= inputs.len(),
        play(r, inputs.take(k)).0.phase != Phase::Idle,
        play(r, inputs.take(k)).0.test,
    ensures
        play(r, inputs).0.phase != Phase::Idle,
        play(r, inputs).0.test,
    decreases inputs.len(),
{
    if k == inputs.len() {
        assert(inputs.take(k) =~= inputs);
    } else {
        let rest = inputs.drop_last();
        assert(rest.take(k) =~= inputs.take(k));
        lemma_test_stays(r, rest, k);
        lemma_steady(play(r, rest).0, inputs.last());
    }
}

/// Once the shutdown has begun it does not end but by exiting: nothing is started any more, the
/// code to exit with stands, and a second reason to stop changes nothing.
pub proof fn law_shutdown_is_final(r: Run, i: In)
    requires
        shutting_down(r),
    ensures
        shutting_down(next(r, i).0),
        next(r, i).0.handles == r.handles,
        next(r, i).0.started == r.started,
        next(r, i).0.code == r.code,
        r.phase != Phase::Surveying ==> next(r, i).0.remaining.subset_of(r.remaining),
        !(asking(next(r, i).0) is Spawn),
{
}

/// A run that is over stays over, does nothing and asks for nothing but its exit.
pub proof fn law_finished_is_final(r: Run, i: In)
    requires
        r.phase == Phase::Finished,
    ensures
        next(r, i) == (r, Seq::<Act>::empty()),
        asking(r) == Ask::Exit(r.code),
{
}

/// How far a shutdown is from its end.
pub open spec fn distance(r: Run) -> int {
    match r.phase {
        Phase::Surveying => 4,
        Phase::Grace => 3,
        Phase::GraceCheck => 3,
        Phase::Forcing => 2,
        Phase::Draining => 1,
        Phase::DrainCheck => 1,
        _ => 0,
    }
}

/// The shutdown ends: no input moves it back; the end of the time to stop moves it on to killing,
/// and the end of the time after that ends it; and every answer about a group leaves one
/// question less before it waits again or moves on.
#[verifier::rlimit(40)]
pub proof fn law_time_ends_the_shutdown(r: Run, i: In, there: bool)
    requires
        shutting_down(r),
    ensures
        distance(next(r, i).0) <= distance(r),
        r.phase == Phase::Grace ==> distance(next(r, In::TimedOut).0) <= 2,
        r.phase == Phase::Draining ==> next(r, In::TimedOut).0.phase == Phase::Finished,
        asking(r) is Alive && r.checks.len() > 0 ==> {
            let s = next(r, In::Alive(there)).0;
            &&& s.checks.len() == r.checks.len() - 1
            &&& s.checks.len() == 0 ==> !(asking(s) is Alive)
        },
        asking(r) is Alive && r.checks.len() == 1 && (r.phase == Phase::Surveying || r.phase
            == Phase::Forcing) ==> distance(next(r, In::Alive(there)).0) < distance(r),
{
}

/// The run of a test exits with the status of its command.
pub proof fn law_test_status_is_the_exit_code(r: Run, status: i32)
    requires
        r.phase == Phase::Testing,
    ensures
        shutting_down(next(r, In::TestExited(Some(status))).0),
        next(r, In::TestExited(Some(status))).0.code == status,
{
}

/// It has been said that the test command has ended.
pub open spec fn heard_end(inputs: Seq<In>) -> bool {
    exists|k: int| 0 <= k < inputs.len() && #[trigger] inputs[k] is TestExited
}

/// What holds of the test command: it runs from when everything is ready until it is said to
/// have ended; in a shutdown it has been asked to stop, and past the time to stop it has been
/// killed.
spec fn commanded(r: Run, acts: Seq<Act>, inputs: Seq<In>) -> bool {
    &&& r.phase == Phase::Idle ==> !r.announced
    &&& r.test && r.announced && !r.command ==> heard_end(inputs)
    &&& r.phase == Phase::Testing ==> r.command && r.test && r.announced
    &&& r.command && !shutting_down(r) ==> r.phase == Phase::Testing
    &&& r.command && shutting_down(r) ==> acts.contains(Act::SignalTest(term()))
    &&& r.command && distance(r) <= 2 && shutting_down(r) ==> acts.contains(
        Act::SignalTest(kill()),
    )
}

proof fn lemma_stop_command(r: Run, code: i32)
    ensures
        shut_down(r, code).0.command == r.command,
        shut_down(r, code).0.announced == r.announced,
        shut_down(r, code).0.test == r.test,
        r.command ==> distance(shut_down(r, code).0) > 2,
        r.command ==> shut_down(r, code).1.contains(Act::SignalTest(term())),
{
    if r.command {
        assert(stop_command(r)[0] == Act::SignalTest(term()));
        assert(shut_down(r, code).1[1] == Act::SignalTest(term()));
    }
}

/// The test command starts with its phase, when everything is said to be ready.
proof fn lemma_start_command(r: Run)
    requires
        !r.command,
        !shutting_down(r),
        r.phase != Phase::Testing,
    ensures
        starts_command(r, gate(r).0),
        starts_command(r, announce(r).0),
{
}

spec fn starts_command(r: Run, s: Run) -> bool {
    &&& s.test == r.test
    &&& s.command ==> s.phase == Phase::Testing && s.test && s.announced
    &&& !s.command ==> s.phase != Phase::Testing && (s.test && s.announced ==> r.announced)
}

proof fn lemma_command_event(r: Run, acts: Seq<Act>, inputs: Seq<In>, ev: Ev)
    requires
        commanded(r, acts, inputs),
        heard_end(inputs) ==> heard_end(inputs.push(In::Event(ev))),
    ensures
        commanded(
            next(r, In::Event(ev)).0,
            acts + next(r, In::Event(ev)).1,
            inputs.push(In::Event(ev)),
        ),
{
    let x = Act::SignalTest(term());
    let t = told(r, ev);
    let line = logged(remark(r, ev));
    let (s, did) = next(r, In::Event(ev));
    lemma_seq_concat_contains_all_elements(acts, did, x);
    lemma_seq_concat_contains_all_elements(acts, did, Act::SignalTest(kill()));
    match r.phase {
        Phase::Gating => {
            match verdict(r, ev) {
                Some((reason, code)) => {
                    lemma_stop_command(t, code);
                    assert(s == shut_down(t, code).0);
                },
                None => {
                    lemma_start_command(t);
                    assert(s == gate(t).0);
                },
            }
        },
        Phase::Supervising => {
            match verdict(r, ev) {
                Some((reason, code)) => {
                    lemma_stop_command(t, code);
                    assert(s == shut_down(t, code).0);
                },
                None => {
                    lemma_start_command(t);
                    assert(s == announce(t).0);
                },
            }
        },
        Phase::Testing => {
            match verdict(r, ev) {
                Some((reason, code)) => {
                    let why = "shutting down: "@ + reason;
                    let more = shut_down(t, code).1;
                    lemma_stop_command(t, code);
                    lemma_seq_concat_contains_all_elements(seq![Act::Log(why)], more, x);
                    lemma_seq_concat_contains_all_elements(line, seq![Act::Log(why)] + more, x);
                    assert(did == line + (seq![Act::Log(why)] + more));
                    assert(s == shut_down(t, code).0);
                },
                None => {
                    assert(announce(t) == (t, Seq::<Act>::empty()));
                    assert(s == t);
                },
            }
        },
        _ => {},
    }
}

proof fn lemma_command_step(r: Run, acts: Seq<Act>, inputs: Seq<In>, i: In)
    requires
        commanded(r, acts, inputs),
    ensures
        commanded(next(r, i).0, acts + next(r, i).1, inputs.push(i)),
{
    let more = inputs.push(i);
    let (s, did) = next(r, i);
    assert(more[inputs.len() as int] == i);
    if heard_end(inputs) {
        let k = choose|k: int| 0 <= k < inputs.len() && #[trigger] inputs[k] is TestExited;
        assert(more[k] is TestExited);
    }
    lemma_seq_concat_contains_all_elements(acts, did, Act::SignalTest(term()));
    lemma_seq_concat_contains_all_elements(acts, did, Act::SignalTest(kill()));
    match i {
        In::Event(ev) => {
            lemma_command_event(r, acts, inputs, ev);
        },
        In::TimedOut => {
            if r.phase == Phase::Grace && r.command {
                assert(kill_command(r)[0] == Act::SignalTest(kill()));
                assert(did[0] == Act::SignalTest(kill()));
                assert(did.contains(Act::SignalTest(kill())));
            }
        },
        In::TestExited(code) => {
            assert(heard_end(more));
        },
        _ => {},
    }
}

proof fn lemma_command(r: Run, inputs: Seq<In>)
    requires
        unbegun(r),
    ensures
        commanded(play(r, inputs).0, play(r, inputs).1, inputs),
    decreases inputs.len(),
{
    if inputs.len() > 0 {
        let rest = inputs.drop_last();
        lemma_command(r, rest);
        let (s, done) = play(r, rest);
        lemma_command_step(s, done, rest, inputs.last());
        assert(rest.push(inputs.last()) =~= inputs);
    }
}

/// A test command is torn down too: when the run is over, one that was started has been said to
/// have ended, or has been asked to stop and then been killed.
pub proof fn law_the_test_command_is_torn_down(r: Run, inputs: Seq<In>)
    requires
        unbegun(r),
        play(r, inputs).0.phase == Phase::Finished,
        play(r, inputs).0.test,
        play(r, inputs).0.announced,
    ensures
        heard_end(inputs) || (play(r, inputs).1.contains(Act::SignalTest(term())) && play(
            r,
            inputs,
        ).1.contains(Act::SignalTest(kill()))),
{
    lemma_command(r, inputs);
}

/// A test command runs only once every one of its services has been started and has been said
/// to be ready, given that readiness is only ever reported of the services.
pub proof fn law_test_runs_with_everything_ready(r: Run, inputs: Seq<In>)
    requires
        unbegun(r),
        all_fit(r, inputs),
        asking(play(r, inputs).0) == Ask::RunTest,
        forall|n: Text| #[trigger]
            heard_ready(r.defs, inputs, n) ==> play(r, inputs).0.order.contains(n),
    ensures
        play(r, inputs).0.started == play(r, inputs).0.order.len(),
        forall|k: int|
            0 <= k < play(r, inputs).0.order.len() ==> heard_ready(
                r.defs,
                inputs,
                #[trigger] play(r, inputs).0.order[k],
            ),
{
    lemma_play(r, inputs);
    lemma_testing_announced(r, inputs);
    let s = play(r, inputs).0;
    let all = s.order.to_set();
    vstd::seq_lib::seq_to_set_is_finite(s.order);
    s.order.unique_seq_to_set();
    assert(s.healthy.subset_of(all)) by {
        assert forall|n: Text| #[trigger] s.healthy.contains(n) implies all.contains(n) by {
            assert(heard_ready(s.defs, inputs, n));
        }
    }
    vstd::set_lib::lemma_len_subset(s.healthy, all);
    vstd::set_lib::lemma_subset_equality(s.healthy, all);
    assert forall|k: int| 0 <= k < s.order.len() implies heard_ready(
        r.defs,
        inputs,
        #[trigger] s.order[k],
    ) by {
        assert(all.contains(s.order[k]));
        assert(s.healthy.contains(s.order[k]));
    }
}

proof fn lemma_testing_announced(r: Run, inputs: Seq<In>)
    requires
        unbegun(r),
    ensures
        play(r, inputs).0.healthy.finite(),
        play(r, inputs).0.phase == Phase::Testing ==> play(r, inputs).0.healthy.len() >= play(
            r,
            inputs,
        ).0.order.len(),
    decreases inputs.len(),
{
    if inputs.len() > 0 {
        let s = play(r, inputs.drop_last()).0;
        let i = inputs.last();
        lemma_testing_announced(r, inputs.drop_last());
        lemma_steady(s, i);
        if s.phase == Phase::Testing {
            vstd::set_lib::lemma_len_subset(s.healthy, next(s, i).0.healthy);
        }
    }
}

/// That everything is ready is said when it becomes so, and then never again.
pub proof fn law_readiness_is_announced_once(r: Run, i: In)
    ensures
        r.announced ==> next(r, i).0.announced,
        !r.announced && next(r, i).0.announced ==> all_ready(next(r, i).0) && next(r, i).1.contains(
            Act::Log("all processes ready"@),
        ),
        r.announced ==> announce(r) == (r, Seq::<Act>::empty()),
{
    let said = Act::Log("all processes ready"@);
    let (s, acts) = next(r, i);
    match i {
        In::Begin => {
            if let Ok(order) = plan(graph_of(r.defs), r.names) {
                lemma_announced(Run { order, ..r });
            }
        },
        In::BeginTest(order) => {
            lemma_announced(Run { order, test: true, ..r });
        },
        In::Event(ev) => {
            lemma_event_announced(r, ev);
        },
        In::Spawned(pid) => {
            let n = r.order[r.started as int];
            let up = Run {
                started: r.started + 1,
                handles: r.handles.insert(n, new_handle(r.defs[n], pid)),
                ..r
            };
            lemma_announced(up);
            lemma_seq_concat_contains_all_elements(
                launched(n, oneshot(r, n), pid),
                gate(up).1,
                said,
            );
            if r.phase == Phase::Spawning {
                assert(s == gate(up).0);
                assert(acts == launched(n, oneshot(r, n), pid) + gate(up).1);
            }
        },
        In::SpawnFailed(e) => {
            lemma_announced(r);
        },
        In::TestExited(code) => {
            lemma_announced(Run { command: false, ..r });
        },
        _ => {},
    }
}

/// Everything is said to be ready only where it is.
proof fn lemma_announced(r: Run)
    ensures
        r.announced ==> gate(r).0.announced,
        r.announced ==> announce(r).0.announced,
        !r.announced && gate(r).0.announced ==> all_ready(gate(r).0) && gate(r).1.contains(
            Act::Log("all processes ready"@),
        ),
        !r.announced && announce(r).0.announced ==> all_ready(announce(r).0) && announce(
            r,
        ).1.contains(Act::Log("all processes ready"@)),
        forall|code: i32| (#[trigger] shut_down(r, code).0).announced == r.announced,
{
    let said = Act::Log("all processes ready"@);
    if !r.announced && announce(r).0.announced {
        assert(announce(r).1[0] == said);
    }
    if r.started >= r.order.len() && r.test && !r.announced && gate(r).0.announced {
        assert(gate(r).1[1] == said);
    }
}

proof fn lemma_event_announced(r: Run, ev: Ev)
    ensures
        r.announced ==> next(r, In::Event(ev)).0.announced,
        !r.announced && next(r, In::Event(ev)).0.announced ==> all_ready(
            next(r, In::Event(ev)).0,
        ) && next(r, In::Event(ev)).1.contains(Act::Log("all processes ready"@)),
{
    let said = Act::Log("all processes ready"@);
    let t = told(r, ev);
    let line = logged(remark(r, ev));
    lemma_announced(t);
    lemma_seq_concat_contains_all_elements(line, gate(t).1, said);
    lemma_seq_concat_contains_all_elements(line, announce(t).1, said);
    match r.phase {
        Phase::Gating => {
            match verdict(r, ev) {
                Some((reason, code)) => {
                    assert(gating(r, ev).0 == shut_down(t, code).0);
                },
                None => {
                    assert(gating(r, ev) == (gate(t).0, line + gate(t).1));
                },
            }
        },
        Phase::Supervising | Phase::Testing => {
            match verdict(r, ev) {
                Some((reason, code)) => {
                    assert(supervising(r, ev).0 == shut_down(t, code).0);
                },
                None => {
                    assert(supervising(r, ev) == (announce(t).0, line + announce(t).1));
                },
            }
        },
        _ => {},
    }
}

/// While a run starts up or is up, or its test command runs, a failure brings everything down
/// and makes it exit with 1: a failed health check, the failure of a oneshot, or any exit of
/// another process. A termination signal brings everything down too, and makes it exit with 0.
/// A test command that is running is asked to stop.
pub proof fn law_failures_and_signals_bring_everything_down(r: Run, ev: Ev)
    requires
        r.phase == Phase::Gating || r.phase == Phase::Supervising || r.phase == Phase::Testing,
        match ev {
            Ev::Healthy(_) => false,
            Ev::HealthFailed(_, _) => true,
            Ev::Exited { name, success, desc } => !oneshot(r, name) || !success,
            Ev::Signal => true,
        },
    ensures
        shutting_down(next(r, In::Event(ev)).0),
        next(r, In::Event(ev)).0.code == (if ev is Signal {
            0i32
        } else {
            1i32
        }),
        r.command ==> next(r, In::Event(ev)).1.contains(Act::SignalTest(term())),
{
    let t = told(r, ev);
    let (reason, code) = verdict(r, ev)->Some_0;
    lemma_keeps(t);
    if r.command {
        let x = Act::SignalTest(term());
        let acts = next(r, In::Event(ev)).1;
        let k = logged(remark(r, ev)).len() as int + 2;
        assert(stop_command(t)[0] == x);
        assert(acts[k] == x);
    }
}

/// A forced shutdown kills the group of every process that has been started, and no other, and
/// deletes the state file.
pub proof fn law_forced_shutdown_kills_every_group(r: Run, pgid: i32, signal: i32)
    requires
        r.handles.dom().finite(),
    ensures
        forced(r).contains(Act::Kill { pgid, signal }) <==> signal == kill() && exists|n: Text|
            #[trigger] r.handles.contains_key(n) && r.handles[n].pgid == pgid,
        forced(r).contains(Act::ClearState),
{
    let all = in_order(r.handles.dom());
    let groups = all_groups(r);
    let acts = forced(r);
    let x = Act::Kill { pgid, signal };
    lemma_in_order_exists(r.handles.dom());
    assert(acts[acts.len() - 1] == Act::ClearState);
    if acts.contains(x) {
        let k = acts.index_of(x);
        assert(0 < k < acts.len() - 1);
        assert(acts[k] == (Act::Kill { pgid: groups[k - 1], signal: kill() }));
        assert(all.to_set().contains(all[k - 1]));
        assert(r.handles.contains_key(all[k - 1]));
    }
    if signal == kill() && exists|n: Text| #[trigger]
        r.handles.contains_key(n) && r.handles[n].pgid == pgid {
        let n = choose|n: Text| #[trigger] r.handles.contains_key(n) && r.handles[n].pgid == pgid;
        assert(all.to_set().contains(n));
        let k = all.index_of(n);
        assert(groups[k] == pgid);
        assert(acts[k + 1] == x);
    }
}

/// A oneshot has no health check: its successful exit makes it ready, and is no reason to stop.
pub proof fn law_a_oneshot_is_ready_when_it_has_completed(r: Run, n: Text, desc: Text, pid: u32)
    requires
        oneshot(r, n),
        !shutting_down(r),
    ensures
        ({
            let done = Ev::Exited { name: n, success: true, desc };
            &&& told(r, done).healthy.contains(n)
            &&& verdict(r, done) is None
            &&& !launched(n, oneshot(r, n), pid).contains(Act::Watch(n))
        }),
{
    let acts = launched(n, oneshot(r, n), pid);
    if acts.contains(Act::Watch(n)) {
        let k = acts.index_of(Act::Watch(n));
        assert(acts[k] == Act::Watch(n));
    }
}

/// The startup goes on as soon as it can: an event that is no reason to stop, and behind which
/// everything is ready that the next process depends on, has that process started.
pub proof fn law_ready_dependencies_let_the_next_process_start(r: Run, ev: Ev)
    requires
        r.phase == Phase::Gating,
        r.started < r.order.len(),
        verdict(r, ev) is None,
        forall|d: Text| #[trigger]
            deps_of(r, r.order[r.started as int]).contains(d) ==> told(r, ev).healthy.contains(d),
    ensures
        asking(next(r, In::Event(ev)).0) == Ask::Spawn(r.order[r.started as int]),
{
    let t = told(r, ev);
    let deps = deps_of(r, r.order[r.started as int]);
    assert(deps_of(t, t.order[t.started as int]) == deps);
    lemma_ready(deps, t.healthy);
}

pub(crate) proof fn lemma_ready(deps: Seq<Text>, healthy: Set<Text>)
    requires
        forall|d: Text| #[trigger] deps.contains(d) ==> healthy.contains(d),
    ensures
        first_unready(deps, healthy) is None,
    decreases deps.len(),
{
    if deps.len() > 0 {
        let fewer = deps.drop_last();
        assert forall|d: Text| #[trigger] fewer.contains(d) implies healthy.contains(d) by {
            assert(deps[fewer.index_of(d)] == d);
            assert(deps.contains(d));
        }
        lemma_ready(fewer, healthy);
        assert(deps.contains(deps[deps.len() - 1]));
    }
}


/// The grace that a run was given stays what it is.
pub(crate) proof fn lemma_grace_stays(r: Run, i: In)
    ensures
        next(r, i).0.grace == r.grace,
{
    lemma_steady(r, i);
}

/// The processes that are defined stay what they are.
pub(crate) proof fn lemma_defs_stay(r: Run, i: In)
    ensures
        next(r, i).0.defs == r.defs,
{
    lemma_steady(r, i);
}

} // verus!
