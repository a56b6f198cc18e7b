//! The supervisor: starts processes in dependency order, gates each on the readiness of what
//! it depends on, watches over them, and sees to it that all of them are torn down.

use vstd::prelude::*;
use vstd::string::*;

use crate::config::{Config, Process};
use crate::graph::lemma_plan_settled;
use crate::names::{NameMap, NameSet};
use crate::number::{decimal_text, signed_text};
use crate::run::{
    all_groups, announce, ask_all, ask_to_stop, asking, begin, begin_test, checked, completed,
    doubtful, early_exit_says, ending, finish, first_unready, force_remaining, forced, gate, gating,
    idle, kill_command, launched, leaderless, live, logged, look, looked, new_handle, next, oneshot,
    remark, shut_down, shutting_down, start_failure_says, stop, stop_command, struck, supervising,
    surveyed, told, verdict, waiting, Act, Ask, Ev, Handle, In, Phase, Run, DRAIN_SECONDS,
    LOOK_MILLIS,
};
use crate::run_laws::law_forced_shutdown_kills_every_group;
use crate::signals::{kill, parse_signal, sigkill, sigterm, FORCED_EXIT_CODE};
use crate::text::{debug_text, opt_view, views, Text};

verus! {

// ---------------------------------------------------------------------------
// Inputs and effects
// ---------------------------------------------------------------------------

/// What worker threads and the signal handler report.
#[derive(Debug, PartialEq, Eq)]
pub enum Event {
    /// The process has become healthy.
    Healthy(String),
    /// The health check of the process has failed for good.
    HealthFailed(String, String),
    /// The process has exited.
    Exited { name: String, success: bool, desc: String },
    /// A first termination signal: begin a graceful shutdown.
    Signal,
}

impl View for Event {
    type V = Ev;

    open spec fn view(&self) -> Ev {
        match self {
            Event::Healthy(n) => Ev::Healthy(n@),
            Event::HealthFailed(n, e) => Ev::HealthFailed(n@, e@),
            Event::Exited { name, success, desc } => Ev::Exited {
                name: name@,
                success: *success,
                desc: desc@,
            },
            Event::Signal => Ev::Signal,
        }
    }
}

/// What a run is told, one at a time.
#[derive(Debug, PartialEq, Eq)]
pub enum Input {
    /// Begin to run all processes.
    Begin,
    /// An event has been received.
    Event(Event),
    /// The process that was asked for runs under this process id.
    Spawned(u32),
    /// The process that was asked for could not be started.
    SpawnFailed(String),
    /// Whether the group that was asked about still exists.
    Alive(bool),
    /// Nothing has come for as long as was to be waited, and the timer has not run out.
    Paused,
    /// The timer has run out before an event came.
    TimedOut,
    /// The test command has exited, with a code unless a signal ended it.
    TestExited(Option<i32>),
}

impl View for Input {
    type V = In;

    open spec fn view(&self) -> In {
        match self {
            Input::Begin => In::Begin,
            Input::Event(ev) => In::Event(ev@),
            Input::Spawned(pid) => In::Spawned(*pid),
            Input::SpawnFailed(e) => In::SpawnFailed(e@),
            Input::Alive(there) => In::Alive(*there),
            Input::Paused => In::Paused,
            Input::TimedOut => In::TimedOut,
            Input::TestExited(code) => In::TestExited(*code),
        }
    }
}

/// What is to be done to the outside.
#[derive(Debug, PartialEq, Eq)]
pub enum Effect {
    /// Log a line of the supervisor's own.
    Log(String),
    /// Record a started process in the state file.
    Record { name: String, pid: i32, pgid: i32 },
    /// Drop a process that has exited from the state file.
    Forget(String),
    /// Stream the output of the process just started.
    Stream(String),
    /// Run the health check of the process just started.
    Watch(String),
    /// Wait for the process just started to exit.
    Reap(String),
    /// Stop all pending health checks.
    CancelProbes,
    /// Send a signal to a process group.
    Kill { pgid: i32, signal: i32 },
    /// Send a signal to the test command.
    SignalTest(i32),
    /// Start the timer that bounds timed waits.
    StartTimer(u64),
    /// Delete the state file.
    ClearState,
}

impl View for Effect {
    type V = Act;

    open spec fn view(&self) -> Act {
        match self {
            Effect::Log(t) => Act::Log(t@),
            Effect::Record { name, pid, pgid } => Act::Record { name: name@, pid: *pid, pgid: *pgid },
            Effect::Forget(n) => Act::Forget(n@),
            Effect::Stream(n) => Act::Stream(n@),
            Effect::Watch(n) => Act::Watch(n@),
            Effect::Reap(n) => Act::Reap(n@),
            Effect::CancelProbes => Act::CancelProbes,
            Effect::Kill { pgid, signal } => Act::Kill { pgid: *pgid, signal: *signal },
            Effect::SignalTest(signal) => Act::SignalTest(*signal),
            Effect::StartTimer(s) => Act::StartTimer(*s),
            Effect::ClearState => Act::ClearState,
        }
    }
}

/// What the run waits for once the effects are done.
#[derive(Debug, PartialEq, Eq)]
pub enum Request {
    /// To begin.
    Begin,
    /// An event, however long it takes.
    Receive,
    /// An event or the end of the timer; or, where neither comes within so many milliseconds,
    /// that there was a pause.
    ReceiveTimed(u64),
    /// Whether any process of this group still exists.
    Alive(i32),
    /// The named process to be started.
    Spawn(String),
    /// The test command to be running, and its end or an event.
    RunTest,
    /// Nothing: the run is over, and exits with this code.
    Exit(i32),
}

impl View for Request {
    type V = Ask;

    open spec fn view(&self) -> Ask {
        match self {
            Request::Begin => Ask::Begin,
            Request::Receive => Ask::Receive,
            Request::ReceiveTimed(millis) => Ask::ReceiveTimed(*millis),
            Request::Alive(pgid) => Ask::Alive(*pgid),
            Request::Spawn(n) => Ask::Spawn(n@),
            Request::RunTest => Ask::RunTest,
            Request::Exit(c) => Ask::Exit(*c),
        }
    }
}

/// What a run answers to an input.
#[derive(Debug, PartialEq, Eq)]
pub struct Step {
    /// What to do, in this order.
    pub effects: Vec<Effect>,
    /// What to come back with.
    pub request: Request,
}

/// The acts that effects stand for.
pub open spec fn acts(effects: Seq<Effect>) -> Seq<Act> {
    effects.map_values(|e: Effect| e@)
}

/// What is to become of the run after an event.
#[derive(Debug, PartialEq, Eq)]
pub enum Control {
    /// It goes on.
    Continue,
    /// It stops and shuts down, to exit with the code: 0 after a signal, another one after a
    /// failure.
    Stop { reason: String, code: i32 },
}

impl Control {
    /// The reason and the code, where the run has to stop.
    pub open spec fn stops(self) -> Option<(Text, i32)> {
        match self {
            Control::Continue => None,
            Control::Stop { reason, code } => Some((reason@, code)),
        }
    }
}

fn push(out: &mut Vec<Effect>, e: Effect)
    ensures
        acts(final(out)@) == acts(old(out)@).push(e@),
{
    out.push(e);
    assert(acts(out@) =~= acts(old(out)@).push(e@));
}

fn log(out: &mut Vec<Effect>, line: String)
    ensures
        acts(final(out)@) == acts(old(out)@).push(Act::Log(line@)),
{
    push(out, Effect::Log(line));
}

/// The line for a dependency, shown as `shown`, that exited before it was ready.
pub fn early_exit_line(shown: &str) -> (r: String)
    ensures
        r@ == early_exit_says(shown@),
        r@ == shown@ + " exited before becoming healthy; aborting startup"@,
{
    shown.to_owned().concat(" exited before becoming healthy; aborting startup")
}

/// The line for a process, shown as `shown`, that could not be started.
pub fn start_failure_line(shown: &str, error: &str) -> (r: String)
    ensures
        r@ == start_failure_says(shown@, error@),
        r@ == "failed to start "@ + shown@ + ": "@ + error@,
{
    "failed to start ".to_owned().concat(shown).concat(": ").concat(error)
}

/// Whether a group is being looked at.
pub open spec fn looking(phase: Phase) -> bool {
    match phase {
        Phase::Surveying => true,
        Phase::GraceCheck => true,
        Phase::Forcing => true,
        Phase::DrainCheck => true,
        _ => false,
    }
}

// ---------------------------------------------------------------------------
// The supervisor
// ---------------------------------------------------------------------------

/// A supervised run of processes.
pub struct Supervisor {
    cfg: Config,
    order: Vec<String>,
    test: bool,
    grace_seconds: u64,
    phase: Phase,
    started: usize,
    healthy: NameSet,
    exited: NameSet,
    procs: NameMap<Handle>,
    announced: bool,
    command: bool,
    checks: Vec<String>,
    headless: NameSet,
    remaining: NameSet,
    code: i32,
}

impl View for Supervisor {
    type V = Run;

    closed spec fn view(&self) -> Run {
        Run {
            defs: self.cfg.processes@,
            names: self.cfg.processes.names(),
            order: views(self.order@),
            test: self.test,
            grace: self.grace_seconds,
            phase: self.phase,
            started: self.started as nat,
            healthy: self.healthy@,
            exited: self.exited@,
            handles: self.procs@,
            announced: self.announced,
            command: self.command,
            checks: views(self.checks@),
            headless: self.headless@,
            remaining: self.remaining@,
            code: self.code,
        }
    }
}

impl Supervisor {
    /// The collections are well-formed, every process to start is defined, no more have been
    /// started than there are, and what is looked at or waited for has been started.
    closed spec fn base_wf(&self) -> bool {
        &&& self.cfg.wf()
        &&& self.healthy.wf()
        &&& self.exited.wf()
        &&& self.procs.wf()
        &&& self.headless.wf()
        &&& self.remaining.wf()
        &&& self.started <= self.order@.len()
        &&& forall|n: Text| #[trigger] self.remaining@.contains(n) ==> self.procs@.contains_key(n)
        &&& forall|i: int|
            0 <= i < self.checks@.len() ==> self.procs@.contains_key(#[trigger] self.checks@[i]@)
        &&& forall|i: int|
            0 <= i < self.order@.len() ==> self.cfg.processes@.contains_key(
                #[trigger] self.order@[i]@,
            )
    }

    /// What holds in every phase, and what its phase needs: something to wait for, to look at or
    /// to start.
    pub closed spec fn wf(&self) -> bool {
        &&& self.base_wf()
        &&& self.phase == Phase::Idle ==> self.started == 0
        &&& self.phase == Phase::Spawning ==> self.started < self.order@.len()
        &&& self.phase == Phase::Grace || self.phase == Phase::Draining ==> self.remaining@.len() > 0
            || self.command
        &&& looking(self.phase) ==> self.checks@.len() > 0
    }

    /// A run of the processes of `cfg` that has not begun.
    pub fn new(cfg: Config, grace_seconds: u64) -> (r: Supervisor)
        requires
            cfg.wf(),
        ensures
            r.wf(),
            r@ == idle(cfg.processes@, cfg.processes.names(), grace_seconds),
            r@.defs == cfg.processes@,
            r@.names == cfg.processes.names(),
            r@.grace == grace_seconds,
            r@.phase == Phase::Idle,
            r@.started == 0,
            r@.healthy == Set::<Text>::empty(),
            r@.exited == Set::<Text>::empty(),
            r@.handles == Map::<Text, Handle>::empty(),
            !r@.test,
            !r@.announced,
            !r@.command,
    {
        let r = Supervisor {
            cfg,
            order: Vec::new(),
            test: false,
            grace_seconds,
            phase: Phase::Idle,
            started: 0,
            healthy: NameSet::new(),
            exited: NameSet::new(),
            procs: NameMap::new(),
            announced: false,
            command: false,
            checks: Vec::new(),
            headless: NameSet::new(),
            remaining: NameSet::new(),
            code: 0,
        };
        assert(r@ =~= idle(cfg.processes@, cfg.processes.names(), grace_seconds));
        r
    }

    /// The started processes, for the forced shutdown on a second signal.
    pub fn handles(&self) -> (r: &NameMap<Handle>)
        requires
            self.wf(),
        ensures
            r.wf(),
            r@ == self@.handles,
    {
        &self.procs
    }

    /// The groups of all started processes.
    fn groups(&self) -> (r: Vec<i32>)
        requires
            self.wf(),
        ensures
            r@ == all_groups(self@),
    {
        let ghost all = self.procs.names();
        let n = self.procs.len();
        let mut out: Vec<i32> = Vec::new();
        let mut i: usize = 0;
        while i < n
            invariant
                self.wf(),
                all == self.procs.names(),
                n == all.len(),
                i <= n,
                out@ == all.take(i as int).map_values(|n: Text| self@.handles[n].pgid),
            decreases n - i,
        {
            out.push(self.procs.value_at(i).pgid);
            assert(out@ =~= all.take(i + 1).map_values(|n: Text| self@.handles[n].pgid));
            i += 1;
        }
        proof {
            self.procs.lemma_wf();
            assert(all.take(n as int) =~= all);
        }
        out
    }

    /// The forced shutdown on a second termination signal: every group is killed at once, the
    /// state file is deleted, and the program exits.
    pub fn force_stop(&self) -> (r: Step)
        requires
            self.wf(),
        ensures
            acts(r.effects@) == seq![Act::Log("second signal — force-killing all process groups"@)]
                + all_groups(self@).map_values(|g: i32| Act::Kill { pgid: g, signal: kill() })
                + seq![Act::ClearState],
            acts(r.effects@) == forced(self@),
            r.request@ == Ask::Exit(130),
            r.effects@.len() == self@.handles.dom().len() + 2,
            forall|pgid: i32, signal: i32| #[trigger]
                acts(r.effects@).contains(Act::Kill { pgid, signal }) <==> signal == 9 && exists|
                    n: Text,
                | #[trigger]
                    self@.handles.contains_key(n) && self@.handles[n].pgid == pgid,
    {
        let groups = self.groups();
        let ghost all = all_groups(self@);
        let ghost deadly = |g: i32| Act::Kill { pgid: g, signal: kill() };
        let ghost said = Act::Log("second signal — force-killing all process groups"@);
        let mut out: Vec<Effect> = Vec::new();
        log(&mut out, "second signal — force-killing all process groups".to_owned());
        assert(acts(out@) =~= seq![said] + all.take(0).map_values(deadly));
        let mut i: usize = 0;
        while i < groups.len()
            invariant
                all == groups@,
                deadly == (|g: i32| Act::Kill { pgid: g, signal: kill() }),
                i <= groups@.len(),
                acts(out@) == seq![said] + all.take(i as int).map_values(deadly),
            decreases groups@.len() - i,
        {
            push(&mut out, Effect::Kill { pgid: groups[i], signal: sigkill() });
            assert(acts(out@) =~= seq![said] + all.take(i + 1).map_values(deadly));
            i += 1;
        }
        assert(all.take(groups@.len() as int) =~= all);
        push(&mut out, Effect::ClearState);
        assert(acts(out@) =~= forced(self@));
        proof {
            self.procs.lemma_wf();
            assert(acts(out@).len() == out@.len());
            assert forall|pgid: i32, signal: i32| #[trigger]
                acts(out@).contains(Act::Kill { pgid, signal }) <==> signal == 9 && exists|n: Text|
                    #[trigger] self@.handles.contains_key(n) && self@.handles[n].pgid == pgid by {
                law_forced_shutdown_kills_every_group(self@, pgid, signal);
            }
        }
        Step { effects: out, request: Request::Exit(FORCED_EXIT_CODE) }
    }

    /// The definition of a process.
    pub fn process(&self, name: &str) -> (r: Option<&Process>)
        requires
            self.wf(),
        ensures
            match r {
                Some(p) => self@.defs.contains_key(name@) && *p == self@.defs[name@],
                None => !self@.defs.contains_key(name@),
            },
    {
        self.cfg.processes.get(name)
    }

    fn is_shutting_down(&self) -> (r: bool)
        ensures
            r == shutting_down(self@),
    {
        match self.phase {
            Phase::Surveying
            | Phase::Grace
            | Phase::GraceCheck
            | Phase::Forcing
            | Phase::Draining
            | Phase::DrainCheck
            | Phase::Finished => true,
            _ => false,
        }
    }

    fn is_oneshot(&self, name: &str) -> (r: bool)
        requires
            self.wf(),
        ensures
            r == oneshot(self@, name@),
    {
        match self.cfg.processes.get(name) {
            Some(p) => p.oneshot,
            None => false,
        }
    }

    /// Applies one event to the view of the world. Comes back with the line to log, if there is
    /// one, and with what is to become of the run.
    pub fn apply(&mut self, ev: Event) -> (r: (Option<String>, Control))
        requires
            old(self).wf(),
        ensures
            final(self).wf(),
            final(self)@ == told(old(self)@, ev@),
            opt_view(r.0) == remark(old(self)@, ev@),
            r.1.stops() == verdict(old(self)@, ev@),
            forall|n: Text| #[trigger]
                final(self)@.healthy.contains(n) <==> old(self)@.healthy.contains(n) || match ev {
                    Event::Healthy(name) => name@ == n,
                    Event::Exited { name, success, desc } => {
                        &&& name@ == n
                        &&& success
                        &&& old(self)@.defs.contains_key(n)
                        &&& old(self)@.defs[n].oneshot
                        &&& !shutting_down(old(self)@)
                    },
                    _ => false,
                },
            forall|n: Text| #[trigger]
                final(self)@.exited.contains(n) <==> old(self)@.exited.contains(n) || match ev {
                    Event::Exited { name, success, desc } => name@ == n,
                    _ => false,
                },
            final(self)@.handles.dom() == old(self)@.handles.dom(),
            forall|n: Text| #[trigger]
                old(self)@.handles.contains_key(n) ==> final(self)@.handles[n] == (Handle {
                    exited: old(self)@.handles[n].exited || match ev {
                        Event::Exited { name, success, desc } => name@ == n,
                        _ => false,
                    },
                    ..old(self)@.handles[n]
                }),
            match ev {
                Event::Healthy(name) => {
                    &&& opt_view(r.0) == Some(name@ + " is ready"@)
                    &&& r.1 is Continue
                },
                Event::HealthFailed(name, e) => {
                    &&& opt_view(r.0) == Some(name@ + " health check failed: "@ + e@)
                    &&& r.1 matches Control::Stop { reason, code }
                    &&& reason@ == name@ + " failed its health check"@
                    &&& code == 1
                },
                Event::Exited { name, success, desc } => if shutting_down(old(self)@) {
                    r.0 is None && r.1 is Continue
                } else if old(self)@.defs.contains_key(name@) && old(self)@.defs[name@].oneshot {
                    if success {
                        opt_view(r.0) == Some(name@ + " completed"@) && r.1 is Continue
                    } else {
                        &&& opt_view(r.0) == Some(name@ + " failed ("@ + desc@ + ")"@)
                        &&& r.1 matches Control::Stop { reason, code }
                        &&& reason@ == "oneshot "@ + name@ + " failed"@
                        &&& code == 1
                    }
                } else {
                    &&& opt_view(r.0) == Some(name@ + " exited ("@ + desc@ + ")"@)
                    &&& r.1 matches Control::Stop { reason, code }
                    &&& reason@ == name@ + " exited unexpectedly"@
                    &&& code == 1
                },
                Event::Signal => {
                    &&& r.0 is None
                    &&& r.1 matches Control::Stop { reason, code }
                    &&& reason@ == "received termination signal"@
                    &&& code == 0
                },
            },
    {
        match ev {
            Event::Healthy(name) => {
                let line = name.clone().concat(" is ready");
                self.healthy.insert(name);
                assert(self@ =~= told(old(self)@, ev@));
                (Some(line), Control::Continue)
            },
            Event::HealthFailed(name, err) => {
                let line = name.clone().concat(" health check failed: ").concat(err.as_str());
                let reason = name.concat(" failed its health check");
                (Some(line), Control::Stop { reason, code: 1 })
            },
            Event::Exited { name, success, desc } => {
                let down = self.is_shutting_down();
                let one = self.is_oneshot(name.as_str());
                self.exited.insert(name.clone());
                let known: Option<Handle> = match self.procs.get(name.as_str()) {
                    Some(h) => Some(*h),
                    None => None,
                };
                if let Some(h) = known {
                    self.procs.insert(name.clone(), Handle { exited: true, ..h });
                }
                if down {
                    assert(self@ =~= told(old(self)@, ev@));
                    (None, Control::Continue)
                } else if one {
                    if success {
                        let line = name.clone().concat(" completed");
                        self.healthy.insert(name);
                        assert(self@ =~= told(old(self)@, ev@));
                        (Some(line), Control::Continue)
                    } else {
                        assert(self@ =~= told(old(self)@, ev@));
                        let line = name.clone().concat(" failed (").concat(desc.as_str()).concat(")");
                        let reason = "oneshot ".to_owned().concat(name.as_str()).concat(" failed");
                        (Some(line), Control::Stop { reason, code: 1 })
                    }
                } else {
                    assert(self@ =~= told(old(self)@, ev@));
                    let line = name.clone().concat(" exited (").concat(desc.as_str()).concat(")");
                    let reason = name.concat(" exited unexpectedly");
                    (Some(line), Control::Stop { reason, code: 1 })
                }
            },
            Event::Signal => {
                let reason = "received termination signal".to_owned();
                (None, Control::Stop { reason, code: 0 })
            },
        }
    }

    /// The first dependency of `p` that is not ready.
    fn unready(&self, p: &Process) -> (r: Option<String>)
        requires
            self.wf(),
        ensures
            opt_view(r) == first_unready(views(p.depends_on@), self@.healthy),
    {
        let ghost ds = views(p.depends_on@);
        assert(ds.take(0) =~= Seq::<Text>::empty());
        let mut i: usize = 0;
        while i < p.depends_on.len()
            invariant
                self.wf(),
                ds == views(p.depends_on@),
                i <= p.depends_on@.len(),
                first_unready(ds.take(i as int), self@.healthy) is None,
            decreases p.depends_on@.len() - i,
        {
            assert(ds.take(i + 1).drop_last() =~= ds.take(i as int));
            assert(ds.take(i + 1).last() == p.depends_on@[i as int]@);
            if !self.healthy.contains(p.depends_on[i].as_str()) {
                proof {
                    lemma_first_unready_stays(ds, self@.healthy, i + 1);
                }
                return Some(p.depends_on[i].clone());
            }
            i += 1;
        }
        assert(ds.take(p.depends_on@.len() as int) =~= ds);
        None
    }

    fn announce(&mut self, out: &mut Vec<Effect>)
        requires
            old(self).wf(),
            old(self)@.phase == Phase::Supervising || old(self)@.phase == Phase::Testing,
        ensures
            final(self).wf(),
            final(self)@ == announce(old(self)@).0,
            acts(final(out)@) == acts(old(out)@) + announce(old(self)@).1,
    {
        if !self.announced && self.healthy.len() == self.order.len() {
            self.announced = true;
            self.command = self.test;
            if self.test {
                self.phase = Phase::Testing;
            }
            log(out, "all processes ready".to_owned());
        }
        assert(self@ =~= announce(old(self)@).0);
        assert(acts(out@) =~= acts(old(out)@) + announce(old(self)@).1);
    }

    fn gate(&mut self, out: &mut Vec<Effect>)
        requires
            old(self).wf(),
        ensures
            final(self).wf(),
            final(self)@ == gate(old(self)@).0,
            acts(final(out)@) == acts(old(out)@) + gate(old(self)@).1,
    {
        let ghost r = self@;
        let ghost before = acts(out@);
        if self.started >= self.order.len() {
            self.phase = Phase::Supervising;
            let ghost up = self@;
            assert(up =~= (Run { phase: Phase::Supervising, ..r }));
            log(
                out,
                "all ".to_owned().concat(decimal_text(self.order.len() as u64).as_str()).concat(
                    " processes started",
                ),
            );
            if self.test {
                self.announce(out);
            }
            assert(self@ =~= gate(r).0);
            assert(acts(out@) =~= before + gate(r).1);
        } else {
            let name: String = self.order[self.started].clone();
            let waits_for: Option<String> = match self.cfg.processes.get(name.as_str()) {
                Some(p) => self.unready(p),
                None => None,
            };
            match waits_for {
                None => {
                    self.phase = Phase::Spawning;
                    assert(self@ =~= gate(r).0);
                    assert(acts(out@) =~= before + gate(r).1);
                },
                Some(d) => {
                    if self.exited.contains(d.as_str()) {
                        let shown = debug_text(d.as_str());
                        self.stop(early_exit_line(shown.as_str()), 1, out);
                    } else {
                        self.phase = Phase::Gating;
                        assert(self@ =~= gate(r).0);
                        assert(acts(out@) =~= before + gate(r).1);
                    }
                },
            }
        }
    }

    fn stop(&mut self, line: String, code: i32, out: &mut Vec<Effect>)
        requires
            old(self).wf(),
        ensures
            final(self).wf(),
            final(self)@ == stop(old(self)@, line@, code).0,
            acts(final(out)@) == acts(old(out)@) + stop(old(self)@, line@, code).1,
    {
        let ghost before = acts(out@);
        let ghost said = line@;
        log(out, line);
        self.shut_down(code, out);
        assert(acts(out@) =~= before + stop(old(self)@, said, code).1);
    }

    fn is_completed(&self, name: &str) -> (r: bool)
        requires
            self.wf(),
        ensures
            r == completed(self@, name@),
    {
        match self.procs.get(name) {
            Some(h) => h.exited && self.is_oneshot(name) && self.healthy.contains(name),
            None => false,
        }
    }

    /// The processes that have exited on their own, but for completed oneshots.
    fn doubtful(&self) -> (r: Vec<String>)
        requires
            self.wf(),
        ensures
            views(r@) == doubtful(self@),
            forall|k: int| 0 <= k < r@.len() ==> self.procs@.contains_key(#[trigger] r@[k]@),
    {
        let ghost all = self.procs.names();
        let ghost wanted = |n: Text| self@.handles[n].exited && !completed(self@, n);
        let mut out: Vec<String> = Vec::new();
        let n = self.procs.len();
        proof {
            self.procs.lemma_wf();
            reveal(Seq::filter);
            assert(all.take(0) =~= Seq::<Text>::empty());
            assert(views(out@) =~= all.take(0).filter(wanted));
        }
        let mut i: usize = 0;
        while i < n
            invariant
                self.wf(),
                all == self.procs.names(),
                wanted == (|n: Text| self@.handles[n].exited && !completed(self@, n)),
                n == all.len(),
                i <= n,
                views(out@) == all.take(i as int).filter(wanted),
                forall|k: int| 0 <= k < out@.len() ==> self.procs@.contains_key(#[trigger] out@[k]@),
            decreases n - i,
        {
            let name: String = self.procs.name_at(i).clone();
            let exited = self.procs.value_at(i).exited;
            let ghost so_far = out@;
            proof {
                reveal(Seq::filter);
                assert(all.take(i + 1).drop_last() =~= all.take(i as int));
                assert(all.take(i + 1).last() == all[i as int]);
            }
            if exited && !self.is_completed(name.as_str()) {
                out.push(name);
                assert(views(out@) =~= views(so_far).push(all[i as int]));
            }
            i += 1;
        }
        assert(all.take(n as int) =~= all);
        out
    }

    /// The processes whose groups are to be torn down.
    fn live(&self) -> (r: Vec<String>)
        requires
            self.wf(),
        ensures
            views(r@) == live(self@),
            forall|k: int| 0 <= k < r@.len() ==> self.procs@.contains_key(#[trigger] r@[k]@),
    {
        let ghost all = self.procs.names();
        let ghost wanted = |n: Text| !self@.handles[n].exited || self@.headless.contains(n);
        let mut out: Vec<String> = Vec::new();
        let n = self.procs.len();
        proof {
            self.procs.lemma_wf();
            reveal(Seq::filter);
            assert(all.take(0) =~= Seq::<Text>::empty());
            assert(views(out@) =~= all.take(0).filter(wanted));
        }
        let mut i: usize = 0;
        while i < n
            invariant
                self.wf(),
                all == self.procs.names(),
                wanted == (|n: Text| !self@.handles[n].exited || self@.headless.contains(n)),
                n == all.len(),
                i <= n,
                views(out@) == all.take(i as int).filter(wanted),
                forall|k: int| 0 <= k < out@.len() ==> self.procs@.contains_key(#[trigger] out@[k]@),
            decreases n - i,
        {
            let name: String = self.procs.name_at(i).clone();
            let exited = self.procs.value_at(i).exited;
            let ghost so_far = out@;
            proof {
                reveal(Seq::filter);
                assert(all.take(i + 1).drop_last() =~= all.take(i as int));
                assert(all.take(i + 1).last() == all[i as int]);
            }
            if !exited || self.headless.contains(name.as_str()) {
                out.push(name);
                assert(views(out@) =~= views(so_far).push(all[i as int]));
            }
            i += 1;
        }
        assert(all.take(n as int) =~= all);
        out
    }

    /// Starts to shut down: no probe goes on, and what has exited on its own is looked at.
    fn shut_down(&mut self, code: i32, out: &mut Vec<Effect>)
        requires
            old(self).wf(),
        ensures
            final(self).wf(),
            final(self)@ == shut_down(old(self)@, code).0,
            acts(final(out)@) == acts(old(out)@) + shut_down(old(self)@, code).1,
    {
        let ghost r = self@;
        let ghost before = acts(out@);
        let checks = self.doubtful();
        let none = checks.len() == 0;
        self.code = code;
        self.headless = NameSet::new();
        self.phase = Phase::Surveying;
        self.checks = checks;
        push(out, Effect::CancelProbes);
        if self.command {
            push(out, Effect::SignalTest(sigterm()));
        }
        assert(acts(out@) =~= before + seq![Act::CancelProbes] + stop_command(r));
        if none {
            let ghost s = Run { code, checks: doubtful(r), headless: Set::empty(), ..r };
            assert(self@ =~= (Run { phase: Phase::Surveying, ..s }));
            self.ask_all(out);
            assert(ask_all(Run { phase: Phase::Surveying, ..s }) == ask_all(s));
        }
        assert(self@ =~= shut_down(r, code).0);
        assert(acts(out@) =~= before + shut_down(r, code).1);
    }

    /// Asks every group that is still running to stop, and lets the time begin that it has.
    fn ask_all(&mut self, out: &mut Vec<Effect>)
        requires
            old(self).base_wf(),
            old(self).checks@.len() == 0,
        ensures
            final(self).wf(),
            final(self)@ == ask_all(old(self)@).0,
            acts(final(out)@) == acts(old(out)@) + ask_all(old(self)@).1,
    {
        let ghost r = self@;
        let ghost before = acts(out@);
        self.phase = Phase::Finished;
        assert(live(self@) == live(r));
        let pending = self.live();
        let ghost ns = views(pending@);
        let count = pending.len();
        if count == 0 && !self.command {
            self.remaining = NameSet::new();
            push(out, Effect::ClearState);
        } else {
            log(
                out,
                "stopping ".to_owned().concat(decimal_text(count as u64).as_str()).concat(
                    " process(es), ",
                ).concat(decimal_text(self.grace_seconds).as_str()).concat("s grace before SIGKILL"),
            );
            let ghost so_far = acts(out@);
            let ghost asks = |n: Text| ask_to_stop(r, n);
            let mut remaining = NameSet::new();
            let mut i: usize = 0;
            proof {
                assert(ns.take(0) =~= Seq::<Text>::empty());
                assert(ns.take(0).to_set() =~= Set::<Text>::empty());
                assert(acts(out@) =~= so_far + ns.take(0).map_values(asks));
            }
            while i < count
                invariant
                    self.wf(),
                    self@.handles == r.handles,
                    count == pending@.len(),
                    ns == views(pending@),
                    i <= count,
                    asks == (|n: Text| ask_to_stop(r, n)),
                    forall|k: int|
                        0 <= k < pending@.len() ==> self.procs@.contains_key(#[trigger] pending@[k]@),
                    remaining.wf(),
                    remaining@ == ns.take(i as int).to_set(),
                    acts(out@) == so_far + ns.take(i as int).map_values(asks),
                decreases count - i,
            {
                let ghost n = pending@[i as int]@;
                let ghost some = ns.take(i as int);
                assert(ns.take(i + 1) =~= some.push(n));
                if let Some(h) = self.procs.get(pending[i].as_str()) {
                    push(out, Effect::Kill { pgid: h.pgid, signal: h.shutdown_signal });
                }
                remaining.insert(pending[i].clone());
                proof {
                    some.lemma_push_to_set_commute(n);
                    assert(some.push(n).map_values(asks) =~= some.map_values(asks).push(
                        ask_to_stop(r, n),
                    ));
                    assert(acts(out@) =~= so_far + ns.take(i + 1).map_values(asks));
                }
                i += 1;
            }
            proof {
                assert(ns.take(count as int) =~= ns);
                assert forall|n: Text| #[trigger]
                    remaining@.contains(n) implies self.procs@.contains_key(n) by {
                    assert(ns.contains(n));
                    let k = ns.index_of(n);
                    assert(pending@[k]@ == n);
                }
            }
            let left = remaining.len();
            proof {
                if left == 0 && count > 0 {
                    remaining@.lemma_len0_is_empty();
                    assert(ns.to_set().contains(ns[0]));
                }
            }
            self.remaining = remaining;
            self.phase = Phase::Grace;
            push(out, Effect::StartTimer(self.grace_seconds));
        }
        assert(self@ =~= ask_all(r).0);
        assert(acts(out@) =~= before + ask_all(r).1);
    }

    fn is_waiting(&self) -> (r: bool)
        requires
            self.base_wf(),
        ensures
            r == waiting(self@),
    {
        self.command || self.remaining.len() > 0
    }

    /// The processes that are waited for though they have exited.
    fn leaderless(&self) -> (r: Vec<String>)
        requires
            self.wf(),
        ensures
            views(r@) == leaderless(self@),
            forall|k: int| 0 <= k < r@.len() ==> self@.remaining.contains(#[trigger] r@[k]@),
    {
        let names = self.remaining.list();
        let ghost all = views(names@);
        let ghost wanted = |n: Text| self@.exited.contains(n);
        let mut out: Vec<String> = Vec::new();
        proof {
            reveal(Seq::filter);
            assert(all.take(0) =~= Seq::<Text>::empty());
            assert(views(out@) =~= all.take(0).filter(wanted));
        }
        let mut i: usize = 0;
        while i < names.len()
            invariant
                self.wf(),
                all == views(names@),
                wanted == (|n: Text| self@.exited.contains(n)),
                i <= names@.len(),
                forall|k: int|
                    0 <= k < names@.len() ==> self@.remaining.contains(#[trigger] names@[k]@),
                views(out@) == all.take(i as int).filter(wanted),
                forall|k: int| 0 <= k < out@.len() ==> self@.remaining.contains(#[trigger] out@[k]@),
            decreases names@.len() - i,
        {
            let ghost so_far = out@;
            proof {
                reveal(Seq::filter);
                assert(all.take(i + 1).drop_last() =~= all.take(i as int));
                assert(all.take(i + 1).last() == names@[i as int]@);
            }
            if self.exited.contains(names[i].as_str()) {
                out.push(names[i].clone());
                assert(views(out@) =~= views(so_far).push(names@[i as int]@));
            }
            i += 1;
        }
        assert(all.take(names@.len() as int) =~= all);
        out
    }

    /// The time to stop is over.
    fn force_remaining(&mut self, out: &mut Vec<Effect>)
        requires
            old(self).wf(),
            old(self)@.phase == Phase::Grace,
        ensures
            final(self).wf(),
            final(self)@ == force_remaining(old(self)@).0,
            acts(final(out)@) == acts(old(out)@) + force_remaining(old(self)@).1,
    {
        let ghost r = self@;
        let ghost before = acts(out@);
        if self.command {
            push(out, Effect::SignalTest(sigkill()));
        }
        assert(acts(out@) =~= before + kill_command(r));
        if self.remaining.len() == 0 {
            self.phase = Phase::Draining;
            push(out, Effect::StartTimer(DRAIN_SECONDS));
        } else {
            self.checks = self.remaining.list();
            self.phase = Phase::Forcing;
        }
        assert(self@ =~= force_remaining(r).0);
        assert(acts(out@) =~= before + force_remaining(r).1);
    }

    /// Takes the check at the head of the list, and with it its process off those that are waited
    /// for, if its group is not there any more and its exit has been seen.
    fn take_check(&mut self, there: bool) -> (name: String)
        requires
            old(self).wf(),
            looking(old(self).phase),
        ensures
            final(self).base_wf(),
            final(self)@ == checked(old(self)@, there),
            name@ == old(self)@.checks[0],
            old(self)@.handles.contains_key(name@),
    {
        let ghost r = self@;
        let ghost before = self.checks@;
        let name = self.checks.remove(0);
        proof {
            assert(name@ == before[0]@);
            assert(views(self.checks@) =~= views(before).skip(1));
            assert forall|i: int| 0 <= i < self.checks@.len() implies self.procs@.contains_key(
                #[trigger] self.checks@[i]@,
            ) by {
                assert(self.checks@[i] == before[i + 1]);
            }
        }
        if !there && self.exited.contains(name.as_str()) {
            self.remaining.remove(name.as_str());
        }
        assert(self@ =~= checked(r, there));
        name
    }

    fn on_survey(&mut self, there: bool, out: &mut Vec<Effect>)
        requires
            old(self).wf(),
            old(self)@.phase == Phase::Surveying,
        ensures
            final(self).wf(),
            final(self)@ == surveyed(old(self)@, there).0,
            acts(final(out)@) == acts(old(out)@) + surveyed(old(self)@, there).1,
    {
        let ghost r = self@;
        let ghost before = acts(out@);
        let name = self.take_check(true);
        if there {
            self.headless.insert(name);
        }
        let ghost s = Run {
            checks: r.checks.skip(1),
            headless: if there {
                r.headless.insert(r.checks[0])
            } else {
                r.headless
            },
            ..r
        };
        assert(self@ =~= s);
        assert(self.checks@.len() == s.checks.len());
        if self.checks.len() == 0 {
            self.ask_all(out);
        }
        assert(self@ =~= surveyed(r, there).0);
        assert(acts(out@) =~= before + surveyed(r, there).1);
    }

    fn on_look(&mut self, there: bool, out: &mut Vec<Effect>)
        requires
            old(self).wf(),
            old(self)@.phase == Phase::GraceCheck || old(self)@.phase == Phase::DrainCheck,
        ensures
            final(self).wf(),
            final(self)@ == looked(old(self)@, there).0,
            acts(final(out)@) == acts(old(out)@) + looked(old(self)@, there).1,
    {
        let ghost r = self@;
        let ghost before = acts(out@);
        let back = if self.phase == Phase::GraceCheck {
            Phase::Grace
        } else {
            Phase::Draining
        };
        let _name = self.take_check(there);
        assert(self.checks@.len() == checked(r, there).checks.len());
        if self.checks.len() == 0 {
            if !self.is_waiting() {
                self.finish(out);
            } else {
                self.phase = back;
            }
        }
        assert(self@ =~= looked(r, there).0);
        assert(acts(out@) =~= before + looked(r, there).1);
    }

    /// Kills the group that was looked at, if it is still there.
    fn on_strike(&mut self, there: bool, out: &mut Vec<Effect>)
        requires
            old(self).wf(),
            old(self)@.phase == Phase::Forcing,
        ensures
            final(self).wf(),
            final(self)@ == struck(old(self)@, there).0,
            acts(final(out)@) == acts(old(out)@) + struck(old(self)@, there).1,
    {
        let ghost r = self@;
        let ghost before = acts(out@);
        let name = self.take_check(there);
        if there {
            if let Some(h) = self.procs.get(name.as_str()) {
                let pgid: i32 = h.pgid;
                log(
                    out,
                    "force-killing ".to_owned().concat(name.as_str()).concat(" (pgid ").concat(
                        signed_text(pgid).as_str(),
                    ).concat(")"),
                );
                push(out, Effect::Kill { pgid, signal: sigkill() });
            }
        }
        assert(self.checks@.len() == checked(r, there).checks.len());
        if self.checks.len() == 0 {
            if !self.is_waiting() {
                self.finish(out);
            } else {
                self.phase = Phase::Draining;
                push(out, Effect::StartTimer(DRAIN_SECONDS));
            }
        }
        assert(self@ =~= struck(r, there).0);
        assert(acts(out@) =~= before + struck(r, there).1);
    }

    fn finish(&mut self, out: &mut Vec<Effect>)
        requires
            old(self).base_wf(),
        ensures
            final(self).wf(),
            final(self)@ == finish(old(self)@).0,
            acts(final(out)@) == acts(old(out)@) + finish(old(self)@).1,
    {
        self.phase = Phase::Finished;
        push(out, Effect::ClearState);
        log(out, "all processes stopped".to_owned());
        assert(self@ =~= finish(old(self)@).0);
        assert(acts(out@) =~= acts(old(out)@) + finish(old(self)@).1);
    }

    /// Looks at the groups of `names`.
    fn look(&mut self, names: Vec<String>)
        requires
            old(self).wf(),
            old(self)@.phase == Phase::Grace || old(self)@.phase == Phase::Draining,
            names@.len() > 0,
            forall|k: int|
                0 <= k < names@.len() ==> old(self)@.remaining.contains(#[trigger] names@[k]@),
        ensures
            final(self).wf(),
            final(self)@ == look(old(self)@, views(names@)),
    {
        self.phase = if self.phase == Phase::Grace {
            Phase::GraceCheck
        } else {
            Phase::DrainCheck
        };
        self.checks = names;
        assert(self@ =~= look(old(self)@, views(names@)));
    }

    fn ending(&mut self, ev: Event)
        requires
            old(self).wf(),
            old(self)@.phase == Phase::Grace || old(self)@.phase == Phase::Draining,
        ensures
            final(self).wf(),
            final(self)@ == ending(old(self)@, ev@),
    {
        let ghost r = self@;
        if let Event::Exited { name, success: _, desc: _ } = ev {
            let ghost n = name@;
            let waited = self.remaining.contains(name.as_str());
            self.exited.insert(name.clone());
            assert(self@ =~= (Run { exited: r.exited.insert(n), ..r }));
            if waited {
                let mut names: Vec<String> = Vec::new();
                names.push(name);
                assert(views(names@) =~= seq![n]);
                self.look(names);
            }
        }
    }

    fn on_test_exit(&mut self, status: i32, out: &mut Vec<Effect>)
        requires
            old(self).wf(),
        ensures
            final(self).wf(),
            final(self)@ == next(old(self)@, In::TestExited(Some(status))).0,
            acts(final(out)@) == acts(old(out)@) + next(
                old(self)@,
                In::TestExited(Some(status)),
            ).1,
    {
        let ghost r = self@;
        let ghost before = acts(out@);
        match self.phase {
            Phase::Testing => {
                self.command = false;
                assert(self@ =~= (Run { command: false, ..r }));
                self.shut_down(status, out);
            },
            Phase::Grace | Phase::Draining => {
                self.command = false;
                assert(self@ =~= (Run { command: false, ..r }));
                if !self.is_waiting() {
                    self.finish(out);
                }
            },
            _ => {},
        }
        assert(acts(out@) =~= before + next(r, In::TestExited(Some(status))).1);
    }

    fn on_event(&mut self, ev: Event, out: &mut Vec<Effect>)
        requires
            old(self).wf(),
            old(self)@.phase == Phase::Gating || old(self)@.phase == Phase::Supervising || old(
                self,
            )@.phase == Phase::Testing,
        ensures
            final(self).wf(),
            final(self)@ == (if old(self)@.phase == Phase::Gating {
                gating(old(self)@, ev@).0
            } else {
                supervising(old(self)@, ev@).0
            }),
            acts(final(out)@) == acts(old(out)@) + (if old(self)@.phase == Phase::Gating {
                gating(old(self)@, ev@).1
            } else {
                supervising(old(self)@, ev@).1
            }),
    {
        let ghost r = self@;
        let ghost e = ev@;
        let ghost before = acts(out@);
        let starting = match self.phase {
            Phase::Gating => true,
            _ => false,
        };
        let (line, control) = self.apply(ev);
        if let Some(l) = line {
            log(out, l);
        }
        assert(acts(out@) =~= before + logged(remark(r, e)));
        match control {
            Control::Stop { reason, code } => {
                let why = if starting {
                    "aborting startup: ".to_owned().concat(reason.as_str())
                } else {
                    "shutting down: ".to_owned().concat(reason.as_str())
                };
                self.stop(why, code, out);
            },
            Control::Continue => {
                if starting {
                    self.gate(out);
                } else {
                    self.announce(out);
                }
            },
        }
        if starting {
            assert(acts(out@) =~= before + gating(r, e).1);
        } else {
            assert(acts(out@) =~= before + supervising(r, e).1);
        }
    }

    /// Takes note of the process that has just been started, and goes on.
    #[verifier::rlimit(30)]
    fn on_spawned(&mut self, pid: u32, out: &mut Vec<Effect>)
        requires
            old(self).wf(),
            old(self)@.phase == Phase::Spawning,
        ensures
            final(self).wf(),
            final(self)@ == next(old(self)@, In::Spawned(pid)).0,
            acts(final(out)@) == acts(old(out)@) + next(old(self)@, In::Spawned(pid)).1,
    {
        let ghost r = self@;
        let ghost before = acts(out@);
        let total = self.order.len();
        let name: String = self.order[self.started].clone();
        let one = self.is_oneshot(name.as_str());
        let signal: i32 = match self.cfg.processes.get(name.as_str()) {
            Some(p) => match &p.shutdown_signal {
                Some(s) => parse_signal(Some(s.as_str())),
                None => parse_signal(None),
            },
            None => parse_signal(None),
        };
        let pgid: i32 = #[verifier::truncate]
        (pid as i32);
        push(out, Effect::Record { name: name.clone(), pid: pgid, pgid });
        self.procs.insert(name.clone(), Handle { pgid, shutdown_signal: signal, exited: false });
        push(out, Effect::Stream(name.clone()));
        if !one {
            push(out, Effect::Watch(name.clone()));
        }
        push(out, Effect::Reap(name.clone()));
        log(
            out,
            "started ".to_owned().concat(name.as_str()).concat(" (pgid ").concat(
                signed_text(pgid).as_str(),
            ).concat(")"),
        );
        assert(acts(out@) =~= before + launched(name@, one, pid));
        assert(self.started < total);
        self.started = self.started + 1;
        self.phase = Phase::Gating;
        proof {
            let n = name@;
            assert(self@ =~= (Run {
                phase: Phase::Gating,
                started: r.started + 1,
                handles: r.handles.insert(n, new_handle(r.defs[n], pid)),
                ..r
            }));
        }
        proof {
            let n = name@;
            lemma_gate_sets_the_phase(
                Run {
                    started: r.started + 1,
                    handles: r.handles.insert(n, new_handle(r.defs[n], pid)),
                    ..r
                },
                Phase::Gating,
            );
        }
        self.gate(out);
        assert(acts(out@) =~= before + next(r, In::Spawned(pid)).1);
    }

    fn begin(&mut self, out: &mut Vec<Effect>)
        requires
            old(self).wf(),
            old(self)@.phase == Phase::Idle,
        ensures
            final(self).wf(),
            final(self)@ == begin(old(self)@).0,
            acts(final(out)@) == acts(old(out)@) + begin(old(self)@).1,
    {
        let ghost r = self@;
        let ghost before = acts(out@);
        match self.cfg.start_order() {
            Ok(order) => {
                proof {
                    self.cfg.processes.lemma_wf();
                    let g = self.cfg.graph();
                    assert(g.dom() =~= self.cfg.processes@.dom());
                    lemma_plan_settled(g, self.cfg.processes.names());
                    assert forall|i: int| 0 <= i < order@.len() implies self.cfg.processes@.contains_key(
                        #[trigger] order@[i]@,
                    ) by {
                        assert(g.contains_key(views(order@)[i]));
                    }
                }
                self.order = order;
                assert(self@ =~= (Run { order: views(order@), ..r }));
                self.gate(out);
            },
            Err(e) => {
                self.phase = Phase::Finished;
                self.code = 1;
                log(out, "config error: ".to_owned().concat(e.as_str()));
                assert(self@ =~= begin(r).0);
                assert(acts(out@) =~= before + begin(r).1);
            },
        }
    }

    fn request(&self) -> (r: Request)
        requires
            self.wf(),
        ensures
            r@ == asking(self@),
    {
        match self.phase {
            Phase::Idle => Request::Begin,
            Phase::Gating => Request::Receive,
            Phase::Spawning => Request::Spawn(self.order[self.started].clone()),
            Phase::Supervising => Request::Receive,
            Phase::Testing => Request::RunTest,
            Phase::Grace | Phase::Draining => Request::ReceiveTimed(LOOK_MILLIS),
            Phase::Surveying | Phase::GraceCheck | Phase::Forcing | Phase::DrainCheck => {
                match self.procs.get(self.checks[0].as_str()) {
                    Some(h) => Request::Alive(h.pgid),
                    None => Request::Begin,
                }
            },
            Phase::Finished => Request::Exit(self.code),
        }
    }

    /// Carries the run on by one input: what to do about it, and what to come back with. The
    /// run starts with `Input::Begin` and is over when it asks to exit.
    pub fn run(&mut self, input: Input) -> (r: Step)
        requires
            old(self).wf(),
        ensures
            final(self).wf(),
            final(self)@ == next(old(self)@, input@).0,
            acts(r.effects@) == next(old(self)@, input@).1,
            r.request@ == asking(final(self)@),
    {
        let mut out: Vec<Effect> = Vec::new();
        assert(acts(out@) =~= Seq::<Act>::empty());
        match input {
            Input::Begin => {
                if self.phase == Phase::Idle {
                    self.begin(&mut out);
                }
            },
            Input::Event(ev) => match self.phase {
                Phase::Gating | Phase::Supervising | Phase::Testing => {
                    self.on_event(ev, &mut out);
                },
                Phase::Grace | Phase::Draining => {
                    self.ending(ev);
                },
                _ => {},
            },
            Input::Spawned(pid) => {
                if self.phase == Phase::Spawning {
                    self.on_spawned(pid, &mut out);
                }
            },
            Input::SpawnFailed(e) => {
                if self.phase == Phase::Spawning {
                    let shown = debug_text(self.order[self.started].as_str());
                    self.stop(start_failure_line(shown.as_str(), e.as_str()), 1, &mut out);
                }
            },
            Input::Alive(there) => match self.phase {
                Phase::Surveying => {
                    self.on_survey(there, &mut out);
                },
                Phase::GraceCheck | Phase::DrainCheck => {
                    self.on_look(there, &mut out);
                },
                Phase::Forcing => {
                    self.on_strike(there, &mut out);
                },
                _ => {},
            },
            Input::Paused => {
                if self.phase == Phase::Grace || self.phase == Phase::Draining {
                    let names = self.leaderless();
                    assert(views(names@).len() == names@.len());
                    if names.len() > 0 {
                        self.look(names);
                    }
                }
            },
            Input::TimedOut => match self.phase {
                Phase::Grace => {
                    self.force_remaining(&mut out);
                },
                Phase::Draining => {
                    self.finish(&mut out);
                },
                _ => {},
            },
            Input::TestExited(code) => {
                let status: i32 = match code {
                    Some(c) => c,
                    None => 1,
                };
                self.on_test_exit(status, &mut out);
            },
        }
        assert(acts(out@) =~= next(old(self)@, input@).1);
        Step { effects: out, request: self.request() }
    }

    /// Begins a run of the processes of `order`, with a test command to be run as soon as all of
    /// them are ready. Everything that follows goes through `run`.
    pub fn run_test(&mut self, order: Vec<String>) -> (r: Step)
        requires
            old(self).wf(),
            old(self)@.phase == Phase::Idle,
            forall|i: int|
                0 <= i < order@.len() ==> old(self)@.defs.contains_key(#[trigger] order@[i]@),
        ensures
            final(self).wf(),
            final(self)@ == next(old(self)@, In::BeginTest(views(order@))).0,
            acts(r.effects@) == next(old(self)@, In::BeginTest(views(order@))).1,
            r.request@ == asking(final(self)@),
    {
        let mut out: Vec<Effect> = Vec::new();
        assert(acts(out@) =~= Seq::<Act>::empty());
        let ghost o = views(order@);
        self.order = order;
        self.test = true;
        assert(self@ =~= (Run { order: o, test: true, ..old(self)@ }));
        self.gate(&mut out);
        assert(acts(out@) =~= begin_test(old(self)@, o).1);
        Step { effects: out, request: self.request() }
    }
}

/// What a run is told, and what it answers, is what the model hears and says: no event, input,
/// effect or request stands for another one.
pub proof fn law_inputs_and_effects_stand_for_themselves(
    ev: Event,
    i: Input,
    e: Effect,
    q: Request,
    effects: Seq<Effect>,
)
    ensures
        match ev {
            Event::Healthy(n) => ev@ == Ev::Healthy(n@),
            Event::HealthFailed(n, why) => ev@ == Ev::HealthFailed(n@, why@),
            Event::Exited { name, success, desc } => ev@ == (Ev::Exited {
                name: name@,
                success,
                desc: desc@,
            }),
            Event::Signal => ev@ == Ev::Signal,
        },
        match i {
            Input::Begin => i@ == In::Begin,
            Input::Event(x) => i@ == In::Event(x@),
            Input::Spawned(pid) => i@ == In::Spawned(pid),
            Input::SpawnFailed(why) => i@ == In::SpawnFailed(why@),
            Input::Alive(there) => i@ == In::Alive(there),
            Input::Paused => i@ == In::Paused,
            Input::TimedOut => i@ == In::TimedOut,
            Input::TestExited(code) => i@ == In::TestExited(code),
        },
        match e {
            Effect::Log(t) => e@ == Act::Log(t@),
            Effect::Record { name, pid, pgid } => e@ == (Act::Record { name: name@, pid, pgid }),
            Effect::Forget(n) => e@ == Act::Forget(n@),
            Effect::Stream(n) => e@ == Act::Stream(n@),
            Effect::Watch(n) => e@ == Act::Watch(n@),
            Effect::Reap(n) => e@ == Act::Reap(n@),
            Effect::CancelProbes => e@ == Act::CancelProbes,
            Effect::Kill { pgid, signal } => e@ == (Act::Kill { pgid, signal }),
            Effect::SignalTest(signal) => e@ == Act::SignalTest(signal),
            Effect::StartTimer(seconds) => e@ == Act::StartTimer(seconds),
            Effect::ClearState => e@ == Act::ClearState,
        },
        match q {
            Request::Begin => q@ == Ask::Begin,
            Request::Receive => q@ == Ask::Receive,
            Request::ReceiveTimed(millis) => q@ == Ask::ReceiveTimed(millis),
            Request::Alive(pgid) => q@ == Ask::Alive(pgid),
            Request::Spawn(n) => q@ == Ask::Spawn(n@),
            Request::RunTest => q@ == Ask::RunTest,
            Request::Exit(code) => q@ == Ask::Exit(code),
        },
        acts(effects).len() == effects.len(),
        forall|k: int| 0 <= k < effects.len() ==> #[trigger] acts(effects)[k] == effects[k]@,
{
}

/// Going on with the startup leads to the same, whatever phase it comes from.
proof fn lemma_gate_sets_the_phase(r: Run, phase: Phase)
    ensures
        gate(Run { phase, ..r }) == gate(r),
{
    let s = Run { phase, ..r };
    assert((|n: Text| s.handles[n].exited && !completed(s, n)) =~= (|n: Text|
        r.handles[n].exited && !completed(r, n)));
    assert(doubtful(s) == doubtful(r));
    let a = Run { code: 1, checks: doubtful(r), headless: Set::empty(), ..r };
    let b = Run { code: 1, checks: doubtful(r), headless: Set::empty(), ..s };
    assert(live(a) == live(b)) by {
        assert((|n: Text| !a.handles[n].exited || a.headless.contains(n)) =~= (|n: Text|
            !b.handles[n].exited || b.headless.contains(n)));
    }
    assert(live(a).map_values(|n: Text| ask_to_stop(a, n)) =~= live(b).map_values(
        |n: Text| ask_to_stop(b, n),
    ));
    assert(ask_all(a) == ask_all(b));
    assert(shut_down(s, 1) == shut_down(r, 1));
}

proof fn lemma_first_unready_stays(deps: Seq<Text>, healthy: Set<Text>, k: int)
    requires
        0 <= k <= deps.len(),
        first_unready(deps.take(k), healthy) is Some,
    ensures
        first_unready(deps, healthy) == first_unready(deps.take(k), healthy),
    decreases deps.len() - k,
{
    if k < deps.len() {
        assert(deps.take(k + 1).drop_last() =~= deps.take(k));
        lemma_first_unready_stays(deps, healthy, k + 1);
    } else {
        assert(deps.take(k) =~= deps);
    }
}

} // verus!
