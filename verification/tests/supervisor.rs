use nix_process::child::{describe_status, exit_event, reaped, WaitOutcome};
use nix_process::config::{Config, Process};
use nix_process::names::NameMap;
use nix_process::run::Handle;
use nix_process::signals::{
    on_termination_signal, parse_signal, pgid_alive, NullSignal, SignalAction,
};
use nix_process::supervisor::{
    early_exit_line, start_failure_line, Control, Effect, Event, Input, Request, Step, Supervisor,
};

fn process(depends_on: &[&str], oneshot: bool, signal: Option<&str>) -> Process {
    Process {
        name: String::new(),
        command: "run".to_string(),
        cwd: None,
        env: NameMap::new(),
        depends_on: depends_on.iter().map(|d| d.to_string()).collect(),
        oneshot,
        shutdown_signal: signal.map(|s| s.to_string()),
        health_check: None,
    }
}

/// `db`, then the oneshot `migrate`, then `web`, which stops on SIGINT.
fn stack() -> Config {
    let mut m = NameMap::new();
    m.insert("db".to_string(), process(&[], false, None));
    m.insert("migrate".to_string(), process(&["db"], true, None));
    m.insert("web".to_string(), process(&["migrate"], false, Some("SIGINT")));
    Config::from_processes(m).unwrap()
}

fn log(line: &str) -> Effect {
    Effect::Log(line.to_string())
}

fn kill(pgid: i32, signal: i32) -> Effect {
    Effect::Kill { pgid, signal }
}

fn healthy(name: &str) -> Input {
    Input::Event(Event::Healthy(name.to_string()))
}

fn exited(name: &str, success: bool, desc: &str) -> Input {
    Input::Event(Event::Exited { name: name.to_string(), success, desc: desc.to_string() })
}

/// The exit of a process, behind which its group is gone.
fn goes(s: &mut Supervisor, name: &str, pgid: i32) -> Step {
    assert_eq!(
        s.run(exited(name, true, "x")),
        step(vec![], Request::Alive(pgid))
    );
    s.run(Input::Alive(false))
}

const TIMED: Request = Request::ReceiveTimed(100);

fn step(effects: Vec<Effect>, request: Request) -> Step {
    Step { effects, request }
}

fn spawn(name: &str) -> Request {
    Request::Spawn(name.to_string())
}

fn launched(name: &str, pid: i32, watched: bool) -> Vec<Effect> {
    let mut v = vec![
        Effect::Record { name: name.to_string(), pid, pgid: pid },
        Effect::Stream(name.to_string()),
    ];
    if watched {
        v.push(Effect::Watch(name.to_string()));
    }
    v.push(Effect::Reap(name.to_string()));
    v.push(log(&format!("started {name} (pgid {pid})")));
    v
}

fn with(mut effects: Vec<Effect>, more: Vec<Effect>) -> Vec<Effect> {
    effects.extend(more);
    effects
}

/// The stack with everything up and ready.
fn running() -> Supervisor {
    let mut s = Supervisor::new(stack(), 10);
    s.run(Input::Begin);
    s.run(Input::Spawned(100));
    s.run(healthy("db"));
    s.run(Input::Spawned(101));
    s.run(exited("migrate", true, "exited cleanly"));
    s.run(Input::Spawned(102));
    s.run(healthy("web"));
    s
}

#[test]
fn startup_is_gated_on_readiness() {
    let mut s = Supervisor::new(stack(), 10);
    assert_eq!(s.run(Input::Begin), step(vec![], spawn("db")));
    assert_eq!(s.run(Input::Spawned(100)), step(launched("db", 100, true), Request::Receive));
    assert_eq!(s.run(healthy("db")), step(vec![log("db is ready")], spawn("migrate")));
    assert_eq!(
        s.run(Input::Spawned(101)),
        step(launched("migrate", 101, false), Request::Receive)
    );
    assert_eq!(
        s.run(exited("migrate", true, "exited cleanly")),
        step(vec![log("migrate completed")], spawn("web"))
    );
    assert_eq!(
        s.run(Input::Spawned(102)),
        step(
            with(launched("web", 102, true), vec![log("all 3 processes started")]),
            Request::Receive
        )
    );
    assert_eq!(
        s.run(healthy("web")),
        step(vec![log("web is ready"), log("all processes ready")], Request::Receive)
    );
    assert_eq!(s.run(healthy("web")), step(vec![log("web is ready")], Request::Receive));
}

#[test]
fn processes_without_dependencies_start_at_once() {
    let mut m = NameMap::new();
    m.insert("b".to_string(), process(&[], false, None));
    m.insert("a".to_string(), process(&[], false, None));
    let mut s = Supervisor::new(Config::from_processes(m).unwrap(), 1);
    assert_eq!(s.run(Input::Begin).request, spawn("a"));
    assert_eq!(s.run(Input::Spawned(1)).request, spawn("b"));
    assert_eq!(s.run(Input::Spawned(2)).request, Request::Receive);
}

#[test]
fn signal_stops_everything_cleanly() {
    let mut s = running();
    assert_eq!(
        s.run(Input::Event(Event::Signal)),
        step(
            vec![
                log("shutting down: received termination signal"),
                Effect::CancelProbes,
                log("stopping 2 process(es), 10s grace before SIGKILL"),
                kill(100, 15),
                kill(102, 2),
                Effect::StartTimer(10),
            ],
            TIMED
        )
    );
    assert_eq!(goes(&mut s, "web", 102), step(vec![], TIMED));
    assert_eq!(s.run(Input::Event(Event::Signal)), step(vec![], TIMED));
    assert_eq!(
        goes(&mut s, "db", 100),
        step(vec![Effect::ClearState, log("all processes stopped")], Request::Exit(0))
    );
    assert_eq!(s.run(healthy("db")), step(vec![], Request::Exit(0)));
    assert_eq!(s.run(Input::Begin), step(vec![], Request::Exit(0)));
}

#[test]
fn stubborn_groups_are_killed() {
    let mut s = running();
    s.run(Input::Event(Event::Signal));
    goes(&mut s, "db", 100);
    assert_eq!(s.run(Input::TimedOut), step(vec![], Request::Alive(102)));
    assert_eq!(
        s.run(Input::Alive(true)),
        step(
            vec![log("force-killing web (pgid 102)"), kill(102, 9), Effect::StartTimer(3)],
            TIMED
        )
    );
    assert_eq!(
        s.run(Input::TimedOut),
        step(vec![Effect::ClearState, log("all processes stopped")], Request::Exit(0))
    );
}

#[test]
fn groups_that_outlive_their_leader_are_killed() {
    let mut s = running();
    s.run(Input::Event(Event::Signal));
    goes(&mut s, "web", 102);
    // The leader exits, but something else of its group ignores the signal.
    assert_eq!(
        s.run(exited("db", true, "x")),
        step(vec![], Request::Alive(100))
    );
    assert_eq!(s.run(Input::Alive(true)), step(vec![], TIMED));
    assert_eq!(s.run(Input::Paused), step(vec![], Request::Alive(100)));
    assert_eq!(s.run(Input::Alive(true)), step(vec![], TIMED));
    assert_eq!(s.run(Input::TimedOut), step(vec![], Request::Alive(100)));
    assert_eq!(
        s.run(Input::Alive(true)),
        step(
            vec![log("force-killing db (pgid 100)"), kill(100, 9), Effect::StartTimer(3)],
            TIMED
        )
    );
    assert_eq!(s.run(Input::Paused), step(vec![], Request::Alive(100)));
    assert_eq!(
        s.run(Input::Alive(false)),
        step(vec![Effect::ClearState, log("all processes stopped")], Request::Exit(0))
    );
}

#[test]
fn groups_that_go_behind_their_leader_are_noticed() {
    let mut s = running();
    s.run(Input::Event(Event::Signal));
    s.run(exited("db", true, "x"));
    s.run(Input::Alive(true));
    assert_eq!(s.run(Input::Paused), step(vec![], Request::Alive(100)));
    assert_eq!(s.run(Input::Alive(false)), step(vec![], TIMED));
    assert_eq!(s.run(Input::Paused), step(vec![], TIMED));
    assert_eq!(s.run(exited("db", true, "x")), step(vec![], TIMED));
    assert_eq!(goes(&mut s, "web", 102).request, Request::Exit(0));
}

#[test]
fn groups_that_stopped_in_time_are_not_killed() {
    let mut s = running();
    s.run(Input::Event(Event::Signal));
    assert_eq!(s.run(Input::TimedOut), step(vec![], Request::Alive(100)));
    assert_eq!(s.run(Input::Alive(false)), step(vec![], Request::Alive(102)));
    // The groups are gone; only the news of the exits is still to come.
    assert_eq!(s.run(Input::Alive(false)), step(vec![Effect::StartTimer(3)], TIMED));
    assert_eq!(goes(&mut s, "db", 100), step(vec![], TIMED));
    assert_eq!(
        goes(&mut s, "web", 102),
        step(vec![Effect::ClearState, log("all processes stopped")], Request::Exit(0))
    );
}

#[test]
fn killed_groups_are_reaped() {
    let mut s = running();
    s.run(Input::Event(Event::Signal));
    s.run(Input::TimedOut);
    assert_eq!(
        s.run(Input::Alive(true)),
        step(
            vec![log("force-killing db (pgid 100)"), kill(100, 9)],
            Request::Alive(102)
        )
    );
    s.run(Input::Alive(true));
    assert_eq!(goes(&mut s, "db", 100), step(vec![], TIMED));
    assert_eq!(
        goes(&mut s, "web", 102),
        step(vec![Effect::ClearState, log("all processes stopped")], Request::Exit(0))
    );
}

#[test]
fn second_signal_kills_every_group() {
    let s = running();
    assert_eq!(
        s.force_stop(),
        step(
            vec![
                log("second signal — force-killing all process groups"),
                kill(100, 9),
                kill(101, 9),
                kill(102, 9),
                Effect::ClearState,
            ],
            Request::Exit(130)
        )
    );
    assert_eq!(
        Supervisor::new(stack(), 1).force_stop(),
        step(
            vec![
                log("second signal — force-killing all process groups"),
                Effect::ClearState,
            ],
            Request::Exit(130)
        )
    );
}

#[test]
fn unexpected_exit_brings_everything_down() {
    let mut s = running();
    assert_eq!(
        s.run(exited("db", true, "exited cleanly")),
        step(
            vec![
                log("db exited (exited cleanly)"),
                log("shutting down: db exited unexpectedly"),
                Effect::CancelProbes,
            ],
            Request::Alive(100)
        )
    );
    assert_eq!(
        s.run(Input::Alive(false)),
        step(
            vec![
                log("stopping 1 process(es), 10s grace before SIGKILL"),
                kill(102, 2),
                Effect::StartTimer(10),
            ],
            TIMED
        )
    );
    assert_eq!(goes(&mut s, "web", 102).request, Request::Exit(1));
}

#[test]
fn what_a_crashed_process_left_behind_is_torn_down() {
    let mut s = running();
    s.run(exited("db", false, "killed by signal 11"));
    assert_eq!(
        s.run(Input::Alive(true)),
        step(
            vec![
                log("stopping 2 process(es), 10s grace before SIGKILL"),
                kill(100, 15),
                kill(102, 2),
                Effect::StartTimer(10),
            ],
            TIMED
        )
    );
    goes(&mut s, "web", 102);
    s.run(Input::TimedOut);
    assert_eq!(
        s.run(Input::Alive(true)).effects,
        vec![log("force-killing db (pgid 100)"), kill(100, 9), Effect::StartTimer(3)]
    );
    s.run(Input::Paused);
    assert_eq!(s.run(Input::Alive(false)).request, Request::Exit(1));
}

#[test]
fn failed_oneshot_is_fatal() {
    let mut s = Supervisor::new(stack(), 7);
    s.run(Input::Begin);
    s.run(Input::Spawned(100));
    s.run(healthy("db"));
    s.run(Input::Spawned(101));
    assert_eq!(
        s.run(exited("migrate", false, "exit code 3")),
        step(
            vec![
                log("migrate failed (exit code 3)"),
                log("aborting startup: oneshot migrate failed"),
                Effect::CancelProbes,
            ],
            Request::Alive(101)
        )
    );
    assert_eq!(
        s.run(Input::Alive(false)),
        step(
            vec![
                log("stopping 1 process(es), 7s grace before SIGKILL"),
                kill(100, 15),
                Effect::StartTimer(7),
            ],
            TIMED
        )
    );
    assert_eq!(goes(&mut s, "db", 100).request, Request::Exit(1));
}

#[test]
fn failed_health_check_is_fatal() {
    let mut s = running();
    let st = s.run(Input::Event(Event::HealthFailed("web".to_string(), "refused".to_string())));
    assert_eq!(st.effects[0], log("web health check failed: refused"));
    assert_eq!(st.effects[1], log("shutting down: web failed its health check"));
    goes(&mut s, "web", 102);
    assert_eq!(goes(&mut s, "db", 100).request, Request::Exit(1));
}

#[test]
fn exit_of_the_last_process_ends_the_run() {
    let mut m = NameMap::new();
    m.insert("a".to_string(), process(&[], false, None));
    let mut s = Supervisor::new(Config::from_processes(m).unwrap(), 5);
    s.run(Input::Begin);
    s.run(Input::Spawned(9));
    assert_eq!(
        s.run(exited("a", false, "killed by signal 11")),
        step(
            vec![
                log("a exited (killed by signal 11)"),
                log("shutting down: a exited unexpectedly"),
                Effect::CancelProbes,
            ],
            Request::Alive(9)
        )
    );
    assert_eq!(
        s.run(Input::Alive(false)),
        step(vec![Effect::ClearState], Request::Exit(1))
    );
}

#[test]
fn failed_dependency_aborts_the_startup() {
    let mut m = NameMap::new();
    m.insert("a".to_string(), process(&[], true, None));
    m.insert("b".to_string(), process(&["a"], false, None));
    let mut s = Supervisor::new(Config::from_processes(m).unwrap(), 5);
    s.run(Input::Begin);
    s.run(Input::Spawned(9));
    assert_eq!(
        s.run(exited("a", false, "exit code 1")),
        step(
            vec![
                log("a failed (exit code 1)"),
                log("aborting startup: oneshot a failed"),
                Effect::CancelProbes,
            ],
            Request::Alive(9)
        )
    );
    assert_eq!(
        s.run(Input::Alive(false)),
        step(vec![Effect::ClearState], Request::Exit(1))
    );
}

#[test]
fn early_exit_has_its_line() {
    assert_eq!(
        early_exit_line("\"a\""),
        "\"a\" exited before becoming healthy; aborting startup"
    );
}

#[test]
fn process_that_does_not_start_aborts_the_startup() {
    let mut m = NameMap::new();
    m.insert("q\"".to_string(), process(&[], false, None));
    let mut s = Supervisor::new(Config::from_processes(m).unwrap(), 5);
    s.run(Input::Begin);
    assert_eq!(
        s.run(Input::SpawnFailed("No such file".to_string())),
        step(
            vec![
                log("failed to start \"q\\\"\": No such file"),
                Effect::CancelProbes,
                Effect::ClearState,
            ],
            Request::Exit(1)
        )
    );
    assert_eq!(start_failure_line("<q>", "e"), "failed to start <q>: e");
}

#[test]
fn signal_during_startup_stops_it() {
    let mut s = Supervisor::new(stack(), 10);
    s.run(Input::Begin);
    s.run(Input::Spawned(100));
    let st = s.run(Input::Event(Event::Signal));
    assert_eq!(st.effects[0], log("aborting startup: received termination signal"));
    assert_eq!(goes(&mut s, "db", 100).request, Request::Exit(0));
}

#[test]
fn inputs_that_were_not_asked_for_change_nothing() {
    let mut s = Supervisor::new(stack(), 10);
    assert_eq!(s.run(healthy("db")), step(vec![], Request::Begin));
    s.run(Input::Begin);
    assert_eq!(s.run(Input::TimedOut), step(vec![], spawn("db")));
    assert_eq!(s.run(Input::TestExited(Some(0))), step(vec![], spawn("db")));
}

#[test]
fn test_runs_once_its_services_are_ready() {
    let mut s = Supervisor::new(stack(), 4);
    assert_eq!(
        s.run_test(vec!["db".to_string(), "migrate".to_string()]),
        step(vec![], spawn("db"))
    );
    s.run(Input::Spawned(100));
    s.run(healthy("db"));
    assert_eq!(
        s.run(Input::Spawned(101)),
        step(
            with(launched("migrate", 101, false), vec![log("all 2 processes started")]),
            Request::Receive
        )
    );
    assert_eq!(
        s.run(exited("migrate", true, "x")),
        step(
            vec![log("migrate completed"), log("all processes ready")],
            Request::RunTest
        )
    );
    assert_eq!(
        s.run(Input::TestExited(Some(42))),
        step(
            vec![
                Effect::CancelProbes,
                log("stopping 1 process(es), 4s grace before SIGKILL"),
                kill(100, 15),
                Effect::StartTimer(4),
            ],
            TIMED
        )
    );
    assert_eq!(goes(&mut s, "db", 100).request, Request::Exit(42));
}

/// A test of `db` whose command is running.
fn under_test() -> Supervisor {
    let mut s = Supervisor::new(stack(), 4);
    s.run_test(vec!["db".to_string()]);
    s.run(Input::Spawned(100));
    assert_eq!(s.run(healthy("db")).request, Request::RunTest);
    s
}

#[test]
fn signal_during_a_test_stops_everything() {
    let mut s = under_test();
    assert_eq!(
        s.run(Input::Event(Event::Signal)),
        step(
            vec![
                log("shutting down: received termination signal"),
                Effect::CancelProbes,
                Effect::SignalTest(15),
                log("stopping 1 process(es), 4s grace before SIGKILL"),
                kill(100, 15),
                Effect::StartTimer(4),
            ],
            TIMED
        )
    );
    assert_eq!(goes(&mut s, "db", 100), step(vec![], TIMED));
    assert_eq!(
        s.run(Input::TestExited(Some(7))),
        step(vec![Effect::ClearState, log("all processes stopped")], Request::Exit(0))
    );
}

#[test]
fn exit_of_a_service_during_a_test_brings_everything_down() {
    let mut s = under_test();
    assert_eq!(
        s.run(exited("db", false, "exit code 1")),
        step(
            vec![
                log("db exited (exit code 1)"),
                log("shutting down: db exited unexpectedly"),
                Effect::CancelProbes,
                Effect::SignalTest(15),
            ],
            Request::Alive(100)
        )
    );
    assert_eq!(
        s.run(Input::Alive(false)),
        step(
            vec![
                log("stopping 0 process(es), 4s grace before SIGKILL"),
                Effect::StartTimer(4),
            ],
            TIMED
        )
    );
    assert_eq!(s.run(Input::Paused), step(vec![], TIMED));
    assert_eq!(s.run(Input::TestExited(None)).request, Request::Exit(1));
}

#[test]
fn stubborn_test_command_is_killed() {
    let mut s = under_test();
    s.run(Input::Event(Event::Signal));
    assert_eq!(
        s.run(Input::TimedOut),
        step(vec![Effect::SignalTest(9)], Request::Alive(100))
    );
    s.run(Input::Alive(true));
    assert_eq!(goes(&mut s, "db", 100), step(vec![], TIMED));
    assert_eq!(s.run(Input::TimedOut).request, Request::Exit(0));

    let mut s = under_test();
    s.run(Input::Event(Event::Signal));
    goes(&mut s, "db", 100);
    assert_eq!(
        s.run(Input::TimedOut),
        step(vec![Effect::SignalTest(9), Effect::StartTimer(3)], TIMED)
    );
    assert_eq!(s.run(Input::TestExited(None)).request, Request::Exit(0));
}

#[test]
fn test_without_services_runs_at_once() {
    let mut s = Supervisor::new(stack(), 4);
    assert_eq!(
        s.run_test(Vec::new()),
        step(vec![log("all 0 processes started"), log("all processes ready")], Request::RunTest)
    );
    assert_eq!(
        s.run(Input::TestExited(None)),
        step(vec![Effect::CancelProbes, Effect::ClearState], Request::Exit(1))
    );
}

#[test]
fn handles_list_what_was_started() {
    let s = running();
    assert_eq!(
        s.handles().get("web"),
        Some(&Handle { pgid: 102, shutdown_signal: 2, exited: false })
    );
    assert!(s.handles().get("migrate").unwrap().exited);
    assert!(s.process("web").is_some());
    assert!(s.process("nope").is_none());
}

#[test]
fn events_are_applied_one_by_one() {
    let mut s = running();
    assert_eq!(
        s.apply(Event::Healthy("db".to_string())),
        (Some("db is ready".to_string()), Control::Continue)
    );
    assert_eq!(
        s.apply(Event::Signal),
        (
            None,
            Control::Stop { reason: "received termination signal".to_string(), code: 0 }
        )
    );
    assert_eq!(
        s.apply(Event::Exited {
            name: "unknown".to_string(),
            success: true,
            desc: "d".to_string()
        }),
        (
            Some("unknown exited (d)".to_string()),
            Control::Stop { reason: "unknown exited unexpectedly".to_string(), code: 1 }
        )
    );
}

#[test]
fn signal_names_have_numbers() {
    for (name, number) in [
        ("SIGINT", libc::SIGINT),
        ("INT", libc::SIGINT),
        ("SIGKILL", libc::SIGKILL),
        ("KILL", libc::SIGKILL),
        ("SIGQUIT", libc::SIGQUIT),
        ("QUIT", libc::SIGQUIT),
        ("SIGHUP", libc::SIGHUP),
        ("HUP", libc::SIGHUP),
        ("SIGTERM", libc::SIGTERM),
        ("TERM", libc::SIGTERM),
        ("SIGUSR1", libc::SIGTERM),
        ("int", libc::SIGTERM),
        ("", libc::SIGTERM),
    ] {
        assert_eq!(parse_signal(Some(name)), number);
    }
    assert_eq!(parse_signal(None), 15);
    assert_eq!(
        [
            parse_signal(Some("HUP")),
            parse_signal(Some("INT")),
            parse_signal(Some("QUIT")),
            parse_signal(Some("KILL")),
        ],
        [1, 2, 3, 9]
    );
}

#[test]
fn second_signal_forces() {
    assert_eq!(on_termination_signal(0), SignalAction::ShutDown);
    assert_eq!(on_termination_signal(1), SignalAction::ForceStop);
    assert_eq!(on_termination_signal(7), SignalAction::ForceStop);
}

#[test]
fn groups_that_may_not_be_signalled_exist() {
    assert!(pgid_alive(NullSignal::Sent));
    assert!(pgid_alive(NullSignal::Denied));
    assert!(!pgid_alive(NullSignal::Failed));
}

#[test]
fn exits_are_described() {
    assert_eq!(describe_status(Some(0), None), "exited cleanly");
    assert_eq!(describe_status(Some(3), None), "exit code 3");
    assert_eq!(describe_status(Some(-1), None), "exit code -1");
    assert_eq!(describe_status(None, Some(9)), "killed by signal 9");
    assert_eq!(describe_status(None, None), "terminated");
}

#[test]
fn exits_are_reported() {
    let event = |success: bool, desc: &str| Event::Exited {
        name: "a".to_string(),
        success,
        desc: desc.to_string(),
    };
    let ended = |code, signal| {
        exit_event("a".to_string(), WaitOutcome::Ended { code, signal })
    };
    assert_eq!(ended(Some(0), None), event(true, "exited cleanly"));
    assert_eq!(ended(Some(1), None), event(false, "exit code 1"));
    assert_eq!(ended(None, Some(15)), event(false, "killed by signal 15"));
    assert_eq!(
        exit_event("a".to_string(), WaitOutcome::Failed("gone".to_string())),
        event(false, "wait failed: gone")
    );
    assert_eq!(
        reaped("a".to_string(), WaitOutcome::Ended { code: Some(2), signal: None }),
        (Effect::Forget("a".to_string()), event(false, "exit code 2"))
    );
}
