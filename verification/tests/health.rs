use nix_process::config::{HealthCheck, Process};
use nix_process::health::{
    command_verdict, health_event, http_request, http_text_verdict, http_verdict, parse_http_url,
    probe, split_http_url, wait_healthy, HealthOutcome, HealthWait, HttpError, HttpTarget, Probe,
    UrlError, WaitStart, WaitStep, WaitVerdict, SLICE_MILLIS,
};
use nix_process::names::NameMap;
use nix_process::number::IntError;
use nix_process::supervisor::Event;

fn check() -> HealthCheck {
    HealthCheck {
        tcp_port: None,
        http: None,
        command: None,
        timeout_seconds: None,
        interval_seconds: None,
    }
}

fn process(health_check: Option<HealthCheck>) -> Process {
    Process {
        name: "web".to_string(),
        command: "run".to_string(),
        cwd: None,
        env: NameMap::new(),
        depends_on: Vec::new(),
        oneshot: false,
        shutdown_signal: None,
        health_check,
    }
}

#[test]
fn first_probe_that_is_set_is_taken() {
    let mut hc = check();
    assert_eq!(probe(&hc), Probe::Ready);
    hc.command = Some("true".to_string());
    assert_eq!(probe(&hc), Probe::Command("true".to_string()));
    hc.http = Some("http://x/".to_string());
    assert_eq!(probe(&hc), Probe::Http("http://x/".to_string()));
    hc.tcp_port = Some(3000);
    assert_eq!(probe(&hc), Probe::Tcp(3000));
}

#[test]
fn command_has_to_succeed() {
    assert_eq!(command_verdict(true, "exit status: 0"), Ok(()));
    assert_eq!(
        command_verdict(false, "exit status: 3"),
        Err("command exited with exit status: 3".to_string())
    );
}

#[test]
fn no_health_check_means_ready_at_once() {
    match wait_healthy(&process(None)) {
        WaitStart::Over(outcome) => assert_eq!(outcome, HealthOutcome::Healthy),
        WaitStart::Wait(_) => panic!("nothing to wait for"),
    }
    match wait_healthy(&process(Some(check()))) {
        WaitStart::Wait(w) => {
            assert!(!w.expired(59_999));
            assert!(w.expired(60_000));
        }
        WaitStart::Over(outcome) => panic!("{:?}", outcome),
    }
}

#[test]
fn attempts_lie_an_interval_apart() {
    let mut hc = check();
    hc.interval_seconds = Some(2);
    let mut w = HealthWait::new(&hc);
    assert_eq!(w.poll(false), WaitStep::Probe);
    assert_eq!(w.probed(Err("refused".to_string()), 59_999), WaitVerdict::Retry);
    for _ in 0..20 {
        assert_eq!(w.poll(false), WaitStep::Pause);
    }
    assert_eq!(w.poll(false), WaitStep::Probe);
    assert_eq!(w.probed(Ok(()), 60_000), WaitVerdict::Healthy);
    assert_eq!(SLICE_MILLIS, 100);
}

#[test]
fn interval_is_one_second_at_least() {
    for interval in [None, Some(0), Some(1)] {
        let mut hc = check();
        hc.interval_seconds = interval;
        let mut w = HealthWait::new(&hc);
        assert_eq!(w.probed(Err("no".to_string()), 0), WaitVerdict::Retry);
        for _ in 0..10 {
            assert_eq!(w.poll(false), WaitStep::Pause);
        }
        assert_eq!(w.poll(false), WaitStep::Probe);
    }
}

#[test]
fn cancelling_is_noticed_at_once() {
    let mut w = HealthWait::new(&check());
    assert_eq!(w.poll(true), WaitStep::Cancelled);
    assert_eq!(w.probed(Err("no".to_string()), 0), WaitVerdict::Retry);
    assert_eq!(w.poll(true), WaitStep::Cancelled);
}

#[test]
fn failure_behind_the_deadline_is_the_last() {
    let mut hc = check();
    hc.timeout_seconds = Some(5);
    let mut w = HealthWait::new(&hc);
    assert!(!w.expired(4_999));
    assert!(w.expired(5_000));
    assert_eq!(w.probed(Err("early".to_string()), 4_999), WaitVerdict::Retry);
    assert_eq!(
        w.probed(Err("refused".to_string()), 5_000),
        WaitVerdict::TimedOut(
            "health check timed out after 5s (last error: refused)".to_string()
        )
    );
}

#[test]
fn end_of_a_wait_is_reported() {
    assert_eq!(
        health_event("a".to_string(), HealthOutcome::Healthy),
        Some(Event::Healthy("a".to_string()))
    );
    assert_eq!(health_event("a".to_string(), HealthOutcome::Cancelled), None);
    assert_eq!(
        health_event("a".to_string(), HealthOutcome::Failed("e".to_string())),
        Some(Event::HealthFailed("a".to_string(), "e".to_string()))
    );
}

fn target(host: &str, port: u16, path: &str) -> HttpTarget {
    HttpTarget { host: host.to_string(), port, path: path.to_string() }
}

#[test]
fn urls_are_taken_apart() {
    let good = [
        ("http://127.0.0.1:3000/health", target("127.0.0.1", 3000, "/health")),
        ("http://localhost", target("localhost", 80, "/")),
        ("http://localhost/a:b/c", target("localhost", 80, "/a:b/c")),
        ("http://[::1]:8080", target("[::1]", 8080, "/")),
        ("http://", target("", 80, "/")),
        ("http://h:+1/", target("h", 1, "/")),
        ("http:///x", target("", 80, "/x")),
    ];
    for (url, t) in good {
        assert_eq!(split_http_url(url).as_ref(), Ok(&t));
        assert_eq!(parse_http_url(url), Ok(t));
    }
}

#[test]
fn bad_urls_are_refused() {
    assert_eq!(
        parse_http_url("https://\"x\""),
        Err("http probe only supports http:// URLs, got \"https://\\\"x\\\"\"".to_string())
    );
    assert_eq!(split_http_url("HTTP://x"), Err(UrlError::Scheme));
    assert_eq!(split_http_url("http://h:/"), Err(UrlError::Port(IntError::Empty)));
    assert_eq!(
        parse_http_url("http://h:/"),
        Err("cannot parse integer from empty string".to_string())
    );
    assert_eq!(
        parse_http_url("http://h:65536"),
        Err("number too large to fit in target type".to_string())
    );
    assert_eq!(
        parse_http_url("http://h:8o/"),
        Err("invalid digit found in string".to_string())
    );
    assert_eq!(
        UrlError::Scheme.message_showing("<u>"),
        "http probe only supports http:// URLs, got <u>"
    );
}

#[test]
fn request_names_path_and_host() {
    assert_eq!(
        http_request(&target("localhost", 80, "/health")),
        "GET /health HTTP/1.0\r\nHost: localhost\r\nConnection: close\r\n\r\n"
    );
}

#[test]
fn statuses_below_400_are_good() {
    for ok in ["HTTP/1.1 200 OK\r\n\r\n", "HTTP/1.0 399", "x 0", "HTTP/1.1  +204 \nbody"] {
        assert_eq!(http_verdict(ok.as_bytes()), Ok(()));
        assert_eq!(http_text_verdict(ok), Ok(()));
    }
    assert_eq!(http_verdict(b"HTTP/1.1 404 Not Found\r\n"), Err("HTTP status 404".to_string()));
    assert_eq!(http_verdict(b"HTTP/1.1 400"), Err("HTTP status 400".to_string()));
    assert_eq!(http_text_verdict("HTTP/1.1 503"), Err(HttpError::Status(503)));
}

#[test]
fn responses_without_a_status_are_bad() {
    assert_eq!(http_verdict(b""), Err("bad HTTP response: \"\"".to_string()));
    assert_eq!(http_verdict(b"\r\n200"), Err("bad HTTP response: \"\"".to_string()));
    assert_eq!(
        http_verdict(b"SSH-2.0-Open\xffSSH_9\r\n"),
        Err("bad HTTP response: \"SSH-2.0-Open\u{fffd}SSH_9\"".to_string())
    );
    assert_eq!(
        http_verdict(b"HTTP/1.1 \"abc\""),
        Err("bad HTTP response: \"HTTP/1.1 \\\"abc\\\"\"".to_string())
    );
    assert_eq!(http_text_verdict("HTTP/1.1 65536"), Err(HttpError::BadResponse));
    assert_eq!(HttpError::BadResponse.message_showing("<l>"), "bad HTTP response: <l>");
}

#[test]
fn no_time_at_all_is_up_at_once() {
    let mut hc = check();
    hc.timeout_seconds = Some(0);
    assert!(HealthWait::new(&hc).expired(0));
    hc.timeout_seconds = Some(u64::MAX);
    assert!(!HealthWait::new(&hc).expired(u64::MAX as u128));
    assert!(HealthWait::new(&hc).expired(1000 * u64::MAX as u128));
}
