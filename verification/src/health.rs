//! Readiness probes: which probe a health check asks for, when to run it, and what its answer
//! means.

use vstd::prelude::*;
use vstd::string::*;

use crate::config::{HealthCheck, Process};
use crate::number::{decimal, decimal_text, parse_unsigned, read_unsigned, IntError};
use crate::run::Ev;
use crate::supervisor::Event;
use crate::text::{
    after_prefix, chars_of, debug_form, debug_text, find_first, find_last, first_index, first_line,
    has_prefix, is_space, last_index, law_searching_finds_both_ends, law_words_stand_between_whitespace,
    line_one, lossy_form, nth_word, reads_plainly, text_of, word_at, Text,
};

verus! {

// ---------------------------------------------------------------------------
// Choosing a probe
// ---------------------------------------------------------------------------

/// A single attempt to find out whether a process is ready.
#[derive(Debug, PartialEq, Eq)]
pub enum Probe {
    /// Connect to the port on 127.0.0.1.
    Tcp(u16),
    /// Get the URL.
    Http(String),
    /// Run the command.
    Command(String),
    /// Nothing to try: the process is ready.
    Ready,
}

/// The model of a probe.
pub enum ProbeKind {
    Tcp(u16),
    Http(Text),
    Command(Text),
    Ready,
}

impl View for Probe {
    type V = ProbeKind;

    open spec fn view(&self) -> ProbeKind {
        match self {
            Probe::Tcp(p) => ProbeKind::Tcp(*p),
            Probe::Http(u) => ProbeKind::Http(u@),
            Probe::Command(c) => ProbeKind::Command(c@),
            Probe::Ready => ProbeKind::Ready,
        }
    }
}

/// The probe that a health check asks for: its port, else its URL, else its command.
pub open spec fn probe_of(hc: HealthCheck) -> ProbeKind {
    match (hc.tcp_port, hc.http, hc.command) {
        (Some(p), _, _) => ProbeKind::Tcp(p),
        (None, Some(u), _) => ProbeKind::Http(u@),
        (None, None, Some(c)) => ProbeKind::Command(c@),
        (None, None, None) => ProbeKind::Ready,
    }
}

/// The probe to run for a health check. One that sets nothing counts as passed.
pub fn probe(hc: &HealthCheck) -> (r: Probe)
    ensures
        r@ == probe_of(*hc),
        hc.tcp_port is Some ==> r == Probe::Tcp(hc.tcp_port->Some_0),
        hc.tcp_port is None && hc.http is Some ==> r is Http && r->Http_0@ == hc.http->Some_0@,
        hc.tcp_port is None && hc.http is None && hc.command is Some ==> r is Command
            && r->Command_0@ == hc.command->Some_0@,
        r is Ready <==> hc.tcp_port is None && hc.http is None && hc.command is None,
{
    if let Some(port) = hc.tcp_port {
        return Probe::Tcp(port);
    }
    if let Some(url) = &hc.http {
        return Probe::Http(url.clone());
    }
    if let Some(cmd) = &hc.command {
        return Probe::Command(cmd.clone());
    }
    Probe::Ready
}

/// What the exit of a probe command means; `status` describes it.
pub fn command_verdict(success: bool, status: &str) -> (r: Result<(), String>)
    ensures
        match r {
            Ok(_) => success,
            Err(e) => !success && e@ == "command exited with "@ + status@,
        },
{
    if success {
        Ok(())
    } else {
        Err("command exited with ".to_owned().concat(status))
    }
}

// ---------------------------------------------------------------------------
// Waiting
// ---------------------------------------------------------------------------

/// Pauses of a tenth of a second in one second.
pub const SLICES_PER_SECOND: u128 = 10;

/// The length of one pause in milliseconds.
pub const SLICE_MILLIS: u64 = 100;

/// The seconds for which a health check may go on failing.
pub open spec fn timeout_of(hc: HealthCheck) -> u64 {
    match hc.timeout_seconds {
        Some(t) => t,
        None => 60,
    }
}

/// The seconds between two attempts: one at least.
pub open spec fn interval_of(hc: HealthCheck) -> u64 {
    match hc.interval_seconds {
        Some(0) => 1,
        Some(i) => i,
        None => 1,
    }
}

/// A wait for a process to become healthy.
pub struct HealthWait {
    timeout_seconds: u64,
    interval_seconds: u64,
    slices_left: u128,
}

/// The model of a wait: its limits, and how many pauses are left before the next attempt.
#[verifier::ext_equal]
pub struct Waiting {
    pub timeout: u64,
    pub interval: u64,
    pub pauses: nat,
}

/// What a wait does next.
#[derive(Clone, Copy, Debug, PartialEq, Eq, Structural)]
pub enum WaitStep {
    /// Give up, because the wait has been cancelled.
    Cancelled,
    /// Run the probe.
    Probe,
    /// Pause for a tenth of a second.
    Pause,
}

/// What the answer of a probe means to a wait.
#[derive(Debug, PartialEq, Eq)]
pub enum WaitVerdict {
    /// The process is healthy.
    Healthy,
    /// The time is up.
    TimedOut(String),
    /// Go on.
    Retry,
}

/// The message for a health check that ran out of time.
pub open spec fn timeout_says(timeout: u64, last: Text) -> Text {
    "health check timed out after "@ + decimal(timeout as nat) + "s (last error: "@ + last + ")"@
}

/// What a wait does when it is asked: it notices that it has been cancelled, probes when no
/// pause is left, and pauses otherwise.
pub open spec fn polled(w: Waiting, cancelled: bool) -> (Waiting, WaitStep) {
    if cancelled {
        (w, WaitStep::Cancelled)
    } else if w.pauses == 0 {
        (w, WaitStep::Probe)
    } else {
        (Waiting { pauses: (w.pauses - 1) as nat, ..w }, WaitStep::Pause)
    }
}

/// Whether the time of a wait is up, so many milliseconds after it began.
pub open spec fn expired_after(w: Waiting, elapsed_millis: nat) -> bool {
    elapsed_millis >= 1000 * w.timeout
}

/// The wait after a failed attempt that was not the last.
pub open spec fn retried(w: Waiting) -> Waiting {
    Waiting { pauses: (10 * w.interval) as nat, ..w }
}

impl View for HealthWait {
    type V = Waiting;

    closed spec fn view(&self) -> Waiting {
        Waiting {
            timeout: self.timeout_seconds,
            interval: self.interval_seconds,
            pauses: self.slices_left as nat,
        }
    }
}

impl HealthWait {
    /// A wait that probes at once.
    pub fn new(hc: &HealthCheck) -> (r: HealthWait)
        ensures
            r@ == (Waiting { timeout: timeout_of(*hc), interval: interval_of(*hc), pauses: 0 }),
            r@.pauses == 0,
            r@.timeout == (if hc.timeout_seconds is Some {
                hc.timeout_seconds->Some_0
            } else {
                60
            }),
            r@.interval == (if hc.interval_seconds is Some && hc.interval_seconds->Some_0 >= 1 {
                hc.interval_seconds->Some_0
            } else {
                1
            }),
    {
        let timeout_seconds: u64 = match hc.timeout_seconds {
            Some(t) => t,
            None => 60,
        };
        let interval_seconds: u64 = match hc.interval_seconds {
            Some(0) => 1,
            Some(i) => i,
            None => 1,
        };
        HealthWait { timeout_seconds, interval_seconds, slices_left: 0 }
    }

    /// What to do next.
    pub fn poll(&mut self, cancelled: bool) -> (r: WaitStep)
        ensures
            (final(self)@, r) == polled(old(self)@, cancelled),
            r == WaitStep::Cancelled <==> cancelled,
            r == WaitStep::Probe <==> !cancelled && old(self)@.pauses == 0,
            final(self)@.timeout == old(self)@.timeout,
            final(self)@.interval == old(self)@.interval,
            final(self)@.pauses == old(self)@.pauses - (if r == WaitStep::Pause {
                1int
            } else {
                0int
            }),
    {
        if cancelled {
            WaitStep::Cancelled
        } else if self.slices_left == 0 {
            WaitStep::Probe
        } else {
            self.slices_left = self.slices_left - 1;
            assert(self@ =~= polled(old(self)@, cancelled).0);
            WaitStep::Pause
        }
    }

    /// Whether the time is up, so many milliseconds after the wait began.
    pub fn expired(&self, elapsed_millis: u128) -> (r: bool)
        ensures
            r == expired_after(self@, elapsed_millis as nat),
            r == (elapsed_millis >= 1000 * self@.timeout),
    {
        elapsed_millis >= 1000 * self.timeout_seconds as u128
    }

    /// Takes the answer of a probe, which has come so many milliseconds after the wait began.
    pub fn probed(&mut self, answer: Result<(), String>, elapsed_millis: u128) -> (r: WaitVerdict)
        ensures
            match answer {
                Ok(_) => r == WaitVerdict::Healthy && final(self)@ == old(self)@,
                Err(e) => if expired_after(old(self)@, elapsed_millis as nat) {
                    &&& r is TimedOut
                    &&& r->TimedOut_0@ == timeout_says(old(self)@.timeout, e@)
                    &&& final(self)@ == old(self)@
                } else {
                    r == WaitVerdict::Retry && final(self)@ == retried(old(self)@)
                },
            },
            r == WaitVerdict::Healthy <==> answer is Ok,
            r is TimedOut <==> answer is Err && elapsed_millis >= 1000 * old(self)@.timeout,
            r is TimedOut ==> r->TimedOut_0@ == "health check timed out after "@ + decimal(
                old(self)@.timeout as nat,
            ) + "s (last error: "@ + answer->Err_0@ + ")"@,
            final(self)@.timeout == old(self)@.timeout,
            final(self)@.interval == old(self)@.interval,
            final(self)@.pauses == (if r is Retry {
                10 * old(self)@.interval
            } else {
                old(self)@.pauses as int
            }),
    {
        match answer {
            Ok(_) => WaitVerdict::Healthy,
            Err(e) => {
                if self.expired(elapsed_millis) {
                    WaitVerdict::TimedOut(
                        "health check timed out after ".to_owned().concat(
                            decimal_text(self.timeout_seconds).as_str(),
                        ).concat("s (last error: ").concat(e.as_str()).concat(")"),
                    )
                } else {
                    self.slices_left = SLICES_PER_SECOND * self.interval_seconds as u128;
                    assert(self@ =~= retried(old(self)@));
                    WaitVerdict::Retry
                }
            },
        }
    }
}

/// How a wait has ended.
#[derive(Debug, PartialEq, Eq)]
pub enum HealthOutcome {
    /// The process is healthy.
    Healthy,
    /// The wait was cancelled.
    Cancelled,
    /// The process did not become healthy, for this reason.
    Failed(String),
}

/// How a wait for a process begins.
pub enum WaitStart {
    /// There is something to wait for.
    Wait(HealthWait),
    /// It is over at once.
    Over(HealthOutcome),
}

/// Starts to wait for a process to become healthy. One without a health check is ready as soon
/// as it has been started.
pub fn wait_healthy(p: &Process) -> (r: WaitStart)
    ensures
        match p.health_check {
            Some(hc) => r is Wait && r->Wait_0@ == (Waiting {
                timeout: timeout_of(hc),
                interval: interval_of(hc),
                pauses: 0,
            }),
            None => r == WaitStart::Over(HealthOutcome::Healthy),
        },
        r matches WaitStart::Wait(w) ==> {
            &&& w@.pauses == 0
            &&& p.health_check->Some_0.timeout_seconds is Some ==> w@.timeout
                == p.health_check->Some_0.timeout_seconds->Some_0
            &&& p.health_check->Some_0.timeout_seconds is None ==> w@.timeout == 60
            &&& w@.interval >= 1
            &&& p.health_check->Some_0.interval_seconds is Some
                && p.health_check->Some_0.interval_seconds->Some_0 >= 1 ==> w@.interval
                == p.health_check->Some_0.interval_seconds->Some_0
            &&& p.health_check->Some_0.interval_seconds is None ==> w@.interval == 1
        },
{
    match &p.health_check {
        Some(hc) => WaitStart::Wait(HealthWait::new(hc)),
        None => WaitStart::Over(HealthOutcome::Healthy),
    }
}

/// The event that the end of a wait gives rise to. A cancelled wait gives rise to none.
pub fn health_event(name: String, outcome: HealthOutcome) -> (r: Option<Event>)
    ensures
        match outcome {
            HealthOutcome::Healthy => r is Some && r->Some_0@ == Ev::Healthy(name@),
            HealthOutcome::Cancelled => r is None,
            HealthOutcome::Failed(e) => r is Some && r->Some_0@ == Ev::HealthFailed(name@, e@),
        },
        match outcome {
            HealthOutcome::Healthy => r matches Some(Event::Healthy(n)) && n@ == name@,
            HealthOutcome::Cancelled => r is None,
            HealthOutcome::Failed(e) => r matches Some(Event::HealthFailed(n, why)) && n@ == name@
                && why@ == e@,
        },
{
    match outcome {
        HealthOutcome::Healthy => Some(Event::Healthy(name)),
        HealthOutcome::Cancelled => None,
        HealthOutcome::Failed(e) => Some(Event::HealthFailed(name, e)),
    }
}

// ---------------------------------------------------------------------------
// HTTP
// ---------------------------------------------------------------------------

/// Where an HTTP probe goes.
#[derive(Debug, PartialEq, Eq)]
pub struct HttpTarget {
    pub host: String,
    pub port: u16,
    pub path: String,
}

/// The model of an HTTP target.
pub struct Target {
    pub host: Text,
    pub port: nat,
    pub path: Text,
}

impl View for HttpTarget {
    type V = Target;

    open spec fn view(&self) -> Target {
        Target { host: self.host@, port: self.port as nat, path: self.path@ }
    }
}

/// What is wrong with the URL of an HTTP probe.
#[derive(Clone, Copy, Debug, PartialEq, Eq, Structural)]
pub enum UrlError {
    /// It does not start with `http://`.
    Scheme,
    /// What follows the last colon of its authority is no port.
    Port(IntError),
}

/// The message for a bad URL that is shown as `shown`.
pub open spec fn url_error_says(e: UrlError, shown: Text) -> Text {
    match e {
        UrlError::Scheme => "http probe only supports http:// URLs, got "@ + shown,
        UrlError::Port(i) => i.says(),
    }
}

impl UrlError {
    /// The message, with the URL given as it is to be shown.
    pub fn message_showing(&self, shown: &str) -> (r: String)
        ensures
            r@ == url_error_says(*self, shown@),
            self is Scheme ==> r@ == "http probe only supports http:// URLs, got "@ + shown@,
    {
        match self {
            UrlError::Scheme => "http probe only supports http:// URLs, got ".to_owned().concat(shown),
            UrlError::Port(i) => i.message(),
        }
    }
}

/// The part of a URL before its path.
pub open spec fn authority_of(rest: Text) -> Text {
    rest.take(first_index(rest, '/'))
}

/// The path of a URL, `/` where it has none.
pub open spec fn path_of(rest: Text) -> Text {
    let s = first_index(rest, '/');
    if s < rest.len() {
        rest.skip(s)
    } else {
        "/"@
    }
}

/// The target that a URL names: `http://`, a host, a port behind the last colon (80 where there
/// is none), and a path.
pub open spec fn target_of(url: Text) -> Result<Target, UrlError> {
    if !has_prefix(url, "http://"@) {
        Err(UrlError::Scheme)
    } else {
        let rest = url.skip("http://"@.len() as int);
        let authority = authority_of(rest);
        let c = last_index(authority, ':');
        if c < 0 {
            Ok(Target { host: authority, port: 80, path: path_of(rest) })
        } else {
            match read_unsigned(authority.skip(c + 1), 65535) {
                Ok(port) => Ok(Target { host: authority.take(c), port, path: path_of(rest) }),
                Err(e) => Err(UrlError::Port(e)),
            }
        }
    }
}

/// Takes the URL of an HTTP probe apart.
pub fn split_http_url(url: &str) -> (r: Result<HttpTarget, UrlError>)
    ensures
        match r {
            Ok(t) => target_of(url@) == Ok::<Target, UrlError>(t@),
            Err(e) => target_of(url@) == Err::<Target, UrlError>(e),
        },
{
    let rest = match after_prefix(url, "http://") {
        Some(rest) => rest,
        None => {
            return Err(UrlError::Scheme);
        },
    };
    let cs = chars_of(rest);
    let slash = find_first(&cs, '/');
    let n = rest.unicode_len();
    let authority = rest.substring_char(0, slash);
    let path: String = if slash < n {
        rest.substring_char(slash, n).to_owned()
    } else {
        "/".to_owned()
    };
    let acs = chars_of(authority);
    let an = authority.unicode_len();
    assert(rest@.subrange(0, slash as int) =~= rest@.take(slash as int));
    assert(rest@.subrange(slash as int, n as int) =~= rest@.skip(slash as int));
    match find_last(&acs, ':') {
        Some(c) => {
            let digits = authority.substring_char(c + 1, an);
            assert(digits@ =~= authority@.skip(c + 1));
            assert(authority@.subrange(0, c as int) =~= authority@.take(c as int));
            match parse_unsigned(digits, 65535) {
                Ok(v) => Ok(
                    HttpTarget {
                        host: authority.substring_char(0, c).to_owned(),
                        port: v as u16,
                        path,
                    },
                ),
                Err(e) => Err(UrlError::Port(e)),
            }
        },
        None => Ok(HttpTarget { host: authority.to_owned(), port: 80, path }),
    }
}

/// Takes the URL of an HTTP probe apart, or says what is wrong with it.
pub fn parse_http_url(url: &str) -> (r: Result<HttpTarget, String>)
    ensures
        match r {
            Ok(t) => target_of(url@) == Ok::<Target, UrlError>(t@),
            Err(e) => target_of(url@) is Err && e@ == url_error_says(
                target_of(url@)->Err_0,
                debug_form(url@),
            ),
        },
        !has_prefix(url@, "http://"@) ==> r is Err && r->Err_0@
            == "http probe only supports http:// URLs, got "@ + debug_form(url@),
        has_prefix(url@, "http://"@) && r is Err ==> exists|e: IntError|
            target_of(url@) == Err::<Target, UrlError>(UrlError::Port(e)) && r->Err_0@
                == #[trigger] e.says(),
{
    match split_http_url(url) {
        Ok(t) => Ok(t),
        Err(e) => {
            let shown = debug_text(url);
            Err(e.message_showing(shown.as_str()))
        },
    }
}

/// The request that an HTTP probe sends.
pub open spec fn request_of(t: Target) -> Text {
    "GET "@ + t.path + " HTTP/1.0\r\nHost: "@ + t.host + "\r\nConnection: close\r\n\r\n"@
}

/// The request that an HTTP probe sends.
pub fn http_request(target: &HttpTarget) -> (r: String)
    ensures
        r@ == request_of(target@),
        r@ == "GET "@ + target.path@ + " HTTP/1.0\r\nHost: "@ + target.host@
            + "\r\nConnection: close\r\n\r\n"@,
{
    "GET ".to_owned().concat(target.path.as_str()).concat(" HTTP/1.0\r\nHost: ").concat(
        target.host.as_str(),
    ).concat("\r\nConnection: close\r\n\r\n")
}

/// Why an HTTP response does not say that the process is ready.
#[derive(Clone, Copy, Debug, PartialEq, Eq, Structural)]
pub enum HttpError {
    /// Its first line has no status code.
    BadResponse,
    /// The status code is that of a failure.
    Status(u16),
}

/// The status code in the first line of a response: its second word, read as a number.
pub open spec fn status_of(head: Text) -> Option<nat> {
    match nth_word(first_line(head), 1) {
        Some(w) => match read_unsigned(w, 65535) {
            Ok(code) => Some(code),
            Err(_) => None,
        },
        None => None,
    }
}

/// The message for a response whose first line is shown as `shown`.
pub open spec fn http_error_says(e: HttpError, shown: Text) -> Text {
    match e {
        HttpError::BadResponse => "bad HTTP response: "@ + shown,
        HttpError::Status(code) => "HTTP status "@ + decimal(code as nat),
    }
}

impl HttpError {
    /// The message, with the first line given as it is to be shown.
    pub fn message_showing(&self, shown: &str) -> (r: String)
        ensures
            r@ == http_error_says(*self, shown@),
            self is BadResponse ==> r@ == "bad HTTP response: "@ + shown@,
            self is Status ==> r@ == "HTTP status "@ + decimal(self->Status_0 as nat),
    {
        match self {
            HttpError::BadResponse => "bad HTTP response: ".to_owned().concat(shown),
            HttpError::Status(code) => "HTTP status ".to_owned().concat(
                decimal_text(*code as u64).as_str(),
            ),
        }
    }
}

/// What a response, read as text, says about readiness: a status below 400 is good.
pub fn http_text_verdict(head: &str) -> (r: Result<(), HttpError>)
    ensures
        match r {
            Ok(_) => status_of(head@) is Some && status_of(head@)->Some_0 < 400,
            Err(HttpError::Status(code)) => status_of(head@) == Some(code as nat) && code >= 400,
            Err(HttpError::BadResponse) => status_of(head@) is None,
        },
{
    let line = line_one(head);
    match word_at(line, 1) {
        Some(w) => match parse_unsigned(w, 65535) {
            Ok(code) => {
                if code >= 400 {
                    Err(HttpError::Status(code as u16))
                } else {
                    Ok(())
                }
            },
            Err(_) => Err(HttpError::BadResponse),
        },
        None => Err(HttpError::BadResponse),
    }
}

/// What a response says about readiness.
pub fn http_verdict(response: &[u8]) -> (r: Result<(), String>)
    ensures
        reads_plainly(response@),
        match r {
            Ok(_) => status_of(lossy_form(response@)) is Some && status_of(
                lossy_form(response@),
            )->Some_0 < 400,
            Err(e) => match status_of(lossy_form(response@)) {
                Some(code) => code >= 400 && e@ == "HTTP status "@ + decimal(code),
                None => e@ == "bad HTTP response: "@ + debug_form(
                    first_line(lossy_form(response@)),
                ),
            },
        },
{
    let head = text_of(response);
    match http_text_verdict(head.as_str()) {
        Ok(_) => Ok(()),
        Err(e) => {
            let shown = debug_text(line_one(head.as_str()));
            Err(e.message_showing(shown.as_str()))
        },
    }
}

// ---------------------------------------------------------------------------
// Laws
// ---------------------------------------------------------------------------

/// The wait after `n` more turns, none of which finds it cancelled.
pub open spec fn polled_times(w: Waiting, n: nat) -> Waiting
    decreases n,
{
    if n == 0 {
        w
    } else {
        polled(polled_times(w, (n - 1) as nat), false).0
    }
}

/// Between two attempts of an uncancelled wait lie exactly ten pauses for each second of its
/// interval.
pub proof fn law_attempts_are_an_interval_apart(w: Waiting, n: nat)
    requires
        n <= 10 * w.interval,
    ensures
        polled(polled_times(retried(w), n), false).1 == (if n < 10 * w.interval {
            WaitStep::Pause
        } else {
            WaitStep::Probe
        }),
{
    lemma_pauses(retried(w), n);
}

proof fn lemma_pauses(w: Waiting, n: nat)
    requires
        n <= w.pauses,
    ensures
        polled_times(w, n).pauses == w.pauses - n,
    decreases n,
{
    if n > 0 {
        lemma_pauses(w, (n - 1) as nat);
    }
}

/// A wait probes before it can time out, and is never more than one pause away from noticing
/// that it has been cancelled.
pub proof fn law_probes_first_and_cancels_at_once(hc: HealthCheck, w: Waiting)
    ensures
        polled(
            Waiting { timeout: timeout_of(hc), interval: interval_of(hc), pauses: 0 },
            false,
        ).1 == WaitStep::Probe,
        polled(w, true).1 == WaitStep::Cancelled,
        interval_of(hc) >= 1,
{
}

/// The probe that is run is the first that is set: the port, whatever else is set; else the URL;
/// else the command. Only a health check that sets none of them counts as passed.
pub proof fn law_the_first_probe_that_is_set_is_run(hc: HealthCheck)
    ensures
        forall|p: u16| hc.tcp_port == Some(p) ==> #[trigger] probe_of(hc) == ProbeKind::Tcp(p),
        hc.tcp_port is None && hc.http is Some ==> probe_of(hc) == ProbeKind::Http(
            hc.http->Some_0@,
        ),
        hc.tcp_port is None && hc.http is None && hc.command is Some ==> probe_of(hc)
            == ProbeKind::Command(hc.command->Some_0@),
        probe_of(hc) is Ready <==> hc.tcp_port is None && hc.http is None && hc.command is None,
{
}

/// A probe stands for itself, and so does a target.
pub proof fn law_probes_and_targets_stand_for_themselves(p: Probe, t: HttpTarget)
    ensures
        match p {
            Probe::Tcp(port) => p@ == ProbeKind::Tcp(port),
            Probe::Http(u) => p@ == ProbeKind::Http(u@),
            Probe::Command(c) => p@ == ProbeKind::Command(c@),
            Probe::Ready => p@ == ProbeKind::Ready,
        },
        t@.host == t.host@,
        t@.port == t.port,
        t@.path == t.path@,
{
}

/// A health check may fail for the seconds that it gives, 60 where it gives none, and is tried
/// again after the seconds that it gives, one at least.
pub proof fn law_a_health_check_gives_its_own_times(hc: HealthCheck, t: u64)
    ensures
        hc.timeout_seconds == Some(t) ==> timeout_of(hc) == t,
        hc.timeout_seconds is None ==> timeout_of(hc) == 60,
        hc.interval_seconds == Some(t) && t > 0 ==> interval_of(hc) == t,
        hc.interval_seconds == Some(0u64) ==> interval_of(hc) == 1,
        hc.interval_seconds is None ==> interval_of(hc) == 1,
{
}

/// The time is up when as many seconds have passed as the wait has, and not before; a failed
/// attempt is followed by ten pauses for each second of the interval.
pub proof fn law_the_time_is_up_after_the_timeout(w: Waiting, millis: nat)
    ensures
        expired_after(w, millis) <==> millis >= 1000 * w.timeout,
        retried(w).pauses == 10 * w.interval,
        retried(w).timeout == w.timeout,
        retried(w).interval == w.interval,
        polled(w, false).1 == WaitStep::Probe <==> w.pauses == 0,
        polled(w, false).0.timeout == w.timeout,
        polled(w, false).0.interval == w.interval,
        w.pauses > 0 ==> polled(w, false).0.pauses == w.pauses - 1,
        w.pauses == 0 ==> polled(w, false).0.pauses == 0,
        polled(w, true).0 == w,
{
}

/// What a URL is made of is what it is taken apart into: host, port and path. The port is 80
/// where none is given, and the path `/`; the port stands behind the last colon in front of the
/// path. Anything that does not begin with `http://` is refused.
pub proof fn law_a_url_is_its_parts(host: Text, digits: Text, path: Text, url: Text)
    requires
        !host.contains('/'),
        !digits.contains('/'),
        !digits.contains(':'),
        path.len() == 0 || path[0] == '/',
    ensures
        ({
            let shown = if path.len() == 0 {
                seq!['/']
            } else {
                path
            };
            &&& !host.contains(':') ==> target_of("http://"@ + (host + path)) == Ok::<
                Target,
                UrlError,
            >(Target { host, port: 80, path: shown })
            &&& target_of("http://"@ + (host + seq![':'] + digits + path)) == match read_unsigned(
                digits,
                65535,
            ) {
                Ok(port) => Ok::<Target, UrlError>(Target { host, port, path: shown }),
                Err(e) => Err(UrlError::Port(e)),
            }
            &&& !(url.len() >= 7 && url.take(7) == "http://"@) ==> target_of(url) == Err::<
                Target,
                UrlError,
            >(UrlError::Scheme)
        }),
{
    reveal_strlit("http://");
    reveal_strlit("/");
    assert("/"@ =~= seq!['/']);
    assert("http://"@.len() == 7);
    lemma_authority(host, path);
    let authority = host + seq![':'] + digits;
    assert(!authority.contains('/')) by {
        if authority.contains('/') {
            let k = authority.index_of('/');
            if k < host.len() {
                assert(host[k] == '/');
            } else if k > host.len() {
                assert(digits[k - host.len() - 1] == '/');
            }
        }
    }
    lemma_authority(authority, path);
    law_searching_finds_both_ends(host, ':', digits);
    assert(authority.skip(host.len() as int + 1) =~= digits);
    assert(authority.take(host.len() as int) =~= host);
    let one = "http://"@ + (host + path);
    let two = "http://"@ + (authority + path);
    assert(one.take(7) =~= "http://"@);
    assert(one.skip(7) =~= host + path);
    assert(two.take(7) =~= "http://"@);
    assert(two.skip(7) =~= authority + path);
}

proof fn lemma_authority(authority: Text, path: Text)
    requires
        !authority.contains('/'),
        path.len() == 0 || path[0] == '/',
    ensures
        authority_of(authority + path) == authority,
        path_of(authority + path) == if path.len() == 0 {
            "/"@
        } else {
            path
        },
        !authority.contains(':') ==> last_index(authority, ':') == -1,
{
    law_searching_finds_both_ends(authority, ':', Seq::empty());
    if path.len() == 0 {
        law_searching_finds_both_ends(authority, '/', Seq::empty());
        assert(authority + path =~= authority);
        assert(authority.take(authority.len() as int) =~= authority);
    } else {
        law_searching_finds_both_ends(authority, '/', path.drop_first());
        assert(authority + seq!['/'] + path.drop_first() =~= authority + path);
        assert((authority + path).take(authority.len() as int) =~= authority);
        assert((authority + path).skip(authority.len() as int) =~= path);
    }
}

/// The status of a response is the second word of its first line, whatever follows it.
pub proof fn law_the_status_is_the_second_word(version: Text, code: Text, rest: Text)
    requires
        version.len() > 0,
        code.len() > 0,
        forall|i: int| 0 <= i < version.len() ==> !is_space(#[trigger] version[i]),
        forall|i: int| 0 <= i < code.len() ==> !is_space(#[trigger] code[i]),
        rest.len() > 0 ==> is_space(rest[0]),
    ensures
        status_of(version + seq![' '] + code + rest) == match read_unsigned(code, 65535) {
            Ok(n) => Some(n),
            Err(_) => None,
        },
{
    let start = version + seq![' '] + code;
    let head = start + rest;
    let line = first_line(head);
    assert(!start.contains('\n')) by {
        if start.contains('\n') {
            let k = start.index_of('\n');
            if k < version.len() {
                assert(is_space(version[k]));
            } else if k > version.len() {
                assert(is_space(code[k - version.len() - 1]));
            }
        }
    }
    let end = first_index(head, '\n');
    lemma_first_index_behind(start, rest, '\n');
    if end < head.len() && end > 0 && head[end - 1] == '\r' {
        if end == start.len() {
            assert(is_space(code[code.len() - 1]));
        }
    }
    let tail = line.skip(start.len() as int);
    assert(line =~= start + tail);
    assert(tail.len() > 0 ==> tail[0] == rest[0]);
    let none = Seq::<char>::empty();
    let behind = seq![' '] + code + tail;
    assert(line =~= none + version + behind);
    law_words_stand_between_whitespace(none, version, behind, 0);
    law_words_stand_between_whitespace(seq![' '], code, tail, 0);
}

proof fn lemma_first_index_behind(a: Text, b: Text, c: char)
    requires
        !a.contains(c),
    ensures
        first_index(a + b, c) == a.len() + first_index(b, c),
        first_index(b, c) >= 0,
        first_index(b, c) <= b.len(),
    decreases a.len(),
{
    if a.len() == 0 {
        assert(a + b =~= b);
        lemma_first_index_bounds(b, c);
    } else {
        assert(a.contains(a[0]));
        assert((a + b)[0] == a[0]);
        assert((a + b).drop_first() =~= a.drop_first() + b);
        assert forall|x: char| a.drop_first().contains(x) implies a.contains(x) by {
            assert(a[a.drop_first().index_of(x) + 1] == x);
        }
        lemma_first_index_behind(a.drop_first(), b, c);
    }
}

proof fn lemma_first_index_bounds(b: Text, c: char)
    ensures
        0 <= first_index(b, c) <= b.len(),
    decreases b.len(),
{
    if b.len() > 0 {
        lemma_first_index_bounds(b.drop_first(), c);
    }
}

} // verus!
