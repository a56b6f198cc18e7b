use nix_process::names::NameMap;
use nix_process::state::{
    parse_start_ticks, recover_orphans, surviving_line, terminating_line, Answer, Chore, Leftover,
    ProcState, Question, Snapshot, State,
};

fn child(name: &str, pid: i32, pgid: i32, start_ticks: u64) -> ProcState {
    ProcState { name: name.to_string(), pid, pgid, start_ticks }
}

fn snapshot(children: Vec<ProcState>) -> Snapshot {
    let mut processes = NameMap::new();
    for c in children {
        processes.insert(c.name.clone(), c);
    }
    Snapshot { supervisor_pid: 77, processes }
}

fn log(line: &str) -> Chore {
    Chore::Log(line.to_string())
}

#[test]
fn no_file_means_nothing_to_do() {
    let (r, chores) = recover_orphans("s", Leftover::Nothing);
    assert_eq!(chores, vec![]);
    assert_eq!(r.question(), Question::Nothing);
}

#[test]
fn unreadable_file_is_deleted() {
    let (r, chores) = recover_orphans("a/s.json", Leftover::Unreadable("EOF".to_string()));
    assert_eq!(
        chores,
        vec![
            log("warning: ignoring unparseable state file a/s.json: EOF"),
            Chore::RemoveFile
        ]
    );
    assert_eq!(r.question(), Question::Nothing);
}

#[test]
fn empty_record_is_deleted() {
    let (r, chores) = recover_orphans("s", Leftover::Found(snapshot(vec![])));
    assert_eq!(chores, vec![Chore::RemoveFile]);
    assert_eq!(r.question(), Question::Nothing);
}

#[test]
fn orphans_are_asked_to_stop_and_then_killed() {
    let snap = snapshot(vec![
        child("web", 30, 31, 5),
        child("d\"b", 20, 21, 0),
        child("gone", 40, 41, 6),
        child("none", 50, 0, 7),
        child("other", 60, 61, 8),
        child("stays", 70, 71, 9),
    ]);
    let (mut r, chores) = recover_orphans("s", Leftover::Found(snap));
    assert_eq!(
        chores,
        vec![log(
            "found stale state from a previous run (supervisor pid 77); cleaning up 6 process group(s)"
        )]
    );
    // No start time is known of the first, so its group is looked at straight away.
    assert_eq!(r.question(), Question::Alive(21));
    assert_eq!(
        r.resume(Answer::Alive(true)),
        vec![
            log("  terminating orphaned group \"d\\\"b\" (pgid 21)"),
            Chore::Kill { pgid: 21, signal: 15 }
        ]
    );
    // The second has no process any more, and no group.
    assert_eq!(r.question(), Question::Ticks(40));
    assert_eq!(r.resume(Answer::Ticks(None)), vec![]);
    assert_eq!(r.question(), Question::Alive(41));
    assert_eq!(r.resume(Answer::Alive(false)), vec![]);
    // The one without a group is passed over; the id of the next has been reused.
    assert_eq!(r.question(), Question::Ticks(60));
    assert_eq!(
        r.resume(Answer::Ticks(Some(9))),
        vec![log("  other (pid 60) was replaced by an unrelated process; skipping")]
    );
    assert_eq!(r.question(), Question::Ticks(70));
    assert_eq!(r.resume(Answer::Ticks(Some(9))), vec![]);
    assert_eq!(r.question(), Question::Alive(71));
    assert_eq!(r.resume(Answer::Alive(true)).len(), 2);
    assert_eq!(r.question(), Question::Ticks(30));
    r.resume(Answer::Ticks(Some(5)));
    assert_eq!(r.resume(Answer::Alive(false)), vec![]);
    assert_eq!(r.question(), Question::Pause(2));
    assert_eq!(r.resume(Answer::Alive(true)), vec![]);
    assert_eq!(r.resume(Answer::Paused), vec![]);
    assert_eq!(r.question(), Question::Alive(21));
    assert_eq!(r.resume(Answer::Alive(false)), vec![]);
    assert_eq!(r.question(), Question::Alive(71));
    assert_eq!(
        r.resume(Answer::Alive(true)),
        vec![
            log("  force-killing surviving group \"stays\" (pgid 71)"),
            Chore::Kill { pgid: 71, signal: 9 },
            Chore::RemoveFile
        ]
    );
    assert_eq!(r.question(), Question::Nothing);
    assert_eq!(r.resume(Answer::Paused), vec![]);
}

#[test]
fn nothing_alive_means_no_pause() {
    let snap = snapshot(vec![child("a", 1, 1, 0), child("b", 2, -5, 0)]);
    let (mut r, _) = recover_orphans("s", Leftover::Found(snap));
    assert_eq!(r.question(), Question::Alive(1));
    assert_eq!(r.resume(Answer::Alive(false)), vec![Chore::RemoveFile]);
    assert_eq!(r.question(), Question::Nothing);
}

#[test]
fn lines_show_what_they_are_given() {
    assert_eq!(terminating_line("<a>", -3), "  terminating orphaned group <a> (pgid -3)");
    assert_eq!(surviving_line("<a>", 3), "  force-killing surviving group <a> (pgid 3)");
}

#[test]
fn record_keeps_the_running_children() {
    let mut s = State::new("x/state.json".to_string(), 4711);
    assert_eq!(s.path(), "x/state.json");
    s.record("web", 30, 30, Some(123));
    s.record("db", 20, 20, None);
    assert_eq!(s.snapshot().supervisor_pid, 4711);
    assert_eq!(s.snapshot().processes.len(), 2);
    assert_eq!(s.snapshot().processes.get("web"), Some(&child("web", 30, 30, 123)));
    assert_eq!(s.snapshot().processes.get("db"), Some(&child("db", 20, 20, 0)));
    s.record("web", 31, 31, Some(124));
    assert_eq!(s.snapshot().processes.get("web"), Some(&child("web", 31, 31, 124)));
    s.remove("web");
    s.remove("web");
    assert_eq!(s.snapshot().processes.len(), 1);
    assert_eq!(s.snapshot().processes.name_at(0), "db");
}

#[test]
fn removing_undoes_recording() {
    let mut s = State::new("p".to_string(), 1);
    s.record("a", 2, 2, Some(3));
    s.record("b", 4, 4, Some(5));
    s.remove("b");
    assert_eq!(s.snapshot().processes.len(), 1);
    assert_eq!(s.snapshot().processes.get("a"), Some(&child("a", 2, 2, 3)));
}

#[test]
fn start_time_is_the_twentieth_word_behind_the_name() {
    let stat = "1234 (a (b) c) S 1 1234 1234 0 -1 4194560 1 2 3 4 5 6 7 8 20 0 1 0 987654 11 12";
    assert_eq!(parse_start_ticks(stat), Some(987654));
    assert_eq!(parse_start_ticks("1 (x) S 1 2"), None);
    assert_eq!(parse_start_ticks("1 x S 1 2"), None);
    assert_eq!(parse_start_ticks("1 (x)"), None);
    assert_eq!(parse_start_ticks("1 (x) "), None);
    assert_eq!(parse_start_ticks(""), None);
    let words = |last: &str| format!("1 (x) S{} {}", " 0".repeat(18), last);
    assert_eq!(parse_start_ticks(&words("18446744073709551615")), Some(u64::MAX));
    assert_eq!(parse_start_ticks(&words("18446744073709551616")), None);
    assert_eq!(parse_start_ticks(&words("-1")), None);
    assert_eq!(parse_start_ticks(&words("")), None);
}

#[test]
fn start_time_needs_a_narrow_character_behind_the_name() {
    let tail = format!("S{} 5", " 0".repeat(18));
    for sep in [" ", "x", "\n", "\u{7f}", "\u{80}", "é", "\u{3000}"] {
        let stat = format!("1 (x){sep}{tail}");
        let close = stat.rfind(')').unwrap();
        let expected: Option<u64> = stat
            .get(close + 2..)
            .and_then(|a| a.split_whitespace().nth(19))
            .and_then(|w| w.parse().ok());
        assert_eq!(parse_start_ticks(&stat), expected, "{:?}", sep);
    }
}
