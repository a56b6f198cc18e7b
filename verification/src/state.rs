//! The record of running children, and the recovery of those that an earlier run left behind.

use vstd::prelude::*;
use vstd::string::*;

use crate::names::{in_order, NameMap};
use crate::number::{
    decimal, decimal_text, parse_unsigned, read_unsigned, signed_decimal, signed_text,
};
use crate::signals::{kill, sigkill, sigterm, term};
use crate::text::{
    chars_of, debug_form, debug_text, find_last, last_index, nth_word, word_at, Text,
};

verus! {

// ---------------------------------------------------------------------------
// The record
// ---------------------------------------------------------------------------

/// One recorded child.
#[derive(Clone, Debug, PartialEq, Eq)]
pub struct ProcState {
    pub name: String,
    pub pid: i32,
    pub pgid: i32,
    /// When the process started, in clock ticks since boot; 0 where that is not known. Where
    /// the process that has the id now started at another time, the id has been reused.
    pub start_ticks: u64,
}

/// The model of a recorded child.
pub struct Child {
    pub name: Text,
    pub pid: i32,
    pub pgid: i32,
    pub start_ticks: u64,
}

impl View for ProcState {
    type V = Child;

    open spec fn view(&self) -> Child {
        Child {
            name: self.name@,
            pid: self.pid,
            pgid: self.pgid,
            start_ticks: self.start_ticks,
        }
    }
}

/// What the state file holds.
#[derive(Debug)]
pub struct Snapshot {
    pub supervisor_pid: i32,
    pub processes: NameMap<ProcState>,
}

/// The children under the names they were recorded under.
pub open spec fn children(processes: Map<Text, ProcState>) -> Map<Text, Child> {
    Map::new(|n: Text| processes.contains_key(n), |n: Text| processes[n]@)
}

/// The children in ascending order of the names they were recorded under.
pub open spec fn listed(processes: Map<Text, Child>) -> Seq<Child> {
    in_order(processes.dom()).map_values(|n: Text| processes[n])
}

/// The children that a supervisor has running.
pub struct State {
    path: String,
    inner: Snapshot,
}

/// The model of a state: where its file is, whose it is, and the children.
#[verifier::ext_equal]
pub struct Record {
    pub path: Text,
    pub supervisor_pid: i32,
    pub processes: Map<Text, Child>,
}

/// The state with a child recorded.
pub open spec fn with_child(s: Record, name: Text, pid: i32, pgid: i32, ticks: Option<u64>) -> Record {
    let start_ticks = match ticks {
        Some(t) => t,
        None => 0,
    };
    Record { processes: s.processes.insert(name, Child { name, pid, pgid, start_ticks }), ..s }
}

/// The state without a child.
pub open spec fn without_child(s: Record, name: Text) -> Record {
    Record { processes: s.processes.remove(name), ..s }
}

impl View for State {
    type V = Record;

    closed spec fn view(&self) -> Record {
        Record {
            path: self.path@,
            supervisor_pid: self.inner.supervisor_pid,
            processes: children(self.inner.processes@),
        }
    }
}

impl State {
    /// The names are unique and sorted.
    pub closed spec fn wf(&self) -> bool {
        self.inner.processes.wf()
    }

    /// A state without children, kept in the file at `path` by the supervisor with the given
    /// process id.
    pub fn new(path: String, supervisor_pid: i32) -> (r: State)
        ensures
            r.wf(),
            r@ == (Record { path: path@, supervisor_pid, processes: Map::empty() }),
    {
        let r = State { path, inner: Snapshot { supervisor_pid, processes: NameMap::new() } };
        assert(r@ =~= (Record { path: path@, supervisor_pid, processes: Map::empty() }));
        r
    }

    /// Where the state file is.
    pub fn path(&self) -> (r: &String)
        ensures
            r@ == self@.path,
    {
        &self.path
    }

    /// What the state file is to hold.
    pub fn snapshot(&self) -> (r: &Snapshot)
        requires
            self.wf(),
        ensures
            r.processes.wf(),
            r.supervisor_pid == self@.supervisor_pid,
            children(r.processes@) == self@.processes,
            r.processes@.dom() == self@.processes.dom(),
            forall|n: Text| #[trigger]
                r.processes@.contains_key(n) ==> {
                    &&& r.processes@[n].name@ == self@.processes[n].name
                    &&& r.processes@[n].pid == self@.processes[n].pid
                    &&& r.processes@[n].pgid == self@.processes[n].pgid
                    &&& r.processes@[n].start_ticks == self@.processes[n].start_ticks
                },
    {
        assert(self.inner.processes@.dom() =~= self@.processes.dom());
        &self.inner
    }

    /// Records a freshly started child, in place of one that was recorded under the same name.
    pub fn record(&mut self, name: &str, pid: i32, pgid: i32, start_ticks: Option<u64>)
        requires
            old(self).wf(),
        ensures
            final(self).wf(),
            final(self)@ == with_child(old(self)@, name@, pid, pgid, start_ticks),
            final(self)@.path == old(self)@.path,
            final(self)@.supervisor_pid == old(self)@.supervisor_pid,
            final(self)@.processes == old(self)@.processes.insert(
                name@,
                Child {
                    name: name@,
                    pid,
                    pgid,
                    start_ticks: match start_ticks {
                        Some(t) => t,
                        None => 0,
                    },
                },
            ),
    {
        let ticks: u64 = match start_ticks {
            Some(t) => t,
            None => 0,
        };
        self.inner.processes.insert(
            name.to_owned(),
            ProcState { name: name.to_owned(), pid, pgid, start_ticks: ticks },
        );
        assert(self@.processes =~= with_child(old(self)@, name@, pid, pgid, start_ticks).processes);
        assert(self@ =~= with_child(old(self)@, name@, pid, pgid, start_ticks));
    }

    /// Drops a child that has exited.
    pub fn remove(&mut self, name: &str)
        requires
            old(self).wf(),
        ensures
            final(self).wf(),
            final(self)@ == without_child(old(self)@, name@),
            final(self)@.path == old(self)@.path,
            final(self)@.supervisor_pid == old(self)@.supervisor_pid,
            final(self)@.processes == old(self)@.processes.remove(name@),
    {
        self.inner.processes.remove(name);
        assert(self@.processes =~= without_child(old(self)@, name@).processes);
        assert(self@ =~= without_child(old(self)@, name@));
    }
}

// ---------------------------------------------------------------------------
// Start times
// ---------------------------------------------------------------------------

/// The start time in the text of `/proc/<pid>/stat`: the twentieth word behind the last closing
/// parenthesis and the one-byte character that follows it.
pub open spec fn start_ticks_of(stat: Text) -> Option<nat> {
    let c = last_index(stat, ')');
    if c < 0 || c + 1 >= stat.len() || stat[c + 1] > '\u{7f}' {
        None
    } else {
        match nth_word(stat.skip(c + 2), 19) {
            Some(w) => match read_unsigned(w, 0xffff_ffff_ffff_ffff) {
                Ok(t) => Some(t),
                Err(_) => None,
            },
            None => None,
        }
    }
}

/// Reads the start time of a process out of the text of `/proc/<pid>/stat`.
pub fn parse_start_ticks(stat: &str) -> (r: Option<u64>)
    ensures
        match r {
            Some(t) => start_ticks_of(stat@) == Some(t as nat),
            None => start_ticks_of(stat@) is None,
        },
{
    let cs = chars_of(stat);
    let n = stat.unicode_len();
    let close: usize = match find_last(&cs, ')') {
        Some(c) => c,
        None => {
            return None;
        },
    };
    if n - close < 2 || cs[close + 1] > '\u{7f}' {
        return None;
    }
    let after = stat.substring_char(close + 2, n);
    assert(after@ =~= stat@.skip(close + 2));
    match word_at(after, 19) {
        Some(w) => match parse_unsigned(w, 0xffff_ffff_ffff_ffff) {
            Ok(t) => Some(t),
            Err(_) => None,
        },
        None => None,
    }
}

// ---------------------------------------------------------------------------
// The model of a recovery
// ---------------------------------------------------------------------------

/// Where a recovery stands.
#[derive(Clone, Copy, Debug, PartialEq, Eq, Structural)]
pub enum Stage {
    /// The start time of the current child is wanted.
    Ticks,
    /// Whether the group of the current child exists is wanted.
    Alive,
    /// The groups that were asked to stop have time to.
    Pausing,
    /// Whether the group that was asked to stop still exists is wanted.
    Survivor,
    /// The recovery is over.
    Done,
}

/// What a recovery is told.
#[derive(Clone, Copy, Debug, PartialEq, Eq, Structural)]
pub enum Answer {
    /// The start time of the process that has the id now, if there is one.
    Ticks(Option<u64>),
    /// Whether the group exists.
    Alive(bool),
    /// The pause is over.
    Paused,
}

/// What a recovery wants to know, or to wait for.
#[derive(Clone, Copy, Debug, PartialEq, Eq, Structural)]
pub enum Question {
    /// The start time of the process with this id.
    Ticks(i32),
    /// Whether any process of this group exists.
    Alive(i32),
    /// A pause of this many seconds.
    Pause(u64),
    /// Nothing any more.
    Nothing,
}

/// What a recovery does to the outside.
pub enum Deed {
    Log(Text),
    Kill { pgid: i32, signal: i32 },
    RemoveFile,
}

/// Seconds that an orphaned group has between being asked to stop and being killed.
pub const RECOVERY_PAUSE_SECONDS: u64 = 2;

/// The state of a recovery.
#[verifier::ext_equal]
pub struct Cleanup {
    /// The recorded children, in the order in which they are dealt with.
    pub children: Seq<Child>,
    pub stage: Stage,
    /// The position of the current child.
    pub at: nat,
    /// The positions of the children whose groups have been asked to stop.
    pub doomed: Seq<int>,
    /// How many of those have been looked at again.
    pub checked: nat,
}

/// The recovery goes on with the child at its position or, where that has no group, with the
/// next one that has. Behind the last child it pauses if it has asked a group to stop, and is
/// over if not.
pub open spec fn scan(r: Cleanup) -> (Cleanup, Seq<Deed>)
    decreases r.children.len() - r.at,
{
    if r.at >= r.children.len() {
        if r.doomed.len() == 0 {
            (Cleanup { stage: Stage::Done, ..r }, seq![Deed::RemoveFile])
        } else {
            (Cleanup { stage: Stage::Pausing, ..r }, Seq::empty())
        }
    } else if r.children[r.at as int].pgid <= 0 {
        scan(Cleanup { at: r.at + 1, ..r })
    } else if r.children[r.at as int].start_ticks != 0 {
        (Cleanup { stage: Stage::Ticks, ..r }, Seq::empty())
    } else {
        (Cleanup { stage: Stage::Alive, ..r }, Seq::empty())
    }
}

/// The line for a child whose process id belongs to another process now.
pub open spec fn replaced_says(c: Child) -> Text {
    "  "@ + c.name + " (pid "@ + signed_decimal(c.pid as int)
        + ") was replaced by an unrelated process; skipping"@
}

/// The line for a group, shown as `shown`, that is asked to stop.
pub open spec fn terminating_says(shown: Text, pgid: i32) -> Text {
    "  terminating orphaned group "@ + shown + " (pgid "@ + signed_decimal(pgid as int) + ")"@
}

/// The line for a group, shown as `shown`, that is killed.
pub open spec fn surviving_says(shown: Text, pgid: i32) -> Text {
    "  force-killing surviving group "@ + shown + " (pgid "@ + signed_decimal(pgid as int) + ")"@
}

/// The line with which a recovery begins.
pub open spec fn stale_says(supervisor_pid: i32, count: nat) -> Text {
    "found stale state from a previous run (supervisor pid "@ + signed_decimal(supervisor_pid as int)
        + "); cleaning up "@ + decimal(count) + " process group(s)"@
}

/// The line for a state file that cannot be read.
pub open spec fn unreadable_says(path: Text, error: Text) -> Text {
    "warning: ignoring unparseable state file "@ + path + ": "@ + error
}

/// A recovery that is about to look at its first child.
pub open spec fn at_first(cs: Seq<Child>) -> Cleanup {
    Cleanup { children: cs, stage: Stage::Done, at: 0, doomed: Seq::empty(), checked: 0 }
}

/// The recovery after the group at `r.at` was found to exist or not.
pub open spec fn found(r: Cleanup, alive: bool) -> (Cleanup, Seq<Deed>) {
    let c = r.children[r.at as int];
    if alive {
        let (s, more) = scan(Cleanup { at: r.at + 1, doomed: r.doomed.push(r.at as int), ..r });
        (
            s,
            seq![
                Deed::Log(terminating_says(debug_form(c.name), c.pgid)),
                Deed::Kill { pgid: c.pgid, signal: term() },
            ] + more,
        )
    } else {
        scan(Cleanup { at: r.at + 1, ..r })
    }
}

/// The recovery after a group that was asked to stop was found to exist still or not.
pub open spec fn survived(r: Cleanup, alive: bool) -> (Cleanup, Seq<Deed>) {
    let c = r.children[r.doomed[r.checked as int]];
    let s = Cleanup { checked: r.checked + 1, ..r };
    let kills = if alive {
        seq![
            Deed::Log(surviving_says(debug_form(c.name), c.pgid)),
            Deed::Kill { pgid: c.pgid, signal: kill() },
        ]
    } else {
        Seq::empty()
    };
    if s.checked >= s.doomed.len() {
        (Cleanup { stage: Stage::Done, ..s }, kills + seq![Deed::RemoveFile])
    } else {
        (s, kills)
    }
}

/// The state and the deeds that an answer leads to. An answer that was not asked for changes
/// nothing.
pub open spec fn answered(r: Cleanup, a: Answer) -> (Cleanup, Seq<Deed>) {
    match (r.stage, a) {
        (Stage::Ticks, Answer::Ticks(now)) => {
            let c = r.children[r.at as int];
            if now is Some && now->Some_0 != c.start_ticks {
                let (s, more) = scan(Cleanup { at: r.at + 1, ..r });
                (s, seq![Deed::Log(replaced_says(c))] + more)
            } else {
                (Cleanup { stage: Stage::Alive, ..r }, Seq::empty())
            }
        },
        (Stage::Alive, Answer::Alive(alive)) => found(r, alive),
        (Stage::Pausing, Answer::Paused) => (
            Cleanup { stage: Stage::Survivor, ..r },
            Seq::empty(),
        ),
        (Stage::Survivor, Answer::Alive(alive)) => survived(r, alive),
        _ => (r, Seq::empty()),
    }
}

/// What the recovery wants.
pub open spec fn wants(r: Cleanup) -> Question {
    match r.stage {
        Stage::Ticks => Question::Ticks(r.children[r.at as int].pid),
        Stage::Alive => Question::Alive(r.children[r.at as int].pgid),
        Stage::Pausing => Question::Pause(2),
        Stage::Survivor => Question::Alive(r.children[r.doomed[r.checked as int]].pgid),
        Stage::Done => Question::Nothing,
    }
}

// ---------------------------------------------------------------------------
// Recovery
// ---------------------------------------------------------------------------

/// What was found where the state file should be.
pub enum Leftover {
    /// No file that can be opened.
    Nothing,
    /// A file that does not hold a state, for the reason given.
    Unreadable(String),
    /// The state that an earlier run left behind.
    Found(Snapshot),
}

/// What is to be done to the outside.
#[derive(Debug, PartialEq, Eq)]
pub enum Chore {
    /// Log a line of the supervisor's own.
    Log(String),
    /// Send a signal to a process group.
    Kill { pgid: i32, signal: i32 },
    /// Delete the state file.
    RemoveFile,
}

impl View for Chore {
    type V = Deed;

    open spec fn view(&self) -> Deed {
        match self {
            Chore::Log(t) => Deed::Log(t@),
            Chore::Kill { pgid, signal } => Deed::Kill { pgid: *pgid, signal: *signal },
            Chore::RemoveFile => Deed::RemoveFile,
        }
    }
}

/// The deeds that chores stand for.
pub open spec fn deeds(chores: Seq<Chore>) -> Seq<Deed> {
    chores.map_values(|c: Chore| c@)
}

fn push(out: &mut Vec<Chore>, c: Chore)
    ensures
        deeds(final(out)@) == deeds(old(out)@).push(c@),
{
    out.push(c);
    assert(deeds(out@) =~= deeds(old(out)@).push(c@));
}

/// The line for a group, shown as `shown`, that is asked to stop.
pub fn terminating_line(shown: &str, pgid: i32) -> (r: String)
    ensures
        r@ == terminating_says(shown@, pgid),
        r@ == "  terminating orphaned group "@ + shown@ + " (pgid "@ + signed_decimal(pgid as int)
            + ")"@,
{
    "  terminating orphaned group ".to_owned().concat(shown).concat(" (pgid ").concat(
        signed_text(pgid).as_str(),
    ).concat(")")
}

/// The line for a group, shown as `shown`, that is killed.
pub fn surviving_line(shown: &str, pgid: i32) -> (r: String)
    ensures
        r@ == surviving_says(shown@, pgid),
        r@ == "  force-killing surviving group "@ + shown@ + " (pgid "@ + signed_decimal(pgid as int)
            + ")"@,
{
    "  force-killing surviving group ".to_owned().concat(shown).concat(" (pgid ").concat(
        signed_text(pgid).as_str(),
    ).concat(")")
}

/// A recovery of process groups that an earlier run left behind.
pub struct Recovery {
    children: Vec<ProcState>,
    stage: Stage,
    at: usize,
    doomed: Vec<usize>,
    checked: usize,
}

impl View for Recovery {
    type V = Cleanup;

    closed spec fn view(&self) -> Cleanup {
        Cleanup {
            children: self.children@.map_values(|c: ProcState| c@),
            stage: self.stage,
            at: self.at as nat,
            doomed: self.doomed@.map_values(|i: usize| i as int),
            checked: self.checked as nat,
        }
    }
}

impl Recovery {
    /// Every position is one of a child.
    pub closed spec fn wf(&self) -> bool {
        &&& self.at <= self.children@.len()
        &&& self.stage == Stage::Ticks || self.stage == Stage::Alive ==> self.at
            < self.children@.len()
        &&& forall|k: int|
            0 <= k < self.doomed@.len() ==> #[trigger] self.doomed@[k] < self.children@.len()
        &&& self.stage == Stage::Pausing ==> self.checked == 0 && self.doomed@.len() > 0
        &&& self.stage == Stage::Survivor ==> self.checked < self.doomed@.len()
        &&& self.stage == Stage::Ticks || self.stage == Stage::Alive ==> self.checked == 0
    }

    /// What is wanted next.
    pub fn question(&self) -> (r: Question)
        requires
            self.wf(),
        ensures
            r == wants(self@),
            self@.stage == Stage::Pausing ==> r == Question::Pause(2),
    {
        match self.stage {
            Stage::Ticks => Question::Ticks(self.children[self.at].pid),
            Stage::Alive => Question::Alive(self.children[self.at].pgid),
            Stage::Pausing => Question::Pause(RECOVERY_PAUSE_SECONDS),
            Stage::Survivor => Question::Alive(
                self.children[self.doomed[self.checked]].pgid,
            ),
            Stage::Done => Question::Nothing,
        }
    }

    fn scan(&mut self, out: &mut Vec<Chore>)
        requires
            old(self).at <= old(self).children@.len(),
            old(self).checked == 0,
            forall|k: int|
                0 <= k < old(self).doomed@.len() ==> #[trigger] old(self).doomed@[k]
                    < old(self).children@.len(),
        ensures
            final(self).wf(),
            final(self)@ == scan(old(self)@).0,
            deeds(final(out)@) == deeds(old(out)@) + scan(old(self)@).1,
    {
        let ghost r = self@;
        let n = self.children.len();
        while self.at < n
            invariant
                self.at <= n,
                n == self.children@.len(),
                self.checked == 0,
                forall|k: int|
                    0 <= k < self.doomed@.len() ==> #[trigger] self.doomed@[k]
                        < self.children@.len(),
                r == old(self)@,
                scan(self@) == scan(r),
                out@ == old(out)@,
            decreases n - self.at,
        {
            let ghost here = self@;
            let pgid: i32 = self.children[self.at].pgid;
            let ticks: u64 = self.children[self.at].start_ticks;
            assert(here.children[here.at as int].pgid == pgid);
            assert(here.children[here.at as int].start_ticks == ticks);
            if pgid <= 0 {
                self.at = self.at + 1;
                assert(self@ =~= (Cleanup { at: here.at + 1, ..here }));
            } else {
                self.stage = if ticks != 0 {
                    Stage::Ticks
                } else {
                    Stage::Alive
                };
                assert(self@ =~= scan(r).0);
                assert(deeds(out@) =~= deeds(old(out)@) + scan(r).1);
                return ;
            }
        }
        if self.doomed.len() == 0 {
            self.stage = Stage::Done;
            push(out, Chore::RemoveFile);
        } else {
            self.stage = Stage::Pausing;
        }
        assert(self@ =~= scan(r).0);
        assert(deeds(out@) =~= deeds(old(out)@) + scan(r).1);
    }

    fn on_ticks(&mut self, now: Option<u64>, out: &mut Vec<Chore>)
        requires
            old(self).wf(),
            old(self)@.stage == Stage::Ticks,
        ensures
            final(self).wf(),
            final(self)@ == answered(old(self)@, Answer::Ticks(now)).0,
            deeds(final(out)@) == deeds(old(out)@) + answered(
                old(self)@,
                Answer::Ticks(now),
            ).1,
    {
        let ghost r = self@;
        let ghost before = deeds(out@);
        let ghost child = r.children[r.at as int];
        let known: u64 = self.children[self.at].start_ticks;
        let pid: i32 = self.children[self.at].pid;
        let name: String = self.children[self.at].name.clone();
        assert(child.start_ticks == known && child.pid == pid && child.name == name@);
        let other = match now {
            Some(t) => t != known,
            None => false,
        };
        if other {
            push(
                out,
                Chore::Log(
                    "  ".to_owned().concat(name.as_str()).concat(" (pid ").concat(
                        signed_text(pid).as_str(),
                    ).concat(") was replaced by an unrelated process; skipping"),
                ),
            );
            assert(deeds(out@) =~= before + seq![Deed::Log(replaced_says(child))]);
            let total = self.children.len();
            assert(self.at < total);
            self.at = self.at + 1;
            assert(self@ =~= (Cleanup { at: r.at + 1, ..r }));
            self.scan(out);
            assert(deeds(out@) =~= before + answered(r, Answer::Ticks(now)).1);
        } else {
            self.stage = Stage::Alive;
            assert(self@ =~= answered(r, Answer::Ticks(now)).0);
            assert(deeds(out@) =~= before + answered(r, Answer::Ticks(now)).1);
        }
    }

    fn on_found(&mut self, alive: bool, out: &mut Vec<Chore>)
        requires
            old(self).wf(),
            old(self)@.stage == Stage::Alive,
        ensures
            final(self).wf(),
            final(self)@ == found(old(self)@, alive).0,
            deeds(final(out)@) == deeds(old(out)@) + found(old(self)@, alive).1,
    {
        let ghost r = self@;
        let ghost before = deeds(out@);
        let ghost child = r.children[r.at as int];
        let pgid: i32 = self.children[self.at].pgid;
        let name: String = self.children[self.at].name.clone();
        assert(child.pgid == pgid && child.name == name@);
        let total = self.children.len();
        assert(self.at < total);
        if alive {
            let shown = debug_text(name.as_str());
            push(out, Chore::Log(terminating_line(shown.as_str(), pgid)));
            push(out, Chore::Kill { pgid, signal: sigterm() });
            self.doomed.push(self.at);
            self.at = self.at + 1;
            assert(self@ =~= (Cleanup {
                at: r.at + 1,
                doomed: r.doomed.push(r.at as int),
                ..r
            }));
        } else {
            self.at = self.at + 1;
            assert(self@ =~= (Cleanup { at: r.at + 1, ..r }));
        }
        self.scan(out);
        assert(deeds(out@) =~= before + found(r, alive).1);
    }

    fn on_survivor(&mut self, alive: bool, out: &mut Vec<Chore>)
        requires
            old(self).wf(),
            old(self)@.stage == Stage::Survivor,
        ensures
            final(self).wf(),
            final(self)@ == survived(old(self)@, alive).0,
            deeds(final(out)@) == deeds(old(out)@) + survived(old(self)@, alive).1,
    {
        let ghost r = self@;
        let ghost before = deeds(out@);
        let ghost child = r.children[r.doomed[r.checked as int]];
        let total = self.doomed.len();
        let i: usize = self.doomed[self.checked];
        let pgid: i32 = self.children[i].pgid;
        let name: String = self.children[i].name.clone();
        assert(child.pgid == pgid && child.name == name@);
        if alive {
            let shown = debug_text(name.as_str());
            push(out, Chore::Log(surviving_line(shown.as_str(), pgid)));
            push(out, Chore::Kill { pgid, signal: sigkill() });
        }
        self.checked = self.checked + 1;
        if self.checked >= total {
            self.stage = Stage::Done;
            push(out, Chore::RemoveFile);
        }
        assert(self@ =~= survived(r, alive).0);
        assert(deeds(out@) =~= before + survived(r, alive).1);
    }

    /// Carries the recovery on by one answer: what to do about it. What is wanted then is what
    /// `question` says.
    pub fn resume(&mut self, answer: Answer) -> (r: Vec<Chore>)
        requires
            old(self).wf(),
        ensures
            final(self).wf(),
            final(self)@ == answered(old(self)@, answer).0,
            deeds(r@) == answered(old(self)@, answer).1,
    {
        let mut out: Vec<Chore> = Vec::new();
        assert(deeds(out@) =~= Seq::<Deed>::empty());
        match answer {
            Answer::Ticks(now) => {
                if self.stage == Stage::Ticks {
                    self.on_ticks(now, &mut out);
                }
            },
            Answer::Alive(alive) => {
                if self.stage == Stage::Alive {
                    self.on_found(alive, &mut out);
                } else if self.stage == Stage::Survivor {
                    self.on_survivor(alive, &mut out);
                }
            },
            Answer::Paused => {
                if self.stage == Stage::Pausing {
                    self.stage = Stage::Survivor;
                    assert(self@ =~= answered(old(self)@, answer).0);
                }
            },
        }
        assert(deeds(out@) =~= answered(old(self)@, answer).1);
        out
    }
}

/// How a recovery begins: with nothing to do where there is no file; by deleting a file that
/// cannot be read, with a warning, or that lists no child; else with a line and its first child.
pub open spec fn opening(path: Text, left: Leftover) -> (Cleanup, Seq<Deed>) {
    match left {
        Leftover::Nothing => (at_first(Seq::empty()), Seq::empty()),
        Leftover::Unreadable(e) => (
            at_first(Seq::empty()),
            seq![Deed::Log(unreadable_says(path, e@)), Deed::RemoveFile],
        ),
        Leftover::Found(snap) => {
            let cs = listed(children(snap.processes@));
            if cs.len() == 0 {
                (at_first(cs), seq![Deed::RemoveFile])
            } else {
                let (s, more) = scan(at_first(cs));
                (s, seq![Deed::Log(stale_says(snap.supervisor_pid, cs.len()))] + more)
            }
        },
    }
}

proof fn lemma_scan_keeps_children(r: Cleanup)
    ensures
        scan(r).0.children == r.children,
    decreases r.children.len() - r.at,
{
    if r.at < r.children.len() && r.children[r.at as int].pgid <= 0 {
        lemma_scan_keeps_children(Cleanup { at: r.at + 1, ..r });
    }
}

/// Begins to recover what an earlier run left behind. This is how a run heals itself when the
/// one before it was killed and could not clean up.
pub fn recover_orphans(path: &str, left: Leftover) -> (r: (Recovery, Vec<Chore>))
    requires
        left matches Leftover::Found(snap) ==> snap.processes.wf(),
    ensures
        r.0.wf(),
        r.0@ == opening(path@, left).0,
        deeds(r.1@) == opening(path@, left).1,
        match left {
            Leftover::Nothing => r.1@.len() == 0 && wants(r.0@) == Question::Nothing,
            Leftover::Unreadable(e) => {
                &&& deeds(r.1@) == seq![
                    Deed::Log(
                        "warning: ignoring unparseable state file "@ + path@ + ": "@ + e@,
                    ),
                    Deed::RemoveFile,
                ]
                &&& wants(r.0@) == Question::Nothing
            },
            Leftover::Found(snap) => {
                &&& r.0@.children.len() == snap.processes@.len()
                &&& forall|k: int|
                    0 <= k < snap.processes.names().len() ==> {
                        let p = snap.processes@[#[trigger] snap.processes.names()[k]];
                        r.0@.children[k] == (Child {
                            name: p.name@,
                            pid: p.pid,
                            pgid: p.pgid,
                            start_ticks: p.start_ticks,
                        })
                    }
                &&& snap.processes@.len() == 0 ==> deeds(r.1@) == seq![Deed::RemoveFile] && wants(
                    r.0@,
                ) == Question::Nothing
                &&& snap.processes@.len() > 0 ==> {
                    &&& r.1@.len() >= 1
                    &&& deeds(r.1@)[0] == Deed::Log(
                        "found stale state from a previous run (supervisor pid "@ + signed_decimal(
                            snap.supervisor_pid as int,
                        ) + "); cleaning up "@ + decimal(snap.processes@.len())
                            + " process group(s)"@,
                    )
                }
            },
        },
{
    let mut out: Vec<Chore> = Vec::new();
    assert(deeds(out@) =~= Seq::<Deed>::empty());
    match left {
        Leftover::Nothing => {
            let r = Recovery {
                children: Vec::new(),
                stage: Stage::Done,
                at: 0,
                doomed: Vec::new(),
                checked: 0,
            };
            assert(r@ =~= at_first(Seq::empty()));
            (r, out)
        },
        Leftover::Unreadable(e) => {
            push(
                &mut out,
                Chore::Log(
                    "warning: ignoring unparseable state file ".to_owned().concat(path).concat(
                        ": ",
                    ).concat(e.as_str()),
                ),
            );
            push(&mut out, Chore::RemoveFile);
            let r = Recovery {
                children: Vec::new(),
                stage: Stage::Done,
                at: 0,
                doomed: Vec::new(),
                checked: 0,
            };
            assert(r@ =~= at_first(Seq::empty()));
            assert(deeds(out@) =~= opening(path@, left).1);
            (r, out)
        },
        Leftover::Found(snap) => {
            let ghost cs = listed(children(snap.processes@));
            let supervisor_pid: i32 = snap.supervisor_pid;
            let mut r = Recovery {
                children: snap.processes.into_values(),
                stage: Stage::Done,
                at: 0,
                doomed: Vec::new(),
                checked: 0,
            };
            proof {
                snap.processes.lemma_wf();
                let names = snap.processes.names();
                assert(children(snap.processes@).dom() =~= snap.processes@.dom());
                assert forall|i: int| 0 <= i < names.len() implies snap.processes@.contains_key(
                    #[trigger] names[i],
                ) by {
                    assert(names.to_set().contains(names[i]));
                }
                assert(r.children@.map_values(|c: ProcState| c@) =~= cs);
                assert(r@ =~= at_first(cs));
                assert(cs.len() == snap.processes@.len());
                assert forall|k: int| 0 <= k < names.len() implies cs[k] == snap.processes@[
                    #[trigger] names[k]
                ]@ by {}
                lemma_scan_keeps_children(at_first(cs));
            }
            let n = r.children.len();
            if n == 0 {
                push(&mut out, Chore::RemoveFile);
                assert(deeds(out@) =~= opening(path@, left).1);
                return (r, out);
            }
            push(
                &mut out,
                Chore::Log(
                    "found stale state from a previous run (supervisor pid ".to_owned().concat(
                        signed_text(supervisor_pid).as_str(),
                    ).concat("); cleaning up ").concat(decimal_text(n as u64).as_str()).concat(
                        " process group(s)",
                    ),
                ),
            );
            r.scan(&mut out);
            assert(deeds(out@) =~= opening(path@, left).1);
            assert(deeds(out@)[0] == Deed::Log(stale_says(supervisor_pid, cs.len())));
            (r, out)
        },
    }
}

} // verus!
