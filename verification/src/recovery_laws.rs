//! What holds of every recovery, whatever it is answered.

use vstd::prelude::*;
use vstd::seq_lib::lemma_seq_concat_contains_all_elements;

use crate::names::{ascending, in_order, lemma_ascending_distinct, lemma_in_order_exists};
use crate::number::{decimal, read_unsigned, signed_decimal};
use crate::signals::{kill, term};
use crate::state::{
    answered, at_first, children, deeds, listed, opening, replaced_says, scan, stale_says,
    start_ticks_of, survived, terminating_says, wants, with_child, without_child, Answer, Child,
    Chore, Cleanup, Deed, Leftover, ProcState, Question, Record, Snapshot, Stage,
};
use crate::text::{
    debug_form, last_index, law_searching_finds_both_ends, nth_word, text_lt, Text,
};

verus! {

/// Where a recovery comes to when it is given `answers`, and all that it does on the way.
pub open spec fn replay(path: Text, left: Leftover, answers: Seq<Answer>) -> (Cleanup, Seq<Deed>)
    decreases answers.len(),
{
    if answers.len() == 0 {
        opening(path, left)
    } else {
        let (r, done) = replay(path, left, answers.drop_last());
        let (s, more) = answered(r, answers.last());
        (s, done + more)
    }
}

/// The deed, if it sends a signal, sends it to the group of a recorded child, and kills only
/// what has been asked to stop before.
spec fn proper(cs: Seq<Child>, deeds: Seq<Deed>, d: Deed) -> bool {
    match d {
        Deed::Kill { pgid, signal } => {
            &&& pgid > 0
            &&& exists|p: int| 0 <= p < cs.len() && (#[trigger] cs[p]).pgid == pgid
            &&& signal == term() || signal == kill()
            &&& deeds.contains(Deed::Kill { pgid, signal: term() })
        },
        _ => true,
    }
}

spec fn held(r: Cleanup, deeds: Seq<Deed>) -> bool {
    &&& r.at <= r.children.len()
    &&& forall|k: int|
        0 <= k < r.doomed.len() ==> {
            &&& 0 <= #[trigger] r.doomed[k] < r.children.len()
            &&& r.children[r.doomed[k]].pgid > 0
            &&& deeds.contains(
                Deed::Kill { pgid: r.children[r.doomed[k]].pgid, signal: term() },
            )
        }
    &&& forall|k: int| 0 <= k < deeds.len() ==> proper(r.children, deeds, #[trigger] deeds[k])
    &&& r.stage == Stage::Ticks || r.stage == Stage::Alive ==> {
        &&& r.at < r.children.len()
        &&& r.children[r.at as int].pgid > 0
    }
    &&& r.stage == Stage::Ticks ==> r.children[r.at as int].start_ticks != 0
    &&& r.stage == Stage::Ticks || r.stage == Stage::Alive || r.stage == Stage::Pausing ==> r.checked
        == 0
    &&& r.stage == Stage::Pausing ==> r.doomed.len() > 0
    &&& r.stage == Stage::Survivor ==> r.checked < r.doomed.len()
    &&& r.stage != Stage::Done ==> !deeds.contains(Deed::RemoveFile)
}

/// Deeds without a signal keep all that went before proper.
proof fn lemma_add_plain(r: Cleanup, deeds: Seq<Deed>, more: Seq<Deed>)
    requires
        forall|k: int| 0 <= k < deeds.len() ==> proper(r.children, deeds, #[trigger] deeds[k]),
        forall|k: int|
            0 <= k < more.len() ==> proper(r.children, deeds + more, #[trigger] more[k]),
    ensures
        forall|k: int|
            0 <= k < (deeds + more).len() ==> proper(
                r.children,
                deeds + more,
                #[trigger] (deeds + more)[k],
            ),
{
    assert forall|k: int| 0 <= k < (deeds + more).len() implies proper(
        r.children,
        deeds + more,
        #[trigger] (deeds + more)[k],
    ) by {
        if k < deeds.len() {
            assert((deeds + more)[k] == deeds[k]);
            assert(proper(r.children, deeds, deeds[k]));
            if let Deed::Kill { pgid, signal } = deeds[k] {
                lemma_seq_concat_contains_all_elements(deeds, more, Deed::Kill { pgid, signal: term() });
            }
        } else {
            assert((deeds + more)[k] == more[k - deeds.len()]);
        }
    }
}

/// Going on with the scan keeps what holds.
proof fn lemma_scan(r: Cleanup, deeds: Seq<Deed>)
    requires
        r.at <= r.children.len(),
        r.checked == 0,
        forall|k: int|
            0 <= k < r.doomed.len() ==> {
                &&& 0 <= #[trigger] r.doomed[k] < r.children.len()
                &&& r.children[r.doomed[k]].pgid > 0
                &&& deeds.contains(
                    Deed::Kill { pgid: r.children[r.doomed[k]].pgid, signal: term() },
                )
            },
        forall|k: int| 0 <= k < deeds.len() ==> proper(r.children, deeds, #[trigger] deeds[k]),
        !deeds.contains(Deed::RemoveFile),
    ensures
        held(scan(r).0, deeds + scan(r).1),
        scan(r).0.children == r.children,
        scan(r).0.doomed == r.doomed,
        scan(r).0.at >= r.at,
        scan(r).0.stage == Stage::Done ==> (deeds + scan(r).1).contains(Deed::RemoveFile),
        forall|k: int| 0 <= k < scan(r).1.len() ==> !(#[trigger] scan(r).1[k] is Kill),
    decreases r.children.len() - r.at,
{
    if r.at >= r.children.len() {
        if r.doomed.len() == 0 {
            let more = seq![Deed::RemoveFile];
            assert(more[0] == Deed::RemoveFile);
            lemma_seq_concat_contains_all_elements(deeds, more, Deed::RemoveFile);
            lemma_add_plain(r, deeds, more);
        } else {
            assert(deeds + Seq::<Deed>::empty() =~= deeds);
        }
    } else if r.children[r.at as int].pgid <= 0 {
        lemma_scan(Cleanup { at: r.at + 1, ..r }, deeds);
    } else {
        assert(deeds + Seq::<Deed>::empty() =~= deeds);
    }
}

/// Deeds that are followed by a scan.
proof fn lemma_then_scan(r: Cleanup, s: Cleanup, deeds: Seq<Deed>, first: Seq<Deed>)
    requires
        held(r, deeds),
        r.stage == Stage::Ticks || r.stage == Stage::Alive,
        s == (Cleanup { at: r.at + 1, doomed: s.doomed, ..r }),
        forall|k: int|
            0 <= k < s.doomed.len() ==> {
                &&& 0 <= #[trigger] s.doomed[k] < s.children.len()
                &&& s.children[s.doomed[k]].pgid > 0
                &&& (deeds + first).contains(
                    Deed::Kill { pgid: s.children[s.doomed[k]].pgid, signal: term() },
                )
            },
        forall|k: int|
            0 <= k < first.len() ==> proper(r.children, deeds + first, #[trigger] first[k]),
        !first.contains(Deed::RemoveFile),
    ensures
        held(scan(s).0, deeds + (first + scan(s).1)),
        scan(s).0.stage == Stage::Done ==> (deeds + (first + scan(s).1)).contains(Deed::RemoveFile),
        scan(s).0.children == r.children,
{
    lemma_add_plain(r, deeds, first);
    lemma_seq_concat_contains_all_elements(deeds, first, Deed::RemoveFile);
    lemma_scan(s, deeds + first);
    assert(deeds + (first + scan(s).1) =~= (deeds + first) + scan(s).1);
}

proof fn lemma_answer(r: Cleanup, deeds: Seq<Deed>, a: Answer)
    requires
        held(r, deeds),
    ensures
        held(answered(r, a).0, deeds + answered(r, a).1),
        answered(r, a).0.children == r.children,
        r.stage != Stage::Done && answered(r, a).0.stage == Stage::Done ==> (deeds + answered(
            r,
            a,
        ).1).contains(Deed::RemoveFile),
{
    let none = Seq::<Deed>::empty();
    assert(deeds + none =~= deeds);
    match (r.stage, a) {
        (Stage::Ticks, Answer::Ticks(now)) => {
            let c = r.children[r.at as int];
            if now is Some && now->Some_0 != c.start_ticks {
                let first = seq![Deed::Log(replaced_says(c))];
                let s = Cleanup { at: r.at + 1, ..r };
                assert forall|k: int| 0 <= k < s.doomed.len() implies {
                    &&& 0 <= #[trigger] s.doomed[k] < s.children.len()
                    &&& s.children[s.doomed[k]].pgid > 0
                    &&& (deeds + first).contains(
                        Deed::Kill { pgid: s.children[s.doomed[k]].pgid, signal: term() },
                    )
                } by {
                    lemma_seq_concat_contains_all_elements(
                        deeds,
                        first,
                        Deed::Kill { pgid: r.children[r.doomed[k]].pgid, signal: term() },
                    );
                }
                lemma_then_scan(r, s, deeds, first);
            }
        },
        (Stage::Alive, Answer::Alive(alive)) => {
            let c = r.children[r.at as int];
            if alive {
                let x = Deed::Kill { pgid: c.pgid, signal: term() };
                let first = seq![
                    Deed::Log(
                        terminating_says(debug_form(c.name), c.pgid),
                    ),
                    x,
                ];
                let s = Cleanup { at: r.at + 1, doomed: r.doomed.push(r.at as int), ..r };
                assert(first[1] == x);
                assert(first.contains(x));
                lemma_seq_concat_contains_all_elements(deeds, first, x);
                assert forall|k: int| 0 <= k < s.doomed.len() implies {
                    &&& 0 <= #[trigger] s.doomed[k] < s.children.len()
                    &&& s.children[s.doomed[k]].pgid > 0
                    &&& (deeds + first).contains(
                        Deed::Kill { pgid: s.children[s.doomed[k]].pgid, signal: term() },
                    )
                } by {
                    if k < r.doomed.len() {
                        assert(s.doomed[k] == r.doomed[k]);
                        lemma_seq_concat_contains_all_elements(
                            deeds,
                            first,
                            Deed::Kill { pgid: r.children[r.doomed[k]].pgid, signal: term() },
                        );
                    }
                }
                lemma_then_scan(r, s, deeds, first);
            } else {
                let s = Cleanup { at: r.at + 1, ..r };
                lemma_then_scan(r, s, deeds, none);
                assert(none + scan(s).1 =~= scan(s).1);
            }
        },
        (Stage::Survivor, Answer::Alive(alive)) => {
            let p = r.doomed[r.checked as int];
            let c = r.children[p];
            let t = Deed::Kill { pgid: c.pgid, signal: term() };
            let more = survived(r, alive).1;
            assert(deeds.contains(t));
            lemma_seq_concat_contains_all_elements(deeds, more, t);
            lemma_seq_concat_contains_all_elements(deeds, more, Deed::RemoveFile);
            assert forall|k: int| 0 <= k < more.len() implies proper(
                r.children,
                deeds + more,
                #[trigger] more[k],
            ) by {
                if more[k] is Kill {
                    assert(more[k] == (Deed::Kill { pgid: c.pgid, signal: kill() }));
                    assert(r.children[p].pgid == c.pgid);
                }
            }
            lemma_add_plain(r, deeds, more);
            assert forall|k: int| 0 <= k < r.doomed.len() implies (deeds + more).contains(
                Deed::Kill { pgid: r.children[#[trigger] r.doomed[k]].pgid, signal: term() },
            ) by {
                lemma_seq_concat_contains_all_elements(
                    deeds,
                    more,
                    Deed::Kill { pgid: r.children[r.doomed[k]].pgid, signal: term() },
                );
            }
            if survived(r, alive).0.stage == Stage::Done {
                assert(more[more.len() - 1] == Deed::RemoveFile);
                assert(more.contains(Deed::RemoveFile));
            } else if more.contains(Deed::RemoveFile) {
                let k = more.index_of(Deed::RemoveFile);
                assert(more[k] == Deed::RemoveFile);
            }
        },
        _ => {},
    }
}

proof fn lemma_replay(path: Text, left: Leftover, answers: Seq<Answer>)
    ensures
        held(replay(path, left, answers).0, replay(path, left, answers).1),
        replay(path, left, answers).0.children == opening(path, left).0.children,
        replay(path, left, answers).0.stage == Stage::Done && !(left is Nothing) ==> replay(
            path,
            left,
            answers,
        ).1.contains(Deed::RemoveFile),
    decreases answers.len(),
{
    if answers.len() == 0 {
        let (r, deeds) = opening(path, left);
        match left {
            Leftover::Nothing => {},
            Leftover::Unreadable(e) => {
                assert(deeds[1] == Deed::RemoveFile);
            },
            Leftover::Found(snap) => {
                let cs = listed(children(snap.processes@));
                if cs.len() == 0 {
                    assert(deeds[0] == Deed::RemoveFile);
                } else {
                    let first = seq![Deed::Log(stale_says(snap.supervisor_pid, cs.len()))];
                    assert(!first.contains(Deed::RemoveFile));
                    lemma_scan(at_first(cs), first);
                }
            },
        }
    } else {
        lemma_replay(path, left, answers.drop_last());
        let (r, done) = replay(path, left, answers.drop_last());
        lemma_answer(r, done, answers.last());
        lemma_seq_concat_contains_all_elements(done, answered(r, answers.last()).1, Deed::RemoveFile);
    }
}

// ---------------------------------------------------------------------------
// Laws
// ---------------------------------------------------------------------------

/// A recovery signals only groups that the state file lists, and kills none that it has not
/// asked to stop before.
pub proof fn law_recovery_signals_only_recorded_groups(
    path: Text,
    left: Leftover,
    answers: Seq<Answer>,
    pgid: i32,
    signal: i32,
)
    requires
        replay(path, left, answers).1.contains(Deed::Kill { pgid, signal }),
    ensures
        pgid > 0,
        exists|p: int|
            0 <= p < opening(path, left).0.children.len() && (#[trigger] opening(
                path,
                left,
            ).0.children[p]).pgid == pgid,
        signal == term() || signal == kill(),
        replay(path, left, answers).1.contains(Deed::Kill { pgid, signal: term() }),
{
    lemma_replay(path, left, answers);
    let (r, deeds) = replay(path, left, answers);
    let k = deeds.index_of(Deed::Kill { pgid, signal });
    assert(proper(r.children, deeds, deeds[k]));
}

/// Where there was a state file, it is gone when the recovery is over, and there until then.
pub proof fn law_recovery_deletes_the_file_last(path: Text, left: Leftover, answers: Seq<Answer>)
    requires
        !(left is Nothing),
    ensures
        replay(path, left, answers).1.contains(Deed::RemoveFile) <==> wants(
            replay(path, left, answers).0,
        ) == Question::Nothing,
{
    lemma_replay(path, left, answers);
}

/// A process whose id has been reused is left alone: where the process that has the id now
/// started at another time than the recorded one, no signal is sent, its group is not among
/// those to be killed later, and the recovery goes on behind it.
pub proof fn law_reused_ids_are_skipped(r: Cleanup, now: u64)
    requires
        r.stage == Stage::Ticks,
        r.at < r.children.len(),
        r.checked == 0,
        now != r.children[r.at as int].start_ticks,
    ensures
        ({
            let (s, more) = answered(r, Answer::Ticks(Some(now)));
            &&& forall|k: int| 0 <= k < more.len() ==> !(#[trigger] more[k] is Kill)
            &&& s.doomed == r.doomed
            &&& s.at > r.at
        }),
{
    lemma_scan_moves(Cleanup { at: r.at + 1, ..r });
}

/// A group that does not exist gets no signal.
pub proof fn law_absent_groups_are_not_signalled(r: Cleanup)
    ensures
        forall|k: int|
            0 <= k < answered(r, Answer::Alive(false)).1.len() ==> !(#[trigger] answered(
                r,
                Answer::Alive(false),
            ).1[k] is Kill),
{
    lemma_scan_moves(Cleanup { at: r.at + 1, ..r });
}

proof fn lemma_scan_moves(r: Cleanup)
    ensures
        forall|k: int| 0 <= k < scan(r).1.len() ==> !(#[trigger] scan(r).1[k] is Kill),
        scan(r).0.doomed == r.doomed,
        scan(r).0.at >= r.at,
        scan(r).0.children == r.children,
        scan(r).0.checked == r.checked,
        r.at <= r.children.len() ==> scan(r).0.at <= r.children.len(),
        !(scan(r).0.stage == Stage::Survivor),
        scan(r).0.stage == Stage::Ticks || scan(r).0.stage == Stage::Alive ==> scan(r).0.at
            < r.children.len(),
    decreases r.children.len() - r.at,
{
    if r.at < r.children.len() && r.children[r.at as int].pgid <= 0 {
        lemma_scan_moves(Cleanup { at: r.at + 1, ..r });
    }
}

/// How much a recovery still has to ask.
pub open spec fn effort(r: Cleanup) -> int {
    match r.stage {
        Stage::Ticks => 3 * (r.children.len() - r.at) + r.doomed.len() + 3,
        Stage::Alive => 3 * (r.children.len() - r.at) + r.doomed.len() + 2,
        Stage::Pausing => r.doomed.len() as int + 1,
        Stage::Survivor => r.doomed.len() - r.checked,
        Stage::Done => 0,
    }
}

/// The answer is one to what the recovery asked.
pub open spec fn fitting(r: Cleanup, a: Answer) -> bool {
    match (r.stage, a) {
        (Stage::Ticks, Answer::Ticks(_)) => true,
        (Stage::Alive, Answer::Alive(_)) => true,
        (Stage::Pausing, Answer::Paused) => true,
        (Stage::Survivor, Answer::Alive(_)) => true,
        _ => false,
    }
}

/// A recovery comes to an end: every answer to what it asked leaves it less to ask.
pub proof fn law_recovery_ends(path: Text, left: Leftover, answers: Seq<Answer>, a: Answer)
    requires
        fitting(replay(path, left, answers).0, a),
    ensures
        0 <= effort(answered(replay(path, left, answers).0, a).0) < effort(
            replay(path, left, answers).0,
        ),
{
    lemma_replay(path, left, answers);
    let (r, deeds) = replay(path, left, answers);
    lemma_answer(r, deeds, a);
    lemma_scan_moves(Cleanup { at: r.at + 1, ..r });
    lemma_scan_moves(Cleanup { at: r.at + 1, doomed: r.doomed.push(r.at as int), ..r });
}

/// What is true of the outside while a recovery looks at it.
pub struct World {
    /// The start time of the process that has the id, if there is one.
    pub ticks: spec_fn(i32) -> Option<u64>,
    /// Whether the group exists when it is first looked at.
    pub there: spec_fn(i32) -> bool,
    /// Whether the group still exists after the pause.
    pub still_there: spec_fn(i32) -> bool,
}

/// The answer, to what the recovery asked, is true.
pub open spec fn truthful(w: World, r: Cleanup, a: Answer) -> bool {
    match r.stage {
        Stage::Ticks => a == Answer::Ticks((w.ticks)(r.children[r.at as int].pid)),
        Stage::Alive => a == Answer::Alive((w.there)(r.children[r.at as int].pgid)),
        Stage::Survivor => a == Answer::Alive(
            (w.still_there)(r.children[r.doomed[r.checked as int]].pgid),
        ),
        _ => true,
    }
}

/// Every answer that the recovery is given is true.
pub open spec fn all_truthful(w: World, path: Text, left: Leftover, answers: Seq<Answer>) -> bool {
    forall|k: int|
        0 <= k < answers.len() ==> truthful(
            w,
            replay(path, left, answers.take(k)).0,
            #[trigger] answers[k],
        )
}

/// The id of the child belongs to another process now.
pub open spec fn reused(w: World, c: Child) -> bool {
    &&& c.start_ticks != 0
    &&& (w.ticks)(c.pid) is Some
    &&& (w.ticks)(c.pid)->Some_0 != c.start_ticks
}

/// The child has left a group behind.
pub open spec fn orphaned(w: World, c: Child) -> bool {
    c.pgid > 0 && !reused(w, c) && (w.there)(c.pgid)
}

/// Every orphan that has been passed is among those asked to stop, and every one of those that
/// was looked at again and was still there has been killed.
spec fn covered(w: World, r: Cleanup, deeds: Seq<Deed>) -> bool {
    &&& forall|p: int|
        0 <= p < r.at && p < r.children.len() && orphaned(w, #[trigger] r.children[p])
            ==> r.doomed.contains(p)
    &&& forall|k: int|
        0 <= k < r.checked && k < r.doomed.len() && (w.still_there)(
            r.children[#[trigger] r.doomed[k]].pgid,
        ) ==> deeds.contains(Deed::Kill { pgid: r.children[r.doomed[k]].pgid, signal: kill() })
    &&& r.stage == Stage::Pausing || r.stage == Stage::Survivor || r.stage == Stage::Done ==> r.at
        >= r.children.len()
    &&& r.stage == Stage::Done ==> r.checked >= r.doomed.len()
}

proof fn lemma_scan_covers(w: World, r: Cleanup, deeds: Seq<Deed>)
    requires
        r.checked == 0,
        forall|p: int|
            0 <= p < r.at && p < r.children.len() && orphaned(w, #[trigger] r.children[p])
                ==> r.doomed.contains(p),
    ensures
        covered(w, scan(r).0, deeds),
    decreases r.children.len() - r.at,
{
    if r.at < r.children.len() && r.children[r.at as int].pgid <= 0 {
        lemma_scan_covers(w, Cleanup { at: r.at + 1, ..r }, deeds);
    }
}

proof fn lemma_answer_covers(w: World, r: Cleanup, deeds: Seq<Deed>, a: Answer)
    requires
        held(r, deeds),
        covered(w, r, deeds),
        truthful(w, r, a),
    ensures
        covered(w, answered(r, a).0, deeds + answered(r, a).1),
{
    let all = deeds + answered(r, a).1;
    match (r.stage, a) {
        (Stage::Ticks, Answer::Ticks(now)) => {
            if now is Some && now->Some_0 != r.children[r.at as int].start_ticks {
                let c = r.children[r.at as int];
                assert(reused(w, c));
                lemma_scan_covers(w, Cleanup { at: r.at + 1, ..r }, all);
            }
        },
        (Stage::Alive, Answer::Alive(alive)) => {
            if alive {
                let s = Cleanup { at: r.at + 1, doomed: r.doomed.push(r.at as int), ..r };
                assert forall|p: int|
                    0 <= p < s.at && p < s.children.len() && orphaned(
                        w,
                        #[trigger] s.children[p],
                    ) implies s.doomed.contains(p) by {
                    if p < r.at {
                        assert(s.doomed[r.doomed.index_of(p)] == p);
                    } else {
                        assert(s.doomed[r.doomed.len() as int] == p);
                    }
                }
                lemma_scan_covers(w, s, all);
            } else {
                lemma_scan_covers(w, Cleanup { at: r.at + 1, ..r }, all);
            }
        },
        (Stage::Survivor, Answer::Alive(alive)) => {
            let s = answered(r, a).0;
            let more = answered(r, a).1;
            assert forall|k: int|
                0 <= k < s.checked && k < s.doomed.len() && (w.still_there)(
                    s.children[#[trigger] s.doomed[k]].pgid,
                ) implies all.contains(
                Deed::Kill { pgid: s.children[s.doomed[k]].pgid, signal: kill() },
            ) by {
                let x = Deed::Kill { pgid: r.children[r.doomed[k]].pgid, signal: kill() };
                lemma_seq_concat_contains_all_elements(deeds, more, x);
                if k == r.checked {
                    assert(more[1] == x);
                }
            }
        },
        _ => {
            assert(all =~= deeds);
        },
    }
}

proof fn lemma_replay_covers(w: World, path: Text, left: Leftover, answers: Seq<Answer>)
    requires
        all_truthful(w, path, left, answers),
    ensures
        covered(w, replay(path, left, answers).0, replay(path, left, answers).1),
    decreases answers.len(),
{
    if answers.len() == 0 {
        if let Leftover::Found(snap) = left {
            let cs = listed(children(snap.processes@));
            lemma_scan_covers(w, at_first(cs), replay(path, left, answers).1);
        }
    } else {
        let fewer = answers.drop_last();
        assert forall|k: int| 0 <= k < fewer.len() implies truthful(
            w,
            replay(path, left, fewer.take(k)).0,
            #[trigger] fewer[k],
        ) by {
            assert(fewer.take(k) =~= answers.take(k));
            assert(answers[k] == fewer[k]);
        }
        lemma_replay_covers(w, path, left, fewer);
        lemma_replay(path, left, fewer);
        assert(answers.take(answers.len() - 1) =~= fewer);
        assert(truthful(w, replay(path, left, fewer).0, answers[answers.len() - 1]));
        let (r, done) = replay(path, left, fewer);
        lemma_answer_covers(w, r, done, answers.last());
    }
}

/// Whatever an earlier run left behind is reaped: when a recovery that was told the truth is
/// over, every recorded group that existed, and whose id had not been reused, has been asked to
/// stop, and has been killed if it still existed after that.
pub proof fn law_every_orphan_is_reaped(
    w: World,
    path: Text,
    left: Leftover,
    answers: Seq<Answer>,
    c: Child,
)
    requires
        all_truthful(w, path, left, answers),
        wants(replay(path, left, answers).0) == Question::Nothing,
        opening(path, left).0.children.contains(c),
        orphaned(w, c),
    ensures
        replay(path, left, answers).1.contains(Deed::Kill { pgid: c.pgid, signal: term() }),
        (w.still_there)(c.pgid) ==> replay(path, left, answers).1.contains(
            Deed::Kill { pgid: c.pgid, signal: kill() },
        ),
{
    lemma_replay(path, left, answers);
    lemma_replay_covers(w, path, left, answers);
    let (r, deeds) = replay(path, left, answers);
    let p = r.children.index_of(c);
    assert(r.children[p] == c);
    let k = r.doomed.index_of(p);
    assert(r.doomed[k] == p);
}

/// A signal that has been sent went to an orphan; and a group that has been killed was still
/// there after the pause.
spec fn earned(w: World, r: Cleanup, deeds: Seq<Deed>) -> bool {
    &&& forall|k: int|
        0 <= k < r.doomed.len() ==> orphaned(w, r.children[#[trigger] r.doomed[k]])
    &&& forall|k: int| 0 <= k < deeds.len() ==> deserved(w, r.children, #[trigger] deeds[k])
}

spec fn deserved(w: World, cs: Seq<Child>, d: Deed) -> bool {
    match d {
        Deed::Kill { pgid, signal } => {
            &&& exists|p: int|
                0 <= p < cs.len() && (#[trigger] cs[p]).pgid == pgid && orphaned(w, cs[p])
            &&& signal == kill() ==> (w.still_there)(pgid)
        },
        _ => true,
    }
}

proof fn lemma_deserved_add(w: World, cs: Seq<Child>, a: Seq<Deed>, b: Seq<Deed>)
    requires
        forall|k: int| 0 <= k < a.len() ==> deserved(w, cs, #[trigger] a[k]),
        forall|k: int| 0 <= k < b.len() ==> deserved(w, cs, #[trigger] b[k]),
    ensures
        forall|k: int| 0 <= k < (a + b).len() ==> deserved(w, cs, #[trigger] (a + b)[k]),
{
    assert forall|k: int| 0 <= k < (a + b).len() implies deserved(w, cs, #[trigger] (a + b)[k]) by {
        if k < a.len() {
            assert((a + b)[k] == a[k]);
        } else {
            assert((a + b)[k] == b[k - a.len()]);
        }
    }
}

/// Where the recovery asks whether a group exists, the id of its child has not been reused.
spec fn cleared(w: World, r: Cleanup) -> bool {
    r.stage == Stage::Alive ==> !reused(w, r.children[r.at as int])
}

proof fn lemma_scan_cleared(w: World, r: Cleanup)
    ensures
        cleared(w, scan(r).0),
    decreases r.children.len() - r.at,
{
    if r.at < r.children.len() && r.children[r.at as int].pgid <= 0 {
        lemma_scan_cleared(w, Cleanup { at: r.at + 1, ..r });
    }
}

proof fn lemma_answer_earned(w: World, r: Cleanup, deeds: Seq<Deed>, a: Answer)
    requires
        held(r, deeds),
        earned(w, r, deeds),
        cleared(w, r),
        truthful(w, r, a),
    ensures
        earned(w, answered(r, a).0, deeds + answered(r, a).1),
        cleared(w, answered(r, a).0),
{
    let (s, more) = answered(r, a);
    let onward = Cleanup { at: r.at + 1, ..r };
    let doomed = Cleanup { at: r.at + 1, doomed: r.doomed.push(r.at as int), ..r };
    lemma_scan_moves(onward);
    lemma_scan_moves(doomed);
    lemma_scan_cleared(w, onward);
    lemma_scan_cleared(w, doomed);
    assert(s.children == r.children);
    match (r.stage, a) {
        (Stage::Alive, Answer::Alive(alive)) => {
            let c = r.children[r.at as int];
            assert(alive ==> orphaned(w, c));
            assert(term() != kill());
            assert forall|k: int| 0 <= k < s.doomed.len() implies orphaned(
                w,
                s.children[#[trigger] s.doomed[k]],
            ) by {
                if k < r.doomed.len() {
                    assert(s.doomed[k] == r.doomed[k]);
                }
            }
            assert forall|k: int| 0 <= k < more.len() implies deserved(
                w,
                r.children,
                #[trigger] more[k],
            ) by {
                if alive {
                    if k >= 2 {
                        assert(more[k] == scan(doomed).1[k - 2]);
                    }
                } else {
                    assert(more[k] == scan(onward).1[k]);
                }
            }
        },
        (Stage::Ticks, Answer::Ticks(now)) => {
            assert forall|k: int| 0 <= k < more.len() implies deserved(
                w,
                r.children,
                #[trigger] more[k],
            ) by {
                if k > 0 {
                    assert(more[k] == scan(onward).1[k - 1]);
                }
            }
        },
        (Stage::Survivor, Answer::Alive(alive)) => {
            let c = r.children[r.doomed[r.checked as int]];
            assert(orphaned(w, c));
            assert forall|k: int| 0 <= k < more.len() implies deserved(
                w,
                r.children,
                #[trigger] more[k],
            ) by {
                if more[k] is Kill {
                    assert(more[k] == (Deed::Kill { pgid: c.pgid, signal: kill() }));
                }
            }
        },
        _ => {},
    }
    lemma_deserved_add(w, r.children, deeds, more);
}

proof fn lemma_replay_earned(w: World, path: Text, left: Leftover, answers: Seq<Answer>)
    requires
        all_truthful(w, path, left, answers),
    ensures
        earned(w, replay(path, left, answers).0, replay(path, left, answers).1),
        cleared(w, replay(path, left, answers).0),
    decreases answers.len(),
{
    if answers.len() == 0 {
        if let Leftover::Found(snap) = left {
            let cs = listed(children(snap.processes@));
            lemma_scan_moves(at_first(cs));
            lemma_scan_cleared(w, at_first(cs));
            let (r, deeds) = opening(path, left);
            assert forall|k: int| 0 <= k < deeds.len() implies deserved(
                w,
                r.children,
                #[trigger] deeds[k],
            ) by {
                if cs.len() > 0 && k > 0 {
                    assert(deeds[k] == scan(at_first(cs)).1[k - 1]);
                }
            }
        }
    } else {
        let fewer = answers.drop_last();
        assert forall|k: int| 0 <= k < fewer.len() implies truthful(
            w,
            replay(path, left, fewer.take(k)).0,
            #[trigger] fewer[k],
        ) by {
            assert(fewer.take(k) =~= answers.take(k));
            assert(answers[k] == fewer[k]);
        }
        lemma_replay_earned(w, path, left, fewer);
        lemma_replay(path, left, fewer);
        assert(answers.take(answers.len() - 1) =~= fewer);
        assert(truthful(w, replay(path, left, fewer).0, answers[answers.len() - 1]));
        let (r, done) = replay(path, left, fewer);
        lemma_answer_earned(w, r, done, answers.last());
    }
}

/// Nothing else is touched: a recovery that is told the truth signals only groups of orphans,
/// and kills only those that still exist after the pause.
pub proof fn law_only_orphans_are_signalled(
    w: World,
    path: Text,
    left: Leftover,
    answers: Seq<Answer>,
    pgid: i32,
    signal: i32,
)
    requires
        all_truthful(w, path, left, answers),
        replay(path, left, answers).1.contains(Deed::Kill { pgid, signal }),
    ensures
        exists|p: int|
            0 <= p < opening(path, left).0.children.len() && (#[trigger] opening(
                path,
                left,
            ).0.children[p]).pgid == pgid && orphaned(w, opening(path, left).0.children[p]),
        signal == kill() ==> (w.still_there)(pgid),
{
    lemma_replay(path, left, answers);
    lemma_replay_earned(w, path, left, answers);
    let (r, deeds) = replay(path, left, answers);
    let k = deeds.index_of(Deed::Kill { pgid, signal });
    assert(deserved(w, r.children, deeds[k]));
}

/// Recording a child that was not recorded and then dropping it leaves the state as it was.
pub proof fn law_removing_undoes_recording(
    s: Record,
    name: Text,
    pid: i32,
    pgid: i32,
    ticks: Option<u64>,
)
    requires
        !s.processes.contains_key(name),
    ensures
        without_child(with_child(s, name, pid, pgid, ticks), name) == s,
{
    assert(without_child(with_child(s, name, pid, pgid, ticks), name).processes =~= s.processes);
}


// ---------------------------------------------------------------------------
// Laws of the snapshot
// ---------------------------------------------------------------------------

proof fn lemma_listed(snap: Snapshot)
    requires
        snap.processes@.dom().finite(),
    ensures
        ({
            let q = in_order(snap.processes@.dom());
            let cs = listed(children(snap.processes@));
            &&& ascending(q)
            &&& q.to_set() == snap.processes@.dom()
            &&& q.no_duplicates()
            &&& q.len() == snap.processes@.dom().len()
            &&& cs.len() == q.len()
            &&& forall|k: int| 0 <= k < q.len() ==> #[trigger] cs[k] == snap.processes@[q[k]]@
            &&& forall|k: int| 0 <= k < q.len() ==> snap.processes@.contains_key(#[trigger] q[k])
        }),
{
    let q = in_order(snap.processes@.dom());
    let cs = listed(children(snap.processes@));
    lemma_in_order_exists(snap.processes@.dom());
    lemma_ascending_distinct(q);
    q.unique_seq_to_set();
    assert(children(snap.processes@).dom() =~= snap.processes@.dom());
    assert forall|k: int| 0 <= k < q.len() implies snap.processes@.contains_key(#[trigger] q[k]) by {
        assert(q.to_set().contains(q[k]));
    }
}

/// The children that a recovery deals with are exactly those that the state file lists, each
/// once, in ascending order of their names. A file that lists none is deleted, and nothing else
/// happens; else the recovery begins with a line that says how many there are.
pub proof fn law_the_recorded_children_are_dealt_with(path: Text, snap: Snapshot)
    requires
        snap.processes@.dom().finite(),
    ensures
        ({
            let (r, done) = opening(path, Leftover::Found(snap));
            let q = in_order(snap.processes@.dom());
            &&& forall|a: int, b: int|
                0 <= a < b < q.len() ==> text_lt(#[trigger] q[a], #[trigger] q[b])
            &&& forall|n: Text| #[trigger] q.contains(n) <==> snap.processes@.contains_key(n)
            &&& r.children.len() == q.len()
            &&& r.children.len() == snap.processes@.dom().len()
            &&& forall|k: int|
                0 <= k < q.len() ==> {
                    let p = snap.processes@[#[trigger] q[k]];
                    &&& r.children[k].name == p.name@
                    &&& r.children[k].pid == p.pid
                    &&& r.children[k].pgid == p.pgid
                    &&& r.children[k].start_ticks == p.start_ticks
                }
            &&& snap.processes@.dom().len() == 0 ==> done == seq![Deed::RemoveFile] && wants(r)
                == Question::Nothing
            &&& snap.processes@.dom().len() > 0 ==> done.len() >= 1 && done[0] == Deed::Log(
                "found stale state from a previous run (supervisor pid "@ + signed_decimal(
                    snap.supervisor_pid as int,
                ) + "); cleaning up "@ + decimal(snap.processes@.dom().len())
                    + " process group(s)"@,
            )
        }),
{
    lemma_listed(snap);
    let q = in_order(snap.processes@.dom());
    let cs = listed(children(snap.processes@));
    lemma_scan_moves(at_first(cs));
    assert forall|n: Text| #[trigger] q.contains(n) <==> snap.processes@.contains_key(n) by {
        assert(q.to_set().contains(n) == q.contains(n));
    }
    assert forall|k: int| 0 <= k < q.len() implies {
        let p = snap.processes@[#[trigger] q[k]];
        &&& cs[k].name == p.name@
        &&& cs[k].pid == p.pid
        &&& cs[k].pgid == p.pgid
        &&& cs[k].start_ticks == p.start_ticks
    } by {
        assert(cs[k] == snap.processes@[q[k]]@);
    }
}

/// Every orphan that the state file lists is reaped, however many others it lists: when a
/// recovery that was told the truth is over, the group recorded under `name`, if it existed and
/// its id had not been reused, has been sent SIGTERM, and SIGKILL if it still existed after that.
pub proof fn law_every_recorded_orphan_is_reaped(
    w: World,
    path: Text,
    snap: Snapshot,
    answers: Seq<Answer>,
    name: Text,
)
    requires
        snap.processes@.dom().finite(),
        all_truthful(w, path, Leftover::Found(snap), answers),
        wants(replay(path, Leftover::Found(snap), answers).0) == Question::Nothing,
        snap.processes@.contains_key(name),
        snap.processes@[name].pgid > 0,
        (w.there)(snap.processes@[name].pgid),
        snap.processes@[name].start_ticks == 0 || (w.ticks)(snap.processes@[name].pid) is None || (
        w.ticks)(snap.processes@[name].pid) == Some(snap.processes@[name].start_ticks),
    ensures
        replay(path, Leftover::Found(snap), answers).1.contains(
            Deed::Kill { pgid: snap.processes@[name].pgid, signal: 15 },
        ),
        (w.still_there)(snap.processes@[name].pgid) ==> replay(
            path,
            Leftover::Found(snap),
            answers,
        ).1.contains(Deed::Kill { pgid: snap.processes@[name].pgid, signal: 9 }),
{
    let left = Leftover::Found(snap);
    let c = snap.processes@[name]@;
    law_the_recorded_children_are_dealt_with(path, snap);
    let q = in_order(snap.processes@.dom());
    assert(q.contains(name));
    let k = q.index_of(name);
    assert(q[k] == name);
    let cs = opening(path, left).0.children;
    assert(cs[k] == c);
    assert(cs.contains(c));
    assert(orphaned(w, c));
    law_every_orphan_is_reaped(w, path, left, answers, c);
}

/// Nothing but recorded orphans is touched: a group that a recovery that is told the truth
/// signals is recorded under some name, exists, and its id has not been reused. The signals are
/// SIGTERM, and SIGKILL for what still exists after the pause.
pub proof fn law_only_recorded_orphans_are_signalled(
    w: World,
    path: Text,
    snap: Snapshot,
    answers: Seq<Answer>,
    pgid: i32,
    signal: i32,
)
    requires
        snap.processes@.dom().finite(),
        all_truthful(w, path, Leftover::Found(snap), answers),
        replay(path, Leftover::Found(snap), answers).1.contains(Deed::Kill { pgid, signal }),
    ensures
        pgid > 0,
        (w.there)(pgid),
        exists|name: Text|
            {
                let p = snap.processes@[name];
                &&& #[trigger] snap.processes@.contains_key(name)
                &&& p.pgid == pgid
                &&& p.start_ticks == 0 || (w.ticks)(p.pid) is None || (w.ticks)(p.pid) == Some(
                    p.start_ticks,
                )
            },
        signal == 15 || signal == 9,
        signal == 9 ==> (w.still_there)(pgid),
{
    let left = Leftover::Found(snap);
    law_the_recorded_children_are_dealt_with(path, snap);
    law_only_orphans_are_signalled(w, path, left, answers, pgid, signal);
    law_recovery_signals_only_recorded_groups(path, left, answers, pgid, signal);
    let cs = opening(path, left).0.children;
    let q = in_order(snap.processes@.dom());
    let k = choose|p: int|
        0 <= p < cs.len() && (#[trigger] cs[p]).pgid == pgid && orphaned(w, cs[p]);
    assert(q.contains(q[k]));
    assert(snap.processes@.contains_key(q[k]));
}

/// Where there is nothing to recover, nothing is done; a file that cannot be read is deleted, with
/// a warning that names it and says why.
pub proof fn law_nothing_readable_ends_the_recovery(path: Text, why: String)
    ensures
        opening(path, Leftover::Nothing).1.len() == 0,
        wants(opening(path, Leftover::Nothing).0) == Question::Nothing,
        opening(path, Leftover::Unreadable(why)).1 == seq![
            Deed::Log("warning: ignoring unparseable state file "@ + path + ": "@ + why@),
            Deed::RemoveFile,
        ],
        wants(opening(path, Leftover::Unreadable(why)).0) == Question::Nothing,
{
}

// ---------------------------------------------------------------------------
// Laws of one answer
// ---------------------------------------------------------------------------

/// A scan passes only children that have no group, and stops at the next that has one, whose
/// start time is asked for exactly if it was recorded. Behind the last, groups that were asked to
/// stop get their pause; if there are none, the file is deleted and the recovery is over.
proof fn lemma_scan_stops(r: Cleanup)
    requires
        r.at <= r.children.len(),
    ensures
        ({
            let (s, more) = scan(r);
            &&& r.at <= s.at <= r.children.len()
            &&& s.children == r.children
            &&& s.doomed == r.doomed
            &&& s.checked == r.checked
            &&& forall|p: int| r.at <= p < s.at ==> (#[trigger] r.children[p]).pgid <= 0
            &&& s.at < r.children.len() ==> {
                &&& r.children[s.at as int].pgid > 0
                &&& more.len() == 0
                &&& s.stage == if r.children[s.at as int].start_ticks != 0 {
                    Stage::Ticks
                } else {
                    Stage::Alive
                }
            }
            &&& s.at == r.children.len() ==> if r.doomed.len() > 0 {
                s.stage == Stage::Pausing && more.len() == 0
            } else {
                s.stage == Stage::Done && more == seq![Deed::RemoveFile]
            }
        }),
    decreases r.children.len() - r.at,
{
    if r.at < r.children.len() && r.children[r.at as int].pgid <= 0 {
        lemma_scan_stops(Cleanup { at: r.at + 1, ..r });
    }
}

/// The recovery begins with the first recorded child that has a group.
pub proof fn law_the_scan_begins_at_the_first_group(path: Text, snap: Snapshot)
    requires
        snap.processes@.dom().finite(),
        snap.processes@.dom().len() > 0,
    ensures
        ({
            let s = opening(path, Leftover::Found(snap)).0;
            &&& s.doomed.len() == 0
            &&& s.checked == 0
            &&& s.at <= s.children.len()
            &&& forall|p: int| 0 <= p < s.at ==> (#[trigger] s.children[p]).pgid <= 0
            &&& s.at < s.children.len() ==> {
                &&& s.children[s.at as int].pgid > 0
                &&& wants(s) == if s.children[s.at as int].start_ticks != 0 {
                    Question::Ticks(s.children[s.at as int].pid)
                } else {
                    Question::Alive(s.children[s.at as int].pgid)
                }
            }
            &&& s.at == s.children.len() ==> wants(s) == Question::Nothing
        }),
{
    lemma_listed(snap);
    lemma_scan_stops(at_first(listed(children(snap.processes@))));
}

/// What one answer about the current child comes to. A start time other than the recorded one has
/// the child left alone, with a line; else its group is asked about. A group that exists is sent
/// SIGTERM, with a line, and is looked at again later; one that does not is passed. In any case
/// but the second the next child that has a group comes next, and none that has one is passed
/// over; behind the last comes the pause, if there is something to wait for.
pub proof fn law_each_child_is_dealt_with(r: Cleanup, a: Answer)
    requires
        r.at < r.children.len(),
        match a {
            Answer::Ticks(_) => r.stage == Stage::Ticks,
            Answer::Alive(_) => r.stage == Stage::Alive,
            Answer::Paused => false,
        },
    ensures
        ({
            let (s, more) = answered(r, a);
            let c = r.children[r.at as int];
            let kept_on = match a {
                Answer::Ticks(now) => now is None || now == Some(c.start_ticks),
                _ => false,
            };
            let strikes = a == Answer::Alive(true);
            &&& wants(r) == match a {
                Answer::Ticks(_) => Question::Ticks(c.pid),
                _ => Question::Alive(c.pgid),
            }
            &&& s.children == r.children
            &&& s.checked == r.checked
            &&& kept_on ==> s.stage == Stage::Alive && s.at == r.at && s.doomed == r.doomed
                && more.len() == 0
            &&& !kept_on ==> {
                &&& r.at < s.at <= r.children.len()
                &&& forall|p: int| r.at < p < s.at ==> (#[trigger] r.children[p]).pgid <= 0
                &&& s.at < r.children.len() ==> {
                    &&& r.children[s.at as int].pgid > 0
                    &&& s.stage == if r.children[s.at as int].start_ticks != 0 {
                        Stage::Ticks
                    } else {
                        Stage::Alive
                    }
                }
                &&& s.at == r.children.len() ==> s.stage == if s.doomed.len() > 0 {
                    Stage::Pausing
                } else {
                    Stage::Done
                }
                &&& s.doomed == if strikes {
                    r.doomed.push(r.at as int)
                } else {
                    r.doomed
                }
                &&& match a {
                    Answer::Ticks(_) => {
                        &&& more.len() == 1 + (if s.stage == Stage::Done {
                            1int
                        } else {
                            0
                        })
                        &&& more[0] == Deed::Log(
                            "  "@ + c.name + " (pid "@ + signed_decimal(c.pid as int)
                                + ") was replaced by an unrelated process; skipping"@,
                        )
                    },
                    _ => strikes ==> {
                        &&& more.len() == 2
                        &&& more[0] == Deed::Log(
                            "  terminating orphaned group "@ + debug_form(c.name) + " (pgid "@
                                + signed_decimal(c.pgid as int) + ")"@,
                        )
                        &&& more[1] == (Deed::Kill { pgid: c.pgid, signal: 15 })
                    },
                }
                &&& a == Answer::Alive(false) ==> more.len() == (if s.stage == Stage::Done {
                    1int
                } else {
                    0
                })
                &&& s.stage == Stage::Done ==> more.last() == Deed::RemoveFile
            }
        }),
{
    lemma_scan_stops(Cleanup { at: r.at + 1, ..r });
    lemma_scan_stops(Cleanup { at: r.at + 1, doomed: r.doomed.push(r.at as int), ..r });
}

/// The groups that were asked to stop have two seconds, and are then looked at again, one by one:
/// one that still exists is sent SIGKILL, with a line. Behind the last the file is deleted and
/// the recovery is over.
pub proof fn law_survivors_are_killed_after_the_pause(r: Cleanup, there: bool)
    requires
        r.checked < r.doomed.len(),
    ensures
        r.stage == Stage::Pausing ==> {
            let (s, more) = answered(r, Answer::Paused);
            &&& wants(r) == Question::Pause(2)
            &&& more.len() == 0
            &&& s.stage == Stage::Survivor
            &&& s.doomed == r.doomed
            &&& s.children == r.children
            &&& s.checked == r.checked
        },
        r.stage == Stage::Survivor ==> {
            let (s, more) = answered(r, Answer::Alive(there));
            let c = r.children[r.doomed[r.checked as int]];
            let last = r.checked + 1 == r.doomed.len();
            &&& wants(r) == Question::Alive(c.pgid)
            &&& s.doomed == r.doomed
            &&& s.children == r.children
            &&& s.checked == r.checked + 1
            &&& s.stage == if last {
                Stage::Done
            } else {
                Stage::Survivor
            }
            &&& there ==> {
                &&& more.len() >= 2
                &&& more[0] == Deed::Log(
                    "  force-killing surviving group "@ + debug_form(c.name) + " (pgid "@
                        + signed_decimal(c.pgid as int) + ")"@,
                )
                &&& more[1] == (Deed::Kill { pgid: c.pgid, signal: 9 })
            }
            &&& more.len() == (if there {
                2int
            } else {
                0
            }) + (if last {
                1int
            } else {
                0
            })
            &&& last ==> more.last() == Deed::RemoveFile
        },
{
}

/// What a recovery wants follows from where it stands.
pub proof fn law_what_a_recovery_wants(r: Cleanup)
    ensures
        match r.stage {
            Stage::Ticks => wants(r) == Question::Ticks(r.children[r.at as int].pid),
            Stage::Alive => wants(r) == Question::Alive(r.children[r.at as int].pgid),
            Stage::Pausing => wants(r) == Question::Pause(2),
            Stage::Survivor => wants(r) == Question::Alive(
                r.children[r.doomed[r.checked as int]].pgid,
            ),
            Stage::Done => wants(r) == Question::Nothing,
        },
{
}

/// An answer to something that was not asked changes nothing and does nothing.
pub proof fn law_only_what_was_asked_counts(r: Cleanup, a: Answer)
    requires
        match wants(r) {
            Question::Ticks(_) => !(a is Ticks),
            Question::Alive(_) => !(a is Alive),
            Question::Pause(_) => !(a is Paused),
            Question::Nothing => true,
        },
    ensures
        answered(r, a) == (r, Seq::<Deed>::empty()),
{
}

// ---------------------------------------------------------------------------
// Laws of the record
// ---------------------------------------------------------------------------

/// Recording a child puts it, as it is, under its name, and leaves every other; dropping one takes
/// it out, and leaves every other.
pub proof fn law_recording_touches_one_child(
    s: Record,
    name: Text,
    pid: i32,
    pgid: i32,
    ticks: Option<u64>,
    other: Text,
)
    ensures
        ({
            let with = with_child(s, name, pid, pgid, ticks);
            let without = without_child(s, name);
            &&& with.path == s.path
            &&& with.supervisor_pid == s.supervisor_pid
            &&& with.processes.contains_key(name)
            &&& with.processes[name].name == name
            &&& with.processes[name].pid == pid
            &&& with.processes[name].pgid == pgid
            &&& match ticks {
                Some(t) => with.processes[name].start_ticks == t,
                None => with.processes[name].start_ticks == 0,
            }
            &&& without.path == s.path
            &&& without.supervisor_pid == s.supervisor_pid
            &&& !without.processes.contains_key(name)
            &&& other != name ==> {
                &&& with.processes.contains_key(other) <==> s.processes.contains_key(other)
                &&& without.processes.contains_key(other) <==> s.processes.contains_key(other)
                &&& with.processes[other] == s.processes[other]
                &&& without.processes[other] == s.processes[other]
            }
        }),
{
}

/// A recorded child and a chore stand for themselves.
pub proof fn law_children_and_chores_stand_for_themselves(p: ProcState, c: Chore, chores: Seq<Chore>)
    ensures
        p@.name == p.name@,
        p@.pid == p.pid,
        p@.pgid == p.pgid,
        p@.start_ticks == p.start_ticks,
        match c {
            Chore::Log(t) => c@ == Deed::Log(t@),
            Chore::Kill { pgid, signal } => c@ == (Deed::Kill { pgid, signal }),
            Chore::RemoveFile => c@ == Deed::RemoveFile,
        },
        deeds(chores).len() == chores.len(),
        forall|k: int| 0 <= k < chores.len() ==> #[trigger] deeds(chores)[k] == chores[k]@,
{
}

/// The start time is the twentieth word behind the last closing parenthesis and the one-byte
/// character that follows it, whatever stands in front, other parentheses among it.
pub proof fn law_the_start_time_is_the_twentieth_word(before: Text, c: char, rest: Text)
    requires
        !rest.contains(')'),
        c != ')',
    ensures
        start_ticks_of(before + seq![')'] + (seq![c] + rest)) == if c > '\u{7f}' {
            None::<nat>
        } else {
            match nth_word(rest, 19) {
                Some(word) => match read_unsigned(word, 18446744073709551615) {
                    Ok(t) => Some(t),
                    Err(_) => None,
                },
                None => None,
            }
        },
        start_ticks_of(before + seq![')']) is None,
        !before.contains(')') ==> start_ticks_of(before) is None,
{
    let tail = seq![c] + rest;
    assert(!tail.contains(')')) by {
        if tail.contains(')') {
            let k = tail.index_of(')');
            if k > 0 {
                assert(rest[k - 1] == ')');
            }
        }
    }
    let stat = before + seq![')'] + tail;
    law_searching_finds_both_ends(before, ')', tail);
    assert(last_index(stat, ')') == before.len());
    assert(stat[before.len() as int + 1] == c);
    assert(stat.skip(before.len() as int + 2) =~= rest);
    law_searching_finds_both_ends(before, ')', Seq::empty());
    assert(before + seq![')'] + Seq::<char>::empty() =~= before + seq![')']);
}

} // verus!
