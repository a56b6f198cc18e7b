//! What comes out of evaluating a flake: process maps, test maps, and the errors on the way.

use vstd::prelude::*;
use vstd::string::*;

use crate::config::{
    config_fault_text, fault_text, flaw, graph_of, names_filled, Config, Process, Test,
};
use crate::graph::{lemma_plan_settled, plan, Fault};
use crate::names::NameMap;
use crate::text::{
    debug_form, debug_text, lossy_form, reads_plainly, text_of, trim_end, trim_start, trimmed, views,
    Text,
};

verus! {

// ---------------------------------------------------------------------------
// Evaluation
// ---------------------------------------------------------------------------

/// How an evaluation has ended.
pub enum Evaluation<T> {
    /// The evaluator could not be run, for the reason given.
    NotRun(String),
    /// The evaluator has failed and written this to its standard error.
    Failed(Vec<u8>),
    /// What came out could not be read, for the reason given.
    Unreadable(String),
    /// What came out.
    Value(T),
}

/// The reference of an attribute of a flake.
pub open spec fn reference_of(flake: Text, attr: Text) -> Text {
    flake + "#"@ + attr
}

/// The reference of an attribute of a flake.
pub fn reference(flake: &str, attr: &str) -> (r: String)
    ensures
        r@ == reference_of(flake@, attr@),
        r@ == flake@ + "#"@ + attr@,
{
    flake.to_owned().concat("#").concat(attr)
}

/// The message for an evaluator that could not be run.
pub open spec fn not_run_says(error: Text) -> Text {
    "failed to run `nix eval`: "@ + error
}

/// The message for an evaluator that has failed, with what it wrote.
pub open spec fn failed_says(reference: Text, stderr: Text) -> Text {
    "`nix eval "@ + reference + "` failed:\n"@ + trim_end(trim_start(stderr))
}

/// The message for a value that is not what was expected.
pub open spec fn unreadable_says(reference: Text, expected: Text, error: Text) -> Text {
    "parsing `"@ + reference + "` as a "@ + expected + ": "@ + error
}

/// The message for an evaluator that has failed; `stderr` is what it wrote, as text.
pub fn failed_message(reference: &str, stderr: &str) -> (r: String)
    ensures
        r@ == failed_says(reference@, stderr@),
        r@ == "`nix eval "@ + reference@ + "` failed:\n"@ + trim_end(trim_start(stderr@)),
{
    "`nix eval ".to_owned().concat(reference).concat("` failed:\n").concat(trimmed(stderr))
}

/// The value that an evaluation of `flake#attr` has come to, which should have been a value of
/// the `expected` kind; or the message for what went wrong.
pub fn evaluated<T>(flake: &str, attr: &str, expected: &str, eval: Evaluation<T>) -> (r: Result<
    T,
    String,
>)
    ensures
        match eval {
            Evaluation::NotRun(e) => r is Err && r->Err_0@ == not_run_says(e@),
            Evaluation::Failed(stderr) => {
                &&& r is Err
                &&& r->Err_0@ == failed_says(reference_of(flake@, attr@), lossy_form(stderr@))
                &&& reads_plainly(stderr@)
            },
            Evaluation::Unreadable(e) => r is Err && r->Err_0@ == unreadable_says(
                reference_of(flake@, attr@),
                expected@,
                e@,
            ),
            Evaluation::Value(v) => r == Ok::<T, String>(v),
        },
        match eval {
            Evaluation::NotRun(e) => r is Err && r->Err_0@ == "failed to run `nix eval`: "@ + e@,
            Evaluation::Failed(stderr) => r is Err && r->Err_0@ == "`nix eval "@ + (flake@ + "#"@
                + attr@) + "` failed:\n"@ + trim_end(trim_start(lossy_form(stderr@))),
            Evaluation::Unreadable(e) => r is Err && r->Err_0@ == "parsing `"@ + (flake@ + "#"@
                + attr@) + "` as a "@ + expected@ + ": "@ + e@,
            Evaluation::Value(v) => r == Ok::<T, String>(v),
        },
{
    match eval {
        Evaluation::NotRun(e) => Err("failed to run `nix eval`: ".to_owned().concat(e.as_str())),
        Evaluation::Failed(stderr) => {
            let text = text_of(stderr.as_slice());
            Err(failed_message(reference(flake, attr).as_str(), text.as_str()))
        },
        Evaluation::Unreadable(e) => Err(
            "parsing `".to_owned().concat(reference(flake, attr).as_str()).concat("` as a ").concat(
                expected,
            ).concat(": ").concat(e.as_str()),
        ),
        Evaluation::Value(v) => Ok(v),
    }
}

impl Config {
    /// The configuration that an evaluation of the processes in `flake#attr` has come to.
    pub fn load(flake: &str, attr: &str, eval: Evaluation<NameMap<Process>>) -> (r: Result<
        Config,
        String,
    >)
        requires
            eval matches Evaluation::Value(m) ==> m.wf(),
        ensures
            match eval {
                Evaluation::NotRun(e) => r is Err && r->Err_0@ == not_run_says(e@),
                Evaluation::Failed(stderr) => {
                    &&& r is Err
                    &&& r->Err_0@ == failed_says(reference_of(flake@, attr@), lossy_form(stderr@))
                    &&& reads_plainly(stderr@)
                },
                Evaluation::Unreadable(e) => r is Err && r->Err_0@ == unreadable_says(
                    reference_of(flake@, attr@),
                    "process map"@,
                    e@,
                ),
                Evaluation::Value(m) => match r {
                    Ok(cfg) => {
                        &&& flaw(m@, m.names()) is None
                        &&& cfg.wf()
                        &&& names_filled(m@, cfg.processes@)
                        &&& cfg.processes.names() == m.names()
                        &&& cfg.graph() == graph_of(m@)
                        &&& plan(cfg.graph(), cfg.processes.names()) is Ok
                    },
                    Err(e) => flaw(m@, m.names()) is Some && e@ == config_fault_text(
                        flaw(m@, m.names())->Some_0,
                    ),
                },
            },
            match eval {
                Evaluation::NotRun(e) => r is Err && r->Err_0@ == "failed to run `nix eval`: "@ + e@,
                Evaluation::Failed(stderr) => r is Err && r->Err_0@ == "`nix eval "@ + (flake@ + "#"@
                    + attr@) + "` failed:\n"@ + trim_end(trim_start(lossy_form(stderr@))),
                Evaluation::Unreadable(e) => r is Err && r->Err_0@ == "parsing `"@ + (flake@ + "#"@
                    + attr@) + "` as a "@ + "process map"@ + ": "@ + e@,
                Evaluation::Value(v) => true,
            },
            eval is Value && r is Ok ==> {
                let m = eval->Value_0;
                &&& r->Ok_0.processes@.dom() == m@.dom()
                &&& forall|n: Text| #[trigger]
                    m@.contains_key(n) ==> {
                        let p = m@[n];
                        let q = r->Ok_0.processes@[n];
                        &&& q.name@ == n
                        &&& q.command == p.command
                        &&& q.cwd == p.cwd
                        &&& q.env == p.env
                        &&& q.depends_on == p.depends_on
                        &&& q.oneshot == p.oneshot
                        &&& q.shutdown_signal == p.shutdown_signal
                        &&& q.health_check == p.health_check
                    }
            },
    {
        match evaluated(flake, attr, "process map", eval) {
            Ok(processes) => Config::from_processes(processes),
            Err(e) => Err(e),
        }
    }
}

/// The tests that an evaluation of those in `flake#attr` has come to.
pub fn load_tests(flake: &str, attr: &str, eval: Evaluation<NameMap<Test>>) -> (r: Result<
    NameMap<Test>,
    String,
>)
    ensures
        match eval {
            Evaluation::NotRun(e) => r is Err && r->Err_0@ == not_run_says(e@),
            Evaluation::Failed(stderr) => {
                &&& r is Err
                &&& r->Err_0@ == failed_says(reference_of(flake@, attr@), lossy_form(stderr@))
                &&& reads_plainly(stderr@)
            },
            Evaluation::Unreadable(e) => r is Err && r->Err_0@ == unreadable_says(
                reference_of(flake@, attr@),
                "test map"@,
                e@,
            ),
            Evaluation::Value(m) => r == Ok::<NameMap<Test>, String>(m),
        },
        match eval {
            Evaluation::NotRun(e) => r is Err && r->Err_0@ == "failed to run `nix eval`: "@ + e@,
            Evaluation::Failed(stderr) => r is Err && r->Err_0@ == "`nix eval "@ + (flake@ + "#"@
                + attr@) + "` failed:\n"@ + trim_end(trim_start(lossy_form(stderr@))),
            Evaluation::Unreadable(e) => r is Err && r->Err_0@ == "parsing `"@ + (flake@ + "#"@
                + attr@) + "` as a "@ + "test map"@ + ": "@ + e@,
            Evaluation::Value(v) => r == Ok::<NameMap<Test>, String>(v),
        },
{
    evaluated(flake, attr, "test map", eval)
}

/// The line to log for a configuration or a test map that could not be loaded.
pub fn load_failure_line(error: &str) -> (r: String)
    ensures
        r@ == "error: "@ + error@,
{
    "error: ".to_owned().concat(error)
}

// ---------------------------------------------------------------------------
// Choosing a test
// ---------------------------------------------------------------------------

/// Names in quotes, with a comma behind each but the last.
pub open spec fn joined(names: Seq<Text>) -> Text
    decreases names.len(),
{
    if names.len() == 0 {
        Seq::empty()
    } else if names.len() == 1 {
        debug_form(names[0])
    } else {
        joined(names.drop_last()) + ", "@ + debug_form(names.last())
    }
}

/// The message for a test, shown as `shown`, that is not among the defined ones.
pub open spec fn no_test_says(shown: Text, defined: Text) -> Text {
    "no test named "@ + shown + "; defined tests: ["@ + defined + "]"@
}

/// The message for a test, shown as `shown`, that is not among the defined ones.
pub fn no_test_message(shown: &str, defined: &str) -> (r: String)
    ensures
        r@ == no_test_says(shown@, defined@),
        r@ == "no test named "@ + shown@ + "; defined tests: ["@ + defined@ + "]"@,
{
    "no test named ".to_owned().concat(shown).concat("; defined tests: [").concat(defined).concat(
        "]",
    )
}

fn joined_names(tests: &NameMap<Test>) -> (r: String)
    requires
        tests.wf(),
    ensures
        r@ == joined(tests.names()),
{
    let n = tests.len();
    let mut out = String::new();
    let mut i: usize = 0;
    while i < n
        invariant
            tests.wf(),
            n == tests.names().len(),
            i <= n,
            out@ == joined(tests.names().take(i as int)),
        decreases n - i,
    {
        let shown = debug_text(tests.name_at(i).as_str());
        let ghost more = tests.names().take(i + 1);
        assert(more.drop_last() =~= tests.names().take(i as int));
        if i > 0 {
            out.append(", ");
        }
        out.append(shown.as_str());
        assert(out@ =~= joined(more));
        i += 1;
    }
    assert(tests.names().take(n as int) =~= tests.names());
    out
}

/// The test with the given name, or the message that says which tests there are.
pub fn choose_test<'a>(tests: &'a NameMap<Test>, name: &str) -> (r: Result<&'a Test, String>)
    requires
        tests.wf(),
    ensures
        match r {
            Ok(t) => tests@.contains_key(name@) && *t == tests@[name@],
            Err(e) => !tests@.contains_key(name@) && e@ == no_test_says(
                debug_form(name@),
                joined(tests.names()),
            ),
        },
        r is Err <==> !tests@.contains_key(name@),
        r is Err ==> r->Err_0@ == "no test named "@ + debug_form(name@) + "; defined tests: ["@
            + joined(tests.names()) + "]"@,
{
    match tests.get(name) {
        Some(t) => Ok(t),
        None => {
            let shown = debug_text(name);
            let defined = joined_names(tests);
            Err(no_test_message(shown.as_str(), defined.as_str()))
        },
    }
}

/// The message for services of a test, shown as `shown`, that have no start order.
pub open spec fn services_fault_says(shown: Text, error: Text) -> Text {
    "error resolving services for test "@ + shown + ": "@ + error
}

/// The message for services of a test, shown as `shown`, that have no start order.
pub fn services_fault_message(shown: &str, error: &str) -> (r: String)
    ensures
        r@ == services_fault_says(shown@, error@),
        r@ == "error resolving services for test "@ + shown@ + ": "@ + error@,
{
    "error resolving services for test ".to_owned().concat(shown).concat(": ").concat(error)
}

/// Whether every name of `order` is that of a defined process.
pub open spec fn all_defined(cfg: Config, order: Seq<String>) -> bool {
    forall|i: int| 0 <= i < order.len() ==> cfg.processes@.contains_key(#[trigger] order[i]@)
}

/// What to bring up for the test with the given name: its services and all that they depend
/// on, in start order.
pub fn services_order(cfg: &Config, name: &str, test: &Test) -> (r: Result<Vec<String>, String>)
    requires
        cfg.wf(),
    ensures
        match r {
            Ok(o) => {
                &&& plan(cfg.graph(), views(test.services@)) == Ok::<_, Fault>(views(o@))
                &&& all_defined(*cfg, o@)
            },
            Err(e) => plan(cfg.graph(), views(test.services@)) is Err && e@ == services_fault_says(
                debug_form(name@),
                fault_text(plan(cfg.graph(), views(test.services@))->Err_0),
            ),
        },
        r is Err ==> r->Err_0@ == "error resolving services for test "@ + debug_form(name@) + ": "@
            + fault_text(plan(cfg.graph(), views(test.services@))->Err_0),
{
    match cfg.start_order_from(&test.services) {
        Ok(o) => {
            proof {
                cfg.processes.lemma_wf();
                let g = cfg.graph();
                assert(g.dom() =~= cfg.processes@.dom());
                lemma_plan_settled(g, views(test.services@));
                assert forall|i: int| 0 <= i < o@.len() implies cfg.processes@.contains_key(
                    #[trigger] o@[i]@,
                ) by {
                    assert(g.contains_key(views(o@)[i]));
                }
            }
            Ok(o)
        },
        Err(e) => {
            let shown = debug_text(name);
            Err(services_fault_message(shown.as_str(), e.as_str()))
        },
    }
}

/// The test with the given name and what to bring up for it; or the message for a test that is
/// not defined, or for services that have no start order.
pub fn prepare_test<'a>(cfg: &Config, tests: &'a NameMap<Test>, name: &str) -> (r: Result<
    (&'a Test, Vec<String>),
    String,
>)
    requires
        cfg.wf(),
        tests.wf(),
    ensures
        match r {
            Ok((t, o)) => {
                &&& tests@.contains_key(name@)
                &&& *t == tests@[name@]
                &&& plan(cfg.graph(), views(t.services@)) == Ok::<_, Fault>(views(o@))
                &&& all_defined(*cfg, o@)
            },
            Err(e) => if tests@.contains_key(name@) {
                let planned = plan(cfg.graph(), views(tests@[name@].services@));
                planned is Err && e@ == services_fault_says(
                    debug_form(name@),
                    fault_text(planned->Err_0),
                )
            } else {
                e@ == no_test_says(debug_form(name@), joined(tests.names()))
            },
        },
        r is Ok <==> tests@.contains_key(name@) && plan(
            cfg.graph(),
            views(tests@[name@].services@),
        ) is Ok,
        !tests@.contains_key(name@) ==> r->Err_0@ == "no test named "@ + debug_form(name@)
            + "; defined tests: ["@ + joined(tests.names()) + "]"@,
        tests@.contains_key(name@) && r is Err ==> r->Err_0@ == "error resolving services for test "@
            + debug_form(name@) + ": "@ + fault_text(
            plan(cfg.graph(), views(tests@[name@].services@))->Err_0,
        ),
{
    match choose_test(tests, name) {
        Ok(t) => match services_order(cfg, name, t) {
            Ok(o) => Ok((t, o)),
            Err(e) => Err(e),
        },
        Err(e) => Err(e),
    }
}

// ---------------------------------------------------------------------------
// Laws
// ---------------------------------------------------------------------------

/// A list of names shows every one of them, in quotes, with a comma and a space between two.
pub proof fn law_every_name_is_listed(names: Seq<Text>, n: Text)
    ensures
        joined(Seq::empty()) == Seq::<char>::empty(),
        joined(seq![n]) == debug_form(n),
        names.len() > 0 ==> joined(names.push(n)) == joined(names) + ", "@ + debug_form(n),
{
    assert(names.push(n).drop_last() =~= names);
}

} // verus!
