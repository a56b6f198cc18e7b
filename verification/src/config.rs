//! Configuration: the processes and tests that a flake defines, their validation, and the
//! order in which processes start.

use vstd::prelude::*;
use vstd::string::*;

use crate::graph::{
    apart, chain, extend, fresh, law_dependencies_come_first, law_order_exists_iff_startable,
    law_order_is_the_closure, lemma_extend_add, lemma_fresh_push, lemma_settled_adds_nothing,
    lemma_walk_all_err, lemma_walk_settles, needed, needs, on_cycle, plan, settled, startable, walk,
    walk_all, Fault, Graph,
};
use crate::names::NameMap;
use crate::text::{blank, debug_form, debug_text, is_blank, views, Text};

verus! {

// ---------------------------------------------------------------------------
// Definitions
// ---------------------------------------------------------------------------

/// A single service definition.
#[derive(Clone, Debug)]
pub struct Process {
    /// The name under which the process is defined.
    pub name: String,
    /// Shell command, run via `sh -c`.
    pub command: String,
    /// Working directory.
    pub cwd: Option<String>,
    /// Extra environment variables, layered over the inherited ones.
    pub env: NameMap<String>,
    /// Names of processes that must be ready before this one starts.
    pub depends_on: Vec<String>,
    /// A oneshot runs to completion: its successful exit is its readiness, and it has no health
    /// check. An exit with another code is fatal.
    pub oneshot: bool,
    /// The signal that is sent on shutdown, `SIGTERM` where none is given.
    pub shutdown_signal: Option<String>,
    /// How to decide that the process is ready.
    pub health_check: Option<HealthCheck>,
}

/// How to decide that a process is ready. One of `tcp_port`, `http` and `command` should be
/// set; where none is, the process is ready at once.
#[derive(Clone, Debug)]
pub struct HealthCheck {
    pub tcp_port: Option<u16>,
    pub http: Option<String>,
    pub command: Option<String>,
    pub timeout_seconds: Option<u64>,
    pub interval_seconds: Option<u64>,
}

/// A command that needs services running.
#[derive(Clone, Debug)]
pub struct Test {
    /// Shell command, run via `sh -c` in the foreground.
    pub command: String,
    /// The processes that it needs; what they depend on is brought up too.
    pub services: Vec<String>,
    /// Working directory.
    pub cwd: Option<String>,
    /// Extra environment variables, layered over the inherited ones.
    pub env: NameMap<String>,
}

/// A validated set of processes.
#[derive(Clone, Debug)]
pub struct Config {
    pub processes: NameMap<Process>,
}

/// The graph of what the processes depend on.
pub open spec fn graph_of(processes: Map<Text, Process>) -> Graph {
    Map::new(|n: Text| processes.contains_key(n), |n: Text| views(processes[n].depends_on@))
}

/// `q` is `p`, but for its name.
pub open spec fn same_but_name(p: Process, q: Process) -> bool {
    q == (Process { name: q.name, ..p })
}

// ---------------------------------------------------------------------------
// Errors
// ---------------------------------------------------------------------------

/// Why processes have no start order.
#[derive(Debug, PartialEq, Eq)]
pub enum OrderError {
    /// The process depends on itself, directly or through others.
    Cycle(String),
    /// The process is depended upon and not defined.
    Undefined(String),
}

impl View for OrderError {
    type V = Fault;

    open spec fn view(&self) -> Fault {
        match self {
            OrderError::Cycle(n) => Fault::Cycle(n@),
            OrderError::Undefined(n) => Fault::Undefined(n@),
        }
    }
}

/// The message for a fault whose name is shown as `shown`.
pub open spec fn fault_says(f: Fault, shown: Text) -> Text {
    match f {
        Fault::Cycle(_) => "dependency cycle detected involving "@ + shown,
        Fault::Undefined(_) => "process "@ + shown + " (referenced in depends_on) is not defined"@,
    }
}

/// The name that a fault is about.
pub open spec fn fault_name(f: Fault) -> Text {
    match f {
        Fault::Cycle(n) => n,
        Fault::Undefined(n) => n,
    }
}

/// The message for a fault, with the name in quotes.
pub open spec fn fault_text(f: Fault) -> Text {
    fault_says(f, debug_form(fault_name(f)))
}

impl OrderError {
    /// The message, with the name given as it is to be shown.
    pub fn message_showing(&self, shown: &str) -> (r: String)
        ensures
            r@ == fault_says(self@, shown@),
            match self {
                OrderError::Cycle(_) => r@ == "dependency cycle detected involving "@ + shown@,
                OrderError::Undefined(_) => r@ == "process "@ + shown@
                    + " (referenced in depends_on) is not defined"@,
            },
    {
        match self {
            OrderError::Cycle(_) => "dependency cycle detected involving ".to_owned().concat(shown),
            OrderError::Undefined(_) => "process ".to_owned().concat(shown).concat(
                " (referenced in depends_on) is not defined",
            ),
        }
    }

    /// The message, with the name in quotes.
    pub fn message(&self) -> (r: String)
        ensures
            r@ == fault_text(self@),
            match self {
                OrderError::Cycle(n) => r@ == "dependency cycle detected involving "@ + debug_form(n@),
                OrderError::Undefined(n) => r@ == "process "@ + debug_form(n@)
                    + " (referenced in depends_on) is not defined"@,
            },
    {
        let shown = match self {
            OrderError::Cycle(n) => debug_text(n.as_str()),
            OrderError::Undefined(n) => debug_text(n.as_str()),
        };
        self.message_showing(shown.as_str())
    }
}

/// What is wrong with a set of processes.
pub enum ConfigFault {
    /// It is empty.
    NoProcesses,
    /// The process has a command of whitespace only.
    EmptyCommand(Text),
    /// The processes have no start order.
    Order(Fault),
}

/// Why a set of processes is refused.
#[derive(Debug, PartialEq, Eq)]
pub enum ConfigError {
    /// It is empty.
    NoProcesses,
    /// The process has a command of whitespace only.
    EmptyCommand(String),
    /// The processes have no start order.
    Order(OrderError),
}

impl View for ConfigError {
    type V = ConfigFault;

    open spec fn view(&self) -> ConfigFault {
        match self {
            ConfigError::NoProcesses => ConfigFault::NoProcesses,
            ConfigError::EmptyCommand(n) => ConfigFault::EmptyCommand(n@),
            ConfigError::Order(e) => ConfigFault::Order(e@),
        }
    }
}

/// The message for what is wrong, with names shown as `shown`.
pub open spec fn config_fault_says(f: ConfigFault, shown: Text) -> Text {
    match f {
        ConfigFault::NoProcesses => "config defines no processes"@,
        ConfigFault::EmptyCommand(_) => "process "@ + shown + " has an empty command"@,
        ConfigFault::Order(g) => fault_says(g, shown),
    }
}

/// The name that the fault is about, empty where it is about none.
pub open spec fn config_fault_name(f: ConfigFault) -> Text {
    match f {
        ConfigFault::NoProcesses => Seq::empty(),
        ConfigFault::EmptyCommand(n) => n,
        ConfigFault::Order(g) => fault_name(g),
    }
}

/// The message for what is wrong, with names in quotes.
pub open spec fn config_fault_text(f: ConfigFault) -> Text {
    config_fault_says(f, debug_form(config_fault_name(f)))
}

impl ConfigError {
    /// The message, with the name given as it is to be shown.
    pub fn message_showing(&self, shown: &str) -> (r: String)
        ensures
            r@ == config_fault_says(self@, shown@),
            match self {
                ConfigError::NoProcesses => r@ == "config defines no processes"@,
                ConfigError::EmptyCommand(_) => r@ == "process "@ + shown@
                    + " has an empty command"@,
                ConfigError::Order(OrderError::Cycle(_)) => r@
                    == "dependency cycle detected involving "@ + shown@,
                ConfigError::Order(OrderError::Undefined(_)) => r@ == "process "@ + shown@
                    + " (referenced in depends_on) is not defined"@,
            },
    {
        match self {
            ConfigError::NoProcesses => "config defines no processes".to_owned(),
            ConfigError::EmptyCommand(_) => "process ".to_owned().concat(shown).concat(
                " has an empty command",
            ),
            ConfigError::Order(e) => e.message_showing(shown),
        }
    }

    /// The message, with names in quotes.
    pub fn message(&self) -> (r: String)
        ensures
            r@ == config_fault_text(self@),
            match self {
                ConfigError::NoProcesses => r@ == "config defines no processes"@,
                ConfigError::EmptyCommand(n) => r@ == "process "@ + debug_form(n@)
                    + " has an empty command"@,
                ConfigError::Order(OrderError::Cycle(n)) => r@
                    == "dependency cycle detected involving "@ + debug_form(n@),
                ConfigError::Order(OrderError::Undefined(n)) => r@ == "process "@ + debug_form(n@)
                    + " (referenced in depends_on) is not defined"@,
            },
    {
        match self {
            ConfigError::NoProcesses => "config defines no processes".to_owned(),
            ConfigError::EmptyCommand(n) => self.message_showing(debug_text(n.as_str()).as_str()),
            ConfigError::Order(e) => e.message(),
        }
    }
}

// ---------------------------------------------------------------------------
// Validation
// ---------------------------------------------------------------------------

/// The first of `names` whose process has an empty command.
pub open spec fn first_blank(processes: Map<Text, Process>, names: Seq<Text>) -> Option<Text>
    decreases names.len(),
{
    if names.len() == 0 {
        None
    } else {
        match first_blank(processes, names.drop_last()) {
            Some(n) => Some(n),
            None => if blank(processes[names.last()].command@) {
                Some(names.last())
            } else {
                None
            },
        }
    }
}

/// What is wrong with `processes`, listed as `names`: that there are none; else the first
/// empty command; else the fault that keeps them from being ordered.
pub open spec fn flaw(processes: Map<Text, Process>, names: Seq<Text>) -> Option<ConfigFault> {
    if names.len() == 0 {
        Some(ConfigFault::NoProcesses)
    } else {
        match first_blank(processes, names) {
            Some(n) => Some(ConfigFault::EmptyCommand(n)),
            None => match plan(graph_of(processes), names) {
                Ok(_) => None,
                Err(f) => Some(ConfigFault::Order(f)),
            },
        }
    }
}

/// The processes of `cfg` are those of `processes`, each with the name it is defined under.
pub open spec fn names_filled(processes: Map<Text, Process>, filled: Map<Text, Process>) -> bool {
    &&& filled.dom() == processes.dom()
    &&& forall|n: Text| #[trigger]
        filled.contains_key(n) ==> filled[n].name@ == n && same_but_name(processes[n], filled[n])
}

#[derive(Clone, Copy, PartialEq, Eq, Structural)]
pub(crate) enum Mark {
    InProgress,
    Done,
}

/// How far a search has come: the names on the path are in progress, those ordered are done,
/// and no other name is marked.
spec fn search(
    g: Graph,
    path: Seq<Text>,
    marks: Map<Text, Mark>,
    order: Seq<Text>,
) -> bool {
    &&& settled(g, order)
    &&& apart(path, order)
    &&& forall|n: Text| #[trigger]
        marks.contains_key(n) <==> path.contains(n) || order.contains(n)
    &&& forall|n: Text|
        marks.contains_key(n) ==> ((#[trigger] marks[n] == Mark::Done) <==> order.contains(n))
}

impl Config {
    /// The names are unique and sorted.
    pub open spec fn wf(&self) -> bool {
        self.processes.wf()
    }

    /// The graph of what the processes depend on.
    pub open spec fn graph(&self) -> Graph {
        graph_of(self.processes@)
    }

    /// Builds and validates a configuration. What is wrong, if anything is, comes back as it is.
    pub fn build(processes: NameMap<Process>) -> (r: Result<Config, ConfigError>)
        requires
            processes.wf(),
        ensures
            match r {
                Ok(cfg) => {
                    &&& flaw(processes@, processes.names()) is None
                    &&& cfg.wf()
                    &&& names_filled(processes@, cfg.processes@)
                    &&& cfg.processes.names() == processes.names()
                    &&& cfg.graph() == graph_of(processes@)
                },
                Err(e) => flaw(processes@, processes.names()) == Some(e@),
            },
            r is Ok ==> {
                &&& r->Ok_0.processes@.dom() == processes@.dom()
                &&& forall|n: Text| #[trigger]
                    processes@.contains_key(n) ==> {
                        let p = processes@[n];
                        let q = r->Ok_0.processes@[n];
                        &&& q.name@ == n
                        &&& q.command == p.command
                        &&& q.cwd == p.cwd
                        &&& q.env == p.env
                        &&& q.depends_on == p.depends_on
                        &&& q.oneshot == p.oneshot
                        &&& q.shutdown_signal == p.shutdown_signal
                        &&& q.health_check == p.health_check
                    }
            },
    {
        let ghost given = processes;
        let mut filled = processes;
        let n = filled.len();
        if n == 0 {
            return Err(ConfigError::NoProcesses);
        }
        proof {
            given.lemma_wf();
            assert(given.names().take(0) =~= Seq::<Text>::empty());
        }
        let mut i: usize = 0;
        while i < n
            invariant
                i <= n,
                n == given.names().len(),
                given == processes,
                given.wf(),
                given.names().no_duplicates(),
                given@.dom() == given.names().to_set(),
                filled.wf(),
                filled.names() == given.names(),
                filled@.dom() == given@.dom(),
                first_blank(given@, given.names().take(i as int)) is None,
                forall|k: int|
                    0 <= k < i ==> #[trigger] filled@[given.names()[k]].name@ == given.names()[k],
                forall|k: Text| #[trigger]
                    given@.contains_key(k) ==> same_but_name(given@[k], filled@[k]),
            decreases n - i,
        {
            let ghost key = given.names()[i as int];
            let ghost prior = filled;
            assert(given.names().to_set().contains(key));
            assert(given@.contains_key(key));
            assert(given.names().take(i + 1).drop_last() =~= given.names().take(i as int));
            let name: String = filled.name_at(i).clone();
            let p = filled.value_at_mut(i);
            p.name = name.clone();
            let empty = is_blank(p.command.as_str());
            assert(empty == blank(given@[key].command@));
            if empty {
                proof {
                    assert(given.names().take(i + 1).last() == key);
                    lemma_first_blank_stays(given@, given.names(), i + 1);
                }
                return Err(ConfigError::EmptyCommand(name));
            }
            proof {
                assert(filled@ == prior@.insert(key, filled@[key]));
                assert(filled@.dom() =~= given@.dom());
            }
            i += 1;
        }
        let cfg = Config { processes: filled };
        proof {
            assert(given.names().take(n as int) =~= given.names());
            assert forall|k: Text| #[trigger] cfg.processes@.contains_key(k) implies cfg.processes@[k].name@
                == k by {
                assert(given.names().to_set().contains(k));
                let j = given.names().index_of(k);
                assert(given.names()[j] == k);
            }
            assert(cfg.graph() =~= graph_of(given@));
        }
        match cfg.order(&cfg.names()) {
            Ok(_) => Ok(cfg),
            Err(e) => Err(ConfigError::Order(e)),
        }
    }

    /// Builds and validates a configuration from the processes that a flake defines.
    pub fn from_processes(processes: NameMap<Process>) -> (r: Result<Config, String>)
        requires
            processes.wf(),
        ensures
            match r {
                Ok(cfg) => {
                    &&& flaw(processes@, processes.names()) is None
                    &&& cfg.wf()
                    &&& names_filled(processes@, cfg.processes@)
                    &&& cfg.processes.names() == processes.names()
                    &&& cfg.graph() == graph_of(processes@)
                    &&& plan(cfg.graph(), cfg.processes.names()) is Ok
                },
                Err(e) => flaw(processes@, processes.names()) is Some && e@ == config_fault_text(
                    flaw(processes@, processes.names())->Some_0,
                ),
            },
            r is Ok ==> {
                &&& r->Ok_0.processes@.dom() == processes@.dom()
                &&& forall|n: Text| #[trigger]
                    processes@.contains_key(n) ==> {
                        let p = processes@[n];
                        let q = r->Ok_0.processes@[n];
                        &&& q.name@ == n
                        &&& q.command == p.command
                        &&& q.cwd == p.cwd
                        &&& q.env == p.env
                        &&& q.depends_on == p.depends_on
                        &&& q.oneshot == p.oneshot
                        &&& q.shutdown_signal == p.shutdown_signal
                        &&& q.health_check == p.health_check
                    }
            },
    {
        match Config::build(processes) {
            Ok(cfg) => Ok(cfg),
            Err(e) => Err(e.message()),
        }
    }

    /// The names of all processes, in ascending order.
    pub fn names(&self) -> (r: Vec<String>)
        requires
            self.wf(),
        ensures
            views(r@) == self.processes.names(),
    {
        self.processes.list()
    }

    /// The start order for all processes. Every name comes behind what it depends on; ties are
    /// broken by the ascending order of the names and the order in which dependencies are listed.
    pub fn start_order(&self) -> (r: Result<Vec<String>, String>)
        requires
            self.wf(),
        ensures
            match r {
                Ok(o) => plan(self.graph(), self.processes.names()) == Ok::<_, Fault>(views(o@)),
                Err(e) => plan(self.graph(), self.processes.names()) is Err && e@ == fault_text(
                    plan(self.graph(), self.processes.names())->Err_0,
                ),
            },
    {
        self.start_order_from(&self.names())
    }

    /// The start order for `services` and everything they depend on.
    pub fn start_order_from(&self, services: &Vec<String>) -> (r: Result<Vec<String>, String>)
        requires
            self.wf(),
        ensures
            match r {
                Ok(o) => plan(self.graph(), views(services@)) == Ok::<_, Fault>(views(o@)),
                Err(e) => plan(self.graph(), views(services@)) is Err && e@ == fault_text(
                    plan(self.graph(), views(services@))->Err_0,
                ),
            },
    {
        match self.order(services) {
            Ok(o) => Ok(o),
            Err(e) => Err(e.message()),
        }
    }

    /// The start order for `roots` and everything they depend on. What keeps them from being
    /// ordered, if anything does, comes back as it is.
    pub fn order(&self, roots: &Vec<String>) -> (r: Result<Vec<String>, OrderError>)
        requires
            self.wf(),
        ensures
            match r {
                Ok(o) => plan(self.graph(), views(roots@)) == Ok::<_, Fault>(views(o@)),
                Err(e) => plan(self.graph(), views(roots@)) == Err::<Seq<Text>, _>(e@),
            },
    {
        let ghost g = self.graph();
        let ghost none = Seq::<Text>::empty();
        let ghost rs = views(roots@);
        let mut marks: NameMap<Mark> = NameMap::new();
        let mut order: Vec<String> = Vec::new();
        proof {
            self.lemma_graph();
            assert(views(order@) =~= none);
            assert(rs.take(0) =~= none);
        }
        let mut i: usize = 0;
        while i < roots.len()
            invariant
                self.wf(),
                g == self.graph(),
                g.dom().finite(),
                none == Seq::<Text>::empty(),
                rs == views(roots@),
                i <= roots@.len(),
                marks.wf(),
                search(g, none, marks@, views(order@)),
                walk_all(g, none, rs.take(i as int)) is Ok,
                views(order@) == extend(none, walk_all(g, none, rs.take(i as int))->Ok_0),
            decreases roots@.len() - i,
        {
            let ghost prior = views(order@);
            let ghost s = walk_all(g, none, rs.take(i as int))->Ok_0;
            assert(rs.take(i + 1).drop_last() =~= rs.take(i as int));
            assert(rs.take(i + 1).last() == roots@[i as int]@);
            match self.visit(roots[i].as_str(), Ghost(none), &mut marks, &mut order) {
                Ok(_) => {
                    proof {
                        lemma_extend_add(none, s, walk(g, none, roots@[i as int]@)->Ok_0);
                    }
                },
                Err(e) => {
                    proof {
                        lemma_walk_all_err(g, none, rs, i + 1);
                    }
                    return Err(e);
                },
            }
            i += 1;
        }
        assert(rs.take(roots@.len() as int) =~= rs);
        Ok(order)
    }

    /// Orders `node` and what it depends on behind what is ordered already. `path` is how the
    /// search came here.
    fn visit(
        &self,
        node: &str,
        Ghost(path): Ghost<Seq<Text>>,
        marks: &mut NameMap<Mark>,
        order: &mut Vec<String>,
    ) -> (r: Result<(), OrderError>)
        requires
            self.wf(),
            self.graph().dom().finite(),
            old(marks).wf(),
            search(self.graph(), path, old(marks)@, views(old(order)@)),
        ensures
            match r {
                Ok(_) => {
                    &&& walk(self.graph(), path, node@) is Ok
                    &&& final(marks).wf()
                    &&& search(self.graph(), path, final(marks)@, views(final(order)@))
                    &&& views(final(order)@) == extend(
                        views(old(order)@),
                        walk(self.graph(), path, node@)->Ok_0,
                    )
                },
                Err(e) => walk(self.graph(), path, node@) == Err::<Seq<Text>, _>(e@),
            },
        decreases fresh(self.graph(), path),
    {
        let ghost g = self.graph();
        let ghost n = node@;
        let ghost before = views(order@);
        match marks.get(node) {
            Some(Mark::Done) => {
                proof {
                    assert(marks@[n] == Mark::Done);
                    lemma_settled_adds_nothing(g, before, path, n);
                }
                return Ok(());
            },
            Some(Mark::InProgress) => {
                assert(marks@[n] != Mark::Done);
                return Err(OrderError::Cycle(node.to_owned()));
            },
            None => {},
        }
        let proc = match self.processes.get(node) {
            Some(p) => p,
            None => {
                return Err(OrderError::Undefined(node.to_owned()));
            },
        };
        let ghost ds = views(proc.depends_on@);
        let ghost inner = path.push(n);
        proof {
            assert(g[n] == ds);
            lemma_fresh_push(g, path, n);
        }
        marks.insert(node.to_owned(), Mark::InProgress);
        proof {
            lemma_push_contains(path, n);
            assert(ds.take(0) =~= Seq::<Text>::empty());
        }
        let mut i: usize = 0;
        while i < proc.depends_on.len()
            invariant
                self.wf(),
                g == self.graph(),
                g.dom().finite(),
                g.contains_key(n),
                !path.contains(n),
                inner == path.push(n),
                fresh(g, inner) < fresh(g, path),
                ds == views(proc.depends_on@),
                i <= proc.depends_on@.len(),
                marks.wf(),
                search(g, inner, marks@, views(order@)),
                walk_all(g, inner, ds.take(i as int)) is Ok,
                views(order@) == extend(before, walk_all(g, inner, ds.take(i as int))->Ok_0),
                ds == g[n],
                n == node@,
                walk(g, path, n) == (match walk_all(g, inner, ds) {
                    Ok(s) => Ok::<Seq<Text>, Fault>(s.push(n)),
                    Err(f) => Err(f),
                }),
            decreases proc.depends_on@.len() - i,
        {
            let ghost s = walk_all(g, inner, ds.take(i as int))->Ok_0;
            assert(ds.take(i + 1).drop_last() =~= ds.take(i as int));
            assert(ds.take(i + 1).last() == proc.depends_on@[i as int]@);
            match self.visit(proc.depends_on[i].as_str(), Ghost(inner), marks, order) {
                Ok(_) => {
                    proof {
                        lemma_extend_add(
                            before,
                            s,
                            walk(g, inner, proc.depends_on@[i as int]@)->Ok_0,
                        );
                    }
                },
                Err(e) => {
                    proof {
                        lemma_walk_all_err(g, inner, ds, i + 1);
                    }
                    return Err(e);
                },
            }
            i += 1;
        }
        let ghost t = walk_all(g, inner, ds)->Ok_0;
        let ghost settled_now = views(order@);
        proof {
            assert(ds.take(proc.depends_on@.len() as int) =~= ds);
            assert(t.push(n).drop_last() =~= t);
            lemma_push_contains(path, n);
            assert(inner.contains(n));
            assert(!settled_now.contains(n));
            assert(extend(before, t.push(n)) == settled_now.push(n));
        }
        marks.insert(node.to_owned(), Mark::Done);
        order.push(node.to_owned());
        proof {
            assert(views(order@) =~= settled_now.push(n));
            lemma_push_contains(settled_now, n);
            lemma_walk_settles(g, path, n, before);
        }
        Ok(())
    }

    proof fn lemma_graph(&self)
        requires
            self.wf(),
        ensures
            self.graph().dom() == self.processes@.dom(),
            self.graph().dom().finite(),
    {
        self.processes.lemma_wf();
        assert(self.graph().dom() =~= self.processes@.dom());
    }
}

proof fn lemma_push_contains(s: Seq<Text>, n: Text)
    ensures
        forall|x: Text| #[trigger] s.push(n).contains(x) <==> s.contains(x) || x == n,
{
    assert forall|x: Text| #[trigger] s.push(n).contains(x) <==> s.contains(x) || x == n by {
        if s.contains(x) {
            assert(s.push(n)[s.index_of(x)] == x);
        }
        if s.push(n).contains(x) && x != n {
            assert(s[s.push(n).index_of(x)] == x);
        }
        assert(s.push(n)[s.len() as int] == n);
    }
}

proof fn lemma_first_blank_stays(processes: Map<Text, Process>, names: Seq<Text>, k: int)
    requires
        0 <= k <= names.len(),
        first_blank(processes, names.take(k)) is Some,
    ensures
        first_blank(processes, names) == first_blank(processes, names.take(k)),
    decreases names.len() - k,
{
    if k < names.len() {
        assert(names.take(k + 1).drop_last() =~= names.take(k));
        lemma_first_blank_stays(processes, names, k + 1);
    } else {
        assert(names.take(k) =~= names);
    }
}

// ---------------------------------------------------------------------------
// Laws
// ---------------------------------------------------------------------------

/// The start order of a configuration holds every process once and nothing else, each behind
/// all that it depends on.
pub proof fn law_start_order_is_complete(cfg: Config, order: Seq<Text>)
    requires
        cfg.wf(),
        plan(cfg.graph(), cfg.processes.names()) == Ok::<Seq<Text>, Fault>(order),
    ensures
        order.no_duplicates(),
        forall|n: Text| #[trigger] order.contains(n) <==> cfg.processes@.contains_key(n),
        forall|i: int, d: Text|
            0 <= i < order.len() && #[trigger] views(
                cfg.processes@[order[i]].depends_on@,
            ).contains(d) ==> order.take(i).contains(d),
{
    let g = cfg.graph();
    let names = cfg.processes.names();
    cfg.lemma_graph();
    cfg.processes.lemma_wf();
    law_dependencies_come_first(g, names);
    assert forall|n: Text| #[trigger] order.contains(n) <==> cfg.processes@.contains_key(n) by {
        law_order_is_the_closure(g, names, n);
        if order.contains(n) {
            assert(g.contains_key(order[order.index_of(n)]));
        }
        if cfg.processes@.contains_key(n) {
            assert(names.to_set().contains(n));
            assert(chain(g, seq![n]));
            assert(needs(g, n, n));
            assert(names.contains(n));
        }
    }
    assert forall|i: int, d: Text|
        0 <= i < order.len() && #[trigger] views(cfg.processes@[order[i]].depends_on@).contains(
            d,
        ) implies order.take(i).contains(d) by {
        assert(g.contains_key(order[i]));
        assert(g[order[i]].contains(d));
    }
}

/// A configuration has a start order exactly where every dependency is defined and no process
/// depends on itself, directly or through others.
pub proof fn law_start_order_exists_iff_acyclic(cfg: Config)
    requires
        cfg.wf(),
    ensures
        plan(cfg.graph(), cfg.processes.names()) is Ok <==> {
            &&& forall|n: Text, d: Text|
                cfg.processes@.contains_key(n) && #[trigger] views(
                    cfg.processes@[n].depends_on@,
                ).contains(d) ==> cfg.processes@.contains_key(d)
            &&& forall|n: Text| !#[trigger] on_cycle(cfg.graph(), n)
        },
{
    let g = cfg.graph();
    let names = cfg.processes.names();
    cfg.lemma_graph();
    cfg.processes.lemma_wf();
    law_order_exists_iff_startable(g, names);
    let defined = forall|n: Text, d: Text|
        cfg.processes@.contains_key(n) && #[trigger] views(cfg.processes@[n].depends_on@).contains(
            d,
        ) ==> cfg.processes@.contains_key(d);
    assert forall|n: Text| cfg.processes@.contains_key(n) implies #[trigger] needed(
        g,
        names,
        n,
    ) by {
        assert(names.to_set().contains(n));
        assert(chain(g, seq![n]));
        assert(needs(g, n, n));
        assert(names.contains(n));
    }
    if startable(g, names) {
        assert forall|n: Text, d: Text|
            cfg.processes@.contains_key(n) && #[trigger] views(
                cfg.processes@[n].depends_on@,
            ).contains(d) implies cfg.processes@.contains_key(d) by {
            assert(g[n].contains(d));
            let p = seq![n, d];
            assert(chain(g, p));
            assert(p.first() == n && p.last() == d);
            assert(needs(g, n, d));
            assert(names.to_set().contains(n));
            assert(names.contains(n));
            assert(needed(g, names, d));
        }
        assert forall|n: Text| !#[trigger] on_cycle(g, n) by {
            if on_cycle(g, n) {
                let p = choose|p: Seq<Text>|
                    #[trigger] chain(g, p) && p.len() > 1 && p.first() == n && p.last() == n;
                assert(g.contains_key(p[0]));
                assert(needed(g, names, n));
            }
        }
    }
    if defined && (forall|n: Text| !#[trigger] on_cycle(g, n)) {
        assert forall|n: Text| #[trigger] needed(g, names, n) implies g.contains_key(n)
            && !on_cycle(g, n) by {
            let r = choose|r: Text| #[trigger] names.contains(r) && needs(g, r, n);
            let p = choose|p: Seq<Text>| #[trigger] chain(g, p) && p.first() == r && p.last() == n;
            if p.len() == 1 {
                assert(names.to_set().contains(r));
            } else {
                let a = p[p.len() - 2];
                assert(g.contains_key(a) && g[a].contains(p[p.len() - 2 + 1]));
                assert(views(cfg.processes@[a].depends_on@).contains(n));
            }
        }
    }
}

/// What a set of processes is refused for: that it is empty; else the first, in ascending order,
/// whose command is whitespace only; else what keeps it from being ordered. Any other is
/// accepted.
pub proof fn law_what_a_configuration_is_refused_for(
    processes: Map<Text, Process>,
    names: Seq<Text>,
    k: int,
)
    ensures
        names.len() == 0 <==> flaw(processes, names) == Some(ConfigFault::NoProcesses),
        0 <= k < names.len() && blank(processes[names[k]].command@) && (forall|j: int|
            0 <= j < k ==> !blank(processes[#[trigger] names[j]].command@)) ==> flaw(
            processes,
            names,
        ) == Some(ConfigFault::EmptyCommand(names[k])),
        names.len() > 0 && (forall|j: int|
            0 <= j < names.len() ==> !blank(processes[#[trigger] names[j]].command@)) ==> match plan(
            graph_of(processes),
            names,
        ) {
            Ok(_) => flaw(processes, names) is None,
            Err(f) => flaw(processes, names) == Some(ConfigFault::Order(f)),
        },
{
    if 0 <= k < names.len() && blank(processes[names[k]].command@) && (forall|j: int|
        0 <= j < k ==> !blank(processes[#[trigger] names[j]].command@)) {
        lemma_first_blank_none(processes, names.take(k));
        assert(names.take(k + 1).drop_last() =~= names.take(k));
        assert(names.take(k + 1).last() == names[k]);
        lemma_first_blank_stays(processes, names, k + 1);
    }
    if forall|j: int| 0 <= j < names.len() ==> !blank(processes[#[trigger] names[j]].command@) {
        lemma_first_blank_none(processes, names);
    }
}

proof fn lemma_first_blank_none(processes: Map<Text, Process>, names: Seq<Text>)
    requires
        forall|j: int| 0 <= j < names.len() ==> !blank(processes[#[trigger] names[j]].command@),
    ensures
        first_blank(processes, names) is None,
    decreases names.len(),
{
    if names.len() > 0 {
        let fewer = names.drop_last();
        assert forall|j: int| 0 <= j < fewer.len() implies !blank(
            processes[#[trigger] fewer[j]].command@,
        ) by {
            assert(fewer[j] == names[j]);
        }
        lemma_first_blank_none(processes, fewer);
        assert(!blank(processes[names[names.len() - 1]].command@));
    }
}

/// The graph of processes has an entry for each of them and for nothing else, with what it lists
/// as dependencies, all of it and in that order.
pub proof fn law_the_graph_holds_every_dependency(processes: Map<Text, Process>, n: Text)
    ensures
        graph_of(processes).contains_key(n) <==> processes.contains_key(n),
        processes.contains_key(n) ==> {
            let deps = processes[n].depends_on@;
            &&& graph_of(processes)[n].len() == deps.len()
            &&& forall|k: int| 0 <= k < deps.len() ==> graph_of(processes)[n][k] == (#[trigger] deps[k])@
        },
{
}

/// An error stands for the fault that it names.
pub proof fn law_errors_stand_for_themselves(e: OrderError, c: ConfigError)
    ensures
        match e {
            OrderError::Cycle(n) => e@ == Fault::Cycle(n@),
            OrderError::Undefined(n) => e@ == Fault::Undefined(n@),
        },
        match c {
            ConfigError::NoProcesses => c@ == ConfigFault::NoProcesses,
            ConfigError::EmptyCommand(n) => c@ == ConfigFault::EmptyCommand(n@),
            ConfigError::Order(o) => c@ == ConfigFault::Order(o@),
        },
        match e@ {
            Fault::Cycle(n) => fault_text(e@) == "dependency cycle detected involving "@
                + debug_form(n),
            Fault::Undefined(n) => fault_text(e@) == "process "@ + debug_form(n)
                + " (referenced in depends_on) is not defined"@,
        },
        match c@ {
            ConfigFault::NoProcesses => config_fault_text(c@) == "config defines no processes"@,
            ConfigFault::EmptyCommand(n) => config_fault_text(c@) == "process "@ + debug_form(n)
                + " has an empty command"@,
            ConfigFault::Order(f) => config_fault_text(c@) == fault_text(f),
        },
{
}

} // verus!
