use nix_process::config::{Config, ConfigError, OrderError, Process, Test};
use nix_process::flake::{
    choose_test, failed_message, load_failure_line, load_tests, no_test_message, prepare_test,
    reference, services_fault_message, Evaluation,
};
use nix_process::names::NameMap;

fn process(command: &str, depends_on: &[&str]) -> Process {
    Process {
        name: String::new(),
        command: command.to_string(),
        cwd: None,
        env: NameMap::new(),
        depends_on: depends_on.iter().map(|d| d.to_string()).collect(),
        oneshot: false,
        shutdown_signal: None,
        health_check: None,
    }
}

fn processes(defs: &[(&str, &[&str])]) -> NameMap<Process> {
    let mut m = NameMap::new();
    for (name, deps) in defs {
        m.insert(name.to_string(), process("run", deps));
    }
    m
}

fn test_of(services: &[&str]) -> Test {
    Test {
        command: "mix test".to_string(),
        services: services.iter().map(|s| s.to_string()).collect(),
        cwd: None,
        env: NameMap::new(),
    }
}

#[test]
fn order_puts_dependencies_first() {
    let cfg = Config::from_processes(processes(&[
        ("web", &["migrate", "cache"]),
        ("migrate", &["db"]),
        ("db", &[]),
        ("cache", &[]),
        ("api", &["db"]),
    ]))
    .unwrap();
    assert_eq!(cfg.start_order().unwrap(), vec!["db", "api", "cache", "migrate", "web"]);
    assert_eq!(cfg.names(), vec!["api", "cache", "db", "migrate", "web"]);
}

#[test]
fn order_follows_listed_dependencies() {
    let cfg = Config::from_processes(processes(&[
        ("a", &["z", "y"]),
        ("y", &[]),
        ("z", &["x", "x"]),
        ("x", &[]),
    ]))
    .unwrap();
    assert_eq!(cfg.start_order().unwrap(), vec!["x", "z", "y", "a"]);
}

#[test]
fn names_come_from_the_map() {
    let mut m = processes(&[("db", &[])]);
    let mut odd = process("other", &["db"]);
    odd.name = "wrong".to_string();
    m.insert("web".to_string(), odd);
    let cfg = Config::from_processes(m).unwrap();
    assert_eq!(cfg.processes.get("web").unwrap().name, "web");
    assert_eq!(cfg.processes.get("web").unwrap().command, "other");
    assert_eq!(cfg.processes.get("db").unwrap().name, "db");
}

#[test]
fn empty_map_is_refused() {
    assert_eq!(Config::from_processes(NameMap::new()).unwrap_err(), "config defines no processes");
    assert_eq!(Config::build(NameMap::new()).unwrap_err(), ConfigError::NoProcesses);
}

#[test]
fn blank_command_is_refused() {
    let mut m = processes(&[("a", &["nowhere"])]);
    m.insert("d\"b".to_string(), process(" \t\u{a0}\n", &[]));
    m.insert("e".to_string(), process("", &[]));
    assert_eq!(
        Config::from_processes(m.clone()).unwrap_err(),
        "process \"d\\\"b\" has an empty command"
    );
    assert_eq!(Config::build(m).unwrap_err(), ConfigError::EmptyCommand("d\"b".to_string()));
}

#[test]
fn cycle_is_refused() {
    let m = processes(&[("a", &["b"]), ("b", &["c"]), ("c", &["b"])]);
    assert_eq!(
        Config::from_processes(m.clone()).unwrap_err(),
        "dependency cycle detected involving \"b\""
    );
    assert_eq!(
        Config::build(m).unwrap_err(),
        ConfigError::Order(OrderError::Cycle("b".to_string()))
    );
    assert_eq!(
        Config::from_processes(processes(&[("a", &["a"])])).unwrap_err(),
        "dependency cycle detected involving \"a\""
    );
}

#[test]
fn undefined_dependency_is_refused() {
    let m = processes(&[("a", &["b"]), ("b", &["gone\n"])]);
    assert_eq!(
        Config::from_processes(m.clone()).unwrap_err(),
        "process \"gone\\n\" (referenced in depends_on) is not defined"
    );
    assert_eq!(
        Config::build(m).unwrap_err(),
        ConfigError::Order(OrderError::Undefined("gone\n".to_string()))
    );
}

#[test]
fn services_bring_their_closure() {
    let cfg = Config::from_processes(processes(&[
        ("db", &[]),
        ("migrate", &["db"]),
        ("web", &["migrate"]),
        ("worker", &["db"]),
    ]))
    .unwrap();
    assert_eq!(
        cfg.start_order_from(&vec!["migrate".to_string()]).unwrap(),
        vec!["db", "migrate"]
    );
    assert_eq!(
        cfg.start_order_from(&vec!["worker".to_string(), "migrate".to_string()]).unwrap(),
        vec!["db", "worker", "migrate"]
    );
    assert_eq!(cfg.start_order_from(&Vec::new()).unwrap(), Vec::<String>::new());
    assert_eq!(
        cfg.start_order_from(&vec!["redis".to_string()]).unwrap_err(),
        "process \"redis\" (referenced in depends_on) is not defined"
    );
}

#[test]
fn evaluation_of_processes_loads() {
    assert_eq!(reference(".", "processes"), ".#processes");
    let cfg = Config::load(".", "processes", Evaluation::Value(processes(&[("a", &[])]))).unwrap();
    assert_eq!(cfg.start_order().unwrap(), vec!["a"]);
    assert_eq!(
        Config::load(".", "processes", Evaluation::Value(NameMap::new())).unwrap_err(),
        "config defines no processes"
    );
    assert_eq!(
        Config::load(".", "p", Evaluation::NotRun("No such file".to_string())).unwrap_err(),
        "failed to run `nix eval`: No such file"
    );
    assert_eq!(
        Config::load("f", "p", Evaluation::Failed(b" \nerror: \xff!\n".to_vec())).unwrap_err(),
        "`nix eval f#p` failed:\nerror: \u{fffd}!"
    );
    assert_eq!(
        Config::load("f", "p", Evaluation::Unreadable("bad".to_string())).unwrap_err(),
        "parsing `f#p` as a process map: bad"
    );
    assert_eq!(failed_message("f#p", " x "), "`nix eval f#p` failed:\nx");
    assert_eq!(load_failure_line("x"), "error: x");
}

#[test]
fn evaluation_of_tests_loads() {
    let mut m = NameMap::new();
    m.insert("backend".to_string(), test_of(&["db"]));
    let tests = load_tests(".", "tests", Evaluation::Value(m)).unwrap();
    assert_eq!(choose_test(&tests, "backend").unwrap().command, "mix test");
    assert_eq!(
        load_tests(".", "t", Evaluation::NotRun("gone".to_string())).unwrap_err(),
        "failed to run `nix eval`: gone"
    );
    assert_eq!(
        load_tests(".", "t", Evaluation::Failed(b"no\n".to_vec())).unwrap_err(),
        "`nix eval .#t` failed:\nno"
    );
    assert_eq!(
        load_tests(".", "t", Evaluation::Unreadable("bad".to_string())).unwrap_err(),
        "parsing `.#t` as a test map: bad"
    );
}

#[test]
fn test_is_prepared_with_its_services() {
    let cfg = Config::from_processes(processes(&[("db", &[]), ("web", &["db"])])).unwrap();
    let mut tests = NameMap::new();
    tests.insert("ui".to_string(), test_of(&["web"]));
    tests.insert("backend".to_string(), test_of(&["db"]));
    tests.insert("broken".to_string(), test_of(&["redis"]));
    let (test, order) = prepare_test(&cfg, &tests, "ui").unwrap();
    assert_eq!(test.services, vec!["web"]);
    assert_eq!(order, vec!["db", "web"]);
    assert_eq!(
        prepare_test(&cfg, &tests, "u\"i").unwrap_err(),
        "no test named \"u\\\"i\"; defined tests: [\"backend\", \"broken\", \"ui\"]"
    );
    assert_eq!(
        prepare_test(&cfg, &tests, "broken").unwrap_err(),
        "error resolving services for test \"broken\": process \"redis\" (referenced in depends_on) is not defined"
    );
    assert_eq!(
        prepare_test(&cfg, &NameMap::new(), "x").unwrap_err(),
        "no test named \"x\"; defined tests: []"
    );
}

#[test]
fn names_are_listed_as_debug_lists_them() {
    let mut tests = NameMap::new();
    for n in ["a b", "\t", "é\u{200b}", "'"] {
        tests.insert(n.to_string(), test_of(&[]));
    }
    let names: Vec<&String> = (0..tests.len()).map(|i| tests.name_at(i)).collect();
    let name = "q\\";
    assert_eq!(
        choose_test(&tests, name).unwrap_err(),
        format!("no test named {name:?}; defined tests: {names:?}")
    );
    assert_eq!(no_test_message("<x>", "<y>"), "no test named <x>; defined tests: [<y>]");
    assert_eq!(
        services_fault_message("<x>", "<y>"),
        "error resolving services for test <x>: <y>"
    );
}

#[test]
fn messages_show_what_they_are_given() {
    assert_eq!(
        OrderError::Cycle("a".to_string()).message_showing("<a>"),
        "dependency cycle detected involving <a>"
    );
    assert_eq!(
        ConfigError::EmptyCommand("a".to_string()).message_showing("<a>"),
        "process <a> has an empty command"
    );
    assert_eq!(
        ConfigError::Order(OrderError::Undefined("a".to_string())).message(),
        "process \"a\" (referenced in depends_on) is not defined"
    );
}
