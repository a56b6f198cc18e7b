use nix_process::cli::{
    announcement, complaint_showing, default_options, flag_value, opening, parse_args,
    parse_options, CliError, Invocation, Opening, Options,
};

fn args(words: &[&str]) -> Vec<String> {
    words.iter().map(|w| w.to_string()).collect()
}

#[test]
fn defaults_hold_without_flags() {
    let o = parse_options(&[]).unwrap();
    assert_eq!(o, default_options());
    assert_eq!(
        o,
        Options {
            flake: ".".to_string(),
            attr: "processes".to_string(),
            tests_attr: "tests".to_string(),
            grace_seconds: 10,
            state_path: ".nix-process/state.json".to_string(),
        }
    );
}

#[test]
fn flags_set_their_options() {
    let o = parse_options(&args(&[
        "--flake", "github:you/x", "--attr", "p", "--tests-attr", "t", "--grace-seconds", "+3",
        "--state", "/tmp/s.json",
    ]))
    .unwrap();
    assert_eq!(
        o,
        Options {
            flake: "github:you/x".to_string(),
            attr: "p".to_string(),
            tests_attr: "t".to_string(),
            grace_seconds: 3,
            state_path: "/tmp/s.json".to_string(),
        }
    );
}

#[test]
fn last_flag_wins_and_others_keep_their_values() {
    let o = parse_options(&args(&["--attr", "a", "--flake", "--state", "--attr", "b"])).unwrap();
    assert_eq!(o.attr, "b");
    assert_eq!(o.flake, "--state");
    assert_eq!(o.state_path, ".nix-process/state.json");
    assert_eq!(o.grace_seconds, 10);
}

#[test]
fn bad_flags_are_refused() {
    let e = parse_options(&args(&["--attr", "a", "--flake"])).unwrap_err();
    assert_eq!(e, CliError::NeedsValue("--flake".to_string()));
    assert_eq!(e.message(), "flag --flake needs a value");
    let e = parse_options(&args(&["--grace-seconds", "1.5\""])).unwrap_err();
    assert_eq!(e, CliError::BadGrace("1.5\"".to_string()));
    assert_eq!(e.message(), "invalid --grace-seconds \"1.5\\\"\"");
    let e = parse_options(&args(&["--grace-seconds", "-1"])).unwrap_err();
    assert_eq!(e.message(), "invalid --grace-seconds \"-1\"");
    let e = parse_options(&args(&["up"])).unwrap_err();
    assert_eq!(e, CliError::UnknownFlag("up".to_string()));
    assert_eq!(e.message(), "unknown flag \"up\"");
    assert_eq!(e.message_showing("<up>"), "unknown flag <up>");
}

#[test]
fn flag_value_moves_on() {
    let a = args(&["--attr", "x"]);
    let mut i: usize = 0;
    assert_eq!(flag_value(&a, &mut i, "--attr"), Ok("x".to_string()));
    assert_eq!(i, 1);
    assert_eq!(
        flag_value(&a, &mut i, "--attr"),
        Err(CliError::NeedsValue("--attr".to_string()))
    );
    assert_eq!(i, 2);
}

#[test]
fn commands_are_told_apart() {
    assert_eq!(parse_args(&[]), Invocation::Help);
    for h in ["-h", "--help", "help"] {
        assert_eq!(parse_args(&args(&[h, "more"])), Invocation::Help);
    }
    assert_eq!(parse_args(&args(&["up"])), Invocation::Up(default_options()));
    assert_eq!(parse_args(&args(&["down"])), Invocation::Down(default_options()));
    assert_eq!(
        parse_args(&args(&["test", "backend"])),
        Invocation::Test("backend".to_string(), default_options())
    );
    match parse_args(&args(&["test", "ui", "--attr", "p"])) {
        Invocation::Test(name, o) => {
            assert_eq!(name, "ui");
            assert_eq!(o.attr, "p");
        }
        other => panic!("{:?}", other),
    }
    for bad in [vec!["test"], vec!["test", "--attr", "p"], vec!["test", "-"]] {
        assert_eq!(parse_args(&args(&bad)), Invocation::Refused(CliError::NeedsTestName));
    }
    assert_eq!(
        parse_args(&args(&["start"])),
        Invocation::Refused(CliError::UnknownCommand("start".to_string()))
    );
    assert_eq!(
        parse_args(&args(&["up", "--state"])),
        Invocation::Refused(CliError::NeedsValue("--state".to_string()))
    );
    assert_eq!(
        parse_args(&args(&["down", "now"])),
        Invocation::Refused(CliError::UnknownFlag("now".to_string()))
    );
}

#[test]
fn refusals_and_help_end_at_once() {
    assert_eq!(
        opening(&parse_args(&[])),
        Opening { complaint: None, usage: true, exit: Some(0) }
    );
    assert_eq!(
        opening(&parse_args(&args(&["st\"art"]))),
        Opening {
            complaint: Some("nix-process: unknown command \"st\\\"art\"\n".to_string()),
            usage: true,
            exit: Some(2),
        }
    );
    assert_eq!(
        opening(&parse_args(&args(&["test"]))),
        Opening {
            complaint: Some(
                "nix-process: `test` needs a test name, e.g. `nix-process test backend`".to_string()
            ),
            usage: false,
            exit: Some(2),
        }
    );
    assert_eq!(
        opening(&parse_args(&args(&["up"]))),
        Opening { complaint: None, usage: false, exit: None }
    );
    assert_eq!(
        complaint_showing(&CliError::UnknownCommand("x".to_string()), "<x>"),
        "nix-process: unknown command <x>\n"
    );
}

#[test]
fn commands_announce_themselves() {
    assert_eq!(
        announcement(&parse_args(&args(&["up", "--flake", "f"]))),
        Some("evaluating f#processes".to_string())
    );
    assert_eq!(
        announcement(&parse_args(&args(&["down"]))),
        Some("cleanup complete".to_string())
    );
    assert_eq!(announcement(&parse_args(&args(&["test", "x"]))), None);
}
