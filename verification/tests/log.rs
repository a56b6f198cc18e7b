use nix_process::log::{child_winsize, pad, Logger, PREFIX_WIDTH};

#[test]
fn short_names_are_filled_up() {
    assert_eq!(pad("db"), "db          ");
    assert_eq!(pad(""), " ".repeat(12));
    assert_eq!(pad("nix-process"), "nix-process ");
    assert_eq!(pad("éé"), format!("{:<12}", "éé"));
    assert_eq!(PREFIX_WIDTH, 12);
}

#[test]
fn long_names_are_cut() {
    assert_eq!(pad("abcdefghijkl"), "abcdefghijk…");
    assert_eq!(pad("abcdefghijklmnop"), "abcdefghijk…");
    assert_eq!(pad("éééééééééééé"), "ééééééééééé…");
    assert_eq!(pad("abcdefghijéx"), "abcdefghijé…");
}

#[test]
fn prefix_has_its_width() {
    for name in [
        "", "a", "nix-process", "abcdefghijkl", "abcdefghijké", "ééééé", "éééééé", "aééééé12",
        "abcdefghijéx", "日本語のプロセス", "日本語のプロセスの長い名前", "\u{10ffff}",
    ] {
        assert_eq!(pad(name).chars().count(), 12, "{name}");
    }
}

#[test]
fn wide_names_are_filled_up_by_characters() {
    assert_eq!(pad("éééééé"), "éééééé      ");
    assert_eq!(pad("aééééé12"), "aééééé12    ");
    let mut log = Logger::new(false);
    assert_eq!(log.line("aééééé12", "x"), "aééééé12     | x");
}

#[test]
fn plain_lines_have_a_prefix() {
    let mut log = Logger::new(false);
    assert_eq!(log.line("web", "listening"), "web          | listening");
    assert_eq!(log.system("hello"), "nix-process  | hello");
}

#[test]
fn colored_lines_are_reset() {
    let mut log = Logger::new(true);
    assert_eq!(
        log.line("web", "\x1b[1mup"),
        "\x1b[36mweb         \x1b[0m | \x1b[1mup\x1b[0m"
    );
    assert_eq!(
        log.line("db", "x"),
        "\x1b[32mdb          \x1b[0m | x\x1b[0m"
    );
    assert_eq!(
        log.system("m"),
        "\x1b[90mnix-process \x1b[0m | \x1b[90mm\x1b[0m"
    );
}

#[test]
fn colors_are_kept_and_start_over() {
    let mut log = Logger::new(true);
    let palette = [
        "\x1b[36m", "\x1b[32m", "\x1b[33m", "\x1b[35m", "\x1b[34m", "\x1b[31m", "\x1b[96m",
        "\x1b[92m",
    ];
    for (i, c) in palette.iter().enumerate() {
        assert_eq!(log.color_for(&format!("p{i}")), *c);
    }
    assert_eq!(log.color_for("p8"), palette[0]);
    assert_eq!(log.color_for("p3"), palette[3]);
    assert_eq!(log.color_for("p9"), palette[1]);
    assert_eq!(log.color_for("p8"), palette[0]);
    assert_eq!(log.color_for("p10"), palette[2]);
}

#[test]
fn terminal_leaves_room_for_the_prefix() {
    assert_eq!(child_winsize(Some((100, 40))), (85, 40));
    assert_eq!(child_winsize(Some((36, 2))), (21, 2));
    assert_eq!(child_winsize(Some((35, 2))), (20, 2));
    assert_eq!(child_winsize(Some((10, 50))), (20, 50));
    assert_eq!(child_winsize(Some((u16::MAX, 1))), (65520, 1));
    assert_eq!(child_winsize(Some((0, 24))), (80, 24));
    assert_eq!(child_winsize(Some((100, 0))), (80, 24));
    assert_eq!(child_winsize(None), (80, 24));
}
