use clap::{Arg, ArgAction, Command};
use std::path::{Path, PathBuf};
use tfil::cli::{
    choose_debug_dump_path, choose_pty_size, is_relative_path, should_bypass_pty, Cli,
    TerminalSize,
};
use tfil::filters::{tmux_wrap, Filter};

/// The command line, as far as these tests use it.
fn command() -> Command {
    let flag = |name: &'static str| Arg::new(name).long(name).action(ArgAction::SetTrue);
    Command::new("tfil")
        .arg(flag("strip-cursor-shape"))
        .arg(flag("strip-ink-fake-cursor"))
        .arg(flag("strip-osc-titles"))
        .arg(flag("codex-mouse-ui"))
        .arg(
            Arg::new("tmux-osc-passthrough")
                .long("tmux-osc-passthrough")
                .value_delimiter(',')
                .action(ArgAction::Append),
        )
        .arg(Arg::new("debug-dump").long("debug-dump"))
        .arg(Arg::new("wrap").long("wrap"))
        .arg(Arg::new("command").required_unless_present("wrap"))
        .arg(
            Arg::new("args")
                .trailing_var_arg(true)
                .allow_hyphen_values(true)
                .num_args(0..)
                .action(ArgAction::Append),
        )
}

fn parse_from<const N: usize>(argv: [&str; N]) -> Cli {
    let matches = command().get_matches_from(argv);
    let many = |name: &str| -> Vec<String> {
        matches.get_many(name).unwrap_or_default().cloned().collect()
    };
    Cli {
        strip_cursor_shape: matches.get_flag("strip-cursor-shape"),
        strip_ink_fake_cursor: matches.get_flag("strip-ink-fake-cursor"),
        strip_osc_titles: matches.get_flag("strip-osc-titles"),
        codex_mouse_ui: matches.get_flag("codex-mouse-ui"),
        tmux_osc_passthrough: many("tmux-osc-passthrough")
            .iter()
            .map(|code| code.parse().unwrap())
            .collect(),
        debug_dump: matches.get_one::<String>("debug-dump").cloned(),
        command: matches.get_one::<String>("command").cloned(),
        args: many("args"),
    }
}

#[test]
fn debug_dump_path_uses_env_when_cli_is_absent() {
    let path = choose_debug_dump_path(None, Some(PathBuf::from("env.dump")));

    assert_eq!(path.as_deref(), Some(Path::new("env.dump")));
}

#[test]
fn debug_dump_path_prefers_cli_over_env() {
    let path = choose_debug_dump_path(
        Some(PathBuf::from("cli.dump")),
        Some(PathBuf::from("env.dump")),
    );

    assert_eq!(path.as_deref(), Some(Path::new("cli.dump")));
}

#[test]
fn wrapper_args_cover_all_behavior_options() {
    // Options that configure wrapper handling itself, not child
    // behavior, and thus are never embedded into a script.
    const EXCLUDED: &[&str] = &["wrap", "create-wrapper", "force", "help", "version"];

    let cli = parse_from([
        "tfil",
        "--strip-cursor-shape",
        "--strip-ink-fake-cursor",
        "--strip-osc-titles",
        "--codex-mouse-ui",
        "--tmux-osc-passthrough=22,52",
        "--debug-dump=dump.log",
        "cmd",
    ]);
    let args = cli.to_wrapper_args();

    for arg in command().get_arguments() {
        if arg.is_positional() {
            continue;
        }
        let long = arg.get_long().expect("all options have long names");
        if EXCLUDED.contains(&long) {
            continue;
        }
        assert!(
            args.iter()
                .any(|a| *a == format!("--{long}") || a.starts_with(&format!("--{long}="))),
            "--{long} is not covered"
        );
    }
    assert_eq!(
        args,
        [
            "--strip-cursor-shape",
            "--strip-ink-fake-cursor",
            "--strip-osc-titles",
            "--codex-mouse-ui",
            "--tmux-osc-passthrough=22,52",
            "--debug-dump=dump.log",
        ]
    );
}

#[test]
fn wrapper_args_are_empty_without_options() {
    assert!(parse_from(["tfil", "cmd"]).to_wrapper_args().is_empty());
}

#[test]
fn wrapper_args_write_codes_in_decimal() {
    let cli = parse_from(["tfil", "--tmux-osc-passthrough=0,9,10,65535,1234", "cmd"]);
    assert_eq!(
        cli.to_wrapper_args(),
        ["--tmux-osc-passthrough=0,9,10,65535,1234"]
    );
}

#[test]
fn wrap_mode_treats_all_positionals_as_child_args() {
    let cli = parse_from(["tfil", "--wrap=/home/u/bin/codex", "--", "--resume", "x"]);

    assert_eq!(cli.command.as_deref(), Some("--resume"));
    assert_eq!(cli.args, ["x"]);
    assert_eq!(cli.positional_args(), ["--resume", "x"]);
}

#[test]
fn wrap_mode_accepts_no_positionals() {
    let cli = parse_from(["tfil", "--wrap=/home/u/bin/codex", "--"]);

    assert_eq!(cli.command, None);
    assert!(cli.positional_args().is_empty());
}

#[test]
fn wrapper_bypasses_pty_when_standard_io_is_not_a_terminal() {
    assert!(should_bypass_pty(true, false, true));
    assert!(should_bypass_pty(true, true, false));
    assert!(!should_bypass_pty(true, true, true));
    assert!(!should_bypass_pty(false, false, false));
}

#[test]
fn chosen_filters_run_in_order() {
    let input = b"\x1b[1;7m \x1b[27m\x1b[5 q\x1b]0;title\x07\x1b]22;pointer\x07";
    let none = parse_from(["tfil", "cmd"]);
    assert_eq!(none.filters().filter(input).as_ref(), input);
    assert!(!none.tmux_pointer());
    let all = parse_from([
        "tfil",
        "--strip-cursor-shape",
        "--strip-ink-fake-cursor",
        "--strip-osc-titles",
        "--tmux-osc-passthrough=22",
        "cmd",
    ]);
    assert!(all.tmux_pointer());
    let expected = [b"\x1b[1m ".as_slice(), &tmux_wrap(b"\x1b]22;pointer\x07")].concat();
    for split in 0..=input.len() {
        let mut filters = all.filters();
        let mut output = filters.filter(&input[..split]).into_owned();
        output.extend_from_slice(&filters.filter(&input[split..]));
        output.extend(filters.finish());
        assert_eq!(output, expected, "split {split}");
    }
}

#[test]
fn pty_size_falls_back_without_a_terminal() {
    let fallback = TerminalSize { rows: 24, cols: 80, pixel_width: 0, pixel_height: 0 };
    let reported = TerminalSize { rows: 50, cols: 132, pixel_width: 7, pixel_height: 8 };
    assert_eq!(choose_pty_size(None), fallback);
    assert_eq!(choose_pty_size(Some(reported)), reported);
    assert_eq!(choose_pty_size(Some(TerminalSize { rows: 0, ..reported })), fallback);
    assert_eq!(choose_pty_size(Some(TerminalSize { cols: 0, ..reported })), fallback);
}

#[test]
fn relative_paths_are_told_from_names() {
    for path in ["path/to/cmd", "./path/to/cmd", "../to/cmd"] {
        assert!(is_relative_path(path.as_bytes()), "{path}");
    }
    for path in ["/path/to/cmd", "cmd", ""] {
        assert!(!is_relative_path(path.as_bytes()), "{path}");
    }
}
