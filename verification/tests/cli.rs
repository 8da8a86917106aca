use marginal::blocks::{Block, Pos, Span};
use marginal::cli::{dump_line, exit_code, parse_argv, session_format, Args, USAGE};
use marginal::format::Format;

fn argv(args: &[&str]) -> Result<Option<Args>, String> {
    parse_argv(args.iter().map(|a| a.to_string()).collect())
}

fn read(args: &[&str]) -> Args {
    argv(args).unwrap().unwrap()
}

fn refused(args: &[&str]) -> String {
    argv(args).unwrap_err()
}

#[test]
fn a_bare_file_takes_every_default() {
    let a = read(&["PLAN.md"]);
    assert_eq!(a.file, "PLAN.md");
    assert_eq!(a.result, None);
    assert_eq!(a.label, None);
    assert!(!a.dump);
    assert!(a.pretty);
    assert_eq!(a.format, None);
}

#[test]
fn every_flag_is_read() {
    let a = read(&[
        "--dump-blocks", "--raw", "--result", "out.json", "--label", "the plan", "--format",
        "plain", "PLAN.md",
    ]);
    assert_eq!(a.file, "PLAN.md");
    assert_eq!(a.result.as_deref(), Some("out.json"));
    assert_eq!(a.label.as_deref(), Some("the plan"));
    assert!(a.dump);
    assert!(!a.pretty);
    assert_eq!(a.format, Some(Format::Plain));
}

#[test]
fn a_value_may_look_like_a_flag_and_the_last_file_counts() {
    let a = read(&["one.md", "--label", "--raw", "two.md"]);
    assert_eq!(a.file, "two.md");
    assert_eq!(a.label.as_deref(), Some("--raw"));
    assert!(a.pretty);
}

#[test]
fn each_bad_command_line_says_what_is_wrong_with_it() {
    assert_eq!(refused(&[]), "no input file");
    assert_eq!(refused(&["--raw"]), "no input file");
    assert_eq!(refused(&["a.md", "--result"]), "--result needs a path");
    assert_eq!(refused(&["a.md", "--label"]), "--label needs a name");
    assert_eq!(refused(&["a.md", "--format"]), "--format needs a name");
    assert_eq!(
        refused(&["--format", "tex", "a.md"]),
        "unknown format: tex (markdown or plain)"
    );
    assert_eq!(refused(&["--nope", "a.md"]), "unknown flag: --nope");
    assert_eq!(refused(&["-"]), "unknown flag: -");
}

#[test]
fn help_is_not_a_failure_and_wins_from_where_it_stands() {
    assert!(matches!(argv(&["-h"]), Ok(None)));
    assert!(matches!(argv(&["a.md", "--help", "--nope"]), Ok(None)));
    assert_eq!(refused(&["--nope", "--help"]), "unknown flag: --nope");
    assert!(USAGE.starts_with("usage: marginal "));
}

#[test]
fn the_format_asked_for_wins_over_the_extension() {
    assert_eq!(session_format(&read(&["a.md"])), Format::Markdown);
    assert_eq!(session_format(&read(&["a.txt"])), Format::Plain);
    assert_eq!(session_format(&read(&["--format", "plain", "a.md"])), Format::Plain);
    assert_eq!(session_format(&read(&["--format", "markdown", "a.txt"])), Format::Markdown);
}

#[test]
fn a_listed_block_keeps_its_columns() {
    let span = Span { start: Pos::new(1, 1), end: Pos::new(2, 7) };
    let heading = Block { id: 0, kind: "heading", span, level: 2 };
    assert_eq!(dump_line(&heading), "  0  heading      L1-2  level=2");
    let row = Block { id: 1234, kind: "a-kind-too-long", span, level: 0 };
    assert_eq!(dump_line(&row), "1234  a-kind-too-long L1-2");
}

#[test]
fn the_exit_status_puts_a_failed_write_first() {
    assert_eq!(exit_code(false, 0), 0);
    assert_eq!(exit_code(false, 3), 1);
    assert_eq!(exit_code(true, 0), 2);
    assert_eq!(exit_code(true, 3), 2);
}
