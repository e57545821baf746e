use pretool_hook::bash::{parse, ExtractedCommand, WriteRedirect};

/// Helper: parse and return just commands (no redirects).
fn parse_cmds(input: &str) -> Vec<ExtractedCommand> {
    match parse(input) {
        Ok((cmds, _)) => cmds,
        Err(_) => panic!("parse should succeed"),
    }
}

/// Helper: parse and return just redirects.
fn parse_redirects(input: &str) -> Vec<WriteRedirect> {
    match parse(input) {
        Ok((_, redirects)) => redirects,
        Err(_) => panic!("parse should succeed"),
    }
}

// --- Simple commands ---

#[test]
fn simple_command() {
    let cmds = parse_cmds("safe-read foo bar");
    assert_eq!(cmds.len(), 1);
    assert_eq!(cmds[0].args, vec!["safe-read", "foo", "bar"]);
    assert_eq!(cmds[0].expansion_flags, vec![false, false, false]);
}

#[test]
fn command_with_flags() {
    let cmds = parse_cmds("build --verbose --force");
    assert_eq!(cmds.len(), 1);
    assert_eq!(cmds[0].args, vec!["build", "--verbose", "--force"]);
}

// --- Pipes ---

#[test]
fn piped_commands() {
    let cmds = parse_cmds("safe-read foo | inspect status");
    assert_eq!(cmds.len(), 2);
    assert_eq!(cmds[0].args, vec!["safe-read", "foo"]);
    assert_eq!(cmds[1].args, vec!["inspect", "status"]);
}

// --- Command substitution ---

#[test]
fn command_substitution_extracted() {
    let cmds = parse_cmds("configure --env $(safe-read envfile)");
    // Both the outer command and the inner substitution are extracted.
    assert!(cmds.len() >= 2);
    let inner = cmds.iter().find(|c| c.args[0] == "safe-read");
    assert!(inner.is_some());
}

#[test]
fn command_substitution_marks_expansion() {
    let cmds = parse_cmds("configure --env $(safe-read envfile)");
    let outer = &cmds[0];
    // The arg containing $(...) is marked as having an expansion.
    assert!(outer.expansion_flags.iter().any(|&f| f));
}

#[test]
fn nested_substitution_order_is_outer_first() {
    let cmds = parse_cmds("git commit -m \"$(rm -rf /)\"");
    assert_eq!(cmds.len(), 2);
    assert_eq!(cmds[0].args, vec!["git", "commit", "-m", ""]);
    assert_eq!(cmds[0].expansion_flags, vec![false, false, false, true]);
    assert_eq!(cmds[1].args, vec!["rm", "-rf", "/"]);
}

// --- Variable expansions ---

#[test]
fn dollar_var_marks_expansion() {
    let cmds = parse_cmds("process $MY_VAR");
    assert_eq!(cmds.len(), 1);
    assert!(cmds[0].expansion_flags[1]);
}

#[test]
fn brace_expansion_marks_expansion() {
    let cmds = parse_cmds("process ${MY_VAR}");
    assert_eq!(cmds.len(), 1);
    assert!(cmds[0].expansion_flags[1]);
}

#[test]
fn quoted_string_with_expansion() {
    let cmds = parse_cmds(r#"process "hello $NAME""#);
    assert_eq!(cmds.len(), 1);
    // The quoted arg contains an expansion.
    assert!(cmds[0].expansion_flags[1]);
}

#[test]
fn quoted_string_without_expansion() {
    let cmds = parse_cmds(r#"process "hello world""#);
    assert_eq!(cmds.len(), 1);
    assert!(!cmds[0].expansion_flags[1]);
    assert_eq!(cmds[0].args[1], "hello world");
}

#[test]
fn concatenation_joins_parts() {
    let cmds = parse_cmds("process --out=/tmp/x'y'");
    assert_eq!(cmds[0].args[1], "--out=/tmp/xy");
    assert!(!cmds[0].expansion_flags[1]);
}

// --- Raw strings ---

#[test]
fn single_quoted_is_literal() {
    let cmds = parse_cmds("process 'no $expansion here'");
    assert_eq!(cmds.len(), 1);
    assert!(!cmds[0].expansion_flags[1]);
    assert_eq!(cmds[0].args[1], "no $expansion here");
}

// --- Redirects ---

#[test]
fn write_redirect_captured() {
    let redirects = parse_redirects("safe-read foo > /tmp/out.txt");
    assert_eq!(redirects.len(), 1);
    assert_eq!(redirects[0].path, "/tmp/out.txt");
}

#[test]
fn append_redirect_captured() {
    let redirects = parse_redirects("safe-read foo >> /tmp/out.txt");
    assert_eq!(redirects.len(), 1);
    assert_eq!(redirects[0].path, "/tmp/out.txt");
}

#[test]
fn no_redirect_for_input() {
    let redirects = parse_redirects("process < /dev/null");
    assert!(redirects.is_empty());
}

#[test]
fn redirect_target_is_not_an_argument() {
    let cmds = parse_cmds("safe-read foo > /tmp/out.txt");
    assert_eq!(cmds[0].args, vec!["safe-read", "foo"]);
}

// --- Chained commands ---

#[test]
fn and_chain() {
    let cmds = parse_cmds("safe-read foo && inspect status");
    assert_eq!(cmds.len(), 2);
}

#[test]
fn semicolon_chain() {
    let cmds = parse_cmds("safe-read foo; inspect status");
    assert_eq!(cmds.len(), 2);
}

// --- Edge cases ---

#[test]
fn empty_input() {
    match parse("") {
        Ok((cmds, redirects)) => {
            // Empty string parses to no commands.
            assert!(cmds.is_empty());
            assert!(redirects.is_empty());
        }
        Err(_) => panic!("parse should succeed"),
    }
}

#[test]
fn number_arg() {
    let cmds = parse_cmds("run-wrapper --bg 42 safe-read");
    let args: Vec<&str> = cmds[0].args.iter().map(|s| s.as_str()).collect();
    assert!(args.contains(&"42"));
}

#[test]
fn every_command_has_a_flag_per_argument() {
    for input in ["a b c", "x $(y z) \"w $v\"", "p | q r; s && t 'u'"] {
        for cmd in parse_cmds(input) {
            assert_eq!(cmd.args.len(), cmd.expansion_flags.len());
        }
    }
}
