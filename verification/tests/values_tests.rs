use pretool_hook::decision::{Condition, ConditionalBranch, ConditionalDecisionNode, Decision, DecisionNode, EvalResult};
use pretool_hook::evaluate::evaluate_command;
use pretool_hook::hook::{content_check_paths, run_hook, HookResponse, Mode};
use pretool_hook::input::{BashInput, CommonInput, HookInput, ToolInput};
use pretool_hook::path::{CompiledFileAccess, FileCheckRead};
use pretool_hook::rules::{
    AccessRules, BashRules, CommandNode, DecisionSpec, FileAccess, FileCheck, FlagEntry, FlagKind, OptionEntry,
    PositionalDef, PositionalEntry, Rules, ToolEntry, WildcardMap, WriteRules,
};

fn map<T>(entries: Vec<(&str, T)>, wildcard: Option<T>) -> WildcardMap<T> {
    WildcardMap { entries: entries.into_iter().map(|(k, v)| (k.to_string(), v)).collect(), wildcard: wildcard.map(Box::new) }
}

fn node(decision: Decision) -> CommandNode {
    CommandNode {
        decision: Some(decision),
        subcmds: None,
        flags: None,
        options: None,
        positional: None,
        cwd_check: None,
        is_wrapper: false,
        skip_positional: 0,
        allow_expansions: false,
    }
}

fn fixed(d: Decision) -> DecisionSpec {
    DecisionSpec { node: DecisionNode::Static(d), force: false, is_pattern: false }
}

fn pattern(d: Decision) -> DecisionSpec {
    DecisionSpec { node: DecisionNode::Static(d), force: false, is_pattern: true }
}

fn if_readable() -> DecisionNode {
    DecisionNode::Conditional(Box::new(ConditionalDecisionNode {
        condition: Condition::Readable,
        then_decision: ConditionalBranch::Static(Decision::Allow),
        else_decision: ConditionalBranch::Static(Decision::Deny),
    }))
}

fn entry(node: DecisionNode) -> PositionalEntry {
    PositionalEntry { node, values: None, check_file: None }
}

fn option(decision: Decision) -> OptionEntry {
    OptionEntry {
        decision,
        force: false,
        aliases: vec![],
        allow_expansions: false,
        values: None,
        check_file: None,
        positional: None,
        override_positional: false,
    }
}

fn rules_fixture() -> BashRules {
    let script_values = || map(vec![("\\bsystem\\(", pattern(Decision::Ask)), ("[", pattern(Decision::Allow))], Some(fixed(Decision::Allow)));
    let sed = CommandNode {
        options: Some(map(
            vec![(
                "-e",
                OptionEntry {
                    values: Some(map(vec![("\\bsystem\\(", pattern(Decision::Ask))], Some(fixed(Decision::Allow)))),
                    override_positional: true,
                    positional: Some(map(vec![], Some(PositionalDef::Single(entry(if_readable()))))),
                    aliases: vec!["--expression".to_string()],
                    ..option(Decision::Allow)
                },
            )],
            None,
        )),
        positional: Some(map(
            vec![(
                "1",
                PositionalDef::Single(PositionalEntry {
                    node: DecisionNode::Static(Decision::Allow),
                    values: Some(map(vec![("\\bsystem\\(", pattern(Decision::Ask))], Some(fixed(Decision::Allow)))),
                    check_file: None,
                }),
            )],
            None,
        )),
        ..node(Decision::Allow)
    };
    let broken = CommandNode {
        options: Some(map(vec![("-p", OptionEntry { values: Some(script_values()), ..option(Decision::Allow) })], None)),
        ..node(Decision::Allow)
    };
    let grep = CommandNode {
        flags: Some(map(
            vec![(
                "-r",
                FlagEntry {
                    kind: FlagKind::Positional(map(vec![], Some(PositionalDef::Single(entry(if_readable()))))),
                    force: false,
                    aliases: vec![],
                    override_positional: true,
                },
            ), ("-n", FlagEntry { kind: FlagKind::Decision(Decision::Allow), force: false, aliases: vec![], override_positional: false })],
            None,
        )),
        positional: Some(map(
            vec![("1", PositionalDef::Single(entry(DecisionNode::Static(Decision::Ask))))],
            None,
        )),
        ..node(Decision::Allow)
    };
    let awk = CommandNode {
        options: Some(map(
            vec![(
                "-f",
                OptionEntry {
                    check_file: Some(FileCheck {
                        values: map(vec![("\\bsystem\\(", pattern(Decision::Ask))], Some(fixed(Decision::Allow))),
                        on_unreadable: Decision::Deny,
                    }),
                    ..option(Decision::Allow)
                },
            )],
            None,
        )),
        positional: Some(map(vec![], Some(PositionalDef::Single(entry(DecisionNode::Static(Decision::Allow)))))),
        ..node(Decision::Allow)
    };
    let bc = CommandNode {
        positional: Some(map(
            vec![],
            Some(PositionalDef::Single(PositionalEntry {
                node: DecisionNode::Static(Decision::Allow),
                values: Some(map(vec![("danger", fixed(Decision::Deny)), ("^dan", pattern(Decision::Ask))], Some(fixed(Decision::Allow)))),
                check_file: None,
            })),
        )),
        ..node(Decision::Allow)
    };
    let cat = CommandNode {
        positional: Some(map(
            vec![],
            Some(PositionalDef::Single(PositionalEntry {
                node: DecisionNode::Static(Decision::Allow),
                values: None,
                check_file: Some(FileCheck { values: map(vec![("secret", fixed(Decision::Deny))], Some(fixed(Decision::Allow))), on_unreadable: Decision::Ask }),
            })),
        )),
        ..node(Decision::Allow)
    };
    let commands: Vec<(&str, CommandNode)> =
        vec![("sed", sed), ("broken", broken), ("grep", grep), ("awk", awk), ("bc", bc), ("cat", cat)];
    BashRules {
        commands: commands.into_iter().map(|(k, v)| (k.to_string(), v)).collect(),
        globally_allowed_flags: vec!["--help".to_string()],
    }
}

fn eval(strs: &[&str]) -> EvalResult {
    let bash = rules_fixture();
    let a: Vec<String> = strs.iter().map(|s| s.to_string()).collect();
    let e = vec![false; a.len()];
    evaluate_command(&a, &e, false, false, &bash, "/work")
}

fn decision(result: &EvalResult) -> Decision {
    match result {
        EvalResult::Decided { decision, .. } => *decision,
        EvalResult::CheckPaths { base_decision, .. } => *base_decision,
    }
}

fn reason(result: &EvalResult) -> String {
    match result {
        EvalResult::Decided { reason, .. } => reason.clone(),
        EvalResult::CheckPaths { reason, .. } => reason.clone(),
    }
}

// --- isPattern values ---

#[test]
fn pattern_value_matches() {
    let r = eval(&["sed", "-e", "1 system(\"ls\")", "/tmp/f"]);
    assert_eq!(decision(&r), Decision::Ask);
    assert!(reason(&r).contains("matched pattern '\\bsystem\\('"), "{}", reason(&r));
}

#[test]
fn pattern_miss_falls_back_to_wildcard() {
    let r = eval(&["sed", "-e", "s/a/b/", "/tmp/f"]);
    assert_eq!(decision(&r), Decision::Allow);
}

#[test]
fn invalid_pattern_denies() {
    let r = eval(&["broken", "-p", "anything"]);
    assert_eq!(decision(&r), Decision::Deny);
    assert!(reason(&r).contains("has invalid pattern '['"), "{}", reason(&r));
}

#[test]
fn exact_and_pattern_both_apply() {
    // "danger" is an exact entry (deny) and matches "^dan" (ask): both
    // apply and the strictest wins.
    assert_eq!(decision(&eval(&["bc", "danger"])), Decision::Deny);
    // "dance" only matches the pattern: the wildcard does not apply.
    assert_eq!(decision(&eval(&["bc", "dance"])), Decision::Ask);
    assert_eq!(decision(&eval(&["bc", "safe"])), Decision::Allow);
}

#[test]
fn positional_values_screen_the_argument() {
    assert_eq!(decision(&eval(&["sed", "system(1)"])), Decision::Ask);
    assert_eq!(decision(&eval(&["sed", "s/a/b/"])), Decision::Allow);
}

// --- overlays and overridePositional ---

#[test]
fn option_override_replaces_parent_positional() {
    // With -e, the lone positional is a file: the parent's "1" rule (a
    // script screen) is skipped and the option's readable overlay applies.
    let r = eval(&["sed", "-e", "s/a/b/", "/tmp/system(x)"]);
    match &r {
        EvalResult::CheckPaths { path_checks, base_decision, .. } => {
            assert_eq!(path_checks.len(), 1);
            assert_eq!(path_checks[0].path, "/tmp/system(x)");
            assert_eq!(*base_decision, Decision::Allow);
        }
        _ => panic!("expected CheckPaths"),
    }
}

#[test]
fn flag_override_replaces_parent_positional() {
    // Without -r the parent's "1" rule asks; with -r only the overlay's
    // readable check applies.
    assert_eq!(decision(&eval(&["grep", "pattern"])), Decision::Ask);
    let r = eval(&["grep", "-r", "/tmp/dir"]);
    match &r {
        EvalResult::CheckPaths { path_checks, .. } => {
            assert_eq!(path_checks.len(), 1);
            assert_eq!(path_checks[0].path, "/tmp/dir");
        }
        _ => panic!("expected CheckPaths"),
    }
}

#[test]
fn non_override_flag_keeps_parent_positional() {
    assert_eq!(decision(&eval(&["grep", "-n", "pattern"])), Decision::Ask);
}

// --- checkFile ---

#[test]
fn check_file_becomes_a_content_check() {
    let r = eval(&["awk", "-f", "/tmp/prog.awk", "data"]);
    match &r {
        EvalResult::CheckPaths { path_checks, .. } => {
            assert_eq!(path_checks.len(), 1);
            assert_eq!(path_checks[0].path, "/tmp/prog.awk");
            assert!(path_checks[0].contents.is_some());
        }
        _ => panic!("expected CheckPaths"),
    }
}

fn hook_rules() -> Rules {
    Rules {
        tools: ToolEntry {
            bash: Some(rules_fixture()),
            read: None,
            notebook_edit: None,
            edit: None,
            write: None,
            glob: None,
            grep: None,
            other: vec![],
        },
        file_access: FileAccess {
            read: AccessRules { glob_patterns: vec!["**".into(), "!**/*.secret*".into()] },
            write: WriteRules { glob_patterns: vec!["/tmp/**".into()], require_readable: true },
        },
        defer_ask_in_auto_mode: false,
    }
}

fn bash_event(command: &str) -> HookInput {
    HookInput {
        common: CommonInput { cwd: "/work".to_string(), ..CommonInput::default() },
        agent: None,
        tool: ToolInput::Bash(BashInput { command: command.to_string(), description: None, timeout: None, run_in_background: None }),
    }
}

fn decide_with(command: &str, files: &[(String, FileCheckRead)]) -> (String, String) {
    let rules = hook_rules();
    let fa = CompiledFileAccess::compile(&rules.file_access, "/work", None).unwrap();
    match run_hook(&bash_event(command), &rules, &fa, Mode::Claude, files) {
        HookResponse::Answer(out) => {
            (out.hook_specific_output.permission_decision, out.hook_specific_output.permission_decision_reason)
        }
        HookResponse::Abstain => (String::new(), String::new()),
    }
}

#[test]
fn content_check_paths_lists_files_to_read() {
    let rules = hook_rules();
    match content_check_paths(&bash_event("awk -f /tmp/prog.awk data | cat notes.txt"), &rules) {
        Ok(paths) => assert_eq!(paths, vec!["/tmp/prog.awk", "notes.txt"]),
        Err(_) => panic!("parse should succeed"),
    }
    match content_check_paths(&bash_event("sed -e s/a/b/ x"), &rules) {
        Ok(paths) => assert!(paths.is_empty()),
        Err(_) => panic!("parse should succeed"),
    }
}

#[test]
fn content_check_safe_contents_allow() {
    let files = vec![("/tmp/prog.awk".to_string(), FileCheckRead::Contents("{ print $1 }".to_string()))];
    assert_eq!(decide_with("awk -f /tmp/prog.awk data", &files).0, "allow");
}

#[test]
fn content_check_dangerous_contents_ask() {
    let files = vec![("/tmp/prog.awk".to_string(), FileCheckRead::Contents("BEGIN { system(\"id\") }".to_string()))];
    let (d, reason) = decide_with("awk -f /tmp/prog.awk data", &files);
    assert_eq!(d, "ask");
    assert_eq!(reason, "file '/tmp/prog.awk' contents matched pattern '\\bsystem\\('");
}

#[test]
fn content_check_unreadable_uses_on_unreadable() {
    let files = vec![("/tmp/prog.awk".to_string(), FileCheckRead::Unreadable("cannot open".to_string()))];
    let (d, reason) = decide_with("awk -f /tmp/prog.awk data", &files);
    assert_eq!(d, "deny");
    assert_eq!(reason, "file '/tmp/prog.awk' is unreadable: cannot open");
}

#[test]
fn content_check_not_read_uses_on_unreadable() {
    let (d, reason) = decide_with("awk -f /tmp/prog.awk data", &[]);
    assert_eq!(d, "deny");
    assert_eq!(reason, "file '/tmp/prog.awk' was not read");
}

#[test]
fn positional_content_check() {
    let files = vec![("notes.txt".to_string(), FileCheckRead::Contents("a secret here".to_string()))];
    assert_eq!(decide_with("cat notes.txt", &files).0, "allow");
    let files = vec![("notes.txt".to_string(), FileCheckRead::Contents("secret".to_string()))];
    assert_eq!(decide_with("cat notes.txt", &files).0, "deny");
    let files = vec![("notes.txt".to_string(), FileCheckRead::Unreadable("too big".to_string()))];
    assert_eq!(decide_with("cat notes.txt", &files).0, "ask");
}
