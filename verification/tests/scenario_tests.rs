//! End-to-end scenarios: a hook event goes through the same steps the
//! binary takes (file contents gathered for content checks, then
//! `run_hook`), against a full set of rules.  File contents come from an
//! in-memory table in place of the disk.

use pretool_hook::decision::{
    Condition, ConditionalBranch, ConditionalDecisionNode, Decision, DecisionNode, StaticDecisionNode,
};
use pretool_hook::hook::{content_check_paths, create_response, respond, run_hook, HookResponse, Mode};
use pretool_hook::input::{
    AgentToolInput, AskUserQuestionInput, BashInput, CommonInput, EditInput, GlobInput, GrepInput, HookInput,
    NotebookEditInput, Question, QuestionOption, ReadInput, ToolInput, WebFetchInput, WriteInput,
};
use pretool_hook::path::{check_target, read_outcome, CompiledFileAccess, FileCheckRead, ReadAttempt, FILE_CHECK_MAX_BYTES};
use pretool_hook::rules::{
    AccessRules, BashRules, CommandNode, DecisionSpec, FileAccess, FileCheck, FlagEntry, FlagKind, OptionEntry,
    PositionalDef, PositionalEntry, Rules, ToolEntry, WildcardMap, WriteRules,
};

// ---------------------------------------------------------------------------
// Building blocks of the rules
// ---------------------------------------------------------------------------

fn map<T>(entries: Vec<(&str, T)>, wildcard: Option<T>) -> WildcardMap<T> {
    WildcardMap { entries: entries.into_iter().map(|(k, v)| (k.to_string(), v)).collect(), wildcard: wildcard.map(Box::new) }
}

fn node(decision: Decision) -> CommandNode {
    CommandNode {
        decision: Some(decision),
        subcmds: None,
        flags: None,
        options: None,
        positional: None,
        cwd_check: None,
        is_wrapper: false,
        skip_positional: 0,
        allow_expansions: false,
    }
}

fn aliases(names: &[&str]) -> Vec<String> {
    names.iter().map(|s| s.to_string()).collect()
}

fn flag(decision: Decision, names: &[&str]) -> FlagEntry {
    FlagEntry { kind: FlagKind::Decision(decision), force: false, aliases: aliases(names), override_positional: false }
}

fn forced_flag(decision: Decision) -> FlagEntry {
    FlagEntry { kind: FlagKind::Decision(decision), force: true, aliases: vec![], override_positional: false }
}

/// A flag whose presence adds a positional rule for every argument.
fn overlay_flag(every_arg: DecisionNode) -> FlagEntry {
    FlagEntry {
        kind: FlagKind::Positional(map(vec![], Some(PositionalDef::Single(entry(every_arg))))),
        force: false,
        aliases: vec![],
        override_positional: false,
    }
}

fn option(decision: Decision, names: &[&str]) -> OptionEntry {
    OptionEntry {
        decision,
        force: false,
        aliases: aliases(names),
        allow_expansions: false,
        values: None,
        check_file: None,
        positional: None,
        override_positional: false,
    }
}

/// An option whose value is a path checked by `value_node`.
fn path_option(names: &[&str], value_node: DecisionNode) -> OptionEntry {
    OptionEntry { values: Some(map(vec![], Some(spec(value_node)))), ..option(Decision::Allow, names) }
}

fn spec(node: DecisionNode) -> DecisionSpec {
    DecisionSpec { node, force: false, is_pattern: false }
}

fn fixed(d: Decision) -> DecisionSpec {
    spec(DecisionNode::Static(d))
}

fn pattern(d: Decision) -> DecisionSpec {
    DecisionSpec { node: DecisionNode::Static(d), force: false, is_pattern: true }
}

fn entry(node: DecisionNode) -> PositionalEntry {
    PositionalEntry { node, values: None, check_file: None }
}

fn every(node: DecisionNode) -> WildcardMap<PositionalDef> {
    map(vec![], Some(PositionalDef::Single(entry(node))))
}

fn allow() -> DecisionNode {
    DecisionNode::Static(Decision::Allow)
}

fn if_readable() -> DecisionNode {
    DecisionNode::Conditional(Box::new(ConditionalDecisionNode {
        condition: Condition::Readable,
        then_decision: ConditionalBranch::Static(Decision::Allow),
        else_decision: ConditionalBranch::Static(Decision::Deny),
    }))
}

fn if_writable() -> DecisionNode {
    DecisionNode::Conditional(Box::new(ConditionalDecisionNode {
        condition: Condition::Writable,
        then_decision: ConditionalBranch::Static(Decision::Allow),
        else_decision: ConditionalBranch::Nested(Box::new(ConditionalDecisionNode {
            condition: Condition::Readable,
            then_decision: ConditionalBranch::Static(Decision::Ask),
            else_decision: ConditionalBranch::Static(Decision::Deny),
        })),
    }))
}

fn writable_or_deny() -> DecisionNode {
    DecisionNode::Conditional(Box::new(ConditionalDecisionNode {
        condition: Condition::Writable,
        then_decision: ConditionalBranch::Static(Decision::Allow),
        else_decision: ConditionalBranch::Static(Decision::Deny),
    }))
}

/// Script texts that run commands or write files ask; anything else is allowed.
fn sed_danger() -> WildcardMap<DecisionSpec> {
    map(
        vec![
            ("(?m)^\\s*[0-9,$]*\\s*e(\\s|$)", pattern(Decision::Ask)),
            ("s/[^/]+/[^/]+/[a-z]*[ew]", pattern(Decision::Ask)),
            ("(?m)^\\s*[0-9,$]*\\s*w\\s", pattern(Decision::Ask)),
        ],
        Some(fixed(Decision::Allow)),
    )
}

fn awk_danger() -> WildcardMap<DecisionSpec> {
    map(
        vec![("\\bsystem\\s*\\(", pattern(Decision::Ask)), ("\\bprint\\b[^;}]*>", pattern(Decision::Ask))],
        Some(fixed(Decision::Allow)),
    )
}

fn script(values: WildcardMap<DecisionSpec>) -> PositionalEntry {
    PositionalEntry { node: allow(), values: Some(values), check_file: None }
}

/// An option naming a script file: its contents are checked, it replaces
/// the script positional, and the remaining arguments must be readable.
fn script_file_option(names: &[&str], danger: WildcardMap<DecisionSpec>) -> OptionEntry {
    OptionEntry {
        check_file: Some(FileCheck { values: danger, on_unreadable: Decision::Deny }),
        override_positional: true,
        positional: Some(every(if_readable())),
        ..option(Decision::Allow, names)
    }
}

// ---------------------------------------------------------------------------
// The rules
// ---------------------------------------------------------------------------

fn git() -> CommandNode {
    let with_output = || CommandNode {
        options: Some(map(vec![("--output", path_option(&[], if_writable()))], None)),
        ..node(Decision::Allow)
    };
    CommandNode {
        options: Some(map(vec![("-C", path_option(&[], if_writable())), ("-c", option(Decision::Ask, &[]))], None)),
        subcmds: Some(map(
            vec![
                ("status", node(Decision::Allow)),
                ("log", with_output()),
                ("show", with_output()),
                ("diff", with_output()),
                ("push", node(Decision::Deny)),
                ("clean", node(Decision::Deny)),
                (
                    "commit",
                    CommandNode {
                        options: Some(map(
                            vec![("-m", OptionEntry { allow_expansions: true, ..option(Decision::Allow, &["--message"]) })],
                            None,
                        )),
                        ..node(Decision::Allow)
                    },
                ),
                (
                    "config",
                    CommandNode {
                        subcmds: Some(map(vec![("get", node(Decision::Allow)), ("list", node(Decision::Allow))], None)),
                        ..node(Decision::Ask)
                    },
                ),
            ],
            None,
        )),
        ..node(Decision::Ask)
    }
}

fn transfer() -> CommandNode {
    CommandNode {
        options: Some(map(vec![("-t", path_option(&["--target-directory"], if_writable()))], None)),
        positional: Some(map(
            vec![("2", PositionalDef::Array(vec![entry(if_readable()), entry(if_writable())]))],
            Some(PositionalDef::Single(entry(DecisionNode::Static(Decision::Ask)))),
        )),
        ..node(Decision::Allow)
    }
}

fn bash_rules() -> BashRules {
    let sed = CommandNode {
        flags: Some(map(vec![("-n", flag(Decision::Allow, &[]))], None)),
        options: Some(map(
            vec![
                (
                    "--expression",
                    OptionEntry {
                        values: Some(sed_danger()),
                        override_positional: true,
                        positional: Some(every(if_readable())),
                        ..option(Decision::Allow, &["-e"])
                    },
                ),
                ("-f", script_file_option(&["--file"], sed_danger())),
            ],
            None,
        )),
        positional: Some(map(
            vec![
                ("1", PositionalDef::Single(script(sed_danger()))),
                ("2", PositionalDef::Array(vec![script(sed_danger()), entry(if_readable())])),
            ],
            None,
        )),
        ..node(Decision::Allow)
    };
    let awk = CommandNode {
        options: Some(map(vec![("-f", script_file_option(&[], awk_danger()))], None)),
        positional: Some(map(vec![], Some(PositionalDef::Single(script(awk_danger()))))),
        ..node(Decision::Allow)
    };
    let commands: Vec<(&str, CommandNode)> = vec![
        ("ls", node(Decision::Allow)),
        ("cat", node(Decision::Allow)),
        ("head", node(Decision::Allow)),
        ("dd", node(Decision::Deny)),
        ("sh", node(Decision::Ask)),
        ("env", CommandNode { allow_expansions: true, ..node(Decision::Allow) }),
        (
            "timeout",
            CommandNode {
                is_wrapper: true,
                skip_positional: 1,
                flags: Some(map(vec![("--foreground", flag(Decision::Allow, &[]))], None)),
                ..node(Decision::Allow)
            },
        ),
        (
            "command",
            CommandNode {
                is_wrapper: true,
                flags: Some(map(
                    vec![("-p", flag(Decision::Allow, &[])), ("-v", forced_flag(Decision::Allow)), ("-V", forced_flag(Decision::Allow))],
                    None,
                )),
                ..node(Decision::Ask)
            },
        ),
        (
            "cargo",
            CommandNode {
                subcmds: Some(map(
                    vec![
                        ("test", node(Decision::Allow)),
                        (
                            "build",
                            CommandNode {
                                options: Some(map(vec![("--target-dir", path_option(&[], if_writable()))], None)),
                                ..node(Decision::Allow)
                            },
                        ),
                        ("fmt", node(Decision::Allow)),
                    ],
                    None,
                )),
                ..node(Decision::Ask)
            },
        ),
        ("git", git()),
        ("npm", CommandNode { subcmds: Some(map(vec![], Some(node(Decision::Ask)))), ..node(Decision::Ask) }),
        (
            "nix",
            CommandNode {
                subcmds: Some(map(
                    vec![
                        (
                            "flake",
                            CommandNode {
                                subcmds: Some(map(vec![("check", node(Decision::Allow)), ("show", node(Decision::Allow))], None)),
                                ..node(Decision::Ask)
                            },
                        ),
                        (
                            "eval",
                            CommandNode {
                                options: Some(map(vec![("--write-to", path_option(&[], if_writable()))], None)),
                                ..node(Decision::Allow)
                            },
                        ),
                    ],
                    None,
                )),
                ..node(Decision::Ask)
            },
        ),
        (
            "make",
            CommandNode {
                flags: Some(map(
                    vec![("-j", flag(Decision::Allow, &[])), ("--dry-run", flag(Decision::Allow, &["-n"]))],
                    Some(flag(Decision::Allow, &[])),
                )),
                ..node(Decision::Allow)
            },
        ),
        (
            "rm",
            CommandNode {
                flags: Some(map(
                    vec![("-r", flag(Decision::Deny, &[])), ("-rf", flag(Decision::Deny, &[])), ("-fr", flag(Decision::Deny, &[]))],
                    Some(flag(Decision::Allow, &[])),
                )),
                ..node(Decision::Allow)
            },
        ),
        ("file", CommandNode { flags: Some(map(vec![("-C", flag(Decision::Ask, &["--compile"]))], None)), ..node(Decision::Allow) }),
        (
            "curl",
            CommandNode {
                options: Some(map(
                    vec![
                        (
                            "--request",
                            OptionEntry {
                                values: Some(map(
                                    vec![("GET", fixed(Decision::Allow)), ("DELETE", fixed(Decision::Deny))],
                                    Some(fixed(Decision::Ask)),
                                )),
                                ..option(Decision::Allow, &["-X"])
                            },
                        ),
                        ("--output", path_option(&["-o"], writable_or_deny())),
                    ],
                    None,
                )),
                ..node(Decision::Allow)
            },
        ),
        ("cd", CommandNode { positional: Some(map(vec![("1", PositionalDef::Single(entry(if_readable())))], None)), ..node(Decision::Allow) }),
        ("cp", transfer()),
        ("mv", transfer()),
        ("sed", sed),
        ("awk", awk),
        ("jq", CommandNode { options: Some(map(vec![("-f", path_option(&["--from-file"], if_readable()))], None)), ..node(Decision::Allow) }),
        (
            "dotnet",
            CommandNode {
                subcmds: Some(map(
                    vec![
                        (
                            "build",
                            CommandNode {
                                options: Some(map(
                                    vec![
                                        ("-o", path_option(&["--output"], if_writable())),
                                        ("--artifacts-path", path_option(&[], if_writable())),
                                    ],
                                    None,
                                )),
                                ..node(Decision::Allow)
                            },
                        ),
                        (
                            "test",
                            CommandNode {
                                options: Some(map(vec![("--results-directory", path_option(&[], if_writable()))], None)),
                                ..node(Decision::Allow)
                            },
                        ),
                        (
                            "restore",
                            CommandNode {
                                options: Some(map(vec![("--packages", path_option(&[], if_writable()))], None)),
                                ..node(Decision::Allow)
                            },
                        ),
                    ],
                    None,
                )),
                ..node(Decision::Ask)
            },
        ),
        (
            "find",
            CommandNode {
                flags: Some(map(
                    vec![("-delete", flag(Decision::Deny, &[])), ("-exec", flag(Decision::Deny, &[])), ("-execdir", flag(Decision::Deny, &[]))],
                    Some(flag(Decision::Allow, &[])),
                )),
                options: Some(map(vec![("-fprint", path_option(&[], if_writable()))], None)),
                ..node(Decision::Allow)
            },
        ),
        (
            "sort",
            CommandNode {
                options: Some(map(vec![("-o", path_option(&["--output"], if_writable()))], None)),
                positional: Some(every(if_readable())),
                ..node(Decision::Allow)
            },
        ),
        (
            "shfmt",
            CommandNode {
                flags: Some(map(vec![("-w", overlay_flag(if_writable()))], None)),
                positional: Some(every(if_readable())),
                ..node(Decision::Allow)
            },
        ),
        (
            "patch",
            CommandNode {
                flags: Some(map(vec![("-i", overlay_flag(if_writable()))], None)),
                positional: Some(every(if_readable())),
                ..node(Decision::Allow)
            },
        ),
        (
            "unzip",
            CommandNode {
                flags: Some(map(vec![("-l", flag(Decision::Allow, &[]))], None)),
                positional: Some(every(if_readable())),
                cwd_check: Some(if_writable()),
                ..node(Decision::Allow)
            },
        ),
        (
            "fd",
            CommandNode {
                flags: Some(map(
                    vec![("-x", flag(Decision::Ask, &["--exec"])), ("-X", flag(Decision::Ask, &["--exec-batch"]))],
                    Some(flag(Decision::Allow, &[])),
                )),
                ..node(Decision::Allow)
            },
        ),
        ("info", CommandNode { options: Some(map(vec![("-o", path_option(&["--output"], if_writable()))], None)), ..node(Decision::Allow) }),
        (
            "man",
            CommandNode {
                options: Some(map(
                    vec![(
                        "-P",
                        OptionEntry {
                            values: Some(map(
                                vec![
                                    ("less", fixed(Decision::Allow)),
                                    ("cat", fixed(Decision::Allow)),
                                    ("more", fixed(Decision::Allow)),
                                    ("bat", fixed(Decision::Allow)),
                                ],
                                Some(fixed(Decision::Ask)),
                            )),
                            ..option(Decision::Allow, &["--pager"])
                        },
                    )],
                    None,
                )),
                ..node(Decision::Allow)
            },
        ),
        (
            "mktemp",
            CommandNode {
                options: Some(map(vec![("-p", path_option(&["--tmpdir"], if_writable()))], None)),
                positional: Some(every(if_writable())),
                ..node(Decision::Allow)
            },
        ),
    ];
    BashRules {
        commands: commands.into_iter().map(|(k, v)| (k.to_string(), v)).collect(),
        globally_allowed_flags: vec!["--help".to_string(), "--version".to_string()],
    }
}

fn rules() -> Rules {
    Rules {
        tools: ToolEntry {
            bash: Some(bash_rules()),
            read: Some(if_readable()),
            notebook_edit: Some(if_writable()),
            edit: Some(if_writable()),
            write: Some(if_writable()),
            glob: Some(if_readable()),
            grep: Some(if_readable()),
            other: ["LSP", "WebFetch", "Agent", "AskUserQuestion"]
                .iter()
                .map(|t| (t.to_string(), StaticDecisionNode(Decision::Allow)))
                .collect(),
        },
        file_access: FileAccess {
            read: AccessRules { glob_patterns: vec!["**".into(), "!**/*.secret*".into(), "!**/*.key*".into()] },
            write: WriteRules { glob_patterns: vec!["/tmp/**".into(), "/workspace/**".into()], require_readable: true },
        },
        defer_ask_in_auto_mode: false,
    }
}

// ---------------------------------------------------------------------------
// Running an event
// ---------------------------------------------------------------------------

/// The contents of a file that exists, by its normalized path.
type Disk<'a> = &'a [(&'a str, &'a str)];

/// What reading `path` for a content check gives: blocked paths are
/// refused before any read, missing files fail to open.
fn read_for_check(path: &str, fa: &CompiledFileAccess, cwd: &str, disk: Disk) -> FileCheckRead {
    match check_target(path, fa, cwd).expect("patterns compile") {
        Err(unreadable) => unreadable,
        Ok(normalized) => {
            let attempt = match disk.iter().find(|(p, _)| *p == normalized) {
                Some((_, text)) => ReadAttempt::Read { len: text.len(), text: Some(text.to_string()) },
                None => ReadAttempt::OpenFailed("No such file or directory (os error 2)".to_string()),
            };
            read_outcome(&normalized, FILE_CHECK_MAX_BYTES, attempt)
        }
    }
}

fn respond_to(tool: ToolInput, cwd: &str, disk: Disk) -> HookResponse {
    let rules = rules();
    let input = HookInput { common: CommonInput { cwd: cwd.to_string(), ..CommonInput::default() }, agent: None, tool };
    let fa = CompiledFileAccess::compile(&rules.file_access, cwd, None).expect("patterns compile");
    let paths = content_check_paths(&input, &rules).unwrap_or_default();
    let files: Vec<(String, FileCheckRead)> = paths
        .into_iter()
        .map(|p| {
            let read = read_for_check(&p, &fa, cwd, disk);
            (p, read)
        })
        .collect();
    run_hook(&input, &rules, &fa, Mode::Claude, &files)
}

/// The decision and reason reported for an event from `cwd`, "" when the
/// hook abstains.
fn run_on(tool: ToolInput, cwd: &str, disk: Disk) -> (String, String) {
    match respond_to(tool, cwd, disk) {
        HookResponse::Answer(out) => (
            out.hook_specific_output.permission_decision.clone(),
            out.hook_specific_output.permission_decision_reason.clone(),
        ),
        HookResponse::Abstain => (String::new(), String::new()),
    }
}

fn run(tool: ToolInput) -> (String, String) {
    run_on(tool, "", &[])
}

fn check(tool: ToolInput, expected: &str) {
    let (decision, reason) = run(tool);
    assert_eq!(decision, expected, "reason: {reason}");
}

fn check_with_files(command: &str, disk: Disk, expected: &str) {
    let (decision, reason) = run_on(bash(command), "", disk);
    assert_eq!(decision, expected, "reason: {reason}");
}

fn bash(command: &str) -> ToolInput {
    ToolInput::Bash(BashInput { command: command.to_string(), description: None, timeout: None, run_in_background: None })
}

fn read(path: &str) -> ToolInput {
    ToolInput::Read(ReadInput { file_path: path.to_string(), offset: None, limit: None })
}

fn write(path: &str) -> ToolInput {
    ToolInput::Write(WriteInput { file_path: path.to_string(), content: String::new() })
}

fn glob(path: Option<&str>) -> ToolInput {
    ToolInput::Glob(GlobInput { pattern: "**/*.rs".to_string(), path: path.map(|p| p.to_string()) })
}

fn grep(pattern: &str, path: Option<&str>) -> ToolInput {
    ToolInput::Grep(GrepInput {
        pattern: pattern.to_string(),
        path: path.map(|p| p.to_string()),
        glob: None,
        output_mode: None,
        case_insensitive: false,
        multiline: false,
    })
}

fn unknown(name: &str) -> ToolInput {
    ToolInput::Unknown { tool_name: name.to_string(), tool_input: serde_json::Value::Object(serde_json::Map::new()) }
}

// ---------------------------------------------------------------------------
// Simple decisions, --help and --version
// ---------------------------------------------------------------------------

#[test]
fn bash_simple_ask() {
    check(bash("sh"), "ask");
}

#[test]
fn bash_unknown_command() {
    check(bash("totally-unknown"), "ask");
}

#[test]
fn bash_empty_command() {
    check(bash(""), "ask");
}

#[test]
fn bash_help_overrides_deny() {
    check(bash("dd --help"), "allow");
}

#[test]
fn bash_version_overrides_deny() {
    check(bash("dd --version"), "allow");
}

#[test]
fn bash_wrapper_help_allowed() {
    check(bash("timeout --help"), "allow");
}

#[test]
fn bash_wrapper_command_help_allowed() {
    check(bash("command --help"), "allow");
}

#[test]
fn bash_wrapper_version_allowed() {
    check(bash("timeout --version"), "allow");
}

#[test]
fn bash_wrapper_help_in_pipe_allowed() {
    check(bash("timeout --help 2>&1 | head -50"), "allow");
}

// ---------------------------------------------------------------------------
// Subcommands
// ---------------------------------------------------------------------------

#[test]
fn bash_subcmd_allow() {
    check(bash("cargo test"), "allow");
}

#[test]
fn bash_subcmd_deny() {
    check(bash("git push"), "deny");
}

#[test]
fn bash_subcmd_wildcard() {
    check(bash("npm audit"), "ask");
}

#[test]
fn bash_nested_subcmd_allow() {
    check(bash("nix flake check"), "allow");
}

#[test]
fn bash_nested_subcmd_deny() {
    check(bash("git clean"), "deny");
}

#[test]
fn bash_pre_subcmd_option_conditional_writable() {
    check(bash("git -C /tmp/foo status"), "allow");
}

#[test]
fn bash_pre_subcmd_option_conditional_not_writable() {
    check(bash("git -C /etc/foo log"), "ask");
}

// ---------------------------------------------------------------------------
// Flags and options
// ---------------------------------------------------------------------------

#[test]
fn bash_flag_allow() {
    check(bash("make -j"), "allow");
}

#[test]
fn bash_flag_deny() {
    check(bash("rm -r"), "deny");
}

#[test]
fn bash_flag_alias() {
    check(bash("make -n"), "allow");
}

#[test]
fn bash_flag_wildcard() {
    check(bash("make --unknown-flag"), "allow");
}

#[test]
fn bash_flag_not_listed_no_wildcard() {
    // A flags dict without "*": an unlisted flag asks, over the node's allow.
    check(bash("file --unknown-flag /tmp/foo"), "ask");
}

#[test]
fn bash_flag_deny_wins() {
    check(bash("rm -r /tmp/file.txt"), "deny");
}

#[test]
fn bash_option_value_allow() {
    check(bash("curl --request GET"), "allow");
}

#[test]
fn bash_option_value_deny() {
    check(bash("curl --request DELETE"), "deny");
}

#[test]
fn bash_option_value_wildcard() {
    check(bash("curl --request POST"), "ask");
}

#[test]
fn bash_option_alias() {
    check(bash("curl -X GET"), "allow");
}

#[test]
fn bash_option_no_values_dict() {
    check(bash("git commit -m 'initial commit'"), "allow");
}

#[test]
fn bash_option_not_reported_as_unknown_flag() {
    // --expression is an option of sed, not one of its flags.
    check(bash("sed --expression 's/foo/bar/' /tmp/input.txt"), "allow");
}

#[test]
fn bash_option_alias_not_reported_as_unknown_flag() {
    check(bash("sed -e 's/foo/bar/' /tmp/input.txt"), "allow");
}

// ---------------------------------------------------------------------------
// Positional arguments
// ---------------------------------------------------------------------------

#[test]
fn bash_positional_count_1_allow() {
    check(bash("cd /tmp/foo"), "allow");
}

#[test]
fn bash_positional_count_2_ask() {
    check(bash("cd /tmp/a /tmp/b"), "ask");
}

#[test]
fn bash_positional_wildcard_count() {
    check(bash("awk a b c"), "allow");
}

#[test]
fn bash_positional_single_conditional_readable() {
    check(bash("cd /tmp/foo"), "allow");
}

#[test]
fn bash_positional_single_conditional_denied() {
    check(bash("cd /tmp/app.secret"), "deny");
}

#[test]
fn bash_transfer_writable_paths() {
    check(bash("cp /tmp/src.txt /tmp/dst.txt"), "allow");
}

#[test]
fn bash_transfer_non_writable_dest() {
    check(bash("cp /tmp/src.txt /etc/dst.txt"), "ask");
}

#[test]
fn bash_transfer_denied_path() {
    check(bash("cp /tmp/app.secret /tmp/dst.txt"), "deny");
}

#[test]
fn bash_option_value_conditional_writable() {
    check(bash("curl --output /tmp/out.txt"), "allow");
}

#[test]
fn bash_option_value_conditional_not_writable() {
    check(bash("curl --output /etc/out.txt"), "deny");
}

// ---------------------------------------------------------------------------
// Wrappers, expansions, pipes
// ---------------------------------------------------------------------------

#[test]
fn bash_wrapper_strips_to_inner() {
    check(bash("timeout --foreground 5 ls"), "allow");
}

#[test]
fn bash_force_wrapper_alias() {
    check(bash("command -V dd"), "allow");
}

#[test]
fn bash_force_wrapper_after_other_flag() {
    // A forced wrapper flag allows the command wherever it stands among the
    // wrapper's flags.
    check(bash("command -p -v dd"), "allow");
    check(bash("command -p dd"), "deny");
}

#[test]
fn long_glob_patterns_still_compile() {
    let mut fa = rules().file_access;
    fa.read.glob_patterns.push(format!("/tmp/{}/**", "a".repeat(5000)));
    assert!(CompiledFileAccess::compile(&fa, "/tmp", Some("/workspace")).is_ok());
    fa.read.glob_patterns.push("[".to_string());
    assert!(CompiledFileAccess::compile(&fa, "/tmp", None).is_err());
}

#[test]
fn bash_commands_always_get_an_answer() {
    let rules = rules();
    let fa = CompiledFileAccess::compile(&rules.file_access, "", None).unwrap();
    for command in ["(((", "echo 'unterminated", "if then fi", "ls )"] {
        let input = BashInput { command: command.to_string(), description: None, timeout: None, run_in_background: None };
        assert!(pretool_hook::hook::handle_bash(&input, &rules, &fa, "", &[]).is_ok(), "{command}");
    }
}

#[test]
fn bash_chained_wrappers() {
    check(bash("timeout 5 timeout 10 ls"), "allow");
}

#[test]
fn bash_expansion_uncovered() {
    check(bash("ls $MY_VAR"), "ask");
}

#[test]
fn bash_expansion_node_allows() {
    check(bash("env $MY_VAR"), "allow");
}

#[test]
fn bash_expansion_option_allows() {
    check(bash("git commit -m $MSG"), "allow");
}

#[test]
fn bash_pipe_both_allowed() {
    check(bash("ls foo | cat"), "allow");
}

#[test]
fn bash_pipe_one_denied() {
    check(bash("ls foo | dd"), "deny");
}

#[test]
fn bash_chain_and() {
    check(bash("ls foo && cat bar"), "allow");
}

#[test]
fn bash_chain_semicolon_deny() {
    check(bash("ls foo; dd"), "deny");
}

#[test]
fn bash_pipe_deny_reason_omits_approved() {
    let (decision, reason) = run(bash("ls foo | dd"));
    assert_eq!(decision, "deny");
    assert!(!reason.contains("is approved"), "deny reason should not contain 'is approved' fragments: {reason}");
    assert!(reason.contains("is denied"), "deny reason should mention the denied command: {reason}");
}

#[test]
fn bash_pipe_ask_reason_omits_approved() {
    let (decision, reason) = run(bash("cat foo | totally-unknown-cmd"));
    assert_eq!(decision, "ask");
    assert!(!reason.contains("is approved"), "ask reason should not contain 'is approved' fragments: {reason}");
}

#[test]
fn bash_allow_reason_keeps_approved() {
    let (decision, reason) = run(bash("ls foo | cat"));
    assert_eq!(decision, "allow");
    assert!(reason.contains("is approved"), "allow reason should keep 'is approved' fragments: {reason}");
}

#[test]
fn bash_redirect_writable() {
    check(bash("ls foo > /tmp/out.txt"), "allow");
}

#[test]
fn bash_redirect_not_writable() {
    check(bash("ls foo > /etc/out.txt"), "ask");
}

#[test]
fn bash_redirect_denied_pattern() {
    check(bash("ls foo > /tmp/app.secret"), "deny");
}

#[test]
fn bash_command_substitution_inner_deny() {
    check(bash("curl --request $(dd)"), "deny");
}

// ---------------------------------------------------------------------------
// File tools
// ---------------------------------------------------------------------------

#[test]
fn read_allowed_path() {
    check(read("/home/user/readme.md"), "allow");
}

#[test]
fn read_denied_path() {
    check(read("/home/user/.secret"), "deny");
}

#[test]
fn read_denied_key_file() {
    check(read("/etc/api.key"), "deny");
}

#[test]
fn read_empty_path() {
    check(read(""), "allow");
}

#[test]
fn write_allowed_prefix() {
    check(write("/tmp/output.txt"), "allow");
}

#[test]
fn write_workspace_prefix() {
    check(write("/workspace/src/main.rs"), "allow");
}

#[test]
fn write_outside_prefix() {
    check(write("/etc/config.txt"), "ask");
}

#[test]
fn write_denied_pattern() {
    check(write("/tmp/app.secret"), "deny");
}

#[test]
fn edit_allowed() {
    let edit = ToolInput::Edit(EditInput {
        file_path: "/tmp/file.rs".to_string(),
        old_string: String::new(),
        new_string: String::new(),
        replace_all: false,
    });
    check(edit, "allow");
}

#[test]
fn notebook_edit_allowed() {
    check(ToolInput::NotebookEdit(NotebookEditInput { file_path: "/workspace/nb.ipynb".to_string() }), "allow");
}

#[test]
fn write_empty_path() {
    check(write(""), "ask");
}

#[test]
fn auto_allow_passthrough_tool() {
    check(unknown("LSP"), "allow");
}

#[test]
fn glob_no_path_uses_cwd() {
    check(glob(None), "allow");
}

#[test]
fn glob_readable_path() {
    check(glob(Some("/tmp/project")), "allow");
}

#[test]
fn glob_denied_path() {
    check(glob(Some("/tmp/app.secret")), "deny");
}

#[test]
fn grep_no_path_uses_cwd() {
    check(grep("TODO", None), "allow");
}

#[test]
fn grep_readable_path() {
    check(grep("TODO", Some("/tmp/project")), "allow");
}

#[test]
fn grep_denied_path() {
    check(grep("password", Some("/tmp/app.secret")), "deny");
}

#[test]
fn auto_allow_web_fetch() {
    let fetch = ToolInput::WebFetch(WebFetchInput { url: "https://example.com".to_string(), prompt: "summarize".to_string() });
    check(fetch, "allow");
}

#[test]
fn auto_allow_agent() {
    let agent = ToolInput::Agent(AgentToolInput {
        prompt: "explore the codebase".to_string(),
        description: None,
        subagent_type: None,
        model: None,
    });
    check(agent, "allow");
}

#[test]
fn auto_allow_ask_user() {
    let ask = ToolInput::AskUserQuestion(AskUserQuestionInput {
        questions: vec![Question {
            question: "Proceed?".to_string(),
            header: "Confirm".to_string(),
            options: vec![QuestionOption { label: "Yes".to_string() }],
            multi_select: false,
        }],
        answers: None,
    });
    check(ask, "allow");
}

#[test]
fn unknown_tool_ask() {
    check(unknown("SomeBrandNewTool"), "ask");
}

// ---------------------------------------------------------------------------
// find, sort, shfmt
// ---------------------------------------------------------------------------

#[test]
fn bash_find_delete_denied() {
    check(bash("find /tmp -delete"), "deny");
}

#[test]
fn bash_find_exec_denied() {
    check(bash("find /tmp -exec rm {} \\;"), "deny");
}

#[test]
fn bash_find_execdir_denied() {
    check(bash("find /tmp -execdir cat {} \\;"), "deny");
}

#[test]
fn bash_find_normal_flags_allowed() {
    check(bash("find /tmp -name '*.txt' -type f"), "allow");
}

#[test]
fn bash_find_fprint_writable() {
    check(bash("find /tmp -fprint /tmp/out.txt"), "allow");
}

#[test]
fn bash_find_fprint_not_writable() {
    check(bash("find /tmp -fprint /etc/out.txt"), "ask");
}

#[test]
fn bash_sort_no_output_allowed() {
    check(bash("sort /tmp/file.txt"), "allow");
}

#[test]
fn bash_sort_output_writable() {
    check(bash("sort -o /tmp/out.txt /tmp/in.txt"), "allow");
}

#[test]
fn bash_sort_output_not_writable() {
    check(bash("sort -o /etc/out.txt /tmp/in.txt"), "ask");
}

#[test]
fn bash_shfmt_read_only_allowed() {
    check(bash("shfmt /tmp/script.sh"), "allow");
}

#[test]
fn bash_shfmt_read_only_secret() {
    check(bash("shfmt /tmp/app.secret"), "deny");
}

#[test]
fn bash_shfmt_write_writable() {
    check(bash("shfmt -w /tmp/script.sh"), "allow");
}

#[test]
fn bash_shfmt_write_not_writable() {
    check(bash("shfmt -w /etc/script.sh"), "ask");
}

// ---------------------------------------------------------------------------
// awk and sed: script screening, script files
// ---------------------------------------------------------------------------

#[test]
fn bash_awk_no_file_allowed() {
    check(bash("awk '{print $1}' /tmp/data.txt"), "allow");
}

#[test]
fn bash_awk_f_blocked_path_denies() {
    // The read globs refuse the script file before any read.
    check(bash("awk -f /tmp/app.secret /tmp/data.txt"), "deny");
}

#[test]
fn bash_awk_f_missing_file_denies() {
    check(bash("awk -f /tmp/cph-it-nonexistent-xyz.awk /tmp/data.txt"), "deny");
}

#[test]
fn bash_sed_e_safe_substitution_allow() {
    check(bash("sed -e 's/foo/bar/' /tmp/input.txt"), "allow");
}

#[test]
fn bash_sed_e_exec_command_asks() {
    check(bash("sed -e 'e cat /etc/passwd' /tmp/input.txt"), "ask");
}

#[test]
fn bash_sed_e_substitution_e_flag_asks() {
    check(bash("sed -e 's/foo/bar/e' /tmp/input.txt"), "ask");
}

#[test]
fn bash_sed_e_write_command_asks() {
    check(bash("sed -e '1w /etc/passwd' /tmp/input.txt"), "ask");
}

#[test]
fn bash_sed_positional_safe_script_allow() {
    check(bash("sed 's/foo/bar/' /tmp/input.txt"), "allow");
}

#[test]
fn bash_sed_positional_exec_command_asks() {
    check(bash("sed '1e cat /etc/passwd' /tmp/input.txt"), "ask");
}

#[test]
fn bash_sed_e_with_unreadable_file_path_denies() {
    // The option replaces the script positional, but its own overlay still
    // requires the file to be readable.
    check(bash("sed -e 's/foo/bar/' /tmp/app.secret"), "deny");
}

#[test]
fn bash_sed_e_with_file_path_matching_danger_regex_allow() {
    // With -e carrying the script, the lone positional is a file and is not
    // screened as a script.
    check(bash("sed -e 's/foo/bar/' /tmp/tmp.x1/things/foo/bar/home.txt"), "allow");
}

#[test]
fn bash_sed_positional_file_path_not_screened_as_script() {
    // `/things/foo/bar/home` would match the s///e pattern; only the first
    // positional is the script.
    check(bash("sed -n 44,72p /tmp/tmp.x1/things/foo/bar/home.txt"), "allow");
}

#[test]
fn bash_sed_f_safe_script_file_allow() {
    let disk = [("/tmp/script.sed", "s/foo/bar/"), ("/tmp/input.txt", "")];
    check_with_files("sed -f /tmp/script.sed /tmp/input.txt", &disk, "allow");
}

#[test]
fn bash_sed_f_evil_script_file_asks() {
    let disk = [("/tmp/script.sed", "1e rm -rf /\ns/a/b/"), ("/tmp/input.txt", "")];
    check_with_files("sed -f /tmp/script.sed /tmp/input.txt", &disk, "ask");
}

#[test]
fn bash_awk_f_safe_script_file_allow() {
    let disk = [("/tmp/prog.awk", "{print $1}")];
    check_with_files("awk -f /tmp/prog.awk /tmp/data.txt", &disk, "allow");
}

#[test]
fn bash_awk_f_system_call_asks() {
    let disk = [("/tmp/prog.awk", "BEGIN{system(\"id\")}")];
    check_with_files("awk -f /tmp/prog.awk /tmp/data.txt", &disk, "ask");
}

#[test]
fn bash_awk_f_print_redirect_asks() {
    let disk = [("/tmp/prog.awk", "{print $1 > \"/tmp/out\"}")];
    check_with_files("awk -f /tmp/prog.awk /tmp/data.txt", &disk, "ask");
}

#[test]
fn bash_awk_positional_safe_script_allow() {
    check(bash("awk '{print $1}' /tmp/data.txt"), "allow");
}

#[test]
fn bash_awk_positional_system_call_asks() {
    check(bash("awk 'BEGIN{system(\"rm -rf /\")}' /tmp/data.txt"), "ask");
}

#[test]
fn bash_awk_positional_print_redirect_asks() {
    check(bash("awk '{print > \"/tmp/x\"}' /tmp/data.txt"), "ask");
}

// ---------------------------------------------------------------------------
// jq, cp/mv -t, git
// ---------------------------------------------------------------------------

#[test]
fn bash_jq_no_file_allowed() {
    check(bash("jq '.foo' /tmp/data.json"), "allow");
}

#[test]
fn bash_jq_from_file_readable() {
    check(bash("jq -f /tmp/filter.jq /tmp/data.json"), "allow");
}

#[test]
fn bash_jq_from_file_not_readable() {
    check(bash("jq -f /tmp/app.secret"), "deny");
}

#[test]
fn bash_cp_target_dir_writable() {
    // The remaining positional falls to "*" = "ask".
    check(bash("cp -t /tmp/dest src.txt"), "ask");
}

#[test]
fn bash_cp_target_dir_not_writable() {
    check(bash("cp -t /etc/dest src.txt"), "ask");
}

#[test]
fn bash_cp_target_dir_no_extra_positionals() {
    check(bash("cp -t /tmp/dest"), "allow");
}

#[test]
fn bash_mv_target_dir_writable() {
    check(bash("mv -t /tmp/dest src.txt"), "ask");
}

#[test]
fn bash_mv_target_dir_not_writable() {
    check(bash("mv -t /etc/dest src.txt"), "ask");
}

#[test]
fn bash_mv_target_dir_no_extra_positionals() {
    check(bash("mv -t /tmp/dest"), "allow");
}

#[test]
fn bash_git_config_get_allowed() {
    check(bash("git config get user.name"), "allow");
}

#[test]
fn bash_git_config_list_allowed() {
    check(bash("git config list"), "allow");
}

#[test]
fn bash_git_config_bare_asks() {
    check(bash("git config user.name foo"), "ask");
}

#[test]
fn bash_git_dash_c_asks() {
    check(bash("git -c core.editor=vim status"), "ask");
}

#[test]
fn bash_git_show_output_writable() {
    check(bash("git show --output /tmp/out.patch"), "allow");
}

#[test]
fn bash_git_show_output_not_writable() {
    check(bash("git show --output /etc/out.patch"), "ask");
}

#[test]
fn bash_git_diff_output_writable() {
    check(bash("git diff --output /tmp/out.patch"), "allow");
}

#[test]
fn bash_git_log_output_writable() {
    check(bash("git log --output /tmp/out.log"), "allow");
}

#[test]
fn bash_git_show_output_eq_writable() {
    check(bash("git show --output=/tmp/out.patch"), "allow");
}

#[test]
fn bash_git_show_output_eq_not_writable() {
    check(bash("git show --output=/etc/out.patch"), "ask");
}

#[test]
fn bash_git_diff_output_eq_writable() {
    check(bash("git diff --output=/tmp/diff.patch"), "allow");
}

#[test]
fn bash_curl_output_eq_writable() {
    check(bash("curl --request GET --output=/tmp/out.json http://example.com"), "allow");
}

#[test]
fn bash_curl_output_eq_not_writable() {
    check(bash("curl --request GET --output=/etc/out.json http://example.com"), "deny");
}

#[test]
fn bash_sort_output_eq_writable() {
    check(bash("sort --output=/tmp/sorted.txt input.txt"), "allow");
}

#[test]
fn bash_git_pre_subcmd_option_eq() {
    // -c is a known option, found as it stands, not split at '='.
    check(bash("git -c core.editor=vim status"), "ask");
}

// ---------------------------------------------------------------------------
// dotnet, cargo, nix, rm
// ---------------------------------------------------------------------------

#[test]
fn bash_dotnet_build_allowed() {
    check(bash("dotnet build"), "allow");
}

#[test]
fn bash_dotnet_build_output_writable() {
    check(bash("dotnet build -o /tmp/out"), "allow");
}

#[test]
fn bash_dotnet_build_output_not_writable() {
    check(bash("dotnet build -o /etc/out"), "ask");
}

#[test]
fn bash_dotnet_build_artifacts_path_writable() {
    check(bash("dotnet build --artifacts-path /tmp/artifacts"), "allow");
}

#[test]
fn bash_dotnet_test_results_dir_writable() {
    check(bash("dotnet test --results-directory /tmp/results"), "allow");
}

#[test]
fn bash_dotnet_test_results_dir_not_writable() {
    check(bash("dotnet test --results-directory /etc/results"), "ask");
}

#[test]
fn bash_dotnet_restore_packages_writable() {
    check(bash("dotnet restore --packages /tmp/pkgs"), "allow");
}

#[test]
fn bash_cargo_build_allowed() {
    check(bash("cargo build"), "allow");
}

#[test]
fn bash_cargo_build_target_dir_writable() {
    check(bash("cargo build --target-dir /tmp/target"), "allow");
}

#[test]
fn bash_cargo_build_target_dir_not_writable() {
    check(bash("cargo build --target-dir /etc/target"), "ask");
}

#[test]
fn bash_cargo_fmt_no_target_dir() {
    check(bash("cargo fmt"), "allow");
}

#[test]
fn bash_nix_eval_allowed() {
    check(bash("nix eval .#foo"), "allow");
}

#[test]
fn bash_nix_eval_write_to_writable() {
    check(bash("nix eval --write-to /tmp/out .#foo"), "allow");
}

#[test]
fn bash_nix_eval_write_to_not_writable() {
    check(bash("nix eval --write-to /etc/out .#foo"), "ask");
}

#[test]
fn bash_rm_fr_denied() {
    check(bash("rm -fr /tmp/file.txt"), "deny");
}

// ---------------------------------------------------------------------------
// Events that cannot be read
// ---------------------------------------------------------------------------

/// The answer to an event that could not be read: the permission mode is
/// unknown then, so nothing is deferred.
fn unreadable_event(reason: &str, defer_ask_in_auto_mode: bool) -> String {
    match respond(create_response(Decision::Ask, reason), Mode::Claude, None, defer_ask_in_auto_mode) {
        HookResponse::Answer(out) => out.hook_specific_output.permission_decision.clone(),
        HookResponse::Abstain => String::new(),
    }
}

#[test]
fn malformed_json_ask() {
    let text = "not json at all";
    assert!(serde_json::from_str::<serde_json::Value>(text).is_err());
    assert_eq!(unreadable_event("could not parse hook input", false), "ask");
}

#[test]
fn missing_tool_name_ask() {
    let value: serde_json::Value = serde_json::from_str(r#"{"tool_input": {}}"#).unwrap();
    assert!(value.get("tool_name").is_none());
    assert_eq!(unreadable_event("could not parse hook input: missing field `tool_name`", false), "ask");
}

#[test]
fn unparseable_input_asks_even_in_auto_mode() {
    assert!(serde_json::from_str::<serde_json::Value>("{ not json").is_err());
    assert_eq!(unreadable_event("could not parse hook input", true), "ask");
}

// ---------------------------------------------------------------------------
// Flag positional overlays and the cwd check
// ---------------------------------------------------------------------------

#[test]
fn bash_flag_positional_no_flag_readable() {
    check(bash("patch /tmp/file.txt"), "allow");
}

#[test]
fn bash_flag_positional_no_flag_unreadable() {
    check(bash("patch /tmp/app.secret"), "deny");
}

#[test]
fn bash_flag_positional_with_flag_writable() {
    check(bash("patch -i /tmp/file.txt"), "allow");
}

#[test]
fn bash_flag_positional_with_flag_not_writable() {
    check(bash("patch -i /etc/file.txt"), "ask");
}

#[test]
fn bash_flag_positional_alias() {
    check(bash("patch -i /tmp/file.txt"), "allow");
}

#[test]
fn bash_flag_positional_alias_not_writable() {
    check(bash("patch -i /etc/file.txt"), "ask");
}

#[test]
fn bash_flag_positional_wildcard_checks_all_files() {
    check(bash("patch -i /tmp/a.txt /tmp/b.txt"), "allow");
}

#[test]
fn bash_flag_positional_wildcard_one_not_writable() {
    check(bash("patch -i /tmp/a.txt /etc/b.txt"), "ask");
}

#[test]
fn bash_cwd_check_writable_cwd() {
    assert_eq!(run_on(bash("unzip /tmp/archive.zip"), "/tmp/project", &[]).0, "allow");
}

#[test]
fn bash_cwd_check_non_writable_cwd() {
    assert_eq!(run_on(bash("unzip /tmp/archive.zip"), "/etc/somewhere", &[]).0, "ask");
}

#[test]
fn bash_cwd_check_read_only_flag() {
    assert_eq!(run_on(bash("unzip -l /tmp/archive.zip"), "/tmp/project", &[]).0, "allow");
}

// ---------------------------------------------------------------------------
// fd, file, info, man, mktemp
// ---------------------------------------------------------------------------

#[test]
fn bash_fd_basic_allowed() {
    check(bash("fd pattern"), "allow");
}

#[test]
fn bash_fd_unknown_flag_allowed() {
    check(bash("fd --hidden pattern"), "allow");
}

#[test]
fn bash_fd_exec_short_asks() {
    check(bash("fd pattern -x echo {}"), "ask");
}

#[test]
fn bash_fd_exec_long_asks() {
    check(bash("fd pattern --exec echo {}"), "ask");
}

#[test]
fn bash_fd_exec_batch_short_asks() {
    check(bash("fd pattern -X echo"), "ask");
}

#[test]
fn bash_fd_exec_batch_long_asks() {
    check(bash("fd pattern --exec-batch echo"), "ask");
}

#[test]
fn bash_file_basic_allowed() {
    check(bash("file /tmp/data"), "allow");
}

#[test]
fn bash_file_compile_short_asks() {
    check(bash("file -C"), "ask");
}

#[test]
fn bash_file_compile_long_asks() {
    check(bash("file --compile"), "ask");
}

#[test]
fn bash_info_basic_allowed() {
    check(bash("info ls"), "allow");
}

#[test]
fn bash_info_output_writable() {
    check(bash("info -o /tmp/out.txt ls"), "allow");
}

#[test]
fn bash_info_output_not_writable() {
    check(bash("info -o /etc/out.txt ls"), "ask");
}

#[test]
fn bash_info_output_long_writable() {
    check(bash("info --output /tmp/out.txt ls"), "allow");
}

#[test]
fn bash_info_output_eq_not_writable() {
    check(bash("info --output=/etc/out.txt ls"), "ask");
}

#[test]
fn bash_man_basic_allowed() {
    check(bash("man ls"), "allow");
}

#[test]
fn bash_man_pager_less_allowed() {
    check(bash("man -P less ls"), "allow");
}

#[test]
fn bash_man_pager_cat_allowed() {
    check(bash("man -P cat ls"), "allow");
}

#[test]
fn bash_man_pager_more_allowed() {
    check(bash("man -P more ls"), "allow");
}

#[test]
fn bash_man_pager_bat_allowed() {
    check(bash("man -P bat ls"), "allow");
}

#[test]
fn bash_man_pager_unknown_asks() {
    check(bash("man -P vim ls"), "ask");
}

#[test]
fn bash_man_pager_long_alias_allowed() {
    check(bash("man --pager less ls"), "allow");
}

#[test]
fn bash_man_pager_eq_unknown_asks() {
    check(bash("man --pager=sh ls"), "ask");
}

#[test]
fn bash_mktemp_no_args_allowed() {
    check(bash("mktemp"), "allow");
}

#[test]
fn bash_mktemp_template_writable() {
    check(bash("mktemp /tmp/foo.XXXXXX"), "allow");
}

#[test]
fn bash_mktemp_template_not_writable() {
    check(bash("mktemp /etc/foo.XXXXXX"), "ask");
}

#[test]
fn bash_mktemp_tmpdir_short_writable() {
    check(bash("mktemp -p /tmp/sub"), "allow");
}

#[test]
fn bash_mktemp_tmpdir_short_not_writable() {
    check(bash("mktemp -p /etc/sub"), "ask");
}

#[test]
fn bash_mktemp_tmpdir_long_eq_writable() {
    check(bash("mktemp --tmpdir=/tmp/sub"), "allow");
}

// ---------------------------------------------------------------------------
// Content checks: what reaches the reader
// ---------------------------------------------------------------------------

#[test]
fn content_check_reads_only_the_script_file() {
    let rules = rules();
    let input = HookInput {
        common: CommonInput::default(),
        agent: None,
        tool: bash("sed -f /tmp/script.sed /tmp/input.txt"),
    };
    let paths = content_check_paths(&input, &rules).ok().expect("command parses");
    assert_eq!(paths, vec!["/tmp/script.sed".to_string()]);
}

#[test]
fn oversized_script_file_is_unreadable() {
    let big = "p\n".repeat(FILE_CHECK_MAX_BYTES);
    let disk = [("/tmp/script.sed", big.as_str())];
    check_with_files("sed -f /tmp/script.sed /tmp/input.txt", &disk, "deny");
}
