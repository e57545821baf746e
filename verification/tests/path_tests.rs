use pretool_hook::decision::{Condition, ConditionalBranch, ConditionalDecisionNode, Decision, DecisionNode};
use pretool_hook::path::{
    check_target, is_readable, is_writable, normalize_path, read_outcome, resolve_conditional, CompiledFileAccess,
    CompiledPatterns, FileCheckRead, PathError, ReadAttempt, FILE_CHECK_MAX_BYTES,
};
use pretool_hook::rules::{AccessRules, FileAccess, WriteRules};

/// All tests use absolute paths so cwd choice doesn't affect results.
fn cwd() -> &'static str {
    "/test/cwd"
}

fn file_access(read: &[&str], write: &[&str], require_readable: bool) -> FileAccess {
    FileAccess {
        read: AccessRules { glob_patterns: read.iter().map(|s| s.to_string()).collect() },
        write: WriteRules { glob_patterns: write.iter().map(|s| s.to_string()).collect(), require_readable },
    }
}

fn test_file_access() -> CompiledFileAccess {
    CompiledFileAccess::compile(
        &file_access(&["**", "!**/*.secret*", "!**/*.key*"], &["/tmp/**", "/workspace/**"], true),
        cwd(),
        None,
    )
    .unwrap()
}

// --- normalize_path ---

#[test]
fn normalize_absolute_unchanged() {
    assert_eq!(normalize_path("/usr/bin/foo", cwd()).unwrap(), "/usr/bin/foo");
}

#[test]
fn normalize_dotdot() {
    assert_eq!(normalize_path("/usr/bin/../lib", cwd()).unwrap(), "/usr/lib");
}

#[test]
fn normalize_dot() {
    assert_eq!(normalize_path("/usr/./bin", cwd()).unwrap(), "/usr/bin");
}

#[test]
fn normalize_dotdot_at_root() {
    assert_eq!(normalize_path("/../foo", cwd()).unwrap(), "/foo");
}

#[test]
fn normalize_trailing_slash_dotdot() {
    assert_eq!(normalize_path("/a/b/c/../../d", cwd()).unwrap(), "/a/d");
}

#[test]
fn normalize_relative_uses_cwd() {
    let cwd = "/home/user/project";
    assert_eq!(normalize_path("src/main.rs", cwd).unwrap(), "/home/user/project/src/main.rs");
}

#[test]
fn normalize_relative_with_trailing_slash_cwd() {
    assert_eq!(normalize_path("a/../b", "/home/user/").unwrap(), "/home/user/b");
}

#[test]
fn normalize_absolute_ignores_cwd() {
    assert_eq!(
        normalize_path("/etc/./hosts", "/one").unwrap(),
        normalize_path("/etc/./hosts", "/two/three").unwrap()
    );
}

// --- is_readable ---

#[test]
fn readable_normal_path() {
    let fa = test_file_access();
    assert!(is_readable("/home/user/readme.md", &fa, cwd()).unwrap());
}

#[test]
fn readable_denied_secret() {
    let fa = test_file_access();
    assert!(!is_readable("/home/user/.secret", &fa, cwd()).unwrap());
}

#[test]
fn readable_denied_key() {
    let fa = test_file_access();
    assert!(!is_readable("/etc/api.key", &fa, cwd()).unwrap());
}

#[test]
fn readable_denied_substring() {
    let fa = test_file_access();
    assert!(!is_readable("/etc/api.key.bak", &fa, cwd()).unwrap());
}

#[test]
fn readable_relative_path_uses_cwd() {
    let fa = CompiledFileAccess::compile(&file_access(&["/test/cwd/**"], &[], false), cwd(), None).unwrap();
    assert!(is_readable("notes.txt", &fa, cwd()).unwrap());
    assert!(!is_readable("../escape.txt", &fa, cwd()).unwrap());
}

// --- is_writable ---

#[test]
fn writable_within_prefix() {
    let fa = test_file_access();
    assert!(is_writable("/tmp/output.txt", &fa, cwd()).unwrap());
}

#[test]
fn writable_within_workspace() {
    let fa = test_file_access();
    assert!(is_writable("/workspace/src/main.rs", &fa, cwd()).unwrap());
}

#[test]
fn writable_outside_prefix() {
    let fa = test_file_access();
    assert!(!is_writable("/etc/passwd", &fa, cwd()).unwrap());
}

#[test]
fn writable_denied_even_in_prefix() {
    let fa = test_file_access();
    assert!(!is_writable("/tmp/.secret", &fa, cwd()).unwrap());
}

#[test]
fn writable_require_readable_blocks_unreadable() {
    let fa = CompiledFileAccess::compile(&file_access(&["**", "!**/blocked"], &["/tmp/**"], true), cwd(), None)
        .unwrap();
    assert!(is_writable("/tmp/ok", &fa, cwd()).unwrap());
    assert!(!is_writable("/tmp/blocked", &fa, cwd()).unwrap());
}

#[test]
fn writable_without_require_readable_allows_unreadable() {
    let fa = CompiledFileAccess::compile(&file_access(&["**", "!**/blocked"], &["/tmp/**"], false), cwd(), None)
        .unwrap();
    assert!(is_writable("/tmp/blocked", &fa, cwd()).unwrap());
}

#[test]
fn writable_project_dir() {
    let fa = CompiledFileAccess::compile(&file_access(&["**"], &["/tmp/**"], true), cwd(), Some("/my/project"))
        .unwrap();
    assert!(is_writable("/my/project/src/lib.rs", &fa, cwd()).unwrap());
    assert!(!is_writable("/other/path", &fa, cwd()).unwrap());
}

#[test]
fn readable_project_dir_added() {
    // With no user read patterns, the project dir alone makes files
    // inside it readable.
    let fa = CompiledFileAccess::compile(&file_access(&[], &[], false), cwd(), Some("/my/project")).unwrap();
    assert!(is_readable("/my/project/src/lib.rs", &fa, cwd()).unwrap());
    assert!(!is_readable("/other/path", &fa, cwd()).unwrap());
}

#[test]
fn relative_project_dir_is_normalized_against_cwd() {
    let fa = CompiledFileAccess::compile(&file_access(&[], &[], false), cwd(), Some("sub/../proj")).unwrap();
    assert!(is_readable("/test/cwd/proj/file.rs", &fa, cwd()).unwrap());
    assert!(!is_readable("/test/cwd/sub/file.rs", &fa, cwd()).unwrap());
}

#[test]
fn user_read_negation_overrides_project_dir() {
    // Project dir is prepended; the user's negation comes later in the
    // list and wins under last-match-wins semantics.
    let fa = CompiledFileAccess::compile(&file_access(&["!**/*.secret*"], &[], false), cwd(), Some("/my/project"))
        .unwrap();
    assert!(!is_readable("/my/project/api.secret", &fa, cwd()).unwrap());
    assert!(is_readable("/my/project/src/lib.rs", &fa, cwd()).unwrap());
}

#[test]
fn user_write_negation_overrides_project_dir() {
    let fa = CompiledFileAccess::compile(&file_access(&["**"], &["!**/dist/**"], false), cwd(), Some("/my/project"))
        .unwrap();
    assert!(!is_writable("/my/project/dist/bundle.js", &fa, cwd()).unwrap());
    assert!(is_writable("/my/project/src/lib.rs", &fa, cwd()).unwrap());
}

#[test]
fn user_negation_then_re_allow_overrides_project_dir() {
    let fa = CompiledFileAccess::compile(
        &file_access(&["!**/*.tmp*", "**/keep.tmp"], &[], false),
        cwd(),
        Some("/my/project"),
    )
    .unwrap();
    assert!(is_readable("/my/project/keep.tmp", &fa, cwd()).unwrap());
    assert!(!is_readable("/my/project/scratch.tmp", &fa, cwd()).unwrap());
}

#[test]
fn invalid_glob_is_reported() {
    let result = CompiledFileAccess::compile(&file_access(&["**", "a[b"], &[], false), cwd(), None);
    match result {
        Err(PathError::InvalidGlob { pattern, .. }) => assert_eq!(pattern, "a[b"),
        _ => panic!("expected an invalid glob error"),
    }
}

#[test]
fn invalid_negated_glob_is_reported_without_its_bang() {
    let result = CompiledPatterns::compile(&["**".to_string(), "!a[b".to_string()]);
    match result {
        Err(PathError::InvalidGlob { pattern, .. }) => assert_eq!(pattern, "a[b"),
        _ => panic!("expected an invalid glob error"),
    }
}

// --- CompiledPatterns ---

#[test]
fn patterns_last_match_wins() {
    let patterns: Vec<String> = vec!["**".into(), "!**/*.txt".into(), "**/important.txt".into()];
    let compiled = CompiledPatterns::compile(&patterns).unwrap();
    assert!(compiled.matches("/foo/important.txt", cwd()).unwrap());
    assert!(!compiled.matches("/foo/other.txt", cwd()).unwrap());
    assert!(compiled.matches("/foo/readme.md", cwd()).unwrap());
}

#[test]
fn patterns_no_match_is_false() {
    let patterns: Vec<String> = vec!["/tmp/**".into()];
    let compiled = CompiledPatterns::compile(&patterns).unwrap();
    assert!(!compiled.matches("/etc/foo", cwd()).unwrap());
}

#[test]
fn patterns_empty_list_matches_nothing() {
    let compiled = CompiledPatterns::compile(&[]).unwrap();
    assert!(!compiled.matches("/anything", cwd()).unwrap());
}

// --- resolve_conditional ---

fn readable_node(then: Decision, else_: Decision) -> DecisionNode {
    DecisionNode::Conditional(Box::new(ConditionalDecisionNode {
        condition: Condition::Readable,
        then_decision: ConditionalBranch::Static(then),
        else_decision: ConditionalBranch::Static(else_),
    }))
}

fn writable_node(then: Decision, else_: Decision) -> DecisionNode {
    DecisionNode::Conditional(Box::new(ConditionalDecisionNode {
        condition: Condition::Writable,
        then_decision: ConditionalBranch::Static(then),
        else_decision: ConditionalBranch::Static(else_),
    }))
}

#[test]
fn resolve_plain_decision() {
    let fa = test_file_access();
    let d = DecisionNode::Static(Decision::Allow);
    assert_eq!(resolve_conditional(&d, "/any/path", &fa, cwd()).unwrap(), Decision::Allow);
}

#[test]
fn resolve_readable_passes_for_clean_path() {
    let fa = test_file_access();
    let d = readable_node(Decision::Allow, Decision::Deny);
    assert_eq!(resolve_conditional(&d, "/home/user/readme.md", &fa, cwd()).unwrap(), Decision::Allow);
}

#[test]
fn resolve_readable_fails_for_denied_path() {
    let fa = test_file_access();
    let d = readable_node(Decision::Allow, Decision::Deny);
    assert_eq!(resolve_conditional(&d, "/home/user/.secret", &fa, cwd()).unwrap(), Decision::Deny);
}

#[test]
fn resolve_writable_passes_for_allowed_prefix() {
    let fa = test_file_access();
    let d = writable_node(Decision::Allow, Decision::Ask);
    assert_eq!(resolve_conditional(&d, "/tmp/out.txt", &fa, cwd()).unwrap(), Decision::Allow);
}

#[test]
fn resolve_writable_fails_for_denied_basename() {
    let fa = test_file_access();
    let d = writable_node(Decision::Allow, Decision::Deny);
    assert_eq!(resolve_conditional(&d, "/tmp/.secret", &fa, cwd()).unwrap(), Decision::Deny);
}

#[test]
fn resolve_writable_fails_outside_prefix() {
    let fa = test_file_access();
    let d = writable_node(Decision::Allow, Decision::Ask);
    assert_eq!(resolve_conditional(&d, "/etc/config.txt", &fa, cwd()).unwrap(), Decision::Ask);
}

#[test]
fn resolve_nested_conditional_on_then_branch() {
    let fa = test_file_access();
    let d = DecisionNode::Conditional(Box::new(ConditionalDecisionNode {
        condition: Condition::Readable,
        then_decision: ConditionalBranch::Nested(Box::new(ConditionalDecisionNode {
            condition: Condition::Writable,
            then_decision: ConditionalBranch::Static(Decision::Allow),
            else_decision: ConditionalBranch::Static(Decision::Ask),
        })),
        else_decision: ConditionalBranch::Static(Decision::Deny),
    }));
    assert_eq!(resolve_conditional(&d, "/tmp/file.txt", &fa, cwd()).unwrap(), Decision::Allow);
    assert_eq!(resolve_conditional(&d, "/etc/config.txt", &fa, cwd()).unwrap(), Decision::Ask);
    assert_eq!(resolve_conditional(&d, "/etc/.secret", &fa, cwd()).unwrap(), Decision::Deny);
}

#[test]
fn resolve_nested_conditional() {
    let fa = test_file_access();
    let d = DecisionNode::Conditional(Box::new(ConditionalDecisionNode {
        condition: Condition::Writable,
        then_decision: ConditionalBranch::Static(Decision::Allow),
        else_decision: ConditionalBranch::Nested(Box::new(ConditionalDecisionNode {
            condition: Condition::Readable,
            then_decision: ConditionalBranch::Static(Decision::Ask),
            else_decision: ConditionalBranch::Static(Decision::Deny),
        })),
    }));
    assert_eq!(resolve_conditional(&d, "/tmp/file.txt", &fa, cwd()).unwrap(), Decision::Allow);
    assert_eq!(resolve_conditional(&d, "/etc/config.txt", &fa, cwd()).unwrap(), Decision::Ask);
    assert_eq!(resolve_conditional(&d, "/etc/.secret", &fa, cwd()).unwrap(), Decision::Deny);
}

// --- reading a file for a content check ---

#[test]
fn read_for_check_blocked_path_no_io() {
    // path matches read denylist (!**/*.secret*): no file is to be read,
    // and the outcome is Unreadable.
    let fa = test_file_access();
    match check_target("/tmp/some.secret", &fa, cwd()).unwrap() {
        Err(FileCheckRead::Unreadable(msg)) => assert!(msg.contains("not readable")),
        _ => panic!("expected Unreadable"),
    }
}

#[test]
fn check_target_readable_path_is_normalized() {
    let fa = test_file_access();
    match check_target("/tmp/a/../b.txt", &fa, cwd()).unwrap() {
        Ok(path) => assert_eq!(path, "/tmp/b.txt"),
        Err(_) => panic!("expected the path to read"),
    }
}

#[test]
fn read_outcome_cases() {
    let contents = read_outcome("/tmp/f", 10, ReadAttempt::Read { len: 3, text: Some("abc".to_string()) });
    assert!(matches!(contents, FileCheckRead::Contents(ref c) if c == "abc"));
    match read_outcome("/tmp/f", 10, ReadAttempt::Read { len: 11, text: None }) {
        FileCheckRead::Unreadable(m) => assert_eq!(m, "file '/tmp/f' exceeds 10 byte limit"),
        _ => panic!("expected Unreadable"),
    }
    match read_outcome("/tmp/f", 10, ReadAttempt::Read { len: 4, text: None }) {
        FileCheckRead::Unreadable(m) => assert_eq!(m, "file '/tmp/f' is not valid UTF-8"),
        _ => panic!("expected Unreadable"),
    }
    match read_outcome("/tmp/f", 10, ReadAttempt::OpenFailed("No such file".to_string())) {
        FileCheckRead::Unreadable(m) => assert_eq!(m, "cannot open '/tmp/f': No such file"),
        _ => panic!("expected Unreadable"),
    }
    match read_outcome("/tmp/f", 10, ReadAttempt::ReadFailed("I/O".to_string())) {
        FileCheckRead::Unreadable(m) => assert_eq!(m, "read error on '/tmp/f': I/O"),
        _ => panic!("expected Unreadable"),
    }
    assert_eq!(FILE_CHECK_MAX_BYTES, 1024 * 1024);
}
