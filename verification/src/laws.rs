//! Properties of the library as a whole: how decisions combine, how file
//! access patterns decide, and what the hook answers.

use vstd::prelude::*;
use crate::decision::{rank, spec_merge, spec_stricter, Condition, Decision, DecisionNode, PathCheckView};
use crate::evaluate::{
    all_agree, any_override, content_check, decide, flag_at, flags_upto, forced_of, leaf_parts, no_contrib, option_at,
    options_upto, pattern_contrib, patterns_upto, spec_evaluate_command, spec_evaluate_node, spec_expansion_coverage,
    spec_merge_judgments, spec_positionals, strictest_first, values_contrib, JudgmentView, jv, pre, r_named, r_positional_count,
    spec_lookup_option_eq, has_force_flag, consumed, lemma_consumed_bounds, spec_strip, positionals_from, covers,
    spec_collect_positional, classify_all, targets, classify_node, one_j, one_pc, r_positional_arg, spec_split_option_eq,
    strip_from, pre_from,
};
use crate::rules::{key_at, keys_distinct, spec_lookup};
use crate::bash::{children_text, has_child, is_expansion_kind, word_of};
use crate::text::{first_at, index_of};
use crate::input::{header_path, header_paths, is_white, patch_paths, split_lines, std_lines, trim_start, trimmed};
use crate::text::{decimal, starts_dash, views};
use crate::rules::{FileCheck, ValuesView};
use crate::hook::{outcome_decision, path_result, FilesView};
use crate::path::file_read;
use crate::evaluate::regex_error;
use crate::hook::{
    all_checks, bash_answer, evals, forced_results, patch_answer, patch_pairs, plain_decisions, redirect_checks,
    redirect_node, resolved, results_agree, spec_merge_paths, withheld, Mode,
};
use crate::path::{
    effective_patterns, entries_of, glob_matches, joined, normalized, pattern_entry, patterns_match, project_glob,
    spec_readable, spec_resolve, spec_writable, FileAccessView,
};
use crate::rules::{key_index, BashRules, CommandNode, FlagEntry, OptionEntry, PositionalDef, PositionalEntry, WildcardMap};

verus! {

// ---------------------------------------------------------------------------
// Combining decisions
// ---------------------------------------------------------------------------

proof fn lemma_contains_push(ds: Seq<Decision>, d: Decision, x: Decision)
    ensures
        ds.push(d).contains(x) <==> (ds.contains(x) || x == d),
{
    let s = ds.push(d);
    if s.contains(x) {
        let k = choose|k: int| 0 <= k < s.len() && s[k] == x;
        if k < ds.len() {
            assert(ds[k] == x);
        }
    }
    if ds.contains(x) {
        let k = choose|k: int| 0 <= k < ds.len() && ds[k] == x;
        assert(s[k] == x);
    }
    if x == d {
        assert(s[ds.len() as int] == x);
    }
}

/// The merge of a non-empty list is one of its decisions, and the
/// strictest: deny > ask > allow.
pub proof fn lemma_merge_is_strictest(ds: Seq<Decision>)
    requires
        ds.len() > 0,
    ensures
        ds.contains(spec_merge(ds)),
        forall|i: int| 0 <= i < ds.len() ==> rank(#[trigger] ds[i]) <= rank(spec_merge(ds)),
{
    if !ds.contains(Decision::Deny) && !ds.contains(Decision::Ask) {
        assert(ds[0] == Decision::Allow);
    }
}

/// The merge of a list depends only on which decisions occur in it, not on
/// their order or how often they occur.
pub proof fn lemma_merge_order_independent(a: Seq<Decision>, b: Seq<Decision>)
    requires
        forall|d: Decision| a.contains(d) <==> b.contains(d),
    ensures
        spec_merge(a) == spec_merge(b),
{
    if a.len() > 0 {
        assert(a.contains(a[0]));
    }
    if b.len() > 0 {
        assert(b.contains(b[0]));
    }
}

/// Merging one more decision into a non-empty list gives the stricter of
/// the list's merge and that decision.
pub proof fn lemma_merge_push(ds: Seq<Decision>, d: Decision)
    requires
        ds.len() > 0,
    ensures
        spec_merge(ds.push(d)) == spec_stricter(spec_merge(ds), d),
{
    lemma_contains_push(ds, d, Decision::Deny);
    lemma_contains_push(ds, d, Decision::Ask);
    lemma_contains_push(ds, d, Decision::Allow);
    assert(ds.contains(ds[0]));
}

/// `stricter` is commutative, associative and idempotent, and picks the
/// decision of highest rank.
pub proof fn lemma_stricter_laws(a: Decision, b: Decision, c: Decision)
    ensures
        spec_stricter(a, b) == spec_stricter(b, a),
        spec_stricter(a, spec_stricter(b, c)) == spec_stricter(spec_stricter(a, b), c),
        spec_stricter(a, a) == a,
        rank(spec_stricter(a, b)) >= rank(a),
        rank(spec_stricter(a, b)) >= rank(b),
        spec_stricter(a, b) == a || spec_stricter(a, b) == b,
{
}

/// Forced judgments take priority over all others: when they agree, their
/// decision is the result, however strict the non-forced ones are; when
/// they disagree, the result is ask.  Without forced judgments the
/// strictest judgment wins.
pub proof fn lemma_forced_judgments_win(js: Seq<JudgmentView>)
    ensures
        forced_of(js).len() > 0 && all_agree(forced_of(js)) ==> spec_merge_judgments(js).decision
            == forced_of(js)[0].decision,
        forced_of(js).len() > 0 && !all_agree(forced_of(js)) ==> spec_merge_judgments(js).decision
            == Decision::Ask,
        forced_of(js).len() == 0 && js.len() > 0 ==> forall|i: int|
            0 <= i < js.len() ==> rank(#[trigger] js[i].decision) <= rank(spec_merge_judgments(js).decision),
    decreases js.len(),
{
    if forced_of(js).len() == 0 && js.len() > 0 {
        lemma_forced_empty_strictest(js);
    }
}

proof fn lemma_forced_empty_strictest(js: Seq<JudgmentView>)
    requires
        js.len() > 0,
    ensures
        forall|i: int| 0 <= i < js.len() ==> rank(#[trigger] js[i].decision) <= rank(crate::evaluate::strictest_first(js).decision),
    decreases js.len(),
{
    if js.len() > 1 {
        lemma_forced_empty_strictest(js.drop_last());
        assert forall|i: int| 0 <= i < js.len() implies rank(#[trigger] js[i].decision) <= rank(
            crate::evaluate::strictest_first(js).decision,
        ) by {
            if i < js.len() - 1 {
                assert(js.drop_last()[i] == js[i]);
            }
        }
    }
}

proof fn lemma_forced_of_filter(js: Seq<JudgmentView>)
    ensures
        forall|k: int| 0 <= k < forced_of(js).len() ==> (#[trigger] forced_of(js)[k]).force && js.contains(forced_of(js)[k]),
        forall|i: int| 0 <= i < js.len() && (#[trigger] js[i]).force ==> forced_of(js).contains(js[i]),
    decreases js.len(),
{
    if js.len() > 0 {
        let init = js.drop_last();
        lemma_forced_of_filter(init);
        let f0 = forced_of(init);
        assert forall|k: int| 0 <= k < forced_of(js).len() implies (#[trigger] forced_of(js)[k]).force && js.contains(forced_of(js)[k]) by {
            if k < f0.len() {
                assert(forced_of(js)[k] == f0[k]);
                let m = choose|m: int| 0 <= m < init.len() && init[m] == f0[k];
                assert(js[m] == init[m]);
            } else {
                assert(forced_of(js)[k] == js.last());
                assert(js[js.len() - 1] == js.last());
            }
        }
        assert forall|i: int| 0 <= i < js.len() && (#[trigger] js[i]).force implies forced_of(js).contains(js[i]) by {
            if i < js.len() - 1 {
                assert(init[i] == js[i]);
                let m = choose|m: int| 0 <= m < f0.len() && f0[m] == js[i];
                if js.last().force {
                    assert(forced_of(js)[m] == f0[m]);
                } else {
                    assert(forced_of(js) == f0);
                }
            } else {
                assert(forced_of(js)[forced_of(js).len() - 1] == js[i]);
            }
        }
    }
}

/// The merge of judgments with forced ones: the forced judgments are the
/// list's judgments marked forced, in order; when they agree the first of
/// them is the result, when they disagree the result is the
/// "conflicting force decisions" ask; and non-forced judgments never
/// change the result (any list with the same forced judgments merges the
/// same).
pub proof fn lemma_merge_with_forced(js: Seq<JudgmentView>, other: Seq<JudgmentView>)
    requires
        forced_of(js).len() > 0,
    ensures
        forall|k: int| 0 <= k < forced_of(js).len() ==> (#[trigger] forced_of(js)[k]).force && js.contains(forced_of(js)[k]),
        forall|i: int| 0 <= i < js.len() && (#[trigger] js[i]).force ==> forced_of(js).contains(js[i]),
        all_agree(forced_of(js)) ==> spec_merge_judgments(js) == forced_of(js)[0],
        !all_agree(forced_of(js)) ==> spec_merge_judgments(js) == jv(
            Decision::Ask,
            false,
            "conflicting force decisions"@,
        ),
        forced_of(other) == forced_of(js) ==> spec_merge_judgments(other) == spec_merge_judgments(js),
{
    lemma_forced_of_filter(js);
}

proof fn lemma_strictest_first_index(js: Seq<JudgmentView>) -> (k: int)
    requires
        js.len() > 0,
    ensures
        0 <= k < js.len(),
        strictest_first(js) == js[k],
        forall|i: int| 0 <= i < k ==> rank(#[trigger] js[i].decision) < rank(js[k].decision),
        forall|i: int| 0 <= i < js.len() ==> rank(#[trigger] js[i].decision) <= rank(js[k].decision),
    decreases js.len(),
{
    if js.len() == 1 {
        0
    } else {
        let init = js.drop_last();
        let k0 = lemma_strictest_first_index(init);
        assert(init[k0] == js[k0]);
        if rank(js.last().decision) > rank(strictest_first(init).decision) {
            let k = js.len() - 1;
            assert forall|i: int| 0 <= i < k implies rank(#[trigger] js[i].decision) < rank(js[k].decision) by {
                assert(init[i] == js[i]);
            }
            k
        } else {
            assert forall|i: int| 0 <= i < js.len() implies rank(#[trigger] js[i].decision) <= rank(js[k0].decision) by {
                if i < js.len() - 1 {
                    assert(init[i] == js[i]);
                }
            }
            assert forall|i: int| 0 <= i < k0 implies rank(#[trigger] js[i].decision) < rank(js[k0].decision) by {
                assert(init[i] == js[i]);
            }
            k0
        }
    }
}

/// The merge of judgments without forced ones: no judgments give the
/// "no decisions collected" ask; otherwise the result is the first
/// judgment whose decision is the merge of all the decisions (deny > ask >
/// allow).
pub proof fn lemma_merge_without_forced(js: Seq<JudgmentView>)
    requires
        forall|i: int| 0 <= i < js.len() ==> !(#[trigger] js[i]).force,
    ensures
        js.len() == 0 ==> spec_merge_judgments(js) == jv(Decision::Ask, false, "no decisions collected"@),
        js.len() > 0 ==> exists|k: int|
            0 <= k < js.len() && spec_merge_judgments(js) == #[trigger] js[k] && js[k].decision == spec_merge(
                js.map_values(|j: JudgmentView| j.decision),
            ) && forall|i: int| 0 <= i < k ==> (#[trigger] js[i]).decision != js[k].decision,
{
    lemma_forced_of_filter(js);
    if forced_of(js).len() > 0 {
        assert(forced_of(js)[0].force);
        let m = choose|m: int| 0 <= m < js.len() && js[m] == forced_of(js)[0];
        assert(!js[m].force);
    }
    if js.len() > 0 {
        let k = lemma_strictest_first_index(js);
        let ds = js.map_values(|j: JudgmentView| j.decision);
        assert(spec_merge_judgments(js) == js[k]);
        assert forall|i: int| 0 <= i < k implies (#[trigger] js[i]).decision != js[k].decision by {
            assert(rank(js[i].decision) < rank(js[k].decision));
        }
        if ds.contains(Decision::Deny) {
            let i = choose|i: int| 0 <= i < ds.len() && ds[i] == Decision::Deny;
            assert(rank(js[i].decision) <= rank(js[k].decision));
        } else if ds.contains(Decision::Ask) {
            let i = choose|i: int| 0 <= i < ds.len() && ds[i] == Decision::Ask;
            assert(rank(js[i].decision) <= rank(js[k].decision));
            assert(ds[k] == js[k].decision);
        } else {
            assert(ds[k] == js[k].decision);
        }
        assert(js[k].decision == spec_merge(ds));
    }
}

// ---------------------------------------------------------------------------
// File access
// ---------------------------------------------------------------------------

/// Last match wins: a pattern added after the others decides every path
/// its glob matches (a negated pattern makes it a non-match), and leaves
/// every other path as it was.
pub proof fn lemma_last_match_wins(pats: Seq<(bool, Seq<char>)>, p: (bool, Seq<char>), path: Seq<char>)
    ensures
        glob_matches(p.1, path) ==> patterns_match(pats.push(p), path) == !p.0,
        !glob_matches(p.1, path) ==> patterns_match(pats.push(p), path) == patterns_match(pats, path),
{
    assert(pats.push(p).drop_last() =~= pats);
}

proof fn lemma_first_entry_shadowed(e: (bool, Seq<char>), rest: Seq<(bool, Seq<char>)>, path: Seq<char>)
    ensures
        (exists|i: int| 0 <= i < rest.len() && glob_matches(#[trigger] rest[i].1, path)) ==> patterns_match(
            seq![e] + rest,
            path,
        ) == patterns_match(rest, path),
        !(exists|i: int| 0 <= i < rest.len() && glob_matches(#[trigger] rest[i].1, path)) ==> patterns_match(
            seq![e] + rest,
            path,
        ) == (glob_matches(e.1, path) && !e.0),
    decreases rest.len(),
{
    let s = seq![e] + rest;
    if rest.len() == 0 {
        assert(s.drop_last() =~= Seq::<(bool, Seq<char>)>::empty());
        assert(s.last() == e);
        assert(patterns_match(s.drop_last(), path) == false);
    } else {
        let init = rest.drop_last();
        assert(s.last() == rest.last());
        assert(s.drop_last() =~= seq![e] + init);
        lemma_first_entry_shadowed(e, init, path);
        if !glob_matches(rest.last().1, path) {
            assert(patterns_match(s, path) == patterns_match(seq![e] + init, path));
            assert(patterns_match(rest, path) == patterns_match(init, path));
            let in_rest = exists|i: int| 0 <= i < rest.len() && glob_matches(#[trigger] rest[i].1, path);
            let in_init = exists|i: int| 0 <= i < init.len() && glob_matches(#[trigger] init[i].1, path);
            if in_rest {
                let i = choose|i: int| 0 <= i < rest.len() && glob_matches(#[trigger] rest[i].1, path);
                assert(i < rest.len() - 1);
                assert(init[i] == rest[i]);
                assert(glob_matches(init[i].1, path));
                assert(in_init);
            }
            if in_init {
                let i = choose|i: int| 0 <= i < init.len() && glob_matches(#[trigger] init[i].1, path);
                assert(rest[i] == init[i]);
                assert(glob_matches(rest[i].1, path));
                assert(in_rest);
            }
        } else {
            assert(glob_matches(rest[rest.len() - 1].1, path));
        }
    }
}

/// With a project directory, the user's own patterns still decide every
/// path one of them matches: the project directory's `<dir>/**` comes
/// first, so a later user pattern (a negation too) overrides it.  A path no
/// user pattern matches is decided by the `<dir>/**` pattern alone.
pub proof fn lemma_user_patterns_override_project_dir(
    patterns: Seq<Seq<char>>,
    cwd: Seq<char>,
    dir: Seq<char>,
    path: Seq<char>,
)
    ensures
        (exists|i: int| 0 <= i < patterns.len() && glob_matches(#[trigger] pattern_entry(patterns[i]).1, path))
            ==> patterns_match(entries_of(effective_patterns(patterns, cwd, Some(dir))), path) == patterns_match(
            entries_of(patterns),
            path,
        ),
        !(exists|i: int| 0 <= i < patterns.len() && glob_matches(#[trigger] pattern_entry(patterns[i]).1, path))
            ==> patterns_match(entries_of(effective_patterns(patterns, cwd, Some(dir))), path) == (glob_matches(
            pattern_entry(project_glob(dir, cwd)).1,
            path,
        ) && !pattern_entry(project_glob(dir, cwd)).0),
{
    let rest = entries_of(patterns);
    let e = pattern_entry(project_glob(dir, cwd));
    assert(entries_of(effective_patterns(patterns, cwd, Some(dir))) =~= seq![e] + rest);
    lemma_first_entry_shadowed(e, rest, path);
    if exists|i: int| 0 <= i < patterns.len() && glob_matches(#[trigger] pattern_entry(patterns[i]).1, path) {
        let i = choose|i: int| 0 <= i < patterns.len() && glob_matches(#[trigger] pattern_entry(patterns[i]).1, path);
        assert(rest[i] == pattern_entry(patterns[i]));
    } else {
        assert forall|i: int| 0 <= i < rest.len() implies !glob_matches(#[trigger] rest[i].1, path) by {
            assert(rest[i] == pattern_entry(patterns[i]));
        }
    }
}

/// With readability required for writing, a writable path is readable: a
/// read denylist entry also blocks writes.
pub proof fn lemma_writable_implies_readable(fa: FileAccessView, path: Seq<char>, cwd: Seq<char>)
    requires
        fa.require_readable,
    ensures
        spec_writable(fa, path, cwd) ==> spec_readable(fa, path, cwd),
{
}

/// An absolute path is the same whatever the working directory.
pub proof fn lemma_absolute_path_ignores_cwd(path: Seq<char>, cwd1: Seq<char>, cwd2: Seq<char>)
    requires
        path.len() > 0,
        path[0] == '/',
    ensures
        normalized(path, cwd1) == normalized(path, cwd2),
        joined(path, cwd1) == path,
{
}

/// A write redirect's target is allowed when writable, asks when only
/// readable, and is denied otherwise.
pub proof fn lemma_redirect_decision(fa: FileAccessView, path: Seq<char>, cwd: Seq<char>)
    ensures
        spec_resolve(redirect_node(), fa, path, cwd) == (if spec_writable(fa, path, cwd) {
            Decision::Allow
        } else if spec_readable(fa, path, cwd) {
            Decision::Ask
        } else {
            Decision::Deny
        }),
{
    reveal_with_fuel(crate::path::spec_resolve_node, 3);
}

// ---------------------------------------------------------------------------
// Shell commands
// ---------------------------------------------------------------------------

/// A command forced allowed by a wrapper flag is allowed.
pub proof fn lemma_force_allow(args: Seq<Seq<char>>, efl: Seq<bool>, has_non_literal: bool, rules: BashRules, cwd: Seq<char>)
    ensures
        spec_evaluate_command(args, efl, has_non_literal, true, rules, cwd) matches crate::decision::EvalOutcome::Decided {
            decision: Decision::Allow,
            ..
        },
{
}

proof fn lemma_scan_reaches_force(args: Seq<Seq<char>>, node: CommandNode, f: WildcardMap<FlagEntry>, j: int, i: int)
    requires
        node.flags == Some(f),
        1 <= j <= i < args.len(),
        has_force_flag(f, args[i]),
        forall|m: int| j <= m < i ==> starts_dash(#[trigger] args[m]) && args[m] != "--"@ && spec_lookup(args[m], f).is_some(),
    ensures
        consumed(args, node, j).1,
    decreases i - j,
{
    if j < i && !has_force_flag(f, args[j]) {
        assert(starts_dash(args[j]) && args[j] != "--"@ && spec_lookup(args[j], f).is_some());
        lemma_scan_reaches_force(args, node, f, j + 1, i);
    }
}

/// A forced flag of a wrapper allows the whole command, also when other
/// flags of the wrapper come before it (`command -p -v dd` with `-v`
/// forced).
pub proof fn lemma_forced_wrapper_flag_allows(
    cmd: (Seq<Seq<char>>, Seq<bool>),
    rules: BashRules,
    cwd: Seq<char>,
    f: WildcardMap<FlagEntry>,
    i: int,
)
    requires
        0 <= key_index(rules.commands@, cmd.0[0]) < rules.commands@.len(),
        rules.commands@[key_index(rules.commands@, cmd.0[0])].1.is_wrapper,
        rules.commands@[key_index(rules.commands@, cmd.0[0])].1.flags == Some(f),
        1 <= i < cmd.0.len(),
        has_force_flag(f, cmd.0[i]),
        forall|m: int| 1 <= m < i ==> starts_dash(#[trigger] cmd.0[m]) && cmd.0[m] != "--"@ && spec_lookup(cmd.0[m], f).is_some(),
    ensures
        crate::hook::eval_one(cmd, rules, cwd) matches crate::decision::EvalOutcome::Decided {
            decision: Decision::Allow,
            ..
        },
{
    let node = rules.commands@[key_index(rules.commands@, cmd.0[0])].1;
    lemma_scan_reaches_force(cmd.0, node, f, 1, i);
    lemma_consumed_bounds(cmd.0, node, 1);
    let (sa, se, forced) = spec_strip(cmd.0, cmd.1, rules);
    assert(forced);
    lemma_force_allow(sa, se, se.contains(true), rules, cwd);
}

/// A command whose sole argument is `--help` or `--version` is allowed,
/// whatever its rules say.
pub proof fn lemma_help_version_allowed(
    args: Seq<Seq<char>>,
    efl: Seq<bool>,
    has_non_literal: bool,
    force_allow: bool,
    rules: BashRules,
    cwd: Seq<char>,
)
    requires
        args.len() == 2,
        args[1] == "--help"@ || args[1] == "--version"@,
    ensures
        spec_evaluate_command(args, efl, has_non_literal, force_allow, rules, cwd) matches crate::decision::EvalOutcome::Decided {
            decision: Decision::Allow,
            ..
        },
{
}

/// A command without rules asks.
pub proof fn lemma_unknown_command_asks(
    args: Seq<Seq<char>>,
    efl: Seq<bool>,
    has_non_literal: bool,
    rules: BashRules,
    cwd: Seq<char>,
)
    requires
        args.len() > 0,
        key_index(rules.commands@, args[0]) < 0,
        !(args.len() == 2 && (args[1] == "--help"@ || args[1] == "--version"@)),
    ensures
        spec_evaluate_command(args, efl, has_non_literal, false, rules, cwd) matches crate::decision::EvalOutcome::Decided {
            decision: Decision::Ask,
            ..
        },
{
}

/// A command whose only argument is one of the globally allowed flags is
/// allowed as written, before any wrapper is stripped.
pub proof fn lemma_globally_allowed_flag(cmd: (Seq<Seq<char>>, Seq<bool>), rules: BashRules, cwd: Seq<char>)
    requires
        cmd.0.len() == 2,
        views(rules.globally_allowed_flags@).contains(cmd.0[1]),
    ensures
        crate::hook::eval_one(cmd, rules, cwd) matches crate::decision::EvalOutcome::Decided {
            decision: Decision::Allow,
            ..
        },
{
}

/// Unlisted subcommands: with a subcommand dict, a first positional
/// argument that is not listed takes the wildcard's decision (ask when the
/// wildcard has none), and asks when there is no wildcard.
pub proof fn lemma_unlisted_subcommand_asks(
    args: Seq<Seq<char>>,
    efl: Seq<bool>,
    has_non_literal: bool,
    node: CommandNode,
    cmd: Seq<char>,
    matched: Seq<char>,
    cwd: Seq<char>,
)
    requires
        node.subcmds is Some,
        spec_positionals(args, node.options).len() > 0,
        key_index(node.subcmds->0.entries@, args[spec_positionals(args, node.options)[0]]) < 0,
    ensures
        spec_evaluate_node(args, efl, has_non_literal, node, cmd, matched, cwd) matches crate::decision::EvalOutcome::Decided {
            decision,
            ..
        } && decision == match node.subcmds->0.wildcard {
            Some(w) => match w.decision {
                Some(d) => d,
                None => Decision::Ask,
            },
            None => Decision::Ask,
        },
{
}

proof fn lemma_no_flags_no_contrib(args: Seq<Seq<char>>, node: CommandNode, pos: Seq<int>, cmd: Seq<char>, k: int)
    requires
        node.flags is None,
        node.options is None,
    ensures
        flags_upto(args, node, pos, cmd, k) == no_contrib(),
        options_upto(args, node, pos, cmd, k) == no_contrib(),
    decreases k,
{
    if k > 1 {
        lemma_no_flags_no_contrib(args, node, pos, cmd, k - 1);
        assert(no_contrib().js + no_contrib().js =~= no_contrib().js);
        assert(no_contrib().pcs + no_contrib().pcs =~= no_contrib().pcs);
    }
}

proof fn lemma_positionals_from_shape(args: Seq<Seq<char>>, options: Option<WildcardMap<OptionEntry>>, i: int)
    requires
        0 <= i,
    ensures
        forall|k: int| 0 <= k < positionals_from(args, options, i).len() ==> {
            let p = #[trigger] positionals_from(args, options, i)[k];
            i <= p < args.len() && !starts_dash(args[p])
        },
        forall|k1: int, k2: int| 0 <= k1 < k2 < positionals_from(args, options, i).len() ==>
            #[trigger] positionals_from(args, options, i)[k1] < #[trigger] positionals_from(args, options, i)[k2],
        options is None ==> forall|m: int| i <= m < args.len() && !starts_dash(#[trigger] args[m]) ==> positionals_from(
            args,
            options,
            i,
        ).contains(m),
    decreases args.len() + 1 - i,
{
    if i < args.len() {
        lemma_positionals_from_shape(args, options, i + 1);
        lemma_positionals_from_shape(args, options, i + 2);
        let p = positionals_from(args, options, i);
        let q1 = positionals_from(args, options, i + 1);
        let q2 = positionals_from(args, options, i + 2);
        if !starts_dash(args[i]) {
            assert(p == seq![i] + q1);
            assert forall|k: int| 0 <= k < p.len() implies {
                let x = #[trigger] p[k];
                i <= x < args.len() && !starts_dash(args[x])
            } by {
                if k > 0 {
                    assert(p[k] == q1[k - 1]);
                }
            }
            assert forall|k1: int, k2: int| 0 <= k1 < k2 < p.len() implies #[trigger] p[k1] < #[trigger] p[k2] by {
                assert(p[k2] == q1[k2 - 1]);
                if k1 > 0 {
                    assert(p[k1] == q1[k1 - 1]);
                }
            }
            if options is None {
                assert forall|m: int| i <= m < args.len() && !starts_dash(#[trigger] args[m]) implies p.contains(m) by {
                    if m == i {
                        assert(p[0] == i);
                    } else {
                        let k = choose|k: int| 0 <= k < q1.len() && q1[k] == m;
                        assert(p[k + 1] == m);
                    }
                }
            }
        }
    }
}

/// The positional arguments of a command are the arguments after its name
/// that do not start with a dash (and are not a known option's value), in
/// order; without options, they are all such arguments.
pub proof fn lemma_positionals_shape(args: Seq<Seq<char>>, options: Option<WildcardMap<OptionEntry>>)
    ensures
        forall|k: int| 0 <= k < spec_positionals(args, options).len() ==> {
            let p = #[trigger] spec_positionals(args, options)[k];
            1 <= p < args.len() && !starts_dash(args[p])
        },
        forall|k1: int, k2: int| 0 <= k1 < k2 < spec_positionals(args, options).len() ==>
            #[trigger] spec_positionals(args, options)[k1] < #[trigger] spec_positionals(args, options)[k2],
        options is None ==> forall|m: int| 1 <= m < args.len() && !starts_dash(#[trigger] args[m]) ==> spec_positionals(
            args,
            options,
        ).contains(m),
{
    lemma_positionals_from_shape(args, options, 1);
}

/// Expansion coverage: a node that allows expansions covers every
/// argument; otherwise an argument with an expansion must be the value of
/// an option that allows expansions (the next argument, or the argument
/// itself in the `--option=value` form), so the command name never is.
pub proof fn lemma_expansion_coverage(args: Seq<Seq<char>>, efl: Seq<bool>, node: CommandNode)
    ensures
        node.allow_expansions ==> spec_expansion_coverage(args, efl, node),
        !node.allow_expansions && efl.len() > 0 && efl[0] ==> !spec_expansion_coverage(args, efl, node),
        !node.allow_expansions ==> (spec_expansion_coverage(args, efl, node) <==> forall|i: int|
            0 <= i < efl.len() && #[trigger] efl[i] ==> (i >= 1 && node.options is Some && exists|j: int|
                covers(args, node.options->0, j, i))),
{
    if !node.allow_expansions && efl.len() > 0 && efl[0] && spec_expansion_coverage(args, efl, node) {
        assert(efl[0]);
        let o = node.options->0;
        let j = choose|j: int| covers(args, o, j, 0);
    }
    if !node.allow_expansions && spec_expansion_coverage(args, efl, node) {
        assert forall|i: int| 0 <= i < efl.len() && #[trigger] efl[i] implies (i >= 1 && node.options is Some
            && exists|j: int| covers(args, node.options->0, j, i)) by {
            let o = node.options->0;
            let j = choose|j: int| covers(args, o, j, i);
        }
    }
}

/// Positional rules: the rule for the number of positional arguments is
/// used, else the wildcard's, else one ask.  An array rule applies its
/// entries to the positional arguments by index (an empty argument past
/// the last); a single rule applies uniformly to every positional
/// argument, in order.  A fixed decision gives a judgment, a conditional a
/// path check of the argument, not forced.
pub proof fn lemma_positional_rules(
    defs: WildcardMap<PositionalDef>,
    args: Seq<Seq<char>>,
    pos: Seq<int>,
    cmd: Seq<char>,
    ctx: Seq<char>,
)
    ensures
        ({
            let c = key_index(defs.entries@, decimal(pos.len()));
            &&& c >= 0 ==> spec_collect_positional(defs, args, pos, cmd, ctx) == classify_all(
                targets(defs.entries@[c].1, args, pos),
                cmd,
                ctx,
            )
            &&& (c < 0 && defs.wildcard is Some) ==> spec_collect_positional(defs, args, pos, cmd, ctx)
                == classify_all(targets(*defs.wildcard->0, args, pos), cmd, ctx)
            &&& c < 0 && defs.wildcard is None ==> spec_collect_positional(defs, args, pos, cmd, ctx) == one_j(
                jv(Decision::Ask, false, r_positional_count(cmd, ctx, pos.len())),
            )
        }),
        forall|es: Vec<PositionalEntry>|
            #![trigger targets(PositionalDef::Array(es), args, pos)]
            targets(PositionalDef::Array(es), args, pos).len() == es@.len() && forall|i: int|
                0 <= i < es@.len() ==> #[trigger] targets(PositionalDef::Array(es), args, pos)[i] == (
                    es@[i],
                    if i < pos.len() { args[pos[i]] } else { Seq::empty() },
                ),
        forall|e: PositionalEntry|
            #![trigger targets(PositionalDef::Single(e), args, pos)]
            targets(PositionalDef::Single(e), args, pos).len() == pos.len() && forall|i: int|
                0 <= i < pos.len() ==> #[trigger] targets(PositionalDef::Single(e), args, pos)[i] == (e, args[pos[i]]),
        forall|d: Decision, val: Seq<char>|
            #![trigger classify_node(DecisionNode::Static(d), val, cmd, ctx)]
            classify_node(DecisionNode::Static(d), val, cmd, ctx) == one_j(jv(d, false, r_positional_arg(cmd, ctx, val, d))),
        forall|n: DecisionNode, val: Seq<char>|
            n is Conditional ==> #[trigger] classify_node(n, val, cmd, ctx) == one_pc(
                PathCheckView { path: val, decision: n, force: false, contents: None },
            ),
{
}

/// Absent dicts are transparent: a node with only a decision gives that
/// decision (ask when it has none) for any arguments, literal ones or, when
/// the node allows expansions, any (`"ls": "allow"` allows `ls -la`).
pub proof fn lemma_absent_dicts_transparent(
    args: Seq<Seq<char>>,
    efl: Seq<bool>,
    has_non_literal: bool,
    node: CommandNode,
    cmd: Seq<char>,
    matched: Seq<char>,
    cwd: Seq<char>,
)
    requires
        !has_non_literal || node.allow_expansions,
        node.subcmds is None,
        node.flags is None,
        node.options is None,
        node.positional is None,
        node.cwd_check is None,
    ensures
        spec_evaluate_node(args, efl, has_non_literal, node, cmd, matched, cwd) matches crate::decision::EvalOutcome::Decided {
            decision,
            ..
        } && decision == match node.decision {
            Some(d) => d,
            None => Decision::Ask,
        },
{
    let pos = spec_positionals(args, node.options);
    lemma_no_flags_no_contrib(args, node, pos, cmd, args.len() as int);
    if has_non_literal {
        assert(spec_expansion_coverage(args, efl, node));
    }
    let parts = leaf_parts(args, efl, has_non_literal, node, cmd, cwd);
    assert(parts.js =~= Seq::<JudgmentView>::empty());
    assert(parts.pcs =~= Seq::<crate::decision::PathCheckView>::empty());
}

// ---------------------------------------------------------------------------
// The hook's answer
// ---------------------------------------------------------------------------

/// A shell command line any of whose commands is denied (commands inside
/// substitutions included) is denied.
pub proof fn lemma_any_denied_command_denies(
    cmds: Seq<(Seq<Seq<char>>, Seq<bool>)>,
    redirects: Seq<Seq<char>>,
    rules: BashRules,
    fa: FileAccessView,
    cwd: Seq<char>,
    files: crate::hook::FilesView,
    i: int,
)
    requires
        0 <= i < cmds.len(),
        crate::hook::outcome_decision(evals(cmds, rules, cwd)[i]) == Decision::Deny,
    ensures
        bash_answer(cmds, redirects, rules, fa, cwd, files).0 == Decision::Deny,
{
    let plain = plain_decisions(evals(cmds, rules, cwd));
    assert(plain[i] == Decision::Deny);
}

/// Without forced path results, the answer for a command line is at least
/// as strict as each of its commands' decisions and each resolved path
/// check (redirect targets included).
pub proof fn lemma_answer_is_strictest(
    cmds: Seq<(Seq<Seq<char>>, Seq<bool>)>,
    redirects: Seq<Seq<char>>,
    rules: BashRules,
    fa: FileAccessView,
    cwd: Seq<char>,
    files: crate::hook::FilesView,
)
    requires
        forced_results(
            resolved(all_checks(evals(cmds, rules, cwd)) + redirect_checks(redirects), fa, cwd, files),
        ).len() == 0,
    ensures
        forall|i: int|
            0 <= i < cmds.len() ==> rank(#[trigger] crate::hook::outcome_decision(evals(cmds, rules, cwd)[i])) <= rank(
                bash_answer(cmds, redirects, rules, fa, cwd, files).0,
            ),
        forall|j: int|
            0 <= j < (all_checks(evals(cmds, rules, cwd)) + redirect_checks(redirects)).len() ==> rank(
                (#[trigger] resolved(all_checks(evals(cmds, rules, cwd)) + redirect_checks(redirects), fa, cwd, files)[j]).0,
            ) <= rank(bash_answer(cmds, redirects, rules, fa, cwd, files).0),
{
    let outs = evals(cmds, rules, cwd);
    let plain = plain_decisions(outs);
    let checks = all_checks(outs) + redirect_checks(redirects);
    let prs = resolved(checks, fa, cwd, files);
    let r = bash_answer(cmds, redirects, rules, fa, cwd, files).0;
    if plain.contains(Decision::Deny) {
        assert(r == Decision::Deny);
    } else if checks.len() > 0 {
        let all = plain + prs.map_values(|x: (Decision, bool, Seq<char>)| x.0);
        lemma_merge_is_strictest(all);
        assert forall|i: int| 0 <= i < cmds.len() implies rank(#[trigger] crate::hook::outcome_decision(outs[i])) <= rank(r) by {
            assert(all[i] == plain[i]);
        }
        assert forall|j: int| 0 <= j < checks.len() implies rank((#[trigger] prs[j]).0) <= rank(r) by {
            assert(all[plain.len() + j] == prs[j].0);
        }
    } else if plain.len() > 0 {
        lemma_merge_is_strictest(plain);
        assert forall|i: int| 0 <= i < cmds.len() implies rank(#[trigger] crate::hook::outcome_decision(outs[i])) <= rank(r) by {
            assert(plain[i] == crate::hook::outcome_decision(outs[i]));
        }
    }
}

/// Forced path results that agree decide a command line none of whose
/// commands is denied; forced path results that disagree make it ask.
pub proof fn lemma_forced_paths_decide(
    cmds: Seq<(Seq<Seq<char>>, Seq<bool>)>,
    redirects: Seq<Seq<char>>,
    rules: BashRules,
    fa: FileAccessView,
    cwd: Seq<char>,
    files: crate::hook::FilesView,
)
    requires
        !plain_decisions(evals(cmds, rules, cwd)).contains(Decision::Deny),
        forced_results(
            resolved(all_checks(evals(cmds, rules, cwd)) + redirect_checks(redirects), fa, cwd, files),
        ).len() > 0,
    ensures
        ({
            let forced = forced_results(
                resolved(all_checks(evals(cmds, rules, cwd)) + redirect_checks(redirects), fa, cwd, files),
            );
            &&& results_agree(forced) ==> bash_answer(cmds, redirects, rules, fa, cwd, files).0 == forced[0].0
            &&& !results_agree(forced) ==> bash_answer(cmds, redirects, rules, fa, cwd, files).0 == Decision::Ask
        }),
{
    let outs = evals(cmds, rules, cwd);
    let checks = all_checks(outs) + redirect_checks(redirects);
    let prs = resolved(checks, fa, cwd, files);
    lemma_forced_nonempty(prs);
}

proof fn lemma_forced_nonempty(prs: Seq<(Decision, bool, Seq<char>)>)
    ensures
        forced_results(prs).len() <= prs.len(),
    decreases prs.len(),
{
    if prs.len() > 0 {
        lemma_forced_nonempty(prs.drop_last());
    }
}

/// A patch is decided path by path with the edit rule, and the strictest
/// decision wins.
pub proof fn lemma_patch_strictest(paths: Seq<Seq<char>>, node: DecisionNode, fa: FileAccessView, cwd: Seq<char>)
    requires
        paths.len() > 0,
    ensures
        forall|i: int|
            0 <= i < paths.len() ==> rank(spec_resolve(node, fa, #[trigger] paths[i], cwd)) <= rank(
                patch_answer(paths, Some(node), fa, cwd).0,
            ),
        exists|i: int|
            0 <= i < paths.len() && spec_resolve(node, fa, #[trigger] paths[i], cwd) == patch_answer(
                paths,
                Some(node),
                fa,
                cwd,
            ).0,
{
    let pairs = patch_pairs(paths, node, fa, cwd);
    let ds = pairs.map_values(|x: (Decision, Seq<char>)| x.0);
    lemma_merge_is_strictest(ds);
    assert forall|i: int| 0 <= i < paths.len() implies rank(spec_resolve(node, fa, #[trigger] paths[i], cwd)) <= rank(
        patch_answer(paths, Some(node), fa, cwd).0,
    ) by {
        assert(ds[i] == spec_resolve(node, fa, paths[i], cwd));
    }
    let k = choose|k: int| 0 <= k < ds.len() && ds[k] == spec_merge(ds);
    assert(ds[k] == spec_resolve(node, fa, paths[k], cwd));
}

/// In the default mode allow and deny are always reported; only an ask can be
/// withheld, and only in auto permission mode with deferral enabled.
pub proof fn lemma_claude_defers_only_auto_asks(
    decision: Seq<char>,
    permission_mode: Option<Seq<char>>,
    defer_ask_in_auto_mode: bool,
)
    ensures
        withheld(decision, Mode::Claude, permission_mode, defer_ask_in_auto_mode) <==> (defer_ask_in_auto_mode
            && permission_mode == Some("auto"@) && decision == "ask"@),
        decision == "allow"@ || decision == "deny"@ ==> !withheld(
            decision,
            Mode::Claude,
            permission_mode,
            defer_ask_in_auto_mode,
        ),
{
    reveal_strlit("allow");
    reveal_strlit("deny");
    reveal_strlit("ask");
    assert("allow"@.len() != "ask"@.len());
    assert("deny"@[0] != "ask"@[0]);
}

/// In Codex mode only a deny is reported; allow and ask are left to Codex.
pub proof fn lemma_codex_reports_only_deny(
    decision: Seq<char>,
    permission_mode: Option<Seq<char>>,
    defer_ask_in_auto_mode: bool,
)
    ensures
        !withheld(decision, Mode::Codex, permission_mode, defer_ask_in_auto_mode) <==> decision == "deny"@,
{
}

// ---------------------------------------------------------------------------
// Values, overlays and content checks
// ---------------------------------------------------------------------------

proof fn lemma_patterns_keep_denies(
    entries: Seq<(Seq<char>, crate::rules::DecisionSpec)>,
    k: int,
    j: int,
    head: Seq<char>,
    text: Seq<char>,
    subject: Seq<char>,
)
    requires
        0 <= j < k <= entries.len(),
        entries[j].1.is_pattern,
        regex_error(entries[j].0) is Some,
    ensures
        patterns_upto(entries, k, head, text, subject).js.contains(
            crate::evaluate::jv(
                Decision::Deny,
                false,
                head + "has invalid pattern '"@ + entries[j].0 + "': "@ + regex_error(entries[j].0)->0,
            ),
        ),
    decreases k,
{
    let target = crate::evaluate::jv(
        Decision::Deny,
        false,
        head + "has invalid pattern '"@ + entries[j].0 + "': "@ + regex_error(entries[j].0)->0,
    );
    let prev = patterns_upto(entries, k - 1, head, text, subject);
    let step = pattern_contrib(entries[k - 1], head, text, subject);
    let all = patterns_upto(entries, k, head, text, subject);
    assert(all.js == prev.js + step.js);
    if j == k - 1 {
        assert(step.js == seq![target]);
        assert(all.js[prev.js.len() as int] == target);
    } else {
        lemma_patterns_keep_denies(entries, k - 1, j, head, text, subject);
        let i = choose|i: int| 0 <= i < prev.js.len() && prev.js[i] == target;
        assert(all.js[i] == target);
    }
}

/// A pattern that does not compile cannot fall through silently: looking a
/// value up in a dict with such a pattern always yields a deny naming it.
pub proof fn lemma_invalid_pattern_denies(values: ValuesView, head: Seq<char>, text: Seq<char>, subject: Seq<char>, j: int)
    requires
        0 <= j < values.entries.len(),
        values.entries[j].1.is_pattern,
        regex_error(values.entries[j].0) is Some,
    ensures
        values_contrib(values, head, text, subject).js.contains(
            crate::evaluate::jv(
                Decision::Deny,
                false,
                head + "has invalid pattern '"@ + values.entries[j].0 + "': "@ + regex_error(values.entries[j].0)->0,
            ),
        ),
{
    let entries = values.entries;
    let target = crate::evaluate::jv(
        Decision::Deny,
        false,
        head + "has invalid pattern '"@ + entries[j].0 + "': "@ + regex_error(entries[j].0)->0,
    );
    lemma_patterns_keep_denies(entries, entries.len() as int, j, head, text, subject);
    let pats = patterns_upto(entries, entries.len() as int, head, text, subject);
    let i = choose|i: int| 0 <= i < pats.js.len() && pats.js[i] == target;
    let c = values_contrib(values, head, text, subject);
    let ex = crate::evaluate::exact_index(entries, text);
    let exact = if ex >= 0 {
        crate::evaluate::matched_value(entries[ex].1, head + crate::evaluate::static_phrase(entries[ex].1), subject)
    } else {
        no_contrib()
    };
    assert(c.js[exact.js.len() + i] == target);
}

proof fn lemma_strictest_is_member(js: Seq<JudgmentView>)
    requires
        js.len() > 0,
    ensures
        js.contains(strictest_first(js)),
    decreases js.len(),
{
    if js.len() > 1 {
        lemma_strictest_is_member(js.drop_last());
        let a = strictest_first(js.drop_last());
        let i = choose|i: int| 0 <= i < js.len() - 1 && js.drop_last()[i] == a;
        assert(js[i] == a);
        assert(js[js.len() - 1] == js.last());
    } else {
        assert(js[0] == strictest_first(js));
    }
}

/// Without forced judgments, more judgments can only tighten the merge:
/// the overlays of flags and options never relax the parent's decision.
pub proof fn lemma_more_judgments_only_tighten(js: Seq<JudgmentView>, extra: Seq<JudgmentView>)
    requires
        js.len() > 0,
        forced_of(js + extra).len() == 0,
        forced_of(js).len() == 0,
    ensures
        rank(spec_merge_judgments(js).decision) <= rank(spec_merge_judgments(js + extra).decision),
{
    let all = js + extra;
    lemma_forced_empty_strictest(all);
    lemma_strictest_is_member(js);
    let m = strictest_first(js);
    let i = choose|i: int| 0 <= i < js.len() && js[i] == m;
    assert(all[i] == m);
}

proof fn lemma_flags_ignore_positional(
    args: Seq<Seq<char>>,
    node: CommandNode,
    pos: Seq<int>,
    cmd: Seq<char>,
    k: int,
)
    ensures
        flags_upto(args, node, pos, cmd, k) == flags_upto(args, CommandNode { positional: None, ..node }, pos, cmd, k),
        options_upto(args, node, pos, cmd, k) == options_upto(args, CommandNode { positional: None, ..node }, pos, cmd, k),
    decreases k,
{
    let node2 = CommandNode { positional: None, ..node };
    if k > 1 {
        lemma_flags_ignore_positional(args, node, pos, cmd, k - 1);
        assert(flag_at(args, node, pos, cmd, k - 1) == flag_at(args, node2, pos, cmd, k - 1));
        assert(option_at(args, node, pos, cmd, k - 1) == option_at(args, node2, pos, cmd, k - 1));
    }
}

/// With a flag or option that overrides positional rules present, the
/// node's own positional rules have no effect: the result is what it
/// would be without them.
pub proof fn lemma_override_ignores_positional(
    args: Seq<Seq<char>>,
    efl: Seq<bool>,
    has_non_literal: bool,
    node: CommandNode,
    cmd: Seq<char>,
    cwd: Seq<char>,
)
    requires
        any_override(args, node),
    ensures
        leaf_parts(args, efl, has_non_literal, node, cmd, cwd) == leaf_parts(
            args,
            efl,
            has_non_literal,
            CommandNode { positional: None, ..node },
            cmd,
            cwd,
        ),
{
    let node2 = CommandNode { positional: None, ..node };
    let pos = spec_positionals(args, node.options);
    lemma_flags_ignore_positional(args, node, pos, cmd, args.len() as int);
    assert(spec_expansion_coverage(args, efl, node) == spec_expansion_coverage(args, efl, node2));
    let a = leaf_parts(args, efl, has_non_literal, node, cmd, cwd);
    let b = leaf_parts(args, efl, has_non_literal, node2, cmd, cwd);
    assert(a.js =~= b.js);
    assert(a.pcs =~= b.pcs);
}

proof fn lemma_flags_upto_has(args: Seq<Seq<char>>, node: CommandNode, pos: Seq<int>, cmd: Seq<char>, k: int, i: int)
    requires
        1 <= i < k,
    ensures
        forall|x: JudgmentView| flag_at(args, node, pos, cmd, i).js.contains(x) ==> flags_upto(args, node, pos, cmd, k).js.contains(x),
    decreases k,
{
    let a = flags_upto(args, node, pos, cmd, k - 1).js;
    let b = flag_at(args, node, pos, cmd, k - 1).js;
    assert(flags_upto(args, node, pos, cmd, k).js == a + b);
    if i < k - 1 {
        lemma_flags_upto_has(args, node, pos, cmd, k - 1, i);
    }
    assert forall|x: JudgmentView| flag_at(args, node, pos, cmd, i).js.contains(x) implies (a + b).contains(x) by {
        if i < k - 1 {
            let m = choose|m: int| 0 <= m < a.len() && a[m] == x;
            assert((a + b)[m] == x);
        } else {
            let m = choose|m: int| 0 <= m < b.len() && b[m] == x;
            assert((a + b)[a.len() + m] == x);
        }
    }
}

/// Without forced judgments, a leaf's outcome is at least as strict as each
/// of its judgments.
proof fn lemma_leaf_at_least(
    args: Seq<Seq<char>>,
    efl: Seq<bool>,
    has_non_literal: bool,
    node: CommandNode,
    cmd: Seq<char>,
    matched: Seq<char>,
    cwd: Seq<char>,
    j: JudgmentView,
)
    requires
        leaf_parts(args, efl, has_non_literal, node, cmd, cwd).js.contains(j),
        forced_of(leaf_parts(args, efl, has_non_literal, node, cmd, cwd).js).len() == 0,
    ensures
        rank(j.decision) <= rank(outcome_decision(decide(leaf_parts(args, efl, has_non_literal, node, cmd, cwd), node, cmd, matched))),
{
    let js = leaf_parts(args, efl, has_non_literal, node, cmd, cwd).js;
    let m = choose|m: int| 0 <= m < js.len() && js[m] == j;
    lemma_forced_judgments_win(js);
    assert(rank(js[m].decision) <= rank(spec_merge_judgments(js).decision));
}

/// Unlisted = ask, for flags: when a command's flags dict has no wildcard,
/// a dash argument that is neither a listed flag nor a known option makes
/// the command at least ask (unless a forced decision takes over).
pub proof fn lemma_unlisted_flag_asks(
    args: Seq<Seq<char>>,
    efl: Seq<bool>,
    has_non_literal: bool,
    node: CommandNode,
    cmd: Seq<char>,
    matched: Seq<char>,
    cwd: Seq<char>,
    i: int,
)
    requires
        node.subcmds is None,
        node.flags is Some,
        node.flags->0.wildcard is None,
        1 <= i < args.len(),
        starts_dash(args[i]),
        spec_lookup(args[i], node.flags->0) is None,
        node.options is None || spec_lookup_option_eq(args[i], node.options->0) is None,
        forced_of(leaf_parts(args, efl, has_non_literal, node, cmd, cwd).js).len() == 0,
    ensures
        rank(outcome_decision(spec_evaluate_node(args, efl, has_non_literal, node, cmd, matched, cwd))) >= rank(
            Decision::Ask,
        ),
{
    let pos = spec_positionals(args, node.options);
    let j = jv(Decision::Ask, false, r_named(cmd, "unknown flag"@, args[i]));
    assert(flag_at(args, node, pos, cmd, i).js =~= seq![j]);
    assert(flag_at(args, node, pos, cmd, i).js[0] == j);
    assert(flag_at(args, node, pos, cmd, i).js.contains(j));
    lemma_flags_upto_has(args, node, pos, cmd, args.len() as int, i);
    let f = flags_upto(args, node, pos, cmd, args.len() as int).js;
    assert(f.contains(j));
    let parts = leaf_parts(args, efl, has_non_literal, node, cmd, cwd);
    let m = choose|m: int| 0 <= m < f.len() && f[m] == j;
    assert(parts.js[m] == j);
    lemma_leaf_at_least(args, efl, has_non_literal, node, cmd, matched, cwd, j);
}

/// Unlisted = ask, for positional arguments: when a command's positional
/// dict has no wildcard and no rule for the number of positional arguments
/// given, the command is at least ask (unless a flag or option overrides
/// the positional rules, or a forced decision takes over).
pub proof fn lemma_unlisted_positional_count_asks(
    args: Seq<Seq<char>>,
    efl: Seq<bool>,
    has_non_literal: bool,
    node: CommandNode,
    cmd: Seq<char>,
    matched: Seq<char>,
    cwd: Seq<char>,
)
    requires
        node.subcmds is None,
        node.positional is Some,
        node.positional->0.wildcard is None,
        key_index(node.positional->0.entries@, decimal(spec_positionals(args, node.options).len())) < 0,
        !any_override(args, node),
        forced_of(leaf_parts(args, efl, has_non_literal, node, cmd, cwd).js).len() == 0,
    ensures
        rank(outcome_decision(spec_evaluate_node(args, efl, has_non_literal, node, cmd, matched, cwd))) >= rank(
            Decision::Ask,
        ),
{
    let pos = spec_positionals(args, node.options);
    let j = jv(Decision::Ask, false, r_positional_count(cmd, "positional"@, pos.len()));
    let parts = leaf_parts(args, efl, has_non_literal, node, cmd, cwd);
    let f = flags_upto(args, node, pos, cmd, args.len() as int).js;
    let o = options_upto(args, node, pos, cmd, args.len() as int).js;
    let e = if has_non_literal && !spec_expansion_coverage(args, efl, node) {
        seq![jv(Decision::Ask, false, pre(cmd) + "contains uncovered variable expansions"@)]
    } else {
        Seq::<JudgmentView>::empty()
    };
    let c = match node.cwd_check {
        Some(cn) => crate::evaluate::classify_node(cn, cwd, cmd, "cwdCheck"@).js,
        None => Seq::<JudgmentView>::empty(),
    };
    assert(parts.js =~= f + o + e + c + seq![j]);
    assert(parts.js[(f.len() + o.len() + e.len() + c.len()) as int] == j);
    lemma_leaf_at_least(args, efl, has_non_literal, node, cmd, matched, cwd, j);
}

/// A command with an argument that holds an expansion its rules do not
/// cover is at least ask (unless a forced decision takes over): the ask is
/// merged with the rest, not short-circuited.
pub proof fn lemma_uncovered_expansion_asks(
    args: Seq<Seq<char>>,
    efl: Seq<bool>,
    node: CommandNode,
    cmd: Seq<char>,
    matched: Seq<char>,
    cwd: Seq<char>,
)
    requires
        node.subcmds is None,
        !spec_expansion_coverage(args, efl, node),
        forced_of(leaf_parts(args, efl, true, node, cmd, cwd).js).len() == 0,
    ensures
        rank(outcome_decision(spec_evaluate_node(args, efl, true, node, cmd, matched, cwd))) >= rank(Decision::Ask),
{
    let pos = spec_positionals(args, node.options);
    let j = jv(Decision::Ask, false, pre(cmd) + "contains uncovered variable expansions"@);
    let parts = leaf_parts(args, efl, true, node, cmd, cwd);
    let f = flags_upto(args, node, pos, cmd, args.len() as int).js;
    let o = options_upto(args, node, pos, cmd, args.len() as int).js;
    assert(parts.js[(f.len() + o.len()) as int] == j);
    lemma_leaf_at_least(args, efl, true, node, cmd, matched, cwd, j);
}

/// A file a content check names that could not be read, or was not read,
/// gets the check's `onUnreadable` decision.
pub proof fn lemma_unreadable_file_gets_on_unreadable(
    check: FileCheck,
    path: Seq<char>,
    fa: FileAccessView,
    cwd: Seq<char>,
    files: FilesView,
)
    requires
        !(file_read(files, path) matches Some(Ok(_))),
    ensures
        content_check(Some(check), path).pcs.len() == 1,
        path_result(content_check(Some(check), path).pcs[0], fa, cwd, files).0 == check.on_unreadable,
{
}


// ---------------------------------------------------------------------------
// Patches
// ---------------------------------------------------------------------------

proof fn lemma_split_lines_nonempty(s: Seq<char>)
    ensures
        split_lines(s).len() >= 1,
    decreases s.len(),
{
    if s.len() > 0 {
        lemma_split_lines_nonempty(s.drop_last());
    }
}

proof fn lemma_trim_start_push(w: Seq<char>, c: char)
    requires
        is_white(c),
    ensures
        trim_start(w.push(c)) == if trim_start(w).len() == 0 { Seq::<char>::empty() } else { trim_start(w).push(c) },
    decreases w.len(),
{
    if w.len() == 0 {
        assert(w.push(c) =~= seq![c]);
        assert(seq![c].drop_first() =~= Seq::<char>::empty());
        assert(trim_start(Seq::<char>::empty()) == Seq::<char>::empty());
        assert(trim_start(seq![c]) == trim_start(Seq::<char>::empty()));
    } else if is_white(w[0]) {
        assert(w.push(c)[0] == w[0]);
        assert(w.push(c).drop_first() =~= w.drop_first().push(c));
        lemma_trim_start_push(w.drop_first(), c);
    } else {
        assert(w.push(c)[0] == w[0]);
    }
}

proof fn lemma_trimmed_drop_white(w: Seq<char>, c: char)
    requires
        is_white(c),
    ensures
        trimmed(w.push(c)) == trimmed(w),
{
    lemma_trim_start_push(w, c);
    let t = trim_start(w);
    if t.len() > 0 {
        assert(t.push(c).drop_last() =~= t);
    }
}

proof fn lemma_header_path_cr(l: Seq<char>)
    requires
        l.len() > 0,
        l.last() == '\r',
    ensures
        header_path(l.drop_last()) == header_path(l),
{
    assert(l.drop_last().push('\r') =~= l);
    lemma_trimmed_drop_white(l.drop_last(), '\r');
}

proof fn lemma_header_paths_same(a: Seq<Seq<char>>, b: Seq<Seq<char>>)
    requires
        a.len() == b.len(),
        forall|i: int| 0 <= i < a.len() ==> header_path(#[trigger] a[i]) == header_path(b[i]),
    ensures
        header_paths(a) == header_paths(b),
    decreases a.len(),
{
    if a.len() > 0 {
        assert forall|i: int| 0 <= i < a.len() - 1 implies header_path(#[trigger] a.drop_last()[i]) == header_path(b.drop_last()[i]) by {
            assert(a.drop_last()[i] == a[i]);
            assert(b.drop_last()[i] == b[i]);
        }
        lemma_header_paths_same(a.drop_last(), b.drop_last());
        assert(header_path(a[a.len() - 1]) == header_path(b[b.len() - 1]));
    }
}

/// The paths a patch names are those of its header lines as `str::lines`
/// splits it: each line, trimmed, that starts with `*** Add File:`,
/// `*** Update File:`, `*** Delete File:` or `*** Move to:` and names a
/// non-empty path, in order, duplicates kept.
pub proof fn lemma_patch_paths_by_lines(patch: Seq<char>)
    ensures
        patch_paths(patch) == header_paths(std_lines(patch)),
{
    let p = split_lines(patch);
    lemma_split_lines_nonempty(patch);
    let body = if p.last().len() == 0 { p.drop_last() } else { p };
    if p.last().len() == 0 {
        reveal_strlit("*** Add File:");
        reveal_strlit("*** Update File:");
        reveal_strlit("*** Delete File:");
        reveal_strlit("*** Move to:");
        assert(trimmed(p.last()) =~= Seq::<char>::empty());
        assert(header_path(p.last()) is None);
        assert(header_paths(p) == header_paths(body));
    }
    let lines = std_lines(patch);
    assert forall|i: int| 0 <= i < body.len() implies header_path(#[trigger] body[i]) == header_path(lines[i]) by {
        if i < p.len() - 1 && body[i].len() > 0 && body[i].last() == '\r' {
            lemma_header_path_cr(body[i]);
        }
    }
    lemma_header_paths_same(body, lines);
}


// ---------------------------------------------------------------------------
// Named entries
// ---------------------------------------------------------------------------

/// In a well-formed map (distinct names), looking a name up is a map
/// lookup: it finds the one entry with that name, or none when no entry has
/// it.
pub proof fn lemma_distinct_keys_lookup<T>(entries: Seq<(String, T)>, key: Seq<char>)
    requires
        keys_distinct(entries),
    ensures
        forall|i: int| 0 <= i < entries.len() ==> (#[trigger] entries[i].0@ == key <==> key_index(entries, key) == i),
        (forall|i: int| 0 <= i < entries.len() ==> (#[trigger] entries[i]).0@ != key) ==> key_index(entries, key) == -1,
{
    assert forall|i: int| 0 <= i < entries.len() implies (#[trigger] entries[i].0@ == key <==> key_index(entries, key) == i) by {
        if entries[i].0@ == key {
            assert forall|j: int| 0 <= j < i implies entries[j].0@ != key by {
                assert(entries[j].0@ != entries[i].0@);
            }
            assert(key_at(entries, key, i));
            let k = key_index(entries, key);
            assert(key_at(entries, key, k));
            if k != i {
                if k < i {
                    assert(entries[k].0@ != entries[i].0@);
                } else {
                    assert(entries[i].0@ != entries[k].0@);
                }
            }
        }
    }
}


// ---------------------------------------------------------------------------
// Wrappers, subcommands, options and words
// ---------------------------------------------------------------------------

/// A wrapper's own `--option=value` argument is consumed like its other
/// flags and options: scanning from it gives what scanning from the next
/// argument gives.
pub proof fn lemma_wrapper_option_eq_consumed(
    args: Seq<Seq<char>>,
    node: CommandNode,
    o: WildcardMap<OptionEntry>,
    j: int,
    name: Seq<char>,
    value: Seq<char>,
)
    requires
        node.options == Some(o),
        0 <= j < args.len(),
        !(node.flags matches Some(f) && has_force_flag(f, args[j])),
        spec_lookup(args[j], o) is None,
        spec_split_option_eq(args[j]) == Some((name, value)),
        spec_lookup(name, o) is Some,
    ensures
        consumed(args, node, j) == consumed(args, node, j + 1),
{
    if args[j] == "--"@ {
        reveal_strlit("--");
        assert(index_of(args[j], '=') >= 0);
        let i = choose|i: int| first_at(args[j], '=', i);
        assert(args[j][i] == '=');
        assert(false);
    }
}

/// Stripping a wrapper with one positional to skip, written with an
/// `--option=value` of its own (`timeout --signal=KILL 5 dd`): the wrapper,
/// the option and the skipped argument are all dropped, and stripping goes
/// on from the argument after them.
pub proof fn lemma_strip_wrapper_with_option_eq(
    args: Seq<Seq<char>>,
    rules: BashRules,
    o: WildcardMap<OptionEntry>,
    name: Seq<char>,
    value: Seq<char>,
)
    requires
        args.len() > 3,
        0 <= key_index(rules.commands@, args[0]) < rules.commands@.len(),
        rules.commands@[key_index(rules.commands@, args[0])].1.is_wrapper,
        rules.commands@[key_index(rules.commands@, args[0])].1.skip_positional == 1,
        rules.commands@[key_index(rules.commands@, args[0])].1.options == Some(o),
        !(rules.commands@[key_index(rules.commands@, args[0])].1.flags matches Some(f) && (has_force_flag(f, args[1])
            || has_force_flag(f, args[2]))),
        spec_lookup(args[1], o) is None,
        spec_split_option_eq(args[1]) == Some((name, value)),
        spec_lookup(name, o) is Some,
        !starts_dash(args[2]),
        args[2] != "--"@,
    ensures
        strip_from(args, rules, 0) == strip_from(args, rules, 3),
{
    let node = rules.commands@[key_index(rules.commands@, args[0])].1;
    lemma_wrapper_option_eq_consumed(args, node, o, 1, name, value);
    lemma_consumed_bounds(args, node, 1);
}

/// A decision collected before a subcommand is never relaxed: without
/// forced judgments, the outcome of a command with a matched subcommand is
/// at least as strict as each judgment of the flags and options before the
/// subcommand, and as the subcommand's own outcome, whether that outcome is
/// decided or asks for path checks.
pub proof fn lemma_pre_subcommand_never_relaxed(
    args: Seq<Seq<char>>,
    efl: Seq<bool>,
    has_non_literal: bool,
    node: CommandNode,
    cmd: Seq<char>,
    matched: Seq<char>,
    cwd: Seq<char>,
)
    requires
        node.subcmds is Some,
        spec_positionals(args, node.options).len() > 0,
        0 <= key_index(node.subcmds->0.entries@, args[spec_positionals(args, node.options)[0]])
            < node.subcmds->0.entries@.len(),
        forced_of(pre_from(args, spec_positionals(args, node.options)[0], node, cmd, 1).js).len() == 0,
    ensures
        ({
            let idx = spec_positionals(args, node.options)[0];
            let pre_js = pre_from(args, idx, node, cmd, 1).js;
            let k = key_index(node.subcmds->0.entries@, args[idx]);
            let sub = spec_evaluate_node(
                seq![args[0]] + args.skip(idx + 1),
                seq![efl[0]] + efl.skip(idx + 1),
                has_non_literal,
                node.subcmds->0.entries@[k].1,
                cmd,
                "subcmd '"@ + args[idx] + "'"@,
                cwd,
            );
            let out = outcome_decision(spec_evaluate_node(args, efl, has_non_literal, node, cmd, matched, cwd));
            &&& forall|i: int| 0 <= i < pre_js.len() ==> rank(#[trigger] pre_js[i].decision) <= rank(out)
            &&& rank(outcome_decision(sub)) <= rank(out)
        }),
{
    let idx = spec_positionals(args, node.options)[0];
    let pre_c = pre_from(args, idx, node, cmd, 1);
    let k = key_index(node.subcmds->0.entries@, args[idx]);
    let sub = spec_evaluate_node(
        seq![args[0]] + args.skip(idx + 1),
        seq![efl[0]] + efl.skip(idx + 1),
        has_non_literal,
        node.subcmds->0.entries@[k].1,
        cmd,
        "subcmd '"@ + args[idx] + "'"@,
        cwd,
    );
    if !(pre_c.js.len() == 0 && pre_c.pcs.len() == 0) {
        let x = jv(outcome_decision(sub), false, crate::hook::outcome_reason(sub));
        let all = pre_c.js.push(x);
        assert(all.drop_last() =~= pre_c.js);
        assert(forced_of(all) == forced_of(pre_c.js));
        lemma_forced_judgments_win(all);
        assert(all[all.len() - 1] == x);
        assert forall|i: int| 0 <= i < pre_c.js.len() implies rank(#[trigger] pre_c.js[i].decision) <= rank(
            spec_merge_judgments(all).decision,
        ) by {
            assert(all[i] == pre_c.js[i]);
        }
    }
}

proof fn lemma_targets_same_values(def: PositionalDef, args: Seq<Seq<char>>, pos: Seq<int>, args2: Seq<Seq<char>>, pos2: Seq<int>)
    requires
        pos.len() == pos2.len(),
        forall|k: int| 0 <= k < pos.len() ==> args[#[trigger] pos[k]] == args2[pos2[k]],
    ensures
        targets(def, args, pos) == targets(def, args2, pos2),
{
    let a = targets(def, args, pos);
    let b = targets(def, args2, pos2);
    assert(a.len() == b.len());
    assert forall|i: int| 0 <= i < a.len() implies a[i] == b[i] by {
        match def {
            PositionalDef::Array(es) => {
                if i < pos.len() {
                    assert(args[pos[i]] == args2[pos2[i]]);
                }
            },
            PositionalDef::Single(e) => {
                assert(args[pos[i]] == args2[pos2[i]]);
            },
        }
    }
    assert(a =~= b);
}

/// An option contributes the same in its two written forms: `n=v` as one
/// argument and `n v` as two give the same value judgments, content check
/// and positional overlay, when both commands have the same positional
/// arguments.
pub proof fn lemma_option_forms_agree(
    args: Seq<Seq<char>>,
    pos: Seq<int>,
    i: int,
    args2: Seq<Seq<char>>,
    pos2: Seq<int>,
    i2: int,
    node: CommandNode,
    o: WildcardMap<OptionEntry>,
    cmd: Seq<char>,
    name: Seq<char>,
    value: Seq<char>,
)
    requires
        node.options == Some(o),
        0 <= i < args.len(),
        spec_lookup(args[i], o) is None,
        spec_split_option_eq(args[i]) == Some((name, value)),
        spec_lookup(name, o) is Some,
        0 <= i2,
        i2 + 1 < args2.len(),
        args2[i2] == name,
        args2[i2 + 1] == value,
        starts_dash(name),
        pos.len() == pos2.len(),
        forall|k: int| 0 <= k < pos.len() ==> args[#[trigger] pos[k]] == args2[pos2[k]],
    ensures
        option_at(args, node, pos, cmd, i) == option_at(args2, node, pos2, cmd, i2),
{
    let e = spec_lookup(name, o)->0;
    if e.positional is Some {
        let kk = key_index(e.positional->0.entries@, decimal(pos.len()));
        if 0 <= kk {
            lemma_targets_same_values(e.positional->0.entries@[kk].1, args, pos, args2, pos2);
        }
        if e.positional->0.wildcard is Some {
            lemma_targets_same_values(*e.positional->0.wildcard->0, args, pos, args2, pos2);
        }
    }
}

proof fn lemma_part_flag(items: Seq<(Seq<char>, Seq<char>, nat)>, m: int, in_string: bool)
    requires
        0 <= m < items.len(),
    ensures
        (if in_string && items[m].0 == "\""@ {
            false
        } else if in_string && items[m].0 == "string_content"@ {
            false
        } else if in_string && is_expansion_kind(items[m].0) {
            true
        } else {
            word_of(items, m).1
        }) == word_of(items, m).1,
        is_expansion_kind(items[m].0) ==> word_of(items, m).1,
{
    reveal_strlit("\"");
    reveal_strlit("string_content");
    reveal_strlit("word");
    reveal_strlit("command_name");
    reveal_strlit("concatenation");
    reveal_strlit("raw_string");
    reveal_strlit("string");
    reveal_strlit("simple_expansion");
    reveal_strlit("expansion");
    reveal_strlit("command_substitution");
    let k = items[m].0;
    if is_expansion_kind(k) {
        assert(k != "word"@ && k != "command_name"@ && k != "concatenation"@ && k != "raw_string"@ && k != "string"@) by {
            if k == "simple_expansion"@ {
                assert(k.len() != "word"@.len() && k.len() != "command_name"@.len() && k.len() != "concatenation"@.len());
                assert(k.len() != "raw_string"@.len() && k.len() != "string"@.len());
            } else if k == "expansion"@ {
                assert(k.len() != "word"@.len() && k.len() != "command_name"@.len() && k.len() != "concatenation"@.len());
                assert(k.len() != "raw_string"@.len() && k.len() != "string"@.len());
            } else {
                assert(k.len() != "word"@.len() && k.len() != "command_name"@.len() && k.len() != "concatenation"@.len());
                assert(k.len() != "raw_string"@.len() && k.len() != "string"@.len());
            }
        }
        assert(word_of(items, m) == (Seq::<char>::empty(), true));
    }
    if k == "\""@ || k == "string_content"@ {
        assert(k != "word"@ && k != "command_name"@ && k != "concatenation"@ && k != "raw_string"@ && k != "string"@) by {
            assert(k.len() != "word"@.len() && k.len() != "command_name"@.len() && k.len() != "concatenation"@.len());
            assert(k.len() != "raw_string"@.len() && k.len() != "string"@.len());
        }
        assert(!is_expansion_kind(k)) by {
            assert(k.len() != "simple_expansion"@.len() && k.len() != "expansion"@.len() && k.len() != "command_substitution"@.len());
        }
        assert(word_of(items, m) == (items[m].1, false));
    }
}

proof fn lemma_children_nonliteral(items: Seq<(Seq<char>, Seq<char>, nat)>, parent: int, m: int, in_string: bool)
    requires
        0 <= parent < m,
        forall|q: int| parent < q < m && q < items.len() ==> items[q].2 > items[parent].2,
    ensures
        children_text(items, parent, m, in_string).1 <==> exists|c: int|
            m <= c && in_subtree(items, parent, c) && items[c].2 == items[parent].2 + 1 && #[trigger] word_of(items, c).1,
    decreases items.len() - m,
{
    let cond = exists|c: int|
        m <= c && in_subtree(items, parent, c) && items[c].2 == items[parent].2 + 1 && #[trigger] word_of(items, c).1;
    if m >= items.len() || items[m].2 <= items[parent].2 {
        if cond {
            let c = choose|c: int|
                m <= c && in_subtree(items, parent, c) && items[c].2 == items[parent].2 + 1 && #[trigger] word_of(items, c).1;
            assert(items[m].2 > items[parent].2);
        }
    } else {
        lemma_children_nonliteral(items, parent, m + 1, in_string);
        lemma_part_flag(items, m, in_string);
        let rest_cond = exists|c: int|
            m + 1 <= c && in_subtree(items, parent, c) && items[c].2 == items[parent].2 + 1 && #[trigger] word_of(items, c).1;
        if items[m].2 == items[parent].2 + 1 {
            assert(in_subtree(items, parent, m));
            if cond && !word_of(items, m).1 {
                let c = choose|c: int|
                    m <= c && in_subtree(items, parent, c) && items[c].2 == items[parent].2 + 1 && #[trigger] word_of(items, c).1;
                assert(c != m);
                assert(rest_cond);
            }
            if rest_cond {
                let c = choose|c: int|
                    m + 1 <= c && in_subtree(items, parent, c) && items[c].2 == items[parent].2 + 1 && #[trigger] word_of(items, c).1;
                assert(cond);
            }
        } else {
            if cond {
                let c = choose|c: int|
                    m <= c && in_subtree(items, parent, c) && items[c].2 == items[parent].2 + 1 && #[trigger] word_of(items, c).1;
                assert(c != m);
                assert(rest_cond);
            }
            if rest_cond {
                let c = choose|c: int|
                    m + 1 <= c && in_subtree(items, parent, c) && items[c].2 == items[parent].2 + 1 && #[trigger] word_of(items, c).1;
                assert(cond);
            }
        }
    }
}

/// `c` lies in the subtree of `parent`: after it, with only deeper nodes in
/// between.
pub open spec fn in_subtree(items: Seq<(Seq<char>, Seq<char>, nat)>, parent: int, c: int) -> bool {
    &&& 0 <= parent < c < items.len()
    &&& forall|q: int| parent < q <= c ==> items[q].2 > items[parent].2
}

/// An argument built of parts (a concatenation, a word or command name with
/// children, a quoted string) is non-literal exactly when one of its
/// direct parts is: an expansion (`$HOME`, `${x}`, `$(...)`) or a part that
/// holds one.  So `$HOME/src` is never taken for the literal `/src`.
pub proof fn lemma_word_nonliteral_iff_part(items: Seq<(Seq<char>, Seq<char>, nat)>, j: int)
    requires
        0 <= j < items.len(),
        items[j].0 == "concatenation"@ || items[j].0 == "string"@ || ((items[j].0 == "word"@ || items[j].0
            == "command_name"@) && has_child(items, j)),
    ensures
        word_of(items, j).1 <==> exists|c: int|
            in_subtree(items, j, c) && items[c].2 == items[j].2 + 1 && #[trigger] word_of(items, c).1,
        forall|c: int|
            in_subtree(items, j, c) && items[c].2 == items[j].2 + 1 && is_expansion_kind(#[trigger] items[c].0)
                ==> word_of(items, j).1,
{
    reveal_strlit("concatenation");
    reveal_strlit("string");
    reveal_strlit("word");
    reveal_strlit("command_name");
    reveal_strlit("raw_string");
    let k = items[j].0;
    assert("string"@.len() != "word"@.len() && "string"@.len() != "command_name"@.len());
    assert("string"@.len() != "concatenation"@.len() && "string"@.len() != "raw_string"@.len());
    assert("concatenation"@.len() != "word"@.len() && "concatenation"@.len() != "command_name"@.len());
    assert("word"@.len() != "command_name"@.len());
    assert(word_of(items, j) == children_text(items, j, j + 1, k == "string"@));
    lemma_children_nonliteral(items, j, j + 1, k == "string"@);
    assert forall|c: int|
        in_subtree(items, j, c) && items[c].2 == items[j].2 + 1 && is_expansion_kind(#[trigger] items[c].0)
            implies word_of(items, j).1 by {
        lemma_part_flag(items, c, false);
    }
}

} // verus!
