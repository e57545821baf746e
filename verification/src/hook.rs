//! From a hook event and the rules to the hook's answer: dispatch by tool,
//! the shell command pipeline (commands, redirects, path checks, merge),
//! and the answer in the caller's protocol.

use vstd::prelude::*;
use vstd::string::*;
use crate::decision::{
    decision_name, decision_phrase, merge, spec_merge, Condition, ConditionalBranch, ConditionalDecisionNode,
    Decision, DecisionNode, EvalOutcome, EvalResult, PathCheck, PathCheckView, check_views,
};
use crate::bash::{
    all_well_formed, bash_syntax_nodes, command_views, parse, spec_commands, spec_redirects, ExtractedCommand, ParseError,
    WriteRedirect,
};
use crate::input::{patch_paths, string_views, tool_name, ApplyPatchInput, BashInput, HookInput, ToolInput};
use crate::decision::{condition_word, StaticDecisionNode};
use crate::evaluate::{
    contents_judgment, evaluate_command, judge_contents, spec_evaluate_command, spec_strip, strip_wrappers,
};
use crate::rules::{find_key, get_entry, key_index, BashRules, Rules};
use crate::path::{
    file_read, file_views, find_read, resolve_conditional, spec_resolve, CompiledFileAccess, FileAccessView, FileCheckRead,
};
use crate::text::{contains_str, join, join_strings, str_equal, views};

verus! {

// ---------------------------------------------------------------------------
// Output
// ---------------------------------------------------------------------------

pub struct HookSpecificOutput {
    pub hook_event_name: String,
    pub permission_decision: String,
    pub permission_decision_reason: String,
}

/// The hook's answer in the agent's hook protocol.
pub struct HookOutput {
    pub hook_specific_output: HookSpecificOutput,
}

impl View for HookOutput {
    /// Event name, decision name, reason.
    type V = (Seq<char>, Seq<char>, Seq<char>);

    open spec fn view(&self) -> (Seq<char>, Seq<char>, Seq<char>) {
        (
            self.hook_specific_output.hook_event_name@,
            self.hook_specific_output.permission_decision@,
            self.hook_specific_output.permission_decision_reason@,
        )
    }
}

/// The answer that carries `decision` with `reason`.
pub open spec fn answer(decision: Decision, reason: Seq<char>) -> (Seq<char>, Seq<char>, Seq<char>) {
    ("PreToolUse"@, decision_name(decision), reason)
}

/// The answer for a decision and its reason.
pub fn create_response(decision: Decision, reason: &str) -> (r: HookOutput)
    ensures
        r@ == answer(decision, reason@),
{
    HookOutput {
        hook_specific_output: HookSpecificOutput {
            hook_event_name: String::from_str("PreToolUse"),
            permission_decision: String::from_str(decision.as_str()),
            permission_decision_reason: String::from_str(reason),
        },
    }
}

// ---------------------------------------------------------------------------
// Reasons
// ---------------------------------------------------------------------------

/// Decision/reason pairs with their reasons as characters.
pub open spec fn pair_views(pairs: Seq<(Decision, &str)>) -> Seq<(Decision, Seq<char>)> {
    pairs.map_values(|p: (Decision, &str)| (p.0, p.1@))
}

/// The reasons of the pairs.
pub open spec fn pair_reasons(pairs: Seq<(Decision, Seq<char>)>) -> Seq<Seq<char>> {
    pairs.map_values(|p: (Decision, Seq<char>)| p.1)
}

/// The reasons of the pairs whose decision is not allow, in order.
pub open spec fn attention_reasons(pairs: Seq<(Decision, Seq<char>)>) -> Seq<Seq<char>>
    decreases pairs.len(),
{
    if pairs.len() == 0 {
        Seq::empty()
    } else if pairs.last().0 != Decision::Allow {
        attention_reasons(pairs.drop_last()).push(pairs.last().1)
    } else {
        attention_reasons(pairs.drop_last())
    }
}

/// The reason shown for a final decision: all reasons joined with `"; "`,
/// except that for a decision other than allow only the reasons of
/// non-allow decisions are shown, when there are any.
pub open spec fn spec_join_reasons(final_decision: Decision, pairs: Seq<(Decision, Seq<char>)>) -> Seq<char> {
    if final_decision == Decision::Allow || attention_reasons(pairs).len() == 0 {
        join(pair_reasons(pairs), "; "@)
    } else {
        join(attention_reasons(pairs), "; "@)
    }
}

/// Join reason fragments, filtering out Allow-decision fragments when the
/// final decision is not Allow, so that only what needs attention is shown.
pub fn join_reasons(final_decision: Decision, pairs: &[(Decision, &str)]) -> (r: String)
    ensures
        r@ == spec_join_reasons(final_decision, pair_views(pairs@)),
{
    let ghost pv = pair_views(pairs@);
    let mut all: Vec<String> = Vec::new();
    let mut filtered: Vec<String> = Vec::new();
    let mut i: usize = 0;
    while i < pairs.len()
        invariant
            i <= pairs@.len(),
            pv == pair_views(pairs@),
            views(all@) == pair_reasons(pv.take(i as int)),
            views(filtered@) == attention_reasons(pv.take(i as int)),
        decreases pairs.len() - i,
    {
        let ghost before_all = all@;
        let ghost before_filtered = filtered@;
        let (d, reason) = pairs[i];
        assert(pv.take(i + 1).drop_last() =~= pv.take(i as int));
        assert(pv.take(i + 1).last() == (d, reason@));
        all.push(String::from_str(reason));
        assert(views(all@) =~= views(before_all).push(reason@));
        assert(pair_reasons(pv.take(i + 1)) =~= pair_reasons(pv.take(i as int)).push(reason@));
        match d {
            Decision::Allow => {},
            _ => {
                filtered.push(String::from_str(reason));
                assert(views(filtered@) =~= views(before_filtered).push(reason@));
            },
        }
        i = i + 1;
    }
    assert(pv.take(pairs@.len() as int) =~= pv);
    if final_decision == Decision::Allow || filtered.len() == 0 {
        join_strings(all.as_slice(), "; ")
    } else {
        join_strings(filtered.as_slice(), "; ")
    }
}

/// The decision an evaluation outcome contributes to the merge.
pub open spec fn outcome_decision(o: EvalOutcome) -> Decision {
    match o {
        EvalOutcome::Decided { decision, .. } => decision,
        EvalOutcome::CheckPaths { base_decision, .. } => base_decision,
    }
}

/// The reason of an evaluation outcome.
pub open spec fn outcome_reason(o: EvalOutcome) -> Seq<char> {
    match o {
        EvalOutcome::Decided { reason, .. } => reason,
        EvalOutcome::CheckPaths { reason, .. } => reason,
    }
}

/// The path checks an evaluation outcome asks for.
pub open spec fn outcome_checks(o: EvalOutcome) -> Seq<PathCheckView> {
    match o {
        EvalOutcome::Decided { .. } => Seq::empty(),
        EvalOutcome::CheckPaths { path_checks, .. } => path_checks,
    }
}

/// The views of evaluation results.
pub open spec fn outcome_views(v: Seq<EvalResult>) -> Seq<EvalOutcome> {
    v.map_values(|r: EvalResult| r@)
}

/// The (decision, reason) pairs of the outcomes that have a reason.
pub open spec fn reason_pairs(outs: Seq<EvalOutcome>) -> Seq<(Decision, Seq<char>)>
    decreases outs.len(),
{
    if outs.len() == 0 {
        Seq::empty()
    } else if outcome_reason(outs.last()).len() > 0 {
        reason_pairs(outs.drop_last()).push((outcome_decision(outs.last()), outcome_reason(outs.last())))
    } else {
        reason_pairs(outs.drop_last())
    }
}

/// Collect (decision, reason) pairs from eval results.
pub fn collect_eval_reason_pairs(results: &[EvalResult]) -> (r: Vec<(Decision, &str)>)
    ensures
        pair_views(r@) == reason_pairs(outcome_views(results@)),
{
    let ghost outs = outcome_views(results@);
    let mut out: Vec<(Decision, &str)> = Vec::new();
    let mut i: usize = 0;
    while i < results.len()
        invariant
            i <= results@.len(),
            outs == outcome_views(results@),
            pair_views(out@) == reason_pairs(outs.take(i as int)),
        decreases results.len() - i,
    {
        let ghost before = out@;
        assert(outs.take(i + 1).drop_last() =~= outs.take(i as int));
        assert(outs.take(i + 1).last() == results@[i as int]@);
        let (decision, reason) = match &results[i] {
            EvalResult::Decided { decision, reason } => (*decision, reason.as_str()),
            EvalResult::CheckPaths { base_decision, reason, .. } => (*base_decision, reason.as_str()),
        };
        if !reason.is_empty() {
            out.push((decision, reason));
            assert(pair_views(out@) =~= pair_views(before).push((decision, reason@)));
        }
        i = i + 1;
    }
    assert(outs.take(results@.len() as int) =~= outs);
    out
}

// ---------------------------------------------------------------------------
// Path checks
// ---------------------------------------------------------------------------

/// The check every write redirect gets: writable -> allow, else readable ->
/// ask, else deny.
pub open spec fn redirect_node() -> DecisionNode {
    DecisionNode::Conditional(
        Box::new(
            ConditionalDecisionNode {
                condition: Condition::Writable,
                then_decision: ConditionalBranch::Static(Decision::Allow),
                else_decision: ConditionalBranch::Nested(
                    Box::new(
                        ConditionalDecisionNode {
                            condition: Condition::Readable,
                            then_decision: ConditionalBranch::Static(Decision::Ask),
                            else_decision: ConditionalBranch::Static(Decision::Deny),
                        },
                    ),
                ),
            },
        ),
    )
}

/// The path check of a write redirect to `path`.
pub open spec fn redirect_check(path: Seq<char>) -> PathCheckView {
    PathCheckView { path, decision: redirect_node(), force: false, contents: None }
}

/// The path checks of write redirects.
pub open spec fn redirect_checks(targets: Seq<Seq<char>>) -> Seq<PathCheckView> {
    targets.map_values(|p: Seq<char>| redirect_check(p))
}

/// The targets of write redirects.
pub open spec fn redirect_targets(v: Seq<WriteRedirect>) -> Seq<Seq<char>> {
    v.map_values(|w: WriteRedirect| w.path@)
}

/// Add writable path checks for shell redirect targets (>, >>).
pub fn add_redirect_checks(redirects: &[WriteRedirect], path_checks: &mut Vec<PathCheck>)
    ensures
        check_views(final(path_checks)@) == check_views(old(path_checks)@) + redirect_checks(
            redirect_targets(redirects@),
        ),
{
    let ghost start = check_views(path_checks@);
    let ghost targets = redirect_targets(redirects@);
    let mut i: usize = 0;
    while i < redirects.len()
        invariant
            i <= redirects@.len(),
            targets == redirect_targets(redirects@),
            check_views(path_checks@) == start + redirect_checks(targets.take(i as int)),
        decreases redirects.len() - i,
    {
        let ghost before = path_checks@;
        let pc = PathCheck {
            path: redirects[i].path.clone(),
            decision: DecisionNode::Conditional(
                Box::new(
                    ConditionalDecisionNode {
                        condition: Condition::Writable,
                        then_decision: ConditionalBranch::Static(Decision::Allow),
                        else_decision: ConditionalBranch::Nested(
                            Box::new(
                                ConditionalDecisionNode {
                                    condition: Condition::Readable,
                                    then_decision: ConditionalBranch::Static(Decision::Ask),
                                    else_decision: ConditionalBranch::Static(Decision::Deny),
                                },
                            ),
                        ),
                    },
                ),
            ),
            force: false,
            contents: None,
        };
        path_checks.push(pc);
        assert(check_views(path_checks@) =~= check_views(before).push(redirect_check(targets[i as int])));
        assert(redirect_checks(targets.take(i + 1)) =~= redirect_checks(targets.take(i as int)).push(
            redirect_check(targets[i as int]),
        ));
        i = i + 1;
    }
    assert(targets.take(redirects@.len() as int) =~= targets);
}

/// The files read for content checks, as views.
pub type FilesView = Seq<(Seq<char>, Result<Seq<char>, Seq<char>>)>;

/// The resolved result of a path check: the decision for its path, its
/// force flag, and the reason.  A content check judges the file's contents
/// as read; a file that could not be read, or was not read, gets the
/// check's decision for that case.
pub open spec fn path_result(pc: PathCheckView, fa: FileAccessView, cwd: Seq<char>, files: FilesView) -> (Decision, bool, Seq<char>) {
    let d = spec_resolve(pc.decision, fa, pc.path, cwd);
    match pc.contents {
        None => (d, pc.force, "path '"@ + pc.path + "' "@ + decision_phrase(d)),
        Some(values) => match file_read(files, pc.path) {
            Some(Ok(text)) => {
                let j = contents_judgment(values, pc.path, text, fa, cwd);
                (j.decision, j.force, j.reason)
            },
            Some(Err(why)) => (d, pc.force, "file '"@ + pc.path + "' is unreadable: "@ + why),
            None => (d, pc.force, "file '"@ + pc.path + "' was not read"@),
        },
    }
}

/// The resolved results of path checks, in order.
pub open spec fn resolved(pcs: Seq<PathCheckView>, fa: FileAccessView, cwd: Seq<char>, files: FilesView) -> Seq<(Decision, bool, Seq<char>)> {
    pcs.map_values(|pc: PathCheckView| path_result(pc, fa, cwd, files))
}

/// Path results with their reasons as characters.
pub open spec fn result_views(v: Seq<(Decision, bool, String)>) -> Seq<(Decision, bool, Seq<char>)> {
    v.map_values(|x: (Decision, bool, String)| (x.0, x.1, x.2@))
}

fn resolve_one(pc: &PathCheck, fa: &CompiledFileAccess, cwd: &str, files: &[(String, FileCheckRead)]) -> (r: (
    Decision,
    bool,
    String,
))
    ensures
        (r.0, r.1, r.2@) == path_result(pc@, fa@, cwd@, file_views(files@)),
{
    let d = match resolve_conditional(&pc.decision, pc.path.as_str(), fa, cwd) {
        Ok(d) => d,
        Err(_) => {
            assert(false);
            Decision::Ask
        },
    };
    match &pc.contents {
        None => {
            let mut reason = String::from_str("path '");
            reason.append(pc.path.as_str());
            reason.append("' ");
            reason.append(d.description());
            (d, pc.force, reason)
        },
        Some(values) => match find_read(files, pc.path.as_str()) {
            Some(k) => match &files[k].1 {
                FileCheckRead::Contents(text) => judge_contents(values, pc.path.as_str(), text.as_str(), fa, cwd),
                FileCheckRead::Unreadable(why) => {
                    let mut reason = String::from_str("file '");
                    reason.append(pc.path.as_str());
                    reason.append("' is unreadable: ");
                    reason.append(why.as_str());
                    (d, pc.force, reason)
                },
            },
            None => {
                let mut reason = String::from_str("file '");
                reason.append(pc.path.as_str());
                reason.append("' was not read");
                (d, pc.force, reason)
            },
        },
    }
}

/// Resolve path checks against file-access glob patterns, and content
/// checks against the files read for them.
pub fn resolve_path_checks(
    path_checks: &[PathCheck],
    fa: &CompiledFileAccess,
    cwd: &str,
    files: &[(String, FileCheckRead)],
) -> (r: Vec<(Decision, bool, String)>)
    ensures
        result_views(r@) == resolved(check_views(path_checks@), fa@, cwd@, file_views(files@)),
{
    let ghost pcs = check_views(path_checks@);
    let ghost fv = file_views(files@);
    let mut results: Vec<(Decision, bool, String)> = Vec::new();
    let mut i: usize = 0;
    while i < path_checks.len()
        invariant
            i <= path_checks@.len(),
            pcs == check_views(path_checks@),
            fv == file_views(files@),
            result_views(results@) == resolved(pcs.take(i as int), fa@, cwd@, fv),
        decreases path_checks.len() - i,
    {
        let ghost before = results@;
        let pc = &path_checks[i];
        assert(pcs[i as int] == pc@);
        let (d, force, reason) = resolve_one(pc, fa, cwd, files);
        results.push((d, force, reason));
        assert(result_views(results@) =~= result_views(before).push(path_result(pcs[i as int], fa@, cwd@, fv)));
        assert(resolved(pcs.take(i + 1), fa@, cwd@, fv) =~= resolved(pcs.take(i as int), fa@, cwd@, fv).push(
            path_result(pcs[i as int], fa@, cwd@, fv),
        ));
        i = i + 1;
    }
    assert(pcs.take(path_checks@.len() as int) =~= pcs);
    results
}

/// The forced path results, in order.
pub open spec fn forced_results(prs: Seq<(Decision, bool, Seq<char>)>) -> Seq<(Decision, bool, Seq<char>)>
    decreases prs.len(),
{
    if prs.len() == 0 {
        prs
    } else if prs.last().1 {
        forced_results(prs.drop_last()).push(prs.last())
    } else {
        forced_results(prs.drop_last())
    }
}

/// All results of the list have the decision of the first.
pub open spec fn results_agree(f: Seq<(Decision, bool, Seq<char>)>) -> bool {
    forall|k: int| 0 <= k < f.len() ==> (#[trigger] f[k]).0 == f[0].0
}

/// The decision and reason from the commands' outcomes, their plain
/// decisions and the resolved path results.  Forced path results take
/// priority: when they all agree theirs is the decision, else ask.
/// Otherwise all decisions merge (deny > ask > allow).
pub open spec fn spec_merge_paths(
    outs: Seq<EvalOutcome>,
    plain: Seq<Decision>,
    prs: Seq<(Decision, bool, Seq<char>)>,
) -> (Decision, Seq<char>) {
    let forced = forced_results(prs);
    let forced_reasons = join(forced.map_values(|x: (Decision, bool, Seq<char>)| x.2), "; "@);
    if forced.len() > 0 {
        if results_agree(forced) {
            (forced[0].0, forced_reasons)
        } else {
            (Decision::Ask, "conflicting forced path decisions: "@ + forced_reasons)
        }
    } else {
        let merged = spec_merge(plain + prs.map_values(|x: (Decision, bool, Seq<char>)| x.0));
        (
            merged,
            spec_join_reasons(
                merged,
                reason_pairs(outs) + prs.map_values(|x: (Decision, bool, Seq<char>)| (x.0, x.2)),
            ),
        )
    }
}

/// Merge plain decisions with resolved path results into a final response.
pub fn merge_with_path_results(
    results: &[EvalResult],
    all_plain: &[Decision],
    path_results: &[(Decision, bool, String)],
) -> (r: HookOutput)
    ensures
        ({
            let (d, reason) = spec_merge_paths(outcome_views(results@), all_plain@, result_views(path_results@));
            r@ == answer(d, reason)
        }),
{
    let ghost prs = result_views(path_results@);
    // Forced path results take priority.
    let mut forced_reasons: Vec<String> = Vec::new();
    let mut forced_decisions: Vec<Decision> = Vec::new();
    let mut i: usize = 0;
    while i < path_results.len()
        invariant
            i <= path_results@.len(),
            prs == result_views(path_results@),
            forced_reasons@.len() == forced_decisions@.len(),
            views(forced_reasons@) == forced_results(prs.take(i as int)).map_values(
                |x: (Decision, bool, Seq<char>)| x.2,
            ),
            forced_decisions@ == forced_results(prs.take(i as int)).map_values(
                |x: (Decision, bool, Seq<char>)| x.0,
            ),
        decreases path_results.len() - i,
    {
        assert(prs.take(i + 1).drop_last() =~= prs.take(i as int));
        assert(prs.take(i + 1).last() == prs[i as int]);
        let (d, force, reason) = &path_results[i];
        if *force {
            let ghost before_r = forced_reasons@;
            let ghost before_d = forced_decisions@;
            forced_reasons.push(reason.clone());
            forced_decisions.push(*d);
            assert(views(forced_reasons@) =~= views(before_r).push(reason@));
            assert(forced_results(prs.take(i + 1)) == forced_results(prs.take(i as int)).push(prs[i as int]));
            assert(views(forced_reasons@) =~= forced_results(prs.take(i + 1)).map_values(
                |x: (Decision, bool, Seq<char>)| x.2,
            ));
            assert(forced_decisions@ =~= forced_results(prs.take(i + 1)).map_values(
                |x: (Decision, bool, Seq<char>)| x.0,
            ));
        }
        i = i + 1;
    }
    assert(prs.take(path_results@.len() as int) =~= prs);
    let ghost forced = forced_results(prs);
    if forced_decisions.len() > 0 {
        let first_d = forced_decisions[0];
        let all_reasons = join_strings(forced_reasons.as_slice(), "; ");
        let mut agree = true;
        let mut k: usize = 0;
        while k < forced_decisions.len()
            invariant
                k <= forced_decisions@.len(),
                forced_decisions@ == forced.map_values(|x: (Decision, bool, Seq<char>)| x.0),
                first_d == forced[0].0,
                forced.len() > 0,
                agree == (forall|j: int| 0 <= j < k ==> (#[trigger] forced[j]).0 == forced[0].0),
            decreases forced_decisions.len() - k,
        {
            assert(forced_decisions@[k as int] == forced[k as int].0);
            if forced_decisions[k] != first_d {
                agree = false;
            }
            k = k + 1;
        }
        if agree {
            return create_response(first_d, all_reasons.as_str());
        } else {
            let mut reason = String::from_str("conflicting forced path decisions: ");
            reason.append(all_reasons.as_str());
            return create_response(Decision::Ask, reason.as_str());
        }
    }
    // Combine base decisions with path decisions.
    let mut all_decisions: Vec<Decision> = Vec::new();
    let mut j: usize = 0;
    while j < all_plain.len()
        invariant
            j <= all_plain@.len(),
            all_decisions@ == all_plain@.take(j as int),
        decreases all_plain.len() - j,
    {
        all_decisions.push(all_plain[j]);
        j = j + 1;
        assert(all_decisions@ =~= all_plain@.take(j as int));
    }
    let mut pairs = collect_eval_reason_pairs(results);
    let ghost base_pairs = pair_views(pairs@);
    let mut m: usize = 0;
    while m < path_results.len()
        invariant
            m <= path_results@.len(),
            prs == result_views(path_results@),
            all_decisions@ == all_plain@ + prs.map_values(|x: (Decision, bool, Seq<char>)| x.0).take(m as int),
            pair_views(pairs@) == base_pairs + prs.map_values(|x: (Decision, bool, Seq<char>)| (x.0, x.2)).take(
                m as int,
            ),
        decreases path_results.len() - m,
    {
        let ghost before_d = all_decisions@;
        let ghost before_p = pairs@;
        let (d, _, reason) = &path_results[m];
        all_decisions.push(*d);
        pairs.push((*d, reason.as_str()));
        m = m + 1;
        assert(all_decisions@ =~= all_plain@ + prs.map_values(|x: (Decision, bool, Seq<char>)| x.0).take(
            m as int,
        ));
        assert(pair_views(pairs@) =~= pair_views(before_p).push((*d, reason@)));
        assert(pair_views(pairs@) =~= base_pairs + prs.map_values(|x: (Decision, bool, Seq<char>)| (x.0, x.2)).take(
            m as int,
        ));
    }
    assert(prs.map_values(|x: (Decision, bool, Seq<char>)| x.0).take(path_results@.len() as int)
        =~= prs.map_values(|x: (Decision, bool, Seq<char>)| x.0));
    assert(prs.map_values(|x: (Decision, bool, Seq<char>)| (x.0, x.2)).take(path_results@.len() as int)
        =~= prs.map_values(|x: (Decision, bool, Seq<char>)| (x.0, x.2)));
    let merged = merge(all_decisions.as_slice());
    let reason = join_reasons(merged, pairs.as_slice());
    create_response(merged, reason.as_str())
}

// ---------------------------------------------------------------------------
// Commands
// ---------------------------------------------------------------------------

/// The outcome for one extracted command (its args and expansion flags):
/// a command whose only argument is a globally allowed flag is allowed as
/// written; otherwise wrappers are stripped and the rest is evaluated.
pub open spec fn eval_one(cmd: (Seq<Seq<char>>, Seq<bool>), rules: BashRules, cwd: Seq<char>) -> EvalOutcome {
    let a = cmd.0;
    let e = cmd.1;
    if a.len() == 2 && views(rules.globally_allowed_flags@).contains(a[1]) {
        EvalOutcome::Decided {
            decision: Decision::Allow,
            reason: "'"@ + a[0] + " "@ + a[1] + "' is always allowed"@,
        }
    } else {
        let (sa, se, forced) = spec_strip(a, e, rules);
        spec_evaluate_command(sa, se, se.contains(true), forced, rules, cwd)
    }
}

/// The outcomes of the commands, in order.
pub open spec fn evals(cmds: Seq<(Seq<Seq<char>>, Seq<bool>)>, rules: BashRules, cwd: Seq<char>) -> Seq<EvalOutcome> {
    cmds.map_values(|c: (Seq<Seq<char>>, Seq<bool>)| eval_one(c, rules, cwd))
}

/// The plain decisions of the outcomes.
pub open spec fn plain_decisions(outs: Seq<EvalOutcome>) -> Seq<Decision> {
    outs.map_values(|o: EvalOutcome| outcome_decision(o))
}

/// The path checks of all outcomes, in order.
pub open spec fn all_checks(outs: Seq<EvalOutcome>) -> Seq<PathCheckView>
    decreases outs.len(),
{
    if outs.len() == 0 {
        Seq::empty()
    } else {
        all_checks(outs.drop_last()) + outcome_checks(outs.last())
    }
}

fn any_true(flags: &[bool]) -> (r: bool)
    ensures
        r == flags@.contains(true),
{
    let mut i: usize = 0;
    while i < flags.len()
        invariant
            i <= flags@.len(),
            forall|j: int| 0 <= j < i ==> !flags@[j],
        decreases flags.len() - i,
    {
        if flags[i] {
            assert(flags@[i as int] == true);
            return true;
        }
        i = i + 1;
    }
    false
}

/// Evaluate each parsed command (after stripping wrappers), collecting
/// results and separating path checks from plain decisions.
pub fn evaluate_commands(commands: &[ExtractedCommand], bash_rules: &BashRules, cwd: &str) -> (r: (
    Vec<EvalResult>,
    Vec<Decision>,
    Vec<PathCheck>,
))
    requires
        all_well_formed(commands@),
    ensures
        outcome_views(r.0@) == evals(command_views(commands@), *bash_rules, cwd@),
        r.1@ == plain_decisions(outcome_views(r.0@)),
        check_views(r.2@) == all_checks(outcome_views(r.0@)),
{
    let ghost cmds = command_views(commands@);
    let ghost outs = evals(cmds, *bash_rules, cwd@);
    let mut results: Vec<EvalResult> = Vec::new();
    let mut all_plain: Vec<Decision> = Vec::new();
    let mut all_path_checks: Vec<PathCheck> = Vec::new();
    let mut i: usize = 0;
    while i < commands.len()
        invariant
            i <= commands@.len(),
            all_well_formed(commands@),
            cmds == command_views(commands@),
            outs == evals(cmds, *bash_rules, cwd@),
            outcome_views(results@) == outs.take(i as int),
            all_plain@ == plain_decisions(outs.take(i as int)),
            check_views(all_path_checks@) == all_checks(outs.take(i as int)),
        decreases commands.len() - i,
    {
        let command = &commands[i];
        assert(command.well_formed());
        assert(cmds[i as int] == command@);
        let ghost a = views(command.args@);
        let ghost before_results = results@;
        let ghost before_checks = all_path_checks@;
        // Globally allowed flags are checked on the original args, before
        // wrapper stripping: stripping can consume everything (`timeout
        // --help`).
        let mut allowed_flag = false;
        if command.args.len() == 2 {
            assert(a[1] == command.args@[1]@);
            allowed_flag = contains_str(bash_rules.globally_allowed_flags.as_slice(), command.args[1].as_str());
        }
        let result = if allowed_flag {
            assert(a[0] == command.args@[0]@);
            let mut reason = String::from_str("'");
            reason.append(command.args[0].as_str());
            reason.append(" ");
            reason.append(command.args[1].as_str());
            reason.append("' is always allowed");
            EvalResult::Decided { decision: Decision::Allow, reason }
        } else {
            proof {
                crate::evaluate::lemma_strip_bounds(views(command.args@), *bash_rules, 0);
            }
            let stripped = strip_wrappers(command, bash_rules);
            let has_non_literal = any_true(stripped.expansion_flags.as_slice());
            proof {
                let sa = views(stripped.args@);
                if sa.len() > 0 {
                    let k = key_index(bash_rules.commands@, sa[0]);
                    if 0 <= k < bash_rules.commands@.len() {
                        crate::evaluate::lemma_efl_fits(sa, stripped.expansion_flags@, bash_rules.commands@[k].1);
                    }
                }
            }
            evaluate_command(
                stripped.args.as_slice(),
                stripped.expansion_flags.as_slice(),
                has_non_literal,
                stripped.force_allow,
                bash_rules,
                cwd,
            )
        };
        assert(result@ == outs[i as int]);
        match &result {
            EvalResult::Decided { decision, .. } => {
                all_plain.push(*decision);
            },
            EvalResult::CheckPaths { base_decision, path_checks, .. } => {
                all_plain.push(*base_decision);
                let mut k: usize = 0;
                while k < path_checks.len()
                    invariant
                        k <= path_checks@.len(),
                        check_views(all_path_checks@) == check_views(before_checks) + check_views(
                            path_checks@.take(k as int),
                        ),
                    decreases path_checks.len() - k,
                {
                    let ghost prev = all_path_checks@;
                    all_path_checks.push(path_checks[k].duplicate());
                    assert(check_views(all_path_checks@) =~= check_views(prev).push(path_checks@[k as int]@));
                    assert(check_views(path_checks@.take(k + 1)) =~= check_views(path_checks@.take(k as int)).push(
                        path_checks@[k as int]@,
                    ));
                    k = k + 1;
                }
                assert(path_checks@.take(path_checks@.len() as int) =~= path_checks@);
            },
        }
        results.push(result);
        assert(outs.take(i + 1).drop_last() =~= outs.take(i as int));
        assert(outs.take(i + 1).last() == outs[i as int]);
        assert(outcome_views(results@) =~= outs.take(i + 1));
        assert(plain_decisions(outs.take(i + 1)) =~= plain_decisions(outs.take(i as int)).push(
            outcome_decision(outs[i as int]),
        ));
        i = i + 1;
    }
    assert(outs.take(commands@.len() as int) =~= outs);
    (results, all_plain, all_path_checks)
}

// ---------------------------------------------------------------------------
// The shell tool
// ---------------------------------------------------------------------------

/// The decision and reason for a shell command made of the extracted
/// commands and write redirect targets.  Any denied command denies; else
/// path checks (the commands' and the redirects') are resolved and merged
/// with the commands' decisions; else the decisions merge.
pub open spec fn bash_answer(
    cmds: Seq<(Seq<Seq<char>>, Seq<bool>)>,
    redirects: Seq<Seq<char>>,
    rules: BashRules,
    fa: FileAccessView,
    cwd: Seq<char>,
    files: FilesView,
) -> (Decision, Seq<char>) {
    let outs = evals(cmds, rules, cwd);
    let plain = plain_decisions(outs);
    let checks = all_checks(outs) + redirect_checks(redirects);
    if plain.contains(Decision::Deny) {
        (Decision::Deny, spec_join_reasons(Decision::Deny, reason_pairs(outs)))
    } else if checks.len() > 0 {
        spec_merge_paths(outs, plain, resolved(checks, fa, cwd, files))
    } else if plain.len() > 0 {
        let merged = spec_merge(plain);
        (merged, spec_join_reasons(merged, reason_pairs(outs)))
    } else {
        (Decision::Ask, "no commands to evaluate"@)
    }
}

fn contains_deny(ds: &[Decision]) -> (r: bool)
    ensures
        r == ds@.contains(Decision::Deny),
{
    let mut i: usize = 0;
    while i < ds.len()
        invariant
            i <= ds@.len(),
            forall|j: int| 0 <= j < i ==> ds@[j] != Decision::Deny,
        decreases ds.len() - i,
    {
        if ds[i] == Decision::Deny {
            assert(ds@[i as int] == Decision::Deny);
            return true;
        }
        i = i + 1;
    }
    false
}

/// The answer for a shell command from its extracted commands and write
/// redirects.
pub fn answer_commands(
    commands: &[ExtractedCommand],
    redirects: &[WriteRedirect],
    bash_rules: &BashRules,
    fa: &CompiledFileAccess,
    cwd: &str,
    files: &[(String, FileCheckRead)],
) -> (r: HookOutput)
    requires
        all_well_formed(commands@),
    ensures
        ({
            let (d, reason) = bash_answer(
                command_views(commands@),
                redirect_targets(redirects@),
                *bash_rules,
                fa@,
                cwd@,
                file_views(files@),
            );
            r@ == answer(d, reason)
        }),
{
    let ghost outs = evals(command_views(commands@), *bash_rules, cwd@);
    let (results, all_plain, mut all_path_checks) = evaluate_commands(commands, bash_rules, cwd);
    add_redirect_checks(redirects, &mut all_path_checks);
    // Any denied command denies at once.
    if contains_deny(all_plain.as_slice()) {
        let pairs = collect_eval_reason_pairs(results.as_slice());
        let reason = join_reasons(Decision::Deny, pairs.as_slice());
        return create_response(Decision::Deny, reason.as_str());
    }
    // Path checks are resolved and merged with the plain decisions.
    if all_path_checks.len() > 0 {
        let path_results = resolve_path_checks(all_path_checks.as_slice(), fa, cwd, files);
        return merge_with_path_results(results.as_slice(), all_plain.as_slice(), path_results.as_slice());
    }
    if all_plain.len() > 0 {
        let merged = merge(all_plain.as_slice());
        let pairs = collect_eval_reason_pairs(results.as_slice());
        let reason = join_reasons(merged, pairs.as_slice());
        return create_response(merged, reason.as_str());
    }
    create_response(Decision::Ask, "no commands to evaluate")
}

/// Rust's `Debug` rendering of a string (`format!("{:?}", s)`): quoted,
/// with quotes, backslashes and special characters escaped.
pub uninterp spec fn debug_quoted(s: Seq<char>) -> Seq<char>;

/// Formats the string with `format!("{:?}", s)`, std's `Debug` for `str`;
/// the contract claims the result is `debug_quoted` of it.
#[verifier::external_body]
fn debug_quote(s: &str) -> (r: String)
    ensures
        r@ == debug_quoted(s@),
{
    format!("{:?}", s)
}

/// Why a hook event could not be decided.
pub enum HookError {
    /// The shell command could not be parsed.
    BashParse { command: String, source: ParseError },
}

/// The message of a hook error.
pub open spec fn error_message(e: HookError) -> Seq<char> {
    match e {
        HookError::BashParse { command, .. } => parse_error_message(command@),
    }
}

/// The message for a shell command that cannot be parsed.
pub open spec fn parse_error_message(command: Seq<char>) -> Seq<char> {
    "parsing bash command: "@ + debug_quoted(command) + ": tree-sitter failed to produce a parse tree"@
}

impl HookError {
    /// The error's message: what was being done, then the cause.
    pub fn message(&self) -> (r: String)
        ensures
            r@ == error_message(*self),
    {
        match self {
            HookError::BashParse { command, .. } => {
                let mut m = String::from_str("parsing bash command: ");
                m.append(debug_quote(command.as_str()).as_str());
                m.append(": tree-sitter failed to produce a parse tree");
                m
            },
        }
    }
}

/// The decision and reason for the shell tool's command, as the syntax
/// tree of the command gives them.
pub open spec fn bash_input_answer(
    command: Seq<char>,
    rules: Rules,
    fa: FileAccessView,
    cwd: Seq<char>,
    files: FilesView,
) -> (Decision, Seq<char>) {
    match rules.tools.bash {
        None => (Decision::Ask, "no rules for bash tool"@),
        Some(bash_rules) => if command.len() == 0 {
            (Decision::Ask, "empty command"@)
        } else {
            bash_answer(
                spec_commands(bash_syntax_nodes(command)),
                spec_redirects(bash_syntax_nodes(command)),
                bash_rules,
                fa,
                cwd,
                files,
            )
        },
    }
}

/// Decide a shell tool call.  The `Err` arm is never taken: tree-sitter
/// produces a syntax tree for every command.
pub fn handle_bash(
    bash_input: &BashInput,
    rules: &Rules,
    fa: &CompiledFileAccess,
    cwd: &str,
    files: &[(String, FileCheckRead)],
) -> (r: Result<HookOutput, HookError>)
    ensures
        r matches Ok(o) && ({
            let (d, reason) = bash_input_answer(bash_input.command@, *rules, fa@, cwd@, file_views(files@));
            o@ == answer(d, reason)
        }),
{
    let bash_rules = match &rules.tools.bash {
        Some(b) => b,
        None => {
            return Ok(create_response(Decision::Ask, "no rules for bash tool"));
        },
    };
    let cmd = bash_input.command.as_str();
    if cmd.is_empty() {
        return Ok(create_response(Decision::Ask, "empty command"));
    }
    match parse(cmd) {
        Ok((commands, redirects)) => {
            proof {
                assert(redirect_targets(redirects@) == crate::bash::redirect_views(redirects@));
            }
            Ok(answer_commands(commands.as_slice(), redirects.as_slice(), bash_rules, fa, cwd, files))
        },
        Err(source) => Err(HookError::BashParse { command: String::from_str(cmd), source }),
    }
}

// ---------------------------------------------------------------------------
// File tools
// ---------------------------------------------------------------------------

/// The node an optional reference points to.
pub open spec fn opt_node(node: Option<&DecisionNode>) -> Option<DecisionNode> {
    match node {
        Some(n) => Some(*n),
        None => None,
    }
}

/// The decision and reason for a file tool on `path`: a fixed decision is
/// taken as is; a conditional is resolved against the path.
pub open spec fn file_answer(path: Seq<char>, node: Option<DecisionNode>, fa: FileAccessView, cwd: Seq<char>) -> (Decision, Seq<char>) {
    match node {
        None => (Decision::Ask, "no rules for tool"@),
        Some(DecisionNode::Static(d)) => (d, "decision from rules"@),
        Some(DecisionNode::Conditional(c)) => {
            let d = spec_resolve(DecisionNode::Conditional(c), fa, path, cwd);
            (d, "file '"@ + path + "' "@ + decision_phrase(d) + " ("@ + condition_word(c.condition) + " check)"@)
        },
    }
}

/// Decide a file tool call on `file_path`.
pub fn handle_file_check(file_path: &str, node: Option<&DecisionNode>, fa: &CompiledFileAccess, cwd: &str) -> (r: HookOutput)
    ensures
        ({
            let (d, reason) = file_answer(file_path@, opt_node(node), fa@, cwd@);
            r@ == answer(d, reason)
        }),
{
    let node = match node {
        Some(n) => n,
        None => {
            return create_response(Decision::Ask, "no rules for tool");
        },
    };
    let decision = match resolve_conditional(node, file_path, fa, cwd) {
        Ok(d) => d,
        Err(_) => {
            assert(false);
            Decision::Ask
        },
    };
    match node {
        DecisionNode::Static(_) => create_response(decision, "decision from rules"),
        DecisionNode::Conditional(cond) => {
            let mut reason = String::from_str("file '");
            reason.append(file_path);
            reason.append("' ");
            reason.append(decision.description());
            reason.append(" (");
            reason.append(cond.condition.description());
            reason.append(" check)");
            create_response(decision, reason.as_str())
        },
    }
}

/// The decision for each path of a patch, with the reason for it.
pub open spec fn patch_pairs(paths: Seq<Seq<char>>, node: DecisionNode, fa: FileAccessView, cwd: Seq<char>) -> Seq<(Decision, Seq<char>)> {
    paths.map_values(
        |p: Seq<char>|
            {
                let d = spec_resolve(node, fa, p, cwd);
                (d, "file '"@ + p + "' "@ + decision_phrase(d))
            },
    )
}

/// The decision and reason for a patch writing to `paths`: each path is
/// decided by the edit rule and the strictest decision wins.  A patch
/// without file headers asks.
pub open spec fn patch_answer(paths: Seq<Seq<char>>, node: Option<DecisionNode>, fa: FileAccessView, cwd: Seq<char>) -> (Decision, Seq<char>) {
    match node {
        None => (Decision::Ask, "no rules for tool"@),
        Some(n) => if paths.len() == 0 {
            (Decision::Ask, "no file paths found in patch"@)
        } else {
            let pairs = patch_pairs(paths, n, fa, cwd);
            let merged = spec_merge(pairs.map_values(|x: (Decision, Seq<char>)| x.0));
            (merged, spec_join_reasons(merged, pairs))
        },
    }
}

/// Decide a Codex `apply_patch` call: every file the patch adds, updates,
/// deletes or moves to goes through the edit rule.
pub fn handle_apply_patch(patch: &ApplyPatchInput, node: Option<&DecisionNode>, fa: &CompiledFileAccess, cwd: &str) -> (r: HookOutput)
    ensures
        ({
            let (d, reason) = patch_answer(patch_paths(patch.input@), opt_node(node), fa@, cwd@);
            r@ == answer(d, reason)
        }),
{
    let node = match node {
        Some(n) => n,
        None => {
            return create_response(Decision::Ask, "no rules for tool");
        },
    };
    let paths = patch.affected_paths();
    if paths.len() == 0 {
        return create_response(Decision::Ask, "no file paths found in patch");
    }
    let ghost ps = string_views(paths@);
    let ghost all_pairs = patch_pairs(ps, *node, fa@, cwd@);
    let mut decisions: Vec<Decision> = Vec::new();
    let mut reasons: Vec<String> = Vec::new();
    let mut i: usize = 0;
    while i < paths.len()
        invariant
            i <= paths@.len(),
            ps == string_views(paths@),
            all_pairs == patch_pairs(ps, *node, fa@, cwd@),
            decisions@.len() == i,
            reasons@.len() == i,
            forall|j: int| 0 <= j < i ==> (#[trigger] all_pairs[j]) == (decisions@[j], reasons@[j]@),
        decreases paths.len() - i,
    {
        let d = match resolve_conditional(node, paths[i].as_str(), fa, cwd) {
            Ok(d) => d,
            Err(_) => {
                assert(false);
                Decision::Ask
            },
        };
        let mut reason = String::from_str("file '");
        reason.append(paths[i].as_str());
        reason.append("' ");
        reason.append(d.description());
        decisions.push(d);
        reasons.push(reason);
        assert(ps[i as int] == paths@[i as int]@);
        i = i + 1;
    }
    let mut pairs: Vec<(Decision, &str)> = Vec::new();
    let mut k: usize = 0;
    while k < reasons.len()
        invariant
            k <= reasons@.len(),
            reasons@.len() == decisions@.len(),
            pair_views(pairs@) == all_pairs.take(k as int),
            all_pairs.len() == reasons@.len(),
            forall|j: int| 0 <= j < reasons@.len() ==> (#[trigger] all_pairs[j]) == (decisions@[j], reasons@[j]@),
        decreases reasons.len() - k,
    {
        let ghost before = pairs@;
        pairs.push((decisions[k], reasons[k].as_str()));
        assert(pair_views(pairs@) =~= pair_views(before).push(all_pairs[k as int]));
        k = k + 1;
        assert(pair_views(pairs@) =~= all_pairs.take(k as int));
    }
    assert(all_pairs.take(reasons@.len() as int) =~= all_pairs);
    assert(decisions@ =~= all_pairs.map_values(|x: (Decision, Seq<char>)| x.0));
    let merged = merge(decisions.as_slice());
    let reason = join_reasons(merged, pairs.as_slice());
    create_response(merged, reason.as_str())
}

// ---------------------------------------------------------------------------
// Dispatch and the answer's protocol
// ---------------------------------------------------------------------------

/// The path a `Glob` or `Grep` call searches: its own, or the working
/// directory.
pub open spec fn search_path(path: Option<String>, cwd: Seq<char>) -> Seq<char> {
    match path {
        Some(p) => p@,
        None => cwd,
    }
}

/// The decision and reason for a tool call, routed by tool.
pub open spec fn dispatch_answer(
    tool: ToolInput,
    rules: Rules,
    fa: FileAccessView,
    cwd: Seq<char>,
    files: FilesView,
) -> (Decision, Seq<char>) {
    match tool {
        ToolInput::Bash(b) => bash_input_answer(b.command@, rules, fa, cwd, files),
        ToolInput::Edit(e) => file_answer(e.file_path@, rules.tools.edit, fa, cwd),
        ToolInput::NotebookEdit(n) => file_answer(n.file_path@, rules.tools.notebook_edit, fa, cwd),
        ToolInput::Read(r) => file_answer(r.file_path@, rules.tools.read, fa, cwd),
        ToolInput::Write(w) => file_answer(w.file_path@, rules.tools.write, fa, cwd),
        ToolInput::Glob(g) => file_answer(search_path(g.path, cwd), rules.tools.glob, fa, cwd),
        ToolInput::Grep(g) => file_answer(search_path(g.path, cwd), rules.tools.grep, fa, cwd),
        ToolInput::ApplyPatch(p) => patch_answer(patch_paths(p.input@), rules.tools.edit, fa, cwd),
        _ => match get_entry(rules.tools.other@, tool_name(tool)) {
            Some(StaticDecisionNode(d)) => (d, "decision from rules"@),
            None => (Decision::Ask, "no rules for tool"@),
        },
    }
}

/// Route a tool invocation to the handler for its tool.  The `Err` arm is
/// never taken (see `handle_bash`).
pub fn dispatch(
    input: &HookInput,
    rules: &Rules,
    fa: &CompiledFileAccess,
    cwd: &str,
    files: &[(String, FileCheckRead)],
) -> (r: Result<HookOutput, HookError>)
    ensures
        r matches Ok(o) && ({
            let (d, reason) = dispatch_answer(input.tool, *rules, fa@, cwd@, file_views(files@));
            o@ == answer(d, reason)
        }),
{
    match &input.tool {
        ToolInput::Bash(b) => handle_bash(b, rules, fa, cwd, files),
        ToolInput::Edit(e) => Ok(handle_file_check(e.file_path.as_str(), rules.tools.edit.as_ref(), fa, cwd)),
        ToolInput::NotebookEdit(n) => Ok(
            handle_file_check(n.file_path.as_str(), rules.tools.notebook_edit.as_ref(), fa, cwd),
        ),
        ToolInput::Read(r) => Ok(handle_file_check(r.file_path.as_str(), rules.tools.read.as_ref(), fa, cwd)),
        ToolInput::Write(w) => Ok(handle_file_check(w.file_path.as_str(), rules.tools.write.as_ref(), fa, cwd)),
        ToolInput::Glob(g) => {
            let path = match &g.path {
                Some(p) => p.as_str(),
                None => cwd,
            };
            Ok(handle_file_check(path, rules.tools.glob.as_ref(), fa, cwd))
        },
        ToolInput::Grep(g) => {
            let path = match &g.path {
                Some(p) => p.as_str(),
                None => cwd,
            };
            Ok(handle_file_check(path, rules.tools.grep.as_ref(), fa, cwd))
        },
        ToolInput::ApplyPatch(p) => Ok(handle_apply_patch(p, rules.tools.edit.as_ref(), fa, cwd)),
        _ => {
            let name = input.tool.name();
            match find_key(&rules.tools.other, name) {
                Some(k) => {
                    let StaticDecisionNode(d) = rules.tools.other[k].1;
                    Ok(create_response(d, "decision from rules"))
                },
                None => Ok(create_response(Decision::Ask, "no rules for tool")),
            }
        },
    }
}

/// The response protocol of the caller.
#[derive(Debug, Clone, Copy, PartialEq, Eq, Structural)]
pub enum Mode {
    /// The default protocol: every decision is reported.
    Claude,
    /// OpenAI Codex: only a deny is reported; allow and ask have no Codex
    /// form and are left to Codex's own approval flow.
    Codex,
}

/// What the hook prints: an answer, or nothing decided (an empty object).
pub enum HookResponse {
    Answer(HookOutput),
    Abstain,
}

/// Whether an answer with this decision name is withheld: in Codex mode
/// everything but a deny; in the default mode an ask in auto permission mode
/// when asks are deferred there.
pub open spec fn withheld(decision: Seq<char>, mode: Mode, permission_mode: Option<Seq<char>>, defer_ask_in_auto_mode: bool) -> bool {
    match mode {
        Mode::Codex => decision != "deny"@,
        Mode::Claude => defer_ask_in_auto_mode && permission_mode == Some("auto"@) && decision == "ask"@,
    }
}

/// The characters of an optional string.
pub open spec fn opt_chars(o: Option<&str>) -> Option<Seq<char>> {
    match o {
        Some(s) => Some(s@),
        None => None,
    }
}

/// Put an answer in the caller's protocol.
pub fn respond(out: HookOutput, mode: Mode, permission_mode: Option<&str>, defer_ask_in_auto_mode: bool) -> (r: HookResponse)
    ensures
        if withheld(out@.1, mode, opt_chars(permission_mode), defer_ask_in_auto_mode) {
            r is Abstain
        } else {
            r matches HookResponse::Answer(o) && o@ == out@
        },
{
    let decision = out.hook_specific_output.permission_decision.as_str();
    let hold = match mode {
        Mode::Codex => !str_equal(decision, "deny"),
        Mode::Claude => {
            let auto_mode = match permission_mode {
                Some(m) => str_equal(m, "auto"),
                None => false,
            };
            defer_ask_in_auto_mode && auto_mode && str_equal(decision, "ask")
        },
    };
    if hold {
        HookResponse::Abstain
    } else {
        HookResponse::Answer(out)
    }
}

/// `r` is `out` put in the caller's protocol.
pub open spec fn responds_with(
    r: HookResponse,
    out: (Seq<char>, Seq<char>, Seq<char>),
    mode: Mode,
    permission_mode: Option<Seq<char>>,
    defer_ask_in_auto_mode: bool,
) -> bool {
    if withheld(out.1, mode, permission_mode, defer_ask_in_auto_mode) {
        r is Abstain
    } else {
        r matches HookResponse::Answer(o) && o@ == out
    }
}

/// Decide a hook event and answer in the caller's protocol.
pub fn run_hook(
    input: &HookInput,
    rules: &Rules,
    fa: &CompiledFileAccess,
    mode: Mode,
    files: &[(String, FileCheckRead)],
) -> (r: HookResponse)
    ensures
        ({
            let (d, reason) = dispatch_answer(input.tool, *rules, fa@, input.common.cwd@, file_views(files@));
            let pm = opt_str(input.common.permission_mode);
            let defer = rules.defer_ask_in_auto_mode;
            responds_with(r, answer(d, reason), mode, pm, defer)
        }),
{
    let cwd = input.common.cwd.as_str();
    let out = match dispatch(input, rules, fa, cwd, files) {
        Ok(o) => o,
        Err(e) => {
            let mut reason = String::from_str("error: ");
            reason.append(e.message().as_str());
            create_response(Decision::Ask, reason.as_str())
        },
    };
    let permission_mode = match &input.common.permission_mode {
        Some(m) => Some(m.as_str()),
        None => None,
    };
    respond(out, mode, permission_mode, rules.defer_ask_in_auto_mode)
}

/// The characters of an optional owned string.
pub open spec fn opt_str(o: Option<String>) -> Option<Seq<char>> {
    match o {
        Some(s) => Some(s@),
        None => None,
    }
}

// ---------------------------------------------------------------------------
// Files to read for content checks
// ---------------------------------------------------------------------------

/// The paths of the content checks among path checks, in order.
pub open spec fn content_paths(pcs: Seq<PathCheckView>) -> Seq<Seq<char>>
    decreases pcs.len(),
{
    if pcs.len() == 0 {
        Seq::empty()
    } else if pcs.last().contents is Some {
        content_paths(pcs.drop_last()).push(pcs.last().path)
    } else {
        content_paths(pcs.drop_last())
    }
}

/// The files a tool call needs read before it can be decided: those its
/// shell command's content checks name.
pub open spec fn needed_files(tool: ToolInput, rules: Rules, cwd: Seq<char>) -> Seq<Seq<char>> {
    match tool {
        ToolInput::Bash(b) => match rules.tools.bash {
            Some(bash_rules) => if b.command@.len() == 0 {
                Seq::empty()
            } else {
                content_paths(all_checks(evals(spec_commands(bash_syntax_nodes(b.command@)), bash_rules, cwd)))
            },
            None => Seq::empty(),
        },
        _ => Seq::empty(),
    }
}

/// The files to read, and hand to `run_hook`, before a tool call can be
/// decided.  The `Err` arm is never taken (see `handle_bash`).
pub fn content_check_paths(input: &HookInput, rules: &Rules) -> (r: Result<Vec<String>, HookError>)
    ensures
        r matches Ok(paths) && string_views(paths@) == needed_files(input.tool, *rules, input.common.cwd@),
{
    let b = match &input.tool {
        ToolInput::Bash(b) => b,
        _ => {
            return Ok(Vec::new());
        },
    };
    let bash_rules = match &rules.tools.bash {
        Some(r) => r,
        None => {
            return Ok(Vec::new());
        },
    };
    let cmd = b.command.as_str();
    if cmd.is_empty() {
        return Ok(Vec::new());
    }
    let commands = match parse(cmd) {
        Ok((commands, _)) => commands,
        Err(source) => {
            return Err(HookError::BashParse { command: String::from_str(cmd), source });
        },
    };
    let (_, _, checks) = evaluate_commands(commands.as_slice(), bash_rules, input.common.cwd.as_str());
    let ghost pcs = check_views(checks@);
    let mut paths: Vec<String> = Vec::new();
    let mut i: usize = 0;
    while i < checks.len()
        invariant
            i <= checks@.len(),
            pcs == check_views(checks@),
            string_views(paths@) == content_paths(pcs.take(i as int)),
        decreases checks.len() - i,
    {
        let ghost before = paths@;
        assert(pcs.take(i + 1).drop_last() =~= pcs.take(i as int));
        assert(pcs.take(i + 1).last() == checks@[i as int]@);
        if checks[i].contents.is_some() {
            paths.push(checks[i].path.clone());
            assert(string_views(paths@) =~= string_views(before).push(checks@[i as int].path@));
        }
        i = i + 1;
    }
    assert(pcs.take(checks@.len() as int) =~= pcs);
    Ok(paths)
}

} // verus!
