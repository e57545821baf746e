//! Evaluation of a shell command against its decision tree.

use vstd::prelude::*;
use vstd::string::*;
use crate::decision::{
    check_views, decision_phrase, rank, Decision, DecisionNode, EvalOutcome, EvalResult, PathCheck, PathCheckView,
};
use crate::rules::{
    duplicate_values, find_key, key_index, lookup_with_alias, spec_lookup, values_view, CommandNode, DecisionSpec,
    FileCheck, FlagEntry, FlagKind, OptionEntry, PositionalDef, PositionalEntry, ValuesView, WildcardMap,
};
use crate::text::{
    decimal, decimal_string, find_char, index_of, join, join_strings, starts_dash, starts_with_dash, str_equal, views,
};
use crate::rules::BashRules;
use crate::bash::ExtractedCommand;
use crate::rules::HasAliases;
use crate::path::{resolve_conditional, spec_resolve, CompiledFileAccess, FileAccessView};

verus! {

// ---------------------------------------------------------------------------
// Judgments and their merge
// ---------------------------------------------------------------------------

/// A decision paired with the reason it was made.
struct Judgment {
    decision: Decision,
    force: bool,
    reason: String,
}

/// A judgment with its reason as characters.
pub struct JudgmentView {
    pub decision: Decision,
    pub force: bool,
    pub reason: Seq<char>,
}

impl View for Judgment {
    type V = JudgmentView;

    closed spec fn view(&self) -> JudgmentView {
        JudgmentView { decision: self.decision, force: self.force, reason: self.reason@ }
    }
}

pub open spec fn jv(decision: Decision, force: bool, reason: Seq<char>) -> JudgmentView {
    JudgmentView { decision, force, reason }
}

spec fn jviews(v: Seq<Judgment>) -> Seq<JudgmentView> {
    v.map_values(|j: Judgment| j@)
}

impl Judgment {
    fn new(decision: Decision, reason: String) -> (r: Self)
        ensures
            r@ == jv(decision, false, reason@),
    {
        Self { decision, force: false, reason }
    }

    fn duplicate(&self) -> (r: Self)
        ensures
            r@ == self@,
    {
        Judgment { decision: self.decision, force: self.force, reason: self.reason.clone() }
    }
}

/// The forced judgments, in order.
pub open spec fn forced_of(js: Seq<JudgmentView>) -> Seq<JudgmentView>
    decreases js.len(),
{
    if js.len() == 0 {
        js
    } else if js.last().force {
        forced_of(js.drop_last()).push(js.last())
    } else {
        forced_of(js.drop_last())
    }
}

/// The first of the strictest judgments of a non-empty list.
pub open spec fn strictest_first(js: Seq<JudgmentView>) -> JudgmentView
    decreases js.len(),
{
    if js.len() <= 1 {
        js[0]
    } else {
        let a = strictest_first(js.drop_last());
        if rank(js.last().decision) > rank(a.decision) {
            js.last()
        } else {
            a
        }
    }
}

/// All judgments of the list have the decision of the first.
pub open spec fn all_agree(f: Seq<JudgmentView>) -> bool {
    forall|k: int| 0 <= k < f.len() ==> (#[trigger] f[k]).decision == f[0].decision
}

/// Merged judgment.  Forced judgments take priority: when they all agree the
/// first of them wins, when they disagree the result is ask.  Otherwise the
/// first of the strictest judgments wins (deny > ask > allow).  Empty gives
/// ask.
pub open spec fn spec_merge_judgments(js: Seq<JudgmentView>) -> JudgmentView {
    let f = forced_of(js);
    if f.len() > 0 {
        if all_agree(f) {
            f[0]
        } else {
            jv(Decision::Ask, false, "conflicting force decisions"@)
        }
    } else if js.len() == 0 {
        jv(Decision::Ask, false, "no decisions collected"@)
    } else {
        strictest_first(js)
    }
}

proof fn lemma_take_last<A>(s: Seq<A>, i: int)
    requires
        0 <= i < s.len(),
    ensures
        s.take(i + 1).drop_last() == s.take(i),
        s.take(i + 1).last() == s[i],
        s.take(i + 1).len() == i + 1,
{
    assert(s.take(i + 1).drop_last() =~= s.take(i));
}

/// Merge judgments (see `spec_merge_judgments`).
fn merge_judgments(judgments: &Vec<Judgment>) -> (r: Judgment)
    ensures
        r@ == spec_merge_judgments(jviews(judgments@)),
{
    let ghost js = jviews(judgments@);
    let mut first_forced: Option<usize> = None;
    let mut conflict = false;
    let mut i: usize = 0;
    while i < judgments.len()
        invariant
            i <= judgments@.len(),
            js == jviews(judgments@),
            ({
                let f = forced_of(js.take(i as int));
                &&& (f.len() > 0) == first_forced.is_some()
                &&& first_forced matches Some(k) ==> k < judgments@.len() && f[0] == js[k as int]
                &&& f.len() > 0 ==> (conflict == !all_agree(f))
            }),
        decreases judgments.len() - i,
    {
        proof {
            lemma_take_last(js, i as int);
        }
        let ghost before = forced_of(js.take(i as int));
        if judgments[i].force {
            match first_forced {
                None => {
                    first_forced = Some(i);
                    conflict = false;
                },
                Some(k) => {
                    if judgments[i].decision != judgments[k].decision {
                        conflict = true;
                    }
                },
            }
            proof {
                let now = forced_of(js.take(i + 1));
                assert(now == before.push(js[i as int]));
                if before.len() > 0 {
                    assert(now[0] == before[0]);
                    if !conflict {
                        assert forall|k: int| 0 <= k < now.len() implies (#[trigger] now[k]).decision == now[0].decision by {
                            if k < before.len() {
                                assert(now[k] == before[k]);
                            }
                        }
                    } else {
                        if judgments[i as int].decision != judgments[first_forced.unwrap() as int].decision {
                            assert(now[now.len() - 1].decision != now[0].decision);
                        } else {
                            let w = choose|k: int| 0 <= k < before.len() && (#[trigger] before[k]).decision != before[0].decision;
                            assert(now[w] == before[w]);
                        }
                    }
                } else {
                    assert forall|k: int| 0 <= k < now.len() implies (#[trigger] now[k]).decision == now[0].decision by {}
                }
            }
        }
        i = i + 1;
    }
    assert(js.take(judgments@.len() as int) =~= js);
    if let Some(k) = first_forced {
        if !conflict {
            return judgments[k].duplicate();
        }
        let reason = String::from_str("conflicting force decisions");
        return Judgment { decision: Decision::Ask, force: false, reason };
    }
    if judgments.len() == 0 {
        let reason = String::from_str("no decisions collected");
        return Judgment { decision: Decision::Ask, force: false, reason };
    }
    let mut best: usize = 0;
    let mut j: usize = 1;
    proof {
        assert(js.take(1).len() == 1);
        assert(strictest_first(js.take(1)) == js[0]);
    }
    while j < judgments.len()
        invariant
            1 <= j <= judgments@.len(),
            js == jviews(judgments@),
            best < judgments@.len(),
            js[best as int] == strictest_first(js.take(j as int)),
        decreases judgments.len() - j,
    {
        proof {
            lemma_take_last(js, j as int);
        }
        let b = judgments[j].decision;
        let a = judgments[best].decision;
        let b_rank: u8 = match b { Decision::Allow => 0, Decision::Ask => 1, Decision::Deny => 2 };
        let a_rank: u8 = match a { Decision::Allow => 0, Decision::Ask => 1, Decision::Deny => 2 };
        if b_rank > a_rank {
            best = j;
        }
        j = j + 1;
    }
    judgments[best].duplicate()
}

// ---------------------------------------------------------------------------
// Splitting `--option=value`
// ---------------------------------------------------------------------------

/// `--option=value` split at its first `=`, for args that start with `-`.
pub open spec fn spec_split_option_eq(arg: Seq<char>) -> Option<(Seq<char>, Seq<char>)> {
    if starts_dash(arg) && index_of(arg, '=') >= 0 {
        let i = index_of(arg, '=');
        Some((arg.take(i), arg.skip(i + 1)))
    } else {
        None
    }
}

proof fn lemma_index_of_bound(s: Seq<char>, c: char)
    ensures
        -1 <= index_of(s, c) < s.len(),
{
}

/// Split `--option=value` into `("--option", Some("value"))`.
/// Returns `None` if the arg doesn't contain `=` after a leading `-`.
pub fn split_option_eq<'a>(arg: &'a str) -> (r: Option<(&'a str, &'a str)>)
    ensures
        match r {
            Some((name, value)) => spec_split_option_eq(arg@) == Some((name@, value@)),
            None => spec_split_option_eq(arg@).is_none(),
        },
{
    if !starts_with_dash(arg) {
        return None;
    }
    match find_char(arg, '=') {
        Some(i) => {
            let n = arg.unicode_len();
            proof {
                lemma_index_of_bound(arg@, '=');
            }
            let name = arg.substring_char(0, i);
            let value = arg.substring_char(i + 1, n);
            assert(name@ =~= arg@.take(i as int));
            assert(value@ =~= arg@.skip(i + 1));
            Some((name, value))
        },
        None => None,
    }
}

/// The option entry an arg names (directly or as `--option=value`) and the
/// value embedded in it (empty for the direct form).
pub open spec fn spec_lookup_option_eq(arg: Seq<char>, options: WildcardMap<OptionEntry>) -> Option<(OptionEntry, Seq<char>)> {
    match spec_lookup(arg, options) {
        Some(e) => Some((e, Seq::empty())),
        None => match spec_split_option_eq(arg) {
            Some((name, value)) => match spec_lookup(name, options) {
                Some(e) => Some((e, value)),
                None => None,
            },
            None => None,
        },
    }
}

/// Look up an option by name, trying `--option=value` splitting if the direct
/// lookup fails. Returns the matched entry and the extracted value.
fn lookup_option_with_eq<'a>(arg: &'a str, options: &'a WildcardMap<OptionEntry>) -> (r: Option<(&'a OptionEntry, &'a str)>)
    ensures
        match spec_lookup_option_eq(arg@, *options) {
            Some((e, v)) => r.is_some() && *r.unwrap().0 == e && r.unwrap().1@ == v,
            None => r.is_none(),
        },
{
    if let Some(entry) = lookup_with_alias(arg, options) {
        proof {
            reveal_strlit("");
        }
        return Some((entry, ""));
    }
    if let Some((name, value)) = split_option_eq(arg) {
        if let Some(entry) = lookup_with_alias(name, options) {
            return Some((entry, value));
        }
    }
    None
}

// ---------------------------------------------------------------------------
// Positional arguments
// ---------------------------------------------------------------------------

/// Indices of positional args from index `i` on: args that do not start with
/// `-`, skipping each known option together with the arg after it.
pub open spec fn positionals_from(args: Seq<Seq<char>>, options: Option<WildcardMap<OptionEntry>>, i: int) -> Seq<int>
    decreases args.len() + 1 - i,
{
    if i < 0 || i >= args.len() {
        Seq::empty()
    } else if starts_dash(args[i]) {
        let known = match options {
            Some(o) => spec_lookup(args[i], o).is_some(),
            None => false,
        };
        if known {
            positionals_from(args, options, i + 2)
        } else {
            positionals_from(args, options, i + 1)
        }
    } else {
        seq![i] + positionals_from(args, options, i + 1)
    }
}

/// Indices of the positional (non-flag) args after the command name.
pub open spec fn spec_positionals(args: Seq<Seq<char>>, options: Option<WildcardMap<OptionEntry>>) -> Seq<int> {
    positionals_from(args, options, 1)
}

pub open spec fn ints(v: Seq<usize>) -> Seq<int> {
    v.map_values(|x: usize| x as int)
}

proof fn lemma_positionals_bounds(args: Seq<Seq<char>>, options: Option<WildcardMap<OptionEntry>>, i: int)
    ensures
        forall|k: int| 0 <= k < positionals_from(args, options, i).len() ==>
            i <= #[trigger] positionals_from(args, options, i)[k] < args.len(),
    decreases args.len() + 1 - i,
{
    if i < 0 || i >= args.len() {
    } else {
        lemma_positionals_bounds(args, options, i + 1);
        lemma_positionals_bounds(args, options, i + 2);
        let p = positionals_from(args, options, i);
        let q1 = positionals_from(args, options, i + 1);
        let q2 = positionals_from(args, options, i + 2);
        if !starts_dash(args[i]) {
            assert forall|k: int| 0 <= k < p.len() implies i <= #[trigger] p[k] < args.len() by {
                if k > 0 {
                    assert(p[k] == q1[k - 1]);
                }
            }
        } else {
            assert forall|k: int| 0 <= k < p.len() implies i <= #[trigger] p[k] < args.len() by {
                if p == q1 {
                    assert(p[k] == q1[k]);
                } else {
                    assert(p == q2);
                    assert(p[k] == q2[k]);
                }
            }
        }
    }
}

/// Extract positional (non-flag) args, skipping flags and known option+value
/// pairs.  Returns their indices.
fn extract_positionals(args: &[String], options: &Option<WildcardMap<OptionEntry>>) -> (r: Vec<usize>)
    ensures
        ints(r@) == spec_positionals(views(args@), *options),
        forall|k: int| 0 <= k < r@.len() ==> 1 <= #[trigger] r@[k] < args@.len(),
{
    let ghost a = views(args@);
    let mut result: Vec<usize> = Vec::new();
    let mut i: usize = 1;
    proof {
        lemma_positionals_bounds(a, *options, 1);
    }
    while i < args.len()
        invariant
            1 <= i,
            a == views(args@),
            ints(result@) + positionals_from(a, *options, i as int) == spec_positionals(a, *options),
            forall|k: int| 0 <= k < result@.len() ==> 1 <= #[trigger] result@[k] < args@.len(),
        decreases args.len() - i,
    {
        proof {
            lemma_positionals_bounds(a, *options, i as int);
        }
        if starts_with_dash(args[i].as_str()) {
            let known = match options {
                Some(opts) => lookup_with_alias(args[i].as_str(), opts).is_some(),
                None => false,
            };
            let ghost old_i = i as int;
            i = i + 1;
            if known && i < args.len() {
                i = i + 1;
            }
            proof {
                if known {
                    assert(positionals_from(a, *options, old_i) == positionals_from(a, *options, old_i + 2));
                    if i as int == old_i + 1 {
                        assert(positionals_from(a, *options, old_i + 2) =~= Seq::<int>::empty());
                        assert(positionals_from(a, *options, i as int) =~= Seq::<int>::empty());
                    }
                } else {
                    assert(positionals_from(a, *options, old_i) == positionals_from(a, *options, old_i + 1));
                }
            }
        } else {
            let ghost before = result@;
            result.push(i);
            proof {
                assert(ints(result@) =~= ints(before).push(i as int));
                assert(ints(result@) + positionals_from(a, *options, i + 1) =~= ints(before) + positionals_from(a, *options, i as int));
            }
            i = i + 1;
        }
    }
    assert(positionals_from(a, *options, i as int) =~= Seq::<int>::empty());
    assert(ints(result@) =~= ints(result@) + Seq::<int>::empty());
    result
}


// ---------------------------------------------------------------------------
// Contributions: the judgments and path checks a part of a command adds
// ---------------------------------------------------------------------------

/// Judgments and path checks, in the order they are collected.
pub struct Contrib {
    pub js: Seq<JudgmentView>,
    pub pcs: Seq<PathCheckView>,
}

pub open spec fn no_contrib() -> Contrib {
    Contrib { js: Seq::empty(), pcs: Seq::empty() }
}

pub open spec fn one_j(j: JudgmentView) -> Contrib {
    Contrib { js: seq![j], pcs: Seq::empty() }
}

pub open spec fn one_pc(pc: PathCheckView) -> Contrib {
    Contrib { js: Seq::empty(), pcs: seq![pc] }
}

pub open spec fn join_contrib(a: Contrib, b: Contrib) -> Contrib {
    Contrib { js: a.js + b.js, pcs: a.pcs + b.pcs }
}

/// `js`/`pcs` are `old_js`/`old_pcs` followed by the contribution `c`.
spec fn appended(old_js: Seq<Judgment>, old_pcs: Seq<PathCheck>, js: Seq<Judgment>, pcs: Seq<PathCheck>, c: Contrib) -> bool {
    &&& jviews(js) == jviews(old_js) + c.js
    &&& check_views(pcs) == check_views(old_pcs) + c.pcs
}

proof fn lemma_push_judgment(v: Seq<Judgment>, x: Judgment)
    ensures
        jviews(v.push(x)) == jviews(v) + seq![x@],
{
    assert(jviews(v.push(x)) =~= jviews(v) + seq![x@]);
}

proof fn lemma_push_check(v: Seq<PathCheck>, x: PathCheck)
    ensures
        check_views(v.push(x)) == check_views(v) + seq![x@],
{
    assert(check_views(v.push(x)) =~= check_views(v) + seq![x@]);
}

proof fn lemma_add_assoc(a: Contrib, b: Contrib, c: Contrib)
    ensures
        join_contrib(join_contrib(a, b), c) == join_contrib(a, join_contrib(b, c)),
{
    assert(join_contrib(join_contrib(a, b), c).js =~= join_contrib(a, join_contrib(b, c)).js);
    assert(join_contrib(join_contrib(a, b), c).pcs =~= join_contrib(a, join_contrib(b, c)).pcs);
}

proof fn lemma_add_none(a: Contrib)
    ensures
        join_contrib(a, no_contrib()) == a,
        join_contrib(no_contrib(), a) == a,
{
    assert(join_contrib(a, no_contrib()).js =~= a.js);
    assert(join_contrib(a, no_contrib()).pcs =~= a.pcs);
    assert(join_contrib(no_contrib(), a).js =~= a.js);
    assert(join_contrib(no_contrib(), a).pcs =~= a.pcs);
}

/// Appending a contribution to what was appended before.
proof fn lemma_appended_trans(
    js0: Seq<Judgment>, pcs0: Seq<PathCheck>,
    js1: Seq<Judgment>, pcs1: Seq<PathCheck>,
    js2: Seq<Judgment>, pcs2: Seq<PathCheck>,
    c1: Contrib, c2: Contrib,
)
    requires
        appended(js0, pcs0, js1, pcs1, c1),
        appended(js1, pcs1, js2, pcs2, c2),
    ensures
        appended(js0, pcs0, js2, pcs2, join_contrib(c1, c2)),
{
    assert(jviews(js2) =~= jviews(js0) + join_contrib(c1, c2).js);
    assert(check_views(pcs2) =~= check_views(pcs0) + join_contrib(c1, c2).pcs);
}

fn push_judgment(js: &mut Vec<Judgment>, pcs: &Vec<PathCheck>, j: Judgment)
    ensures
        appended(old(js)@, pcs@, final(js)@, pcs@, one_j(j@)),
{
    let ghost before = js@;
    js.push(j);
    proof {
        lemma_push_judgment(before, j);
        assert(check_views(pcs@) =~= check_views(pcs@) + Seq::<PathCheckView>::empty());
    }
}

fn push_check(js: &Vec<Judgment>, pcs: &mut Vec<PathCheck>, pc: PathCheck)
    ensures
        appended(js@, old(pcs)@, js@, final(pcs)@, one_pc(pc@)),
{
    let ghost before = pcs@;
    pcs.push(pc);
    proof {
        lemma_push_check(before, pc);
        assert(jviews(js@) =~= jviews(js@) + Seq::<JudgmentView>::empty());
    }
}

// ---------------------------------------------------------------------------
// Reasons
// ---------------------------------------------------------------------------

/// `'<cmd>': `
pub open spec fn pre(cmd: Seq<char>) -> Seq<char> {
    "'"@ + cmd + "': "@
}

fn reason_prefix(cmd: &str) -> (r: String)
    ensures
        r@ == pre(cmd@),
{
    let mut r = String::from_str("'");
    r.append(cmd);
    r.append("': ");
    r
}

pub open spec fn r_flag(cmd: Seq<char>, arg: Seq<char>, d: Decision) -> Seq<char> {
    pre(cmd) + "flag '"@ + arg + "' "@ + decision_phrase(d)
}

fn reason_flag(cmd: &str, arg: &str, d: Decision) -> (r: String)
    ensures
        r@ == r_flag(cmd@, arg@, d),
{
    let mut r = reason_prefix(cmd);
    r.append("flag '");
    r.append(arg);
    r.append("' ");
    r.append(d.description());
    r
}

pub open spec fn r_positional_arg(cmd: Seq<char>, ctx: Seq<char>, val: Seq<char>, d: Decision) -> Seq<char> {
    pre(cmd) + ctx + " arg '"@ + val + "' "@ + decision_phrase(d)
}

fn reason_positional_arg(cmd: &str, ctx: &str, val: &str, d: Decision) -> (r: String)
    ensures
        r@ == r_positional_arg(cmd@, ctx@, val@, d),
{
    let mut r = reason_prefix(cmd);
    r.append(ctx);
    r.append(" arg '");
    r.append(val);
    r.append("' ");
    r.append(d.description());
    r
}

pub open spec fn r_positional_count(cmd: Seq<char>, ctx: Seq<char>, count: nat) -> Seq<char> {
    pre(cmd) + ctx + " "@ + decimal(count) + " positional args not in allowed counts"@
}

fn reason_positional_count(cmd: &str, ctx: &str, count: &str) -> (r: String)
    ensures
        r@ == pre(cmd@) + ctx@ + " "@ + count@ + " positional args not in allowed counts"@,
{
    let mut r = reason_prefix(cmd);
    r.append(ctx);
    r.append(" ");
    r.append(count);
    r.append(" positional args not in allowed counts");
    r
}

/// `<pre>option '<name>' value '<value>' `
pub open spec fn r_value_head(cmd: Seq<char>, name: Seq<char>, value: Seq<char>) -> Seq<char> {
    pre(cmd) + "option '"@ + name + "' value '"@ + value + "' "@
}

pub open spec fn r_option(cmd: Seq<char>, name: Seq<char>, d: Decision) -> Seq<char> {
    pre(cmd) + "option '"@ + name + "' "@ + decision_phrase(d)
}

fn reason_option(cmd: &str, name: &str, d: Decision) -> (r: String)
    ensures
        r@ == r_option(cmd@, name@, d),
{
    let mut r = reason_prefix(cmd);
    r.append("option '");
    r.append(name);
    r.append("' ");
    r.append(d.description());
    r
}

/// `<pre><what> '<arg>'`, as in "unknown flag '-x'".
pub open spec fn r_named(cmd: Seq<char>, what: Seq<char>, arg: Seq<char>) -> Seq<char> {
    pre(cmd) + what + " '"@ + arg + "'"@
}

fn reason_named(cmd: &str, what: &str, arg: &str) -> (r: String)
    ensures
        r@ == r_named(cmd@, what@, arg@),
{
    let mut r = reason_prefix(cmd);
    r.append(what);
    r.append(" '");
    r.append(arg);
    r.append("'");
    r
}

/// `<pre><tail>`
fn reason_plain(cmd: &str, tail: &str) -> (r: String)
    ensures
        r@ == pre(cmd@) + tail@,
{
    let mut r = reason_prefix(cmd);
    r.append(tail);
    r
}

// ---------------------------------------------------------------------------
// Positional rules
// ---------------------------------------------------------------------------

/// Classify a decision node for an argument as either a judgment or a path
/// check.
pub open spec fn classify_node(entry: DecisionNode, val: Seq<char>, cmd: Seq<char>, ctx: Seq<char>) -> Contrib {
    match entry {
        DecisionNode::Static(d) => one_j(jv(d, false, r_positional_arg(cmd, ctx, val, d))),
        DecisionNode::Conditional(_) => one_pc(PathCheckView { path: val, decision: entry, force: false, contents: None }),
    }
}

/// Classify a single positional entry as either a Judgment or PathCheck.
fn classify_positional_entry(
    entry: &DecisionNode,
    path_val: &str,
    cmd_str: &str,
    context: &str,
    judgments: &mut Vec<Judgment>,
    path_checks: &mut Vec<PathCheck>,
)
    ensures
        appended(old(judgments)@, old(path_checks)@, final(judgments)@, final(path_checks)@,
            classify_node(*entry, path_val@, cmd_str@, context@)),
{
    match entry {
        DecisionNode::Static(d) => {
            let reason = reason_positional_arg(cmd_str, context, path_val, *d);
            push_judgment(judgments, path_checks, Judgment::new(*d, reason));
        },
        DecisionNode::Conditional(_) => {
            let pc = PathCheck { path: String::from_str(path_val), decision: entry.duplicate(), force: false, contents: None };
            push_check(judgments, path_checks, pc);
        },
    }
}

/// The (rule, argument) pairs a positional definition applies to.  An array
/// gives one rule per position (missing args read as empty); a single rule
/// applies uniformly to every positional arg.
pub open spec fn targets(def: PositionalDef, args: Seq<Seq<char>>, pos: Seq<int>) -> Seq<(PositionalEntry, Seq<char>)> {
    match def {
        PositionalDef::Array(entries) => Seq::new(
            entries@.len(),
            |i: int| (entries@[i], if i < pos.len() { args[pos[i]] } else { Seq::empty() }),
        ),
        PositionalDef::Single(e) => Seq::new(pos.len(), |i: int| (e, args[pos[i]])),
    }
}

/// `<pre><ctx> arg '<val>' `
pub open spec fn r_arg_head(cmd: Seq<char>, ctx: Seq<char>, val: Seq<char>) -> Seq<char> {
    pre(cmd) + ctx + " arg '"@ + val + "' "@
}

/// What a positional rule contributes for an argument: its decision, then
/// its `values` dict applied to the argument.
pub open spec fn classify(entry: PositionalEntry, val: Seq<char>, cmd: Seq<char>, ctx: Seq<char>) -> Contrib {
    join_contrib(
        join_contrib(classify_node(entry.node, val, cmd, ctx), entry_values(entry, val, cmd, ctx)),
        content_check(entry.check_file, val),
    )
}

/// The `values` dict of a positional rule applied to an argument.
pub open spec fn entry_values(entry: PositionalEntry, val: Seq<char>, cmd: Seq<char>, ctx: Seq<char>) -> Contrib {
    match entry.values {
        Some(values) => values_contrib(values_view(values), r_arg_head(cmd, ctx, val), val, val),
        None => no_contrib(),
    }
}

pub open spec fn classify_all(items: Seq<(PositionalEntry, Seq<char>)>, cmd: Seq<char>, ctx: Seq<char>) -> Contrib
    decreases items.len(),
{
    if items.len() == 0 {
        no_contrib()
    } else {
        join_contrib(classify_all(items.drop_last(), cmd, ctx), classify(items.last().0, items.last().1, cmd, ctx))
    }
}

/// Apply a positional rule to an argument (see `classify`).
fn classify_positional(
    entry: &PositionalEntry,
    val: &str,
    cmd_str: &str,
    context: &str,
    judgments: &mut Vec<Judgment>,
    path_checks: &mut Vec<PathCheck>,
)
    ensures
        appended(old(judgments)@, old(path_checks)@, final(judgments)@, final(path_checks)@,
            classify(*entry, val@, cmd_str@, context@)),
{
    let ghost js0 = judgments@;
    let ghost pcs0 = path_checks@;
    classify_positional_entry(&entry.node, val, cmd_str, context, judgments, path_checks);
    let ghost js1 = judgments@;
    let ghost pcs1 = path_checks@;
    match &entry.values {
        Some(values) => {
            let mut head = reason_prefix(cmd_str);
            head.append(context);
            head.append(" arg '");
            head.append(val);
            head.append("' ");
            lookup_values(values, head.as_str(), val, val, judgments, path_checks);
        },
        None => {
            proof {
                lemma_appended_empty(js1, pcs1);
            }
        },
    }
    let ghost js2 = judgments@;
    let ghost pcs2 = path_checks@;
    push_content_check(&entry.check_file, val, judgments, path_checks);
    proof {
        lemma_appended_trans(js0, pcs0, js1, pcs1, js2, pcs2,
            classify_node(entry.node, val@, cmd_str@, context@), entry_values(*entry, val@, cmd_str@, context@));
        lemma_appended_trans(js0, pcs0, js2, pcs2, judgments@, path_checks@,
            join_contrib(classify_node(entry.node, val@, cmd_str@, context@), entry_values(*entry, val@, cmd_str@, context@)),
            content_check(entry.check_file, val@));
    }
}

/// Positional rules for the number of positional args (or the wildcard)
/// applied to the positional args; ask when no rule covers that number.
pub open spec fn spec_collect_positional(
    defs: WildcardMap<PositionalDef>,
    args: Seq<Seq<char>>,
    pos: Seq<int>,
    cmd: Seq<char>,
    ctx: Seq<char>,
) -> Contrib {
    let k = key_index(defs.entries@, decimal(pos.len()));
    if k >= 0 {
        classify_all(targets(defs.entries@[k].1, args, pos), cmd, ctx)
    } else {
        match defs.wildcard {
            Some(w) => classify_all(targets(*w, args, pos), cmd, ctx),
            None => one_j(jv(Decision::Ask, false, r_positional_count(cmd, ctx, pos.len()))),
        }
    }
}

fn apply_positional_def(
    def: &PositionalDef,
    pos_args: &Vec<usize>,
    args: &[String],
    cmd_str: &str,
    context: &str,
    judgments: &mut Vec<Judgment>,
    path_checks: &mut Vec<PathCheck>,
)
    requires
        forall|k: int| 0 <= k < pos_args@.len() ==> #[trigger] pos_args@[k] < args@.len(),
    ensures
        appended(old(judgments)@, old(path_checks)@, final(judgments)@, final(path_checks)@,
            classify_all(targets(*def, views(args@), ints(pos_args@)), cmd_str@, context@)),
{
    let ghost items = targets(*def, views(args@), ints(pos_args@));
    let ghost js0 = judgments@;
    let ghost pcs0 = path_checks@;
    let n: usize = match def {
        PositionalDef::Array(entries) => entries.len(),
        PositionalDef::Single(_) => pos_args.len(),
    };
    assert(n == items.len());
    let mut i: usize = 0;
    proof {
        assert(items.take(0) =~= Seq::<(PositionalEntry, Seq<char>)>::empty());
        assert(jviews(js0) =~= jviews(js0) + Seq::<JudgmentView>::empty());
        assert(check_views(pcs0) =~= check_views(pcs0) + Seq::<PathCheckView>::empty());
    }
    while i < n
        invariant
            i <= n,
            n == items.len(),
            items == targets(*def, views(args@), ints(pos_args@)),
            forall|k: int| 0 <= k < pos_args@.len() ==> #[trigger] pos_args@[k] < args@.len(),
            appended(js0, pcs0, judgments@, path_checks@, classify_all(items.take(i as int), cmd_str@, context@)),
        decreases n - i,
    {
        let ghost js1 = judgments@;
        let ghost pcs1 = path_checks@;
        proof {
            lemma_take_last(items, i as int);
        }
        match def {
            PositionalDef::Array(entries) => {
                let val: &str = if i < pos_args.len() {
                    args[pos_args[i]].as_str()
                } else {
                    proof {
                        reveal_strlit("");
                    }
                    ""
                };
                proof {
                    if i < pos_args.len() {
                        assert(views(args@)[pos_args@[i as int] as int] == val@);
                    }
                    assert(items[i as int] == (entries@[i as int], val@));
                }
                classify_positional(&entries[i], val, cmd_str, context, judgments, path_checks);
            },
            PositionalDef::Single(entry) => {
                proof {
                    assert(views(args@)[pos_args@[i as int] as int] == args@[pos_args@[i as int] as int]@);
                    assert(items[i as int] == (*entry, args@[pos_args@[i as int] as int]@));
                }
                classify_positional(entry, args[pos_args[i]].as_str(), cmd_str, context, judgments, path_checks);
            },
        }
        proof {
            lemma_appended_trans(js0, pcs0, js1, pcs1, judgments@, path_checks@,
                classify_all(items.take(i as int), cmd_str@, context@),
                classify(items[i as int].0, items[i as int].1, cmd_str@, context@));
        }
        i = i + 1;
    }
    assert(items.take(n as int) =~= items);
}

/// Evaluate positional rules against positional args, collecting judgments
/// and path checks.
fn collect_positional_decisions(
    pos_defs: &WildcardMap<PositionalDef>,
    pos_args: &Vec<usize>,
    args: &[String],
    cmd_str: &str,
    context: &str,
    judgments: &mut Vec<Judgment>,
    path_checks: &mut Vec<PathCheck>,
)
    requires
        forall|k: int| 0 <= k < pos_args@.len() ==> #[trigger] pos_args@[k] < args@.len(),
    ensures
        appended(old(judgments)@, old(path_checks)@, final(judgments)@, final(path_checks)@,
            spec_collect_positional(*pos_defs, views(args@), ints(pos_args@), cmd_str@, context@)),
{
    let count = decimal_string(pos_args.len());
    assert(ints(pos_args@).len() == pos_args@.len());
    match find_key(&pos_defs.entries, count.as_str()) {
        Some(k) => {
            apply_positional_def(&pos_defs.entries[k].1, pos_args, args, cmd_str, context, judgments, path_checks);
        },
        None => match pos_defs.wildcard() {
            Some(def) => {
                apply_positional_def(def, pos_args, args, cmd_str, context, judgments, path_checks);
            },
            None => {
                let reason = reason_positional_count(cmd_str, context, count.as_str());
                push_judgment(judgments, path_checks, Judgment::new(Decision::Ask, reason));
            },
        },
    }
}

// ---------------------------------------------------------------------------
// Option values and flags
// ---------------------------------------------------------------------------

// ---------------------------------------------------------------------------
// Value lookup: exact entries, regex patterns, wildcard
// ---------------------------------------------------------------------------

#[verifier::external_type_specification]
#[verifier::external_body]
pub struct ExRegex(regex::Regex);

/// What `regex::Regex::new` reports for the pattern: `None` when it
/// compiles, else the error's message.
pub uninterp spec fn regex_error(pattern: Seq<char>) -> Option<Seq<char>>;

/// Whether the regex compiled from `pattern` matches anywhere in `text`
/// (`regex::Regex::is_match`).
pub uninterp spec fn regex_finds(pattern: Seq<char>, text: Seq<char>) -> bool;

/// Calls `regex::Regex::new` (default options) and turns an error into its
/// message; the contract claims success exactly when `regex_error` names
/// no error, and the message `regex_error` names otherwise.
#[verifier::external_body]
fn regex_new(pattern: &str) -> (r: Result<regex::Regex, String>)
    ensures
        match r {
            Ok(_) => regex_error(pattern@) is None,
            Err(m) => regex_error(pattern@) == Some(m@),
        },
{
    match regex::Regex::new(pattern) {
        Ok(re) => Ok(re),
        Err(e) => Err(e.to_string()),
    }
}

/// A regex together with the pattern it was compiled from.
struct CompiledRegex {
    source: String,
    regex: regex::Regex,
}

/// Calls `regex::Regex::is_match` on the regex that
/// `CompiledRegex::compile` built from `re.source`; the contract claims the
/// result is `regex_finds` of that pattern and the text.
#[verifier::external_body]
fn regex_is_match(re: &CompiledRegex, text: &str) -> (r: bool)
    ensures
        r == regex_finds(re.source@, text@),
{
    re.regex.is_match(text)
}

impl CompiledRegex {
    fn compile(pattern: &str) -> (r: Result<CompiledRegex, String>)
        ensures
            match r {
                Ok(re) => re.source@ == pattern@ && regex_error(pattern@) is None,
                Err(m) => regex_error(pattern@) == Some(m@),
            },
    {
        match regex_new(pattern) {
            Ok(regex) => Ok(CompiledRegex { source: String::from_str(pattern), regex }),
            Err(m) => Err(m),
        }
    }
}

/// What a matched `values` entry contributes, with `reason`: a fixed
/// decision, or a path check of `subject`.
pub open spec fn matched_value(spec: DecisionSpec, reason: Seq<char>, subject: Seq<char>) -> Contrib {
    match spec.node {
        DecisionNode::Static(d) => one_j(jv(d, spec.force, reason)),
        DecisionNode::Conditional(_) => one_pc(
            PathCheckView { path: subject, decision: spec.node, force: spec.force, contents: None },
        ),
    }
}

/// The phrase of a fixed decision (empty for a conditional).
pub open spec fn static_phrase(spec: DecisionSpec) -> Seq<char> {
    match spec.node {
        DecisionNode::Static(d) => decision_phrase(d),
        DecisionNode::Conditional(_) => Seq::empty(),
    }
}

/// `i` is the first non-pattern entry whose key is `text`.
pub open spec fn exact_at(entries: Seq<(Seq<char>, DecisionSpec)>, text: Seq<char>, i: int) -> bool {
    &&& 0 <= i < entries.len()
    &&& entries[i].0 == text && !entries[i].1.is_pattern
    &&& forall|j: int| 0 <= j < i ==> !(entries[j].0 == text && !(#[trigger] entries[j]).1.is_pattern)
}

/// Index of the first non-pattern entry whose key is `text`, or -1.
pub open spec fn exact_index(entries: Seq<(Seq<char>, DecisionSpec)>, text: Seq<char>) -> int {
    if exists|i: int| exact_at(entries, text, i) {
        choose|i: int| exact_at(entries, text, i)
    } else {
        -1
    }
}

/// A pattern entry whose regex compiles and matches `text`.
pub open spec fn pattern_hit(entry: (Seq<char>, DecisionSpec), text: Seq<char>) -> bool {
    entry.1.is_pattern && regex_error(entry.0) is None && regex_finds(entry.0, text)
}

/// What an entry contributes as a pattern: a matching pattern its value; a
/// pattern that does not compile a deny, so that it cannot fall through to
/// the wildcard silently.
pub open spec fn pattern_contrib(entry: (Seq<char>, DecisionSpec), head: Seq<char>, text: Seq<char>, subject: Seq<char>) -> Contrib {
    if !entry.1.is_pattern {
        no_contrib()
    } else {
        match regex_error(entry.0) {
            Some(err) => one_j(jv(Decision::Deny, false, head + "has invalid pattern '"@ + entry.0 + "': "@ + err)),
            None => if regex_finds(entry.0, text) {
                matched_value(entry.1, head + "matched pattern '"@ + entry.0 + "'"@, subject)
            } else {
                no_contrib()
            },
        }
    }
}

/// Pattern contributions of the first `k` entries, in order.
pub open spec fn patterns_upto(
    entries: Seq<(Seq<char>, DecisionSpec)>,
    k: int,
    head: Seq<char>,
    text: Seq<char>,
    subject: Seq<char>,
) -> Contrib
    decreases k,
{
    if k <= 0 || k > entries.len() {
        no_contrib()
    } else {
        join_contrib(
            patterns_upto(entries, k - 1, head, text, subject),
            pattern_contrib(entries[k - 1], head, text, subject),
        )
    }
}

/// A `values` dict applied to `text`, with `head` before each reason and
/// `subject` the path that conditional entries check: the exact entry for
/// `text`, then every pattern entry that matches it (or does not compile);
/// the wildcard only when neither an exact entry nor a pattern matched, and
/// ask when there is no wildcard either.
pub open spec fn values_contrib(values: ValuesView, head: Seq<char>, text: Seq<char>, subject: Seq<char>) -> Contrib {
    let entries = values.entries;
    let ex = exact_index(entries, text);
    let exact = if ex >= 0 {
        matched_value(entries[ex].1, head + static_phrase(entries[ex].1), subject)
    } else {
        no_contrib()
    };
    let pats = patterns_upto(entries, entries.len() as int, head, text, subject);
    let hit = ex >= 0 || exists|j: int| 0 <= j < entries.len() && pattern_hit(#[trigger] entries[j], text);
    let rest = if hit {
        no_contrib()
    } else {
        fallback(values, head, subject)
    };
    join_contrib(join_contrib(exact, pats), rest)
}

/// What a `values` dict gives when nothing matched: the wildcard, else ask.
pub open spec fn fallback(values: ValuesView, head: Seq<char>, subject: Seq<char>) -> Contrib {
    match values.wildcard {
        Some(w) => matched_value(w, head + "matched wildcard"@, subject),
        None => one_j(jv(Decision::Ask, false, head + "not in allowed list"@)),
    }
}

fn push_matched(
    spec: &DecisionSpec,
    reason: String,
    subject: &str,
    judgments: &mut Vec<Judgment>,
    path_checks: &mut Vec<PathCheck>,
)
    ensures
        appended(old(judgments)@, old(path_checks)@, final(judgments)@, final(path_checks)@,
            matched_value(*spec, reason@, subject@)),
{
    match &spec.node {
        DecisionNode::Static(d) => {
            push_judgment(judgments, path_checks, Judgment { decision: *d, force: spec.force, reason });
        },
        DecisionNode::Conditional(_) => {
            let pc = PathCheck {
                path: String::from_str(subject),
                decision: spec.node.duplicate(),
                force: spec.force,
                contents: None,
            };
            push_check(judgments, path_checks, pc);
        },
    }
}

fn find_exact(entries: &Vec<(String, DecisionSpec)>, text: &str) -> (r: Option<usize>)
    ensures
        ({
            let es = entries@.map_values(|e: (String, DecisionSpec)| (e.0@, e.1));
            match r {
                Some(i) => i as int == exact_index(es, text@) && i < entries@.len(),
                None => exact_index(es, text@) == -1,
            }
        }),
{
    let ghost es = entries@.map_values(|e: (String, DecisionSpec)| (e.0@, e.1));
    let mut i: usize = 0;
    while i < entries.len()
        invariant
            i <= entries@.len(),
            es == entries@.map_values(|e: (String, DecisionSpec)| (e.0@, e.1)),
            forall|j: int| 0 <= j < i ==> !(es[j].0 == text@ && !(#[trigger] es[j]).1.is_pattern),
        decreases entries.len() - i,
    {
        assert(es[i as int] == (entries@[i as int].0@, entries@[i as int].1));
        if !entries[i].1.is_pattern && str_equal(entries[i].0.as_str(), text) {
            assert(exact_at(es, text@, i as int));
            assert forall|k: int| exact_at(es, text@, k) implies k == i as int by {
                if k > i {
                    assert(es[i as int].0 == text@ && !es[i as int].1.is_pattern);
                }
            }
            return Some(i);
        }
        i = i + 1;
    }
    assert(!exists|k: int| exact_at(es, text@, k));
    None
}

fn phrase_of(spec: &DecisionSpec) -> (r: &'static str)
    ensures
        r@ == static_phrase(*spec),
{
    match &spec.node {
        DecisionNode::Static(d) => d.description(),
        DecisionNode::Conditional(_) => {
            proof {
                reveal_strlit("");
            }
            ""
        },
    }
}

/// Apply a `values` dict to `text` (see `values_contrib`).
fn lookup_values(
    values: &WildcardMap<DecisionSpec>,
    head: &str,
    text: &str,
    subject: &str,
    judgments: &mut Vec<Judgment>,
    path_checks: &mut Vec<PathCheck>,
)
    ensures
        appended(old(judgments)@, old(path_checks)@, final(judgments)@, final(path_checks)@,
            values_contrib(values_view(*values), head@, text@, subject@)),
{
    let ghost vv = values_view(*values);
    let ghost entries = vv.entries;
    let ghost js0 = judgments@;
    let ghost pcs0 = path_checks@;
    let ex = find_exact(&values.entries, text);
    let ghost exact = if exact_index(entries, text@) >= 0 {
        matched_value(entries[exact_index(entries, text@)].1, head@ + static_phrase(entries[exact_index(entries, text@)].1), subject@)
    } else {
        no_contrib()
    };
    match ex {
        Some(k) => {
            assert(entries[k as int] == (values.entries@[k as int].0@, values.entries@[k as int].1));
            let mut reason = String::from_str(head);
            reason.append(phrase_of(&values.entries[k].1));
            push_matched(&values.entries[k].1, reason, subject, judgments, path_checks);
        },
        None => {
            proof {
                lemma_appended_empty(js0, pcs0);
            }
        },
    }
    let ghost js1 = judgments@;
    let ghost pcs1 = path_checks@;
    let mut hit = ex.is_some();
    let mut i: usize = 0;
    proof {
        lemma_add_none(exact);
    }
    while i < values.entries.len()
        invariant
            i <= entries.len(),
            vv == values_view(*values),
            entries == vv.entries,
            appended(js0, pcs0, judgments@, path_checks@,
                join_contrib(exact, patterns_upto(entries, i as int, head@, text@, subject@))),
            hit == (exact_index(entries, text@) >= 0 || exists|j: int| 0 <= j < i && pattern_hit(#[trigger] entries[j], text@)),
        decreases values.entries.len() - i,
    {
        let ghost js2 = judgments@;
        let ghost pcs2 = path_checks@;
        let ghost before = patterns_upto(entries, i as int, head@, text@, subject@);
        let ghost step = pattern_contrib(entries[i as int], head@, text@, subject@);
        let key = values.entries[i].0.as_str();
        let spec = &values.entries[i].1;
        assert(entries[i as int] == (key@, *spec));
        let ghost was_hit = hit;
        if spec.is_pattern {
            match CompiledRegex::compile(key) {
                Err(m) => {
                    let mut reason = String::from_str(head);
                    reason.append("has invalid pattern '");
                    reason.append(key);
                    reason.append("': ");
                    reason.append(m.as_str());
                    push_judgment(judgments, path_checks, Judgment::new(Decision::Deny, reason));
                },
                Ok(re) => {
                    if regex_is_match(&re, text) {
                        hit = true;
                        let mut reason = String::from_str(head);
                        reason.append("matched pattern '");
                        reason.append(key);
                        reason.append("'");
                        push_matched(spec, reason, subject, judgments, path_checks);
                    } else {
                        proof {
                            lemma_appended_empty(js2, pcs2);
                        }
                    }
                },
            }
        } else {
            proof {
                lemma_appended_empty(js2, pcs2);
            }
        }
        proof {
            lemma_appended_trans(js0, pcs0, js2, pcs2, judgments@, path_checks@,
                join_contrib(exact, before), step);
            lemma_add_assoc(exact, before, step);
            assert(hit == (exact_index(entries, text@) >= 0 || exists|j: int| 0 <= j < i + 1 && pattern_hit(#[trigger] entries[j], text@))) by {
                if pattern_hit(entries[i as int], text@) {
                    assert(hit);
                }
                if exists|j: int| 0 <= j < i + 1 && pattern_hit(#[trigger] entries[j], text@) {
                    let j = choose|j: int| 0 <= j < i + 1 && pattern_hit(#[trigger] entries[j], text@);
                    if j < i {
                        assert(was_hit);
                    }
                }
            }
        }
        i = i + 1;
    }
    let ghost js3 = judgments@;
    let ghost pcs3 = path_checks@;
    if !hit {
        match values.wildcard() {
            Some(w) => {
                let mut reason = String::from_str(head);
                reason.append("matched wildcard");
                push_matched(w, reason, subject, judgments, path_checks);
            },
            None => {
                let mut reason = String::from_str(head);
                reason.append("not in allowed list");
                push_judgment(judgments, path_checks, Judgment::new(Decision::Ask, reason));
            },
        }
    } else {
        proof {
            lemma_appended_empty(js3, pcs3);
        }
    }
    proof {
        let pats = patterns_upto(entries, entries.len() as int, head@, text@, subject@);
        let tail = if hit {
            no_contrib()
        } else {
            fallback(vv, head@, subject@)
        };
        lemma_appended_trans(js0, pcs0, js3, pcs3, judgments@, path_checks@, join_contrib(exact, pats), tail);
    }
}

/// The content check of the file `path` names, when there is a `checkFile`.
pub open spec fn content_check(check: Option<FileCheck>, path: Seq<char>) -> Contrib {
    match check {
        Some(fc) => one_pc(
            PathCheckView {
                path,
                decision: DecisionNode::Static(fc.on_unreadable),
                force: false,
                contents: Some(values_view(fc.values)),
            },
        ),
        None => no_contrib(),
    }
}

fn push_content_check(
    check: &Option<FileCheck>,
    path: &str,
    judgments: &mut Vec<Judgment>,
    path_checks: &mut Vec<PathCheck>,
)
    ensures
        appended(old(judgments)@, old(path_checks)@, final(judgments)@, final(path_checks)@,
            content_check(*check, path@)),
{
    match check {
        Some(fc) => {
            let pc = PathCheck {
                path: String::from_str(path),
                decision: DecisionNode::Static(fc.on_unreadable),
                force: false,
                contents: Some(duplicate_values(&fc.values)),
            };
            push_check(judgments, path_checks, pc);
        },
        None => {
            proof {
                lemma_appended_empty(judgments@, path_checks@);
            }
        },
    }
}

/// What an option with a value contributes: its `values` dict applied to
/// the value, or the option's own decision when it has no `values`.
pub open spec fn spec_option_value(entry: OptionEntry, name: Seq<char>, value: Seq<char>, cmd: Seq<char>) -> Contrib {
    join_contrib(option_own(entry, name, value, cmd), content_check(entry.check_file, value))
}

/// An option's own rules for its value: its `values` dict, else its
/// decision.
pub open spec fn option_own(entry: OptionEntry, name: Seq<char>, value: Seq<char>, cmd: Seq<char>) -> Contrib {
    match entry.values {
        Some(values) => values_contrib(values_view(values), r_value_head(cmd, name, value), value, value),
        None => one_j(jv(entry.decision, entry.force, r_option(cmd, name, entry.decision))),
    }
}

fn value_head(cmd: &str, name: &str, value: &str) -> (r: String)
    ensures
        r@ == r_value_head(cmd@, name@, value@),
{
    let mut r = reason_prefix(cmd);
    r.append("option '");
    r.append(name);
    r.append("' value '");
    r.append(value);
    r.append("' ");
    r
}

/// Evaluate an option entry's value, pushing judgments and path checks.
fn evaluate_option_value(
    entry: &OptionEntry,
    option_name: &str,
    value: &str,
    cmd_str: &str,
    judgments: &mut Vec<Judgment>,
    path_checks: &mut Vec<PathCheck>,
)
    ensures
        appended(old(judgments)@, old(path_checks)@, final(judgments)@, final(path_checks)@,
            spec_option_value(*entry, option_name@, value@, cmd_str@)),
{
    let ghost js0 = judgments@;
    let ghost pcs0 = path_checks@;
    match &entry.values {
        Some(values) => {
            let head = value_head(cmd_str, option_name, value);
            lookup_values(values, head.as_str(), value, value, judgments, path_checks);
        },
        None => {
            let reason = reason_option(cmd_str, option_name, entry.decision);
            push_judgment(judgments, path_checks, Judgment { decision: entry.decision, force: entry.force, reason });
        },
    }
    let ghost js1 = judgments@;
    let ghost pcs1 = path_checks@;
    push_content_check(&entry.check_file, value, judgments, path_checks);
    proof {
        lemma_appended_trans(js0, pcs0, js1, pcs1, judgments@, path_checks@,
            option_own(*entry, option_name@, value@, cmd_str@), content_check(entry.check_file, value@));
    }
}

/// `flag '<arg>' positional`
pub open spec fn ctx_flag_positional(arg: Seq<char>) -> Seq<char> {
    "flag '"@ + arg + "' positional"@
}

/// What a matched flag contributes: its decision, or its positional
/// overlay applied to the positional args.
pub open spec fn flag_contrib(entry: FlagEntry, arg: Seq<char>, cmd: Seq<char>, args: Seq<Seq<char>>, pos: Seq<int>) -> Contrib {
    match entry.kind {
        FlagKind::Decision(d) => one_j(jv(d, entry.force, r_flag(cmd, arg, d))),
        FlagKind::Positional(defs) => spec_collect_positional(defs, args, pos, cmd, ctx_flag_positional(arg)),
    }
}

/// Collect judgments and path checks from a matched flag entry.
fn collect_flag_decisions(
    entry: &FlagEntry,
    arg: &str,
    cmd_str: &str,
    pos_args: &Vec<usize>,
    args: &[String],
    judgments: &mut Vec<Judgment>,
    path_checks: &mut Vec<PathCheck>,
)
    requires
        forall|k: int| 0 <= k < pos_args@.len() ==> #[trigger] pos_args@[k] < args@.len(),
    ensures
        appended(old(judgments)@, old(path_checks)@, final(judgments)@, final(path_checks)@,
            flag_contrib(*entry, arg@, cmd_str@, views(args@), ints(pos_args@))),
{
    match &entry.kind {
        FlagKind::Decision(d) => {
            let reason = reason_flag(cmd_str, arg, *d);
            push_judgment(judgments, path_checks, Judgment { decision: *d, force: entry.force, reason });
        },
        FlagKind::Positional(pos_defs) => {
            let mut context = String::from_str("flag '");
            context.append(arg);
            context.append("' positional");
            collect_positional_decisions(pos_defs, pos_args, args, cmd_str, context.as_str(), judgments, path_checks);
        },
    }
}


// ---------------------------------------------------------------------------
// Flags and options of a node
// ---------------------------------------------------------------------------

/// The flag entry an arg matches: by name or alias, else the wildcard.
pub open spec fn flag_match(arg: Seq<char>, flags: WildcardMap<FlagEntry>) -> Option<FlagEntry> {
    match spec_lookup(arg, flags) {
        Some(e) => Some(e),
        None => match flags.wildcard {
            Some(w) => Some(*w),
            None => None,
        },
    }
}

fn match_flag<'a>(arg: &str, flags: &'a WildcardMap<FlagEntry>) -> (r: Option<&'a FlagEntry>)
    ensures
        match flag_match(arg@, *flags) {
            Some(e) => r.is_some() && *r.unwrap() == e,
            None => r.is_none(),
        },
{
    match lookup_with_alias(arg, flags) {
        Some(e) => Some(e),
        None => flags.wildcard(),
    }
}

/// What the dash-arg at index `i` contributes as a flag: the matched flag's
/// decision or overlay; nothing when it is a known option; ask when it is
/// neither.
pub open spec fn flag_at(args: Seq<Seq<char>>, node: CommandNode, pos: Seq<int>, cmd: Seq<char>, i: int) -> Contrib {
    match node.flags {
        Some(flags) => {
            let arg = args[i];
            if !starts_dash(arg) {
                no_contrib()
            } else {
                match flag_match(arg, flags) {
                    Some(e) => flag_contrib(e, arg, cmd, args, pos),
                    None => {
                        let known_option = match node.options {
                            Some(o) => spec_lookup_option_eq(arg, o).is_some(),
                            None => false,
                        };
                        if known_option {
                            no_contrib()
                        } else {
                            one_j(jv(Decision::Ask, false, r_named(cmd, "unknown flag"@, arg)))
                        }
                    },
                }
            }
        },
        None => no_contrib(),
    }
}

/// Flag contributions of args `1..k`.
pub open spec fn flags_upto(args: Seq<Seq<char>>, node: CommandNode, pos: Seq<int>, cmd: Seq<char>, k: int) -> Contrib
    decreases k,
{
    if k <= 1 {
        no_contrib()
    } else {
        join_contrib(flags_upto(args, node, pos, cmd, k - 1), flag_at(args, node, pos, cmd, k - 1))
    }
}

/// `option '<name>' positional`
pub open spec fn ctx_option_positional(name: Seq<char>) -> Seq<char> {
    "option '"@ + name + "' positional"@
}

/// What a matched option contributes: its value rules, then its positional
/// overlay applied to the positional args.
pub open spec fn option_contrib(
    entry: OptionEntry,
    name: Seq<char>,
    value: Seq<char>,
    cmd: Seq<char>,
    args: Seq<Seq<char>>,
    pos: Seq<int>,
) -> Contrib {
    join_contrib(spec_option_value(entry, name, value, cmd), option_overlay(entry, name, cmd, args, pos))
}

/// An option's positional overlay applied to the positional args.
pub open spec fn option_overlay(entry: OptionEntry, name: Seq<char>, cmd: Seq<char>, args: Seq<Seq<char>>, pos: Seq<int>) -> Contrib {
    match entry.positional {
        Some(defs) => spec_collect_positional(defs, args, pos, cmd, ctx_option_positional(name)),
        None => no_contrib(),
    }
}

/// What the arg at index `i` contributes as an option: the option's value
/// rules applied to the next arg (space form) or the embedded value
/// (`--option=value` form), and its positional overlay.
pub open spec fn option_at(args: Seq<Seq<char>>, node: CommandNode, pos: Seq<int>, cmd: Seq<char>, i: int) -> Contrib {
    match node.options {
        Some(options) => {
            if !starts_dash(args[i]) {
                no_contrib()
            } else {
                match spec_lookup(args[i], options) {
                    Some(e) => option_contrib(
                        e,
                        args[i],
                        if i + 1 < args.len() { args[i + 1] } else { Seq::empty() },
                        cmd,
                        args,
                        pos,
                    ),
                    None => match spec_split_option_eq(args[i]) {
                        Some((name, value)) => match spec_lookup(name, options) {
                            Some(e) => option_contrib(e, name, value, cmd, args, pos),
                            None => no_contrib(),
                        },
                        None => no_contrib(),
                    },
                }
            }
        },
        None => no_contrib(),
    }
}

/// Option contributions of args `1..k`.
pub open spec fn options_upto(args: Seq<Seq<char>>, node: CommandNode, pos: Seq<int>, cmd: Seq<char>, k: int) -> Contrib
    decreases k,
{
    if k <= 1 {
        no_contrib()
    } else {
        join_contrib(options_upto(args, node, pos, cmd, k - 1), option_at(args, node, pos, cmd, k - 1))
    }
}

/// The arg at `i` is a flag or option whose presence suppresses the node's
/// own positional rules.
pub open spec fn overrides_at(args: Seq<Seq<char>>, node: CommandNode, i: int) -> bool {
    &&& starts_dash(args[i])
    &&& {
        ||| node.flags matches Some(f) && flag_match(args[i], f) matches Some(e) && e.override_positional
        ||| node.options matches Some(o) && named_option(args, o, i) matches Some(e) && e.override_positional
    }
}

/// Some flag or option among the args suppresses the node's own positional
/// rules.
pub open spec fn any_override(args: Seq<Seq<char>>, node: CommandNode) -> bool {
    exists|i: int| 1 <= i < args.len() && overrides_at(args, node, i)
}

proof fn lemma_appended_empty(js: Seq<Judgment>, pcs: Seq<PathCheck>)
    ensures
        appended(js, pcs, js, pcs, no_contrib()),
{
    assert(jviews(js) =~= jviews(js) + Seq::<JudgmentView>::empty());
    assert(check_views(pcs) =~= check_views(pcs) + Seq::<PathCheckView>::empty());
}

fn collect_flags(
    args: &[String],
    node: &CommandNode,
    pos_args: &Vec<usize>,
    cmd_str: &str,
    judgments: &mut Vec<Judgment>,
    path_checks: &mut Vec<PathCheck>,
)
    requires
        forall|k: int| 0 <= k < pos_args@.len() ==> #[trigger] pos_args@[k] < args@.len(),
    ensures
        appended(old(judgments)@, old(path_checks)@, final(judgments)@, final(path_checks)@,
            flags_upto(views(args@), *node, ints(pos_args@), cmd_str@, args@.len() as int)),
{
    let ghost a = views(args@);
    let ghost js0 = judgments@;
    let ghost pcs0 = path_checks@;
    proof {
        lemma_appended_empty(js0, pcs0);
    }
    if args.len() <= 1 {
        return;
    }
    let mut i: usize = 1;
    while i < args.len()
        invariant
            1 <= i <= args@.len(),
            a == views(args@),
            forall|k: int| 0 <= k < pos_args@.len() ==> #[trigger] pos_args@[k] < args@.len(),
            appended(js0, pcs0, judgments@, path_checks@, flags_upto(a, *node, ints(pos_args@), cmd_str@, i as int)),
        decreases args.len() - i,
    {
        let ghost js1 = judgments@;
        let ghost pcs1 = path_checks@;
        let arg = args[i].as_str();
        assert(a[i as int] == arg@);
        proof {
            lemma_appended_empty(js1, pcs1);
        }
        if let Some(flags) = &node.flags {
            if starts_with_dash(arg) {
                match match_flag(arg, flags) {
                    Some(entry) => {
                        collect_flag_decisions(entry, arg, cmd_str, pos_args, args, judgments, path_checks);
                    },
                    None => {
                        let known_option = match &node.options {
                            Some(opts) => lookup_option_with_eq(arg, opts).is_some(),
                            None => false,
                        };
                        if !known_option {
                            let reason = reason_named(cmd_str, "unknown flag", arg);
                            push_judgment(judgments, path_checks, Judgment::new(Decision::Ask, reason));
                        }
                    },
                }
            }
        }
        proof {
            lemma_appended_trans(js0, pcs0, js1, pcs1, judgments@, path_checks@,
                flags_upto(a, *node, ints(pos_args@), cmd_str@, i as int),
                flag_at(a, *node, ints(pos_args@), cmd_str@, i as int));
        }
        i = i + 1;
    }
}

/// Collect judgments and path checks from a matched option: its value
/// rules, then its positional overlay.
fn collect_option_decisions(
    entry: &OptionEntry,
    name: &str,
    value: &str,
    cmd_str: &str,
    pos_args: &Vec<usize>,
    args: &[String],
    judgments: &mut Vec<Judgment>,
    path_checks: &mut Vec<PathCheck>,
)
    requires
        forall|k: int| 0 <= k < pos_args@.len() ==> #[trigger] pos_args@[k] < args@.len(),
    ensures
        appended(old(judgments)@, old(path_checks)@, final(judgments)@, final(path_checks)@,
            option_contrib(*entry, name@, value@, cmd_str@, views(args@), ints(pos_args@))),
{
    let ghost js0 = judgments@;
    let ghost pcs0 = path_checks@;
    evaluate_option_value(entry, name, value, cmd_str, judgments, path_checks);
    let ghost js1 = judgments@;
    let ghost pcs1 = path_checks@;
    match &entry.positional {
        Some(defs) => {
            let mut context = String::from_str("option '");
            context.append(name);
            context.append("' positional");
            collect_positional_decisions(defs, pos_args, args, cmd_str, context.as_str(), judgments, path_checks);
        },
        None => {
            proof {
                lemma_appended_empty(js1, pcs1);
            }
        },
    }
    proof {
        lemma_appended_trans(js0, pcs0, js1, pcs1, judgments@, path_checks@,
            spec_option_value(*entry, name@, value@, cmd_str@),
            option_overlay(*entry, name@, cmd_str@, views(args@), ints(pos_args@)));
    }
}

fn collect_options(
    args: &[String],
    node: &CommandNode,
    pos_args: &Vec<usize>,
    cmd_str: &str,
    judgments: &mut Vec<Judgment>,
    path_checks: &mut Vec<PathCheck>,
)
    requires
        forall|k: int| 0 <= k < pos_args@.len() ==> #[trigger] pos_args@[k] < args@.len(),
    ensures
        appended(old(judgments)@, old(path_checks)@, final(judgments)@, final(path_checks)@,
            options_upto(views(args@), *node, ints(pos_args@), cmd_str@, args@.len() as int)),
{
    let ghost a = views(args@);
    let ghost pos = ints(pos_args@);
    let ghost js0 = judgments@;
    let ghost pcs0 = path_checks@;
    proof {
        lemma_appended_empty(js0, pcs0);
    }
    if args.len() <= 1 {
        return;
    }
    let mut i: usize = 1;
    while i < args.len()
        invariant
            1 <= i <= args@.len(),
            a == views(args@),
            pos == ints(pos_args@),
            forall|k: int| 0 <= k < pos_args@.len() ==> #[trigger] pos_args@[k] < args@.len(),
            appended(js0, pcs0, judgments@, path_checks@, options_upto(a, *node, pos, cmd_str@, i as int)),
        decreases args.len() - i,
    {
        let ghost js1 = judgments@;
        let ghost pcs1 = path_checks@;
        let arg = args[i].as_str();
        assert(a[i as int] == arg@);
        proof {
            lemma_appended_empty(js1, pcs1);
        }
        if let Some(options) = &node.options {
            if starts_with_dash(arg) {
                match lookup_with_alias(arg, options) {
                    Some(entry) => {
                        let value: &str = if i + 1 < args.len() {
                            assert(a[i + 1] == args@[i + 1]@);
                            args[i + 1].as_str()
                        } else {
                            proof {
                                reveal_strlit("");
                            }
                            ""
                        };
                        assert(value@ == (if i + 1 < a.len() { a[i + 1] } else { Seq::<char>::empty() }));
                        collect_option_decisions(entry, arg, value, cmd_str, pos_args, args, judgments, path_checks);
                    },
                    None => {
                        if let Some((name, eq_value)) = split_option_eq(arg) {
                            if let Some(entry) = lookup_with_alias(name, options) {
                                collect_option_decisions(entry, name, eq_value, cmd_str, pos_args, args, judgments, path_checks);
                            }
                        }
                    },
                }
            }
        }
        proof {
            lemma_appended_trans(js0, pcs0, js1, pcs1, judgments@, path_checks@,
                options_upto(a, *node, pos, cmd_str@, i as int),
                option_at(a, *node, pos, cmd_str@, i as int));
        }
        i = i + 1;
    }
}

// ---------------------------------------------------------------------------
// Expansion coverage
// ---------------------------------------------------------------------------

/// The option entry that the dash-arg at `j` names, directly or in
/// `--option=value` form.
pub open spec fn named_option(args: Seq<Seq<char>>, options: WildcardMap<OptionEntry>, j: int) -> Option<OptionEntry> {
    match spec_lookup(args[j], options) {
        Some(e) => Some(e),
        None => match spec_split_option_eq(args[j]) {
            Some((name, _)) => spec_lookup(name, options),
            None => None,
        },
    }
}

/// The arg at `j` is an option that allows expansions in its value, and
/// its value is the arg at `i` (the next arg, or `j` itself in the
/// `--option=value` form).
pub open spec fn covers(args: Seq<Seq<char>>, options: WildcardMap<OptionEntry>, j: int, i: int) -> bool {
    &&& 1 <= j < args.len()
    &&& starts_dash(args[j])
    &&& (named_option(args, options, j) matches Some(e) && e.allow_expansions)
    &&& if spec_split_option_eq(args[j]).is_some() {
        i == j
    } else {
        i == j + 1
    }
}

/// Every arg with an expansion is covered, by the node's
/// `allow_expansions` or by an option that allows expansions in its value.
pub open spec fn spec_expansion_coverage(args: Seq<Seq<char>>, efl: Seq<bool>, node: CommandNode) -> bool {
    forall|i: int|
        0 <= i < efl.len() && #[trigger] efl[i] ==> node.allow_expansions || (node.options matches Some(o)
            && exists|j: int| covers(args, o, j, i))
}

/// Check if all non-literal args are covered by option-level or node-level
/// allow_expansions.
pub fn check_expansion_coverage_pub(args: &[String], expansion_flags: &[bool], node: &CommandNode) -> (r: bool)
    ensures
        r == spec_expansion_coverage(views(args@), expansion_flags@, *node),
{
    check_expansion_coverage(args, expansion_flags, node)
}

fn contains_index(v: &Vec<usize>, x: usize) -> (r: bool)
    ensures
        r == v@.contains(x),
{
    let mut i: usize = 0;
    while i < v.len()
        invariant
            i <= v@.len(),
            forall|k: int| 0 <= k < i ==> v@[k] != x,
        decreases v.len() - i,
    {
        if v[i] == x {
            return true;
        }
        i = i + 1;
    }
    false
}

fn check_expansion_coverage(args: &[String], expansion_flags: &[bool], node: &CommandNode) -> (r: bool)
    ensures
        r == spec_expansion_coverage(views(args@), expansion_flags@, *node),
{
    let ghost a = views(args@);
    let mut covered: Vec<usize> = Vec::new();
    if let Some(options) = &node.options {
        let mut j: usize = 1;
        while j < args.len()
            invariant
                1 <= j,
                a == views(args@),
                node.options == Some(*options),
                forall|x: int| (exists|jj: int| jj < j && #[trigger] covers(a, *options, jj, x))
                    <==> ints(covered@).contains(x),
            decreases args.len() - j,
        {
            let ghost before = covered@;
            assert(forall|x: int| (exists|jj: int| jj < j && #[trigger] covers(a, *options, jj, x))
                    <==> ints(before).contains(x));
            let arg = args[j].as_str();
            assert(a[j as int] == arg@);
            if starts_with_dash(arg) {
                let entry = match lookup_with_alias(arg, options) {
                    Some(e) => Some(e),
                    None => match split_option_eq(arg) {
                        Some((name, _)) => lookup_with_alias(name, options),
                        None => None,
                    },
                };
                if let Some(entry) = entry {
                    if entry.allow_expansions {
                        if split_option_eq(arg).is_some() {
                            covered.push(j);
                        } else {
                            covered.push(j + 1);
                        }
                    }
                }
            }
            proof {
                assert(covered@.len() >= before.len());
                assert(forall|k: int| 0 <= k < before.len() ==> covered@[k] == before[k]);
                assert(covered@.len() <= before.len() + 1);
                assert forall|x: int| (exists|jj: int| jj < j + 1 && #[trigger] covers(a, *options, jj, x))
                    <==> ints(covered@).contains(x) by {
                    if ints(covered@).contains(x) {
                        let k = choose|k: int| 0 <= k < ints(covered@).len() && ints(covered@)[k] == x;
                        if k < before.len() {
                            assert(ints(before)[k] == x);
                            assert(ints(before).contains(x));
                            let jj = choose|jj: int| jj < j && #[trigger] covers(a, *options, jj, x);
                            assert(jj < j + 1 && covers(a, *options, jj, x));
                        } else {
                            assert(covers(a, *options, j as int, x));
                        }
                    }
                    if exists|jj: int| jj < j + 1 && #[trigger] covers(a, *options, jj, x) {
                        let jj = choose|jj: int| jj < j + 1 && #[trigger] covers(a, *options, jj, x);
                        if jj < j {
                            assert(exists|jj2: int| jj2 < j && #[trigger] covers(a, *options, jj2, x));
                            assert(ints(before).contains(x));
                            let k = choose|k: int| 0 <= k < ints(before).len() && ints(before)[k] == x;
                            assert(ints(covered@)[k] == x);
                        } else {
                            assert(ints(covered@)[ints(covered@).len() - 1] == x);
                        }
                    }
                }
            }
            j = j + 1;
        }
    }
    let mut i: usize = 0;
    while i < expansion_flags.len()
        invariant
            i <= expansion_flags@.len(),
            a == views(args@),
            node.options matches Some(o) ==> forall|x: int| (exists|jj: int| jj < args@.len() && #[trigger] covers(a, o, jj, x))
                <==> ints(covered@).contains(x),
            node.options.is_none() ==> covered@.len() == 0,
            forall|k: int| 0 <= k < i && #[trigger] expansion_flags@[k] ==> node.allow_expansions || (node.options matches Some(o)
                && exists|j: int| covers(a, o, j, k)),
        decreases expansion_flags.len() - i,
    {
        if expansion_flags[i] && !node.allow_expansions && !contains_index(&covered, i) {
            proof {
                if let Some(o) = &node.options {
                    if exists|j: int| covers(a, *o, j, i as int) {
                        let j = choose|j: int| covers(a, *o, j, i as int);
                        assert(ints(covered@).contains(i as int));
                        let k = choose|k: int| 0 <= k < ints(covered@).len() && ints(covered@)[k] == i as int;
                        assert(covered@[k] == i);
                    }
                }
            }
            return false;
        }
        proof {
            if expansion_flags@[i as int] && !node.allow_expansions {
                assert(covered@.contains(i));
                let k = choose|k: int| 0 <= k < covered@.len() && covered@[k] == i;
                assert(ints(covered@)[k] == i as int);
                assert(ints(covered@).contains(i as int));
            }
        }
        i = i + 1;
    }
    true
}


// ---------------------------------------------------------------------------
// Flags and options before a subcommand
// ---------------------------------------------------------------------------

pub open spec fn pre_unknown(cmd: Seq<char>, arg: Seq<char>) -> Contrib {
    one_j(jv(Decision::Ask, false, r_named(cmd, "unknown flag/option"@, arg)))
}

/// Whether the arg at `i` before the subcommand is an option in space form,
/// whose value is the next arg.
pub open spec fn pre_skips_value(args: Seq<Seq<char>>, node: CommandNode, i: int) -> bool {
    let arg = args[i];
    let fm = match node.flags {
        Some(f) => flag_match(arg, f),
        None => None,
    };
    &&& starts_dash(arg)
    &&& fm.is_none()
    &&& node.options matches Some(o) && spec_lookup(arg, o).is_some()
}

/// What the arg at `i` before the subcommand contributes: a flag's decision
/// (an overlay flag contributes nothing), an option's value rules, or ask
/// for an unknown flag or option when the node has flags or options.
pub open spec fn pre_contrib(args: Seq<Seq<char>>, node: CommandNode, cmd: Seq<char>, i: int) -> Contrib {
    let arg = args[i];
    let fm = match node.flags {
        Some(f) => flag_match(arg, f),
        None => None,
    };
    if !starts_dash(arg) {
        no_contrib()
    } else {
        match fm {
            Some(e) => match e.kind {
                FlagKind::Decision(d) => one_j(jv(d, e.force, r_flag(cmd, arg, d))),
                FlagKind::Positional(_) => no_contrib(),
            },
            None => match node.options {
                Some(o) => match spec_lookup(arg, o) {
                    Some(e) => spec_option_value(
                        e,
                        arg,
                        if i + 1 < args.len() { args[i + 1] } else { Seq::empty() },
                        cmd,
                    ),
                    None => match spec_split_option_eq(arg) {
                        Some((name, value)) => match spec_lookup(name, o) {
                            Some(e) => spec_option_value(e, name, value, cmd),
                            None => pre_unknown(cmd, arg),
                        },
                        None => pre_unknown(cmd, arg),
                    },
                },
                None => if node.flags.is_some() {
                    pre_unknown(cmd, arg)
                } else {
                    no_contrib()
                },
            },
        }
    }
}

/// Contributions of the args from `i` up to (not including) the subcommand
/// at `idx`.
pub open spec fn pre_from(args: Seq<Seq<char>>, idx: int, node: CommandNode, cmd: Seq<char>, i: int) -> Contrib
    decreases idx + 1 - i,
{
    if i < 1 || i >= idx {
        no_contrib()
    } else {
        let next = if pre_skips_value(args, node, i) { i + 2 } else { i + 1 };
        join_contrib(pre_contrib(args, node, cmd, i), pre_from(args, idx, node, cmd, next))
    }
}

/// Collect flag/option decisions from args between the command name and the
/// subcmd.
fn collect_pre_subcmd_decisions(
    args: &[String],
    subcmd_idx: usize,
    node: &CommandNode,
    original_cmd: &str,
    judgments: &mut Vec<Judgment>,
    path_checks: &mut Vec<PathCheck>,
)
    requires
        subcmd_idx < args@.len(),
    ensures
        appended(old(judgments)@, old(path_checks)@, final(judgments)@, final(path_checks)@,
            pre_from(views(args@), subcmd_idx as int, *node, original_cmd@, 1)),
{
    let ghost a = views(args@);
    let ghost js0 = judgments@;
    let ghost pcs0 = path_checks@;
    let ghost mut acc = no_contrib();
    proof {
        lemma_appended_empty(js0, pcs0);
        lemma_add_none(pre_from(a, subcmd_idx as int, *node, original_cmd@, 1));
    }
    let cmd_str = original_cmd;
    let mut i: usize = 1;
    while i < subcmd_idx
        invariant
            1 <= i,
            subcmd_idx < args@.len(),
            a == views(args@),
            appended(js0, pcs0, judgments@, path_checks@, acc),
            join_contrib(acc, pre_from(a, subcmd_idx as int, *node, cmd_str@, i as int))
                == pre_from(a, subcmd_idx as int, *node, cmd_str@, 1),
        decreases subcmd_idx - i,
    {
        let ghost js1 = judgments@;
        let ghost pcs1 = path_checks@;
        let ghost step = pre_contrib(a, *node, cmd_str@, i as int);
        let ghost skips = pre_skips_value(a, *node, i as int);
        proof {
            lemma_appended_empty(js1, pcs1);
        }
        let arg = args[i].as_str();
        assert(a[i as int] == arg@);
        let mut skip_value = false;
        if starts_with_dash(arg) {
            let mut found = false;
            if let Some(flags) = &node.flags {
                if let Some(entry) = match_flag(arg, flags) {
                    if let FlagKind::Decision(d) = &entry.kind {
                        let reason = reason_flag(cmd_str, arg, *d);
                        push_judgment(judgments, path_checks, Judgment { decision: *d, force: entry.force, reason });
                    }
                    found = true;
                }
            }
            if !found {
                if let Some(options) = &node.options {
                    if let Some(entry) = lookup_with_alias(arg, options) {
                        let value: &str = if i + 1 < args.len() {
                            assert(a[i + 1] == args@[i + 1]@);
                            args[i + 1].as_str()
                        } else {
                            proof {
                                reveal_strlit("");
                            }
                            ""
                        };
                        assert(value@ == (if i + 1 < a.len() { a[i + 1] } else { Seq::<char>::empty() }));
                        evaluate_option_value(entry, arg, value, cmd_str, judgments, path_checks);
                        found = true;
                        skip_value = true;
                    } else if let Some((name, eq_value)) = split_option_eq(arg) {
                        if let Some(entry) = lookup_with_alias(name, options) {
                            evaluate_option_value(entry, name, eq_value, cmd_str, judgments, path_checks);
                            found = true;
                        }
                    }
                }
            }
            if !found && (node.flags.is_some() || node.options.is_some()) {
                let reason = reason_named(cmd_str, "unknown flag/option", arg);
                push_judgment(judgments, path_checks, Judgment::new(Decision::Ask, reason));
            }
        }
        assert(skip_value == skips);
        proof {
            lemma_appended_trans(js0, pcs0, js1, pcs1, judgments@, path_checks@, acc, step);
            let next = if skips { i + 2 } else { i + 1 };
            lemma_add_assoc(acc, step, pre_from(a, subcmd_idx as int, *node, cmd_str@, next));
            acc = join_contrib(acc, step);
        }
        i = i + 1;
        if skip_value && i < subcmd_idx {
            i = i + 1;
        }
        proof {
            if skip_value && i as int == subcmd_idx {
                assert(pre_from(a, subcmd_idx as int, *node, cmd_str@, i + 1) == no_contrib());
                assert(pre_from(a, subcmd_idx as int, *node, cmd_str@, i as int) == no_contrib());
            }
        }
    }
    proof {
        lemma_add_none(acc);
    }
}

// ---------------------------------------------------------------------------
// Evaluating a node
// ---------------------------------------------------------------------------

/// The judgments and path checks of a leaf node: flags, options, uncovered
/// expansions and `cwdCheck` judgments followed by positional judgments;
/// flag, option, positional and `cwdCheck` path checks.
pub open spec fn leaf_parts(
    args: Seq<Seq<char>>,
    efl: Seq<bool>,
    has_non_literal: bool,
    node: CommandNode,
    cmd: Seq<char>,
    cwd: Seq<char>,
) -> Contrib {
    let pos = spec_positionals(args, node.options);
    let f = flags_upto(args, node, pos, cmd, args.len() as int);
    let o = options_upto(args, node, pos, cmd, args.len() as int);
    let e = if has_non_literal && !spec_expansion_coverage(args, efl, node) {
        one_j(jv(Decision::Ask, false, pre(cmd) + "contains uncovered variable expansions"@))
    } else {
        no_contrib()
    };
    let p = match node.positional {
        Some(pd) => if any_override(args, node) {
            no_contrib()
        } else {
            spec_collect_positional(pd, args, pos, cmd, "positional"@)
        },
        None => no_contrib(),
    };
    let c = match node.cwd_check {
        Some(cn) => classify_node(cn, cwd, cmd, "cwdCheck"@),
        None => no_contrib(),
    };
    Contrib { js: f.js + o.js + e.js + c.js + p.js, pcs: f.pcs + o.pcs + p.pcs + c.pcs }
}

/// The outcome of a leaf from its judgments and path checks: with path
/// checks, their list and the merged judgments (allow when there are none);
/// else the merged judgments; else the node's own decision (ask when it has
/// none).
pub open spec fn decide(parts: Contrib, node: CommandNode, cmd: Seq<char>, matched: Seq<char>) -> EvalOutcome {
    if parts.pcs.len() > 0 {
        let base = if parts.js.len() == 0 {
            jv(Decision::Allow, false, pre(cmd) + "allowed"@)
        } else {
            spec_merge_judgments(parts.js)
        };
        EvalOutcome::CheckPaths { base_decision: base.decision, path_checks: parts.pcs, reason: base.reason }
    } else if parts.js.len() > 0 {
        let m = spec_merge_judgments(parts.js);
        EvalOutcome::Decided { decision: m.decision, reason: m.reason }
    } else {
        let b = match node.decision {
            Some(d) => d,
            None => Decision::Ask,
        };
        EvalOutcome::Decided { decision: b, reason: pre(cmd) + matched + " "@ + decision_phrase(b) }
    }
}

/// Merge the decisions before a subcommand with the subcommand's outcome.
pub open spec fn combine_pre(pre_c: Contrib, sub: EvalOutcome) -> EvalOutcome {
    if pre_c.js.len() == 0 && pre_c.pcs.len() == 0 {
        sub
    } else {
        match sub {
            EvalOutcome::Decided { decision, reason } => {
                let m = spec_merge_judgments(pre_c.js.push(jv(decision, false, reason)));
                if pre_c.pcs.len() == 0 {
                    EvalOutcome::Decided { decision: m.decision, reason: m.reason }
                } else {
                    EvalOutcome::CheckPaths { base_decision: m.decision, path_checks: pre_c.pcs, reason: m.reason }
                }
            },
            EvalOutcome::CheckPaths { base_decision, path_checks, reason } => {
                let m = spec_merge_judgments(pre_c.js.push(jv(base_decision, false, reason)));
                EvalOutcome::CheckPaths {
                    base_decision: m.decision,
                    path_checks: path_checks + pre_c.pcs,
                    reason: m.reason,
                }
            },
        }
    }
}

/// The expansion flags reach past every matched subcommand: evaluation
/// takes the first flag and the flags after each matched subcommand name,
/// and cannot when there are too few.  More flags than args always do.
pub open spec fn efl_fits(args: Seq<Seq<char>>, efl: Seq<bool>, node: CommandNode) -> bool
    decreases node,
{
    match node.subcmds {
        Some(subcmds) => {
            let pos = spec_positionals(args, node.options);
            if pos.len() > 0 {
                let idx = pos[0];
                let k = key_index(subcmds.entries@, args[idx]);
                if k >= 0 && k < subcmds.entries@.len() {
                    &&& idx + 1 <= efl.len()
                    &&& efl_fits(
                        seq![args[0]] + args.skip(idx + 1),
                        seq![efl[0]] + efl.skip(idx + 1),
                        subcmds.entries@[k].1,
                    )
                } else {
                    true
                }
            } else {
                true
            }
        },
        None => true,
    }
}

/// As many expansion flags as args always fit.
pub proof fn lemma_efl_fits(args: Seq<Seq<char>>, efl: Seq<bool>, node: CommandNode)
    requires
        args.len() <= efl.len(),
    ensures
        efl_fits(args, efl, node),
    decreases node,
{
    if let Some(subcmds) = node.subcmds {
        let pos = spec_positionals(args, node.options);
        if pos.len() > 0 {
            lemma_positionals_bounds(args, node.options, 1);
            let idx = pos[0];
            let k = key_index(subcmds.entries@, args[idx]);
            if k >= 0 && k < subcmds.entries@.len() {
                lemma_efl_fits(
                    seq![args[0]] + args.skip(idx + 1),
                    seq![efl[0]] + efl.skip(idx + 1),
                    subcmds.entries@[k].1,
                );
            }
        }
    }
}

/// The expansion flags fit the command's rules (see `efl_fits`) whenever
/// the command is evaluated against them.
pub open spec fn command_efl_fits(args: Seq<Seq<char>>, efl: Seq<bool>, force_allow: bool, rules: BashRules) -> bool {
    let k = key_index(rules.commands@, args[0]);
    !force_allow && args.len() > 0 && !(args.len() == 2 && (args[1] == "--help"@ || args[1] == "--version"@)) && 0 <= k
        < rules.commands@.len() ==> efl_fits(args, efl, rules.commands@[k].1)
}

/// Outcome of evaluating `args` (command name first) against `node`.  With
/// subcommands and a first positional arg: a listed subcommand is evaluated
/// on the command name and the args after it, merged with the flags and
/// options before it; an unlisted one takes the wildcard's decision, or ask.
/// Otherwise the node is a leaf.
pub open spec fn spec_evaluate_node(
    args: Seq<Seq<char>>,
    efl: Seq<bool>,
    has_non_literal: bool,
    node: CommandNode,
    cmd: Seq<char>,
    matched: Seq<char>,
    cwd: Seq<char>,
) -> EvalOutcome
    decreases node,
{
    let pos = spec_positionals(args, node.options);
    match node.subcmds {
        Some(subcmds) => {
            if pos.len() > 0 {
                let idx = pos[0];
                let name = args[idx];
                let k = key_index(subcmds.entries@, name);
                if k >= 0 && k < subcmds.entries@.len() {
                    let sub = subcmds.entries@[k].1;
                    let pre_c = pre_from(args, idx, node, cmd, 1);
                    let rest_args = seq![args[0]] + args.skip(idx + 1);
                    let rest_efl = seq![efl[0]] + efl.skip(idx + 1);
                    combine_pre(
                        pre_c,
                        spec_evaluate_node(rest_args, rest_efl, has_non_literal, sub, cmd, "subcmd '"@ + name + "'"@, cwd),
                    )
                } else {
                    match subcmds.wildcard {
                        Some(w) => EvalOutcome::Decided {
                            decision: match w.decision {
                                Some(d) => d,
                                None => Decision::Ask,
                            },
                            reason: r_named(cmd, "subcmd"@, name) + " matched wildcard"@,
                        },
                        None => EvalOutcome::Decided {
                            decision: Decision::Ask,
                            reason: r_named(cmd, "subcmd"@, name) + " not in allowed list"@,
                        },
                    }
                }
            } else {
                decide(leaf_parts(args, efl, has_non_literal, node, cmd, cwd), node, cmd, matched)
            }
        },
        None => decide(leaf_parts(args, efl, has_non_literal, node, cmd, cwd), node, cmd, matched),
    }
}


proof fn lemma_jviews_concat(a: Seq<Judgment>, b: Seq<Judgment>)
    ensures
        jviews(a + b) == jviews(a) + jviews(b),
{
    assert(jviews(a + b) =~= jviews(a) + jviews(b));
}

proof fn lemma_checks_concat(a: Seq<PathCheck>, b: Seq<PathCheck>)
    ensures
        check_views(a + b) == check_views(a) + check_views(b),
{
    assert(check_views(a + b) =~= check_views(a) + check_views(b));
}

fn finish_leaf(
    judgments: &Vec<Judgment>,
    path_checks: Vec<PathCheck>,
    node: &CommandNode,
    cmd_str: &str,
    matched_rule: &str,
) -> (r: EvalResult)
    ensures
        r@ == decide(Contrib { js: jviews(judgments@), pcs: check_views(path_checks@) }, *node, cmd_str@, matched_rule@),
{
    if path_checks.len() > 0 {
        let base = if judgments.len() == 0 {
            Judgment::new(Decision::Allow, reason_plain(cmd_str, "allowed"))
        } else {
            merge_judgments(judgments)
        };
        EvalResult::CheckPaths { base_decision: base.decision, path_checks, reason: base.reason }
    } else if judgments.len() > 0 {
        let merged = merge_judgments(judgments);
        EvalResult::Decided { decision: merged.decision, reason: merged.reason }
    } else {
        let base = match node.decision {
            Some(d) => d,
            None => Decision::Ask,
        };
        let mut reason = reason_prefix(cmd_str);
        reason.append(matched_rule);
        reason.append(" ");
        reason.append(base.description());
        EvalResult::Decided { decision: base, reason }
    }
}

/// Whether some flag or option among the args suppresses the node's own
/// positional rules.
fn positional_overridden(args: &[String], node: &CommandNode) -> (r: bool)
    ensures
        r == any_override(views(args@), *node),
{
    let ghost a = views(args@);
    let mut i: usize = 1;
    while i < args.len()
        invariant
            1 <= i,
            a == views(args@),
            forall|j: int| 1 <= j < i && j < a.len() ==> !overrides_at(a, *node, j),
        decreases args.len() - i,
    {
        let arg = args[i].as_str();
        assert(a[i as int] == arg@);
        if starts_with_dash(arg) {
            let mut found = false;
            if let Some(flags) = &node.flags {
                if let Some(e) = match_flag(arg, flags) {
                    if e.override_positional {
                        found = true;
                    }
                }
            }
            if let Some(options) = &node.options {
                if let Some((e, _)) = lookup_option_with_eq(arg, options) {
                    if e.override_positional {
                        found = true;
                    }
                }
            }
            if found {
                assert(overrides_at(a, *node, i as int));
                return true;
            }
        }
        i = i + 1;
    }
    false
}

/// Evaluate a node that has no subcommand to descend into.
fn evaluate_leaf(
    args: &[String],
    expansion_flags: &[bool],
    has_non_literal: bool,
    node: &CommandNode,
    cmd_str: &str,
    matched_rule: &str,
    cwd: &str,
) -> (r: EvalResult)
    ensures
        r@ == decide(
            leaf_parts(views(args@), expansion_flags@, has_non_literal, *node, cmd_str@, cwd@),
            *node,
            cmd_str@,
            matched_rule@,
        ),
{
    let ghost a = views(args@);
    let mut judgments: Vec<Judgment> = Vec::new();
    let mut path_checks: Vec<PathCheck> = Vec::new();
    let pos_args = extract_positionals(args, &node.options);
    let ghost pos = ints(pos_args@);

    collect_flags(args, node, &pos_args, cmd_str, &mut judgments, &mut path_checks);
    let ghost j1 = judgments@;
    let ghost p1 = path_checks@;
    collect_options(args, node, &pos_args, cmd_str, &mut judgments, &mut path_checks);
    let ghost j2 = judgments@;
    let ghost p2 = path_checks@;
    if has_non_literal && !check_expansion_coverage(args, expansion_flags, node) {
        let reason = reason_plain(cmd_str, "contains uncovered variable expansions");
        push_judgment(&mut judgments, &path_checks, Judgment::new(Decision::Ask, reason));
    } else {
        proof {
            lemma_appended_empty(judgments@, path_checks@);
        }
    }
    let ghost j3 = judgments@;

    let mut pos_judgments: Vec<Judgment> = Vec::new();
    let mut pos_checks: Vec<PathCheck> = Vec::new();
    // A flag or option with `overridePositional` replaces the node's own
    // positional rules with its overlay.
    let overridden = positional_overridden(args, node);
    match &node.positional {
        Some(positional) if !overridden => {
            collect_positional_decisions(positional, &pos_args, args, cmd_str, "positional", &mut pos_judgments, &mut pos_checks);
        },
        _ => {
            proof {
                lemma_appended_empty(pos_judgments@, pos_checks@);
            }
        },
    }
    let ghost pj = pos_judgments@;
    let ghost pc = pos_checks@;
    path_checks.append(&mut pos_checks);
    let ghost p3 = path_checks@;
    proof {
        lemma_checks_concat(p2, pc);
    }

    if let Some(cwd_node) = &node.cwd_check {
        classify_positional_entry(cwd_node, cwd, cmd_str, "cwdCheck", &mut judgments, &mut path_checks);
    } else {
        proof {
            lemma_appended_empty(judgments@, path_checks@);
        }
    }
    let ghost j4 = judgments@;
    judgments.append(&mut pos_judgments);
    proof {
        lemma_jviews_concat(j4, pj);
        let parts = leaf_parts(a, expansion_flags@, has_non_literal, *node, cmd_str@, cwd@);
        assert(jviews(judgments@) =~= parts.js);
        assert(check_views(path_checks@) =~= parts.pcs);
    }
    finish_leaf(&judgments, path_checks, node, cmd_str, matched_rule)
}

/// The command name followed by the args after index `idx`.
fn args_after(args: &[String], idx: usize) -> (r: Vec<String>)
    requires
        idx < args@.len(),
    ensures
        views(r@) == seq![views(args@)[0]] + views(args@).skip(idx + 1),
{
    let mut r: Vec<String> = Vec::new();
    r.push(args[0].clone());
    let mut k = idx + 1;
    while k < args.len()
        invariant
            idx + 1 <= k <= args@.len(),
            views(r@) == seq![views(args@)[0]] + views(args@).subrange(idx + 1, k as int),
        decreases args.len() - k,
    {
        let ghost before = r@;
        r.push(args[k].clone());
        assert(views(r@) =~= views(before).push(views(args@)[k as int]));
        assert(views(args@).subrange(idx + 1, k + 1) =~= views(args@).subrange(idx + 1, k as int).push(views(args@)[k as int]));
        k = k + 1;
        assert(views(r@) =~= seq![views(args@)[0]] + views(args@).subrange(idx + 1, k as int));
    }
    assert(views(args@).subrange(idx + 1, args@.len() as int) =~= views(args@).skip(idx + 1));
    r
}

/// The first flag followed by the flags after index `idx`.
fn flags_after(flags: &[bool], idx: usize) -> (r: Vec<bool>)
    requires
        idx < flags@.len(),
    ensures
        r@ == seq![flags@[0]] + flags@.skip(idx + 1),
{
    let mut r: Vec<bool> = Vec::new();
    r.push(flags[0]);
    let mut k = idx + 1;
    while k < flags.len()
        invariant
            idx + 1 <= k <= flags@.len(),
            r@ == seq![flags@[0]] + flags@.subrange(idx + 1, k as int),
        decreases flags.len() - k,
    {
        r.push(flags[k]);
        k = k + 1;
        assert(r@ =~= seq![flags@[0]] + flags@.subrange(idx + 1, k as int));
    }
    assert(flags@.subrange(idx + 1, flags@.len() as int) =~= flags@.skip(idx + 1));
    r
}

fn combine_with_pre(pre_judgments: Vec<Judgment>, pre_checks: Vec<PathCheck>, sub: EvalResult) -> (r: EvalResult)
    ensures
        r@ == combine_pre(Contrib { js: jviews(pre_judgments@), pcs: check_views(pre_checks@) }, sub@),
{
    if pre_judgments.len() == 0 && pre_checks.len() == 0 {
        return sub;
    }
    let mut all = pre_judgments;
    let mut pre_checks = pre_checks;
    match sub {
        EvalResult::Decided { decision, reason } => {
            let ghost before = all@;
            let j = Judgment::new(decision, reason);
            all.push(j);
            proof {
                lemma_push_judgment(before, j);
                assert(jviews(all@) =~= jviews(before).push(j@));
            }
            let merged = merge_judgments(&all);
            if pre_checks.len() == 0 {
                EvalResult::Decided { decision: merged.decision, reason: merged.reason }
            } else {
                EvalResult::CheckPaths { base_decision: merged.decision, path_checks: pre_checks, reason: merged.reason }
            }
        },
        EvalResult::CheckPaths { base_decision, path_checks, reason } => {
            let ghost before = all@;
            let j = Judgment::new(base_decision, reason);
            all.push(j);
            proof {
                lemma_push_judgment(before, j);
                assert(jviews(all@) =~= jviews(before).push(j@));
            }
            let merged = merge_judgments(&all);
            let mut path_checks = path_checks;
            let ghost p0 = path_checks@;
            let ghost q0 = pre_checks@;
            path_checks.append(&mut pre_checks);
            proof {
                lemma_checks_concat(p0, q0);
            }
            EvalResult::CheckPaths { base_decision: merged.decision, path_checks, reason: merged.reason }
        },
    }
}

/// Evaluate a command's args against a node in the decision tree (see
/// `spec_evaluate_node`).
fn evaluate_node(
    args: &[String],
    expansion_flags: &[bool],
    has_non_literal: bool,
    node: &CommandNode,
    original_cmd: &str,
    matched_rule: &str,
    cwd: &str,
) -> (r: EvalResult)
    requires
        efl_fits(views(args@), expansion_flags@, *node),
    ensures
        r@ == spec_evaluate_node(views(args@), expansion_flags@, has_non_literal, *node, original_cmd@, matched_rule@, cwd@),
    decreases node,
{
    let ghost a = views(args@);
    let cmd_str = original_cmd;
    if let Some(subcmds) = &node.subcmds {
        let positionals = extract_positionals(args, &node.options);
        if positionals.len() > 0 {
            let idx = positionals[0];
            assert(idx as int == spec_positionals(a, node.options)[0]);
            let subcmd_name = args[idx].as_str();
            assert(a[idx as int] == subcmd_name@);
            match find_key(&subcmds.entries, subcmd_name) {
                Some(k) => {
                    let subcmd_node = &subcmds.entries[k].1;
                    let mut pre_judgments: Vec<Judgment> = Vec::new();
                    let mut pre_checks: Vec<PathCheck> = Vec::new();
                    collect_pre_subcmd_decisions(args, idx, node, original_cmd, &mut pre_judgments, &mut pre_checks);
                    proof {
                        assert(jviews(pre_judgments@) =~= pre_from(a, idx as int, *node, cmd_str@, 1).js);
                        assert(check_views(pre_checks@) =~= pre_from(a, idx as int, *node, cmd_str@, 1).pcs);
                    }
                    let remaining_args = args_after(args, idx);
                    let remaining_efl = flags_after(expansion_flags, idx);
                    assert(views(remaining_args@) == seq![a[0]] + a.skip(idx + 1));
                    let mut matched_sub = String::from_str("subcmd '");
                    matched_sub.append(subcmd_name);
                    matched_sub.append("'");
                    let subcmd_eval = evaluate_node(
                        remaining_args.as_slice(),
                        remaining_efl.as_slice(),
                        has_non_literal,
                        subcmd_node,
                        original_cmd,
                        matched_sub.as_str(),
                        cwd,
                    );
                    return combine_with_pre(pre_judgments, pre_checks, subcmd_eval);
                },
                None => {
                    match subcmds.wildcard() {
                        Some(wildcard) => {
                            let decision = match wildcard.decision {
                                Some(d) => d,
                                None => Decision::Ask,
                            };
                            let mut reason = reason_named(cmd_str, "subcmd", subcmd_name);
                            reason.append(" matched wildcard");
                            return EvalResult::Decided { decision, reason };
                        },
                        None => {
                            let mut reason = reason_named(cmd_str, "subcmd", subcmd_name);
                            reason.append(" not in allowed list");
                            return EvalResult::Decided { decision: Decision::Ask, reason };
                        },
                    }
                },
            }
        }
    }
    evaluate_leaf(args, expansion_flags, has_non_literal, node, cmd_str, matched_rule, cwd)
}

/// Format args as a readable command string for reasons.
fn fmt_cmd(args: &[String]) -> (r: String)
    ensures
        r@ == join(views(args@), " "@),
{
    join_strings(args, " ")
}

/// Outcome of evaluating a command: allowed when a wrapper forced it; ask
/// when empty; allowed when its only argument is `--help` or `--version`;
/// ask for a command without rules; otherwise its rule tree decides.
pub open spec fn spec_evaluate_command(
    args: Seq<Seq<char>>,
    efl: Seq<bool>,
    has_non_literal: bool,
    force_allow: bool,
    rules: BashRules,
    cwd: Seq<char>,
) -> EvalOutcome {
    if force_allow {
        EvalOutcome::Decided {
            decision: Decision::Allow,
            reason: "'"@ + join(args, " "@) + "': wrapper command force-allow"@,
        }
    } else if args.len() == 0 {
        EvalOutcome::Decided { decision: Decision::Ask, reason: "empty command"@ }
    } else if args.len() == 2 && (args[1] == "--help"@ || args[1] == "--version"@) {
        EvalOutcome::Decided { decision: Decision::Allow, reason: "'"@ + args[0] + " "@ + args[1] + "' is always allowed"@ }
    } else {
        let k = key_index(rules.commands@, args[0]);
        if k < 0 {
            EvalOutcome::Decided { decision: Decision::Ask, reason: pre(args[0]) + "unknown command"@ }
        } else {
            spec_evaluate_node(
                args,
                efl,
                has_non_literal,
                rules.commands@[k].1,
                join(args, " "@),
                "command '"@ + args[0] + "'"@,
                cwd,
            )
        }
    }
}

/// Evaluate a single command against the rules.
pub fn evaluate_command(
    args: &[String],
    expansion_flags: &[bool],
    has_non_literal: bool,
    force_allow: bool,
    rules: &BashRules,
    cwd: &str,
) -> (r: EvalResult)
    requires
        command_efl_fits(views(args@), expansion_flags@, force_allow, *rules),
    ensures
        r@ == spec_evaluate_command(views(args@), expansion_flags@, has_non_literal, force_allow, *rules, cwd@),
{
    let ghost a = views(args@);
    if force_allow {
        let mut reason = String::from_str("'");
        reason.append(fmt_cmd(args).as_str());
        reason.append("': wrapper command force-allow");
        return EvalResult::Decided { decision: Decision::Allow, reason };
    }
    if args.len() == 0 {
        return EvalResult::Decided { decision: Decision::Ask, reason: String::from_str("empty command") };
    }
    assert(a[0] == args@[0]@);
    if args.len() == 2 {
        assert(a[1] == args@[1]@);
        if str_equal(args[1].as_str(), "--help") || str_equal(args[1].as_str(), "--version") {
            let mut reason = String::from_str("'");
            reason.append(args[0].as_str());
            reason.append(" ");
            reason.append(args[1].as_str());
            reason.append("' is always allowed");
            return EvalResult::Decided { decision: Decision::Allow, reason };
        }
    }
    let cmd = args[0].as_str();
    match find_key(&rules.commands, cmd) {
        None => EvalResult::Decided { decision: Decision::Ask, reason: reason_plain(cmd, "unknown command") },
        Some(k) => {
            let original = fmt_cmd(args);
            let mut matched = String::from_str("command '");
            matched.append(cmd);
            matched.append("'");
            evaluate_node(args, expansion_flags, has_non_literal, &rules.commands[k].1, original.as_str(), matched.as_str(), cwd)
        },
    }
}


// ---------------------------------------------------------------------------
// Wrapper stripping
// ---------------------------------------------------------------------------

/// Some entry of `flags` is forced and is named `head` or has it as alias.
pub open spec fn has_force_flag(flags: WildcardMap<FlagEntry>, head: Seq<char>) -> bool {
    exists|i: int|
        0 <= i < flags.entries@.len() && (#[trigger] flags.entries@[i]).1.force && (flags.entries@[i].0@ == head
            || flags.entries@[i].1.alias_views().contains(head))
}

/// Where a wrapper's own flags and options end, scanning from `j`, and
/// whether the scan stopped at a forced flag: a forced flag stops the scan
/// where it stands; known flags are consumed, known options with their
/// value (space form) or embedded value, a `--` is consumed and stops the
/// scan; anything else stops it.
pub open spec fn consumed(args: Seq<Seq<char>>, node: CommandNode, j: int) -> (int, bool)
    decreases args.len() - j,
{
    if j < 0 || j >= args.len() {
        (j, false)
    } else if node.flags matches Some(f) && has_force_flag(f, args[j]) {
        (j, true)
    } else if args[j] == "--"@ {
        (j + 1, false)
    } else if !starts_dash(args[j]) {
        (j, false)
    } else if node.flags matches Some(f) && spec_lookup(args[j], f).is_some() {
        consumed(args, node, j + 1)
    } else {
        match node.options {
            Some(o) => if spec_lookup(args[j], o).is_some() {
                consumed(args, node, if j + 2 <= args.len() { j + 2 } else { args.len() as int })
            } else if spec_split_option_eq(args[j]) matches Some((name, _)) && spec_lookup(name, o).is_some() {
                consumed(args, node, j + 1)
            } else {
                (j, false)
            },
            None => (j, false),
        }
    }
}

pub proof fn lemma_consumed_bounds(args: Seq<Seq<char>>, node: CommandNode, j: int)
    requires
        0 <= j <= args.len(),
    ensures
        j <= consumed(args, node, j).0 <= args.len(),
        consumed(args, node, j).1 ==> consumed(args, node, j).0 < args.len(),
    decreases args.len() - j,
{
    if j < args.len() {
        lemma_consumed_bounds(args, node, j + 1);
        lemma_consumed_bounds(args, node, if j + 2 <= args.len() { j + 2 } else { args.len() as int });
    }
}

/// Stripping wrappers from index `s` on: where the inner command starts,
/// and whether a forced wrapper flag allowed the whole command.  A wrapper
/// command is dropped with its own flags and options and `skip_positional`
/// further args; a forced flag among its flags stops stripping there and
/// allows the command.
pub open spec fn strip_from(args: Seq<Seq<char>>, rules: BashRules, s: int) -> (int, bool)
    decreases args.len() - s,
{
    if s < 0 || s >= args.len() {
        (s, false)
    } else {
        let k = key_index(rules.commands@, args[s]);
        if k < 0 || k >= rules.commands@.len() || !rules.commands@[k].1.is_wrapper {
            (s, false)
        } else {
            let node = rules.commands@[k].1;
            proof {
                lemma_consumed_bounds(args, node, s + 1);
            }
            let (c, forced) = consumed(args, node, s + 1);
            if forced {
                (c, true)
            } else {
                let n = if c + node.skip_positional > args.len() { args.len() as int } else { c + node.skip_positional };
                strip_from(args, rules, n)
            }
        }
    }
}

/// Result of wrapper stripping.
pub struct StrippedCommand {
    pub args: Vec<String>,
    pub expansion_flags: Vec<bool>,
    pub force_allow: bool,
}

fn has_force(flags: &WildcardMap<FlagEntry>, head: &str) -> (r: bool)
    ensures
        r == has_force_flag(*flags, head@),
{
    let mut i: usize = 0;
    while i < flags.entries.len()
        invariant
            i <= flags.entries@.len(),
            forall|j: int| 0 <= j < i ==> !((#[trigger] flags.entries@[j]).1.force && (flags.entries@[j].0@ == head@
                || flags.entries@[j].1.alias_views().contains(head@))),
        decreases flags.entries.len() - i,
    {
        let entry = &flags.entries[i].1;
        if entry.force && (str_equal(flags.entries[i].0.as_str(), head) || crate::text::contains_str(entry.aliases(), head)) {
            return true;
        }
        i = i + 1;
    }
    false
}

fn consume_wrapper_args(args: &Vec<String>, node: &CommandNode, start: usize) -> (r: (usize, bool))
    requires
        start <= args@.len(),
    ensures
        (r.0 as int, r.1) == consumed(views(args@), *node, start as int),
{
    let ghost a = views(args@);
    let mut j = start;
    while j < args.len()
        invariant
            start <= j <= args@.len(),
            a == views(args@),
            consumed(a, *node, j as int) == consumed(a, *node, start as int),
        decreases args.len() - j,
    {
        let head = args[j].as_str();
        assert(a[j as int] == head@);
        if let Some(flags) = &node.flags {
            if has_force(flags, head) {
                return (j, true);
            }
        }
        if str_equal(head, "--") {
            return (j + 1, false);
        }
        if !starts_with_dash(head) {
            return (j, false);
        }
        if let Some(flags) = &node.flags {
            if lookup_with_alias(head, flags).is_some() {
                j = j + 1;
                continue;
            }
        }
        match &node.options {
            Some(options) => {
                if lookup_with_alias(head, options).is_some() {
                    j = if args.len() - j >= 2 { j + 2 } else { args.len() };
                    continue;
                }
                let eq_known = match split_option_eq(head) {
                    Some((name, _)) => lookup_with_alias(name, options).is_some(),
                    None => false,
                };
                if eq_known {
                    j = j + 1;
                    continue;
                }
                return (j, false);
            },
            None => {
                return (j, false);
            },
        }
    }
    (j, false)
}

/// The args and expansion flags left after stripping wrappers, and whether
/// a forced wrapper flag allowed the command.
pub open spec fn spec_strip(args: Seq<Seq<char>>, efl: Seq<bool>, rules: BashRules) -> (Seq<Seq<char>>, Seq<bool>, bool) {
    let (s, forced) = strip_from(args, rules, 0);
    (args.skip(s), efl.skip(s), forced)
}

/// Stripping wrappers ends within the args.
pub proof fn lemma_strip_bounds(args: Seq<Seq<char>>, rules: BashRules, s: int)
    requires
        0 <= s <= args.len(),
    ensures
        s <= strip_from(args, rules, s).0 <= args.len(),
    decreases args.len() - s,
{
    if s < args.len() {
        let k = key_index(rules.commands@, args[s]);
        if k >= 0 && k < rules.commands@.len() && rules.commands@[k].1.is_wrapper {
            let node = rules.commands@[k].1;
            lemma_consumed_bounds(args, node, s + 1);
            let c = consumed(args, node, s + 1).0;
            let n = if c + node.skip_positional > args.len() { args.len() as int } else { c + node.skip_positional };
            lemma_strip_bounds(args, rules, n);
        }
    }
}

/// Strip all chained wrapper commands from the front of an args list.
pub fn strip_wrappers(cmd: &ExtractedCommand, rules: &BashRules) -> (r: StrippedCommand)
    requires
        strip_from(views(cmd.args@), *rules, 0).0 <= cmd.expansion_flags@.len(),
    ensures
        (views(r.args@), r.expansion_flags@, r.force_allow) == spec_strip(views(cmd.args@), cmd.expansion_flags@, *rules),
        cmd.args@.len() <= cmd.expansion_flags@.len() ==> r.args@.len() <= r.expansion_flags@.len(),
{
    let ghost a = views(cmd.args@);
    let args = &cmd.args;
    let mut start: usize = 0;
    let mut force_allow = false;
    while start < args.len()
        invariant_except_break
            strip_from(a, *rules, start as int) == strip_from(a, *rules, 0),
            !force_allow,
        invariant
            start <= args@.len(),
            a == views(args@),
            args == &cmd.args,
        ensures
            start <= args@.len(),
            strip_from(a, *rules, 0) == (start as int, force_allow),
        decreases args.len() - start,
    {
        assert(a[start as int] == args@[start as int]@);
        let k = match find_key(&rules.commands, args[start].as_str()) {
            Some(k) => k,
            None => break,
        };
        let node = &rules.commands[k].1;
        if !node.is_wrapper {
            break;
        }
        let t = start + 1;
        proof {
            lemma_consumed_bounds(a, *node, t as int);
        }
        let (c, forced) = consume_wrapper_args(args, node, t);
        if forced {
            start = c;
            force_allow = true;
            break;
        }
        start = if node.skip_positional > args.len() - c { args.len() } else { c + node.skip_positional };
    }
    proof {
        lemma_strip_bounds(a, *rules, 0);
    }
    let mut out_args: Vec<String> = Vec::new();
    let mut out_efl: Vec<bool> = Vec::new();
    let mut i = start;
    while i < args.len()
        invariant
            start <= i <= args@.len(),
            a == views(args@),
            args == &cmd.args,
            views(out_args@) == a.subrange(start as int, i as int),
        decreases args.len() - i,
    {
        let ghost before = out_args@;
        out_args.push(args[i].clone());
        assert(views(out_args@) =~= views(before).push(a[i as int]));
        i = i + 1;
        assert(views(out_args@) =~= a.subrange(start as int, i as int));
    }
    assert(out_efl@ =~= cmd.expansion_flags@.subrange(start as int, start as int));
    let mut j = start;
    while j < cmd.expansion_flags.len()
        invariant
            start <= j <= cmd.expansion_flags@.len(),
            out_efl@ == cmd.expansion_flags@.subrange(start as int, j as int),
        decreases cmd.expansion_flags.len() - j,
    {
        out_efl.push(cmd.expansion_flags[j]);
        j = j + 1;
        assert(out_efl@ =~= cmd.expansion_flags@.subrange(start as int, j as int));
    }
    assert(a.subrange(start as int, args@.len() as int) =~= a.skip(start as int));
    assert(out_efl@ =~= cmd.expansion_flags@.skip(start as int));
    StrippedCommand { args: out_args, expansion_flags: out_efl, force_allow }
}

// ---------------------------------------------------------------------------
// Content checks
// ---------------------------------------------------------------------------

/// `file '<path>' contents `
pub open spec fn contents_head(path: Seq<char>) -> Seq<char> {
    "file '"@ + path + "' contents "@
}

/// Path checks turned into judgments by resolving them.
pub open spec fn resolved_judgments(pcs: Seq<PathCheckView>, fa: FileAccessView, cwd: Seq<char>) -> Seq<JudgmentView> {
    pcs.map_values(
        |pc: PathCheckView|
            {
                let d = spec_resolve(pc.decision, fa, pc.path, cwd);
                jv(d, pc.force, "path '"@ + pc.path + "' "@ + decision_phrase(d))
            },
    )
}

/// The judgment of a file's contents under a content check: the dict
/// applied to the contents, its conditional entries resolved against the
/// file's path, all merged.
pub open spec fn contents_judgment(
    values: ValuesView,
    path: Seq<char>,
    text: Seq<char>,
    fa: FileAccessView,
    cwd: Seq<char>,
) -> JudgmentView {
    let c = values_contrib(values, contents_head(path), text, path);
    spec_merge_judgments(c.js + resolved_judgments(c.pcs, fa, cwd))
}

/// Judge the contents `text` of the file at `path` with a content check's
/// dict: decision, force and reason.
pub fn judge_contents(
    values: &WildcardMap<DecisionSpec>,
    path: &str,
    text: &str,
    fa: &CompiledFileAccess,
    cwd: &str,
) -> (r: (Decision, bool, String))
    ensures
        ({
            let j = contents_judgment(values_view(*values), path@, text@, fa@, cwd@);
            r.0 == j.decision && r.1 == j.force && r.2@ == j.reason
        }),
{
    let mut judgments: Vec<Judgment> = Vec::new();
    let mut path_checks: Vec<PathCheck> = Vec::new();
    let mut head = String::from_str("file '");
    head.append(path);
    head.append("' contents ");
    lookup_values(values, head.as_str(), text, path, &mut judgments, &mut path_checks);
    proof {
        assert(jviews(Seq::<Judgment>::empty()) =~= Seq::<JudgmentView>::empty());
        assert(check_views(Seq::<PathCheck>::empty()) =~= Seq::<PathCheckView>::empty());
    }
    let ghost c = values_contrib(values_view(*values), head@, text@, path@);
    let ghost base = jviews(judgments@);
    let ghost pcs = check_views(path_checks@);
    assert(base =~= c.js);
    assert(pcs =~= c.pcs);
    let mut k: usize = 0;
    while k < path_checks.len()
        invariant
            k <= path_checks@.len(),
            pcs == check_views(path_checks@),
            jviews(judgments@) == base + resolved_judgments(pcs.take(k as int), fa@, cwd@),
        decreases path_checks.len() - k,
    {
        let ghost before = judgments@;
        let pc = &path_checks[k];
        assert(pcs[k as int] == pc@);
        let d = match resolve_conditional(&pc.decision, pc.path.as_str(), fa, cwd) {
            Ok(d) => d,
            Err(_) => {
                assert(false);
                Decision::Ask
            },
        };
        let mut reason = String::from_str("path '");
        reason.append(pc.path.as_str());
        reason.append("' ");
        reason.append(d.description());
        let j = Judgment { decision: d, force: pc.force, reason };
        judgments.push(j);
        proof {
            lemma_push_judgment(before, j);
            assert(resolved_judgments(pcs.take(k + 1), fa@, cwd@) =~= resolved_judgments(pcs.take(k as int), fa@, cwd@).push(j@));
        }
        k = k + 1;
    }
    assert(pcs.take(path_checks@.len() as int) =~= pcs);
    let merged = merge_judgments(&judgments);
    (merged.decision, merged.force, merged.reason)
}

} // verus!
