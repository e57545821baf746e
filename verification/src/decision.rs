//! Decisions, the conditions a decision can depend on, and the rule for
//! combining decisions: deny beats ask, ask beats allow.

use vstd::prelude::*;
use crate::rules::{duplicate_values, values_view, DecisionSpec, ValuesView, WildcardMap};

verus! {

/// The answer given to a tool call.
#[derive(Debug, Clone, Copy, PartialEq, Eq, Structural)]
pub enum Decision {
    Allow,
    Deny,
    Ask,
}

/// How strict a decision is: allow < ask < deny.
pub open spec fn rank(d: Decision) -> int {
    match d {
        Decision::Allow => 0,
        Decision::Ask => 1,
        Decision::Deny => 2,
    }
}

/// The stricter of two decisions.
pub open spec fn spec_stricter(a: Decision, b: Decision) -> Decision {
    if rank(a) >= rank(b) {
        a
    } else {
        b
    }
}

/// Merged decision of a list: any deny gives deny, otherwise any ask (or an
/// empty list) gives ask, otherwise allow.
pub open spec fn spec_merge(ds: Seq<Decision>) -> Decision {
    if ds.contains(Decision::Deny) {
        Decision::Deny
    } else if ds.len() == 0 || ds.contains(Decision::Ask) {
        Decision::Ask
    } else {
        Decision::Allow
    }
}

/// The name of a decision as it appears in the hook's output.
pub open spec fn decision_name(d: Decision) -> Seq<char> {
    match d {
        Decision::Allow => "allow"@,
        Decision::Ask => "ask"@,
        Decision::Deny => "deny"@,
    }
}

/// The phrase used for a decision in reasons.
pub open spec fn decision_phrase(d: Decision) -> Seq<char> {
    match d {
        Decision::Allow => "is approved"@,
        Decision::Deny => "is denied"@,
        Decision::Ask => "requires approval"@,
    }
}

impl Decision {
    pub fn as_str(&self) -> (r: &'static str)
        ensures
            r@ == decision_name(*self),
    {
        match self {
            Decision::Allow => "allow",
            Decision::Ask => "ask",
            Decision::Deny => "deny",
        }
    }

    /// Human-readable description for use in reason strings.
    pub fn description(&self) -> (r: &'static str)
        ensures
            r@ == decision_phrase(*self),
    {
        match self {
            Decision::Allow => "is approved",
            Decision::Deny => "is denied",
            Decision::Ask => "requires approval",
        }
    }
}

/// Return the stricter of two decisions.  Deny beats everything, Ask beats
/// Allow.
pub fn stricter(a: Decision, b: Decision) -> (r: Decision)
    ensures
        r == spec_stricter(a, b),
{
    match (a, b) {
        (Decision::Deny, _) | (_, Decision::Deny) => Decision::Deny,
        (Decision::Ask, _) | (_, Decision::Ask) => Decision::Ask,
        _ => Decision::Allow,
    }
}

/// Merge multiple decisions: any Deny -> Deny, else any Ask -> Ask, else Allow.
/// Empty defaults to Ask.
pub fn merge(decisions: &[Decision]) -> (r: Decision)
    ensures
        r == spec_merge(decisions@),
{
    let mut seen_deny = false;
    let mut seen_ask = false;
    let mut i: usize = 0;
    while i < decisions.len()
        invariant
            i <= decisions@.len(),
            seen_deny == decisions@.take(i as int).contains(Decision::Deny),
            seen_ask == decisions@.take(i as int).contains(Decision::Ask),
        decreases decisions.len() - i,
    {
        let ghost before = decisions@.take(i as int);
        let d = decisions[i];
        match d {
            Decision::Deny => {
                seen_deny = true;
            },
            Decision::Ask => {
                seen_ask = true;
            },
            Decision::Allow => {},
        }
        i = i + 1;
        proof {
            let now = decisions@.take(i as int);
            assert(now =~= before.push(d));
            assert(now[i - 1] == d);
            assert forall|x: Decision| now.contains(x) <==> (before.contains(x) || x == d) by {
                if now.contains(x) {
                    let k = choose|k: int| 0 <= k < now.len() && now[k] == x;
                    if k < i - 1 {
                        assert(before[k] == x);
                    }
                }
                if before.contains(x) {
                    let k = choose|k: int| 0 <= k < before.len() && before[k] == x;
                    assert(now[k] == x);
                }
            }
        }
    }
    assert(decisions@.take(decisions@.len() as int) =~= decisions@);
    if seen_deny {
        Decision::Deny
    } else if decisions.len() == 0 || seen_ask {
        Decision::Ask
    } else {
        Decision::Allow
    }
}

/// What a conditional decision checks about a path.
#[derive(Debug, Clone, Copy, PartialEq, Eq, Structural)]
pub enum Condition {
    Readable,
    Writable,
}

/// The word used for a condition in reasons.
pub open spec fn condition_word(c: Condition) -> Seq<char> {
    match c {
        Condition::Readable => "readable"@,
        Condition::Writable => "writable"@,
    }
}

impl Condition {
    /// Human-readable description for use in reason strings.
    pub fn description(&self) -> (r: &'static str)
        ensures
            r@ == condition_word(*self),
    {
        match self {
            Condition::Readable => "readable",
            Condition::Writable => "writable",
        }
    }
}

/// The value inside a `then` or `else` branch of a conditional: a fixed
/// decision or a nested conditional.
#[derive(Debug)]
pub enum ConditionalBranch {
    Static(Decision),
    Nested(Box<ConditionalDecisionNode>),
}

/// `if <condition> then <branch> else <branch>`, resolved against a path.
#[derive(Debug)]
pub struct ConditionalDecisionNode {
    pub condition: Condition,
    pub then_decision: ConditionalBranch,
    pub else_decision: ConditionalBranch,
}

/// A decision that is either fixed or depends on a path.
#[derive(Debug)]
pub enum DecisionNode {
    Static(Decision),
    Conditional(Box<ConditionalDecisionNode>),
}

/// A decision that cannot depend on a path.
#[derive(Debug, Clone, Copy)]
pub struct StaticDecisionNode(pub Decision);

impl ConditionalBranch {
    /// An identical copy.
    pub fn duplicate(&self) -> (r: Self)
        ensures
            r == *self,
        decreases self,
    {
        match self {
            ConditionalBranch::Static(d) => ConditionalBranch::Static(*d),
            ConditionalBranch::Nested(c) => ConditionalBranch::Nested(Box::new((**c).duplicate())),
        }
    }
}

impl ConditionalDecisionNode {
    /// An identical copy.
    pub fn duplicate(&self) -> (r: Self)
        ensures
            r == *self,
        decreases self,
    {
        ConditionalDecisionNode {
            condition: self.condition,
            then_decision: self.then_decision.duplicate(),
            else_decision: self.else_decision.duplicate(),
        }
    }
}

impl DecisionNode {
    /// An identical copy.
    pub fn duplicate(&self) -> (r: Self)
        ensures
            r == *self,
    {
        match self {
            DecisionNode::Static(d) => DecisionNode::Static(*d),
            DecisionNode::Conditional(c) => DecisionNode::Conditional(Box::new((**c).duplicate())),
        }
    }
}

/// A path that needs conditional resolution against the file access rules,
/// or, with `contents`, a file whose contents are to be checked: the dict is
/// applied to the contents, and `decision` is the decision when the file
/// cannot be read.
pub struct PathCheck {
    pub path: String,
    pub decision: DecisionNode,
    /// When true, the resolved decision takes priority over non-forced
    /// decisions.
    pub force: bool,
    pub contents: Option<WildcardMap<DecisionSpec>>,
}

/// A path check with its path and dict as views.
pub struct PathCheckView {
    pub path: Seq<char>,
    pub decision: DecisionNode,
    pub force: bool,
    pub contents: Option<ValuesView>,
}

/// The view of an optional `values` dict.
pub open spec fn opt_values_view(m: Option<WildcardMap<DecisionSpec>>) -> Option<ValuesView> {
    match m {
        Some(v) => Some(values_view(v)),
        None => None,
    }
}

impl View for PathCheck {
    type V = PathCheckView;

    open spec fn view(&self) -> PathCheckView {
        PathCheckView {
            path: self.path@,
            decision: self.decision,
            force: self.force,
            contents: opt_values_view(self.contents),
        }
    }
}

impl PathCheck {
    /// An identical copy.
    pub fn duplicate(&self) -> (r: Self)
        ensures
            r@ == self@,
    {
        let contents = match &self.contents {
            Some(v) => Some(duplicate_values(v)),
            None => None,
        };
        PathCheck { path: self.path.clone(), decision: self.decision.duplicate(), force: self.force, contents }
    }
}

/// Result of evaluating a command or node in the decision tree.
pub enum EvalResult {
    /// A fully resolved decision.
    Decided { decision: Decision, reason: String },
    /// Some paths need checking before a final decision can be made.
    /// `base_decision` is the merged result of all other decisions.
    CheckPaths { base_decision: Decision, path_checks: Vec<PathCheck>, reason: String },
}

/// An evaluation result with its strings as characters.
pub enum EvalOutcome {
    Decided { decision: Decision, reason: Seq<char> },
    CheckPaths { base_decision: Decision, path_checks: Seq<PathCheckView>, reason: Seq<char> },
}

/// The views of a sequence of path checks.
pub open spec fn check_views(v: Seq<PathCheck>) -> Seq<PathCheckView> {
    v.map_values(|p: PathCheck| p@)
}

impl View for EvalResult {
    type V = EvalOutcome;

    open spec fn view(&self) -> EvalOutcome {
        match self {
            EvalResult::Decided { decision, reason } => EvalOutcome::Decided {
                decision: *decision,
                reason: reason@,
            },
            EvalResult::CheckPaths { base_decision, path_checks, reason } => EvalOutcome::CheckPaths {
                base_decision: *base_decision,
                path_checks: check_views(path_checks@),
                reason: reason@,
            },
        }
    }
}

} // verus!
