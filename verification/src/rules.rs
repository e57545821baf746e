//! The rules that decide tool calls: per-tool decisions, the decision
//! trees for shell commands, and the file access patterns.

use vstd::prelude::*;
use crate::decision::{Decision, DecisionNode, StaticDecisionNode};
use crate::text::{contains_str, str_equal, views};

verus! {

/// The whole rule set.
pub struct Rules {
    pub tools: ToolEntry,
    pub file_access: FileAccess,
    /// In auto permission mode, withhold "ask" answers so the caller decides.
    pub defer_ask_in_auto_mode: bool,
}

/// Rules per tool.  `other` holds the fixed decisions of tools not listed
/// by name.
pub struct ToolEntry {
    pub bash: Option<BashRules>,
    pub read: Option<DecisionNode>,
    pub notebook_edit: Option<DecisionNode>,
    pub edit: Option<DecisionNode>,
    pub write: Option<DecisionNode>,
    pub glob: Option<DecisionNode>,
    pub grep: Option<DecisionNode>,
    pub other: Vec<(String, StaticDecisionNode)>,
}

/// Rules for shell commands.
pub struct BashRules {
    /// Decision tree per command name.
    pub commands: Vec<(String, CommandNode)>,
    /// Flags that auto-allow a command when they are the sole argument
    /// (e.g., `["--help", "--version"]`).
    pub globally_allowed_flags: Vec<String>,
}

/// Glob patterns for reading and writing files.
pub struct FileAccess {
    pub read: AccessRules,
    pub write: WriteRules,
}

/// Patterns for writable paths; with `require_readable` a path must also be
/// readable to be writable.
pub struct WriteRules {
    pub glob_patterns: Vec<String>,
    pub require_readable: bool,
}

/// Patterns for readable paths.
pub struct AccessRules {
    pub glob_patterns: Vec<String>,
}

/// Named entries with a separate optional wildcard (`*`) entry.  The
/// entries are a list rather than a hash map so that lookups by name can be
/// specified over the names' characters; maps read from a rules file have
/// distinct names (a repeated JSON key keeps its last value), and then a
/// lookup is a map lookup (see `keys_distinct`).  A name that occurs more
/// than once resolves to its first entry.
pub struct WildcardMap<T> {
    pub entries: Vec<(String, T)>,
    pub wildcard: Option<Box<T>>,
}

/// No two entries have the same name.
pub open spec fn keys_distinct<T>(entries: Seq<(String, T)>) -> bool {
    forall|i: int, j: int| 0 <= i < j < entries.len() ==> (#[trigger] entries[i]).0@ != (#[trigger] entries[j]).0@
}

/// `i` is the first entry of `entries` whose name is `key`.
pub open spec fn key_at<T>(entries: Seq<(String, T)>, key: Seq<char>, i: int) -> bool {
    &&& 0 <= i < entries.len()
    &&& entries[i].0@ == key
    &&& forall|j: int| 0 <= j < i ==> entries[j].0@ != key
}

/// Index of the first entry named `key`, or -1.
pub open spec fn key_index<T>(entries: Seq<(String, T)>, key: Seq<char>) -> int {
    if exists|i: int| key_at(entries, key, i) {
        choose|i: int| key_at(entries, key, i)
    } else {
        -1
    }
}

/// The value of the first entry named `key`.
pub open spec fn get_entry<T>(entries: Seq<(String, T)>, key: Seq<char>) -> Option<T> {
    let i = key_index(entries, key);
    if i >= 0 {
        Some(entries[i].1)
    } else {
        None
    }
}

/// Index of the first entry named `key`.
pub fn find_key<T>(entries: &Vec<(String, T)>, key: &str) -> (r: Option<usize>)
    ensures
        match r {
            Some(i) => i as int == key_index(entries@, key@) && i < entries@.len(),
            None => key_index(entries@, key@) == -1,
        },
{
    let mut i: usize = 0;
    while i < entries.len()
        invariant
            i <= entries@.len(),
            forall|j: int| 0 <= j < i ==> entries@[j].0@ != key@,
        decreases entries.len() - i,
    {
        if str_equal(entries[i].0.as_str(), key) {
            assert(key_at(entries@, key@, i as int));
            assert forall|k: int| key_at(entries@, key@, k) implies k == i as int by {
                if k > i {
                    assert(entries@[i as int].0@ == key@);
                }
            }
            return Some(i);
        }
        i = i + 1;
    }
    assert(!exists|k: int| key_at(entries@, key@, k));
    None
}

impl<T> WildcardMap<T> {
    /// The map's well-formedness: no name occurs twice, as in every map
    /// read from a rules file.  No function needs it, since each lookup is
    /// specified as finding the first entry with a name; under it, that
    /// entry is the only one (`lemma_distinct_keys_lookup`).
    pub open spec fn well_formed(&self) -> bool {
        keys_distinct(self.entries@)
    }

    /// Returns a reference to the wildcard entry, if present.
    pub fn wildcard(&self) -> (r: Option<&T>)
        ensures
            match self.wildcard {
                Some(w) => r.is_some() && *r.unwrap() == *w,
                None => r.is_none(),
            },
    {
        match &self.wildcard {
            Some(w) => Some(&**w),
            None => None,
        }
    }
}

impl<T> Default for WildcardMap<T> {
    fn default() -> (r: Self)
        ensures
            r.entries@.len() == 0,
            r.wildcard.is_none(),
    {
        WildcardMap { entries: Vec::new(), wildcard: None }
    }
}

/// A decision with an optional force flag, and whether its key is a
/// pattern.
pub struct DecisionSpec {
    pub node: DecisionNode,
    pub force: bool,
    pub is_pattern: bool,
}

impl DecisionSpec {
    /// An identical copy.
    pub fn duplicate(&self) -> (r: Self)
        ensures
            r == *self,
    {
        DecisionSpec { node: self.node.duplicate(), force: self.force, is_pattern: self.is_pattern }
    }
}

/// A `values` dict with its keys as characters.
pub struct ValuesView {
    pub entries: Seq<(Seq<char>, DecisionSpec)>,
    pub wildcard: Option<DecisionSpec>,
}

/// The view of a `values` dict.
pub open spec fn values_view(m: WildcardMap<DecisionSpec>) -> ValuesView {
    ValuesView {
        entries: m.entries@.map_values(|e: (String, DecisionSpec)| (e.0@, e.1)),
        wildcard: match m.wildcard {
            Some(w) => Some(*w),
            None => None,
        },
    }
}

/// A copy of a `values` dict.
pub fn duplicate_values(m: &WildcardMap<DecisionSpec>) -> (r: WildcardMap<DecisionSpec>)
    ensures
        values_view(r) == values_view(*m),
{
    let mut entries: Vec<(String, DecisionSpec)> = Vec::new();
    let mut i: usize = 0;
    while i < m.entries.len()
        invariant
            i <= m.entries@.len(),
            entries@.len() == i,
            forall|j: int| 0 <= j < i ==> (#[trigger] entries@[j]).0@ == m.entries@[j].0@ && entries@[j].1 == m.entries@[j].1,
        decreases m.entries.len() - i,
    {
        entries.push((m.entries[i].0.clone(), m.entries[i].1.duplicate()));
        i = i + 1;
    }
    let wildcard = match &m.wildcard {
        Some(w) => Some(Box::new((**w).duplicate())),
        None => None,
    };
    let r = WildcardMap { entries, wildcard };
    assert(values_view(r).entries =~= values_view(*m).entries);
    r
}

/// A node of a command's decision tree.
pub struct CommandNode {
    pub decision: Option<Decision>,
    pub subcmds: Option<WildcardMap<CommandNode>>,
    pub flags: Option<WildcardMap<FlagEntry>>,
    pub options: Option<WildcardMap<OptionEntry>>,
    pub positional: Option<WildcardMap<PositionalDef>>,
    pub cwd_check: Option<DecisionNode>,
    pub is_wrapper: bool,
    pub skip_positional: usize,
    pub allow_expansions: bool,
}

/// A flag rule with optional force and aliases.  With
/// `override_positional`, the flag's presence suppresses the command node's
/// own positional rules.
pub struct FlagEntry {
    pub kind: FlagKind,
    pub force: bool,
    pub aliases: Vec<String>,
    pub override_positional: bool,
}

/// What a flag contributes.
pub enum FlagKind {
    /// Flag with a standalone decision (e.g., `--verbose` -> allow).
    Decision(Decision),
    /// Flag that overlays additional positional rules when present
    /// (e.g., `-i` adds a writable check to file args).
    Positional(WildcardMap<PositionalDef>),
}

/// A rule for a flag that takes a value.
pub struct OptionEntry {
    pub decision: Decision,
    pub force: bool,
    pub aliases: Vec<String>,
    pub allow_expansions: bool,
    pub values: Option<WildcardMap<DecisionSpec>>,
    /// When set, the value is treated as a path to a file whose contents
    /// are matched against `check_file.values`.
    pub check_file: Option<FileCheck>,
    /// Positional rules applied, when the option is present, to the
    /// command's positional args.
    pub positional: Option<WildcardMap<PositionalDef>>,
    /// When the option is present, the command node's own positional rules
    /// are skipped.
    pub override_positional: bool,
}

/// Rules matched against the contents of the file a value refers to.
pub struct FileCheck {
    pub values: WildcardMap<DecisionSpec>,
    /// Decision when the file cannot be read.
    pub on_unreadable: Decision,
}

/// The default for `FileCheck::on_unreadable`: deny.
pub fn default_on_unreadable() -> (r: Decision)
    ensures
        r == Decision::Deny,
{
    Decision::Deny
}

/// Positional rules for one argument count: one rule for every argument,
/// or one rule per position.
pub enum PositionalDef {
    Single(PositionalEntry),
    Array(Vec<PositionalEntry>),
}

/// The rule for a positional argument: its decision (fixed or conditional
/// on the argument as a path), and optionally a `values` dict applied to
/// the argument's text and a content check of the file it names.
pub struct PositionalEntry {
    pub node: DecisionNode,
    pub values: Option<WildcardMap<DecisionSpec>>,
    pub check_file: Option<FileCheck>,
}

/// Entries that can be found under other names too.
pub trait HasAliases {
    spec fn alias_views(&self) -> Seq<Seq<char>>;

    fn aliases(&self) -> (r: &[String])
        ensures
            views(r@) == self.alias_views(),
    ;
}

impl HasAliases for FlagEntry {
    open spec fn alias_views(&self) -> Seq<Seq<char>> {
        views(self.aliases@)
    }

    fn aliases(&self) -> (r: &[String]) {
        self.aliases.as_slice()
    }
}

impl HasAliases for OptionEntry {
    open spec fn alias_views(&self) -> Seq<Seq<char>> {
        views(self.aliases@)
    }

    fn aliases(&self) -> (r: &[String]) {
        self.aliases.as_slice()
    }
}

/// `i` is the first entry of `entries` that has `name` among its aliases.
pub open spec fn alias_at<T: HasAliases>(entries: Seq<(String, T)>, name: Seq<char>, i: int) -> bool {
    &&& 0 <= i < entries.len()
    &&& entries[i].1.alias_views().contains(name)
    &&& forall|j: int| 0 <= j < i ==> !entries[j].1.alias_views().contains(name)
}

/// Index of the entry that `name` resolves to: the entry named `name` if
/// there is one, else the first entry with `name` among its aliases, else -1.
pub open spec fn alias_index<T: HasAliases>(entries: Seq<(String, T)>, name: Seq<char>) -> int {
    if key_index(entries, name) >= 0 {
        key_index(entries, name)
    } else if exists|i: int| alias_at(entries, name, i) {
        choose|i: int| alias_at(entries, name, i)
    } else {
        -1
    }
}

/// The entry that `name` resolves to, by name or alias (not the wildcard).
pub open spec fn spec_lookup<T: HasAliases>(name: Seq<char>, map: WildcardMap<T>) -> Option<T> {
    let i = alias_index(map.entries@, name);
    if i >= 0 {
        Some(map.entries@[i].1)
    } else {
        None
    }
}

/// Index of the entry that `name` resolves to, by name or alias.
pub fn lookup_index<T: HasAliases>(name: &str, map: &WildcardMap<T>) -> (r: Option<usize>)
    ensures
        match r {
            Some(i) => i as int == alias_index(map.entries@, name@) && i < map.entries@.len(),
            None => alias_index(map.entries@, name@) == -1,
        },
{
    if let Some(i) = find_key(&map.entries, name) {
        return Some(i);
    }
    let mut i: usize = 0;
    while i < map.entries.len()
        invariant
            i <= map.entries@.len(),
            key_index(map.entries@, name@) == -1,
            forall|j: int| 0 <= j < i ==> !map.entries@[j].1.alias_views().contains(name@),
        decreases map.entries.len() - i,
    {
        if contains_str(map.entries[i].1.aliases(), name) {
            assert(alias_at(map.entries@, name@, i as int));
            assert forall|k: int| alias_at(map.entries@, name@, k) implies k == i as int by {
                if k > i {
                    assert(map.entries@[i as int].1.alias_views().contains(name@));
                }
            }
            return Some(i);
        }
        i = i + 1;
    }
    assert(!exists|k: int| alias_at(map.entries@, name@, k));
    None
}

/// Look up a flag/option name in a map, checking aliases.
/// Only searches named entries, not the wildcard.
pub fn lookup_with_alias<'a, T: HasAliases>(name: &str, map: &'a WildcardMap<T>) -> (r: Option<&'a T>)
    ensures
        match spec_lookup(name@, *map) {
            Some(e) => r.is_some() && *r.unwrap() == e,
            None => r.is_none(),
        },
{
    match lookup_index(name, map) {
        Some(i) => Some(&map.entries[i].1),
        None => None,
    }
}

} // verus!
