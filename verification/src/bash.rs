//! Extraction of the commands and write redirects of a shell command from
//! its tree-sitter-bash syntax tree.
//!
//! The tree is read as its list of nodes in pre-order, each with its kind,
//! its text and its depth; a node's children are the nodes one level
//! deeper that follow it before the first node at its own depth or above.

use vstd::prelude::*;
use vstd::string::*;
use crate::text::{str_equal, views};

verus! {

#[verifier::external_type_specification]
#[verifier::external_body]
pub struct ExTree(tree_sitter::Tree);

/// The nodes of tree-sitter-bash's syntax tree of `source`, in pre-order
/// (tree-sitter's descendant order): kind, source text, and depth below the
/// root.
pub uninterp spec fn bash_syntax_nodes(source: Seq<char>) -> Seq<(Seq<char>, Seq<char>, nat)>;

/// Builds a `tree_sitter::Parser` for tree-sitter-bash and calls
/// `Parser::parse` on the source.  The contract claims a tree always comes
/// back: `set_language` accepts the grammar (its ABI version, 15, lies in
/// the range tree-sitter accepts, 13 to 15, and it has a lexer), and
/// `parse` gives `None` only without a language, when a progress callback
/// cancels (none is given) or on a WebAssembly scanner error (the grammar is
/// native); a source with syntax errors still gives a tree.  Nothing is
/// claimed of the tree itself, which `BashSyntax` keeps with its source.
#[verifier::external_body]
fn parse_bash_tree(source: &str) -> (r: Option<tree_sitter::Tree>)
    ensures
        r is Some,
{
    let mut parser = tree_sitter::Parser::new();
    parser.set_language(&tree_sitter_bash::LANGUAGE.into()).ok()?;
    parser.parse(source, None)
}

/// Calls `Node::descendant_count` on the root of the tree parsed from
/// `syntax.source`; the contract claims it is the number of its nodes.
#[verifier::external_body]
fn syntax_node_count(syntax: &BashSyntax) -> (r: usize)
    ensures
        r == bash_syntax_nodes(syntax.source@).len(),
{
    syntax.tree.root_node().descendant_count()
}

/// Moves a `TreeCursor` to the `i`-th descendant of the root
/// (`TreeCursor::goto_descendant`) and reads the node's kind, its text in
/// the source (`Node::utf8_text`, empty when that fails) and the cursor's
/// depth; the contract claims these are the `i`-th node of
/// `bash_syntax_nodes` of the source.
#[verifier::external_body]
fn syntax_node(syntax: &BashSyntax, i: usize) -> (r: SyntaxItem)
    requires
        i < bash_syntax_nodes(syntax.source@).len(),
    ensures
        r@ == bash_syntax_nodes(syntax.source@)[i as int],
{
    let mut cursor = syntax.tree.walk();
    cursor.goto_descendant(i);
    let node = cursor.node();
    let text = node.utf8_text(syntax.source.as_bytes()).unwrap_or("");
    SyntaxItem { kind: node.kind().to_string(), text: text.to_string(), depth: cursor.depth() as usize }
}

/// A syntax tree together with the source it was parsed from.
pub struct BashSyntax {
    source: String,
    tree: tree_sitter::Tree,
}

/// One node of a syntax tree: its kind, its text, its depth.
pub struct SyntaxItem {
    pub kind: String,
    pub text: String,
    pub depth: usize,
}

impl View for SyntaxItem {
    type V = (Seq<char>, Seq<char>, nat);

    open spec fn view(&self) -> (Seq<char>, Seq<char>, nat) {
        (self.kind@, self.text@, self.depth as nat)
    }
}

pub open spec fn item_views(v: Seq<SyntaxItem>) -> Seq<(Seq<char>, Seq<char>, nat)> {
    v.map_values(|x: SyntaxItem| x@)
}

impl BashSyntax {
    pub closed spec fn source_view(&self) -> Seq<char> {
        self.source@
    }

    /// Parse a shell command with tree-sitter-bash.
    pub fn parse(source: &str) -> (r: Option<BashSyntax>)
        ensures
            r matches Some(s) && s.source_view() == source@,
    {
        match parse_bash_tree(source) {
            Some(tree) => Some(BashSyntax { source: String::from_str(source), tree }),
            None => None,
        }
    }

    /// The nodes of the tree in pre-order.
    pub fn items(&self) -> (r: Vec<SyntaxItem>)
        ensures
            item_views(r@) == bash_syntax_nodes(self.source_view()),
    {
        let n = syntax_node_count(self);
        let mut out: Vec<SyntaxItem> = Vec::new();
        let mut i: usize = 0;
        while i < n
            invariant
                i <= n,
                n == bash_syntax_nodes(self.source@).len(),
                item_views(out@) == bash_syntax_nodes(self.source@).take(i as int),
            decreases n - i,
        {
            let ghost before = out@;
            let it = syntax_node(self, i);
            out.push(it);
            assert(item_views(out@) =~= item_views(before).push(it@));
            i = i + 1;
            assert(item_views(out@) =~= bash_syntax_nodes(self.source@).take(i as int));
        }
        assert(bash_syntax_nodes(self.source@).take(n as int) =~= bash_syntax_nodes(self.source@));
        out
    }
}

/// Why a command could not be parsed.
#[derive(Debug)]
pub enum ParseError {
    /// tree-sitter produced no syntax tree.
    TreeSitterFailed,
}

/// A single extracted command with its arguments and expansion tracking.
pub struct ExtractedCommand {
    /// Literal text of each argument (expansions replaced with empty string).
    pub args: Vec<String>,
    /// Per-argument flag: true if the arg contains any non-literal part.
    pub expansion_flags: Vec<bool>,
}

impl View for ExtractedCommand {
    type V = (Seq<Seq<char>>, Seq<bool>);

    open spec fn view(&self) -> (Seq<Seq<char>>, Seq<bool>) {
        (views(self.args@), self.expansion_flags@)
    }
}

impl ExtractedCommand {
    /// Every argument has its expansion flag.
    pub open spec fn well_formed(&self) -> bool {
        self.args@.len() == self.expansion_flags@.len()
    }
}

/// Every command of the list is well formed.
pub open spec fn all_well_formed(v: Seq<ExtractedCommand>) -> bool {
    forall|i: int| 0 <= i < v.len() ==> (#[trigger] v[i]).well_formed()
}

/// A write redirect target (> or >>).
pub struct WriteRedirect {
    pub path: String,
}

// ---------------------------------------------------------------------------
// Tree structure over the node list
// ---------------------------------------------------------------------------

/// The node right after `j` is deeper, i.e. `j` has a child.
pub open spec fn has_child(items: Seq<(Seq<char>, Seq<char>, nat)>, j: int) -> bool {
    0 <= j && j + 1 < items.len() && items[j + 1].2 > items[j].2
}

/// Kinds of nodes that stand for a value known only when the command runs.
pub open spec fn is_expansion_kind(k: Seq<char>) -> bool {
    k == "simple_expansion"@ || k == "expansion"@ || k == "command_substitution"@
}

/// A single-quoted string without its quotes.
pub open spec fn strip_quotes(t: Seq<char>) -> Seq<char> {
    if t.len() >= 2 && t[0] == '\'' && t.last() == '\'' {
        t.subrange(1, t.len() - 1)
    } else {
        t
    }
}

/// The literal text of a word-like node and whether it has a non-literal
/// part.  Words, command names and concatenations are their children's
/// texts joined (a word without children is its own text); a quoted string
/// joins its content and nested words, dropping expansions; a single-quoted
/// string is its text without quotes; an expansion is empty and
/// non-literal; anything else is its own text.
pub open spec fn word_of(items: Seq<(Seq<char>, Seq<char>, nat)>, j: int) -> (Seq<char>, bool)
    decreases items.len() - j, items.len() - j + 1,
{
    if j < 0 || j >= items.len() {
        (Seq::empty(), false)
    } else {
        let k = items[j].0;
        if k == "word"@ || k == "command_name"@ {
            if !has_child(items, j) {
                (items[j].1, false)
            } else {
                children_text(items, j, j + 1, false)
            }
        } else if k == "concatenation"@ {
            children_text(items, j, j + 1, false)
        } else if k == "raw_string"@ {
            (strip_quotes(items[j].1), false)
        } else if k == "string"@ {
            children_text(items, j, j + 1, true)
        } else if is_expansion_kind(k) {
            (Seq::empty(), true)
        } else {
            (items[j].1, false)
        }
    }
}

/// The texts of the children of `parent` from node `j` on, joined, and
/// whether any of them is non-literal.  Inside a quoted string, quote
/// marks are dropped, string content is taken as it is and expansions are
/// empty and non-literal.
pub open spec fn children_text(items: Seq<(Seq<char>, Seq<char>, nat)>, parent: int, j: int, in_string: bool) -> (Seq<char>, bool)
    decreases items.len() - parent, items.len() - j,
{
    if parent < 0 || j <= parent || j >= items.len() || parent >= items.len() || items[j].2 <= items[parent].2 {
        (Seq::empty(), false)
    } else {
        let rest = children_text(items, parent, j + 1, in_string);
        if items[j].2 == items[parent].2 + 1 {
            let k = items[j].0;
            let part = if in_string && k == "\""@ {
                (Seq::empty(), false)
            } else if in_string && k == "string_content"@ {
                (items[j].1, false)
            } else if in_string && is_expansion_kind(k) {
                (Seq::empty(), true)
            } else {
                word_of(items, j)
            };
            (part.0 + rest.0, part.1 || rest.1)
        } else {
            rest
        }
    }
}

fn kind_is(item: &SyntaxItem, kind: &str) -> (r: bool)
    ensures
        r == (item.kind@ == kind@),
{
    str_equal(item.kind.as_str(), kind)
}

fn is_expansion(item: &SyntaxItem) -> (r: bool)
    ensures
        r == is_expansion_kind(item.kind@),
{
    kind_is(item, "simple_expansion") || kind_is(item, "expansion") || kind_is(item, "command_substitution")
}

fn strip_single_quotes(t: &str) -> (r: String)
    ensures
        r@ == strip_quotes(t@),
{
    let n = t.unicode_len();
    if n >= 2 && t.get_char(0) == '\'' && t.get_char(n - 1) == '\'' {
        String::from_str(t.substring_char(1, n - 1))
    } else {
        String::from_str(t)
    }
}

/// Extract the literal text and expansion status from a word-like node.
fn extract_word(items: &Vec<SyntaxItem>, j: usize) -> (r: (String, bool))
    requires
        j < items@.len(),
    ensures
        (r.0@, r.1) == word_of(item_views(items@), j as int),
    decreases items@.len() - j, items@.len() - j + 1,
{
    let ghost iv = item_views(items@);
    let n = items.len();
    assert(iv[j as int] == items@[j as int]@);
    let item = &items[j];
    if kind_is(item, "word") || kind_is(item, "command_name") {
        let has_child = j + 1 < items.len() && items[j + 1].depth > item.depth;
        proof {
            if j + 1 < items@.len() {
                assert(iv[j + 1] == items@[j + 1]@);
            }
        }
        if !has_child {
            (item.text.clone(), false)
        } else {
            join_children(items, j, j + 1, false)
        }
    } else if kind_is(item, "concatenation") {
        join_children(items, j, j + 1, false)
    } else if kind_is(item, "raw_string") {
        (strip_single_quotes(item.text.as_str()), false)
    } else if kind_is(item, "string") {
        join_children(items, j, j + 1, true)
    } else if is_expansion(item) {
        (String::new(), true)
    } else {
        (item.text.clone(), false)
    }
}

/// Join the texts of the children of `parent` from node `j` on.
fn join_children(items: &Vec<SyntaxItem>, parent: usize, j: usize, in_string: bool) -> (r: (String, bool))
    requires
        parent < j,
        parent < items@.len(),
    ensures
        (r.0@, r.1) == children_text(item_views(items@), parent as int, j as int, in_string),
    decreases items@.len() - parent, items@.len() - j,
{
    let ghost iv = item_views(items@);
    if j >= items.len() {
        return (String::new(), false);
    }
    assert(iv[j as int] == items@[j as int]@);
    assert(iv[parent as int] == items@[parent as int]@);
    if items[j].depth <= items[parent].depth {
        return (String::new(), false);
    }
    let rest = join_children(items, parent, j + 1, in_string);
    if items[j].depth - 1 == items[parent].depth {
        let item = &items[j];
        let part: (String, bool) = if in_string && kind_is(item, "\"") {
            (String::new(), false)
        } else if in_string && kind_is(item, "string_content") {
            (item.text.clone(), false)
        } else if in_string && is_expansion(item) {
            (String::new(), true)
        } else {
            extract_word(items, j)
        };
        let mut text = part.0;
        text.append(rest.0.as_str());
        (text, part.1 || rest.1)
    } else {
        rest
    }
}


// ---------------------------------------------------------------------------
// Commands
// ---------------------------------------------------------------------------

/// Kinds of nodes that are arguments of a command.
pub open spec fn is_arg_kind(k: Seq<char>) -> bool {
    ||| k == "command_name"@
    ||| k == "word"@
    ||| k == "concatenation"@
    ||| k == "string"@
    ||| k == "raw_string"@
    ||| k == "simple_expansion"@
    ||| k == "expansion"@
    ||| k == "number"@
    ||| k == "command_substitution"@
}

/// The words of the argument children of command node `i`, from node `j`
/// on (redirects and other children are skipped).
pub open spec fn command_args_from(items: Seq<(Seq<char>, Seq<char>, nat)>, i: int, j: int) -> Seq<(Seq<char>, bool)>
    decreases items.len() - j,
{
    if i < 0 || j <= i || j >= items.len() || i >= items.len() || items[j].2 <= items[i].2 {
        Seq::empty()
    } else if items[j].2 == items[i].2 + 1 && is_arg_kind(items[j].0) {
        seq![word_of(items, j)] + command_args_from(items, i, j + 1)
    } else {
        command_args_from(items, i, j + 1)
    }
}

/// A command from its words: the texts and the non-literal marks.
pub open spec fn as_command(words: Seq<(Seq<char>, bool)>) -> (Seq<Seq<char>>, Seq<bool>) {
    (words.map_values(|w: (Seq<char>, bool)| w.0), words.map_values(|w: (Seq<char>, bool)| w.1))
}

/// The commands among the first `n` nodes, in order: every `command` node
/// with at least one argument, nested ones (in substitutions) included.
pub open spec fn commands_upto(items: Seq<(Seq<char>, Seq<char>, nat)>, n: int) -> Seq<(Seq<Seq<char>>, Seq<bool>)>
    decreases n,
{
    if n <= 0 || n > items.len() {
        Seq::empty()
    } else {
        let prev = commands_upto(items, n - 1);
        let words = command_args_from(items, n - 1, n);
        if items[n - 1].0 == "command"@ && words.len() > 0 {
            prev.push(as_command(words))
        } else {
            prev
        }
    }
}

/// All commands of the tree, in pre-order.
pub open spec fn spec_commands(items: Seq<(Seq<char>, Seq<char>, nat)>) -> Seq<(Seq<Seq<char>>, Seq<bool>)> {
    commands_upto(items, items.len() as int)
}

pub open spec fn command_views(v: Seq<ExtractedCommand>) -> Seq<(Seq<Seq<char>>, Seq<bool>)> {
    v.map_values(|c: ExtractedCommand| c@)
}

/// Extract args and expansion flags from the command node at `i`.
fn extract_command(items: &Vec<SyntaxItem>, i: usize) -> (r: ExtractedCommand)
    requires
        i < items@.len(),
    ensures
        r@ == as_command(command_args_from(item_views(items@), i as int, i + 1)),
        r.well_formed(),
{
    let ghost iv = item_views(items@);
    let n = items.len();
    let mut args: Vec<String> = Vec::new();
    let mut expansion_flags: Vec<bool> = Vec::new();
    let mut j = i + 1;
    let ghost mut done: Seq<(Seq<char>, bool)> = Seq::empty();
    assert(iv[i as int] == items@[i as int]@);
    while j < n && items[j].depth > items[i].depth
        invariant
            i < j <= n,
            n == items@.len(),
            iv == item_views(items@),
            done + command_args_from(iv, i as int, j as int) == command_args_from(iv, i as int, i + 1),
            views(args@) == done.map_values(|w: (Seq<char>, bool)| w.0),
            expansion_flags@ == done.map_values(|w: (Seq<char>, bool)| w.1),
            args@.len() == expansion_flags@.len(),
        decreases n - j,
    {
        assert(iv[j as int] == items@[j as int]@);
        assert(iv[i as int] == items@[i as int]@);
        if items[j].depth - 1 == items[i].depth {
            let item = &items[j];
            let is_arg = kind_is(item, "command_name") || kind_is(item, "word") || kind_is(item, "concatenation")
                || kind_is(item, "string") || kind_is(item, "raw_string") || kind_is(item, "simple_expansion")
                || kind_is(item, "expansion") || kind_is(item, "number") || kind_is(item, "command_substitution");
            if is_arg {
                let (text, has_expansion) = extract_word(items, j);
                let ghost w = (text@, has_expansion);
                let ghost before_args = args@;
                let ghost before_efl = expansion_flags@;
                args.push(text);
                expansion_flags.push(has_expansion);
                proof {
                    assert(command_args_from(iv, i as int, j as int) == seq![w] + command_args_from(iv, i as int, j + 1));
                    assert(done.push(w) + command_args_from(iv, i as int, j + 1) =~= done + command_args_from(iv, i as int, j as int));
                    assert(views(args@) =~= views(before_args).push(w.0));
                    done = done.push(w);
                    assert(views(args@) =~= done.map_values(|w: (Seq<char>, bool)| w.0));
                    assert(expansion_flags@ =~= done.map_values(|w: (Seq<char>, bool)| w.1));
                }
            }
        }
        j = j + 1;
    }
    proof {
        if j < n {
            assert(iv[j as int] == items@[j as int]@);
        }
        assert(command_args_from(iv, i as int, j as int) =~= Seq::<(Seq<char>, bool)>::empty());
        assert(done + Seq::<(Seq<char>, bool)>::empty() =~= done);
    }
    ExtractedCommand { args, expansion_flags }
}

/// Collect all commands of the tree, including those inside command
/// substitutions -- this is what makes `git commit -m "$(rm -rf /)"`
/// evaluate both `git commit -m ...` and `rm -rf /` independently.
pub fn extract_commands(items: &Vec<SyntaxItem>) -> (r: Vec<ExtractedCommand>)
    ensures
        command_views(r@) == spec_commands(item_views(items@)),
        all_well_formed(r@),
{
    let ghost iv = item_views(items@);
    let mut out: Vec<ExtractedCommand> = Vec::new();
    let mut i: usize = 0;
    while i < items.len()
        invariant
            i <= items@.len(),
            iv == item_views(items@),
            command_views(out@) == commands_upto(iv, i as int),
            all_well_formed(out@),
        decreases items.len() - i,
    {
        assert(iv[i as int] == items@[i as int]@);
        if kind_is(&items[i], "command") {
            let cmd = extract_command(items, i);
            assert(cmd@.0.len() == cmd.args@.len());
            assert(as_command(command_args_from(iv, i as int, i + 1)).0.len() == command_args_from(iv, i as int, i + 1).len());
            if cmd.args.len() > 0 {
                let ghost before = out@;
                out.push(cmd);
                assert(command_views(out@) =~= command_views(before).push(cmd@));
            }
        }
        i = i + 1;
    }
    out
}

// ---------------------------------------------------------------------------
// Write redirects
// ---------------------------------------------------------------------------

/// Scanning the children of redirect node `i` from node `j` on: after a
/// `>` or `>>` the first non-empty word is the target.
pub open spec fn redirect_from(
    items: Seq<(Seq<char>, Seq<char>, nat)>,
    i: int,
    j: int,
    is_write: bool,
    target: Option<Seq<char>>,
) -> (bool, Option<Seq<char>>)
    decreases items.len() - j,
{
    if i < 0 || j <= i || j >= items.len() || i >= items.len() || items[j].2 <= items[i].2 {
        (is_write, target)
    } else if items[j].2 == items[i].2 + 1 {
        let k = items[j].0;
        if k == ">"@ || k == ">>"@ {
            redirect_from(items, i, j + 1, true, target)
        } else if is_write && target.is_none() {
            let t = word_of(items, j).0;
            redirect_from(items, i, j + 1, is_write, if t.len() > 0 { Some(t) } else { None })
        } else {
            redirect_from(items, i, j + 1, is_write, target)
        }
    } else {
        redirect_from(items, i, j + 1, is_write, target)
    }
}

/// The write target of redirect node `i`, if it writes (`>` or `>>`).
pub open spec fn redirect_of(items: Seq<(Seq<char>, Seq<char>, nat)>, i: int) -> Option<Seq<char>> {
    let (is_write, target) = redirect_from(items, i, i + 1, false, None);
    if is_write {
        target
    } else {
        None
    }
}

/// The write targets among the first `n` nodes, in order.
pub open spec fn redirects_upto(items: Seq<(Seq<char>, Seq<char>, nat)>, n: int) -> Seq<Seq<char>>
    decreases n,
{
    if n <= 0 || n > items.len() {
        Seq::empty()
    } else {
        let prev = redirects_upto(items, n - 1);
        if items[n - 1].0 == "file_redirect"@ && redirect_of(items, n - 1).is_some() {
            prev.push(redirect_of(items, n - 1).unwrap())
        } else {
            prev
        }
    }
}

/// All write redirect targets of the tree, in pre-order.
pub open spec fn spec_redirects(items: Seq<(Seq<char>, Seq<char>, nat)>) -> Seq<Seq<char>> {
    redirects_upto(items, items.len() as int)
}

pub open spec fn redirect_views(v: Seq<WriteRedirect>) -> Seq<Seq<char>> {
    v.map_values(|w: WriteRedirect| w.path@)
}

/// Extract a write redirect target from the redirect node at `i`.
/// Only captures > and >> (not < or other redirects).
fn extract_redirect(items: &Vec<SyntaxItem>, i: usize) -> (r: Option<WriteRedirect>)
    requires
        i < items@.len(),
    ensures
        match r {
            Some(w) => redirect_of(item_views(items@), i as int) == Some(w.path@),
            None => redirect_of(item_views(items@), i as int).is_none(),
        },
{
    let ghost iv = item_views(items@);
    let n = items.len();
    let mut is_write = false;
    let mut target: Option<String> = None;
    let mut j = i + 1;
    assert(iv[i as int] == items@[i as int]@);
    while j < n && items[j].depth > items[i].depth
        invariant
            i < j <= n,
            n == items@.len(),
            iv == item_views(items@),
            redirect_from(iv, i as int, j as int, is_write, match target { Some(t) => Some(t@), None => None })
                == redirect_from(iv, i as int, i + 1, false, None),
        decreases n - j,
    {
        assert(iv[j as int] == items@[j as int]@);
        assert(iv[i as int] == items@[i as int]@);
        if items[j].depth - 1 == items[i].depth {
            let item = &items[j];
            if kind_is(item, ">") || kind_is(item, ">>") {
                is_write = true;
            } else if is_write && target.is_none() {
                let (text, _) = extract_word(items, j);
                if text.as_str().unicode_len() > 0 {
                    target = Some(text);
                }
            }
        }
        j = j + 1;
    }
    proof {
        if j < n {
            assert(iv[j as int] == items@[j as int]@);
        }
    }
    if is_write {
        match target {
            Some(path) => Some(WriteRedirect { path }),
            None => None,
        }
    } else {
        None
    }
}

/// Collect all write redirect targets (> and >>) of the tree.
pub fn extract_redirects(items: &Vec<SyntaxItem>) -> (r: Vec<WriteRedirect>)
    ensures
        redirect_views(r@) == spec_redirects(item_views(items@)),
{
    let ghost iv = item_views(items@);
    let mut out: Vec<WriteRedirect> = Vec::new();
    let mut i: usize = 0;
    while i < items.len()
        invariant
            i <= items@.len(),
            iv == item_views(items@),
            redirect_views(out@) == redirects_upto(iv, i as int),
        decreases items.len() - i,
    {
        assert(iv[i as int] == items@[i as int]@);
        if kind_is(&items[i], "file_redirect") {
            if let Some(redirect) = extract_redirect(items, i) {
                let ghost before = out@;
                out.push(redirect);
                assert(redirect_views(out@) =~= redirect_views(before).push(redirect.path@));
            }
        }
        i = i + 1;
    }
    out
}

/// Parse a bash command string and extract all commands and write
/// redirects.
pub fn parse(command: &str) -> (r: Result<(Vec<ExtractedCommand>, Vec<WriteRedirect>), ParseError>)
    ensures
        r matches Ok((cmds, redirects)) && {
            &&& command_views(cmds@) == spec_commands(bash_syntax_nodes(command@))
            &&& all_well_formed(cmds@)
            &&& redirect_views(redirects@) == spec_redirects(bash_syntax_nodes(command@))
        },
{
    match BashSyntax::parse(command) {
        None => Err(ParseError::TreeSitterFailed),
        Some(syntax) => {
            let items = syntax.items();
            Ok((extract_commands(&items), extract_redirects(&items)))
        },
    }
}

} // verus!
