//! The hook's input: the fields every event carries, and the input of each
//! tool.

use vstd::prelude::*;
use vstd::string::*;
use std::collections::HashMap;
use crate::text::chars_of;

verus! {

#[verifier::external_type_specification]
#[verifier::external_body]
pub struct ExJsonValue(serde_json::Value);

/// Fields present on every hook event.
#[derive(Debug, Default)]
pub struct CommonInput {
    pub session_id: String,
    pub transcript_path: String,
    pub cwd: String,
    pub permission_mode: Option<String>,
    pub hook_event_name: String,
    pub tool_use_id: Option<String>,
    /// Codex extension identifying the active turn.  Other callers never
    /// send it, so its presence identifies a Codex caller.
    pub turn_id: Option<String>,
}

impl CommonInput {
    /// Whether the payload originated from OpenAI Codex, detected via the
    /// Codex-only `turn_id` field.
    pub fn is_codex(&self) -> (r: bool)
        ensures
            r == self.turn_id.is_some(),
    {
        self.turn_id.is_some()
    }
}

/// Additional fields present when the hook fires inside a subagent.
#[derive(Debug)]
pub struct AgentInput {
    /// Unique identifier for the subagent (present only inside a subagent call).
    pub agent_id: Option<String>,
    /// Agent name (e.g. "Explore").  Present when `--agent` is used or inside
    /// a subagent.
    pub agent_type: Option<String>,
}

#[derive(Debug)]
pub struct BashInput {
    pub command: String,
    pub description: Option<String>,
    pub timeout: Option<u64>,
    pub run_in_background: Option<bool>,
}

#[derive(Debug)]
pub struct WriteInput {
    pub file_path: String,
    pub content: String,
}

#[derive(Debug)]
pub struct EditInput {
    pub file_path: String,
    pub old_string: String,
    pub new_string: String,
    pub replace_all: bool,
}

#[derive(Debug)]
pub struct NotebookEditInput {
    pub file_path: String,
}

#[derive(Debug)]
pub struct ReadInput {
    pub file_path: String,
    pub offset: Option<u64>,
    pub limit: Option<u64>,
}

#[derive(Debug)]
pub struct GlobInput {
    pub pattern: String,
    pub path: Option<String>,
}

#[derive(Debug)]
pub struct GrepInput {
    pub pattern: String,
    pub path: Option<String>,
    pub glob: Option<String>,
    pub output_mode: Option<String>,
    pub case_insensitive: bool,
    pub multiline: bool,
}

#[derive(Debug)]
pub struct WebFetchInput {
    pub url: String,
    pub prompt: String,
}

#[derive(Debug)]
pub struct WebSearchInput {
    pub query: String,
    pub allowed_domains: Option<Vec<String>>,
    pub blocked_domains: Option<Vec<String>>,
}

#[derive(Debug)]
pub struct AgentToolInput {
    pub prompt: String,
    pub description: Option<String>,
    pub subagent_type: Option<String>,
    pub model: Option<String>,
}

#[derive(Debug)]
pub struct QuestionOption {
    pub label: String,
}

#[derive(Debug)]
pub struct Question {
    pub question: String,
    pub header: String,
    pub options: Vec<QuestionOption>,
    pub multi_select: bool,
}

#[derive(Debug)]
pub struct AskUserQuestionInput {
    pub questions: Vec<Question>,
    /// Maps question text to selected option label(s) when pre-answered.
    pub answers: Option<HashMap<String, String>>,
}

/// Input for Codex's `apply_patch` tool.  The whole change set is carried
/// as a single patch-envelope string.
#[derive(Debug)]
pub struct ApplyPatchInput {
    pub input: String,
}

// ---------------------------------------------------------------------------
// Patch headers
// ---------------------------------------------------------------------------

/// Characters with the Unicode `White_Space` property (what `char::is_whitespace`
/// and `str::trim` go by).
pub open spec fn is_white(c: char) -> bool {
    ||| '\u{9}' <= c <= '\u{d}'
    ||| c == ' '
    ||| c == '\u{85}'
    ||| c == '\u{a0}'
    ||| c == '\u{1680}'
    ||| '\u{2000}' <= c <= '\u{200a}'
    ||| c == '\u{2028}'
    ||| c == '\u{2029}'
    ||| c == '\u{202f}'
    ||| c == '\u{205f}'
    ||| c == '\u{3000}'
}

/// `s` without its leading whitespace.
pub open spec fn trim_start(s: Seq<char>) -> Seq<char>
    decreases s.len(),
{
    if s.len() > 0 && is_white(s[0]) {
        trim_start(s.drop_first())
    } else {
        s
    }
}

/// `s` without its trailing whitespace.
pub open spec fn trim_end(s: Seq<char>) -> Seq<char>
    decreases s.len(),
{
    if s.len() > 0 && is_white(s.last()) {
        trim_end(s.drop_last())
    } else {
        s
    }
}

/// `s` without leading and trailing whitespace.
pub open spec fn trimmed(s: Seq<char>) -> Seq<char> {
    trim_end(trim_start(s))
}

/// The pieces of `s` between newlines, in order (one piece more than there
/// are newlines).
pub open spec fn split_lines(s: Seq<char>) -> Seq<Seq<char>>
    decreases s.len(),
{
    if s.len() == 0 {
        seq![Seq::empty()]
    } else if s.last() == '\n' {
        split_lines(s.drop_last()).push(Seq::empty())
    } else {
        let p = split_lines(s.drop_last());
        p.update(p.len() - 1, p.last().push(s.last()))
    }
}

/// The lines of `s` as `str::lines` gives them: split at each `\n`, a
/// `\r` right before a `\n` dropped, and no empty line after a final `\n`
/// (nor for an empty string).
pub open spec fn std_lines(s: Seq<char>) -> Seq<Seq<char>> {
    let p = split_lines(s);
    let body = if p.last().len() == 0 { p.drop_last() } else { p };
    Seq::new(
        body.len(),
        |i: int|
            if i < p.len() - 1 && body[i].len() > 0 && body[i].last() == '\r' {
                body[i].drop_last()
            } else {
                body[i]
            },
    )
}

/// The path a header line names after `prefix`, when the trimmed line
/// starts with `prefix` and a non-empty path follows it.
pub open spec fn after_prefix(t: Seq<char>, prefix: Seq<char>) -> Option<Seq<char>> {
    if t.len() >= prefix.len() && t.take(prefix.len() as int) == prefix
        && trimmed(t.skip(prefix.len() as int)).len() > 0 {
        Some(trimmed(t.skip(prefix.len() as int)))
    } else {
        None
    }
}

/// The path a patch line names, if it is an `Add File`, `Update File`,
/// `Delete File` or `Move to` header.
pub open spec fn header_path(line: Seq<char>) -> Option<Seq<char>> {
    let t = trimmed(line);
    if after_prefix(t, "*** Add File:"@) is Some {
        after_prefix(t, "*** Add File:"@)
    } else if after_prefix(t, "*** Update File:"@) is Some {
        after_prefix(t, "*** Update File:"@)
    } else if after_prefix(t, "*** Delete File:"@) is Some {
        after_prefix(t, "*** Delete File:"@)
    } else {
        after_prefix(t, "*** Move to:"@)
    }
}

/// The header paths of the lines, in order.
pub open spec fn header_paths(lines: Seq<Seq<char>>) -> Seq<Seq<char>>
    decreases lines.len(),
{
    if lines.len() == 0 {
        Seq::empty()
    } else {
        let prev = header_paths(lines.drop_last());
        match header_path(lines.last()) {
            Some(p) => prev.push(p),
            None => prev,
        }
    }
}

/// The file paths a patch envelope writes to.
pub open spec fn patch_paths(patch: Seq<char>) -> Seq<Seq<char>> {
    header_paths(split_lines(patch))
}

fn is_white_char(c: char) -> (r: bool)
    ensures
        r == is_white(c),
{
    ('\u{9}' <= c && c <= '\u{d}') || c == ' ' || c == '\u{85}' || c == '\u{a0}' || c == '\u{1680}'
        || ('\u{2000}' <= c && c <= '\u{200a}') || c == '\u{2028}' || c == '\u{2029}' || c == '\u{202f}'
        || c == '\u{205f}' || c == '\u{3000}'
}

/// The bounds of `chars[lo..hi]` trimmed.
fn trim_bounds(chars: &Vec<char>, lo: usize, hi: usize) -> (r: (usize, usize))
    requires
        lo <= hi <= chars@.len(),
    ensures
        lo <= r.0 <= r.1 <= hi,
        chars@.subrange(r.0 as int, r.1 as int) == trimmed(chars@.subrange(lo as int, hi as int)),
{
    let ghost s = chars@.subrange(lo as int, hi as int);
    let mut a = lo;
    while a < hi && is_white_char(chars[a])
        invariant
            lo <= a <= hi,
            hi <= chars@.len(),
            s == chars@.subrange(lo as int, hi as int),
            trim_start(s) == trim_start(chars@.subrange(a as int, hi as int)),
        decreases hi - a,
    {
        let ghost cur = chars@.subrange(a as int, hi as int);
        assert(cur[0] == chars@[a as int]);
        assert(cur.drop_first() =~= chars@.subrange(a + 1, hi as int));
        a = a + 1;
    }
    proof {
        let cur = chars@.subrange(a as int, hi as int);
        if a < hi {
            assert(cur[0] == chars@[a as int]);
        }
        assert(trim_start(cur) == cur);
    }
    let mut b = hi;
    while b > a && is_white_char(chars[b - 1])
        invariant
            a <= b <= hi,
            hi <= chars@.len(),
            trim_end(chars@.subrange(a as int, hi as int)) == trim_end(chars@.subrange(a as int, b as int)),
        decreases b,
    {
        let ghost cur = chars@.subrange(a as int, b as int);
        assert(cur.last() == chars@[b - 1]);
        assert(cur.drop_last() =~= chars@.subrange(a as int, b - 1));
        b = b - 1;
    }
    proof {
        let cur = chars@.subrange(a as int, b as int);
        if b > a {
            assert(cur.last() == chars@[b - 1]);
        }
        assert(trim_end(cur) == cur);
    }
    (a, b)
}

/// Whether `chars[lo..hi]` starts with `prefix`.
fn starts_with_at(chars: &Vec<char>, lo: usize, hi: usize, prefix: &str) -> (r: bool)
    requires
        lo <= hi <= chars@.len(),
    ensures
        r == (hi - lo >= prefix@.len() && chars@.subrange(lo as int, hi as int).take(prefix@.len() as int) == prefix@),
{
    let n = prefix.unicode_len();
    if hi - lo < n {
        return false;
    }
    let mut k: usize = 0;
    while k < n
        invariant
            n == prefix@.len(),
            lo + n <= hi <= chars@.len(),
            k <= n,
            forall|j: int| 0 <= j < k ==> chars@[lo + j] == prefix@[j],
        decreases n - k,
    {
        if chars[lo + k] != prefix.get_char(k) {
            assert(chars@.subrange(lo as int, hi as int).take(n as int)[k as int] == chars@[lo + k]);
            return false;
        }
        k = k + 1;
    }
    assert(chars@.subrange(lo as int, hi as int).take(n as int) =~= prefix@);
    true
}

/// The path after `prefix` on the trimmed line `chars[lo..hi]`.
fn path_after(input: &str, chars: &Vec<char>, lo: usize, hi: usize, prefix: &str) -> (r: Option<String>)
    requires
        chars@ == input@,
        lo <= hi <= chars@.len(),
    ensures
        match r {
            Some(p) => after_prefix(chars@.subrange(lo as int, hi as int), prefix@) == Some(p@),
            None => after_prefix(chars@.subrange(lo as int, hi as int), prefix@) is None,
        },
{
    let ghost t = chars@.subrange(lo as int, hi as int);
    if !starts_with_at(chars, lo, hi, prefix) {
        return None;
    }
    let n = prefix.unicode_len();
    let (a, b) = trim_bounds(chars, lo + n, hi);
    assert(chars@.subrange(lo + n, hi as int) =~= t.skip(n as int));
    if a == b {
        return None;
    }
    let p = input.substring_char(a, b);
    Some(String::from_str(p))
}

/// The header path of the line `chars[lo..hi]`.
fn line_header_path(input: &str, chars: &Vec<char>, lo: usize, hi: usize) -> (r: Option<String>)
    requires
        chars@ == input@,
        lo <= hi <= chars@.len(),
    ensures
        match r {
            Some(p) => header_path(chars@.subrange(lo as int, hi as int)) == Some(p@),
            None => header_path(chars@.subrange(lo as int, hi as int)) is None,
        },
{
    let (a, b) = trim_bounds(chars, lo, hi);
    if let Some(p) = path_after(input, chars, a, b, "*** Add File:") {
        return Some(p);
    }
    if let Some(p) = path_after(input, chars, a, b, "*** Update File:") {
        return Some(p);
    }
    if let Some(p) = path_after(input, chars, a, b, "*** Delete File:") {
        return Some(p);
    }
    path_after(input, chars, a, b, "*** Move to:")
}

/// The views of a sequence of strings.
pub open spec fn string_views(v: Seq<String>) -> Seq<Seq<char>> {
    v.map_values(|s: String| s@)
}

proof fn lemma_split_step(s: Seq<char>, i: int)
    requires
        0 <= i < s.len(),
    ensures
        split_lines(s.take(i + 1)) == (if s[i] == '\n' {
            split_lines(s.take(i)).push(Seq::empty())
        } else {
            split_lines(s.take(i)).update(
                split_lines(s.take(i)).len() - 1,
                split_lines(s.take(i)).last().push(s[i]),
            )
        }),
{
    assert(s.take(i + 1).drop_last() =~= s.take(i));
    assert(s.take(i + 1).last() == s[i]);
}

proof fn lemma_split_nonempty(s: Seq<char>)
    ensures
        split_lines(s).len() >= 1,
    decreases s.len(),
{
    if s.len() > 0 {
        lemma_split_nonempty(s.drop_last());
    }
}

impl ApplyPatchInput {
    /// The file paths the patch writes to, from the envelope's
    /// `*** Add File:`, `*** Update File:`, `*** Delete File:` and
    /// `*** Move to:` header lines, in order.  A rename produces both the
    /// original (`Update File`) and the destination (`Move to`) paths.
    pub fn affected_paths(&self) -> (r: Vec<String>)
        ensures
            string_views(r@) == patch_paths(self.input@),
    {
        let chars = chars_of(self.input.as_str());
        let ghost s = chars@;
        let n = chars.len();
        let mut out: Vec<String> = Vec::new();
        let mut start: usize = 0;
        let mut i: usize = 0;
        proof {
            assert(s.take(0) =~= Seq::<char>::empty());
        }
        while i < n
            invariant
                s == chars@,
                s == self.input@,
                n == s.len(),
                start <= i <= n,
                split_lines(s.take(i as int)).len() >= 1,
                split_lines(s.take(i as int)).last() == s.subrange(start as int, i as int),
                string_views(out@) == header_paths(split_lines(s.take(i as int)).drop_last()),
            decreases n - i,
        {
            let ghost before = split_lines(s.take(i as int));
            proof {
                lemma_split_step(s, i as int);
            }
            if chars[i] == '\n' {
                let h = line_header_path(self.input.as_str(), &chars, start, i);
                let ghost prev_out = out@;
                let ghost now = split_lines(s.take(i + 1));
                proof {
                    assert(now == before.push(Seq::empty()));
                    assert(now.drop_last() =~= before);
                    assert(before.drop_last().push(before.last()) =~= before);
                }
                match h {
                    Some(p) => {
                        out.push(p);
                        assert(string_views(out@) =~= string_views(prev_out).push(p@));
                    },
                    None => {},
                }
                start = i + 1;
                i = i + 1;
                assert(s.subrange(start as int, i as int) =~= Seq::<char>::empty());
            } else {
                proof {
                    let now = split_lines(s.take(i + 1));
                    assert(now.drop_last() =~= before.drop_last());
                    assert(now.last() =~= s.subrange(start as int, i + 1));
                }
                i = i + 1;
            }
        }
        assert(s.take(n as int) =~= s);
        let ghost lines = split_lines(s);
        let h = line_header_path(self.input.as_str(), &chars, start, n);
        proof {
            assert(lines.drop_last().push(lines.last()) =~= lines);
        }
        match h {
            Some(p) => {
                let ghost prev_out = out@;
                out.push(p);
                assert(string_views(out@) =~= string_views(prev_out).push(p@));
            },
            None => {},
        }
        out
    }
}

// ---------------------------------------------------------------------------
// Tool inputs
// ---------------------------------------------------------------------------

#[derive(Debug)]
pub enum ToolInput {
    Bash(BashInput),
    Write(WriteInput),
    Edit(EditInput),
    NotebookEdit(NotebookEditInput),
    Read(ReadInput),
    Glob(GlobInput),
    Grep(GrepInput),
    WebFetch(WebFetchInput),
    WebSearch(WebSearchInput),
    Agent(AgentToolInput),
    AskUserQuestion(AskUserQuestionInput),
    /// Codex's file-editing tool (no counterpart among the other tools).
    ApplyPatch(ApplyPatchInput),
    /// Forward-compatibility catch-all for tools not listed above.
    Unknown { tool_name: String, tool_input: serde_json::Value },
}

/// The tool name of a tool input.
pub open spec fn tool_name(t: ToolInput) -> Seq<char> {
    match t {
        ToolInput::Bash(_) => "Bash"@,
        ToolInput::Write(_) => "Write"@,
        ToolInput::Edit(_) => "Edit"@,
        ToolInput::NotebookEdit(_) => "NotebookEdit"@,
        ToolInput::Read(_) => "Read"@,
        ToolInput::Glob(_) => "Glob"@,
        ToolInput::Grep(_) => "Grep"@,
        ToolInput::WebFetch(_) => "WebFetch"@,
        ToolInput::WebSearch(_) => "WebSearch"@,
        ToolInput::Agent(_) => "Agent"@,
        ToolInput::AskUserQuestion(_) => "AskUserQuestion"@,
        ToolInput::ApplyPatch(_) => "apply_patch"@,
        ToolInput::Unknown { tool_name, .. } => tool_name@,
    }
}

impl ToolInput {
    pub fn name(&self) -> (r: &str)
        ensures
            r@ == tool_name(*self),
    {
        match self {
            ToolInput::Bash(_) => "Bash",
            ToolInput::Write(_) => "Write",
            ToolInput::Edit(_) => "Edit",
            ToolInput::NotebookEdit(_) => "NotebookEdit",
            ToolInput::Read(_) => "Read",
            ToolInput::Glob(_) => "Glob",
            ToolInput::Grep(_) => "Grep",
            ToolInput::WebFetch(_) => "WebFetch",
            ToolInput::WebSearch(_) => "WebSearch",
            ToolInput::Agent(_) => "Agent",
            ToolInput::AskUserQuestion(_) => "AskUserQuestion",
            ToolInput::ApplyPatch(_) => "apply_patch",
            ToolInput::Unknown { tool_name, .. } => tool_name.as_str(),
        }
    }
}

/// A hook event: the common fields, the subagent fields when inside one,
/// and the tool's input.
pub struct HookInput {
    pub common: CommonInput,
    pub agent: Option<AgentInput>,
    pub tool: ToolInput,
}

} // verus!
