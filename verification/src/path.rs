//! Path normalization, glob patterns for readable and writable paths, and
//! the resolution of conditional decisions against them.

use vstd::prelude::*;
use vstd::string::*;
use crate::decision::{Condition, ConditionalBranch, ConditionalDecisionNode, Decision, DecisionNode};
use crate::rules::FileAccess;
use crate::text::views;

verus! {

#[verifier::external_type_specification]
#[verifier::external_body]
pub struct ExGlob(globset::Glob);

#[verifier::external_type_specification]
#[verifier::external_body]
pub struct ExGlobSet(globset::GlobSet);

#[verifier::external_type_specification]
#[verifier::external_body]
pub struct ExGlobError(globset::Error);

/// The longest glob pattern, in characters, that is compiled.  Building a
/// glob set puts a literal part of the pattern into an Aho-Corasick
/// automaton, which refuses (and the glob set builder then panics on)
/// patterns of `i32::MAX` bytes or more; this bound keeps every pattern far
/// below that.
pub const GLOB_MAX_CHARS: usize = 0x1000_0000;

/// Whether `globset::Glob::new` accepts the pattern.
pub uninterp spec fn glob_parses(pattern: Seq<char>) -> bool;

/// Whether `globset::GlobSetBuilder::build` succeeds on a builder holding
/// just the glob that `globset::Glob::new` made from `pattern`.
pub uninterp spec fn glob_builds(pattern: Seq<char>) -> bool;

/// Whether the glob set built (with default options) from the single glob
/// `pattern` matches `path`.
pub uninterp spec fn glob_matches(pattern: Seq<char>, path: Seq<char>) -> bool;

/// `path_clean::clean` of the path: lexical removal of `.`, `..` and
/// repeated slashes.
pub uninterp spec fn cleaned(path: Seq<char>) -> Seq<char>;

/// Calls `globset::Glob::new`, which builds a glob with default options;
/// the contract claims only that it succeeds exactly on the patterns that
/// `glob_parses` names.
#[verifier::external_body]
fn glob_new(pattern: &str) -> (r: Result<globset::Glob, globset::Error>)
    ensures
        r.is_ok() == glob_parses(pattern@),
{
    globset::Glob::new(pattern)
}

/// A glob that `glob_new` made from `source`, kept with it.
struct ParsedGlob {
    source: String,
    glob: globset::Glob,
}

/// Adds the glob to a new `globset::GlobSetBuilder` and calls
/// `GlobSetBuilder::build`, which reports a pattern whose regex is too big
/// as an error; the contract claims success exactly when `glob_builds`
/// names the glob's source.  Patterns longer than `GLOB_MAX_CHARS` are
/// left out: for them the builder can panic.
#[verifier::external_body]
fn glob_set_build(parsed: &ParsedGlob) -> (r: Result<globset::GlobSet, globset::Error>)
    requires
        parsed.source@.len() <= GLOB_MAX_CHARS,
    ensures
        r.is_ok() == glob_builds(parsed.source@),
{
    let mut builder = globset::GlobSetBuilder::new();
    builder.add(parsed.glob.clone());
    builder.build()
}

/// Calls `globset::GlobSet::is_match` on the set that
/// `CompiledGlob::compile` built from `glob.source`; the contract claims
/// the result is `glob_matches` of that source and the path.
#[verifier::external_body]
fn glob_is_match(glob: &CompiledGlob, path: &str) -> (r: bool)
    ensures
        r == glob_matches(glob.source@, path@),
{
    glob.set.is_match(path)
}

/// Whether a path starts at the root.
pub open spec fn is_absolute(p: Seq<char>) -> bool {
    p.len() > 0 && p[0] == '/'
}

/// Whether some `/`-separated component of the path is `.` or `..`.
pub open spec fn has_dot_component(p: Seq<char>) -> bool {
    exists|i: int, j: int|
        0 <= i <= j <= p.len() && (i == 0 || p[i - 1] == '/') && (j == p.len() || p[j] == '/') && (#[trigger] p.subrange(
            i,
            j,
        ) == "."@ || p.subrange(i, j) == ".."@)
}

/// Calls `path_clean::clean` and turns the resulting path back into a
/// string; the contract claims the result is `cleaned` of the argument, and
/// what `clean`'s source shows of it: the result is made of the argument's
/// components with single separators (or is `.` when none is left), so it
/// is at most one character longer; cleaning it again changes nothing; and
/// for an absolute path it starts at the root and has no `.` or `..`
/// component (`..` right after the root is dropped, any other removes the
/// component before it).
#[verifier::external_body]
fn path_clean_str(path: &str) -> (r: String)
    ensures
        r@ == cleaned(path@),
        r@.len() <= path@.len() + 1,
        cleaned(r@) == r@,
        is_absolute(path@) ==> is_absolute(r@) && !has_dot_component(r@),
{
    path_clean::clean(path).to_string_lossy().into_owned()
}

/// Why a path could not be checked.
#[derive(Debug)]
pub enum PathError {
    /// Path bytes cannot be represented as UTF-8, so no glob matching is
    /// possible.
    NotUtf8,
    /// A glob pattern in the rules file failed to compile.
    InvalidGlob { pattern: String, source: globset::Error },
}

/// A glob compiled from `source`; `negated` patterns mark non-matches.
/// The glob set is only ever built from `source`.
pub struct CompiledGlob {
    negated: bool,
    source: String,
    set: globset::GlobSet,
}

/// A pattern as written: a leading `!` negates the glob that follows it.
pub open spec fn pattern_entry(p: Seq<char>) -> (bool, Seq<char>) {
    if p.len() > 0 && p[0] == '!' {
        (true, p.skip(1))
    } else {
        (false, p)
    }
}

/// The glob parses and a matcher can be built from it.
pub open spec fn glob_compiles(glob: Seq<char>) -> bool {
    glob_parses(glob) && glob_builds(glob)
}

impl CompiledGlob {
    pub closed spec fn entry(&self) -> (bool, Seq<char>) {
        (self.negated, self.source@)
    }

    fn compile(pattern: &str) -> (r: Result<CompiledGlob, PathError>)
        requires
            pattern@.len() <= GLOB_MAX_CHARS,
        ensures
            match r {
                Ok(g) => g.entry() == pattern_entry(pattern@) && glob_compiles(pattern_entry(pattern@).1),
                Err(PathError::InvalidGlob { pattern: p, .. }) => p@ == pattern_entry(pattern@).1
                    && !glob_compiles(pattern_entry(pattern@).1),
                Err(PathError::NotUtf8) => false,
            },
    {
        let negated = !pattern.is_empty() && pattern.get_char(0) == '!';
        let glob_str: &str = if negated {
            let n = pattern.unicode_len();
            let rest = pattern.substring_char(1, n);
            assert(rest@ =~= pattern@.skip(1));
            rest
        } else {
            pattern
        };
        match glob_new(glob_str) {
            Ok(glob) => {
                let parsed = ParsedGlob { source: String::from_str(glob_str), glob };
                match glob_set_build(&parsed) {
                    Ok(set) => Ok(CompiledGlob { negated, source: parsed.source, set }),
                    Err(e) => Err(PathError::InvalidGlob { pattern: parsed.source, source: e }),
                }
            },
            Err(e) => Err(PathError::InvalidGlob { pattern: String::from_str(glob_str), source: e }),
        }
    }
}

/// Last match wins: the entry of the last pattern whose glob matches the
/// path decides (negated means no match); no matching pattern means no
/// match.
pub open spec fn patterns_match(pats: Seq<(bool, Seq<char>)>, path: Seq<char>) -> bool
    decreases pats.len(),
{
    if pats.len() == 0 {
        false
    } else if glob_matches(pats.last().1, path) {
        !pats.last().0
    } else {
        patterns_match(pats.drop_last(), path)
    }
}

/// Pre-compiled glob patterns for efficient repeated matching.
pub struct CompiledPatterns(Vec<CompiledGlob>);

impl View for CompiledPatterns {
    type V = Seq<(bool, Seq<char>)>;

    closed spec fn view(&self) -> Seq<(bool, Seq<char>)> {
        self.0@.map_values(|g: CompiledGlob| g.entry())
    }
}

/// The first pattern whose glob does not compile is at `i`.
pub open spec fn first_invalid(patterns: Seq<Seq<char>>, i: int) -> bool {
    &&& 0 <= i < patterns.len()
    &&& !glob_compiles(pattern_entry(patterns[i]).1)
    &&& forall|j: int| 0 <= j < i ==> glob_compiles(#[trigger] pattern_entry(patterns[j]).1)
}

impl CompiledPatterns {
    /// Compile every pattern, or report the first that does not compile.
    pub fn compile(patterns: &[String]) -> (r: Result<Self, PathError>)
        requires
            forall|i: int| 0 <= i < patterns@.len() ==> (#[trigger] patterns@[i])@.len() <= GLOB_MAX_CHARS,
        ensures
            match r {
                Ok(c) => c@ == views(patterns@).map_values(|p: Seq<char>| pattern_entry(p)),
                Err(PathError::InvalidGlob { pattern, .. }) => exists|i: int|
                    first_invalid(views(patterns@), i) && pattern@ == pattern_entry(views(patterns@)[i]).1,
                Err(PathError::NotUtf8) => false,
            },
    {
        let ghost ps = views(patterns@);
        let mut out: Vec<CompiledGlob> = Vec::new();
        let mut i: usize = 0;
        while i < patterns.len()
            invariant
                i <= patterns@.len(),
                ps == views(patterns@),
                out@.len() == i,
                forall|j: int| 0 <= j < i ==> (#[trigger] out@[j]).entry() == pattern_entry(ps[j]),
                forall|j: int| 0 <= j < i ==> glob_compiles(#[trigger] pattern_entry(ps[j]).1),
                forall|j: int| 0 <= j < patterns@.len() ==> (#[trigger] patterns@[j])@.len() <= GLOB_MAX_CHARS,
            decreases patterns.len() - i,
        {
            assert(ps[i as int] == patterns@[i as int]@);
            match CompiledGlob::compile(patterns[i].as_str()) {
                Ok(g) => {
                    out.push(g);
                },
                Err(e) => {
                    assert(first_invalid(ps, i as int));
                    return Err(e);
                },
            }
            i = i + 1;
        }
        let r = CompiledPatterns(out);
        assert(r@ =~= ps.map_values(|p: Seq<char>| pattern_entry(p)));
        Ok(r)
    }

    /// Evaluate patterns in order (last match wins, negated = non-match)
    /// against the path normalized against `cwd`.  Returns `false` if no
    /// pattern matches.
    pub fn matches(&self, filepath: &str, cwd: &str) -> (r: Result<bool, PathError>)
        ensures
            r matches Ok(b) && b == patterns_match(self@, normalized(filepath@, cwd@)),
    {
        let normalized = normalize_path(filepath, cwd)?;
        Ok(self.matches_normalized(normalized.as_str()))
    }

    /// Evaluate patterns in order (last match wins, negated = non-match)
    /// against the path as it is.
    fn matches_normalized(&self, normalized: &str) -> (r: bool)
        ensures
            r == patterns_match(self@, normalized@),
    {
        let ghost pats = self@;
        let mut result = false;
        let mut i: usize = 0;
        while i < self.0.len()
            invariant
                i <= self.0@.len(),
                pats == self@,
                pats.len() == self.0@.len(),
                result == patterns_match(pats.take(i as int), normalized@),
            decreases self.0.len() - i,
        {
            assert(pats.take(i + 1).drop_last() =~= pats.take(i as int));
            assert(pats[i as int] == self.0@[i as int].entry());
            if glob_is_match(&self.0[i], normalized) {
                result = !self.0[i].negated;
            }
            i = i + 1;
        }
        assert(pats.take(pats.len() as int) =~= pats);
        result
    }
}

/// `path` made absolute against `cwd` (as `Path::join` does): an absolute
/// path stays, a relative one is appended to `cwd` with a separator.
pub open spec fn joined(path: Seq<char>, cwd: Seq<char>) -> Seq<char> {
    if path.len() > 0 && path[0] == '/' {
        path
    } else if cwd.len() == 0 {
        path
    } else if cwd.last() == '/' {
        cwd + path
    } else {
        cwd + "/"@ + path
    }
}

/// The normalized form of a path: made absolute against `cwd`, then
/// lexically cleaned.
pub open spec fn normalized(path: Seq<char>, cwd: Seq<char>) -> Seq<char> {
    cleaned(joined(path, cwd))
}

/// Normalize a path -- make it absolute (prepend `cwd` if relative) and
/// lexically resolve `.` / `..` components (no filesystem access).
pub fn normalize_path(path: &str, cwd: &str) -> (r: Result<String, PathError>)
    ensures
        r matches Ok(s) && s@ == normalized(path@, cwd@),
        r matches Ok(s) && s@.len() <= path@.len() + cwd@.len() + 2,
        is_absolute(path@) || is_absolute(cwd@) ==> (r matches Ok(s) && {
            &&& is_absolute(s@)
            &&& !has_dot_component(s@)
            &&& forall|c2: Seq<char>| #[trigger] normalized(s@, c2) == s@
        }),
{
    let absolute = !path.is_empty() && path.get_char(0) == '/';
    if absolute || cwd.is_empty() {
        return Ok(path_clean_str(path));
    }
    let n = cwd.unicode_len();
    let mut full = String::from_str(cwd);
    if cwd.get_char(n - 1) != '/' {
        full.append("/");
    }
    full.append(path);
    proof {
        reveal_strlit("/");
    }
    Ok(path_clean_str(full.as_str()))
}

/// Pre-compiled file access rules.
pub struct CompiledFileAccess {
    pub read: CompiledAccessRules,
    pub write: CompiledWriteRules,
}

pub struct CompiledAccessRules {
    patterns: CompiledPatterns,
}

pub struct CompiledWriteRules {
    patterns: CompiledPatterns,
    require_readable: bool,
}

/// Compiled file access rules as pattern entries.
pub struct FileAccessView {
    pub read: Seq<(bool, Seq<char>)>,
    pub write: Seq<(bool, Seq<char>)>,
    pub require_readable: bool,
}

impl View for CompiledFileAccess {
    type V = FileAccessView;

    closed spec fn view(&self) -> FileAccessView {
        FileAccessView {
            read: self.read.patterns@,
            write: self.write.patterns@,
            require_readable: self.write.require_readable,
        }
    }
}

/// The patterns in effect: with a project directory, `<dir>/**` (the
/// directory normalized against `cwd`) comes first, so later user patterns
/// can override it.
pub open spec fn effective_patterns(patterns: Seq<Seq<char>>, cwd: Seq<char>, project_dir: Option<Seq<char>>) -> Seq<Seq<char>> {
    match project_dir {
        Some(dir) => seq![project_glob(dir, cwd)] + patterns,
        None => patterns,
    }
}

/// The characters of an optional string.
pub open spec fn opt_view(o: Option<&str>) -> Option<Seq<char>> {
    match o {
        Some(s) => Some(s@),
        None => None,
    }
}

/// `<dir>/**` for the normalized project directory.
pub open spec fn project_glob(dir: Seq<char>, cwd: Seq<char>) -> Seq<char> {
    let n = normalized(dir, cwd);
    if n.len() > 0 && n.last() == '/' {
        n + "**"@
    } else {
        n + "/"@ + "**"@
    }
}

/// The compiled entries of written patterns.
pub open spec fn entries_of(patterns: Seq<Seq<char>>) -> Seq<(bool, Seq<char>)> {
    patterns.map_values(|p: Seq<char>| pattern_entry(p))
}

fn with_project_dir(patterns: &Vec<String>, glob: &String) -> (r: Vec<String>)
    ensures
        views(r@) == seq![glob@] + views(patterns@),
{
    let mut r: Vec<String> = Vec::new();
    r.push(glob.clone());
    let mut i: usize = 0;
    while i < patterns.len()
        invariant
            i <= patterns@.len(),
            views(r@) == seq![glob@] + views(patterns@).take(i as int),
        decreases patterns.len() - i,
    {
        let ghost before = r@;
        r.push(patterns[i].clone());
        assert(views(r@) =~= views(before).push(patterns@[i as int]@));
        i = i + 1;
        assert(views(r@) =~= seq![glob@] + views(patterns@).take(i as int));
    }
    assert(views(patterns@).take(patterns@.len() as int) =~= views(patterns@));
    r
}

fn copy_strings(patterns: &Vec<String>) -> (r: Vec<String>)
    ensures
        views(r@) == views(patterns@),
{
    let mut r: Vec<String> = Vec::new();
    let mut i: usize = 0;
    while i < patterns.len()
        invariant
            i <= patterns@.len(),
            views(r@) == views(patterns@).take(i as int),
        decreases patterns.len() - i,
    {
        let ghost before = r@;
        r.push(patterns[i].clone());
        assert(views(r@) =~= views(before).push(patterns@[i as int]@));
        i = i + 1;
        assert(views(r@) =~= views(patterns@).take(i as int));
    }
    assert(views(patterns@).take(patterns@.len() as int) =~= views(patterns@));
    r
}

impl CompiledFileAccess {
    /// Compile all glob patterns from `FileAccess`. When `project_dir` is
    /// provided, `<dir>/**` is prepended to both the read and write lists
    /// so that user-supplied negations (which come after, and win under
    /// last-match-wins) can still carve exceptions out of the project dir.
    pub fn compile(file_access: &FileAccess, cwd: &str, project_dir: Option<&str>) -> (r: Result<Self, PathError>)
        requires
            forall|i: int| 0 <= i < file_access.read.glob_patterns@.len()
                ==> (#[trigger] file_access.read.glob_patterns@[i])@.len() <= GLOB_MAX_CHARS,
            forall|i: int| 0 <= i < file_access.write.glob_patterns@.len()
                ==> (#[trigger] file_access.write.glob_patterns@[i])@.len() <= GLOB_MAX_CHARS,
            project_dir matches Some(d) ==> d@.len() + cwd@.len() + 5 <= GLOB_MAX_CHARS,
        ensures
            match r {
                Ok(c) => {
                    &&& c@.read == entries_of(effective_patterns(views(file_access.read.glob_patterns@), cwd@, opt_view(project_dir)))
                    &&& c@.write == entries_of(effective_patterns(views(file_access.write.glob_patterns@), cwd@, opt_view(project_dir)))
                    &&& c@.require_readable == file_access.write.require_readable
                },
                Err(PathError::InvalidGlob { pattern, .. }) => {
                    ||| exists|i: int| first_invalid(effective_patterns(views(file_access.read.glob_patterns@), cwd@, opt_view(project_dir)), i)
                        && pattern@ == pattern_entry(effective_patterns(views(file_access.read.glob_patterns@), cwd@, opt_view(project_dir))[i]).1
                    ||| exists|i: int| first_invalid(effective_patterns(views(file_access.write.glob_patterns@), cwd@, opt_view(project_dir)), i)
                        && pattern@ == pattern_entry(effective_patterns(views(file_access.write.glob_patterns@), cwd@, opt_view(project_dir))[i]).1
                },
                Err(PathError::NotUtf8) => false,
            },
    {
        let (read_patterns, write_patterns) = match project_dir {
            Some(dir) => {
                let normalized = match normalize_path(dir, cwd) {
                    Ok(s) => s,
                    Err(_) => String::new(),
                };
                let n = normalized.as_str().unicode_len();
                let mut glob = String::from_str(normalized.as_str());
                if n == 0 || normalized.as_str().get_char(n - 1) != '/' {
                    glob.append("/");
                }
                glob.append("**");
                proof {
                    reveal_strlit("/");
                    reveal_strlit("**");
                    assert(normalized@ == crate::path::normalized(dir@, cwd@));
                    assert(glob@ =~= project_glob(dir@, cwd@));
                    assert(normalized@.len() <= dir@.len() + cwd@.len() + 2);
                    assert(glob@.len() <= GLOB_MAX_CHARS);
                }
                (with_project_dir(&file_access.read.glob_patterns, &glob), with_project_dir(&file_access.write.glob_patterns, &glob))
            },
            None => (copy_strings(&file_access.read.glob_patterns), copy_strings(&file_access.write.glob_patterns)),
        };
        assert(views(read_patterns@) == effective_patterns(views(file_access.read.glob_patterns@), cwd@, opt_view(project_dir)));
        assert(views(write_patterns@) == effective_patterns(views(file_access.write.glob_patterns@), cwd@, opt_view(project_dir)));
        assert forall|i: int| 0 <= i < read_patterns@.len() implies (#[trigger] read_patterns@[i])@.len() <= GLOB_MAX_CHARS by {
            assert(views(read_patterns@)[i] == read_patterns@[i]@);
            if project_dir is Some && i > 0 {
                assert(file_access.read.glob_patterns@[i - 1]@ == views(file_access.read.glob_patterns@)[i - 1]);
            } else if project_dir is None {
                assert(file_access.read.glob_patterns@[i]@ == views(file_access.read.glob_patterns@)[i]);
            }
        }
        assert forall|i: int| 0 <= i < write_patterns@.len() implies (#[trigger] write_patterns@[i])@.len() <= GLOB_MAX_CHARS by {
            assert(views(write_patterns@)[i] == write_patterns@[i]@);
            if project_dir is Some && i > 0 {
                assert(file_access.write.glob_patterns@[i - 1]@ == views(file_access.write.glob_patterns@)[i - 1]);
            } else if project_dir is None {
                assert(file_access.write.glob_patterns@[i]@ == views(file_access.write.glob_patterns@)[i]);
            }
        }
        let read = match CompiledPatterns::compile(read_patterns.as_slice()) {
            Ok(p) => CompiledAccessRules { patterns: p },
            Err(e) => {
                return Err(e);
            },
        };
        let write = match CompiledPatterns::compile(write_patterns.as_slice()) {
            Ok(p) => CompiledWriteRules { patterns: p, require_readable: file_access.write.require_readable },
            Err(e) => {
                return Err(e);
            },
        };
        Ok(CompiledFileAccess { read, write })
    }
}

/// The path, normalized against `cwd`, is readable.
pub open spec fn spec_readable(fa: FileAccessView, path: Seq<char>, cwd: Seq<char>) -> bool {
    patterns_match(fa.read, normalized(path, cwd))
}

/// The path, normalized against `cwd`, is writable: it matches the write
/// patterns and, when readability is required, is readable.
pub open spec fn spec_writable(fa: FileAccessView, path: Seq<char>, cwd: Seq<char>) -> bool {
    &&& (fa.require_readable ==> spec_readable(fa, path, cwd))
    &&& patterns_match(fa.write, normalized(path, cwd))
}

/// Check if a path is readable according to compiled file access rules.
pub fn is_readable(filepath: &str, fa: &CompiledFileAccess, cwd: &str) -> (r: Result<bool, PathError>)
    ensures
        r matches Ok(b) && b == spec_readable(fa@, filepath@, cwd@),
{
    fa.read.patterns.matches(filepath, cwd)
}

/// Check if a path is writable according to compiled file access rules.
/// When `require_readable` is set, a path must also pass the read globs.
pub fn is_writable(filepath: &str, fa: &CompiledFileAccess, cwd: &str) -> (r: Result<bool, PathError>)
    ensures
        r matches Ok(b) && b == spec_writable(fa@, filepath@, cwd@),
{
    if fa.write.require_readable && !is_readable(filepath, fa, cwd)? {
        return Ok(false);
    }
    fa.write.patterns.matches(filepath, cwd)
}

/// Result of attempting to read a file for a `checkFile` content scan.
pub enum FileCheckRead {
    /// File was successfully read.  Contents are within the size cap and
    /// valid UTF-8.
    Contents(String),
    /// File could not be read for any reason: blocked by read globs,
    /// missing on disk, oversized, not valid UTF-8, or an I/O error.  The
    /// string is a short explanation for the judgment's reason.
    Unreadable(String),
}

/// A read outcome with its text as characters: the contents, or why the
/// file could not be read.
pub open spec fn read_view(r: FileCheckRead) -> Result<Seq<char>, Seq<char>> {
    match r {
        FileCheckRead::Contents(c) => Ok(c@),
        FileCheckRead::Unreadable(m) => Err(m@),
    }
}

/// Files read for content checks, by the path as the command gave it.
pub open spec fn file_views(files: Seq<(String, FileCheckRead)>) -> Seq<(Seq<char>, Result<Seq<char>, Seq<char>>)> {
    files.map_values(|f: (String, FileCheckRead)| (f.0@, read_view(f.1)))
}

/// `i` is the first file read for `path`.
pub open spec fn read_at(files: Seq<(Seq<char>, Result<Seq<char>, Seq<char>>)>, path: Seq<char>, i: int) -> bool {
    &&& 0 <= i < files.len()
    &&& files[i].0 == path
    &&& forall|j: int| 0 <= j < i ==> (#[trigger] files[j]).0 != path
}

/// What was read for `path`: the first entry for it.
pub open spec fn file_read(files: Seq<(Seq<char>, Result<Seq<char>, Seq<char>>)>, path: Seq<char>) -> Option<Result<Seq<char>, Seq<char>>> {
    if exists|i: int| read_at(files, path, i) {
        Some(files[choose|i: int| read_at(files, path, i)].1)
    } else {
        None
    }
}

/// The index of what was read for `path`.
pub fn find_read(files: &[(String, FileCheckRead)], path: &str) -> (r: Option<usize>)
    ensures
        match r {
            Some(i) => i < files@.len() && read_at(file_views(files@), path@, i as int)
                && file_read(file_views(files@), path@) == Some(read_view(files@[i as int].1)),
            None => file_read(file_views(files@), path@) is None,
        },
{
    let ghost fv = file_views(files@);
    let mut i: usize = 0;
    while i < files.len()
        invariant
            i <= files@.len(),
            fv == file_views(files@),
            forall|j: int| 0 <= j < i ==> (#[trigger] fv[j]).0 != path@,
        decreases files.len() - i,
    {
        assert(fv[i as int] == (files@[i as int].0@, read_view(files@[i as int].1)));
        if crate::text::str_equal(files[i].0.as_str(), path) {
            assert(read_at(fv, path@, i as int));
            assert forall|k: int| read_at(fv, path@, k) implies k == i as int by {
                if k > i {
                    assert(fv[i as int].0 == path@);
                }
            }
            return Some(i);
        }
        i = i + 1;
    }
    assert(!exists|k: int| read_at(fv, path@, k));
    None
}

/// Default size cap, in bytes, for reading a file for a content check.
pub const FILE_CHECK_MAX_BYTES: usize = 1048576;

/// The first step of reading a file for a content check, before any disk
/// access: a path the read globs block is unreadable; any other path is to
/// be read at its normalized form.
pub fn check_target(filepath: &str, fa: &CompiledFileAccess, cwd: &str) -> (r: Result<Result<String, FileCheckRead>, PathError>)
    ensures
        r matches Ok(t) && (if spec_readable(fa@, filepath@, cwd@) {
            t matches Ok(n) && n@ == normalized(filepath@, cwd@)
        } else {
            t matches Err(FileCheckRead::Unreadable(m)) && m@ == "path '"@ + filepath@
                + "' is not readable per file access rules"@
        }),
{
    if !is_readable(filepath, fa, cwd)? {
        let mut m = String::from_str("path '");
        m.append(filepath);
        m.append("' is not readable per file access rules");
        return Ok(Err(FileCheckRead::Unreadable(m)));
    }
    Ok(Ok(normalize_path(filepath, cwd)?))
}

/// What came of reading a file from disk.
pub enum ReadAttempt {
    /// The file could not be opened; the operating system's message.
    OpenFailed(String),
    /// Reading failed part way; the operating system's message.
    ReadFailed(String),
    /// At most one byte more than the cap was read: how many bytes, and
    /// the text when they are valid UTF-8.
    Read { len: usize, text: Option<String> },
}

/// The message for a failed or refused read of `path`.
pub open spec fn read_failure(path: Seq<char>, attempt: ReadAttempt, max_bytes: nat) -> Seq<char> {
    match attempt {
        ReadAttempt::OpenFailed(e) => "cannot open '"@ + path + "': "@ + e@,
        ReadAttempt::ReadFailed(e) => "read error on '"@ + path + "': "@ + e@,
        ReadAttempt::Read { len, text } => if len > max_bytes {
            "file '"@ + path + "' exceeds "@ + crate::text::decimal(max_bytes) + " byte limit"@
        } else {
            "file '"@ + path + "' is not valid UTF-8"@
        },
    }
}

/// The outcome of reading the file at the normalized path `normalized`
/// with a cap of `max_bytes`: its text when it was read whole within the
/// cap as UTF-8, else unreadable with the reason.
pub fn read_outcome(normalized: &str, max_bytes: usize, attempt: ReadAttempt) -> (r: FileCheckRead)
    ensures
        match attempt {
            ReadAttempt::Read { len, text: Some(t) } => if len <= max_bytes {
                r matches FileCheckRead::Contents(c) && c@ == t@
            } else {
                r matches FileCheckRead::Unreadable(m) && m@ == read_failure(normalized@, attempt, max_bytes as nat)
            },
            _ => r matches FileCheckRead::Unreadable(m) && m@ == read_failure(normalized@, attempt, max_bytes as nat),
        },
{
    let ghost a = attempt;
    match attempt {
        ReadAttempt::OpenFailed(e) => {
            let mut m = String::from_str("cannot open '");
            m.append(normalized);
            m.append("': ");
            m.append(e.as_str());
            FileCheckRead::Unreadable(m)
        },
        ReadAttempt::ReadFailed(e) => {
            let mut m = String::from_str("read error on '");
            m.append(normalized);
            m.append("': ");
            m.append(e.as_str());
            FileCheckRead::Unreadable(m)
        },
        ReadAttempt::Read { len, text } => {
            if len > max_bytes {
                let mut m = String::from_str("file '");
                m.append(normalized);
                m.append("' exceeds ");
                m.append(crate::text::decimal_string(max_bytes).as_str());
                m.append(" byte limit");
                return FileCheckRead::Unreadable(m);
            }
            match text {
                Some(t) => FileCheckRead::Contents(t),
                None => {
                    let mut m = String::from_str("file '");
                    m.append(normalized);
                    m.append("' is not valid UTF-8");
                    FileCheckRead::Unreadable(m)
                },
            }
        },
    }
}

/// Whether a condition holds for the path.
pub open spec fn spec_condition(c: Condition, fa: FileAccessView, path: Seq<char>, cwd: Seq<char>) -> bool {
    match c {
        Condition::Readable => spec_readable(fa, path, cwd),
        Condition::Writable => spec_writable(fa, path, cwd),
    }
}

/// The decision a conditional gives for the path: the `then` branch when
/// its condition holds, else the `else` branch, resolved recursively.
pub open spec fn spec_resolve_node(node: ConditionalDecisionNode, fa: FileAccessView, path: Seq<char>, cwd: Seq<char>) -> Decision
    decreases node,
{
    let branch = if spec_condition(node.condition, fa, path, cwd) { node.then_decision } else { node.else_decision };
    match branch {
        ConditionalBranch::Static(d) => d,
        ConditionalBranch::Nested(c) => spec_resolve_node(*c, fa, path, cwd),
    }
}

/// The decision a decision node gives for the path.
pub open spec fn spec_resolve(node: DecisionNode, fa: FileAccessView, path: Seq<char>, cwd: Seq<char>) -> Decision {
    match node {
        DecisionNode::Static(d) => d,
        DecisionNode::Conditional(c) => spec_resolve_node(*c, fa, path, cwd),
    }
}

/// Resolve a `DecisionNode` against a path using compiled file access
/// rules.
pub fn resolve_conditional(node: &DecisionNode, path: &str, fa: &CompiledFileAccess, cwd: &str) -> (r: Result<Decision, PathError>)
    ensures
        r matches Ok(d) && d == spec_resolve(*node, fa@, path@, cwd@),
{
    match node {
        DecisionNode::Static(d) => Ok(*d),
        DecisionNode::Conditional(c) => resolve_node(c, path, fa, cwd),
    }
}

fn resolve_node(node: &ConditionalDecisionNode, path: &str, fa: &CompiledFileAccess, cwd: &str) -> (r: Result<Decision, PathError>)
    ensures
        r matches Ok(d) && d == spec_resolve_node(*node, fa@, path@, cwd@),
    decreases node,
{
    let passed = match node.condition {
        Condition::Readable => is_readable(path, fa, cwd)?,
        Condition::Writable => is_writable(path, fa, cwd)?,
    };
    let branch = if passed { &node.then_decision } else { &node.else_decision };
    match branch {
        ConditionalBranch::Static(d) => Ok(*d),
        ConditionalBranch::Nested(c) => resolve_node(c, path, fa, cwd),
    }
}

} // verus!
