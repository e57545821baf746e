# pretool_hook

A PreToolUse hook for coding agents: before each tool call it answers
allow, deny or ask (or abstains), from a JSON rules file with per-command
decision trees for shell commands and glob-based file access rules for the
file tools.

The decision logic is a Verus library whose functions carry contracts that
Verus proves; the binary around it only does I/O.

## Layout

- `src/` -- the verified library.
  - `decision.rs` -- decisions and how they combine (deny > ask > allow).
  - `rules.rs` -- the rules data model (`WildcardMap`, command nodes, flags,
    options, positional rules, content checks).
  - `evaluate.rs` -- evaluation of one command against its decision tree,
    value lookup with exact keys, regex patterns and the `*` wildcard.
  - `bash.rs` -- command and redirect extraction from the tree-sitter-bash
    syntax tree.
  - `path.rs` -- path normalization, glob-based read/write checks,
    conditional decisions, and the outcome of reading a file for a content
    check.
  - `input.rs` -- the hook event and the tools' inputs; `apply_patch`
    header parsing.
  - `hook.rs` -- the answer for each tool, reasons, and the response
    protocols.
  - `laws.rs` -- properties of the library as a whole, as proof functions.
  - `text.rs` -- string helpers specified over character sequences.
- `app/` -- the binary: command line, reading the rules file and the event,
  reading files for content checks, JSON output.
- `tests/` -- tests of the library, including end-to-end scenarios against
  a full rules set.
