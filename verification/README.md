# skimdiff

Lightweight review of code changes: a single binary that serves a diff UI in
the browser, with a live working-tree view, word-level intra-line
highlights, per-file review marks and notes, hunk staging and discarding,
and symbol navigation through a tree-sitter index.

The logic is a Verus library whose behaviour is stated in `requires` /
`ensures` contracts and proved. Where the result comes from an outside
crate (tree-sitter's parse, the `.gitignore` matcher, the word diff of
`similar`, `mime_guess`), the contracts name that result and state
exactly what the library does with it:

- `src/diff.rs` — the patch model, the parser of `git diff --patch` output,
  and the patch of a single hunk; `src/spans.rs` — intra-line spans from a
  word diff; `src/diff_laws.rs`, `src/hunk_laws.rs` — line numbering of every
  parsed hunk, one file per `diff --git` line and what each section's lines
  make of its file (status, paths, binary flag, hunks and their lines),
  patches joined parse as their files joined, and that the patch of a hunk
  parses back to that hunk.
- `src/gitx.rs` — the git commands the tool runs and what it makes of their
  output.
- `src/index.rs`, `src/syntax.rs` — the symbol index (declarations and
  references by name) over tree-sitter syntax trees; `src/usages.rs` — the
  order in which usages are listed.
- `src/state.rs` — review marks and notes by path, and where they are kept.
- `src/server.rs` — what a stage/discard request does and which embedded
  asset answers a request; `src/paths.rs` — which file paths may be served.
- `src/watch.rs` — which file-system events refresh the view, and the
  debounce of bursts.
- `src/text.rs` — text primitives with the meaning of Rust's `str` methods.

`app/` is the program around it: command line, HTTP server, git processes,
file I/O, JSON, and the file watcher.
