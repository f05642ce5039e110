# ruling

A friendly `diff` for the command line, with its logic verified in Verus.

`ruling <file-a> <file-b> [OPTIONS]` compares two files line by line and
reports whether they are identical, different or binary, printing GNU-style
unified hunks (`@@ -a,b +c,d @@`), optionally with word-level changes or as
JSON.

## Layout

- `src/` — the verified library.
  - `text.rs`: character helpers (whitespace collapsing, trimming, word
    splitting, decimal formatting, UTF-8 byte lengths) with their
    specifications.
  - `lcs.rs`: longest-common-subsequence lengths and their table.
  - `script.rs`: the edit script of two files along a longest common
    subsequence, removals first in each run of changes.
  - `hunks.rs`: cutting the edit script into hunks with context, merging
    changes whose shown regions overlap or touch, and the laws of the cut.
  - `diff.rs`: the hunk entry points and their unified-diff contract,
    word-level diff, function-aware hunk headers, unified and JSON output.
  - `cli.rs`: argument parsing.
  - `compare.rs`: binary detection on a sample, line-ending stripping, the
    outcome and report of a comparison, and the exit status.
- `app/` — the program: argument handling, file I/O (reading samples and
  lines) and printing.
- `tests/` — tests of the library.

## Properties proved

- The hunks form a unified diff of the old file into the new one: each
  hunk's context and removed lines are the old lines its header names, its
  context and added lines are the new lines its header names, and applying
  the hunks to the old file gives the new file (by comparison key when case
  or whitespace is ignored).
- The removed and added lines are as few as a longest common subsequence
  allows, and in each run of changes the removals come first.
- Each hunk holds a change; without context no hunk holds a kept line;
  consecutive hunks leave at least one line between them in each file, so
  changes whose context regions overlap or touch share a hunk.
- The hunks are empty exactly when the files have the same lines under the
  chosen comparison.
- A word diff loses no word of either line and is minimal.
- Whitespace collapsing is idempotent and leaves only single spaces; JSON
  escaping leaves no control character.
