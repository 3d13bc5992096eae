# notignored

Reports every lint and type-check suppression comment in a source tree —
`# noqa`, `# type: ignore`, `// eslint-disable-next-line`, `#[allow(…)]`,
`# shellcheck disable=…`, `llmlint: ignore[…]` and the rest — by parsing the
comments natively, without running the tools whose rules they silence.

## Layout

- `src/` — the library, written in Verus. Every function carries a contract
  over a mathematical model of its inputs and results, and Verus proves each
  body against it.
  - `text`, `comments`, `source` — characters, the comment and attribute
    grammar of each language, and a source file with what it holds.
  - `tools/` — one parser per tool, each specified by the records it yields
    for a file.
  - `model`, `scan` — the report envelope and its order, and scanning files
    into a report.
  - `diff`, `git` — reading git's answers for a `--diff` run, keeping the
    suppressions a change added and labelling each one.
  - `cli/` — the invocation, what a run selects and assembles, and the human
    and pull-request-comment renderings.
- `app/` — the process around the library: argument parsing, walking the
  tree, reading files, running git, JSON output and the terminal streams.
- `tests/` — behaviour on concrete inputs.

Public proof functions named `law_…` state properties that span several
functions, such as that coloring the human report changes nothing but its
escapes, or that classification only labels records.
