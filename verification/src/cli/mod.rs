//! The `notignored` command line: what a run decides, apart from the process
//! it runs in.

use vstd::prelude::*;

use crate::model::{Report, debug_quoted, debug_str};
use crate::text::{chars_of, is_ascii_alnum, ascii_alnum, is_hex_digit, hex_digit, split_once, split_once_vec};

pub mod args;
pub mod markdown;
pub mod plain;
pub mod render;
pub mod select;
pub mod snippet;

pub use args::Cli;
pub use markdown::{MarkdownOptions, DEFAULT_MAX_ENTRIES, MARKER};
pub use render::{narrate_errors, render_human, render_human_colored, ChangeCounts};

verus! {

/// The scan completed and nothing forced a failure.
pub const EXIT_OK: u8 = 0;
/// `--fail-if-found` was given and at least one suppression was reported.
pub const EXIT_FOUND: u8 = 1;
/// The scan could not complete.
pub const EXIT_ERROR: u8 = 2;

/// How to render the report.
#[derive(Debug, Clone, Copy, PartialEq, Eq, Structural)]
pub enum Format {
    /// One line per suppression, for a person reading a terminal.
    Human,
    /// The full report envelope as JSON, for machines.
    Json,
    /// A pull-request comment body, for the GitHub Action.
    Markdown,
}

/// When to apply ANSI color to the `human` report.
#[derive(Debug, Clone, Copy, PartialEq, Eq, Structural)]
pub enum ColorChoice {
    /// Color only when stdout is a terminal and color is not suppressed.
    Auto,
    /// Always emit color, even through a pipe.
    Always,
    /// Never emit color.
    Never,
}

impl ColorChoice {
    /// `Auto`, the default.
    pub fn default() -> (c: ColorChoice)
        ensures
            c == ColorChoice::Auto,
    {
        ColorChoice::Auto
    }

    /// Resolve to a concrete on/off decision: `Auto` colors an interactive
    /// terminal that has not asked for plain output; `Always` and `Never`
    /// override both signals.
    pub fn resolve(self, is_tty: bool, no_color: bool) -> (b: bool)
        ensures
            b == match self {
                ColorChoice::Always => true,
                ColorChoice::Never => false,
                ColorChoice::Auto => is_tty && !no_color,
            },
    {
        match self {
            ColorChoice::Always => true,
            ColorChoice::Never => false,
            ColorChoice::Auto => is_tty && !no_color,
        }
    }
}

/// Whether the environment asks for plain output: `NO_COLOR` set and not
/// empty, or `TERM=dumb`.
pub fn wants_plain(no_color: Option<&str>, term: Option<&str>) -> (b: bool)
    ensures
        b == ((no_color matches Some(v) && v@.len() > 0) || (term matches Some(t) && t@ == "dumb"@)),
{
    let set = match no_color {
        Some(v) => !v.is_empty(),
        None => false,
    };
    let dumb = match term {
        Some(t) => {
            let tv = chars_of(t);
            crate::text::eq_str(&tv, "dumb")
        },
        None => false,
    };
    set || dumb
}

/// One segment of an `owner/repo` slug: not empty, not `..`, and only ASCII
/// letters, digits, `-`, `_` and `.`.
pub open spec fn segment_ok(s: Seq<char>) -> bool {
    s.len() > 0 && s != seq!['.', '.'] && forall|i: int|
        0 <= i < s.len() ==> is_ascii_alnum(#[trigger] s[i]) || s[i] == '-' || s[i] == '_' || s[i] == '.'
}

/// An `owner/repo` slug and nothing else.
pub open spec fn repo_ok(v: Seq<char>) -> bool {
    match split_once(v, '/') {
        Some((owner, repo)) => segment_ok(owner) && segment_ok(repo),
        None => false,
    }
}

/// A commit id: 7 to 64 hex digits.
pub open spec fn sha_ok(v: Seq<char>) -> bool {
    7 <= v.len() <= 64 && forall|i: int| 0 <= i < v.len() ==> is_hex_digit(#[trigger] v[i])
}

fn segment_ok_exec(s: &Vec<char>) -> (b: bool)
    ensures
        b == segment_ok(s@),
{
    if s.len() == 0 {
        return false;
    }
    if s.len() == 2 && s[0] == '.' && s[1] == '.' {
        proof { assert(s@ =~= seq!['.', '.']); }
        return false;
    }
    proof {
        if s@ == seq!['.', '.'] {
            assert(s@[0] == '.' && s@[1] == '.');
        }
    }
    let mut i: usize = 0;
    while i < s.len()
        invariant
            i <= s@.len(),
            s@.len() > 0,
            s@ != seq!['.', '.'],
            forall|k: int| 0 <= k < i ==> is_ascii_alnum(#[trigger] s@[k]) || s@[k] == '-' || s@[k] == '_' || s@[k] == '.',
        decreases s@.len() - i,
    {
        let c = s[i];
        if !(ascii_alnum(c) || c == '-' || c == '_' || c == '.') {
            return false;
        }
        i = i + 1;
    }
    true
}

/// Accept an `owner/repo` slug and nothing else.
pub fn github_repo(value: &str) -> (r: Result<String, String>)
    ensures
        match r {
            Ok(s) => repo_ok(value@) && s@ == value@,
            Err(m) => !repo_ok(value@) && m@ == "expected owner/repo, got "@ + debug_quoted(value@),
        },
{
    let v = chars_of(value);
    let ok = match split_once_vec(&v, '/') {
        Some((owner, repo)) => segment_ok_exec(&owner) && segment_ok_exec(&repo),
        None => false,
    };
    if ok {
        Ok(value.to_owned())
    } else {
        let mut m = "expected owner/repo, got ".to_owned();
        m.append(debug_str(value).as_str());
        Err(m)
    }
}

fn all_hex(v: &Vec<char>) -> (b: bool)
    ensures
        b == forall|i: int| 0 <= i < v@.len() ==> is_hex_digit(#[trigger] v@[i]),
{
    let mut i: usize = 0;
    while i < v.len()
        invariant
            i <= v@.len(),
            forall|k: int| 0 <= k < i ==> is_hex_digit(#[trigger] v@[k]),
        decreases v@.len() - i,
    {
        if !hex_digit(v[i]) {
            return false;
        }
        i = i + 1;
    }
    true
}

/// Accept a hexadecimal commit id of 7 to 64 digits and nothing else.
pub fn github_sha(value: &str) -> (r: Result<String, String>)
    ensures
        match r {
            Ok(s) => sha_ok(value@) && s@ == value@,
            Err(m) => !sha_ok(value@) && m@ == "expected a commit sha of 7 to 64 hex digits, got "@ + debug_quoted(value@),
        },
{
    let v = chars_of(value);
    let ok = 7 <= v.len() && v.len() <= 64 && all_hex(&v);
    if ok {
        Ok(value.to_owned())
    } else {
        let mut m = "expected a commit sha of 7 to 64 hex digits, got ".to_owned();
        m.append(debug_str(value).as_str());
        Err(m)
    }
}

/// The exit code a finished report implies: an error outranks a finding.
pub open spec fn exit_code_spec(errors: nat, ignores: nat, fail_if_found: bool) -> u8 {
    if errors > 0 {
        EXIT_ERROR
    } else if fail_if_found && ignores > 0 {
        EXIT_FOUND
    } else {
        EXIT_OK
    }
}

/// The exit code a finished report implies.
pub fn exit_code(report: &Report, fail_if_found: bool) -> (c: u8)
    ensures
        c == exit_code_spec(report.errors@.len(), report.ignores@.len(), fail_if_found),
{
    if report.errors.len() > 0 {
        EXIT_ERROR
    } else if fail_if_found && report.ignores.len() > 0 {
        EXIT_FOUND
    } else {
        EXIT_OK
    }
}

} // verus!
