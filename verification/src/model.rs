//! The public record contract: what a suppression looks like once parsed.
//!
//! Field names, the [`Scope`] variants, and the [`Report`] envelope shape are a
//! versioned wire contract: changing one bumps [`REPORT_VERSION`].

use vstd::prelude::*;

use vstd::string::StringExecFns;

use crate::text::{chars_of, to_string, push_char, is_ws, is_whitespace};

verus! {

/// Version of the [`Report`] envelope.
pub const REPORT_VERSION: u32 = 1;

/// The refusal of an envelope newer than this build.
pub open spec fn newer_version_message(version: u32) -> Seq<char> {
    "report version "@ + crate::text::decimal(version as nat) + " is newer than this build understands ("@
        + crate::text::decimal(REPORT_VERSION as nat) + "); upgrade notignored"@
}

/// Accept a report envelope version read back from JSON: this build's, or
/// any older one.
pub fn accept_version(version: u32) -> (r: Result<u32, String>)
    ensures
        match r {
            Ok(v) => version <= REPORT_VERSION && v == version,
            Err(m) => version > REPORT_VERSION && m@ == newer_version_message(version),
        },
{
    if version > REPORT_VERSION {
        let mut m = "report version ".to_owned();
        crate::text::push_decimal(&mut m, version as u64);
        m.append(" is newer than this build understands (");
        crate::text::push_decimal(&mut m, REPORT_VERSION as u64);
        m.append("); upgrade notignored");
        Err(m)
    } else {
        Ok(version)
    }
}

/// A lint or type-check tool whose suppression comments are understood.
#[derive(Debug, Clone, Copy, PartialEq, Eq, PartialOrd, Ord, Hash, Structural)]
pub enum Tool {
    /// ESLint (`// eslint-disable-next-line`, …).
    Eslint,
    /// Biome (`// biome-ignore lint/…`).
    Biome,
    /// Ruff (`# noqa`, `# ruff: noqa`).
    Ruff,
    /// The TypeScript compiler (`// @ts-ignore`, `// @ts-expect-error`).
    Typescript,
    /// mypy (`# type: ignore`).
    Mypy,
    /// Pyright (`# pyright: ignore`).
    Pyright,
    /// ty (`# ty: ignore`).
    Ty,
    /// The Rust compiler and clippy (`#[allow(…)]`, `#[expect(…)]`).
    Rust,
    /// ShellCheck (`# shellcheck disable=SC2086`).
    Shellcheck,
    /// llmlint (its inline `ignore[rule] reason` directive).
    Llmlint,
}

/// The name a tool has in reports and on the `--tool` flag.
pub open spec fn tool_name(t: Tool) -> Seq<char> {
    match t {
        Tool::Eslint => "eslint"@,
        Tool::Biome => "biome"@,
        Tool::Ruff => "ruff"@,
        Tool::Typescript => "typescript"@,
        Tool::Mypy => "mypy"@,
        Tool::Pyright => "pyright"@,
        Tool::Ty => "ty"@,
        Tool::Rust => "rust"@,
        Tool::Shellcheck => "shellcheck"@,
        Tool::Llmlint => "llmlint"@,
    }
}

/// Every tool in the contract, in its stable order.
pub open spec fn all_tools() -> Seq<Tool> {
    seq![
        Tool::Eslint,
        Tool::Biome,
        Tool::Ruff,
        Tool::Typescript,
        Tool::Mypy,
        Tool::Pyright,
        Tool::Ty,
        Tool::Rust,
        Tool::Shellcheck,
        Tool::Llmlint,
    ]
}

impl Tool {
    /// Every tool in the contract, in a stable order.
    pub const ALL: [Tool; 10] = [
        Tool::Eslint,
        Tool::Biome,
        Tool::Ruff,
        Tool::Typescript,
        Tool::Mypy,
        Tool::Pyright,
        Tool::Ty,
        Tool::Rust,
        Tool::Shellcheck,
        Tool::Llmlint,
    ];

    /// Every tool, as a vector in [`Tool::ALL`] order.
    pub fn all() -> (r: Vec<Tool>)
        ensures
            r@ == all_tools(),
    {
        let r = vec![
            Tool::Eslint,
            Tool::Biome,
            Tool::Ruff,
            Tool::Typescript,
            Tool::Mypy,
            Tool::Pyright,
            Tool::Ty,
            Tool::Rust,
            Tool::Shellcheck,
            Tool::Llmlint,
        ];
        proof { assert(r@ =~= all_tools()); }
        r
    }

    /// The tool's name as it appears in reports and on the `--tool` flag.
    pub fn as_str(self) -> (s: &'static str)
        ensures
            s@ == tool_name(self),
    {
        match self {
            Tool::Eslint => "eslint",
            Tool::Biome => "biome",
            Tool::Ruff => "ruff",
            Tool::Typescript => "typescript",
            Tool::Mypy => "mypy",
            Tool::Pyright => "pyright",
            Tool::Ty => "ty",
            Tool::Rust => "rust",
            Tool::Shellcheck => "shellcheck",
            Tool::Llmlint => "llmlint",
        }
    }

    /// The name as a character vector.
    pub fn name_chars(self) -> (v: Vec<char>)
        ensures
            v@ == tool_name(self),
    {
        chars_of(self.as_str())
    }

    /// The name as an owned string (what `Display` prints).
    pub fn to_string(self) -> (s: String)
        ensures
            s@ == tool_name(self),
    {
        self.as_str().to_owned()
    }

    /// The tool whose name is `s`, or the error naming it.
    pub fn parse(s: &str) -> (r: Result<Tool, ParseToolError>)
        ensures
            r matches Ok(t) ==> tool_name(t) == s@,
            r is Err <==> (forall|t: Tool| tool_name(t) != s@),
            r matches Err(e) ==> e.name@ == s@,
    {
        let all = Tool::all();
        let target = s.to_owned();
        let mut i: usize = 0;
        while i < all.len()
            invariant
                all@ == all_tools(),
                target@ == s@,
                i <= all@.len(),
                forall|j: int| 0 <= j < i ==> tool_name(all_tools()[j]) != s@,
            decreases all@.len() - i,
        {
            let name = all[i].as_str().to_owned();
            if name == target {
                return Ok(all[i]);
            }
            i = i + 1;
        }
        proof {
            assert forall|t: Tool| tool_name(t) != s@ by {
                match t {
                    Tool::Eslint => assert(all_tools()[0] == t),
                    Tool::Biome => assert(all_tools()[1] == t),
                    Tool::Ruff => assert(all_tools()[2] == t),
                    Tool::Typescript => assert(all_tools()[3] == t),
                    Tool::Mypy => assert(all_tools()[4] == t),
                    Tool::Pyright => assert(all_tools()[5] == t),
                    Tool::Ty => assert(all_tools()[6] == t),
                    Tool::Rust => assert(all_tools()[7] == t),
                    Tool::Shellcheck => assert(all_tools()[8] == t),
                    Tool::Llmlint => assert(all_tools()[9] == t),
                }
            }
        }
        Err(ParseToolError { name: target })
    }
}

/// Distinct tools have distinct names, so a name picks out at most one tool.
pub proof fn lemma_tool_names_distinct(a: Tool, b: Tool)
    ensures
        tool_name(a) == tool_name(b) ==> a == b,
{
    reveal_strlit("eslint");
    reveal_strlit("biome");
    reveal_strlit("ruff");
    reveal_strlit("typescript");
    reveal_strlit("mypy");
    reveal_strlit("pyright");
    reveal_strlit("ty");
    reveal_strlit("rust");
    reveal_strlit("shellcheck");
    reveal_strlit("llmlint");
    if tool_name(a) == tool_name(b) && a != b {
        let (x, y) = (tool_name(a), tool_name(b));
        assert(x.len() == y.len());
        assert(x[0] == y[0]);
        assert(x[1] == y[1]);
        match a {
            Tool::Ruff => { assert(x[2] == y[2]); },
            Tool::Rust => { assert(x[2] == y[2]); },
            _ => {},
        }
    }
}

/// Parsing a tool's own name gives that tool back.
pub proof fn law_tool_name_round_trip(t: Tool, r: Result<Tool, ParseToolError>)
    requires
        r matches Ok(u) ==> tool_name(u) == tool_name(t),
        r is Err <==> (forall|u: Tool| tool_name(u) != tool_name(t)),
    ensures
        r == Ok::<Tool, ParseToolError>(t),
{
    match r {
        Ok(u) => {
            lemma_tool_names_distinct(u, t);
        },
        Err(_) => {
            assert(tool_name(t) == tool_name(t));
        },
    }
}

/// The error returned when a `--tool` value names no known tool.
#[derive(Debug, Clone, PartialEq, Eq)]
pub struct ParseToolError {
    /// The unrecognized name, as the user wrote it.
    pub name: String,
}

/// What `{:?}` prints for a string: the quoted, escaped form.
pub uninterp spec fn debug_quoted(s: Seq<char>) -> Seq<char>;

/// `<str as Debug>::fmt`, the quoted and escaped rendering of a string.
#[verifier::external_body]
pub(crate) fn debug_str(s: &str) -> (r: String)
    ensures
        r@ == debug_quoted(s@),
{
    format!("{s:?}")
}

/// `"a, b, c"` over the names of `tools`.
pub open spec fn joined_names(tools: Seq<Tool>) -> Seq<char>
    decreases tools.len(),
{
    if tools.len() == 0 {
        Seq::empty()
    } else if tools.len() == 1 {
        tool_name(tools[0])
    } else {
        joined_names(tools.drop_last()) + ", "@ + tool_name(tools.last())
    }
}

/// The message a [`ParseToolError`] displays.
pub open spec fn parse_tool_message(name: Seq<char>) -> Seq<char> {
    "unknown tool "@ + debug_quoted(name) + " (known tools: "@ + joined_names(all_tools()) + ")"@
}

impl ParseToolError {
    /// `unknown tool "<name>" (known tools: eslint, biome, …)`.
    pub fn message(&self) -> (m: String)
        ensures
            m@ == parse_tool_message(self.name@),
    {
        let mut m = "unknown tool ".to_owned();
        let quoted = debug_str(self.name.as_str());
        m.append(quoted.as_str());
        m.append(" (known tools: ");
        let known = known_tools();
        m.append(known.as_str());
        m.append(")");
        m
    }
}

impl std::str::FromStr for Tool {
    type Err = ParseToolError;

    /// [`Tool::parse`]: the tool of that name, or an error naming the text.
    fn from_str(s: &str) -> (r: Result<Tool, ParseToolError>)
        ensures
            r matches Ok(t) ==> tool_name(t) == s@,
            r is Err <==> (forall|t: Tool| tool_name(t) != s@),
            r matches Err(e) ==> e.name@ == s@,
    {
        Tool::parse(s)
    }
}

/// The names of every tool, comma-separated, in [`Tool::ALL`] order.
pub fn known_tools() -> (s: String)
    ensures
        s@ == joined_names(all_tools()),
{
    let all = Tool::all();
    let mut s = String::new();
    let mut i: usize = 0;
    while i < all.len()
        invariant
            all@ == all_tools(),
            i <= all@.len(),
            s@ == joined_names(all_tools().take(i as int)),
        decreases all@.len() - i,
    {
        proof {
            assert(all_tools().take(i + 1).drop_last() =~= all_tools().take(i as int));
        }
        if i > 0 {
            s.append(", ");
        }
        s.append(all[i].as_str());
        i = i + 1;
    }
    proof { assert(all_tools().take(10) =~= all_tools()); }
    s
}

/// How far a directive's suppression reaches.
#[derive(Debug, Clone, Copy, PartialEq, Eq, Structural)]
pub enum Scope {
    /// Silences rules on the line the directive sits on.
    Line,
    /// Silences rules on the line *after* the directive.
    NextLine,
    /// Silences rules for the whole file.
    File,
    /// Silences rules over an explicitly delimited region.
    Block,
}

pub open spec fn scope_name(s: Scope) -> Seq<char> {
    match s {
        Scope::Line => "line"@,
        Scope::NextLine => "next-line"@,
        Scope::File => "file"@,
        Scope::Block => "block"@,
    }
}

impl Scope {
    /// The scope's name as it appears in reports.
    pub fn as_str(self) -> (s: &'static str)
        ensures
            s@ == scope_name(self),
    {
        match self {
            Scope::Line => "line",
            Scope::NextLine => "next-line",
            Scope::File => "file",
            Scope::Block => "block",
        }
    }

    /// The name as an owned string (what `Display` prints).
    pub fn to_string(self) -> (s: String)
        ensures
            s@ == scope_name(self),
    {
        self.as_str().to_owned()
    }
}

/// The best-effort range of source lines a directive silences.
#[derive(Debug, Clone, Copy, PartialEq, Eq, Structural)]
pub struct Suppressed {
    /// First 1-based line the directive silences.
    pub start_line: u32,
    /// Last 1-based line, or `None` when the range runs to end-of-file or is
    /// unterminated.
    pub end_line: Option<u32>,
}

/// What a change did to a directive a `--diff` run reported.
#[derive(Debug, Clone, Copy, PartialEq, Eq, Structural)]
pub enum Change {
    /// The change wrote the directive.
    Added,
    /// The directive was already there; the change rewrote its stated reason
    /// and nothing else.
    JustificationEdited,
}

/// One parsed suppression comment.
#[derive(Debug, Clone, PartialEq, Eq)]
pub struct IgnoreDirective {
    /// The tool whose rules are being silenced.
    pub tool: Tool,
    /// How far the suppression reaches.
    pub scope: Scope,
    /// Rule names/codes exactly as written. Empty means a blanket suppression.
    pub rules: Vec<String>,
    /// The stated justification, whitespace collapsed, or `None`.
    pub reason: Option<String>,
    /// Path to the file, `/`-separated.
    pub path: String,
    /// 1-based line the directive starts on.
    pub line: u32,
    /// 1-based line the directive ends on.
    pub end_line: u32,
    /// 1-based column the directive starts at.
    pub column: u32,
    /// The directive exactly as it appears in the source.
    pub raw: String,
    /// The range of lines this directive silences.
    pub suppressed: Suppressed,
    /// What a `--diff` run says the change did to it; `None` outside one.
    pub change: Option<Change>,
}

/// The contents of an [`IgnoreDirective`] as mathematical values.
pub struct DirectiveView {
    pub tool: Tool,
    pub scope: Scope,
    pub rules: Seq<Seq<char>>,
    pub reason: Option<Seq<char>>,
    pub path: Seq<char>,
    pub line: u32,
    pub end_line: u32,
    pub column: u32,
    pub raw: Seq<char>,
    pub suppressed: Suppressed,
    pub change: Option<Change>,
}

pub open spec fn strings_view(v: Seq<String>) -> Seq<Seq<char>> {
    v.map_values(|s: String| s@)
}

pub open spec fn opt_string_view(o: Option<String>) -> Option<Seq<char>> {
    match o {
        Some(s) => Some(s@),
        None => None,
    }
}

impl View for IgnoreDirective {
    type V = DirectiveView;

    open spec fn view(&self) -> DirectiveView {
        DirectiveView {
            tool: self.tool,
            scope: self.scope,
            rules: strings_view(self.rules@),
            reason: opt_string_view(self.reason),
            path: self.path@,
            line: self.line,
            end_line: self.end_line,
            column: self.column,
            raw: self.raw@,
            suppressed: self.suppressed,
            change: self.change,
        }
    }
}

pub open spec fn directives_view(v: Seq<IgnoreDirective>) -> Seq<DirectiveView> {
    v.map_values(|d: IgnoreDirective| d@)
}

/// Copy a list of strings.
pub fn clone_strings(v: &Vec<String>) -> (r: Vec<String>)
    ensures
        strings_view(r@) == strings_view(v@),
{
    let mut r: Vec<String> = Vec::new();
    let mut i: usize = 0;
    while i < v.len()
        invariant
            i <= v@.len(),
            r@.len() == i,
            forall|j: int| 0 <= j < i ==> (#[trigger] r@[j])@ == v@[j]@,
        decreases v@.len() - i,
    {
        r.push(v[i].clone());
        i = i + 1;
    }
    proof { assert(strings_view(r@) =~= strings_view(v@)); }
    r
}

pub fn clone_opt_string(o: &Option<String>) -> (r: Option<String>)
    ensures
        opt_string_view(r) == opt_string_view(*o),
{
    match o {
        Some(s) => Some(s.clone()),
        None => None,
    }
}

impl IgnoreDirective {
    /// A copy of this directive.
    pub fn copy(&self) -> (r: IgnoreDirective)
        ensures
            r@ == self@,
    {
        IgnoreDirective {
            tool: self.tool,
            scope: self.scope,
            rules: clone_strings(&self.rules),
            reason: clone_opt_string(&self.reason),
            path: self.path.clone(),
            line: self.line,
            end_line: self.end_line,
            column: self.column,
            raw: self.raw.clone(),
            suppressed: self.suppressed,
            change: self.change,
        }
    }
}

/// A file that could not be read, or a directive that could not be resolved.
#[derive(Debug, Clone, PartialEq, Eq)]
pub struct ReportError {
    /// Path the problem was found at, `/`-separated.
    pub path: String,
    /// What went wrong, in one line.
    pub message: String,
}

pub struct ErrorView {
    pub path: Seq<char>,
    pub message: Seq<char>,
}

impl View for ReportError {
    type V = ErrorView;

    open spec fn view(&self) -> ErrorView {
        ErrorView { path: self.path@, message: self.message@ }
    }
}

pub open spec fn errors_view(v: Seq<ReportError>) -> Seq<ErrorView> {
    v.map_values(|e: ReportError| e@)
}

/// The report envelope: everything one scan produced.
#[derive(Debug, Clone, PartialEq, Eq)]
pub struct Report {
    /// Envelope version; see [`REPORT_VERSION`].
    pub version: u32,
    /// Every directive found, ordered by path, then line, then column.
    pub ignores: Vec<IgnoreDirective>,
    /// Files that could not be read and directives that could not be resolved.
    pub errors: Vec<ReportError>,
}

impl Report {
    /// An empty report stamped with the current [`REPORT_VERSION`].
    pub fn new() -> (r: Report)
        ensures
            r.version == REPORT_VERSION,
            r.ignores@.len() == 0,
            r.errors@.len() == 0,
    {
        Report { version: REPORT_VERSION, ignores: Vec::new(), errors: Vec::new() }
    }

    /// An empty report, the same as [`Report::new`].
    pub fn default() -> (r: Report)
        ensures
            r.version == REPORT_VERSION,
            r.ignores@.len() == 0,
            r.errors@.len() == 0,
    {
        Report::new()
    }
}

// ---------------------------------------------------------------------------
// Reason normalization.

/// Whitespace collapsing: every run of whitespace between two words becomes one
/// space, and whitespace before the first word or after the last is dropped.
/// `started` says a word has been emitted; `gap` that whitespace followed it.
pub open spec fn squash(s: Seq<char>, started: bool, gap: bool) -> Seq<char>
    decreases s.len(),
{
    if s.len() == 0 {
        Seq::empty()
    } else if is_ws(s[0]) {
        squash(s.drop_first(), started, started)
    } else {
        (if gap { seq![' '] } else { Seq::empty() }) + seq![s[0]] + squash(s.drop_first(), true, false)
    }
}

/// The single-line form of a stated reason, or `None` when it is blank.
pub open spec fn normalized(s: Seq<char>) -> Option<Seq<char>> {
    let j = squash(s, false, false);
    if j.len() == 0 {
        None
    } else {
        Some(j)
    }
}

/// Collapse runs of whitespace to single spaces and trim; `None` when nothing
/// but whitespace is left.
pub fn normalize_reason(text: &str) -> (r: Option<String>)
    ensures
        opt_string_view(r) == normalized(text@),
{
    let v = chars_of(text);
    normalize_chars(&v)
}

/// [`normalize_reason`] over a character vector.
pub fn normalize_chars(v: &Vec<char>) -> (r: Option<String>)
    ensures
        opt_string_view(r) == normalized(v@),
{
    let mut out = String::new();
    let mut started = false;
    let mut gap = false;
    let mut i: usize = 0;
    proof { assert(v@.skip(0) =~= v@); }
    while i < v.len()
        invariant
            i <= v@.len(),
            squash(v@, false, false) == out@ + squash(v@.skip(i as int), started, gap),
            out@.len() == 0 <==> !started,
        decreases v@.len() - i,
    {
        let c = v[i];
        proof {
            assert(v@.skip(i as int)[0] == c);
            assert(v@.skip(i as int).drop_first() =~= v@.skip(i + 1));
        }
        let ghost out0 = out@;
        if is_whitespace(c) {
            gap = started;
        } else {
            if gap {
                push_char(&mut out, ' ');
            }
            push_char(&mut out, c);
            proof {
                let pre: Seq<char> = if gap { seq![' '] } else { Seq::empty() };
                assert(out@ =~= out0 + pre + seq![c]);
                assert(out0 + squash(v@.skip(i as int), started, gap)
                    =~= out@ + squash(v@.skip(i + 1), true, false));
            }
            started = true;
            gap = false;
        }
        i = i + 1;
    }
    proof { assert(v@.skip(v@.len() as int) =~= Seq::<char>::empty()); }
    if !started { None } else { Some(out) }
}

/// A collapsed text: its only whitespace is the plain space, no two spaces
/// stand side by side, and it does not end in whitespace.
pub open spec fn collapsed(t: Seq<char>) -> bool {
    &&& forall|i: int| 0 <= i < t.len() ==> t[i] == ' ' || !is_ws(#[trigger] t[i])
    &&& forall|i: int| 0 <= i < t.len() - 1 ==> !(#[trigger] t[i] == ' ' && t[i + 1] == ' ')
    &&& t.len() > 0 ==> !is_ws(t.last())
}

proof fn lemma_squash_collapsed(s: Seq<char>, started: bool, gap: bool)
    requires
        gap ==> started,
    ensures
        collapsed(squash(s, started, gap)),
        !started && squash(s, started, gap).len() > 0 ==> !is_ws(squash(s, started, gap)[0]),
        squash(s, started, gap).len() == 0 <==> forall|i: int| 0 <= i < s.len() ==> is_ws(#[trigger] s[i]),
    decreases s.len(),
{
    if s.len() == 0 {
    } else if is_ws(s[0]) {
        let rest = s.drop_first();
        lemma_squash_collapsed(rest, started, started);
        if squash(rest, started, started).len() == 0 {
            assert forall|i: int| 0 <= i < s.len() implies is_ws(#[trigger] s[i]) by {
                if i > 0 {
                    assert(s[i] == rest[i - 1]);
                }
            }
        } else {
            let k = choose|k: int| 0 <= k < rest.len() && !is_ws(#[trigger] rest[k]);
            assert(!is_ws(s[k + 1]));
        }
    } else {
        let rest = s.drop_first();
        lemma_squash_collapsed(rest, true, false);
        let r = squash(rest, true, false);
        let pre: Seq<char> = if gap { seq![' '] } else { Seq::empty() };
        let t = pre + seq![s[0]] + r;
        assert(squash(s, started, gap) == t);
        let n = pre.len() as int;
        assert forall|i: int| 0 <= i < t.len() implies t[i] == ' ' || !is_ws(#[trigger] t[i]) by {
            if i > n {
                assert(t[i] == r[i - n - 1]);
            }
        }
        assert forall|i: int| 0 <= i < t.len() - 1 implies !(#[trigger] t[i] == ' ' && t[i + 1] == ' ') by {
            if i > n {
                assert(t[i] == r[i - n - 1]);
                assert(t[i + 1] == r[i - n]);
            } else if i == n {
                assert(t[i] == s[0]);
            } else {
                assert(t[i + 1] == s[0]);
            }
        }
        if r.len() > 0 {
            assert(t.last() == r.last());
        } else {
            assert(t.last() == s[0]);
        }
        assert(!is_ws(s[0]));
    }
}

proof fn lemma_collapsed_rest(t: Seq<char>)
    requires
        collapsed(t),
        t.len() > 0,
    ensures
        collapsed(t.drop_first()),
{
    let rest = t.drop_first();
    assert forall|i: int| 0 <= i < rest.len() implies rest[i] == ' ' || !is_ws(#[trigger] rest[i]) by {
        assert(rest[i] == t[i + 1]);
    }
    assert forall|i: int| 0 <= i < rest.len() - 1 implies !(#[trigger] rest[i] == ' ' && rest[i + 1] == ' ') by {
        assert(rest[i] == t[i + 1]);
        assert(rest[i + 1] == t[i + 2]);
    }
    if rest.len() > 0 {
        assert(rest.last() == t.last());
    }
}

proof fn lemma_squash_keeps_collapsed(t: Seq<char>)
    requires
        collapsed(t),
    ensures
        squash(t, true, false) == t,
    decreases t.len(),
{
    if t.len() > 0 {
        let rest = t.drop_first();
        lemma_collapsed_rest(t);
        if is_ws(t[0]) {
            assert(t[0] == ' ');
            assert(rest.len() > 0);
            assert(rest[0] == t[1]);
            assert(!is_ws(rest[0]));
            lemma_collapsed_rest(rest);
            lemma_squash_keeps_collapsed(rest.drop_first());
            assert(squash(rest, true, true) == seq![' '] + seq![rest[0]] + squash(rest.drop_first(), true, false));
            assert(t =~= seq![' '] + seq![rest[0]] + rest.drop_first());
        } else {
            lemma_squash_keeps_collapsed(rest);
            assert(t =~= seq![t[0]] + rest);
            assert(squash(t, true, false) == Seq::<char>::empty() + seq![t[0]] + squash(rest, true, false));
            assert(Seq::<char>::empty() + seq![t[0]] =~= seq![t[0]]);
        }
    }
}

/// A stated reason is blank exactly when every one of its characters is
/// whitespace; otherwise its single-line form is collapsed, starts with no
/// whitespace, and is its own single-line form, so normalizing twice changes
/// nothing.
pub proof fn law_normalized_is_settled(s: Seq<char>)
    ensures
        normalized(s) is None <==> forall|i: int| 0 <= i < s.len() ==> is_ws(#[trigger] s[i]),
        normalized(s) matches Some(j) ==> {
            &&& collapsed(j)
            &&& !is_ws(j[0])
            &&& normalized(j) == Some(j)
        },
{
    lemma_squash_collapsed(s, false, false);
    let j = squash(s, false, false);
    if j.len() > 0 {
        let rest = j.drop_first();
        lemma_collapsed_rest(j);
        lemma_squash_keeps_collapsed(rest);
        assert(j =~= seq![j[0]] + rest);
        assert(squash(j, false, false) == Seq::<char>::empty() + seq![j[0]] + squash(rest, true, false));
        assert(Seq::<char>::empty() + seq![j[0]] =~= seq![j[0]]);
        assert(squash(j, false, false) == j);
    }
}

// ---------------------------------------------------------------------------
// Report order.

/// `a[i..]` comes strictly before `b[i..]` in character order.
pub open spec fn lt_from(a: Seq<char>, b: Seq<char>, i: int) -> bool
    decreases a.len() - i,
{
    if i < 0 {
        false
    } else if i >= a.len() {
        i < b.len()
    } else if i >= b.len() {
        false
    } else if a[i] != b[i] {
        a[i] < b[i]
    } else {
        lt_from(a, b, i + 1)
    }
}

/// `a` comes strictly before `b` in lexicographic character order, which is
/// the order of `String` comparison.
pub open spec fn seq_lt(a: Seq<char>, b: Seq<char>) -> bool {
    lt_from(a, b, 0)
}

pub proof fn lemma_lt_from_trans(a: Seq<char>, b: Seq<char>, c: Seq<char>, i: int)
    requires
        0 <= i,
        lt_from(a, b, i),
        lt_from(b, c, i),
    ensures
        lt_from(a, c, i),
    decreases a.len() - i,
{
    if i < a.len() && i < b.len() && i < c.len() && a[i] == b[i] && b[i] == c[i] {
        lemma_lt_from_trans(a, b, c, i + 1);
    }
}

pub proof fn lemma_lt_from_irrefl(a: Seq<char>, i: int)
    requires
        0 <= i,
    ensures
        !lt_from(a, a, i),
    decreases a.len() - i,
{
    if i < a.len() {
        lemma_lt_from_irrefl(a, i + 1);
    }
}

/// Directive `x` sorts strictly before `y`: by path, then line, then column,
/// then tool name.
pub open spec fn key_lt(x: DirectiveView, y: DirectiveView) -> bool {
    ||| seq_lt(x.path, y.path)
    ||| x.path == y.path && x.line < y.line
    ||| x.path == y.path && x.line == y.line && x.column < y.column
    ||| x.path == y.path && x.line == y.line && x.column == y.column && seq_lt(tool_name(x.tool), tool_name(y.tool))
}

/// Error `x` sorts strictly before `y`: by path, then message.
pub open spec fn err_lt(x: ErrorView, y: ErrorView) -> bool {
    seq_lt(x.path, y.path) || (x.path == y.path && seq_lt(x.message, y.message))
}

/// Directives in report order.
pub open spec fn directives_sorted(s: Seq<DirectiveView>) -> bool {
    forall|i: int, j: int| 0 <= i < j < s.len() ==> !key_lt(#[trigger] s[j], #[trigger] s[i])
}

/// Errors in report order.
pub open spec fn errors_sorted(s: Seq<ErrorView>) -> bool {
    forall|i: int, j: int| 0 <= i < j < s.len() ==> !err_lt(#[trigger] s[j], #[trigger] s[i])
}

pub proof fn lemma_key_lt_trans(x: DirectiveView, y: DirectiveView, z: DirectiveView)
    requires
        key_lt(x, y),
        key_lt(y, z),
    ensures
        key_lt(x, z),
{
    if seq_lt(x.path, y.path) && seq_lt(y.path, z.path) {
        lemma_lt_from_trans(x.path, y.path, z.path, 0);
    }
    if x.path == y.path && y.path == z.path && x.line == y.line && y.line == z.line && x.column == y.column
        && y.column == z.column {
        if seq_lt(tool_name(x.tool), tool_name(y.tool)) && seq_lt(tool_name(y.tool), tool_name(z.tool)) {
            lemma_lt_from_trans(tool_name(x.tool), tool_name(y.tool), tool_name(z.tool), 0);
        }
    }
}

pub proof fn lemma_key_lt_irrefl(x: DirectiveView)
    ensures
        !key_lt(x, x),
{
    lemma_lt_from_irrefl(x.path, 0);
    lemma_lt_from_irrefl(tool_name(x.tool), 0);
}

pub proof fn lemma_err_lt_irrefl(x: ErrorView)
    ensures
        !err_lt(x, x),
{
    lemma_lt_from_irrefl(x.path, 0);
    lemma_lt_from_irrefl(x.message, 0);
}

pub proof fn lemma_err_lt_trans(x: ErrorView, y: ErrorView, z: ErrorView)
    requires
        err_lt(x, y),
        err_lt(y, z),
    ensures
        err_lt(x, z),
{
    if seq_lt(x.path, y.path) && seq_lt(y.path, z.path) {
        lemma_lt_from_trans(x.path, y.path, z.path, 0);
    }
    if x.path == y.path && y.path == z.path && seq_lt(x.message, y.message) && seq_lt(y.message, z.message) {
        lemma_lt_from_trans(x.message, y.message, z.message, 0);
    }
}

/// The first index at or after `i` whose record sorts strictly after `d`, or
/// the end.
pub open spec fn first_after(s: Seq<DirectiveView>, d: DirectiveView, i: int) -> int
    decreases s.len() - i,
{
    if i < 0 || i >= s.len() {
        s.len() as int
    } else if key_lt(d, s[i]) {
        i
    } else {
        first_after(s, d, i + 1)
    }
}

/// `s` in report order, stably: each record lands after every earlier one
/// that does not sort after it, which is what a stable sort by key gives.
pub open spec fn sorted_view(s: Seq<DirectiveView>) -> Seq<DirectiveView>
    decreases s.len(),
{
    if s.len() == 0 {
        s
    } else {
        let prev = sorted_view(s.drop_last());
        prev.insert(first_after(prev, s.last(), 0), s.last())
    }
}

/// The first index at or after `i` whose error sorts strictly after `e`, or
/// the end.
pub open spec fn first_err_after(s: Seq<ErrorView>, e: ErrorView, i: int) -> int
    decreases s.len() - i,
{
    if i < 0 || i >= s.len() {
        s.len() as int
    } else if err_lt(e, s[i]) {
        i
    } else {
        first_err_after(s, e, i + 1)
    }
}

/// `s` in report order, stably.
pub open spec fn sorted_errors(s: Seq<ErrorView>) -> Seq<ErrorView>
    decreases s.len(),
{
    if s.len() == 0 {
        s
    } else {
        let prev = sorted_errors(s.drop_last());
        prev.insert(first_err_after(prev, s.last(), 0), s.last())
    }
}

/// Inserting an element adds it to the multiset of a sequence.
pub proof fn lemma_insert_multiset<A>(s: Seq<A>, pos: int, x: A)
    requires
        0 <= pos <= s.len(),
    ensures
        s.insert(pos, x).to_multiset() =~= s.to_multiset().insert(x),
{
    broadcast use vstd::seq_lib::group_to_multiset_ensures;

    let t = s.insert(pos, x);
    s.insert_ensures(pos, x);
    assert(t.remove(pos) =~= s);
    assert(t[pos] == x);
    assert(t.contains(x));
    assert(t.to_multiset().count(x) > 0);
    assert(t.to_multiset() =~= t.to_multiset().remove(x).insert(x));
}

/// Whether `a` sorts strictly before `b` by character.
pub fn str_lt(a: &str, b: &str) -> (r: bool)
    ensures
        r == seq_lt(a@, b@),
{
    let x = chars_of(a);
    let y = chars_of(b);
    chars_lt(&x, &y)
}

/// Whether `x` sorts strictly before `y` by character.
pub fn chars_lt(x: &Vec<char>, y: &Vec<char>) -> (r: bool)
    ensures
        r == seq_lt(x@, y@),
{
    let mut i: usize = 0;
    while i < x.len() && i < y.len()
        invariant
            i <= x@.len(),
            i <= y@.len(),
            lt_from(x@, y@, 0) == lt_from(x@, y@, i as int),
        decreases x@.len() - i,
    {
        if x[i] != y[i] {
            return x[i] < y[i];
        }
        i = i + 1;
    }
    i < y.len() && i >= x.len()
}

/// Whether directive `a` sorts strictly before `b` in report order.
pub fn directive_lt(a: &IgnoreDirective, b: &IgnoreDirective) -> (r: bool)
    ensures
        r == key_lt(a@, b@),
{
    if str_lt(a.path.as_str(), b.path.as_str()) {
        return true;
    }
    if a.path != b.path {
        return false;
    }
    if a.line != b.line {
        return a.line < b.line;
    }
    if a.column != b.column {
        return a.column < b.column;
    }
    let ta = a.tool.name_chars();
    let tb = b.tool.name_chars();
    chars_lt(&ta, &tb)
}

/// Whether error `a` sorts strictly before `b` in report order.
pub fn error_lt(a: &ReportError, b: &ReportError) -> (r: bool)
    ensures
        r == err_lt(a@, b@),
{
    if str_lt(a.path.as_str(), b.path.as_str()) {
        return true;
    }
    a.path == b.path && str_lt(a.message.as_str(), b.message.as_str())
}

impl ReportError {
    /// A copy of this error.
    pub fn copy(&self) -> (r: ReportError)
        ensures
            r@ == self@,
    {
        ReportError { path: self.path.clone(), message: self.message.clone() }
    }
}

/// `v` in report order: sorted by key, stably, holding the same records.
pub fn sort_directives(v: &Vec<IgnoreDirective>) -> (r: Vec<IgnoreDirective>)
    ensures
        directives_view(r@) == sorted_view(directives_view(v@)),
        directives_sorted(directives_view(r@)),
        directives_view(r@).to_multiset() == directives_view(v@).to_multiset(),
{
    broadcast use vstd::seq_lib::group_to_multiset_ensures;

    let ghost vv = directives_view(v@);
    let mut out: Vec<IgnoreDirective> = Vec::new();
    proof { assert(vv.take(0) =~= Seq::<DirectiveView>::empty()); }
    let mut i: usize = 0;
    while i < v.len()
        invariant
            vv == directives_view(v@),
            i <= v@.len(),
            directives_view(out@) == sorted_view(vv.take(i as int)),
            directives_sorted(directives_view(out@)),
            directives_view(out@).to_multiset() == vv.take(i as int).to_multiset(),
        decreases v@.len() - i,
    {
        let d = v[i].copy();
        let ghost ov = directives_view(out@);
        let mut pos: usize = 0;
        while pos < out.len() && !directive_lt(&d, &out[pos])
            invariant
                ov == directives_view(out@),
                pos <= out@.len(),
                first_after(ov, d@, 0) == first_after(ov, d@, pos as int),
                forall|k: int| 0 <= k < pos ==> !key_lt(d@, #[trigger] ov[k]),
            decreases out@.len() - pos,
        {
            proof { assert(ov[pos as int] == out@[pos as int]@); }
            pos = pos + 1;
        }
        proof {
            if pos < out@.len() {
                assert(ov[pos as int] == out@[pos as int]@);
                assert(key_lt(d@, ov[pos as int]));
            }
        }
        out.insert(pos, d);
        proof {
            let nv = directives_view(out@);
            assert(nv =~= ov.insert(pos as int, d@));
            ov.insert_ensures(pos as int, d@);
            assert forall|a: int, b: int| 0 <= a < b < nv.len() implies !key_lt(#[trigger] nv[b], #[trigger] nv[a]) by {
                if b < pos {
                } else if b == pos {
                } else if a < pos {
                    if a < pos && key_lt(nv[b], nv[a]) {
                        // nv[a] == ov[a], nv[b] == ov[b - 1], a < b - 1: contradicts order of ov.
                        assert(nv[a] == ov[a]);
                        assert(nv[b] == ov[b - 1]);
                    }
                } else if a == pos {
                    if key_lt(nv[b], nv[a]) {
                        assert(nv[b] == ov[b - 1]);
                        assert(key_lt(d@, ov[pos as int]));
                        lemma_key_lt_trans(ov[b - 1], d@, ov[pos as int]);
                        lemma_key_lt_irrefl(ov[pos as int]);
                    }
                } else {
                    assert(nv[a] == ov[a - 1]);
                    assert(nv[b] == ov[b - 1]);
                }
            }
            lemma_insert_multiset(ov, pos as int, d@);
            assert(vv[i as int] == d@);
            assert(vv.take(i + 1) =~= vv.take(i as int).push(d@));
            assert(vv.take(i + 1).drop_last() =~= vv.take(i as int));
            vstd::seq_lib::to_multiset_build(vv.take(i as int), d@);
        }
        i = i + 1;
    }
    proof { assert(vv.take(vv.len() as int) =~= vv); }
    out
}

/// `v` in report order: sorted by key, stably, holding the same errors.
pub fn sort_errors(v: &Vec<ReportError>) -> (r: Vec<ReportError>)
    ensures
        errors_view(r@) == sorted_errors(errors_view(v@)),
        errors_sorted(errors_view(r@)),
        errors_view(r@).to_multiset() == errors_view(v@).to_multiset(),
{
    broadcast use vstd::seq_lib::group_to_multiset_ensures;

    let ghost vv = errors_view(v@);
    let mut out: Vec<ReportError> = Vec::new();
    proof { assert(vv.take(0) =~= Seq::<ErrorView>::empty()); }
    let mut i: usize = 0;
    while i < v.len()
        invariant
            vv == errors_view(v@),
            i <= v@.len(),
            errors_view(out@) == sorted_errors(vv.take(i as int)),
            errors_sorted(errors_view(out@)),
            errors_view(out@).to_multiset() == vv.take(i as int).to_multiset(),
        decreases v@.len() - i,
    {
        let e = v[i].copy();
        let ghost ov = errors_view(out@);
        let mut pos: usize = 0;
        while pos < out.len() && !error_lt(&e, &out[pos])
            invariant
                ov == errors_view(out@),
                pos <= out@.len(),
                first_err_after(ov, e@, 0) == first_err_after(ov, e@, pos as int),
                forall|k: int| 0 <= k < pos ==> !err_lt(e@, #[trigger] ov[k]),
            decreases out@.len() - pos,
        {
            proof { assert(ov[pos as int] == out@[pos as int]@); }
            pos = pos + 1;
        }
        proof {
            if pos < out@.len() {
                assert(ov[pos as int] == out@[pos as int]@);
                assert(err_lt(e@, ov[pos as int]));
            }
        }
        out.insert(pos, e);
        proof {
            let nv = errors_view(out@);
            assert(nv =~= ov.insert(pos as int, e@));
            ov.insert_ensures(pos as int, e@);
            assert forall|a: int, b: int| 0 <= a < b < nv.len() implies !err_lt(#[trigger] nv[b], #[trigger] nv[a]) by {
                if b < pos {
                } else if b == pos {
                } else if a < pos {
                    assert(nv[a] == ov[a]);
                    assert(nv[b] == ov[b - 1]);
                } else if a == pos {
                    if err_lt(nv[b], nv[a]) {
                        assert(nv[b] == ov[b - 1]);
                        lemma_err_lt_trans(ov[b - 1], e@, ov[pos as int]);
                        lemma_err_lt_irrefl(ov[pos as int]);
                    }
                } else {
                    assert(nv[a] == ov[a - 1]);
                    assert(nv[b] == ov[b - 1]);
                }
            }
            lemma_insert_multiset(ov, pos as int, e@);
            assert(vv[i as int] == e@);
            assert(vv.take(i + 1) =~= vv.take(i as int).push(e@));
            assert(vv.take(i + 1).drop_last() =~= vv.take(i as int));
            vstd::seq_lib::to_multiset_build(vv.take(i as int), e@);
        }
        i = i + 1;
    }
    proof { assert(vv.take(vv.len() as int) =~= vv); }
    out
}

impl Report {
    /// Sort directives and errors into report order: directives by path, then
    /// line, then column, then tool; errors by path, then message. Nothing is
    /// added or lost.
    pub fn sort(&mut self)
        ensures
            final(self).version == old(self).version,
            directives_view(final(self).ignores@) == sorted_view(directives_view(old(self).ignores@)),
            errors_view(final(self).errors@) == sorted_errors(errors_view(old(self).errors@)),
            directives_sorted(directives_view(final(self).ignores@)),
            directives_view(final(self).ignores@).to_multiset() == directives_view(old(self).ignores@).to_multiset(),
            errors_sorted(errors_view(final(self).errors@)),
            errors_view(final(self).errors@).to_multiset() == errors_view(old(self).errors@).to_multiset(),
    {
        let ignores = sort_directives(&self.ignores);
        let errors = sort_errors(&self.errors);
        self.ignores = ignores;
        self.errors = errors;
    }
}

} // verus!
