//! The tool-parser registry.
//!
//! Parsers read the comments and attributes a [`SourceFile`] already
//! extracted; they never re-scan raw source lines.

use vstd::prelude::*;

use crate::comments::{Comment, CommentView, comments_view};
use crate::model::{
    Change, DirectiveView, IgnoreDirective, Scope, Suppressed, Tool, all_tools, directives_view,
    strings_view, opt_string_view,
};
use crate::text::chars_of;
use crate::source::{Language, SourceFile, SourceView};

pub mod python;

pub mod biome;
pub mod eslint;
pub mod llmlint;
pub mod mypy;
pub mod pyright;
pub mod ruff;
pub mod rust;
pub mod shellcheck;
pub mod ty;
pub mod typescript;

verus! {

/// Turns one tool's suppression syntax into [`IgnoreDirective`] records.
///
/// The three methods are the whole contract: a parser hands back directives
/// and nothing else.
pub trait ToolParser {
    /// The tool this parser understands.
    fn tool(&self) -> Tool;

    /// Whether this parser has anything to say about the given file.
    fn applies_to(&self, file: &SourceFile) -> bool;

    /// Every directive in the file, in source order.
    fn parse(&self, file: &SourceFile) -> Vec<IgnoreDirective>;
}

/// Some comment that owns its line sits on line `n`.
pub open spec fn has_leading_on(cs: Seq<CommentView>, n: int) -> bool {
    exists|k: int| 0 <= k < cs.len() && (#[trigger] cs[k]).leading && cs[k].line == n
}

/// Whether some comment that owns its line sits on line `n`.
pub fn leading_on(comments: &Vec<Comment>, n: u32) -> (b: bool)
    ensures
        b == has_leading_on(comments_view(comments@), n as int),
{
    let ghost cv = comments_view(comments@);
    let mut k: usize = 0;
    while k < comments.len()
        invariant
            cv == comments_view(comments@),
            k <= comments@.len(),
            forall|j: int| 0 <= j < k ==> !((#[trigger] cv[j]).leading && cv[j].line == n),
        decreases comments@.len() - k,
    {
        proof { assert(cv[k as int] == comments@[k as int]@); }
        if comments[k].leading && comments[k].line == n {
            return true;
        }
        k = k + 1;
    }
    false
}

/// The records so far, and the indices of the ranges still open, oldest
/// first.
pub struct OpenState {
    pub out: Seq<DirectiveView>,
    pub open: Seq<usize>,
}

/// A record whose range ends on `line`.
pub open spec fn closed_at(d: DirectiveView, line: u32) -> DirectiveView {
    DirectiveView { suppressed: Suppressed { start_line: d.suppressed.start_line, end_line: Some(line) }, ..d }
}

/// A record as its parts.
pub open spec fn dv(
    tool: Tool,
    scope: Scope,
    rules: Seq<Seq<char>>,
    reason: Option<Seq<char>>,
    path: Seq<char>,
    line: u32,
    end_line: u32,
    column: u32,
    raw: Seq<char>,
    suppressed: Suppressed,
) -> DirectiveView {
    DirectiveView {
        tool,
        scope,
        rules,
        reason,
        path,
        line,
        end_line,
        column,
        raw,
        suppressed,
        change: None,
    }
}

/// A `file`-scope range: line 1 to end-of-file.
pub open spec fn whole_file() -> Suppressed {
    Suppressed { start_line: 1, end_line: None }
}

/// The range of one line.
pub open spec fn just(line: u32) -> Suppressed {
    Suppressed { start_line: line, end_line: Some(line) }
}

/// The range of the line after `line`.
pub open spec fn after(line: u32) -> Suppressed {
    let next = if line == u32::MAX { u32::MAX } else { (line + 1) as u32 };
    Suppressed { start_line: next, end_line: Some(next) }
}

pub fn whole_file_exec() -> (s: Suppressed)
    ensures
        s == whole_file(),
{
    Suppressed { start_line: 1, end_line: None }
}

pub fn just_exec(line: u32) -> (s: Suppressed)
    ensures
        s == just(line),
{
    Suppressed { start_line: line, end_line: Some(line) }
}

pub fn after_exec(line: u32) -> (s: Suppressed)
    ensures
        s == after(line),
{
    let next = if line == u32::MAX { u32::MAX } else { line + 1 };
    Suppressed { start_line: next, end_line: Some(next) }
}

/// Build a record.
pub fn make(
    tool: Tool,
    scope: Scope,
    rules: Vec<String>,
    reason: Option<String>,
    path: &str,
    line: u32,
    end_line: u32,
    column: u32,
    raw: String,
    suppressed: Suppressed,
) -> (d: IgnoreDirective)
    ensures
        d@ == dv(tool, scope, strings_view(rules@), opt_string_view(reason), path@, line, end_line, column, raw@, suppressed),
{
    IgnoreDirective {
        tool,
        scope,
        rules,
        reason,
        path: path.to_owned(),
        line,
        end_line,
        column,
        raw,
        suppressed,
        change: None,
    }
}

/// True when `after_marker` (a comment's text with its opening marker
/// removed) opens a directive for one of the tools with a comment grammar.
///
/// A run of prose stops there: a reason never swallows the next tool's
/// directive.
pub open spec fn opens_spec(after_marker: Seq<char>) -> bool {
    python::py_opens(after_marker) || shellcheck::sc_opens(after_marker) || eslint::eslint_opens(after_marker)
        || biome::biome_opens(after_marker) || typescript::ts_opens(after_marker)
}

/// Whether `after_marker` opens a directive for one of the tools with a
/// comment grammar.
pub fn opens_directive(after_marker: &str) -> (b: bool)
    ensures
        b == opens_spec(after_marker@),
{
    let v = chars_of(after_marker);
    python::opens_directive(&v) || shellcheck::opens_directive(&v) || eslint::opens_directive(&v)
        || biome::opens_directive(&v) || typescript::opens_directive(&v)
}

/// What the parser for `tool` reports in a file.
pub open spec fn parse_spec(tool: Tool, f: SourceView) -> Seq<DirectiveView> {
    match tool {
        Tool::Eslint => eslint::eslint_parse_spec(f),
        Tool::Biome => biome::biome_parse_spec(f),
        Tool::Ruff => ruff::ruff_parse_spec(f),
        Tool::Typescript => typescript::ts_parse_spec(f),
        Tool::Mypy => mypy::mypy_parse_spec(f),
        Tool::Pyright => pyright::pyright_parse_spec(f),
        Tool::Ty => ty::ty_parse_spec(f),
        Tool::Rust => rust::rust_parse_spec(f),
        Tool::Shellcheck => shellcheck::sc_parse_spec(f),
        Tool::Llmlint => llmlint::ll_records(f),
    }
}

/// The languages the parser for `tool` reads.
pub open spec fn applies_spec(tool: Tool, language: Language) -> bool {
    match tool {
        Tool::Eslint | Tool::Biome | Tool::Typescript => language == Language::JavaScript || language
            == Language::TypeScript,
        Tool::Ruff | Tool::Mypy | Tool::Pyright | Tool::Ty => language == Language::Python,
        Tool::Rust => language == Language::Rust,
        Tool::Shellcheck => language == Language::Shell,
        Tool::Llmlint => language != Language::Unknown,
    }
}

/// The registered parser for one tool.
#[derive(Debug, Clone, Copy, PartialEq, Eq, Structural)]
pub struct RegisteredParser {
    pub tool: Tool,
}

impl ToolParser for RegisteredParser {
    fn tool(&self) -> (t: Tool)
        ensures
            t == self.tool,
    {
        self.tool
    }

    fn applies_to(&self, file: &SourceFile) -> (b: bool)
        ensures
            b == applies_spec(self.tool, file@.language),
    {
        match self.tool {
            Tool::Eslint => eslint::EslintParser.applies_to(file),
            Tool::Biome => biome::BiomeParser.applies_to(file),
            Tool::Ruff => ruff::RuffParser.applies_to(file),
            Tool::Typescript => typescript::TypescriptParser.applies_to(file),
            Tool::Mypy => mypy::MypyParser.applies_to(file),
            Tool::Pyright => pyright::PyrightParser.applies_to(file),
            Tool::Ty => ty::TyParser.applies_to(file),
            Tool::Rust => rust::RustParser.applies_to(file),
            Tool::Shellcheck => shellcheck::ShellcheckParser.applies_to(file),
            Tool::Llmlint => llmlint::LlmlintParser.applies_to(file),
        }
    }

    fn parse(&self, file: &SourceFile) -> (r: Vec<IgnoreDirective>)
        ensures
            directives_view(r@) == parse_spec(self.tool, file@),
    {
        match self.tool {
            Tool::Eslint => eslint::EslintParser.parse(file),
            Tool::Biome => biome::BiomeParser.parse(file),
            Tool::Ruff => ruff::RuffParser.parse(file),
            Tool::Typescript => typescript::TypescriptParser.parse(file),
            Tool::Mypy => mypy::MypyParser.parse(file),
            Tool::Pyright => pyright::PyrightParser.parse(file),
            Tool::Ty => ty::TyParser.parse(file),
            Tool::Rust => rust::RustParser.parse(file),
            Tool::Shellcheck => shellcheck::ShellcheckParser.parse(file),
            Tool::Llmlint => llmlint::LlmlintParser.parse(file),
        }
    }
}

/// The tools of a list of parsers.
pub open spec fn tools_of(ps: Seq<RegisteredParser>) -> Seq<Tool> {
    ps.map_values(|p: RegisteredParser| p.tool)
}

/// Every registered parser, in [`Tool::ALL`] order: one per tool.
pub fn registry() -> (r: Vec<RegisteredParser>)
    ensures
        tools_of(r@) == all_tools(),
{
    let tools = Tool::all();
    let mut r: Vec<RegisteredParser> = Vec::new();
    let mut i: usize = 0;
    while i < tools.len()
        invariant
            tools@ == all_tools(),
            i <= tools@.len(),
            tools_of(r@) == all_tools().take(i as int),
        decreases tools@.len() - i,
    {
        let ghost before = tools_of(r@);
        let t = tools[i];
        r.push(RegisteredParser { tool: t });
        proof {
            assert(tools_of(r@) =~= before.push(t));
            assert(all_tools().take(i + 1) =~= all_tools().take(i as int).push(t));
        }
        i = i + 1;
    }
    proof { assert(all_tools().take(all_tools().len() as int) =~= all_tools()); }
    r
}

/// Whether a `--tool` filter naming `tools` selects `t`: an empty filter
/// selects every tool.
pub open spec fn selected(tools: Seq<Tool>, t: Tool) -> bool {
    tools.len() == 0 || tools.contains(t)
}

fn contains_tool(tools: &[Tool], t: Tool) -> (b: bool)
    ensures
        b == tools@.contains(t),
{
    let mut k: usize = 0;
    while k < tools.len()
        invariant
            k <= tools@.len(),
            forall|x: int| 0 <= x < k ==> tools@[x] != t,
        decreases tools@.len() - k,
    {
        if tools[k] == t {
            proof { assert(tools@[k as int] == t); }
            return true;
        }
        k = k + 1;
    }
    false
}

/// The parsers for `tools`, or all of them when `tools` is empty, in
/// [`Tool::ALL`] order.
pub fn registry_for(tools: &[Tool]) -> (r: Vec<RegisteredParser>)
    ensures
        tools_of(r@) == all_tools().filter(|t: Tool| selected(tools@, t)),
{
    let all = registry();
    let ghost pred = |t: Tool| selected(tools@, t);
    let mut r: Vec<RegisteredParser> = Vec::new();
    let mut i: usize = 0;
    while i < all.len()
        invariant
            tools_of(all@) == all_tools(),
            pred == (|t: Tool| selected(tools@, t)),
            i <= all@.len(),
            tools_of(r@) == all_tools().take(i as int).filter(pred),
        decreases all@.len() - i,
    {
        let p = all[i];
        proof {
            assert(all_tools().take(i + 1) =~= all_tools().take(i as int).push(p.tool));
            all_tools().take(i as int).lemma_filter_push(p.tool, pred);
        }
        if tools.len() == 0 || contains_tool(tools, p.tool) {
            let ghost before = tools_of(r@);
            r.push(p);
            proof { assert(tools_of(r@) =~= before.push(p.tool)); }
        }
        i = i + 1;
    }
    proof { assert(all_tools().take(all_tools().len() as int) =~= all_tools()); }
    r
}

/// The tools the supported-tools table still lists as planned: their parsers
/// are registered, but their support is not declared finished.
pub open spec fn planned(t: Tool) -> bool {
    t == Tool::Eslint || t == Tool::Biome || t == Tool::Typescript
}

impl Tool {
    /// Whether this tool is listed as supported: a parser is registered for
    /// it and the supported-tools table no longer marks it planned.
    pub fn is_implemented(self) -> (b: bool)
        ensures
            b == (all_tools().contains(self) && !planned(self)),
    {
        if self == Tool::Eslint || self == Tool::Biome || self == Tool::Typescript {
            return false;
        }
        let all = registry();
        let mut i: usize = 0;
        while i < all.len()
            invariant
                tools_of(all@) == all_tools(),
                !planned(self),
                i <= all@.len(),
                forall|x: int| 0 <= x < i ==> all_tools()[x] != self,
            decreases all@.len() - i,
        {
            if all[i].tool == self {
                proof { assert(all_tools()[i as int] == self); }
                return true;
            }
            i = i + 1;
        }
        false
    }
}

// ---------------------------------------------------------------------------
// Whose records are whose.

/// Every record of `ds` names tool `t` and the file at `path`.
pub open spec fn all_from(ds: Seq<DirectiveView>, t: Tool, path: Seq<char>) -> bool {
    forall|k: int| 0 <= k < ds.len() ==> (#[trigger] ds[k]).tool == t && ds[k].path == path
}

proof fn lemma_filter_map_from<A>(xs: Seq<A>, g: spec_fn(A) -> Option<DirectiveView>, t: Tool, path: Seq<char>)
    requires
        forall|x: A| #[trigger] g(x) matches Some(d) ==> d.tool == t && d.path == path,
    ensures
        all_from(xs.filter_map(g), t, path),
    decreases xs.len(),
{
    if xs.len() > 0 {
        let rest = xs.drop_last();
        lemma_filter_map_from(rest, g, t, path);
        let r = rest.filter_map(g);
        match g(xs.last()) {
            Some(d) => {
                let all = r + seq![d];
                assert(xs.filter_map(g) == all);
                assert forall|k: int| 0 <= k < all.len() implies (#[trigger] all[k]).tool == t && all[k].path == path by {
                    if k < r.len() {
                        assert(all[k] == r[k]);
                    }
                }
            },
            None => {
                assert(xs.filter_map(g) == r);
            },
        }
    }
}

proof fn lemma_push_from(ds: Seq<DirectiveView>, d: DirectiveView, t: Tool, path: Seq<char>)
    requires
        all_from(ds, t, path),
        d.tool == t,
        d.path == path,
    ensures
        all_from(ds.push(d), t, path),
{
    assert forall|k: int| 0 <= k < ds.push(d).len() implies (#[trigger] ds.push(d)[k]).tool == t && ds.push(d)[k].path == path by {
        if k < ds.len() {
            assert(ds.push(d)[k] == ds[k]);
        }
    }
}

proof fn lemma_eslint_run_from(path: Seq<char>, cs: Seq<CommentView>)
    ensures
        all_from(eslint::eslint_run(path, cs).out, Tool::Eslint, path),
    decreases cs.len(),
{
    if cs.len() > 0 {
        lemma_eslint_run_from(path, cs.drop_last());
        let st = eslint::eslint_run(path, cs.drop_last());
        let c = cs.last();
        match eslint::eslint_parsed(c.text, c.kind) {
            None => {},
            Some((kind, rules, reason)) => if kind == eslint::Kind::Enable {
                let out = eslint::close_spec(st, rules, c.line).out;
                assert forall|k: int| 0 <= k < out.len() implies (#[trigger] out[k]).tool == Tool::Eslint && out[k].path == path by {
                    assert(st.out[k].tool == Tool::Eslint);
                }
            } else {
                lemma_push_from(
                    st.out,
                    dv(Tool::Eslint, eslint::kind_scope(kind), rules, reason, path, c.line, c.end_line, c.column, c.raw, eslint::kind_range(kind, c)),
                    Tool::Eslint,
                    path,
                );
            },
        }
    }
}

/// Every open range of a Biome state points at a record.
pub open spec fn biome_open_ok(st: OpenState) -> bool {
    forall|k: int| 0 <= k < st.open.len() ==> (#[trigger] st.open[k]) < st.out.len()
}

proof fn lemma_last_match_bound(st: OpenState, e: Seq<Seq<char>>, j: int)
    ensures
        biome::last_match(st, e, j) matches Some(p) ==> 0 <= p < st.open.len(),
    decreases j,
{
    if 0 < j <= st.open.len() {
        lemma_last_match_bound(st, e, j - 1);
    }
}

proof fn lemma_biome_run_from(path: Seq<char>, cs: Seq<CommentView>)
    ensures
        all_from(biome::biome_run(path, cs).out, Tool::Biome, path),
        biome_open_ok(biome::biome_run(path, cs)),
    decreases cs.len(),
{
    if cs.len() > 0 {
        lemma_biome_run_from(path, cs.drop_last());
        let st = biome::biome_run(path, cs.drop_last());
        let c = cs.last();
        if c.leading {
            match biome::biome_parsed(c.text) {
                None => {},
                Some((kind, rules, reason)) => if kind == biome::Kind::End {
                    lemma_last_match_bound(st, rules, st.open.len() as int);
                    match biome::last_match(st, rules, st.open.len() as int) {
                        None => {},
                        Some(p) => {
                            let idx = st.open[p] as int;
                            let nx = biome::close_spec(st, rules, c.line);
                            assert(nx.out == st.out.update(idx, closed_at(st.out[idx], c.line)));
                            assert forall|k: int| 0 <= k < nx.out.len() implies (#[trigger] nx.out[k]).tool == Tool::Biome && nx.out[k].path == path by {
                                if k != idx {
                                    assert(nx.out[k] == st.out[k]);
                                }
                            }
                            assert forall|k: int| 0 <= k < nx.open.len() implies (#[trigger] nx.open[k]) < nx.out.len() by {
                                if k < p {
                                    assert(nx.open[k] == st.open[k]);
                                } else {
                                    assert(nx.open[k] == st.open[k + 1]);
                                }
                            }
                        },
                    }
                } else {
                    let d = dv(Tool::Biome, biome::kind_scope(kind), rules, Some(reason), path, c.line, c.end_line, c.column, c.raw, biome::kind_range(kind, c));
                    lemma_push_from(st.out, d, Tool::Biome, path);
                    let nx = biome::biome_run(path, cs);
                    assert forall|k: int| 0 <= k < nx.open.len() implies (#[trigger] nx.open[k]) < nx.out.len() by {
                        if k < st.open.len() {
                            assert(nx.open[k] == st.open[k]);
                        }
                    }
                },
            }
        }
    }
}

proof fn lemma_ll_close_from(
    out: Seq<DirectiveView>,
    open: Seq<(Seq<char>, usize)>,
    rules: Seq<Seq<char>>,
    line: u32,
    j: int,
    path: Seq<char>,
)
    requires
        all_from(out, Tool::Llmlint, path),
    ensures
        all_from(llmlint::ll_close_upto(out, open, rules, line, j).0, Tool::Llmlint, path),
    decreases j,
{
    if 0 < j <= open.len() {
        lemma_ll_close_from(out, open, rules, line, j - 1, path);
        let prev = llmlint::ll_close_upto(out, open, rules, line, j - 1);
        let e = open[j - 1];
        if rules.contains(e.0) && (e.1 as int) < prev.0.len() && !llmlint::survives(open, rules, e.1) {
            let nx = prev.0.update(e.1 as int, llmlint::ext(prev.0[e.1 as int], line));
            assert forall|k: int| 0 <= k < nx.len() implies (#[trigger] nx[k]).tool == Tool::Llmlint && nx[k].path == path by {
                if k != e.1 as int {
                    assert(nx[k] == prev.0[k]);
                }
            }
        }
    }
}

proof fn lemma_ll_fold_from(path: Seq<char>, st: llmlint::LlState, ls: Seq<(u32, u32, Seq<char>)>)
    requires
        all_from(st.out, Tool::Llmlint, path),
    ensures
        all_from(llmlint::ll_fold(path, st, ls).out, Tool::Llmlint, path),
    decreases ls.len(),
{
    if ls.len() > 0 {
        lemma_ll_fold_from(path, st, ls.drop_last());
        let prev = llmlint::ll_fold(path, st, ls.drop_last());
        let (line, column, text) = ls.last();
        match llmlint::ll_find_from(text, 0) {
            None => {},
            Some((start, verb, rules, reason)) => if verb == llmlint::Verb::End {
                lemma_ll_close_from(prev.out, prev.open, rules, line, prev.open.len() as int, path);
            } else {
                let scope = llmlint::verb_scope(verb);
                let d = dv(
                    Tool::Llmlint,
                    scope,
                    rules,
                    reason,
                    path,
                    line,
                    line,
                    crate::comments::sat_u32(column + start),
                    crate::text::trim_end(text.subrange(start, text.len() as int)),
                    llmlint::ll_range(scope, line),
                );
                lemma_push_from(prev.out, d, Tool::Llmlint, path);
            },
        }
    }
}

proof fn lemma_ll_run_from(path: Seq<char>, cs: Seq<CommentView>)
    ensures
        all_from(llmlint::ll_run(path, cs).out, Tool::Llmlint, path),
    decreases cs.len(),
{
    if cs.len() > 0 {
        lemma_ll_run_from(path, cs.drop_last());
        lemma_ll_fold_from(path, llmlint::ll_run(path, cs.drop_last()), llmlint::ll_lines(cs.last()));
    }
}

/// Every record the parser for `t` finds in `f` names `t` and `f`.
pub proof fn lemma_parse_from(t: Tool, f: SourceView)
    ensures
        all_from(parse_spec(t, f), t, f.display_path),
{
    let p = f.display_path;
    match t {
        Tool::Eslint => lemma_eslint_run_from(p, f.extracted.comments),
        Tool::Biome => lemma_biome_run_from(p, f.extracted.comments),
        Tool::Llmlint => lemma_ll_run_from(p, f.extracted.comments),
        Tool::Ruff => lemma_filter_map_from(f.extracted.comments, ruff::ruff_f(p), t, p),
        Tool::Typescript => lemma_filter_map_from(f.extracted.comments, typescript::ts_f(p), t, p),
        Tool::Mypy => lemma_filter_map_from(f.extracted.comments, mypy::mypy_f(p), t, p),
        Tool::Pyright => lemma_filter_map_from(f.extracted.comments, pyright::pyright_f(p), t, p),
        Tool::Ty => lemma_filter_map_from(f.extracted.comments, ty::ty_f(f), t, p),
        Tool::Rust => lemma_filter_map_from(f.extracted.attributes, rust::rust_f(p), t, p),
        Tool::Shellcheck => lemma_filter_map_from(f.extracted.comments, shellcheck::sc_f(f), t, p),
    }
}

} // verus!
