//! Biome (`// biome-ignore lint/…`) suppression parsing.
//!
//! | Source | Scope | Rules |
//! | --- | --- | --- |
//! | `// biome-ignore lint/style/useConst: reason` | next-line | `lint/style/useConst` |
//! | `// biome-ignore lint/a/x lint/b/y: reason` | next-line | both |
//! | `// biome-ignore-all lint/style/useConst: reason` | file | `lint/style/useConst` |
//! | `// biome-ignore-start lint/…: reason` … `// biome-ignore-end lint/…: reason` | block | as named |
//!
//! A reason is mandatory, selectors split on whitespace and are kept whole,
//! and `biome-ignore-end` closes the most recent open range that names one of
//! its selectors. A suppression applies to what follows it, so a comment that
//! trails code on its line (`debugger; // biome-ignore …`) silences nothing
//! and is no directive.

use vstd::prelude::*;

use crate::comments::{Comment, CommentView, comments_view};
use crate::model::{
    DirectiveView, IgnoreDirective, Scope, Suppressed, Tool, directives_view, strings_view,
    opt_string_view, normalized, normalize_chars,
};
use crate::source::{Language, SourceFile, SourceView};
use crate::text::{
    chars_of, trim_start, trim_start_vec, strip_prefix, strip_prefix_vec, split_once, split_once_vec,
    split_ws, split_ws_vec,
};
use crate::tools::{ToolParser, OpenState, closed_at, dv, whole_file, after, whole_file_exec, after_exec, make};

verus! {

/// Parses Biome's `biome-ignore` family out of JavaScript and TypeScript.
#[derive(Debug, Clone, Copy, Default)]
pub struct BiomeParser;

/// The four directive keywords.
#[derive(Debug, Clone, Copy, PartialEq, Eq, Structural)]
pub enum Kind {
    /// `biome-ignore`: the next line.
    One,
    /// `biome-ignore-all`: the whole file.
    All,
    /// `biome-ignore-start`: until the matching end.
    Start,
    /// `biome-ignore-end`: closes a range.
    End,
}

/// What may follow a keyword.
pub open spec fn boundary(c: char) -> bool {
    c == ' ' || c == '\t' || c == '\r' || c == '\n' || c == ':'
}

/// The text after `kw` at the front of `text`, at a word boundary.
pub open spec fn kw_rest(text: Seq<char>, kw: Seq<char>) -> Option<Seq<char>> {
    match strip_prefix(text, kw) {
        Some(rest) => if rest.len() == 0 || boundary(rest[0]) { Some(rest) } else { None },
        None => None,
    }
}

/// The keyword that opens `text`, longest first.
pub open spec fn find_kw(text: Seq<char>) -> Option<(Kind, Seq<char>)> {
    match kw_rest(text, "biome-ignore-start"@) {
        Some(r) => Some((Kind::Start, r)),
        None => match kw_rest(text, "biome-ignore-end"@) {
            Some(r) => Some((Kind::End, r)),
            None => match kw_rest(text, "biome-ignore-all"@) {
                Some(r) => Some((Kind::All, r)),
                None => match kw_rest(text, "biome-ignore"@) {
                    Some(r) => Some((Kind::One, r)),
                    None => None,
                },
            },
        },
    }
}

/// The directive that opens a comment whose body is `text`: its kind,
/// selectors and reason. Without a selector or a reason there is none.
pub open spec fn biome_parsed(text: Seq<char>) -> Option<(Kind, Seq<Seq<char>>, Seq<char>)> {
    match find_kw(trim_start(text)) {
        None => None,
        Some((kind, rest)) => match split_once(rest, ':') {
            None => None,
            Some((selectors, reason)) => if split_ws(selectors).len() == 0 {
                None
            } else {
                match normalized(reason) {
                    Some(r) => Some((kind, split_ws(selectors), r)),
                    None => None,
                }
            },
        },
    }
}

/// True when the text after a comment marker opens a Biome suppression.
pub open spec fn biome_opens(after_marker: Seq<char>) -> bool {
    biome_parsed(after_marker) is Some
}

pub open spec fn kind_scope(kind: Kind) -> Scope {
    match kind {
        Kind::One => Scope::NextLine,
        Kind::All => Scope::File,
        _ => Scope::Block,
    }
}

pub open spec fn kind_range(kind: Kind, c: CommentView) -> Suppressed {
    match kind {
        Kind::One => after(c.end_line),
        Kind::All => whole_file(),
        _ => Suppressed { start_line: c.line, end_line: None },
    }
}

/// Whether two selector lists name a selector in common.
pub open spec fn shares(d: Seq<Seq<char>>, e: Seq<Seq<char>>) -> bool {
    exists|k: int| 0 <= k < d.len() && e.contains(#[trigger] d[k])
}

/// The last of the first `j` open ranges that an end naming `e` matches.
pub open spec fn last_match(st: OpenState, e: Seq<Seq<char>>, j: int) -> Option<int>
    decreases j,
{
    if j <= 0 || j > st.open.len() {
        None
    } else if shares(st.out[st.open[j - 1] as int].rules, e) {
        Some(j - 1)
    } else {
        last_match(st, e, j - 1)
    }
}

/// An end naming `e` on `line` closes the most recent open range it matches,
/// and changes nothing when none does.
pub open spec fn close_spec(st: OpenState, e: Seq<Seq<char>>, line: u32) -> OpenState {
    match last_match(st, e, st.open.len() as int) {
        None => st,
        Some(p) => {
            let idx = st.open[p] as int;
            OpenState { out: st.out.update(idx, closed_at(st.out[idx], line)), open: st.open.remove(p) }
        },
    }
}

/// One comment's effect on the state: a comment that trails code on its
/// line silences nothing, so it is no directive.
pub open spec fn biome_step(path: Seq<char>, st: OpenState, c: CommentView) -> OpenState {
    if !c.leading {
        st
    } else {
        biome_leading_step(path, st, c)
    }
}

/// One comment that owns its line.
pub open spec fn biome_leading_step(path: Seq<char>, st: OpenState, c: CommentView) -> OpenState {
    match biome_parsed(c.text) {
        None => st,
        Some((kind, rules, reason)) => if kind == Kind::End {
            close_spec(st, rules, c.line)
        } else {
            OpenState {
                out: st.out.push(
                    dv(Tool::Biome, kind_scope(kind), rules, Some(reason), path, c.line, c.end_line, c.column, c.raw, kind_range(kind, c)),
                ),
                open: if kind == Kind::Start { st.open.push(st.out.len() as usize) } else { st.open },
            }
        },
    }
}

/// The state after the comments `cs`, in order.
pub open spec fn biome_run(path: Seq<char>, cs: Seq<CommentView>) -> OpenState
    decreases cs.len(),
{
    if cs.len() == 0 {
        OpenState { out: Seq::empty(), open: Seq::empty() }
    } else {
        biome_step(path, biome_run(path, cs.drop_last()), cs.last())
    }
}

/// Every Biome record in a file, in source order, each range closed where its
/// end matches it.
pub open spec fn biome_parse_spec(f: SourceView) -> Seq<DirectiveView> {
    biome_run(f.display_path, f.extracted.comments).out
}

fn kw_rest_vec(text: &Vec<char>, kw: &str) -> (r: Option<Vec<char>>)
    ensures
        r.is_some() == kw_rest(text@, kw@).is_some(),
        r.is_some() ==> r.unwrap()@ == kw_rest(text@, kw@).unwrap(),
{
    let k = chars_of(kw);
    match strip_prefix_vec(text, &k) {
        Some(rest) => {
            if rest.len() == 0 {
                return Some(rest);
            }
            let c = rest[0];
            if c == ' ' || c == '\t' || c == '\r' || c == '\n' || c == ':' {
                Some(rest)
            } else {
                None
            }
        },
        None => None,
    }
}

fn find_kw_vec(text: &Vec<char>) -> (r: Option<(Kind, Vec<char>)>)
    ensures
        match (r, find_kw(text@)) {
            (Some((k, rest)), Some((kv, rv))) => k == kv && rest@ == rv,
            (None, None) => true,
            _ => false,
        },
{
    match kw_rest_vec(text, "biome-ignore-start") {
        Some(r) => { return Some((Kind::Start, r)); },
        None => {},
    }
    match kw_rest_vec(text, "biome-ignore-end") {
        Some(r) => { return Some((Kind::End, r)); },
        None => {},
    }
    match kw_rest_vec(text, "biome-ignore-all") {
        Some(r) => { return Some((Kind::All, r)); },
        None => {},
    }
    match kw_rest_vec(text, "biome-ignore") {
        Some(r) => Some((Kind::One, r)),
        None => None,
    }
}

fn parsed_vec(text: &Vec<char>) -> (r: Option<(Kind, Vec<String>, String)>)
    ensures
        match (r, biome_parsed(text@)) {
            (Some((k, rules, reason)), Some((kv, rv, rr))) => k == kv && strings_view(rules@) == rv && reason@ == rr,
            (None, None) => true,
            _ => false,
        },
{
    match find_kw_vec(&trim_start_vec(text)) {
        None => None,
        Some((kind, rest)) => match split_once_vec(&rest, ':') {
            None => None,
            Some((selectors, reason)) => {
                let rules = split_ws_vec(&selectors);
                if rules.len() == 0 {
                    return None;
                }
                match normalize_chars(&reason) {
                    Some(r) => Some((kind, rules, r)),
                    None => None,
                }
            },
        },
    }
}

/// True when the text after a comment marker opens a Biome suppression.
pub fn opens_directive(after_marker: &Vec<char>) -> (b: bool)
    ensures
        b == biome_opens(after_marker@),
{
    parsed_vec(after_marker).is_some()
}

/// Whether two selector lists name a selector in common.
fn shares_exec(d: &Vec<String>, e: &Vec<String>) -> (b: bool)
    ensures
        b == shares(strings_view(d@), strings_view(e@)),
{
    let ghost dv = strings_view(d@);
    let ghost ev = strings_view(e@);
    let mut k: usize = 0;
    while k < d.len()
        invariant
            dv == strings_view(d@),
            ev == strings_view(e@),
            k <= d@.len(),
            forall|m: int| 0 <= m < k ==> !ev.contains(#[trigger] dv[m]),
        decreases d@.len() - k,
    {
        let mut m: usize = 0;
        while m < e.len()
            invariant
                dv == strings_view(d@),
                ev == strings_view(e@),
                k < d@.len(),
                m <= e@.len(),
                forall|x: int| 0 <= x < m ==> ev[x] != dv[k as int],
            decreases e@.len() - m,
        {
            if e[m] == d[k] {
                proof {
                    assert(ev[m as int] == dv[k as int]);
                    assert(ev.contains(dv[k as int]));
                }
                return true;
            }
            m = m + 1;
        }
        k = k + 1;
    }
    false
}

/// Close the most recent open range an end naming `enable` matches.
fn close_range(out: &mut Vec<IgnoreDirective>, open: &mut Vec<usize>, rules: &Vec<String>, line: u32)
    requires
        forall|k: int| 0 <= k < old(open)@.len() ==> old(open)@[k] < old(out)@.len(),
    ensures
        directives_view(final(out)@) == close_spec(
            OpenState { out: directives_view(old(out)@), open: old(open)@ },
            strings_view(rules@),
            line,
        ).out,
        final(open)@ == close_spec(
            OpenState { out: directives_view(old(out)@), open: old(open)@ },
            strings_view(rules@),
            line,
        ).open,
        forall|k: int| 0 <= k < final(open)@.len() ==> final(open)@[k] < final(out)@.len(),
{
    let ghost st = OpenState { out: directives_view(out@), open: open@ };
    let ghost e = strings_view(rules@);
    let mut j = open.len();
    while j > 0
        invariant
            st == (OpenState { out: directives_view(out@), open: open@ }),
            st == (OpenState { out: directives_view(old(out)@), open: old(open)@ }),
            e == strings_view(rules@),
            forall|k: int| 0 <= k < open@.len() ==> open@[k] < out@.len(),
            j <= open@.len(),
            last_match(st, e, st.open.len() as int) == last_match(st, e, j as int),
        decreases j,
    {
        let idx = open[j - 1];
        proof { assert(directives_view(out@)[idx as int] == out@[idx as int]@); }
        if shares_exec(&out[idx].rules, rules) {
            proof { assert(last_match(st, e, j as int) == Some((j - 1) as int)); }
            let mut d = out[idx].copy();
            d.suppressed = Suppressed { start_line: d.suppressed.start_line, end_line: Some(line) };
            out.set(idx, d);
            open.remove(j - 1);
            proof {
                assert(directives_view(out@) =~= st.out.update(idx as int, closed_at(st.out[idx as int], line)));
                assert forall|k: int| 0 <= k < open@.len() implies open@[k] < out@.len() by {
                    if k < j - 1 {
                        assert(open@[k] == st.open[k]);
                    } else {
                        assert(open@[k] == st.open[k + 1]);
                    }
                }
            }
            return;
        }
        j = j - 1;
    }
}

impl BiomeParser {
    /// Every Biome directive in `file`, in source order.
    pub fn parse_file(&self, file: &SourceFile) -> (r: Vec<IgnoreDirective>)
        ensures
            directives_view(r@) == biome_parse_spec(file@),
    {
        let comments = file.comments();
        let path = file.display_path();
        let ghost cv = comments_view(comments@);
        let mut out: Vec<IgnoreDirective> = Vec::new();
        let mut open: Vec<usize> = Vec::new();
        proof {
            assert(cv.take(0) =~= Seq::<CommentView>::empty());
            assert(directives_view(out@) =~= Seq::<DirectiveView>::empty());
            assert(open@ =~= Seq::<usize>::empty());
        }
        let mut i: usize = 0;
        while i < comments.len()
            invariant
                cv == comments_view(comments@),
                cv == file@.extracted.comments,
                path@ == file@.display_path,
                i <= comments@.len(),
                biome_run(path@, cv.take(i as int)) == (OpenState { out: directives_view(out@), open: open@ }),
                forall|k: int| 0 <= k < open@.len() ==> open@[k] < out@.len(),
            decreases comments@.len() - i,
        {
            let c = &comments[i];
            proof {
                assert(cv.take(i + 1).drop_last() =~= cv.take(i as int));
                assert(cv.take(i + 1).last() == c@);
            }
            let text = chars_of(c.text.as_str());
            let found = if c.leading { parsed_vec(&text) } else { None };
            match found {
                None => {},
                Some((kind, rules, reason)) => {
                    if kind == Kind::End {
                        close_range(&mut out, &mut open, &rules, c.line);
                    } else {
                        if kind == Kind::Start {
                            open.push(out.len());
                        }
                        let scope = match kind {
                            Kind::One => Scope::NextLine,
                            Kind::All => Scope::File,
                            _ => Scope::Block,
                        };
                        let sup = match kind {
                            Kind::One => after_exec(c.end_line),
                            Kind::All => whole_file_exec(),
                            _ => Suppressed { start_line: c.line, end_line: None },
                        };
                        let d = make(Tool::Biome, scope, rules, Some(reason), path, c.line, c.end_line, c.column, c.raw.clone(), sup);
                        let ghost before = directives_view(out@);
                        out.push(d);
                        proof { assert(directives_view(out@) =~= before.push(d@)); }
                    }
                },
            }
            i = i + 1;
        }
        proof { assert(cv.take(cv.len() as int) =~= cv); }
        out
    }
}

impl ToolParser for BiomeParser {
    fn tool(&self) -> (t: Tool)
        ensures
            t == Tool::Biome,
    {
        Tool::Biome
    }

    fn applies_to(&self, file: &SourceFile) -> (b: bool)
        ensures
            b == (file@.language == Language::JavaScript || file@.language == Language::TypeScript),
    {
        file.language() == Language::JavaScript || file.language() == Language::TypeScript
    }

    fn parse(&self, file: &SourceFile) -> (r: Vec<IgnoreDirective>)
        ensures
            directives_view(r@) == biome_parse_spec(file@),
    {
        self.parse_file(file)
    }
}

} // verus!
