//! ESLint (`// eslint-disable-next-line`) suppression parsing.
//!
//! | Source | Scope | Rules |
//! | --- | --- | --- |
//! | `// eslint-disable-line` | line | *(blanket)* |
//! | `// eslint-disable-line no-alert` | line | `no-alert` |
//! | `// eslint-disable-next-line no-alert, no-console` | next-line | both |
//! | `/* eslint-disable */` … `/* eslint-enable */` | block | *(blanket)* |
//! | `/* eslint-disable no-alert */` … | block | `no-alert` |
//!
//! `eslint-disable` and `eslint-enable` count in block comments only; the
//! directive must open the comment; rules split on commas only; the reason is
//! the ` -- ` description. An `eslint-enable` closes every open block whose
//! rules it puts fully back on, and is not itself reported.

use vstd::prelude::*;

use crate::comments::{Comment, CommentKind, CommentView, comments_view};
use crate::model::{
    DirectiveView, IgnoreDirective, Scope, Suppressed, Tool, directives_view, strings_view,
    opt_string_view, normalized, normalize_chars,
};
use crate::source::{Language, SourceFile, SourceView};
use crate::text::{
    chars_of, slice, is_ws, is_whitespace, trim, trim_vec, strip_prefix, strip_prefix_vec,
    find_from, find_from_vec, lemma_find_from, split_trimmed, split_trimmed_vec, to_string,
};
use crate::tools::{ToolParser, OpenState, closed_at, dv, just, after, just_exec, after_exec, make};

verus! {

/// Parses ESLint's `eslint-disable` family out of JavaScript and TypeScript.
#[derive(Debug, Clone, Copy, Default)]
pub struct EslintParser;

/// The four directive keywords.
#[derive(Debug, Clone, Copy, PartialEq, Eq, Structural)]
pub enum Kind {
    Disable,
    Enable,
    DisableLine,
    DisableNextLine,
}

/// `eslint-disable` / `eslint-enable` are honoured in block comments only.
pub open spec fn allowed_in(kind: Kind, ck: CommentKind) -> bool {
    match kind {
        Kind::Disable | Kind::Enable => ck == CommentKind::Block,
        _ => true,
    }
}

/// The first index at or after `i` not holding a dash.
pub open spec fn dash_end(t: Seq<char>, i: int) -> int
    decreases t.len() - i,
{
    if 0 <= i < t.len() && t[i] == '-' {
        dash_end(t, i + 1)
    } else {
        i
    }
}

pub proof fn lemma_dash_end(t: Seq<char>, i: int)
    requires
        0 <= i <= t.len(),
    ensures
        i <= dash_end(t, i) <= t.len(),
    decreases t.len() - i,
{
    if i < t.len() && t[i] == '-' {
        lemma_dash_end(t, i + 1);
    }
}

/// The first ` -- ` separator (whitespace, two or more dashes, whitespace)
/// from `cursor` on, as the span of its dashes.
pub open spec fn desc_from(t: Seq<char>, cursor: int) -> Option<(int, int)>
    decreases t.len() - cursor,
{
    if cursor < 0 || cursor > t.len() {
        None
    } else {
        match find_from(t, seq!['-', '-'], cursor) {
            None => None,
            Some(start) => {
                let end = dash_end(t, start);
                if start > 0 && is_ws(t[start - 1]) && end < t.len() && is_ws(t[end]) {
                    Some((start, end))
                } else if start < cursor || start >= t.len() {
                    None
                } else {
                    desc_from(t, start + 1)
                }
            },
        }
    }
}

/// A directive comment split at ESLint's ` -- ` description separator.
pub open spec fn split_desc(t: Seq<char>) -> (Seq<char>, Option<Seq<char>>) {
    match desc_from(t, 0) {
        Some((start, end)) => (t.subrange(0, start), Some(t.subrange(end, t.len() as int))),
        None => (t, None),
    }
}

/// The text after `kw` at the front of `head`, at a word boundary.
pub open spec fn kw_rest(head: Seq<char>, kw: Seq<char>) -> Option<Seq<char>> {
    match strip_prefix(head, kw) {
        Some(rest) => if rest.len() == 0 || is_ws(rest[0]) { Some(rest) } else { None },
        None => None,
    }
}

/// The keyword that opens `head`, longest first.
pub open spec fn find_kw(head: Seq<char>) -> Option<(Kind, Seq<char>)> {
    match kw_rest(head, "eslint-disable-next-line"@) {
        Some(r) => Some((Kind::DisableNextLine, r)),
        None => match kw_rest(head, "eslint-disable-line"@) {
            Some(r) => Some((Kind::DisableLine, r)),
            None => match kw_rest(head, "eslint-disable"@) {
                Some(r) => Some((Kind::Disable, r)),
                None => match kw_rest(head, "eslint-enable"@) {
                    Some(r) => Some((Kind::Enable, r)),
                    None => None,
                },
            },
        },
    }
}

/// The directive that opens a comment whose body is `text`: its kind, rules
/// and reason.
pub open spec fn eslint_parsed(text: Seq<char>, ck: CommentKind) -> Option<(Kind, Seq<Seq<char>>, Option<Seq<char>>)> {
    let (head, desc) = split_desc(text);
    match find_kw(trim(head)) {
        None => None,
        Some((kind, rest)) => if !allowed_in(kind, ck) {
            None
        } else {
            Some((kind, split_trimmed(rest, ','), match desc {
                Some(d) => normalized(d),
                None => None,
            }))
        },
    }
}

/// True when the text after a `//` opens an ESLint directive.
pub open spec fn eslint_opens(after_marker: Seq<char>) -> bool {
    eslint_parsed(after_marker, CommentKind::Line) is Some
}

pub open spec fn kind_scope(kind: Kind) -> Scope {
    match kind {
        Kind::DisableLine => Scope::Line,
        Kind::DisableNextLine => Scope::NextLine,
        _ => Scope::Block,
    }
}

/// `disable-line` covers the line the comment starts on, `disable-next-line`
/// the line after it ends; a block runs to end-of-file until closed.
pub open spec fn kind_range(kind: Kind, c: CommentView) -> Suppressed {
    match kind {
        Kind::DisableLine => just(c.line),
        Kind::DisableNextLine => after(c.end_line),
        _ => Suppressed { start_line: c.line, end_line: None },
    }
}

/// Whether an enable naming `e` puts back on everything a disable naming `d`
/// silenced.
pub open spec fn closes(d: Seq<Seq<char>>, e: Seq<Seq<char>>) -> bool {
    e.len() == 0 || (d.len() > 0 && forall|k: int| 0 <= k < d.len() ==> e.contains(#[trigger] d[k]))
}

/// An enable naming `e` on `line`: every open block it puts fully back on ends
/// there and leaves the open list.
pub open spec fn close_spec(st: OpenState, e: Seq<Seq<char>>, line: u32) -> OpenState {
    OpenState {
        out: Seq::new(
            st.out.len(),
            |j: int|
                if st.open.contains(j as usize) && closes(st.out[j].rules, e) {
                    closed_at(st.out[j], line)
                } else {
                    st.out[j]
                },
        ),
        open: st.open.filter(|i: usize| !closes(st.out[i as int].rules, e)),
    }
}

/// An enable naming the rules `e` on `line` closes an open block exactly when
/// it is blanket, or when the block named rules and every one of them is among
/// `e`, whatever else `e` names: such a block then ends on `line` and nothing
/// else about it changes. Any other record is left as it was.
pub proof fn law_enable_closes_the_blocks_it_covers(st: OpenState, e: Seq<Seq<char>>, line: u32, j: int)
    requires
        0 <= j < st.out.len(),
    ensures
        ({
            let d = st.out[j].rules;
            let after = close_spec(st, e, line).out[j];
            let covered = e.len() == 0 || (d.len() > 0 && forall|k: int| 0 <= k < d.len() ==> e.contains(#[trigger] d[k]));
            &&& (st.open.contains(j as usize) && covered) ==> after == DirectiveView {
                suppressed: Suppressed { start_line: st.out[j].suppressed.start_line, end_line: Some(line) },
                ..st.out[j]
            }
            &&& !(st.open.contains(j as usize) && covered) ==> after == st.out[j]
        }),
        close_spec(st, e, line).out.len() == st.out.len(),
{
}

/// One comment's effect on the state.
pub open spec fn eslint_step(path: Seq<char>, st: OpenState, c: CommentView) -> OpenState {
    match eslint_parsed(c.text, c.kind) {
        None => st,
        Some((kind, rules, reason)) => if kind == Kind::Enable {
            close_spec(st, rules, c.line)
        } else {
            OpenState {
                out: st.out.push(
                    dv(Tool::Eslint, kind_scope(kind), rules, reason, path, c.line, c.end_line, c.column, c.raw, kind_range(kind, c)),
                ),
                open: if kind == Kind::Disable { st.open.push(st.out.len() as usize) } else { st.open },
            }
        },
    }
}

/// The state after the comments `cs`, in order.
pub open spec fn eslint_run(path: Seq<char>, cs: Seq<CommentView>) -> OpenState
    decreases cs.len(),
{
    if cs.len() == 0 {
        OpenState { out: Seq::empty(), open: Seq::empty() }
    } else {
        eslint_step(path, eslint_run(path, cs.drop_last()), cs.last())
    }
}

/// Every ESLint record in a file, in source order, each block closed where an
/// enable puts it back on.
pub open spec fn eslint_parse_spec(f: SourceView) -> Seq<DirectiveView> {
    eslint_run(f.display_path, f.extracted.comments).out
}

fn dash_end_exec(t: &Vec<char>, i: usize) -> (r: usize)
    requires
        i <= t@.len(),
    ensures
        r == dash_end(t@, i as int),
        i <= r <= t@.len(),
{
    proof { lemma_dash_end(t@, i as int); }
    let mut j = i;
    while j < t.len() && t[j] == '-'
        invariant
            i <= j <= t@.len(),
            dash_end(t@, j as int) == dash_end(t@, i as int),
        decreases t@.len() - j,
    {
        j = j + 1;
    }
    j
}

/// Split a directive comment at ESLint's ` -- ` description separator.
fn split_description_vec(t: &Vec<char>) -> (r: (Vec<char>, Option<Vec<char>>))
    ensures
        r.0@ == split_desc(t@).0,
        r.1.is_some() == split_desc(t@).1.is_some(),
        r.1.is_some() ==> r.1.unwrap()@ == split_desc(t@).1.unwrap(),
{
    let dashes = vec!['-', '-'];
    proof { assert(dashes@ =~= seq!['-', '-']); }
    let n = t.len();
    let mut cursor: usize = 0;
    while cursor <= n
        invariant
            n == t@.len(),
            cursor <= t@.len() + 1,
            dashes@ == seq!['-', '-'],
            desc_from(t@, 0) == desc_from(t@, cursor as int),
        decreases t@.len() + 1 - cursor,
    {
        match find_from_vec(t, &dashes, cursor) {
            None => {
                return (slice(t, 0, t.len()), None);
            },
            Some(start) => {
                proof { lemma_find_from(t@, seq!['-', '-'], cursor as int); }
                let end = dash_end_exec(t, start);
                if start > 0 && is_whitespace(t[start - 1]) && end < t.len() && is_whitespace(t[end]) {
                    return (slice(t, 0, start), Some(slice(t, end, t.len())));
                }
                cursor = start + 1;
            },
        }
    }
    proof { assert(desc_from(t@, cursor as int) is None); }
    (slice(t, 0, t.len()), None)
}

/// Split directive text at ESLint's ` -- ` description separator: the first
/// run of two or more dashes with whitespace on both sides.
pub fn split_description(text: &str) -> (r: (String, Option<String>))
    ensures
        r.0@ == split_desc(text@).0,
        crate::model::opt_string_view(r.1) == split_desc(text@).1,
{
    let (head, desc) = split_description_vec(&chars_of(text));
    (to_string(&head), match desc {
        Some(d) => Some(to_string(&d)),
        None => None,
    })
}

fn kw_rest_vec(head: &Vec<char>, kw: &str) -> (r: Option<Vec<char>>)
    ensures
        r.is_some() == kw_rest(head@, kw@).is_some(),
        r.is_some() ==> r.unwrap()@ == kw_rest(head@, kw@).unwrap(),
{
    let k = chars_of(kw);
    match strip_prefix_vec(head, &k) {
        Some(rest) => if rest.len() == 0 || is_whitespace(rest[0]) { Some(rest) } else { None },
        None => None,
    }
}

fn find_kw_vec(head: &Vec<char>) -> (r: Option<(Kind, Vec<char>)>)
    ensures
        match (r, find_kw(head@)) {
            (Some((k, rest)), Some((kv, rv))) => k == kv && rest@ == rv,
            (None, None) => true,
            _ => false,
        },
{
    match kw_rest_vec(head, "eslint-disable-next-line") {
        Some(r) => { return Some((Kind::DisableNextLine, r)); },
        None => {},
    }
    match kw_rest_vec(head, "eslint-disable-line") {
        Some(r) => { return Some((Kind::DisableLine, r)); },
        None => {},
    }
    match kw_rest_vec(head, "eslint-disable") {
        Some(r) => { return Some((Kind::Disable, r)); },
        None => {},
    }
    match kw_rest_vec(head, "eslint-enable") {
        Some(r) => Some((Kind::Enable, r)),
        None => None,
    }
}

fn parsed_vec(text: &Vec<char>, ck: CommentKind) -> (r: Option<(Kind, Vec<String>, Option<String>)>)
    ensures
        match (r, eslint_parsed(text@, ck)) {
            (Some((k, rules, reason)), Some((kv, rv, rr))) => k == kv && strings_view(rules@) == rv && opt_string_view(reason) == rr,
            (None, None) => true,
            _ => false,
        },
{
    let (head, desc) = split_description_vec(text);
    match find_kw_vec(&trim_vec(&head)) {
        None => None,
        Some((kind, rest)) => {
            let allowed = match kind {
                Kind::Disable | Kind::Enable => ck == CommentKind::Block,
                _ => true,
            };
            if !allowed {
                return None;
            }
            let rules = split_trimmed_vec(&rest, ',');
            let reason = match desc {
                Some(d) => normalize_chars(&d),
                None => None,
            };
            Some((kind, rules, reason))
        },
    }
}

/// True when the text after a `//` opens an ESLint directive.
pub fn opens_directive(after_marker: &Vec<char>) -> (b: bool)
    ensures
        b == eslint_opens(after_marker@),
{
    parsed_vec(after_marker, CommentKind::Line).is_some()
}

/// Whether an enable naming `e` puts back on everything `d` silenced.
fn closes_exec(d: &Vec<String>, e: &Vec<String>) -> (b: bool)
    ensures
        b == closes(strings_view(d@), strings_view(e@)),
{
    if e.len() == 0 {
        return true;
    }
    if d.len() == 0 {
        return false;
    }
    let ghost dv = strings_view(d@);
    let ghost ev = strings_view(e@);
    let mut k: usize = 0;
    while k < d.len()
        invariant
            dv == strings_view(d@),
            ev == strings_view(e@),
            e@.len() > 0,
            d@.len() > 0,
            k <= d@.len(),
            forall|m: int| 0 <= m < k ==> ev.contains(#[trigger] dv[m]),
        decreases d@.len() - k,
    {
        let mut found = false;
        let mut m: usize = 0;
        while m < e.len()
            invariant
                dv == strings_view(d@),
                ev == strings_view(e@),
                k < d@.len(),
                m <= e@.len(),
                found ==> ev.contains(dv[k as int]),
                !found ==> forall|x: int| 0 <= x < m ==> ev[x] != dv[k as int],
            decreases e@.len() - m,
        {
            if e[m] == d[k] {
                found = true;
                proof { assert(ev[m as int] == dv[k as int]); }
            }
            m = m + 1;
        }
        if !found {
            proof {
                assert(!ev.contains(dv[k as int]));
                assert(!closes(dv, ev));
            }
            return false;
        }
        k = k + 1;
    }
    true
}

proof fn lemma_take_succ_contains(s: Seq<usize>, j: int, x: usize)
    requires
        0 <= j < s.len(),
    ensures
        s.take(j + 1).contains(x) <==> (s.take(j).contains(x) || s[j] == x),
{
    if s.take(j + 1).contains(x) {
        let w = choose|w: int| 0 <= w < s.take(j + 1).len() && #[trigger] s.take(j + 1)[w] == x;
        if w < j {
            assert(s.take(j)[w] == x);
        }
    }
    if s.take(j).contains(x) {
        let w = choose|w: int| 0 <= w < s.take(j).len() && #[trigger] s.take(j)[w] == x;
        assert(s.take(j + 1)[w] == x);
    }
    if s[j] == x {
        assert(s.take(j + 1)[j] == x);
    }
}

/// Close every open block that an enable naming `enable` puts fully back on.
fn close_blocks(out: &mut Vec<IgnoreDirective>, open: &mut Vec<usize>, enable: &Vec<String>, line: u32)
    requires
        forall|k: int| 0 <= k < old(open)@.len() ==> old(open)@[k] < old(out)@.len(),
    ensures
        directives_view(final(out)@) == close_spec(
            OpenState { out: directives_view(old(out)@), open: old(open)@ },
            strings_view(enable@),
            line,
        ).out,
        final(open)@ == close_spec(
            OpenState { out: directives_view(old(out)@), open: old(open)@ },
            strings_view(enable@),
            line,
        ).open,
        forall|k: int| 0 <= k < final(open)@.len() ==> final(open)@[k] < final(out)@.len(),
{
    let ghost orig = directives_view(out@);
    let ghost ops = open@;
    let ghost e = strings_view(enable@);
    let ghost pred = |i: usize| !closes(orig[i as int].rules, e);
    proof { assert(orig.len() == out.len()); }
    let mut kept: Vec<usize> = Vec::new();
    let mut j: usize = 0;
    while j < open.len()
        invariant
            open@ == ops,
            orig.len() <= usize::MAX,
            e == strings_view(enable@),
            pred == (|i: usize| !closes(orig[i as int].rules, e)),
            forall|k: int| 0 <= k < ops.len() ==> ops[k] < orig.len(),
            out@.len() == orig.len(),
            j <= ops.len(),
            forall|x: int|
                0 <= x < orig.len() ==> #[trigger] directives_view(out@)[x] == if ops.take(j as int).contains(
                    x as usize,
                ) && closes(orig[x].rules, e) {
                    closed_at(orig[x], line)
                } else {
                    orig[x]
                },
            kept@ == ops.take(j as int).filter(pred),
            forall|k: int| 0 <= k < kept@.len() ==> kept@[k] < orig.len(),
        decreases ops.len() - j,
    {
        let idx = open[j];
        proof {
            assert(ops.take(j + 1) =~= ops.take(j as int).push(idx));
            ops.take(j as int).lemma_filter_push(idx, pred);
            assert(directives_view(out@)[idx as int] == out@[idx as int]@);
        }
        if closes_exec(&out[idx].rules, enable) {
            proof {
                assert(directives_view(out@)[idx as int].rules == orig[idx as int].rules);
                assert(closes(orig[idx as int].rules, e));
            }
            let mut d = out[idx].copy();
            d.suppressed = Suppressed { start_line: d.suppressed.start_line, end_line: Some(line) };
            let ghost prev = directives_view(out@);
            out.set(idx, d);
            proof {
                assert forall|x: int| 0 <= x < orig.len() implies #[trigger] directives_view(out@)[x] == if ops.take(
                    j + 1,
                ).contains(x as usize) && closes(orig[x].rules, e) {
                    closed_at(orig[x], line)
                } else {
                    orig[x]
                } by {
                    assert(directives_view(out@)[x] == out@[x]@);
                    assert(prev[x] == if ops.take(j as int).contains(x as usize) && closes(orig[x].rules, e) {
                        closed_at(orig[x], line)
                    } else {
                        orig[x]
                    });
                    lemma_take_succ_contains(ops, j as int, x as usize);
                }
            }
        } else {
            kept.push(idx);
            proof {
                assert forall|x: int| 0 <= x < orig.len() implies #[trigger] directives_view(out@)[x] == if ops.take(
                    j + 1,
                ).contains(x as usize) && closes(orig[x].rules, e) {
                    closed_at(orig[x], line)
                } else {
                    orig[x]
                } by {
                    lemma_take_succ_contains(ops, j as int, x as usize);
                }
            }
        }
        j = j + 1;
    }
    proof {
        assert(ops.take(ops.len() as int) =~= ops);
        assert(directives_view(out@) =~= close_spec(OpenState { out: orig, open: ops }, e, line).out);
    }
    *open = kept;
}

impl EslintParser {
    /// Every ESLint directive in `file`, in source order.
    pub fn parse_file(&self, file: &SourceFile) -> (r: Vec<IgnoreDirective>)
        ensures
            directives_view(r@) == eslint_parse_spec(file@),
    {
        let comments = file.comments();
        let path = file.display_path();
        let ghost cv = comments_view(comments@);
        let mut out: Vec<IgnoreDirective> = Vec::new();
        let mut open: Vec<usize> = Vec::new();
        proof {
            assert(cv.take(0) =~= Seq::<CommentView>::empty());
            assert(directives_view(out@) =~= Seq::<DirectiveView>::empty());
            assert(open@ =~= Seq::<usize>::empty());
        }
        let mut i: usize = 0;
        while i < comments.len()
            invariant
                cv == comments_view(comments@),
                cv == file@.extracted.comments,
                path@ == file@.display_path,
                i <= comments@.len(),
                eslint_run(path@, cv.take(i as int)) == (OpenState { out: directives_view(out@), open: open@ }),
                forall|k: int| 0 <= k < open@.len() ==> open@[k] < out@.len(),
            decreases comments@.len() - i,
        {
            let c = &comments[i];
            proof {
                assert(cv.take(i + 1).drop_last() =~= cv.take(i as int));
                assert(cv.take(i + 1).last() == c@);
            }
            let text = chars_of(c.text.as_str());
            match parsed_vec(&text, c.kind) {
                None => {},
                Some((kind, rules, reason)) => {
                    if kind == Kind::Enable {
                        close_blocks(&mut out, &mut open, &rules, c.line);
                    } else {
                        if kind == Kind::Disable {
                            open.push(out.len());
                        }
                        let scope = match kind {
                            Kind::DisableLine => Scope::Line,
                            Kind::DisableNextLine => Scope::NextLine,
                            _ => Scope::Block,
                        };
                        let sup = match kind {
                            Kind::DisableLine => just_exec(c.line),
                            Kind::DisableNextLine => after_exec(c.end_line),
                            _ => Suppressed { start_line: c.line, end_line: None },
                        };
                        let d = make(Tool::Eslint, scope, rules, reason, path, c.line, c.end_line, c.column, c.raw.clone(), sup);
                        let ghost before = directives_view(out@);
                        out.push(d);
                        proof { assert(directives_view(out@) =~= before.push(d@)); }
                    }
                },
            }
            i = i + 1;
        }
        proof { assert(cv.take(cv.len() as int) =~= cv); }
        out
    }
}

impl ToolParser for EslintParser {
    fn tool(&self) -> (t: Tool)
        ensures
            t == Tool::Eslint,
    {
        Tool::Eslint
    }

    fn applies_to(&self, file: &SourceFile) -> (b: bool)
        ensures
            b == (file@.language == Language::JavaScript || file@.language == Language::TypeScript),
    {
        file.language() == Language::JavaScript || file.language() == Language::TypeScript
    }

    fn parse(&self, file: &SourceFile) -> (r: Vec<IgnoreDirective>)
        ensures
            directives_view(r@) == eslint_parse_spec(file@),
    {
        self.parse_file(file)
    }
}

} // verus!
