//! llmlint suppression parsing.
//!
//! Each form is written after the keyword and a colon, inside whatever
//! comment syntax the host language uses:
//!
//! | Form | Scope | Rules | Reason |
//! | --- | --- | --- | --- |
//! | `ignore[rule] why` | line | `rule` | `why` |
//! | `ignore-file[a, b] why` | file | `a`, `b` | `why` |
//! | `ignore-block[rule] why` … `ignore-end[rule]` | block | `rule` | `why` |
//!
//! Blocks are tracked per rule: an `ignore-end` closes the rules it names and
//! leaves the others open. A block still open at end-of-file keeps its end
//! unknown and raises a report error, which [`LlmlintParser::scan`] returns
//! beside the records.

use vstd::prelude::*;

use crate::comments::{Comment, CommentView, comments_view, sat_u32};
use crate::model::{
    DirectiveView, ErrorView, IgnoreDirective, ReportError, Scope, Suppressed, Tool, debug_quoted,
    debug_str, directives_view, errors_view, strings_view, opt_string_view, normalized,
    normalize_chars,
};
use crate::source::{Language, SourceFile, SourceView};
use crate::text::{
    chars_of, slice, to_string, trim_start, trim_start_vec, trim_end, trim_end_vec, strip_prefix,
    strip_prefix_vec, strip_suffix, strip_suffix_vec, starts_with, ends_with, split_char,
    split_char_vec, chars_view, split_once, split_once_vec, split_trimmed, split_trimmed_vec,
    find_from, find_from_vec, lemma_find_from, decimal, push_decimal,
};
use crate::tools::python::{strip_keyword_spec, strip_keyword_vec};
use crate::tools::{ToolParser, dv, whole_file, just, whole_file_exec, just_exec, make};

verus! {

/// The keyword every llmlint directive opens with.
pub const KEYWORD: &'static str = "llmlint";

/// The keyword, as characters.
pub open spec fn keyword() -> Seq<char> {
    seq!['l', 'l', 'm', 'l', 'i', 'n', 't']
}

/// Everything [`LlmlintParser::scan`] found in one file.
#[derive(Debug, Clone, PartialEq, Eq)]
pub struct Scanned {
    /// Directives, in source order.
    pub directives: Vec<IgnoreDirective>,
    /// Blocks left open at end-of-file.
    pub errors: Vec<ReportError>,
}

impl Scanned {
    /// Nothing found.
    pub fn default() -> (s: Scanned)
        ensures
            s.directives@.len() == 0,
            s.errors@.len() == 0,
    {
        Scanned { directives: Vec::new(), errors: Vec::new() }
    }
}

/// Parses llmlint's `ignore` family out of any language's comments.
#[derive(Debug, Clone, Copy, Default)]
pub struct LlmlintParser;

/// Which `ignore` form a directive uses.
#[derive(Debug, Clone, Copy, PartialEq, Eq, Structural)]
pub enum Verb {
    /// `ignore`: the line the directive sits on.
    Line,
    /// `ignore-file`: the whole file.
    File,
    /// `ignore-block`: up to the matching `ignore-end`.
    Block,
    /// `ignore-end`: closes an open block; not a record of its own.
    End,
}

pub open spec fn verb_scope(v: Verb) -> Scope {
    match v {
        Verb::File => Scope::File,
        Verb::Block => Scope::Block,
        _ => Scope::Line,
    }
}

pub open spec fn ll_range(scope: Scope, line: u32) -> Suppressed {
    match scope {
        Scope::File => whole_file(),
        Scope::Block => Suppressed { start_line: line, end_line: None },
        _ => just(line),
    }
}

/// The verb at the front of `rest`, longest first, and the text after it.
pub open spec fn find_verb(rest: Seq<char>) -> Option<(Verb, Seq<char>)> {
    match strip_keyword_spec(rest, "ignore-block"@) {
        Some(t) => Some((Verb::Block, t)),
        None => match strip_keyword_spec(rest, "ignore-file"@) {
            Some(t) => Some((Verb::File, t)),
            None => match strip_keyword_spec(rest, "ignore-end"@) {
                Some(t) => Some((Verb::End, t)),
                None => match strip_keyword_spec(rest, "ignore"@) {
                    Some(t) => Some((Verb::Line, t)),
                    None => None,
                },
            },
        },
    }
}

/// `: <verb>[<rules>] <reason>` parsed from the text just after the keyword;
/// `None` without a named rule.
pub open spec fn ll_body(after_keyword: Seq<char>) -> Option<(Verb, Seq<Seq<char>>, Option<Seq<char>>)> {
    match strip_prefix(after_keyword, seq![':']) {
        None => None,
        Some(a) => match find_verb(trim_start(a)) {
            None => None,
            Some((verb, after_verb)) => match strip_prefix(trim_start(after_verb), seq!['[']) {
                None => None,
                Some(b) => match split_once(b, ']') {
                    None => None,
                    Some((list, after_rules)) => if split_trimmed(list, ',').len() == 0 {
                        None
                    } else {
                        Some((verb, split_trimmed(list, ','), normalized(after_rules)))
                    },
                },
            },
        },
    }
}

/// The first directive on `t` at or after `i`: where its keyword starts, its
/// verb, rules and reason.
pub open spec fn ll_find_from(t: Seq<char>, i: int) -> Option<(int, Verb, Seq<Seq<char>>, Option<Seq<char>>)>
    decreases t.len() - i,
{
    if i < 0 || i > t.len() {
        None
    } else {
        match find_from(t, keyword(), i) {
            None => None,
            Some(start) => match ll_body(t.subrange(start + 7, t.len() as int)) {
                Some((verb, rules, reason)) => Some((start, verb, rules, reason)),
                None => if start < i || start + 7 > t.len() {
                    None
                } else {
                    ll_find_from(t, start + 7)
                },
            },
        }
    }
}

/// Each physical line of a comment, as its line, the column of its first
/// character, and its text; a block comment's closing `*/` dropped.
pub open spec fn ll_lines(c: CommentView) -> Seq<(u32, u32, Seq<char>)> {
    let body = if starts_with(c.raw, "/*"@) && ends_with(c.raw, "*/"@) {
        c.raw.subrange(0, c.raw.len() - 2)
    } else {
        c.raw
    };
    let pieces = split_char(body, '\n');
    Seq::new(
        pieces.len(),
        |k: int|
            (
                sat_u32(c.line + k),
                if k == 0 { c.column } else { 1u32 },
                match strip_suffix(pieces[k], seq!['\r']) {
                    Some(t) => t,
                    None => pieces[k],
                },
            ),
    )
}

/// The records so far, and the open blocks: one `(rule, record index)` per
/// rule, in the order they were opened.
pub struct LlState {
    pub out: Seq<DirectiveView>,
    pub open: Seq<(Seq<char>, usize)>,
}

/// A block record whose last open rule an end on `line` closes: it ends there.
pub open spec fn ext(d: DirectiveView, line: u32) -> DirectiveView {
    DirectiveView { suppressed: Suppressed { start_line: d.suppressed.start_line, end_line: Some(line) }, ..d }
}

/// Whether an end naming `rules` leaves some rule of record `idx` open:
/// blocks are tracked per rule, so a record closes only with its last rule.
pub open spec fn survives(open: Seq<(Seq<char>, usize)>, rules: Seq<Seq<char>>, idx: usize) -> bool {
    exists|i: int| 0 <= i < open.len() && (#[trigger] open[i]).1 == idx && !rules.contains(open[i].0)
}

/// The first `j` open blocks run past an end naming `rules` on `line`: the
/// records all of whose rules are now closed end there, and the blocks the
/// end did not name stay open.
pub open spec fn ll_close_upto(
    out: Seq<DirectiveView>,
    open: Seq<(Seq<char>, usize)>,
    rules: Seq<Seq<char>>,
    line: u32,
    j: int,
) -> (Seq<DirectiveView>, Seq<(Seq<char>, usize)>)
    decreases j,
{
    if j <= 0 || j > open.len() {
        (out, Seq::empty())
    } else {
        let prev = ll_close_upto(out, open, rules, line, j - 1);
        let e = open[j - 1];
        if rules.contains(e.0) {
            if (e.1 as int) < prev.0.len() && !survives(open, rules, e.1) {
                (prev.0.update(e.1 as int, ext(prev.0[e.1 as int], line)), prev.1)
            } else {
                prev
            }
        } else {
            (prev.0, prev.1.push(e))
        }
    }
}

/// Whether a block for `rule` is open.
pub open spec fn has_rule(open: Seq<(Seq<char>, usize)>, rule: Seq<char>) -> bool {
    exists|k: int| 0 <= k < open.len() && (#[trigger] open[k]).0 == rule
}

/// The open blocks after a block record at `idx` opens the first `j` of its
/// rules that are not open already.
pub open spec fn ll_open_upto(open: Seq<(Seq<char>, usize)>, rules: Seq<Seq<char>>, idx: usize, j: int) -> Seq<(Seq<char>, usize)>
    decreases j,
{
    if j <= 0 || j > rules.len() {
        open
    } else {
        let prev = ll_open_upto(open, rules, idx, j - 1);
        if has_rule(prev, rules[j - 1]) {
            prev
        } else {
            prev.push((rules[j - 1], idx))
        }
    }
}

/// One comment line's effect on the state.
pub open spec fn ll_line_step(path: Seq<char>, st: LlState, l: (u32, u32, Seq<char>)) -> LlState {
    let (line, column, text) = l;
    match ll_find_from(text, 0) {
        None => st,
        Some((start, verb, rules, reason)) => if verb == Verb::End {
            let r = ll_close_upto(st.out, st.open, rules, line, st.open.len() as int);
            LlState { out: r.0, open: r.1 }
        } else {
            let scope = verb_scope(verb);
            LlState {
                out: st.out.push(
                    dv(
                        Tool::Llmlint,
                        scope,
                        rules,
                        reason,
                        path,
                        line,
                        line,
                        sat_u32(column + start),
                        trim_end(text.subrange(start, text.len() as int)),
                        ll_range(scope, line),
                    ),
                ),
                open: if scope == Scope::Block {
                    ll_open_upto(st.open, rules, st.out.len() as usize, rules.len() as int)
                } else {
                    st.open
                },
            }
        },
    }
}

/// The state after the lines `ls`, in order.
pub open spec fn ll_fold(path: Seq<char>, st: LlState, ls: Seq<(u32, u32, Seq<char>)>) -> LlState
    decreases ls.len(),
{
    if ls.len() == 0 {
        st
    } else {
        ll_line_step(path, ll_fold(path, st, ls.drop_last()), ls.last())
    }
}

/// The state after the comments `cs`, line by line.
pub open spec fn ll_run(path: Seq<char>, cs: Seq<CommentView>) -> LlState
    decreases cs.len(),
{
    if cs.len() == 0 {
        LlState { out: Seq::empty(), open: Seq::empty() }
    } else {
        ll_fold(path, ll_run(path, cs.drop_last()), ll_lines(cs.last()))
    }
}

/// The error an unclosed block for `rule` opened on `line` raises.
pub open spec fn unclosed_message(rule: Seq<char>, line: u32) -> Seq<char> {
    "unclosed llmlint ignore-block for rule "@ + debug_quoted(rule) + " opened at line "@ + decimal(
        line as nat,
    ) + "; add a matching `llmlint: ignore-end["@ + rule + "]`"@
}

/// Every llmlint record in a file, in source order.
pub open spec fn ll_records(f: SourceView) -> Seq<DirectiveView> {
    ll_run(f.display_path, f.extracted.comments).out
}

/// The errors for the first `j` blocks still open in `st`.
pub open spec fn errors_upto(path: Seq<char>, st: LlState, j: int) -> Seq<ErrorView> {
    Seq::new(
        j as nat,
        |x: int| ErrorView { path, message: unclosed_message(st.open[x].0, st.out[st.open[x].1 as int].line) },
    )
}

/// One error per block left open at end-of-file, in the order they opened.
pub open spec fn ll_errors(f: SourceView) -> Seq<ErrorView> {
    let st = ll_run(f.display_path, f.extracted.comments);
    errors_upto(f.display_path, st, st.open.len() as int)
}

pub open spec fn open_view(v: Seq<(String, usize)>) -> Seq<(Seq<char>, usize)> {
    v.map_values(|e: (String, usize)| (e.0@, e.1))
}

fn find_verb_vec(rest: &Vec<char>) -> (r: Option<(Verb, Vec<char>)>)
    ensures
        match (r, find_verb(rest@)) {
            (Some((v, t)), Some((vv, tv))) => v == vv && t@ == tv,
            (None, None) => true,
            _ => false,
        },
{
    let k = chars_of("ignore-block");
    match strip_keyword_vec(rest, &k) {
        Some(t) => { return Some((Verb::Block, t)); },
        None => {},
    }
    let k = chars_of("ignore-file");
    match strip_keyword_vec(rest, &k) {
        Some(t) => { return Some((Verb::File, t)); },
        None => {},
    }
    let k = chars_of("ignore-end");
    match strip_keyword_vec(rest, &k) {
        Some(t) => { return Some((Verb::End, t)); },
        None => {},
    }
    let k = chars_of("ignore");
    match strip_keyword_vec(rest, &k) {
        Some(t) => Some((Verb::Line, t)),
        None => None,
    }
}

fn body_vec(after_keyword: &Vec<char>) -> (r: Option<(Verb, Vec<String>, Option<String>)>)
    ensures
        match (r, ll_body(after_keyword@)) {
            (Some((v, rules, reason)), Some((vv, rv, rr))) => v == vv && strings_view(rules@) == rv && opt_string_view(reason) == rr,
            (None, None) => true,
            _ => false,
        },
{
    let colon = vec![':'];
    let open = vec!['['];
    proof {
        assert(colon@ =~= seq![':']);
        assert(open@ =~= seq!['[']);
    }
    let a = match strip_prefix_vec(after_keyword, &colon) {
        Some(a) => a,
        None => {
            return None;
        },
    };
    let (verb, after_verb) = match find_verb_vec(&trim_start_vec(&a)) {
        Some(x) => x,
        None => {
            return None;
        },
    };
    let b = match strip_prefix_vec(&trim_start_vec(&after_verb), &open) {
        Some(b) => b,
        None => {
            return None;
        },
    };
    match split_once_vec(&b, ']') {
        None => None,
        Some((list, after_rules)) => {
            let rules = split_trimmed_vec(&list, ',');
            if rules.len() == 0 {
                None
            } else {
                Some((verb, rules, normalize_chars(&after_rules)))
            }
        },
    }
}

/// The first directive on `text`: where its keyword starts, its verb, rules
/// and reason.
fn find_directive(text: &Vec<char>) -> (r: Option<(usize, Verb, Vec<String>, Option<String>)>)
    ensures
        match (r, ll_find_from(text@, 0)) {
            (Some((s, v, rules, reason)), Some((sv, vv, rv, rr))) => s as int == sv && v == vv && strings_view(rules@) == rv
                && opt_string_view(reason) == rr,
            (None, None) => true,
            _ => false,
        },
        r matches Some((s, _, _, _)) ==> s < text@.len(),
{
    let kw = vec!['l', 'l', 'm', 'l', 'i', 'n', 't'];
    proof { assert(kw@ =~= keyword()); }
    let n = text.len();
    let mut searched: usize = 0;
    while searched <= n
        invariant
            n == text@.len(),
            kw@ == keyword(),
            searched <= text@.len() + 1,
            ll_find_from(text@, 0) == ll_find_from(text@, searched as int),
        decreases text@.len() + 1 - searched,
    {
        match find_from_vec(text, &kw, searched) {
            None => {
                return None;
            },
            Some(start) => {
                proof { lemma_find_from(text@, keyword(), searched as int); }
                match body_vec(&slice(text, start + 7, n)) {
                    Some((verb, rules, reason)) => {
                        return Some((start, verb, rules, reason));
                    },
                    None => {},
                }
                searched = start + 7;
            },
        }
    }
    proof { assert(ll_find_from(text@, searched as int) is None); }
    None
}

/// Each physical line of `c`.
fn comment_lines(c: &Comment) -> (r: Vec<(u32, u32, Vec<char>)>)
    ensures
        r@.map_values(|l: (u32, u32, Vec<char>)| (l.0, l.1, l.2@)) == ll_lines(c@),
{
    let raw = chars_of(c.raw.as_str());
    let open = chars_of("/*");
    let close = chars_of("*/");
    let body = if strip_prefix_vec(&raw, &open).is_some() && strip_suffix_vec(&raw, &close).is_some() {
        proof { reveal_strlit("*/"); }
        slice(&raw, 0, raw.len() - 2)
    } else {
        slice(&raw, 0, raw.len())
    };
    proof {
        if !(starts_with(raw@, "/*"@) && ends_with(raw@, "*/"@)) {
            assert(body@ =~= raw@);
        }
    }
    let pieces = split_char_vec(&body, '\n');
    let ghost ps = chars_view(pieces@);
    let cr = vec!['\r'];
    proof { assert(cr@ =~= seq!['\r']); }
    let mut out: Vec<(u32, u32, Vec<char>)> = Vec::new();
    let mut k: usize = 0;
    while k < pieces.len()
        invariant
            ps == chars_view(pieces@),
            ps == split_char(body@, '\n'),
            body@ == (if starts_with(c@.raw, "/*"@) && ends_with(c@.raw, "*/"@) {
                c@.raw.subrange(0, c@.raw.len() - 2)
            } else {
                c@.raw
            }),
            cr@ == seq!['\r'],
            k <= pieces@.len(),
            out@.len() == k,
            forall|x: int| 0 <= x < k ==> (#[trigger] out@[x]).0 == ll_lines(c@)[x].0 && out@[x].1 == ll_lines(c@)[x].1 && out@[x].2@ == ll_lines(c@)[x].2,
        decreases pieces@.len() - k,
    {
        proof { assert(ps[k as int] == pieces@[k as int]@); }
        let line: u32 = if (k as u64) >= (u32::MAX - c.line) as u64 { u32::MAX } else { c.line + k as u32 };
        let column: u32 = if k == 0 { c.column } else { 1 };
        let text = match strip_suffix_vec(&pieces[k], &cr) {
            Some(t) => t,
            None => slice(&pieces[k], 0, pieces[k].len()),
        };
        proof {
            if strip_suffix(ps[k as int], seq!['\r']).is_none() {
                assert(text@ =~= ps[k as int]);
            }
        }
        out.push((line, column, text));
        k = k + 1;
    }
    proof {
        assert(out@.map_values(|l: (u32, u32, Vec<char>)| (l.0, l.1, l.2@)) =~= ll_lines(c@));
    }
    out
}

/// Whether a block for `rule` is open.
fn has_rule_exec(open: &Vec<(String, usize)>, rule: &String) -> (b: bool)
    ensures
        b == has_rule(open_view(open@), rule@),
{
    let ghost ov = open_view(open@);
    let mut k: usize = 0;
    while k < open.len()
        invariant
            ov == open_view(open@),
            k <= open@.len(),
            forall|x: int| 0 <= x < k ==> (#[trigger] ov[x]).0 != rule@,
        decreases open@.len() - k,
    {
        proof { assert(ov[k as int] == (open@[k as int].0@, open@[k as int].1)); }
        if open[k].0 == *rule {
            return true;
        }
        k = k + 1;
    }
    false
}

/// Whether `rules` names `rule`.
fn names(rules: &Vec<String>, rule: &String) -> (b: bool)
    ensures
        b == strings_view(rules@).contains(rule@),
{
    let ghost rv = strings_view(rules@);
    let mut k: usize = 0;
    while k < rules.len()
        invariant
            rv == strings_view(rules@),
            k <= rules@.len(),
            forall|x: int| 0 <= x < k ==> rv[x] != rule@,
        decreases rules@.len() - k,
    {
        if rules[k] == *rule {
            proof { assert(rv[k as int] == rule@); }
            return true;
        }
        k = k + 1;
    }
    false
}

/// Extend every block an end naming `rules` on `line` closes, and drop it from
/// the open set.
fn survives_exec(open: &Vec<(String, usize)>, rules: &Vec<String>, idx: usize) -> (b: bool)
    ensures
        b == survives(open_view(open@), strings_view(rules@), idx),
{
    let ghost ov = open_view(open@);
    let mut i: usize = 0;
    while i < open.len()
        invariant
            ov == open_view(open@),
            i <= ov.len(),
            forall|k: int| 0 <= k < i ==> !((#[trigger] ov[k]).1 == idx && !strings_view(rules@).contains(ov[k].0)),
        decreases ov.len() - i,
    {
        proof { assert(ov[i as int] == (open@[i as int].0@, open@[i as int].1)); }
        if open[i].1 == idx && !names(rules, &open[i].0) {
            return true;
        }
        i = i + 1;
    }
    false
}

fn close_blocks(out: &mut Vec<IgnoreDirective>, open: &mut Vec<(String, usize)>, rules: &Vec<String>, line: u32)
    requires
        forall|k: int| 0 <= k < old(open)@.len() ==> (#[trigger] old(open)@[k]).1 < old(out)@.len(),
    ensures
        directives_view(final(out)@) == ll_close_upto(
            directives_view(old(out)@),
            open_view(old(open)@),
            strings_view(rules@),
            line,
            old(open)@.len() as int,
        ).0,
        open_view(final(open)@) == ll_close_upto(
            directives_view(old(out)@),
            open_view(old(open)@),
            strings_view(rules@),
            line,
            old(open)@.len() as int,
        ).1,
        final(out)@.len() == old(out)@.len(),
        forall|k: int| 0 <= k < final(open)@.len() ==> (#[trigger] final(open)@[k]).1 < final(out)@.len(),
{
    let ghost orig = directives_view(out@);
    let ghost ov = open_view(open@);
    let ghost rv = strings_view(rules@);
    let mut kept: Vec<(String, usize)> = Vec::new();
    let mut j: usize = 0;
    while j < open.len()
        invariant
            ov == open_view(open@),
            rv == strings_view(rules@),
            orig == directives_view(old(out)@),
            ov == open_view(old(open)@),
            open@ == old(open)@,
            forall|k: int| 0 <= k < open@.len() ==> (#[trigger] open@[k]).1 < orig.len(),
            out@.len() == orig.len(),
            j <= open@.len(),
            directives_view(out@) == ll_close_upto(orig, ov, rv, line, j as int).0,
            open_view(kept@) == ll_close_upto(orig, ov, rv, line, j as int).1,
            forall|k: int| 0 <= k < kept@.len() ==> (#[trigger] kept@[k]).1 < orig.len(),
        decreases open@.len() - j,
    {
        let idx = open[j].1;
        proof { assert(ov[j as int] == (open@[j as int].0@, idx)); }
        if names(rules, &open[j].0) {
            if !survives_exec(open, rules, idx) {
                let mut d = out[idx].copy();
                d.suppressed = Suppressed { start_line: d.suppressed.start_line, end_line: Some(line) };
                let ghost prev = directives_view(out@);
                proof { assert(prev[idx as int] == out@[idx as int]@); }
                out.set(idx, d);
                proof { assert(directives_view(out@) =~= prev.update(idx as int, ext(prev[idx as int], line))); }
            }
        } else {
            let ghost before = open_view(kept@);
            let entry = (open[j].0.clone(), idx);
            kept.push(entry);
            proof { assert(open_view(kept@) =~= before.push(ov[j as int])); }
        }
        j = j + 1;
    }
    *open = kept;
}

/// Open a block for each of `rules` not open already, all at record `idx`.
fn open_blocks(open: &mut Vec<(String, usize)>, rules: &Vec<String>, idx: usize)
    ensures
        open_view(final(open)@) == ll_open_upto(open_view(old(open)@), strings_view(rules@), idx, rules@.len() as int),
        forall|k: int| 0 <= k < final(open)@.len() ==> (#[trigger] final(open)@[k]).1 == idx || exists|m: int|
            0 <= m < old(open)@.len() && final(open)@[k] == old(open)@[m],
{
    let ghost o0 = open_view(open@);
    let ghost rv = strings_view(rules@);
    let mut j: usize = 0;
    while j < rules.len()
        invariant
            o0 == open_view(old(open)@),
            rv == strings_view(rules@),
            j <= rules@.len(),
            open_view(open@) == ll_open_upto(o0, rv, idx, j as int),
            forall|k: int| 0 <= k < open@.len() ==> (#[trigger] open@[k]).1 == idx || exists|m: int|
                0 <= m < old(open)@.len() && open@[k] == old(open)@[m],
        decreases rules@.len() - j,
    {
        proof { assert(rv[j as int] == rules@[j as int]@); }
        if !has_rule_exec(open, &rules[j]) {
            let ghost before = open_view(open@);
            let entry = (rules[j].clone(), idx);
            open.push(entry);
            proof { assert(open_view(open@) =~= before.push((rv[j as int], idx))); }
        }
        j = j + 1;
    }
}

/// The error an unclosed block for `rule` opened on `line` raises.
fn unclosed(path: &str, rule: &String, line: u32) -> (e: ReportError)
    ensures
        e@ == (ErrorView { path: path@, message: unclosed_message(rule@, line) }),
{
    let mut m = "unclosed llmlint ignore-block for rule ".to_owned();
    let quoted = debug_str(rule.as_str());
    m.append(quoted.as_str());
    m.append(" opened at line ");
    push_decimal(&mut m, line as u64);
    m.append("; add a matching `llmlint: ignore-end[");
    m.append(rule.as_str());
    m.append("]`");
    ReportError { path: path.to_owned(), message: m }
}

impl LlmlintParser {
    /// Every directive in `file`, plus the blocks left unclosed.
    pub fn scan(&self, file: &SourceFile) -> (s: Scanned)
        ensures
            directives_view(s.directives@) == ll_records(file@),
            errors_view(s.errors@) == ll_errors(file@),
    {
        let comments = file.comments();
        let path = file.display_path();
        let ghost cv = comments_view(comments@);
        let mut out: Vec<IgnoreDirective> = Vec::new();
        let mut open: Vec<(String, usize)> = Vec::new();
        proof {
            assert(cv.take(0) =~= Seq::<CommentView>::empty());
            assert(directives_view(out@) =~= Seq::<DirectiveView>::empty());
            assert(open_view(open@) =~= Seq::<(Seq<char>, usize)>::empty());
        }
        let mut i: usize = 0;
        while i < comments.len()
            invariant
                cv == comments_view(comments@),
                cv == file@.extracted.comments,
                path@ == file@.display_path,
                i <= comments@.len(),
                ll_run(path@, cv.take(i as int)) == (LlState { out: directives_view(out@), open: open_view(open@) }),
                forall|k: int| 0 <= k < open@.len() ==> (#[trigger] open@[k]).1 < out@.len(),
            decreases comments@.len() - i,
        {
            let c = &comments[i];
            proof {
                assert(cv.take(i + 1).drop_last() =~= cv.take(i as int));
                assert(cv.take(i + 1).last() == c@);
            }
            let lines = comment_lines(c);
            let ghost lv = lines@.map_values(|l: (u32, u32, Vec<char>)| (l.0, l.1, l.2@));
            let ghost st0 = LlState { out: directives_view(out@), open: open_view(open@) };
            proof { assert(lv.take(0) =~= Seq::<(u32, u32, Seq<char>)>::empty()); }
            let mut k: usize = 0;
            while k < lines.len()
                invariant
                    lv == lines@.map_values(|l: (u32, u32, Vec<char>)| (l.0, l.1, l.2@)),
                    path@ == file@.display_path,
                    k <= lines@.len(),
                    ll_fold(path@, st0, lv.take(k as int)) == (LlState { out: directives_view(out@), open: open_view(open@) }),
                    forall|x: int| 0 <= x < open@.len() ==> (#[trigger] open@[x]).1 < out@.len(),
                decreases lines@.len() - k,
            {
                let line = lines[k].0;
                let column = lines[k].1;
                let text = &lines[k].2;
                proof {
                    assert(lv.take(k + 1).drop_last() =~= lv.take(k as int));
                    assert(lv.take(k + 1).last() == (line, column, text@));
                }
                match find_directive(text) {
                    None => {},
                    Some((start, verb, rules, reason)) => {
                        if verb == Verb::End {
                            close_blocks(&mut out, &mut open, &rules, line);
                        } else {
                            let scope = match verb {
                                Verb::File => Scope::File,
                                Verb::Block => Scope::Block,
                                _ => Scope::Line,
                            };
                            let idx = out.len();
                            if scope == Scope::Block {
                                open_blocks(&mut open, &rules, idx);
                            }
                            let col: u32 = if (start as u64) >= (u32::MAX - column) as u64 {
                                u32::MAX
                            } else {
                                column + start as u32
                            };
                            let raw = to_string(&trim_end_vec(&slice(text, start, text.len())));
                            let sup = match scope {
                                Scope::File => whole_file_exec(),
                                Scope::Block => Suppressed { start_line: line, end_line: None },
                                _ => just_exec(line),
                            };
                            let d = make(Tool::Llmlint, scope, rules, reason, path, line, line, col, raw, sup);
                            let ghost before = directives_view(out@);
                            out.push(d);
                            proof { assert(directives_view(out@) =~= before.push(d@)); }
                        }
                    },
                }
                k = k + 1;
            }
            proof { assert(lv.take(lv.len() as int) =~= lv); }
            i = i + 1;
        }
        proof { assert(cv.take(cv.len() as int) =~= cv); }
        let ghost fin = LlState { out: directives_view(out@), open: open_view(open@) };
        let mut errors: Vec<ReportError> = Vec::new();
        proof { assert(errors_view(errors@) =~= errors_upto(path@, fin, 0)); }
        let mut k: usize = 0;
        while k < open.len()
            invariant
                fin == (LlState { out: directives_view(out@), open: open_view(open@) }),
                path@ == file@.display_path,
                forall|x: int| 0 <= x < open@.len() ==> (#[trigger] open@[x]).1 < out@.len(),
                k <= open@.len(),
                errors_view(errors@) == errors_upto(path@, fin, k as int),
            decreases open@.len() - k,
        {
            let idx = open[k].1;
            proof {
                assert(fin.open[k as int] == (open@[k as int].0@, idx));
                assert(fin.out[idx as int] == out@[idx as int]@);
            }
            let e = unclosed(path, &open[k].0, out[idx].line);
            let ghost before = errors_view(errors@);
            errors.push(e);
            proof {
                assert(errors_view(errors@) =~= before.push(e@));
                assert(errors_upto(path@, fin, k + 1)[k as int] == e@);
                assert(errors_view(errors@) =~= errors_upto(path@, fin, k + 1));
            }
            k = k + 1;
        }
        Scanned { directives: out, errors }
    }
}

impl ToolParser for LlmlintParser {
    fn tool(&self) -> (t: Tool)
        ensures
            t == Tool::Llmlint,
    {
        Tool::Llmlint
    }

    fn applies_to(&self, file: &SourceFile) -> (b: bool)
        ensures
            b == (file@.language != Language::Unknown),
    {
        file.language().is_scannable()
    }

    fn parse(&self, file: &SourceFile) -> (r: Vec<IgnoreDirective>)
        ensures
            directives_view(r@) == ll_records(file@),
    {
        self.scan(file).directives
    }
}

/// Every open block points at a block record of `out` that names its rule.
pub open spec fn open_ok(st: LlState) -> bool {
    forall|j: int|
        0 <= j < st.open.len() ==> {
            let e = #[trigger] st.open[j];
            &&& (e.1 as int) < st.out.len()
            &&& st.out[e.1 as int].scope == Scope::Block
            &&& st.out[e.1 as int].rules.contains(e.0)
            &&& st.out[e.1 as int].suppressed.end_line is None
        }
}

proof fn lemma_close_keeps(
    out: Seq<DirectiveView>,
    open: Seq<(Seq<char>, usize)>,
    rules: Seq<Seq<char>>,
    line: u32,
    j: int,
)
    requires
        open_ok(LlState { out, open }),
        0 <= j <= open.len(),
    ensures
        ll_close_upto(out, open, rules, line, j).0.len() == out.len(),
        forall|k: int|
            0 <= k < out.len() ==> (#[trigger] ll_close_upto(out, open, rules, line, j).0[k]).scope == out[k].scope
                && ll_close_upto(out, open, rules, line, j).0[k].rules == out[k].rules
                && ll_close_upto(out, open, rules, line, j).0[k].line == out[k].line,
        forall|x: int|
            0 <= x < ll_close_upto(out, open, rules, line, j).1.len() ==> exists|i: int|
                0 <= i < open.len() && open[i] == #[trigger] ll_close_upto(out, open, rules, line, j).1[x]
                    && !rules.contains(open[i].0),
        forall|i: int|
            0 <= i < open.len() && !rules.contains(#[trigger] open[i].0) ==> ll_close_upto(out, open, rules, line, j).0[open[i].1 as int]
                == out[open[i].1 as int],
    decreases j,
{
    if j > 0 {
        lemma_close_keeps(out, open, rules, line, j - 1);
        let prev = ll_close_upto(out, open, rules, line, j - 1);
        let e = open[j - 1];
        assert(open_ok(LlState { out, open }));
        assert((e.1 as int) < out.len());
        if rules.contains(e.0) && (e.1 as int) < prev.0.len() && !survives(open, rules, e.1) {
            let now = prev.0.update(e.1 as int, ext(prev.0[e.1 as int], line));
            assert forall|k: int| 0 <= k < out.len() implies (#[trigger] now[k]).scope == out[k].scope && now[k].rules
                == out[k].rules && now[k].line == out[k].line by {
                if k == e.1 as int {
                    assert(prev.0[k].scope == out[k].scope);
                }
            }
            assert forall|i: int| 0 <= i < open.len() && !rules.contains(#[trigger] open[i].0) implies now[open[i].1 as int]
                == out[open[i].1 as int] by {
                if open[i].1 == e.1 {
                    assert(survives(open, rules, e.1));
                }
            }
            assert(ll_close_upto(out, open, rules, line, j).1 == prev.1);
            assert forall|x: int| 0 <= x < prev.1.len() implies exists|i: int|
                0 <= i < open.len() && open[i] == #[trigger] prev.1[x] && !rules.contains(open[i].0) by {
                assert(prev.1[x] == ll_close_upto(out, open, rules, line, j - 1).1[x]);
            }
        } else if rules.contains(e.0) {
            assert(ll_close_upto(out, open, rules, line, j) == prev);
        } else {
            let rest = prev.1.push(e);
            assert forall|x: int| 0 <= x < rest.len() implies exists|i: int|
                0 <= i < open.len() && open[i] == #[trigger] rest[x] && !rules.contains(open[i].0) by {
                if x == rest.len() - 1 {
                    assert(open[j - 1] == rest[x]);
                } else {
                    assert(rest[x] == prev.1[x]);
                }
            }
        }
        let cur = ll_close_upto(out, open, rules, line, j).1;
        assert forall|x: int| 0 <= x < cur.len() implies exists|i: int|
            0 <= i < open.len() && open[i] == #[trigger] cur[x] && !rules.contains(open[i].0) by {
            if x < prev.1.len() {
                assert(cur[x] == prev.1[x]);
                let i = choose|i: int| 0 <= i < open.len() && open[i] == prev.1[x] && !rules.contains(open[i].0);
                assert(open[i] == cur[x]);
            } else {
                assert(!rules.contains(e.0));
                assert(cur[x] == e);
                assert(open[j - 1] == cur[x]);
            }
        }
    } else {
        assert(ll_close_upto(out, open, rules, line, j).1 =~= Seq::<(Seq<char>, usize)>::empty());
    }
}

proof fn lemma_open_adds(open: Seq<(Seq<char>, usize)>, rules: Seq<Seq<char>>, idx: usize, j: int)
    requires
        0 <= j <= rules.len(),
    ensures
        forall|x: int|
            0 <= x < ll_open_upto(open, rules, idx, j).len() ==> {
                let e = #[trigger] ll_open_upto(open, rules, idx, j)[x];
                (exists|i: int| 0 <= i < open.len() && open[i] == e) || (e.1 == idx && rules.contains(e.0))
            },
    decreases j,
{
    if j > 0 {
        lemma_open_adds(open, rules, idx, j - 1);
        let prev = ll_open_upto(open, rules, idx, j - 1);
        if !has_rule(prev, rules[j - 1]) {
            let now = prev.push((rules[j - 1], idx));
            assert forall|x: int| 0 <= x < now.len() implies {
                let e = #[trigger] now[x];
                (exists|i: int| 0 <= i < open.len() && open[i] == e) || (e.1 == idx && rules.contains(e.0))
            } by {
                if x == now.len() - 1 {
                    assert(rules[j - 1] == now[x].0);
                } else {
                    assert(now[x] == prev[x]);
                }
            }
        }
    }
}

proof fn lemma_step_grows(path: Seq<char>, st: LlState, l: (u32, u32, Seq<char>))
    ensures
        st.out.len() <= ll_line_step(path, st, l).out.len(),
{
    let (line, column, text) = l;
    match ll_find_from(text, 0) {
        None => {},
        Some((start, verb, rules, reason)) => {
            if verb == Verb::End {
                if st.open.len() > 0 {
                    assert(open_ok(LlState { out: st.out, open: Seq::empty() }));
                }
                lemma_close_len(st.out, st.open, rules, line, st.open.len() as int);
            }
        },
    }
}

proof fn lemma_close_len(
    out: Seq<DirectiveView>,
    open: Seq<(Seq<char>, usize)>,
    rules: Seq<Seq<char>>,
    line: u32,
    j: int,
)
    ensures
        ll_close_upto(out, open, rules, line, j).0.len() == out.len(),
    decreases j,
{
    if 0 < j <= open.len() {
        lemma_close_len(out, open, rules, line, j - 1);
        let prev = ll_close_upto(out, open, rules, line, j - 1);
        let e = open[j - 1];
        if rules.contains(e.0) && (e.1 as int) < prev.0.len() && !survives(open, rules, e.1) {
            assert(prev.0.update(e.1 as int, ext(prev.0[e.1 as int], line)).len() == prev.0.len());
        }
    }
}

proof fn lemma_fold_grows(path: Seq<char>, st: LlState, ls: Seq<(u32, u32, Seq<char>)>)
    ensures
        st.out.len() <= ll_fold(path, st, ls).out.len(),
    decreases ls.len(),
{
    if ls.len() > 0 {
        lemma_fold_grows(path, st, ls.drop_last());
        lemma_step_grows(path, ll_fold(path, st, ls.drop_last()), ls.last());
    }
}

proof fn lemma_run_grows(path: Seq<char>, cs: Seq<CommentView>)
    ensures
        cs.len() > 0 ==> ll_run(path, cs.drop_last()).out.len() <= ll_run(path, cs).out.len(),
{
    if cs.len() > 0 {
        lemma_fold_grows(path, ll_run(path, cs.drop_last()), ll_lines(cs.last()));
    }
}

proof fn lemma_step_open_ok(path: Seq<char>, st: LlState, l: (u32, u32, Seq<char>))
    requires
        open_ok(st),
        ll_line_step(path, st, l).out.len() <= usize::MAX,
    ensures
        open_ok(ll_line_step(path, st, l)),
{
    let (line, column, text) = l;
    match ll_find_from(text, 0) {
        None => {},
        Some((start, verb, rules, reason)) => {
            if verb == Verb::End {
                lemma_close_keeps(st.out, st.open, rules, line, st.open.len() as int);
                let r = ll_close_upto(st.out, st.open, rules, line, st.open.len() as int);
                assert forall|j: int| 0 <= j < r.1.len() implies {
                    let e = #[trigger] r.1[j];
                    &&& (e.1 as int) < r.0.len()
                    &&& r.0[e.1 as int].scope == Scope::Block
                    &&& r.0[e.1 as int].rules.contains(e.0)
                    &&& r.0[e.1 as int].suppressed.end_line is None
                } by {
                    let i = choose|i: int| 0 <= i < st.open.len() && st.open[i] == r.1[j] && !rules.contains(st.open[i].0);
                    assert(st.open[i] == r.1[j]);
                    assert(r.0[st.open[i].1 as int] == st.out[st.open[i].1 as int]);
                }
            } else {
                let next = ll_line_step(path, st, l);
                let scope = verb_scope(verb);
                if scope == Scope::Block {
                    lemma_open_adds(st.open, rules, st.out.len() as usize, rules.len() as int);
                }
                assert forall|j: int| 0 <= j < next.open.len() implies {
                    let e = #[trigger] next.open[j];
                    &&& (e.1 as int) < next.out.len()
                    &&& next.out[e.1 as int].scope == Scope::Block
                    &&& next.out[e.1 as int].rules.contains(e.0)
                    &&& next.out[e.1 as int].suppressed.end_line is None
                } by {
                    let e = next.open[j];
                    if scope == Scope::Block {
                        if e.1 == st.out.len() as usize && rules.contains(e.0) {
                        } else {
                            let i = choose|i: int| 0 <= i < st.open.len() && st.open[i] == e;
                            assert(st.open[i] == e);
                            assert(next.out[e.1 as int] == st.out[e.1 as int]);
                        }
                    } else {
                        assert(st.open[j] == e);
                        assert(next.out[e.1 as int] == st.out[e.1 as int]);
                    }
                }
            }
        },
    }
}

proof fn lemma_fold_open_ok(path: Seq<char>, st: LlState, ls: Seq<(u32, u32, Seq<char>)>)
    requires
        open_ok(st),
        ll_fold(path, st, ls).out.len() <= usize::MAX,
    ensures
        open_ok(ll_fold(path, st, ls)),
    decreases ls.len(),
{
    if ls.len() > 0 {
        lemma_step_grows(path, ll_fold(path, st, ls.drop_last()), ls.last());
        lemma_fold_open_ok(path, st, ls.drop_last());
        lemma_step_open_ok(path, ll_fold(path, st, ls.drop_last()), ls.last());
    }
}

proof fn lemma_run_open_ok(path: Seq<char>, cs: Seq<CommentView>)
    requires
        ll_run(path, cs).out.len() <= usize::MAX,
    ensures
        open_ok(ll_run(path, cs)),
    decreases cs.len(),
{
    if cs.len() > 0 {
        lemma_run_grows(path, cs);
        lemma_run_open_ok(path, cs.drop_last());
        lemma_fold_open_ok(path, ll_run(path, cs.drop_last()), ll_lines(cs.last()));
    }
}

/// Error `x` of file `f` names rule `rule` of record `r`, a block record of
/// the file, at the line that record opened on.
pub open spec fn raised_for(f: SourceView, x: int, r: int, rule: Seq<char>) -> bool {
    &&& 0 <= r < ll_records(f).len()
    &&& ll_records(f)[r].scope == Scope::Block
    &&& ll_records(f)[r].rules.contains(rule)
    &&& ll_records(f)[r].suppressed.end_line is None
    &&& ll_errors(f)[x] == (ErrorView { path: f.display_path, message: unclosed_message(rule, ll_records(f)[r].line) })
}

/// Error `x` of file `f` was raised for some block record of the file.
pub open spec fn genuine(f: SourceView, x: int) -> bool {
    exists|r: int, rule: Seq<char>| #[trigger] raised_for(f, x, r, rule)
}

/// Every error a scan raises is genuine: it names a rule of a block record
/// the scan reports, opened on the line the message gives, in the file the
/// record is in; and that block, left open, keeps a null end. (A scan holds at most `usize::MAX` records.)
pub proof fn law_unclosed_errors_name_a_reported_block(f: SourceView)
    requires
        ll_records(f).len() <= usize::MAX,
    ensures
        forall|x: int| 0 <= x < ll_errors(f).len() ==> #[trigger] genuine(f, x),
{
    let st = ll_run(f.display_path, f.extracted.comments);
    lemma_run_open_ok(f.display_path, f.extracted.comments);
    assert forall|x: int| 0 <= x < ll_errors(f).len() implies #[trigger] genuine(f, x) by {
        let e = st.open[x];
        assert(open_ok(st));
        assert((e.1 as int) < st.out.len());
        assert(raised_for(f, x, e.1 as int, e.0));
    }
}

} // verus!
