//! Pyright (`# pyright: ignore`) suppression parsing.
//!
//! | Source | Scope | Rules |
//! | --- | --- | --- |
//! | `# pyright: ignore` | line | *(blanket)* |
//! | `# pyright: ignore[reportArgumentType]` | line | `reportArgumentType` |
//! | `# pyright: ignore[reportAny, reportUnusedImport]` | line | both |
//! | `# pyright: reportMissingImports=false` | file | `reportMissingImports` |
//!
//! An *ignore* counts anywhere in the comment. The `<rule>=<value>` override
//! is the whole comment and is reported only for the values that switch a rule
//! off (`false`, `none`); a mode switch or a rule turned on is configuration.

use vstd::prelude::*;

use crate::comments::{Comment, CommentView, comments_view};
use crate::model::{DirectiveView, IgnoreDirective, Scope, Suppressed, Tool, directives_view, strings_view, opt_string_view};
use crate::source::{Language, SourceFile, SourceView};
use crate::text::{
    chars_of, slice, to_string, trim, trim_vec, trim_end, trim_end_vec, trim_start, trim_start_vec,
    strip_prefix, strip_prefix_vec, split_char, split_char_vec, chars_view, split_once,
    split_once_vec, eq_str,
};
use crate::tools::python::{
    SegView, Segment, segments_spec, segments_of, strip_keyword_spec, strip_keyword_vec,
    rules_and_reason_spec, rules_and_reason_vec,
};
use crate::tools::{ToolParser, dv, whole_file, just, whole_file_exec, just_exec, make};

verus! {

/// Parses pyright's `# pyright: ignore` family out of Python sources.
#[derive(Debug, Clone, Copy, Default)]
pub struct PyrightParser;

/// The text after `pyright: ignore`, or `None` for any other run.
pub open spec fn pyright_body(after_hash: Seq<char>) -> Option<Seq<char>> {
    match strip_prefix(trim_start(after_hash), "pyright:"@) {
        Some(after) => strip_keyword_spec(trim_start(after), "ignore"@),
        None => None,
    }
}

/// True when the text after a `#` opens a pyright suppression.
pub open spec fn pyright_opens(after_hash: Seq<char>) -> bool {
    pyright_body(after_hash) is Some
}

/// The item list of a `# pyright: <item>, <item>` comment.
pub open spec fn config_body(after_hash: Seq<char>) -> Option<Seq<char>> {
    match strip_prefix(trim_start(after_hash), "pyright:"@) {
        Some(after) => Some(trim(after)),
        None => None,
    }
}

/// The type-checking modes that may appear among the items without a value.
pub open spec fn is_mode(s: Seq<char>) -> bool {
    s == "basic"@ || s == "standard"@ || s == "strict"@
}

/// The values pyright accepts for a rule.
pub open spec fn is_value(s: Seq<char>) -> bool {
    s == "true"@ || s == "false"@ || s == "error"@ || s == "warning"@ || s == "information"@
        || s == "none"@
}

/// The two values that switch a rule off.
pub open spec fn is_off(s: Seq<char>) -> bool {
    s == "false"@ || s == "none"@
}

/// The rules `items[i..]` switch off, or `None` when one of them is an item
/// pyright rejects.
pub open spec fn off_from(items: Seq<Seq<char>>, i: int) -> Option<Seq<Seq<char>>>
    decreases items.len() - i,
{
    if i < 0 || i >= items.len() {
        Some(Seq::empty())
    } else {
        let item = trim(items[i]);
        match split_once(item, '=') {
            None => if is_mode(item) { off_from(items, i + 1) } else { None },
            Some((rule, value)) => if trim(rule).len() == 0 || !is_value(trim(value)) {
                None
            } else {
                match off_from(items, i + 1) {
                    Some(t) => Some(if is_off(trim(value)) { seq![trim(rule)] + t } else { t }),
                    None => None,
                }
            },
        }
    }
}

/// The rules an item list switches off, or `None` when there is nothing to
/// report (a rejected list, or one that silences nothing).
pub open spec fn disabled_rules_spec(items: Seq<char>) -> Option<Seq<Seq<char>>> {
    match off_from(split_char(items, ','), 0) {
        Some(r) => if r.len() == 0 { None } else { Some(r) },
        None => None,
    }
}

/// The first run of a comment that opens a pyright suppression.
pub open spec fn first_pyright(segs: Seq<SegView>) -> Option<(SegView, Seq<char>)>
    decreases segs.len(),
{
    if segs.len() == 0 {
        None
    } else {
        match pyright_body(segs[0].after_hash) {
            Some(rest) => Some((segs[0], rest)),
            None => first_pyright(segs.drop_first()),
        }
    }
}

/// The rule override a whole comment states, if it switches anything off.
pub open spec fn override_rules(raw: Seq<char>) -> Option<Seq<Seq<char>>> {
    match strip_prefix(raw, seq!['#']) {
        Some(after) => match config_body(after) {
            Some(items) => disabled_rules_spec(items),
            None => None,
        },
        None => None,
    }
}

/// The pyright record a comment carries, if any.
pub open spec fn pyright_directive(path: Seq<char>, c: CommentView) -> Option<DirectiveView> {
    match first_pyright(segments_spec(c)) {
        Some((seg, rest)) => Some(
            dv(
                Tool::Pyright,
                Scope::Line,
                rules_and_reason_spec(rest).0,
                rules_and_reason_spec(rest).1,
                path,
                c.line,
                c.end_line,
                seg.column,
                seg.raw,
                just(c.line),
            ),
        ),
        None => match override_rules(c.raw) {
            Some(rules) => Some(
                dv(Tool::Pyright, Scope::File, rules, None, path, c.line, c.end_line, c.column, trim_end(c.raw), whole_file()),
            ),
            None => None,
        },
    }
}

pub open spec fn pyright_f(path: Seq<char>) -> spec_fn(CommentView) -> Option<DirectiveView> {
    |c: CommentView| pyright_directive(path, c)
}

/// Every pyright record in a file, in source order.
pub open spec fn pyright_parse_spec(f: SourceView) -> Seq<DirectiveView> {
    f.extracted.comments.filter_map(pyright_f(f.display_path))
}

fn body_vec(after_hash: &Vec<char>) -> (r: Option<Vec<char>>)
    ensures
        r.is_some() == pyright_body(after_hash@).is_some(),
        r.is_some() ==> r.unwrap()@ == pyright_body(after_hash@).unwrap(),
{
    let p = chars_of("pyright:");
    match strip_prefix_vec(&trim_start_vec(after_hash), &p) {
        Some(after) => {
            let k = chars_of("ignore");
            strip_keyword_vec(&trim_start_vec(&after), &k)
        },
        None => None,
    }
}

/// True when the text after a `#` opens a pyright suppression.
pub fn opens_directive(after_hash: &Vec<char>) -> (b: bool)
    ensures
        b == pyright_opens(after_hash@),
{
    body_vec(after_hash).is_some()
}

fn config_body_vec(after_hash: &Vec<char>) -> (r: Option<Vec<char>>)
    ensures
        r.is_some() == config_body(after_hash@).is_some(),
        r.is_some() ==> r.unwrap()@ == config_body(after_hash@).unwrap(),
{
    let p = chars_of("pyright:");
    match strip_prefix_vec(&trim_start_vec(after_hash), &p) {
        Some(after) => Some(trim_vec(&after)),
        None => None,
    }
}

fn is_mode_vec(s: &Vec<char>) -> (b: bool)
    ensures
        b == is_mode(s@),
{
    eq_str(s, "basic") || eq_str(s, "standard") || eq_str(s, "strict")
}

fn is_value_vec(s: &Vec<char>) -> (b: bool)
    ensures
        b == is_value(s@),
{
    eq_str(s, "true") || eq_str(s, "false") || eq_str(s, "error") || eq_str(s, "warning")
        || eq_str(s, "information") || eq_str(s, "none")
}

fn is_off_vec(s: &Vec<char>) -> (b: bool)
    ensures
        b == is_off(s@),
{
    eq_str(s, "false") || eq_str(s, "none")
}

/// The rules an item list switches off, or `None` when there is nothing to
/// report.
fn disabled_rules(items: &Vec<char>) -> (r: Option<Vec<String>>)
    ensures
        match (r, disabled_rules_spec(items@)) {
            (Some(v), Some(s)) => strings_view(v@) == s,
            (None, None) => true,
            _ => false,
        },
{
    let pieces = split_char_vec(items, ',');
    let ghost ps = chars_view(pieces@);
    let mut disabled: Vec<String> = Vec::new();
    let mut i: usize = 0;
    while i < pieces.len()
        invariant
            ps == chars_view(pieces@),
            ps == split_char(items@, ','),
            i <= pieces@.len(),
            off_from(ps, 0) == match off_from(ps, i as int) {
                Some(t) => Some(strings_view(disabled@) + t),
                None => None::<Seq<Seq<char>>>,
            },
        decreases pieces@.len() - i,
    {
        proof { assert(ps[i as int] == pieces@[i as int]@); }
        let item = trim_vec(&pieces[i]);
        match split_once_vec(&item, '=') {
            None => {
                if !is_mode_vec(&item) {
                    return None;
                }
            },
            Some((rule, value)) => {
                let rule = trim_vec(&rule);
                let value = trim_vec(&value);
                if rule.len() == 0 || !is_value_vec(&value) {
                    return None;
                }
                if is_off_vec(&value) {
                    let ghost before = strings_view(disabled@);
                    disabled.push(to_string(&rule));
                    proof {
                        assert(strings_view(disabled@) =~= before + seq![rule@]);
                        match off_from(ps, i + 1) {
                            Some(t) => {
                                assert(before + (seq![rule@] + t) =~= strings_view(disabled@) + t);
                            },
                            None => {},
                        }
                    }
                }
            },
        }
        i = i + 1;
    }
    proof {
        assert(strings_view(disabled@) + Seq::<Seq<char>>::empty() =~= strings_view(disabled@));
    }
    if disabled.len() == 0 {
        None
    } else {
        Some(disabled)
    }
}

fn override_rules_vec(raw: &Vec<char>) -> (r: Option<Vec<String>>)
    ensures
        match (r, override_rules(raw@)) {
            (Some(v), Some(s)) => strings_view(v@) == s,
            (None, None) => true,
            _ => false,
        },
{
    let hash = vec!['#'];
    proof { assert(hash@ =~= seq!['#']); }
    match strip_prefix_vec(raw, &hash) {
        Some(after) => match config_body_vec(&after) {
            Some(items) => disabled_rules(&items),
            None => None,
        },
        None => None,
    }
}

fn directive_for(path: &str, c: &Comment) -> (r: Option<IgnoreDirective>)
    ensures
        match (r, pyright_directive(path@, c@)) {
            (Some(d), Some(v)) => d@ == v,
            (None, None) => true,
            _ => false,
        },
{
    let segs = segments_of(c);
    let ghost sv = segs@.map_values(|s: Segment| s@);
    proof { assert(sv.skip(0) =~= sv); }
    let mut k: usize = 0;
    while k < segs.len()
        invariant
            sv == segs@.map_values(|s: Segment| s@),
            sv == segments_spec(c@),
            k <= segs@.len(),
            first_pyright(sv) == first_pyright(sv.skip(k as int)),
        decreases segs@.len() - k,
    {
        let after = chars_of(segs[k].after_hash.as_str());
        proof {
            assert(sv.skip(k as int)[0] == segs@[k as int]@);
            assert(sv.skip(k as int).drop_first() =~= sv.skip(k + 1));
        }
        match body_vec(&after) {
            Some(rest) => {
                let (rules, reason) = rules_and_reason_vec(&rest);
                return Some(make(
                    Tool::Pyright,
                    Scope::Line,
                    rules,
                    reason,
                    path,
                    c.line,
                    c.end_line,
                    segs[k].column,
                    segs[k].raw.clone(),
                    just_exec(c.line),
                ));
            },
            None => {},
        }
        k = k + 1;
    }
    proof { assert(sv.skip(k as int) =~= Seq::<SegView>::empty()); }
    let raw = chars_of(c.raw.as_str());
    match override_rules_vec(&raw) {
        Some(rules) => {
            let trimmed = to_string(&trim_end_vec(&raw));
            Some(make(
                Tool::Pyright,
                Scope::File,
                rules,
                None,
                path,
                c.line,
                c.end_line,
                c.column,
                trimmed,
                whole_file_exec(),
            ))
        },
        None => None,
    }
}

impl PyrightParser {
    /// Every pyright directive in `file`, in source order.
    pub fn parse_file(&self, file: &SourceFile) -> (r: Vec<IgnoreDirective>)
        ensures
            directives_view(r@) == pyright_parse_spec(file@),
    {
        let comments = file.comments();
        let path = file.display_path();
        let ghost cv = comments_view(comments@);
        let mut out: Vec<IgnoreDirective> = Vec::new();
        let mut i: usize = 0;
        while i < comments.len()
            invariant
                cv == comments_view(comments@),
                cv == file@.extracted.comments,
                path@ == file@.display_path,
                i <= comments@.len(),
                directives_view(out@) == cv.take(i as int).filter_map(pyright_f(path@)),
            decreases comments@.len() - i,
        {
            proof { cv.lemma_filter_map_take_succ(pyright_f(path@), i as int); }
            let ghost before = directives_view(out@);
            match directive_for(path, &comments[i]) {
                Some(d) => {
                    out.push(d);
                    proof { assert(directives_view(out@) =~= before + seq![d@]); }
                },
                None => {},
            }
            i = i + 1;
        }
        proof { assert(cv.take(cv.len() as int) =~= cv); }
        out
    }
}

impl ToolParser for PyrightParser {
    fn tool(&self) -> (t: Tool)
        ensures
            t == Tool::Pyright,
    {
        Tool::Pyright
    }

    fn applies_to(&self, file: &SourceFile) -> (b: bool)
        ensures
            b == (file@.language == Language::Python),
    {
        file.language() == Language::Python
    }

    fn parse(&self, file: &SourceFile) -> (r: Vec<IgnoreDirective>)
        ensures
            directives_view(r@) == pyright_parse_spec(file@),
    {
        self.parse_file(file)
    }
}

} // verus!
