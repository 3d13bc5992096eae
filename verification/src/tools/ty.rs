//! ty (`# ty: ignore`) suppression parsing.
//!
//! | Source | Scope | Rules |
//! | --- | --- | --- |
//! | `f(x)  # ty: ignore` | line | *(blanket)* |
//! | `f(x)  # ty: ignore[invalid-argument-type]` | line | that rule |
//! | `# ty: ignore` above all code | file | *(blanket)* |
//! | `# ty: ignore` on its own line in the body | next-line | *(blanket)* |
//!
//! Where the comment sits is the whole of ty's scoping rule: trailing code it
//! covers that line, on its own line above all code the whole file, on its own
//! line elsewhere the line below.

use vstd::prelude::*;

use crate::comments::{Comment, CommentView, comments_view};
use crate::model::{DirectiveView, IgnoreDirective, Scope, Suppressed, Tool, directives_view, strings_view, opt_string_view};
use crate::source::{Language, SourceFile, SourceView, source_view_ok};
use crate::text::{
    chars_of, trim, trim_vec, trim_start, trim_start_vec, strip_prefix, strip_prefix_vec, split_char,
    split_char_vec, chars_view,
};
use crate::tools::python::{
    SegView, Segment, segments_spec, segments_of, strip_keyword_spec, strip_keyword_vec,
    rules_and_reason_spec, rules_and_reason_vec,
};
use crate::tools::{ToolParser, has_leading_on, leading_on, dv, whole_file, just, after, whole_file_exec, just_exec, after_exec, make};

verus! {

/// Parses ty's `# ty: ignore` family out of Python sources.
#[derive(Debug, Clone, Copy, Default)]
pub struct TyParser;

/// The text after `ty: ignore`, or `None` when the run is something else.
pub open spec fn ty_body(after_hash: Seq<char>) -> Option<Seq<char>> {
    match strip_prefix(trim_start(after_hash), "ty:"@) {
        Some(a) => strip_keyword_spec(trim_start(a), "ignore"@),
        None => None,
    }
}

/// True when the text after a `#` opens a ty directive.
pub open spec fn ty_opens(after_hash: Seq<char>) -> bool {
    ty_body(after_hash) is Some
}

/// True when nothing but blank lines and whole-line comments precede `line`.
pub open spec fn header_before(f: SourceView, line: u32) -> bool {
    let pieces = split_char(f.source, '\n');
    forall|i: int|
        0 <= i < line - 1 && i < pieces.len() ==> trim(#[trigger] pieces[i]).len() == 0
            || has_leading_on(f.extracted.comments, i + 1)
}

/// How far a directive in `c` reaches, per ty's placement rules.
pub open spec fn ty_scope(f: SourceView, c: CommentView) -> Scope {
    if !c.leading {
        Scope::Line
    } else if header_before(f, c.line) {
        Scope::File
    } else {
        Scope::NextLine
    }
}

pub open spec fn ty_range(scope: Scope, line: u32) -> Suppressed {
    match scope {
        Scope::File => whole_file(),
        Scope::NextLine => after(line),
        _ => just(line),
    }
}

/// The first run of a comment that opens a ty directive.
pub open spec fn first_ty(segs: Seq<SegView>) -> Option<(SegView, Seq<char>)>
    decreases segs.len(),
{
    if segs.len() == 0 {
        None
    } else {
        match ty_body(segs[0].after_hash) {
            Some(rest) => Some((segs[0], rest)),
            None => first_ty(segs.drop_first()),
        }
    }
}

/// The ty record a comment of `f` carries, if any.
pub open spec fn ty_directive(f: SourceView, c: CommentView) -> Option<DirectiveView> {
    match first_ty(segments_spec(c)) {
        Some((seg, rest)) => Some(
            dv(
                Tool::Ty,
                ty_scope(f, c),
                rules_and_reason_spec(rest).0,
                rules_and_reason_spec(rest).1,
                f.display_path,
                c.line,
                c.end_line,
                seg.column,
                seg.raw,
                ty_range(ty_scope(f, c), c.line),
            ),
        ),
        None => None,
    }
}

pub open spec fn ty_f(f: SourceView) -> spec_fn(CommentView) -> Option<DirectiveView> {
    |c: CommentView| ty_directive(f, c)
}

/// Every ty record in a file, in source order.
pub open spec fn ty_parse_spec(f: SourceView) -> Seq<DirectiveView> {
    f.extracted.comments.filter_map(ty_f(f))
}

fn body_vec(after_hash: &Vec<char>) -> (r: Option<Vec<char>>)
    ensures
        r.is_some() == ty_body(after_hash@).is_some(),
        r.is_some() ==> r.unwrap()@ == ty_body(after_hash@).unwrap(),
{
    let p = chars_of("ty:");
    match strip_prefix_vec(&trim_start_vec(after_hash), &p) {
        Some(a) => {
            let k = chars_of("ignore");
            strip_keyword_vec(&trim_start_vec(&a), &k)
        },
        None => None,
    }
}

/// True when the text after a `#` opens a ty directive.
pub fn opens_directive(after_hash: &Vec<char>) -> (b: bool)
    ensures
        b == ty_opens(after_hash@),
{
    body_vec(after_hash).is_some()
}

/// True when nothing but blank lines and whole-line comments precede `line`
/// in `file`.
fn file_header(file: &SourceFile, line: u32) -> (b: bool)
    ensures
        b == header_before(file@, line),
{
    let pieces = split_char_vec(file.chars(), '\n');
    let comments = file.comments();
    let ghost ps = chars_view(pieces@);
    let limit: usize = if line == 0 { 0 } else { (line - 1) as usize };
    let mut i: usize = 0;
    while i < pieces.len() && i < limit
        invariant
            ps == chars_view(pieces@),
            ps == split_char(file@.source, '\n'),
            comments_view(comments@) == file@.extracted.comments,
            limit as int == if line == 0 { 0int } else { line - 1 },
            i <= pieces@.len(),
            forall|j: int|
                0 <= j < i ==> trim(#[trigger] ps[j]).len() == 0 || has_leading_on(file@.extracted.comments, j + 1),
        decreases pieces@.len() - i,
    {
        proof { assert(ps[i as int] == pieces@[i as int]@); }
        let t = trim_vec(&pieces[i]);
        if t.len() != 0 {
            let n: u32 = (i + 1) as u32;
            if !leading_on(comments, n) {
                proof { assert(trim(ps[i as int]).len() != 0); }
                return false;
            }
        }
        i = i + 1;
    }
    true
}

/// Whether comment `c` sits in `file`'s header: only blank lines and
/// whole-line comments above it.
pub fn in_file_header(file: &SourceFile, c: &Comment) -> (b: bool)
    ensures
        b == header_before(file@, c@.line),
{
    file_header(file, c.line)
}

fn scope_of(file: &SourceFile, c: &Comment) -> (s: Scope)
    ensures
        s == ty_scope(file@, c@),
{
    if !c.leading {
        Scope::Line
    } else if file_header(file, c.line) {
        Scope::File
    } else {
        Scope::NextLine
    }
}

fn range_exec(scope: Scope, line: u32) -> (s: Suppressed)
    ensures
        s == ty_range(scope, line),
{
    match scope {
        Scope::File => whole_file_exec(),
        Scope::NextLine => after_exec(line),
        _ => just_exec(line),
    }
}

fn directive_for(file: &SourceFile, c: &Comment) -> (r: Option<IgnoreDirective>)
    ensures
        match (r, ty_directive(file@, c@)) {
            (Some(d), Some(v)) => d@ == v,
            (None, None) => true,
            _ => false,
        },
{
    let segs = segments_of(c);
    let ghost sv = segs@.map_values(|s: Segment| s@);
    proof { assert(sv.skip(0) =~= sv); }
    let mut k: usize = 0;
    while k < segs.len()
        invariant
            sv == segs@.map_values(|s: Segment| s@),
            sv == segments_spec(c@),
            k <= segs@.len(),
            first_ty(sv) == first_ty(sv.skip(k as int)),
        decreases segs@.len() - k,
    {
        let after = chars_of(segs[k].after_hash.as_str());
        proof {
            assert(sv.skip(k as int)[0] == segs@[k as int]@);
            assert(sv.skip(k as int).drop_first() =~= sv.skip(k + 1));
        }
        match body_vec(&after) {
            Some(rest) => {
                let (rules, reason) = rules_and_reason_vec(&rest);
                let scope = scope_of(file, c);
                return Some(make(
                    Tool::Ty,
                    scope,
                    rules,
                    reason,
                    file.display_path(),
                    c.line,
                    c.end_line,
                    segs[k].column,
                    segs[k].raw.clone(),
                    range_exec(scope, c.line),
                ));
            },
            None => {},
        }
        k = k + 1;
    }
    proof { assert(sv.skip(k as int) =~= Seq::<SegView>::empty()); }
    None
}

impl TyParser {
    /// Every ty directive in `file`, in source order.
    pub fn parse_file(&self, file: &SourceFile) -> (r: Vec<IgnoreDirective>)
        ensures
            directives_view(r@) == ty_parse_spec(file@),
    {
        let comments = file.comments();
        let ghost cv = comments_view(comments@);
        let mut out: Vec<IgnoreDirective> = Vec::new();
        let mut i: usize = 0;
        while i < comments.len()
            invariant
                cv == comments_view(comments@),
                cv == file@.extracted.comments,
                i <= comments@.len(),
                directives_view(out@) == cv.take(i as int).filter_map(ty_f(file@)),
            decreases comments@.len() - i,
        {
            proof {
                cv.lemma_filter_map_take_succ(ty_f(file@), i as int);
            }
            let ghost before = directives_view(out@);
            match directive_for(file, &comments[i]) {
                Some(d) => {
                    out.push(d);
                    proof { assert(directives_view(out@) =~= before + seq![d@]); }
                },
                None => {},
            }
            i = i + 1;
        }
        proof { assert(cv.take(cv.len() as int) =~= cv); }
        out
    }
}

impl ToolParser for TyParser {
    fn tool(&self) -> (t: Tool)
        ensures
            t == Tool::Ty,
    {
        Tool::Ty
    }

    fn applies_to(&self, file: &SourceFile) -> (b: bool)
        ensures
            b == (file@.language == Language::Python),
    {
        file.language() == Language::Python
    }

    fn parse(&self, file: &SourceFile) -> (r: Vec<IgnoreDirective>)
        ensures
            directives_view(r@) == ty_parse_spec(file@),
    {
        self.parse_file(file)
    }
}

} // verus!
