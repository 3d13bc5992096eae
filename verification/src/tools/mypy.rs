//! mypy (`# type: ignore`, `# mypy: …`) suppression parsing.
//!
//! | Source | Scope | Rules |
//! | --- | --- | --- |
//! | `# type: ignore` | line | *(blanket)* |
//! | `# type: ignore[arg-type, index]` | line | `arg-type`, `index` |
//! | `# mypy: ignore-errors` | file | *(blanket)* |
//! | `# mypy: disable-error-code="arg-type, index"` | file | `arg-type`, `index` |
//!
//! The directive must open its comment, and the `# mypy: …` config forms must
//! own their line: that is what mypy honours.

use vstd::prelude::*;

use crate::comments::{Comment, CommentView, comments_view};
use crate::model::{DirectiveView, IgnoreDirective, Scope, Suppressed, Tool, directives_view, strings_view, opt_string_view};
use crate::source::{Language, SourceFile, SourceView};
use crate::text::{
    chars_of, slice, trim_start, trim_start_vec, strip_prefix, strip_prefix_vec, find_char_from,
    find_char_vec,
};
use crate::tools::python::{
    SegView, Segment, segments_spec, segments_of, strip_keyword_spec, strip_keyword_vec,
    rules_and_reason_spec, rules_and_reason_vec, trailing_reason_spec, trailing_reason_vec,
    split_rules_spec, split_rules_vec,
};
use crate::tools::{ToolParser, dv, whole_file, just, whole_file_exec, just_exec, make};

verus! {

/// Parses mypy's `# type: ignore` and `# mypy: …` families out of Python sources.
#[derive(Debug, Clone, Copy, Default)]
pub struct MypyParser;

/// A `<prefix> <keyword>` pair stripped from the front of `body`, with the
/// whitespace mypy tolerates between them.
pub open spec fn strip_directive(body: Seq<char>, prefix: Seq<char>, keyword: Seq<char>) -> Option<Seq<char>> {
    match strip_prefix(body, prefix) {
        Some(after) => strip_keyword_spec(trim_start(after), keyword),
        None => None,
    }
}

/// True when the text after a `#` opens a mypy directive (by syntax alone).
pub open spec fn mypy_opens(after_hash: Seq<char>) -> bool {
    let body = trim_start(after_hash);
    strip_directive(body, "type:"@, "ignore"@) is Some
        || strip_directive(body, "mypy:"@, "ignore-errors"@) is Some
        || strip_directive(body, "mypy:"@, "disable-error-code"@) is Some
}

/// The codes and reason of the text after `disable-error-code`.
pub open spec fn disabled_codes_spec(rest: Seq<char>) -> (Seq<Seq<char>>, Option<Seq<char>>) {
    match strip_prefix(trim_start(rest), seq!['=']) {
        None => (Seq::empty(), trailing_reason_spec(rest)),
        Some(after) => match find_char_from(after, '#', 0) {
            Some(h) => (
                split_rules_spec(after.subrange(0, h)),
                trailing_reason_spec(after.subrange(h, after.len() as int)),
            ),
            None => (split_rules_spec(after), trailing_reason_spec(Seq::empty())),
        },
    }
}

/// What mypy reads from a run that opens its comment: the scope, the rules and
/// the reason.
pub open spec fn mypy_parsed(after_hash: Seq<char>, leading: bool) -> Option<(Scope, Seq<Seq<char>>, Option<Seq<char>>)> {
    let body = trim_start(after_hash);
    match strip_directive(body, "type:"@, "ignore"@) {
        Some(rest) => Some((Scope::Line, rules_and_reason_spec(rest).0, rules_and_reason_spec(rest).1)),
        None => if !leading {
            None
        } else {
            match strip_directive(body, "mypy:"@, "ignore-errors"@) {
                Some(rest) => Some((Scope::File, Seq::empty(), trailing_reason_spec(rest))),
                None => match strip_directive(body, "mypy:"@, "disable-error-code"@) {
                    Some(rest) => Some((Scope::File, disabled_codes_spec(rest).0, disabled_codes_spec(rest).1)),
                    None => None,
                },
            }
        },
    }
}

pub open spec fn mypy_range(scope: Scope, line: u32) -> Suppressed {
    if scope == Scope::File { whole_file() } else { just(line) }
}

/// The mypy record a comment carries: only the run that opens the comment
/// counts.
pub open spec fn mypy_directive(path: Seq<char>, c: CommentView) -> Option<DirectiveView> {
    let segs = segments_spec(c);
    if segs.len() == 0 {
        None
    } else {
        match mypy_parsed(segs[0].after_hash, c.leading) {
            Some((scope, rules, reason)) => Some(
                dv(Tool::Mypy, scope, rules, reason, path, c.line, c.end_line, segs[0].column, segs[0].raw, mypy_range(scope, c.line)),
            ),
            None => None,
        }
    }
}

pub open spec fn mypy_f(path: Seq<char>) -> spec_fn(CommentView) -> Option<DirectiveView> {
    |c: CommentView| mypy_directive(path, c)
}

/// Every mypy record in a file, in source order.
pub open spec fn mypy_parse_spec(f: SourceView) -> Seq<DirectiveView> {
    f.extracted.comments.filter_map(mypy_f(f.display_path))
}

fn strip_directive_vec(body: &Vec<char>, prefix: &str, keyword: &str) -> (r: Option<Vec<char>>)
    ensures
        r.is_some() == strip_directive(body@, prefix@, keyword@).is_some(),
        r.is_some() ==> r.unwrap()@ == strip_directive(body@, prefix@, keyword@).unwrap(),
{
    let p = chars_of(prefix);
    match strip_prefix_vec(body, &p) {
        Some(after) => {
            let k = chars_of(keyword);
            strip_keyword_vec(&trim_start_vec(&after), &k)
        },
        None => None,
    }
}

/// True when the text after a `#` opens a mypy directive.
pub fn opens_directive(after_hash: &Vec<char>) -> (b: bool)
    ensures
        b == mypy_opens(after_hash@),
{
    let body = trim_start_vec(after_hash);
    strip_directive_vec(&body, "type:", "ignore").is_some()
        || strip_directive_vec(&body, "mypy:", "ignore-errors").is_some()
        || strip_directive_vec(&body, "mypy:", "disable-error-code").is_some()
}

fn disabled_codes(rest: &Vec<char>) -> (r: (Vec<String>, Option<String>))
    ensures
        strings_view(r.0@) == disabled_codes_spec(rest@).0,
        opt_string_view(r.1) == disabled_codes_spec(rest@).1,
{
    let eq = vec!['='];
    proof { assert(eq@ =~= seq!['=']); }
    match strip_prefix_vec(&trim_start_vec(rest), &eq) {
        None => {
            proof { assert(strings_view(Seq::<String>::empty()) =~= Seq::<Seq<char>>::empty()); }
            (Vec::new(), trailing_reason_vec(rest))
        },
        Some(after) => match find_char_vec(&after, '#', 0) {
            Some(h) => (split_rules_vec(&slice(&after, 0, h)), trailing_reason_vec(&slice(&after, h, after.len()))),
            None => {
                let empty: Vec<char> = Vec::new();
                proof { assert(empty@ =~= Seq::<char>::empty()); }
                (split_rules_vec(&after), trailing_reason_vec(&empty))
            },
        },
    }
}

fn parsed_vec(after_hash: &Vec<char>, leading: bool) -> (r: Option<(Scope, Vec<String>, Option<String>)>)
    ensures
        match (r, mypy_parsed(after_hash@, leading)) {
            (Some((s, rules, reason)), Some((t, rv, rr))) => s == t && strings_view(rules@) == rv && opt_string_view(reason) == rr,
            (None, None) => true,
            _ => false,
        },
{
    let body = trim_start_vec(after_hash);
    match strip_directive_vec(&body, "type:", "ignore") {
        Some(rest) => {
            let (rules, reason) = rules_and_reason_vec(&rest);
            return Some((Scope::Line, rules, reason));
        },
        None => {},
    }
    if !leading {
        return None;
    }
    match strip_directive_vec(&body, "mypy:", "ignore-errors") {
        Some(rest) => {
            proof { assert(strings_view(Seq::<String>::empty()) =~= Seq::<Seq<char>>::empty()); }
            return Some((Scope::File, Vec::new(), trailing_reason_vec(&rest)));
        },
        None => {},
    }
    match strip_directive_vec(&body, "mypy:", "disable-error-code") {
        Some(rest) => {
            let (rules, reason) = disabled_codes(&rest);
            Some((Scope::File, rules, reason))
        },
        None => None,
    }
}

fn directive_for(path: &str, c: &Comment) -> (r: Option<IgnoreDirective>)
    ensures
        match (r, mypy_directive(path@, c@)) {
            (Some(d), Some(v)) => d@ == v,
            (None, None) => true,
            _ => false,
        },
{
    let segs = segments_of(c);
    let ghost sv = segs@.map_values(|s: Segment| s@);
    if segs.len() == 0 {
        return None;
    }
    proof { assert(sv[0] == segs@[0]@); }
    let after = chars_of(segs[0].after_hash.as_str());
    match parsed_vec(&after, c.leading) {
        Some((scope, rules, reason)) => {
            let sup = if scope == Scope::File { whole_file_exec() } else { just_exec(c.line) };
            Some(make(Tool::Mypy, scope, rules, reason, path, c.line, c.end_line, segs[0].column, segs[0].raw.clone(), sup))
        },
        None => None,
    }
}

impl MypyParser {
    /// Every mypy directive in `file`, in source order.
    pub fn parse_file(&self, file: &SourceFile) -> (r: Vec<IgnoreDirective>)
        ensures
            directives_view(r@) == mypy_parse_spec(file@),
    {
        let comments = file.comments();
        let path = file.display_path();
        let ghost cv = comments_view(comments@);
        let mut out: Vec<IgnoreDirective> = Vec::new();
        let mut i: usize = 0;
        while i < comments.len()
            invariant
                cv == comments_view(comments@),
                cv == file@.extracted.comments,
                path@ == file@.display_path,
                i <= comments@.len(),
                directives_view(out@) == cv.take(i as int).filter_map(mypy_f(path@)),
            decreases comments@.len() - i,
        {
            proof { cv.lemma_filter_map_take_succ(mypy_f(path@), i as int); }
            let ghost before = directives_view(out@);
            match directive_for(path, &comments[i]) {
                Some(d) => {
                    out.push(d);
                    proof { assert(directives_view(out@) =~= before + seq![d@]); }
                },
                None => {},
            }
            i = i + 1;
        }
        proof { assert(cv.take(cv.len() as int) =~= cv); }
        out
    }
}

impl ToolParser for MypyParser {
    fn tool(&self) -> (t: Tool)
        ensures
            t == Tool::Mypy,
    {
        Tool::Mypy
    }

    fn applies_to(&self, file: &SourceFile) -> (b: bool)
        ensures
            b == (file@.language == Language::Python),
    {
        file.language() == Language::Python
    }

    fn parse(&self, file: &SourceFile) -> (r: Vec<IgnoreDirective>)
        ensures
            directives_view(r@) == mypy_parse_spec(file@),
    {
        self.parse_file(file)
    }
}

} // verus!
