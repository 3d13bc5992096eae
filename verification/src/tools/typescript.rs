//! TypeScript (`// @ts-ignore`) suppression parsing.
//!
//! | Source | Scope | Rules |
//! | --- | --- | --- |
//! | `// @ts-ignore` | next-line | *(blanket)* |
//! | `// @ts-expect-error the API is untyped` | next-line | *(blanket)* |
//! | `/* @ts-ignore */`, `/** @ts-expect-error */` | next-line | *(blanket)* |
//! | `// @ts-nocheck` | file | *(blanket)* |
//!
//! All of them are blanket, and any trailing text is the reason.
//! `@ts-ignore` and `@ts-expect-error` are matched on the comment's last line,
//! as `tsc` matches them; `@ts-nocheck` is a line comment only, needs a word
//! boundary, and is matched ASCII-case-blind.

use vstd::prelude::*;

use crate::comments::{Comment, CommentKind, CommentView, comments_view};
use crate::model::{
    DirectiveView, IgnoreDirective, Scope, Suppressed, Tool, directives_view, strings_view,
    opt_string_view, normalized, normalize_chars,
};
use crate::source::{Language, SourceFile, SourceView};
use crate::text::{
    chars_of, slice, is_ws, is_whitespace, trim_start, trim_start_vec, trim_end, trim_end_vec,
    strip_prefix, strip_prefix_vec, strip_suffix, strip_suffix_vec, strip_prefix_ci,
    strip_prefix_ci_vec, starts_with,
};
use crate::tools::{ToolParser, dv, whole_file, after, whole_file_exec, after_exec, make};

verus! {

/// Parses TypeScript's `@ts-` directives out of JavaScript and TypeScript.
#[derive(Debug, Clone, Copy, Default)]
pub struct TypescriptParser;

/// The `@ts-nocheck` tail of a line comment whose body is `text`: at most one
/// more slash may lead, and a word boundary must follow.
pub open spec fn nocheck_body(text: Seq<char>) -> Option<Seq<char>> {
    let body = trim_start(
        match strip_prefix(text, seq!['/']) {
            Some(t) => t,
            None => text,
        },
    );
    match strip_prefix_ci(body, "@ts-nocheck"@) {
        Some(rest) => if rest.len() == 0 || is_ws(rest[0]) { Some(rest) } else { None },
        None => None,
    }
}

/// The last index before `i` holding `c`.
pub open spec fn rfind_char(s: Seq<char>, c: char, i: int) -> Option<int>
    decreases i,
{
    if i <= 0 || i > s.len() {
        None
    } else if s[i - 1] == c {
        Some(i - 1)
    } else {
        rfind_char(s, c, i - 1)
    }
}

/// Everything after the comment's last line break, closing `*/` removed.
pub open spec fn last_line(raw: Seq<char>) -> Seq<char> {
    let tail = match rfind_char(raw, '\n', raw.len() as int) {
        Some(k) => raw.subrange(k + 1, raw.len() as int),
        None => raw,
    };
    match strip_suffix(tail, "*/"@) {
        Some(t) => t,
        None => tail,
    }
}

/// The first index at or after `i` holding neither `/` nor `*`.
pub open spec fn skip_deco(s: Seq<char>, i: int) -> int
    decreases s.len() - i,
{
    if 0 <= i < s.len() && (s[i] == '/' || s[i] == '*') {
        skip_deco(s, i + 1)
    } else {
        i
    }
}

/// The leading `/`, `*` and whitespace decoration `tsc` skips.
pub open spec fn decorated(text: Seq<char>) -> Seq<char> {
    let t = trim_start(text);
    trim_start(t.subrange(skip_deco(t, 0), t.len() as int))
}

/// The smallest index at or before `i` such that `s[..i]` ends in stars only
/// from there.
pub open spec fn skip_stars_back(s: Seq<char>, i: int) -> int
    decreases i,
{
    if 0 < i <= s.len() && s[i - 1] == '*' {
        skip_stars_back(s, i - 1)
    } else {
        i
    }
}

/// Trailing whitespace, then trailing stars, removed.
pub open spec fn trim_decoration(text: Seq<char>) -> Seq<char> {
    let t = trim_end(text);
    t.subrange(0, skip_stars_back(t, t.len() as int))
}

/// The keyword of a next-line directive at the front of `body`, longest
/// first, and the text after it.
pub open spec fn next_line_rest(body: Seq<char>) -> Option<Seq<char>> {
    match strip_prefix(body, "@ts-expect-error"@) {
        Some(r) => Some(r),
        None => strip_prefix(body, "@ts-ignore"@),
    }
}

/// The scope and reason of the `@ts-` directive a comment carries.
pub open spec fn ts_parsed(c: CommentView) -> Option<(Scope, Option<Seq<char>>)> {
    match if c.kind == CommentKind::Line { nocheck_body(c.text) } else { None } {
        Some(rest) => Some((Scope::File, normalized(rest))),
        None => match next_line_rest(decorated(last_line(c.raw))) {
            Some(rest) => Some((Scope::NextLine, normalized(trim_decoration(rest)))),
            None => None,
        },
    }
}

/// True when the text after a `//` opens a `@ts-` directive.
pub open spec fn ts_opens(after_marker: Seq<char>) -> bool {
    nocheck_body(after_marker) is Some || starts_with(decorated(after_marker), "@ts-expect-error"@)
        || starts_with(decorated(after_marker), "@ts-ignore"@)
}

pub open spec fn ts_range(scope: Scope, c: CommentView) -> Suppressed {
    if scope == Scope::File { whole_file() } else { after(c.end_line) }
}

/// The TypeScript record a comment carries, if any.
pub open spec fn ts_directive(path: Seq<char>, c: CommentView) -> Option<DirectiveView> {
    match ts_parsed(c) {
        Some((scope, reason)) => Some(
            dv(Tool::Typescript, scope, Seq::empty(), reason, path, c.line, c.end_line, c.column, c.raw, ts_range(scope, c)),
        ),
        None => None,
    }
}

pub open spec fn ts_f(path: Seq<char>) -> spec_fn(CommentView) -> Option<DirectiveView> {
    |c: CommentView| ts_directive(path, c)
}

/// Every TypeScript record in a file, in source order.
pub open spec fn ts_parse_spec(f: SourceView) -> Seq<DirectiveView> {
    f.extracted.comments.filter_map(ts_f(f.display_path))
}

pub proof fn lemma_skip_deco(s: Seq<char>, i: int)
    requires
        0 <= i <= s.len(),
    ensures
        i <= skip_deco(s, i) <= s.len(),
    decreases s.len() - i,
{
    if i < s.len() && (s[i] == '/' || s[i] == '*') {
        lemma_skip_deco(s, i + 1);
    }
}

pub proof fn lemma_skip_stars_back(s: Seq<char>, i: int)
    requires
        0 <= i <= s.len(),
    ensures
        0 <= skip_stars_back(s, i) <= i,
    decreases i,
{
    if 0 < i && s[i - 1] == '*' {
        lemma_skip_stars_back(s, i - 1);
    }
}

pub proof fn lemma_rfind_char(s: Seq<char>, c: char, i: int)
    requires
        0 <= i <= s.len(),
    ensures
        rfind_char(s, c, i) matches Some(k) ==> 0 <= k < i,
    decreases i,
{
    if 0 < i && s[i - 1] != c {
        lemma_rfind_char(s, c, i - 1);
    }
}

fn nocheck_body_vec(text: &Vec<char>) -> (r: Option<Vec<char>>)
    ensures
        r.is_some() == nocheck_body(text@).is_some(),
        r.is_some() ==> r.unwrap()@ == nocheck_body(text@).unwrap(),
{
    let slash = vec!['/'];
    proof { assert(slash@ =~= seq!['/']); }
    let stripped = match strip_prefix_vec(text, &slash) {
        Some(t) => t,
        None => slice(text, 0, text.len()),
    };
    proof {
        if strip_prefix(text@, seq!['/']).is_none() {
            assert(stripped@ =~= text@);
        }
    }
    let body = trim_start_vec(&stripped);
    let kw = chars_of("@ts-nocheck");
    match strip_prefix_ci_vec(&body, &kw) {
        Some(rest) => if rest.len() == 0 || is_whitespace(rest[0]) { Some(rest) } else { None },
        None => None,
    }
}

fn last_line_vec(raw: &Vec<char>) -> (r: Vec<char>)
    ensures
        r@ == last_line(raw@),
{
    let mut i = raw.len();
    while i > 0 && raw[i - 1] != '\n'
        invariant
            i <= raw@.len(),
            rfind_char(raw@, '\n', raw@.len() as int) == rfind_char(raw@, '\n', i as int),
        decreases i,
    {
        i = i - 1;
    }
    let tail = if i > 0 { slice(raw, i, raw.len()) } else { slice(raw, 0, raw.len()) };
    proof {
        if i == 0 {
            assert(tail@ =~= raw@);
        }
    }
    let close = chars_of("*/");
    match strip_suffix_vec(&tail, &close) {
        Some(t) => t,
        None => tail,
    }
}

fn decorated_vec(text: &Vec<char>) -> (r: Vec<char>)
    ensures
        r@ == decorated(text@),
{
    let t = trim_start_vec(text);
    proof { lemma_skip_deco(t@, 0); }
    let mut i: usize = 0;
    while i < t.len() && (t[i] == '/' || t[i] == '*')
        invariant
            i <= t@.len(),
            skip_deco(t@, i as int) == skip_deco(t@, 0),
        decreases t@.len() - i,
    {
        i = i + 1;
    }
    trim_start_vec(&slice(&t, i, t.len()))
}

fn trim_decoration_vec(text: &Vec<char>) -> (r: Vec<char>)
    ensures
        r@ == trim_decoration(text@),
{
    let t = trim_end_vec(text);
    proof { lemma_skip_stars_back(t@, t@.len() as int); }
    let mut i = t.len();
    while i > 0 && t[i - 1] == '*'
        invariant
            i <= t@.len(),
            skip_stars_back(t@, i as int) == skip_stars_back(t@, t@.len() as int),
        decreases i,
    {
        i = i - 1;
    }
    slice(&t, 0, i)
}

fn next_line_rest_vec(body: &Vec<char>) -> (r: Option<Vec<char>>)
    ensures
        r.is_some() == next_line_rest(body@).is_some(),
        r.is_some() ==> r.unwrap()@ == next_line_rest(body@).unwrap(),
{
    let expect = chars_of("@ts-expect-error");
    match strip_prefix_vec(body, &expect) {
        Some(r) => Some(r),
        None => {
            let ignore = chars_of("@ts-ignore");
            strip_prefix_vec(body, &ignore)
        },
    }
}

fn parsed_vec(c: &Comment) -> (r: Option<(Scope, Option<String>)>)
    ensures
        match (r, ts_parsed(c@)) {
            (Some((s, reason)), Some((sv, rv))) => s == sv && opt_string_view(reason) == rv,
            (None, None) => true,
            _ => false,
        },
{
    if c.kind == CommentKind::Line {
        let text = chars_of(c.text.as_str());
        match nocheck_body_vec(&text) {
            Some(rest) => {
                return Some((Scope::File, normalize_chars(&rest)));
            },
            None => {},
        }
    }
    let raw = chars_of(c.raw.as_str());
    let body = decorated_vec(&last_line_vec(&raw));
    match next_line_rest_vec(&body) {
        Some(rest) => Some((Scope::NextLine, normalize_chars(&trim_decoration_vec(&rest)))),
        None => None,
    }
}

/// True when the text after a `//` opens a `@ts-` directive.
pub fn opens_directive(after_marker: &Vec<char>) -> (b: bool)
    ensures
        b == ts_opens(after_marker@),
{
    if nocheck_body_vec(after_marker).is_some() {
        return true;
    }
    let d = decorated_vec(after_marker);
    let expect = chars_of("@ts-expect-error");
    let ignore = chars_of("@ts-ignore");
    strip_prefix_vec(&d, &expect).is_some() || strip_prefix_vec(&d, &ignore).is_some()
}

fn directive_for(path: &str, c: &Comment) -> (r: Option<IgnoreDirective>)
    ensures
        match (r, ts_directive(path@, c@)) {
            (Some(d), Some(v)) => d@ == v,
            (None, None) => true,
            _ => false,
        },
{
    match parsed_vec(c) {
        Some((scope, reason)) => {
            let sup = if scope == Scope::File { whole_file_exec() } else { after_exec(c.end_line) };
            let rules: Vec<String> = Vec::new();
            proof { assert(strings_view(rules@) =~= Seq::<Seq<char>>::empty()); }
            Some(make(Tool::Typescript, scope, rules, reason, path, c.line, c.end_line, c.column, c.raw.clone(), sup))
        },
        None => None,
    }
}

impl TypescriptParser {
    /// Every TypeScript directive in `file`, in source order.
    pub fn parse_file(&self, file: &SourceFile) -> (r: Vec<IgnoreDirective>)
        ensures
            directives_view(r@) == ts_parse_spec(file@),
    {
        let comments = file.comments();
        let path = file.display_path();
        let ghost cv = comments_view(comments@);
        let mut out: Vec<IgnoreDirective> = Vec::new();
        let mut i: usize = 0;
        while i < comments.len()
            invariant
                cv == comments_view(comments@),
                cv == file@.extracted.comments,
                path@ == file@.display_path,
                i <= comments@.len(),
                directives_view(out@) == cv.take(i as int).filter_map(ts_f(path@)),
            decreases comments@.len() - i,
        {
            proof { cv.lemma_filter_map_take_succ(ts_f(path@), i as int); }
            let ghost before = directives_view(out@);
            match directive_for(path, &comments[i]) {
                Some(d) => {
                    out.push(d);
                    proof { assert(directives_view(out@) =~= before + seq![d@]); }
                },
                None => {},
            }
            i = i + 1;
        }
        proof { assert(cv.take(cv.len() as int) =~= cv); }
        out
    }
}

impl ToolParser for TypescriptParser {
    fn tool(&self) -> (t: Tool)
        ensures
            t == Tool::Typescript,
    {
        Tool::Typescript
    }

    fn applies_to(&self, file: &SourceFile) -> (b: bool)
        ensures
            b == (file@.language == Language::JavaScript || file@.language == Language::TypeScript),
    {
        file.language() == Language::JavaScript || file.language() == Language::TypeScript
    }

    fn parse(&self, file: &SourceFile) -> (r: Vec<IgnoreDirective>)
        ensures
            directives_view(r@) == ts_parse_spec(file@),
    {
        self.parse_file(file)
    }
}

} // verus!
