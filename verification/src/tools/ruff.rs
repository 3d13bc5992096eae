//! Ruff (`# noqa`) suppression parsing.
//!
//! | Source | Scope | Rules |
//! | --- | --- | --- |
//! | `# noqa` | line | *(blanket)* |
//! | `# noqa: E501, F401` | line | `E501`, `F401` |
//! | `# ruff: noqa` | file | *(blanket)* |
//! | `# ruff: noqa: E501` | file | `E501` |
//!
//! `noqa` is matched case-insensitively and need not start the comment. A
//! directive whose codes do not parse is reported as a blanket suppression.

use vstd::prelude::*;

use crate::comments::{Comment, CommentView, comments_view, sat_u32};
use crate::model::{DirectiveView, IgnoreDirective, Scope, Suppressed, Tool, directives_view, strings_view, opt_string_view};
use crate::source::{Language, SourceFile, SourceView};
use crate::text::{
    chars_of, slice, to_string, is_ws, is_whitespace, trim_start, trim_start_vec, strip_prefix,
    strip_prefix_vec, strip_prefix_ci, strip_prefix_ci_vec, alphanumeric, is_alphanumeric,
    is_ascii_alpha, is_ascii_digit, is_ascii_alnum, ascii_alpha, ascii_digit, ascii_alnum,
};
use crate::tools::python::{SegView, Segment, segments_spec, segments_of, trailing_reason_spec, trailing_reason_vec};
use crate::tools::{ToolParser, dv, whole_file, just, whole_file_exec, just_exec, make};

verus! {

/// Parses ruff's `# noqa` family out of Python sources.
#[derive(Debug, Clone, Copy)]
pub struct RuffParser;

/// `noqa`, any case, with no identifier character after it.
pub open spec fn strip_noqa(input: Seq<char>) -> Option<Seq<char>> {
    match strip_prefix_ci(input, "noqa"@) {
        Some(rest) => if rest.len() == 0 || (!alphanumeric(rest[0]) && rest[0] != '_') {
            Some(rest)
        } else {
            None
        },
        None => None,
    }
}

/// The scope and the text after `noqa` of a directive right after a `#`.
pub open spec fn directive_at(after_hash: Seq<char>) -> Option<(Scope, Seq<char>)> {
    let t = trim_start(after_hash);
    match strip_prefix_ci(t, "ruff:"@) {
        Some(ap) => match strip_noqa(trim_start(ap)) {
            Some(rest) => Some((Scope::File, rest)),
            None => None,
        },
        None => match strip_noqa(t) {
            Some(rest) => Some((Scope::Line, rest)),
            None => None,
        },
    }
}

pub open spec fn ruff_opens(after_hash: Seq<char>) -> bool {
    directive_at(after_hash) is Some
}

fn strip_noqa_vec(input: &Vec<char>) -> (r: Option<Vec<char>>)
    ensures
        r.is_some() == strip_noqa(input@).is_some(),
        r.is_some() ==> r.unwrap()@ == strip_noqa(input@).unwrap(),
{
    let kw = chars_of("noqa");
    match strip_prefix_ci_vec(input, &kw) {
        Some(rest) => if rest.len() == 0 || (!is_alphanumeric(rest[0]) && rest[0] != '_') {
            Some(rest)
        } else {
            None
        },
        None => None,
    }
}

fn directive_at_vec(after_hash: &Vec<char>) -> (r: Option<(Scope, Vec<char>)>)
    ensures
        match (r, directive_at(after_hash@)) {
            (Some((a, b)), Some((x, y))) => a == x && b@ == y,
            (None, None) => true,
            _ => false,
        },
{
    let t = trim_start_vec(after_hash);
    let prefix = chars_of("ruff:");
    match strip_prefix_ci_vec(&t, &prefix) {
        Some(ap) => match strip_noqa_vec(&trim_start_vec(&ap)) {
            Some(rest) => Some((Scope::File, rest)),
            None => None,
        },
        None => match strip_noqa_vec(&t) {
            Some(rest) => Some((Scope::Line, rest)),
            None => None,
        },
    }
}

/// True when the text after a `#` opens a ruff directive.
pub fn opens_directive(after_hash: &Vec<char>) -> (b: bool)
    ensures
        b == ruff_opens(after_hash@),
{
    directive_at_vec(after_hash).is_some()
}

// ---------------------------------------------------------------------------
// Rule codes.

/// The first index at or after `i` holding neither whitespace nor a comma.
pub open spec fn skip_ws_comma(s: Seq<char>, i: int) -> int
    decreases s.len() - i,
{
    if 0 <= i < s.len() && (is_ws(s[i]) || s[i] == ',') {
        skip_ws_comma(s, i + 1)
    } else {
        i
    }
}

/// The first index at or after `i` not holding `pred`'s kind of character:
/// ASCII letters when `alpha`, else ASCII digits, else (neither) ASCII
/// alphanumerics.
pub open spec fn run_end(s: Seq<char>, i: int, kind: int) -> int
    decreases s.len() - i,
{
    if 0 <= i < s.len() && kind_spec(s[i], kind) {
        run_end(s, i + 1, kind)
    } else {
        i
    }
}

pub proof fn lemma_run_end(s: Seq<char>, i: int, kind: int)
    requires
        0 <= i <= s.len(),
    ensures
        i <= run_end(s, i, kind) <= s.len(),
    decreases s.len() - i,
{
    if i < s.len() && kind_spec(s[i], kind) {
        lemma_run_end(s, i + 1, kind);
    }
}

pub proof fn lemma_skip_ws_comma(s: Seq<char>, i: int)
    requires
        0 <= i <= s.len(),
    ensures
        i <= skip_ws_comma(s, i) <= s.len(),
    decreases s.len() - i,
{
    if i < s.len() && (is_ws(s[i]) || s[i] == ',') {
        lemma_skip_ws_comma(s, i + 1);
    }
}

pub open spec fn kind_spec(c: char, kind: int) -> bool {
    if kind == 0 {
        is_ascii_alpha(c)
    } else if kind == 1 {
        is_ascii_digit(c)
    } else {
        is_ascii_alnum(c)
    }
}

fn of_kind(c: char, kind: u8) -> (b: bool)
    ensures
        b == kind_spec(c, kind as int),
{
    if kind == 0 {
        ascii_alpha(c)
    } else if kind == 1 {
        ascii_digit(c)
    } else {
        ascii_alnum(c)
    }
}

fn run_end_exec(s: &Vec<char>, i: usize, kind: u8) -> (r: usize)
    requires
        i <= s@.len(),
    ensures
        r == run_end(s@, i as int, kind as int),
        i <= r <= s@.len(),
{
    proof { lemma_run_end(s@, i as int, kind as int); }
    let mut j = i;
    while j < s.len() && of_kind(s[j], kind)
        invariant
            i <= j <= s@.len(),
            run_end(s@, j as int, kind as int) == run_end(s@, i as int, kind as int),
        decreases s@.len() - j,
    {
        j = j + 1;
    }
    j
}

/// A ruff rule code: a linter prefix of letters followed by a number (`E501`).
pub open spec fn rule_code_spec(t: Seq<char>) -> bool {
    let letters = run_end(t, 0, 0);
    let digits = run_end(t, letters, 1) - letters;
    letters > 0 && digits > 0 && letters + digits == t.len()
}

fn is_rule_code_vec(t: &Vec<char>) -> (b: bool)
    ensures
        b == rule_code_spec(t@),
{
    let letters = run_end_exec(t, 0, 0);
    let end = run_end_exec(t, letters, 1);
    letters > 0 && end - letters > 0 && end == t.len()
}

/// Whether `token` has the shape of a ruff rule code.
pub fn is_rule_code(token: &str) -> (b: bool)
    ensures
        b == rule_code_spec(token@),
{
    let t = chars_of(token);
    is_rule_code_vec(&t)
}

/// `t` is one or more ASCII letters followed by one or more ASCII digits.
pub open spec fn letters_then_digits(t: Seq<char>) -> bool {
    exists|n: int| #[trigger] digits_from(t, n)
}

/// `t` is letters before index `n` and digits from it on, with some of each.
pub open spec fn digits_from(t: Seq<char>, n: int) -> bool {
    &&& 0 < n < t.len()
    &&& forall|i: int| 0 <= i < n ==> is_ascii_alpha(#[trigger] t[i])
    &&& forall|i: int| n <= i < t.len() ==> is_ascii_digit(#[trigger] t[i])
}

proof fn lemma_run_end_at(s: Seq<char>, i: int, j: int, kind: int)
    requires
        0 <= i <= j <= s.len(),
        forall|m: int| i <= m < j ==> kind_spec(#[trigger] s[m], kind),
        j < s.len() ==> !kind_spec(s[j], kind),
    ensures
        run_end(s, i, kind) == j,
    decreases j - i,
{
    if i < j {
        lemma_run_end_at(s, i + 1, j, kind);
    }
}

proof fn lemma_run_end_kind(s: Seq<char>, i: int, kind: int)
    requires
        0 <= i <= s.len(),
    ensures
        forall|m: int| i <= m < run_end(s, i, kind) ==> kind_spec(#[trigger] s[m], kind),
        run_end(s, i, kind) < s.len() ==> !kind_spec(s[run_end(s, i, kind)], kind),
    decreases s.len() - i,
{
    if i < s.len() && kind_spec(s[i], kind) {
        lemma_run_end_kind(s, i + 1, kind);
    }
}

/// A rule code is exactly a linter prefix of one or more ASCII letters, of
/// any length, followed by a number of one or more ASCII digits.
pub proof fn law_rule_code_is_letters_then_digits(t: Seq<char>)
    ensures
        rule_code_spec(t) <==> letters_then_digits(t),
{
    lemma_run_end(t, 0, 0);
    lemma_run_end_kind(t, 0, 0);
    let letters = run_end(t, 0, 0);
    lemma_run_end(t, letters, 1);
    lemma_run_end_kind(t, letters, 1);
    if rule_code_spec(t) {
        assert forall|i: int| 0 <= i < letters implies is_ascii_alpha(#[trigger] t[i]) by {
            assert(kind_spec(t[i], 0));
        }
        assert forall|i: int| letters <= i < t.len() implies is_ascii_digit(#[trigger] t[i]) by {
            assert(kind_spec(t[i], 1));
        }
        assert(digits_from(t, letters));
    }
    if letters_then_digits(t) {
        let n = choose|n: int| digits_from(t, n);
        assert(is_ascii_digit(t[n]));
        lemma_run_end_at(t, 0, n, 0);
        lemma_run_end_at(t, n, t.len() as int, 1);
    }
}

/// A rule code standing alone after `noqa:` is read as exactly that one code.
pub proof fn law_lone_code_is_read(t: Seq<char>)
    requires
        letters_then_digits(t),
    ensures
        codes(t).0 == seq![t],
{
    law_rule_code_is_letters_then_digits(t);
    let n = choose|n: int| digits_from(t, n);
    assert(is_ascii_alpha(t[0]));
    assert(skip_ws_comma(t, 0) == 0);
    let cand = t.subrange(0, t.len() as int);
    assert(cand =~= t);
    assert forall|m: int| 0 <= m < t.len() implies kind_spec(#[trigger] t[m], 2) by {
        if m < n {
            assert(is_ascii_alpha(t[m]));
        } else {
            assert(is_ascii_digit(t[m]));
        }
    }
    lemma_run_end_at(t, 0, t.len() as int, 2);
    assert(t.subrange(0, t.len() as int) =~= t);
    let rest = t.subrange(t.len() as int, t.len() as int);
    assert(rest.len() == 0);
    assert(codes(rest).0 =~= Seq::<Seq<char>>::empty()) by {
        assert(skip_ws_comma(rest, 0) == 0);
        lemma_run_end_at(rest, 0, 0, 2);
    }
    assert(seq![t] + Seq::<Seq<char>>::empty() =~= seq![t]);
}

/// The run of rule codes at the front of `input`, and what follows it.
pub open spec fn codes(input: Seq<char>) -> (Seq<Seq<char>>, Seq<char>)
    decreases input.len(),
{
    let a = skip_ws_comma(input, 0);
    let cand = input.subrange(a, input.len() as int);
    let e = run_end(cand, 0, 2);
    let token = cand.subrange(0, e);
    if a < 0 || a > input.len() || e <= 0 || e > cand.len() || !rule_code_spec(token) {
        (Seq::empty(), input)
    } else {
        let rest = codes(cand.subrange(e, cand.len() as int));
        (seq![token] + rest.0, rest.1)
    }
}

fn parse_codes(input: &Vec<char>) -> (r: (Vec<String>, Vec<char>))
    ensures
        strings_view(r.0@) == codes(input@).0,
        r.1@ == codes(input@).1,
{
    let mut rules: Vec<String> = Vec::new();
    let mut remainder = slice(input, 0, input.len());
    proof { assert(remainder@ =~= input@); }
    loop
        invariant
            codes(input@).0 == strings_view(rules@) + codes(remainder@).0,
            codes(input@).1 == codes(remainder@).1,
        decreases remainder@.len(),
    {
        let mut a: usize = 0;
        proof { lemma_skip_ws_comma(remainder@, 0); }
        while a < remainder.len() && (is_whitespace(remainder[a]) || remainder[a] == ',')
            invariant
                a <= remainder@.len(),
                skip_ws_comma(remainder@, a as int) == skip_ws_comma(remainder@, 0),
            decreases remainder@.len() - a,
        {
            a = a + 1;
        }
        let cand = slice(&remainder, a, remainder.len());
        let e = run_end_exec(&cand, 0, 2);
        let token = slice(&cand, 0, e);
        if e == 0 || !is_rule_code_vec(&token) {
            proof {
                assert(codes(remainder@).0 =~= Seq::<Seq<char>>::empty());
                assert(strings_view(rules@) + Seq::<Seq<char>>::empty() =~= strings_view(rules@));
            }
            return (rules, remainder);
        }
        let ghost before = strings_view(rules@);
        rules.push(to_string(&token));
        proof {
            assert(strings_view(rules@) =~= before + seq![token@]);
        }
        remainder = slice(&cand, e, cand.len());
    }
}

/// The codes after `noqa:` and the reason after them.
pub open spec fn ruff_rules_and_reason(rest: Seq<char>) -> (Seq<Seq<char>>, Option<Seq<char>>) {
    let trimmed = trim_start(rest);
    let (rules, remainder) = match strip_prefix(trimmed, seq![':']) {
        Some(after_colon) => codes(after_colon),
        None => (Seq::empty(), rest),
    };
    (rules, trailing_reason_spec(remainder))
}

fn ruff_rules_and_reason_vec(rest: &Vec<char>) -> (r: (Vec<String>, Option<String>))
    ensures
        strings_view(r.0@) == ruff_rules_and_reason(rest@).0,
        opt_string_view(r.1) == ruff_rules_and_reason(rest@).1,
{
    let trimmed = trim_start_vec(rest);
    let colon = vec![':'];
    proof { assert(colon@ =~= seq![':']); }
    let (rules, remainder) = match strip_prefix_vec(&trimmed, &colon) {
        Some(after_colon) => parse_codes(&after_colon),
        None => {
            proof { assert(strings_view(Seq::<String>::empty()) =~= Seq::<Seq<char>>::empty()); }
            (Vec::new(), slice(rest, 0, rest.len()))
        },
    };
    proof {
        if strip_prefix(trimmed@, seq![':']).is_none() {
            assert(remainder@ =~= rest@);
        }
    }
    let reason = trailing_reason_vec(&remainder);
    (rules, reason)
}

// ---------------------------------------------------------------------------
// Records.

/// The first run of a comment that opens a ruff directive.
pub open spec fn first_ruff(segs: Seq<SegView>) -> Option<(SegView, Scope, Seq<char>)>
    decreases segs.len(),
{
    if segs.len() == 0 {
        None
    } else {
        match directive_at(segs[0].after_hash) {
            Some((scope, rest)) => Some((segs[0], scope, rest)),
            None => first_ruff(segs.drop_first()),
        }
    }
}

pub open spec fn range_for(scope: Scope, line: u32) -> Suppressed {
    if scope == Scope::File { whole_file() } else { just(line) }
}

/// The ruff record a comment carries, if any: ruff honours at most one
/// directive per comment.
pub open spec fn ruff_directive(path: Seq<char>, c: CommentView) -> Option<DirectiveView> {
    match first_ruff(segments_spec(c)) {
        Some((seg, scope, rest)) => Some(
            dv(
                Tool::Ruff,
                scope,
                ruff_rules_and_reason(rest).0,
                ruff_rules_and_reason(rest).1,
                path,
                c.line,
                c.end_line,
                seg.column,
                seg.raw,
                range_for(scope, c.line),
            ),
        ),
        None => None,
    }
}

pub open spec fn ruff_f(path: Seq<char>) -> spec_fn(CommentView) -> Option<DirectiveView> {
    |c: CommentView| ruff_directive(path, c)
}

/// Every ruff record in a file, in source order.
pub open spec fn ruff_parse_spec(f: SourceView) -> Seq<DirectiveView> {
    f.extracted.comments.filter_map(ruff_f(f.display_path))
}

fn directive_for(path: &str, c: &Comment) -> (r: Option<IgnoreDirective>)
    ensures
        match (r, ruff_directive(path@, c@)) {
            (Some(d), Some(v)) => d@ == v,
            (None, None) => true,
            _ => false,
        },
{
    let segs = segments_of(c);
    let ghost sv = segs@.map_values(|s: Segment| s@);
    proof { assert(sv.skip(0) =~= sv); }
    let mut k: usize = 0;
    while k < segs.len()
        invariant
            sv == segs@.map_values(|s: Segment| s@),
            sv == segments_spec(c@),
            k <= segs@.len(),
            first_ruff(sv) == first_ruff(sv.skip(k as int)),
        decreases segs@.len() - k,
    {
        let after = chars_of(segs[k].after_hash.as_str());
        proof {
            assert(sv.skip(k as int)[0] == segs@[k as int]@);
            assert(sv.skip(k as int).drop_first() =~= sv.skip(k + 1));
        }
        match directive_at_vec(&after) {
            Some((scope, rest)) => {
                let (rules, reason) = ruff_rules_and_reason_vec(&rest);
                let sup = if scope == Scope::File { whole_file_exec() } else { just_exec(c.line) };
                return Some(make(
                    Tool::Ruff,
                    scope,
                    rules,
                    reason,
                    path,
                    c.line,
                    c.end_line,
                    segs[k].column,
                    segs[k].raw.clone(),
                    sup,
                ));
            },
            None => {},
        }
        k = k + 1;
    }
    proof { assert(sv.skip(k as int) =~= Seq::<SegView>::empty()); }
    None
}

impl RuffParser {
    /// Every ruff directive in `file`, in source order.
    pub fn parse_file(&self, file: &SourceFile) -> (r: Vec<IgnoreDirective>)
        ensures
            directives_view(r@) == ruff_parse_spec(file@),
    {
        let comments = file.comments();
        let path = file.display_path();
        let ghost cv = comments_view(comments@);
        let mut out: Vec<IgnoreDirective> = Vec::new();
        let mut i: usize = 0;
        while i < comments.len()
            invariant
                cv == comments_view(comments@),
                cv == file@.extracted.comments,
                path@ == file@.display_path,
                i <= comments@.len(),
                directives_view(out@) == cv.take(i as int).filter_map(ruff_f(path@)),
            decreases comments@.len() - i,
        {
            proof { cv.lemma_filter_map_take_succ(ruff_f(path@), i as int); }
            let ghost before = directives_view(out@);
            match directive_for(path, &comments[i]) {
                Some(d) => {
                    out.push(d);
                    proof { assert(directives_view(out@) =~= before + seq![d@]); }
                },
                None => {},
            }
            i = i + 1;
        }
        proof { assert(cv.take(cv.len() as int) =~= cv); }
        out
    }
}

impl ToolParser for RuffParser {
    fn tool(&self) -> (t: Tool)
        ensures
            t == Tool::Ruff,
    {
        Tool::Ruff
    }

    fn applies_to(&self, file: &SourceFile) -> (b: bool)
        ensures
            b == (file@.language == Language::Python),
    {
        file.language() == Language::Python
    }

    fn parse(&self, file: &SourceFile) -> (r: Vec<IgnoreDirective>)
        ensures
            directives_view(r@) == ruff_parse_spec(file@),
    {
        self.parse_file(file)
    }
}

} // verus!
