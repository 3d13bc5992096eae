//! ShellCheck (`# shellcheck disable=…`) suppression parsing.
//!
//! | Source | Scope | Rules |
//! | --- | --- | --- |
//! | `# shellcheck disable=SC2086` (before the first command) | file | `SC2086` |
//! | `# shellcheck disable=SC2086` (after one) | next-line | `SC2086` |
//! | `# shellcheck disable=SC2086,SC2046` | — | both |
//! | `# shellcheck disable=SC2000-SC2100` | — | the range, as written |
//! | `# shellcheck disable=all` | — | *(blanket)* |
//!
//! `# shellcheck` must open a comment that owns its line; every token after it
//! is `key=value` until a `#` starts the reason, and anything else voids the
//! directive, as it does for ShellCheck.

use vstd::prelude::*;

use crate::comments::{Comment, CommentView, comments_view, sat_u32};
use crate::model::{
    DirectiveView, IgnoreDirective, Scope, Suppressed, Tool, directives_view, strings_view,
    opt_string_view, normalized, normalize_chars,
};
use crate::source::{Language, SourceFile, SourceView, source_view_ok};
use crate::text::{
    chars_of, slice, to_string, is_ws, is_whitespace, trim, trim_vec, trim_start, trim_start_vec,
    skip_ws, skip_ws_from, lemma_skip_ws, strip_prefix, strip_prefix_vec, split_char, split_char_vec,
    split_from, lemma_split_len, chars_view, split_once, split_once_vec, eq_str,
};
use crate::tools::{ToolParser, has_leading_on, leading_on, dv, whole_file, after, whole_file_exec, after_exec, make};

verus! {

/// Parses ShellCheck's `disable=` directives out of shell scripts.
#[derive(Debug, Clone, Copy, Default)]
pub struct ShellcheckParser;

/// The first index at or after `i` holding whitespace, or the end.
pub open spec fn ws_from(s: Seq<char>, i: int) -> int
    decreases s.len() - i,
{
    if 0 <= i < s.len() && !is_ws(s[i]) {
        ws_from(s, i + 1)
    } else {
        i
    }
}

pub proof fn lemma_ws_from(s: Seq<char>, i: int)
    requires
        0 <= i <= s.len(),
    ensures
        i <= ws_from(s, i) <= s.len(),
    decreases s.len() - i,
{
    if i < s.len() && !is_ws(s[i]) {
        lemma_ws_from(s, i + 1);
    }
}

/// The codes a `disable=` value names among its first `j` comma-separated
/// pieces: empty pieces and `all` left out.
pub open spec fn codes_upto(p: Seq<Seq<char>>, j: int) -> Seq<Seq<char>>
    decreases j,
{
    if j <= 0 || j > p.len() {
        Seq::empty()
    } else {
        codes_upto(p, j - 1) + if p[j - 1].len() > 0 && p[j - 1] != "all"@ {
            seq![p[j - 1]]
        } else {
            Seq::empty()
        }
    }
}

/// Whether one of the first `j` pieces is `all`.
pub open spec fn all_upto(p: Seq<Seq<char>>, j: int) -> bool {
    exists|k: int| 0 <= k < j && k < p.len() && p[k] == "all"@
}

/// What the tokens from `i` on disable: the codes, whether `all` was among
/// them, whether any `disable` key was seen, and the reason; `None` when a
/// token is not `key=value`.
pub open spec fn sc_scan(s: Seq<char>, i: int) -> Option<(Seq<Seq<char>>, bool, bool, Option<Seq<char>>)>
    decreases s.len() - i,
{
    if i < 0 || i >= s.len() {
        Some((Seq::empty(), false, false, None))
    } else if s[i] == '#' {
        Some((Seq::empty(), false, false, normalized(s.subrange(i + 1, s.len() as int))))
    } else {
        let end = ws_from(s, i);
        if end <= i || end > s.len() {
            None
        } else {
            match split_once(s.subrange(i, end), '=') {
                None => None,
                Some((key, value)) => {
                    proof { lemma_skip_ws(s, end); }
                    let next = skip_ws(s, end);
                    match sc_scan(s, next) {
                        None => None,
                        Some((r, b, d, reason)) => if key == "disable"@ {
                            let p = split_char(value, ',');
                            Some((codes_upto(p, p.len() as int) + r, all_upto(p, p.len() as int) || b, true, reason))
                        } else {
                            Some((r, b, d, reason))
                        },
                    }
                },
            }
        }
    }
}

/// What a scan already done contributes in front of the rest.
pub open spec fn sc_join(
    r0: Seq<Seq<char>>,
    b0: bool,
    d0: bool,
    t: Option<(Seq<Seq<char>>, bool, bool, Option<Seq<char>>)>,
) -> Option<(Seq<Seq<char>>, bool, bool, Option<Seq<char>>)> {
    match t {
        None => None,
        Some((r, b, d, reason)) => Some((r0 + r, b0 || b, d0 || d, reason)),
    }
}

/// The rules a `shellcheck` directive disables and its reason, or `None` when
/// it disables nothing or ShellCheck would reject it. `disable=all` is the
/// blanket suppression, spelled as no rules.
pub open spec fn disabled_spec(directive: Seq<char>) -> Option<(Seq<Seq<char>>, Option<Seq<char>>)> {
    match sc_scan(directive, skip_ws(directive, 0)) {
        None => None,
        Some((rules, blanket, disables, reason)) => if !disables || (rules.len() == 0 && !blanket) {
            None
        } else {
            Some((if blanket { Seq::empty() } else { rules }, reason))
        },
    }
}

/// The rules and reason of a `shellcheck disable=` comment.
pub open spec fn sc_body(after_hash: Seq<char>) -> Option<(Seq<Seq<char>>, Option<Seq<char>>)> {
    match strip_prefix(trim_start(after_hash), "shellcheck"@) {
        Some(rest) => if rest.len() > 0 && is_ws(rest[0]) { disabled_spec(rest) } else { None },
        None => None,
    }
}

/// True when the text after a `#` opens a ShellCheck suppression.
pub open spec fn sc_opens(after_hash: Seq<char>) -> bool {
    sc_body(after_hash) is Some
}

/// The first line, from piece `i` on, that holds a command: neither blank nor
/// a whole-line comment.
pub open spec fn command_from(f: SourceView, p: Seq<Seq<char>>, i: int) -> Option<int>
    decreases p.len() - i,
{
    if i < 0 || i >= p.len() {
        None
    } else if trim(p[i]).len() > 0 && !has_leading_on(f.extracted.comments, sat_u32(i + 1) as int) {
        Some(sat_u32(i + 1) as int)
    } else {
        command_from(f, p, i + 1)
    }
}

/// The first line holding a command, or `None` for a file of comments and
/// blank lines.
pub open spec fn first_command(f: SourceView) -> Option<int> {
    command_from(f, split_char(f.source, '\n'), 0)
}

/// Before the first command a directive covers the file; after it, the
/// command that follows.
pub open spec fn sc_scope(f: SourceView, line: u32) -> Scope {
    match first_command(f) {
        Some(cmd) => if line > cmd { Scope::NextLine } else { Scope::File },
        None => Scope::File,
    }
}

pub open spec fn sc_range(scope: Scope, line: u32) -> Suppressed {
    if scope == Scope::File { whole_file() } else { after(line) }
}

/// The ShellCheck record a comment of `f` carries, if any.
pub open spec fn sc_directive(f: SourceView, c: CommentView) -> Option<DirectiveView> {
    if !c.leading {
        None
    } else {
        match strip_prefix(c.raw, seq!['#']) {
            None => None,
            Some(body) => match sc_body(body) {
                None => None,
                Some((rules, reason)) => Some(
                    dv(
                        Tool::Shellcheck,
                        sc_scope(f, c.line),
                        rules,
                        reason,
                        f.display_path,
                        c.line,
                        c.end_line,
                        c.column,
                        c.raw,
                        sc_range(sc_scope(f, c.line), c.line),
                    ),
                ),
            },
        }
    }
}

pub open spec fn sc_f(f: SourceView) -> spec_fn(CommentView) -> Option<DirectiveView> {
    |c: CommentView| sc_directive(f, c)
}

/// Every ShellCheck record in a file, in source order.
pub open spec fn sc_parse_spec(f: SourceView) -> Seq<DirectiveView> {
    f.extracted.comments.filter_map(sc_f(f))
}

fn ws_from_exec(s: &Vec<char>, i: usize) -> (r: usize)
    requires
        i <= s@.len(),
    ensures
        r == ws_from(s@, i as int),
        i <= r <= s@.len(),
{
    proof { lemma_ws_from(s@, i as int); }
    let mut j = i;
    while j < s.len() && !is_whitespace(s[j])
        invariant
            i <= j <= s@.len(),
            ws_from(s@, j as int) == ws_from(s@, i as int),
        decreases s@.len() - j,
    {
        j = j + 1;
    }
    j
}

/// The codes of one `disable=` value, appended to `rules`; whether `all` was
/// among them.
fn take_codes(value: &Vec<char>, rules: &mut Vec<String>) -> (all: bool)
    ensures
        strings_view(final(rules)@) == strings_view(old(rules)@) + codes_upto(split_char(value@, ','), split_char(value@, ',').len() as int),
        all == all_upto(split_char(value@, ','), split_char(value@, ',').len() as int),
{
    let pieces = split_char_vec(value, ',');
    let ghost p = chars_view(pieces@);
    let ghost r0 = strings_view(rules@);
    let mut all = false;
    let mut j: usize = 0;
    while j < pieces.len()
        invariant
            p == chars_view(pieces@),
            p == split_char(value@, ','),
            j <= pieces@.len(),
            strings_view(rules@) == r0 + codes_upto(p, j as int),
            all == all_upto(p, j as int),
        decreases pieces@.len() - j,
    {
        proof { assert(p[j as int] == pieces@[j as int]@); }
        let ghost before = strings_view(rules@);
        if pieces[j].len() > 0 && !eq_str(&pieces[j], "all") {
            let code = to_string(&pieces[j]);
            rules.push(code);
            proof {
                assert(codes_upto(p, j + 1) == codes_upto(p, j as int) + seq![p[j as int]]);
                assert(strings_view(rules@) =~= before + seq![code@]);
                assert(strings_view(rules@) =~= r0 + codes_upto(p, j + 1));
            }
        } else {
            proof { assert(strings_view(rules@) =~= r0 + codes_upto(p, j + 1)); }
        }
        if eq_str(&pieces[j], "all") {
            all = true;
        }
        proof {
            if all_upto(p, j + 1) && !all_upto(p, j as int) {
                assert(p[j as int] == "all"@);
            }
        }
        j = j + 1;
    }
    all
}

fn disabled_rules(s: &Vec<char>) -> (r: Option<(Vec<String>, Option<String>)>)
    ensures
        match (r, disabled_spec(s@)) {
            (Some((rules, reason)), Some((rv, rr))) => strings_view(rules@) == rv && opt_string_view(reason) == rr,
            (None, None) => true,
            _ => false,
        },
{
    let mut rules: Vec<String> = Vec::new();
    let mut blanket = false;
    let mut disables = false;
    let start = skip_ws_from(s, 0);
    let mut i = start;
    proof {
        lemma_skip_ws(s@, 0);
        assert(strings_view(rules@) =~= Seq::<Seq<char>>::empty());
        match sc_scan(s@, start as int) {
            Some((r, b, d, reason)) => { assert(Seq::<Seq<char>>::empty() + r =~= r); },
            None => {},
        }
    }
    let mut reason: Option<String> = None;
    loop
        invariant
            i <= s@.len(),
            start as int == skip_ws(s@, 0),
            sc_scan(s@, start as int) == sc_join(strings_view(rules@), blanket, disables, sc_scan(s@, i as int)),
        ensures
            sc_scan(s@, start as int) == Some((strings_view(rules@), blanket, disables, opt_string_view(reason))),
        decreases s@.len() - i,
    {
        if i >= s.len() {
            reason = None;
            proof { assert(strings_view(rules@) + Seq::<Seq<char>>::empty() =~= strings_view(rules@)); }
            break;
        }
        if s[i] == '#' {
            reason = normalize_chars(&slice(s, i + 1, s.len()));
            proof { assert(strings_view(rules@) + Seq::<Seq<char>>::empty() =~= strings_view(rules@)); }
            break;
        }
        let end = ws_from_exec(s, i);
        if end == i {
            proof {
                assert(sc_scan(s@, i as int) is None);
            }
            return None;
        }
        let token = slice(s, i, end);
        match split_once_vec(&token, '=') {
            None => {
                proof {
                    assert(sc_scan(s@, i as int) is None);
                }
                return None;
            },
            Some((key, value)) => {
                proof { lemma_skip_ws(s@, end as int); }
                let ghost r0 = strings_view(rules@);
                if eq_str(&key, "disable") {
                    disables = true;
                    let all = take_codes(&value, &mut rules);
                    if all {
                        blanket = true;
                    }
                    proof {
                        match sc_scan(s@, skip_ws(s@, end as int)) {
                            Some((r, b, d, rs)) => {
                                let p = split_char(value@, ',');
                                assert(r0 + (codes_upto(p, p.len() as int) + r) =~= strings_view(rules@) + r);
                            },
                            None => {},
                        }
                    }
                }
                i = skip_ws_from(s, end);
            },
        }
    }
    if !disables || (rules.len() == 0 && !blanket) {
        None
    } else if blanket {
        proof { assert(strings_view(Seq::<String>::empty()) =~= Seq::<Seq<char>>::empty()); }
        Some((Vec::new(), reason))
    } else {
        Some((rules, reason))
    }
}

fn body_vec(after_hash: &Vec<char>) -> (r: Option<(Vec<String>, Option<String>)>)
    ensures
        match (r, sc_body(after_hash@)) {
            (Some((rules, reason)), Some((rv, rr))) => strings_view(rules@) == rv && opt_string_view(reason) == rr,
            (None, None) => true,
            _ => false,
        },
{
    let kw = chars_of("shellcheck");
    match strip_prefix_vec(&trim_start_vec(after_hash), &kw) {
        Some(rest) => if rest.len() > 0 && is_whitespace(rest[0]) {
            disabled_rules(&rest)
        } else {
            None
        },
        None => None,
    }
}

/// True when the text after a `#` opens a ShellCheck suppression.
pub fn opens_directive(after_hash: &Vec<char>) -> (b: bool)
    ensures
        b == sc_opens(after_hash@),
{
    body_vec(after_hash).is_some()
}

fn first_command_line(file: &SourceFile) -> (r: Option<u32>)
    ensures
        match (r, first_command(file@)) {
            (Some(n), Some(m)) => n as int == m,
            (None, None) => true,
            _ => false,
        },
{
    let chars = file.chars();
    let pieces = split_char_vec(chars, '\n');
    let comments = file.comments();
    let ghost ps = chars_view(pieces@);
    proof { lemma_split_len(file@.source, '\n', 0, 0); }
    let mut i: usize = 0;
    while i < pieces.len()
        invariant
            ps == chars_view(pieces@),
            ps == split_char(file@.source, '\n'),
            source_view_ok(file@),
            pieces@.len() <= file@.source.len() + 1,
            comments_view(comments@) == file@.extracted.comments,
            i <= pieces@.len(),
            first_command(file@) == command_from(file@, ps, i as int),
        decreases pieces@.len() - i,
    {
        proof { assert(ps[i as int] == pieces@[i as int]@); }
        let t = trim_vec(&pieces[i]);
        let n: u32 = if i < u32::MAX as usize { (i + 1) as u32 } else { u32::MAX };
        if t.len() > 0 && !leading_on(comments, n) {
            return Some(n);
        }
        i = i + 1;
    }
    None
}

fn directive_for(file: &SourceFile, first: Option<u32>, c: &Comment) -> (r: Option<IgnoreDirective>)
    requires
        match (first, first_command(file@)) {
            (Some(n), Some(m)) => n as int == m,
            (None, None) => true,
            _ => false,
        },
    ensures
        match (r, sc_directive(file@, c@)) {
            (Some(d), Some(v)) => d@ == v,
            (None, None) => true,
            _ => false,
        },
{
    if !c.leading {
        return None;
    }
    let raw = chars_of(c.raw.as_str());
    let hash = vec!['#'];
    proof { assert(hash@ =~= seq!['#']); }
    let body = match strip_prefix_vec(&raw, &hash) {
        Some(b) => b,
        None => {
            return None;
        },
    };
    match body_vec(&body) {
        None => None,
        Some((rules, reason)) => {
            let scope = match first {
                Some(cmd) => if c.line > cmd { Scope::NextLine } else { Scope::File },
                None => Scope::File,
            };
            let sup = if scope == Scope::File { whole_file_exec() } else { after_exec(c.line) };
            Some(make(
                Tool::Shellcheck,
                scope,
                rules,
                reason,
                file.display_path(),
                c.line,
                c.end_line,
                c.column,
                c.raw.clone(),
                sup,
            ))
        },
    }
}

impl ShellcheckParser {
    /// Every ShellCheck directive in `file`, in source order.
    pub fn parse_file(&self, file: &SourceFile) -> (r: Vec<IgnoreDirective>)
        ensures
            directives_view(r@) == sc_parse_spec(file@),
    {
        let first = first_command_line(file);
        let comments = file.comments();
        let ghost cv = comments_view(comments@);
        let mut out: Vec<IgnoreDirective> = Vec::new();
        let mut i: usize = 0;
        while i < comments.len()
            invariant
                cv == comments_view(comments@),
                cv == file@.extracted.comments,
                match (first, first_command(file@)) {
                    (Some(n), Some(m)) => n as int == m,
                    (None, None) => true,
                    _ => false,
                },
                i <= comments@.len(),
                directives_view(out@) == cv.take(i as int).filter_map(sc_f(file@)),
            decreases comments@.len() - i,
        {
            proof { cv.lemma_filter_map_take_succ(sc_f(file@), i as int); }
            let ghost before = directives_view(out@);
            match directive_for(file, first, &comments[i]) {
                Some(d) => {
                    out.push(d);
                    proof { assert(directives_view(out@) =~= before + seq![d@]); }
                },
                None => {},
            }
            i = i + 1;
        }
        proof { assert(cv.take(cv.len() as int) =~= cv); }
        out
    }
}

impl ToolParser for ShellcheckParser {
    fn tool(&self) -> (t: Tool)
        ensures
            t == Tool::Shellcheck,
    {
        Tool::Shellcheck
    }

    fn applies_to(&self, file: &SourceFile) -> (b: bool)
        ensures
            b == (file@.language == Language::Shell),
    {
        file.language() == Language::Shell
    }

    fn parse(&self, file: &SourceFile) -> (r: Vec<IgnoreDirective>)
        ensures
            directives_view(r@) == sc_parse_spec(file@),
    {
        self.parse_file(file)
    }
}

} // verus!
