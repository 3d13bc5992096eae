//! Rust and clippy (`#[allow(…)]`, `#[expect(…)]`) suppression parsing.
//!
//! | Source | Scope | Rules |
//! | --- | --- | --- |
//! | `#[allow(dead_code)]` | block | `dead_code` |
//! | `#[expect(dead_code, reason = "…")]` | block | `dead_code` |
//! | `#[allow(clippy::needless_range_loop)]` | block | `clippy::needless_range_loop` |
//! | `#![allow(dead_code)]` | file | `dead_code` |
//!
//! Only `allow` and `expect` silence a lint. `reason = "…"` becomes the
//! record's reason. A conditional `cfg_attr(…)` is not reported, and an outer
//! attribute's range starts at the attribute with no known end.

use vstd::prelude::*;

use crate::comments::{Attribute, AttrView, attrs_view};
use crate::model::{
    DirectiveView, IgnoreDirective, Scope, Suppressed, Tool, directives_view, strings_view,
    opt_string_view, normalized, normalize_chars,
};
use crate::source::{Language, SourceFile, SourceView};
use crate::text::{
    chars_of, slice, to_string, trim, trim_vec, trim_start, trim_start_vec, strip_prefix,
    strip_prefix_vec, strip_suffix, strip_suffix_vec, starts_with, chars_view,
};
use crate::tools::{ToolParser, dv, whole_file, whole_file_exec, make};

verus! {

/// Parses `#[allow(…)]` and `#[expect(…)]` out of Rust sources.
#[derive(Debug, Clone, Copy, Default)]
pub struct RustParser;

/// The argument list of an `allow(…)` / `expect(…)` attribute.
pub open spec fn suppressing_arguments(text: Seq<char>) -> Option<Seq<char>> {
    let t = trim(text);
    let rest = match strip_prefix(t, "allow"@) {
        Some(r) => Some(r),
        None => strip_prefix(t, "expect"@),
    };
    match rest {
        Some(r) => match strip_prefix(trim_start(r), seq!['(']) {
            Some(inner) => strip_suffix(inner, seq![')']),
            None => None,
        },
        None => None,
    }
}

/// The pieces of `s[start..]` between commas outside string literals,
/// scanning from `i` inside a literal or not, just after a backslash or not.
pub open spec fn args_from(s: Seq<char>, i: int, start: int, in_str: bool, esc: bool) -> Seq<Seq<char>>
    decreases s.len() - i,
{
    if i < 0 || i >= s.len() {
        seq![s.subrange(start, s.len() as int)]
    } else if esc {
        args_from(s, i + 1, start, in_str, false)
    } else if s[i] == '\\' && in_str {
        args_from(s, i + 1, start, in_str, true)
    } else if s[i] == '"' {
        args_from(s, i + 1, start, !in_str, false)
    } else if s[i] == ',' && !in_str {
        seq![s.subrange(start, i)] + args_from(s, i + 1, i + 1, in_str, false)
    } else {
        args_from(s, i + 1, start, in_str, false)
    }
}

/// Split on commas that are not inside a string literal.
pub open spec fn split_arguments_spec(s: Seq<char>) -> Seq<Seq<char>> {
    args_from(s, 0, 0, false, false)
}

/// The first index at or after `i` not holding `c`.
pub open spec fn lead_end(s: Seq<char>, c: char, i: int) -> int
    decreases s.len() - i,
{
    if 0 <= i < s.len() && s[i] == c {
        lead_end(s, c, i + 1)
    } else {
        i
    }
}

/// `n` hash marks.
pub open spec fn hashes(n: int) -> Seq<char> {
    Seq::new(n as nat, |k: int| '#')
}

/// The body of a `"…"` or `r#"…"#` literal, escapes still in.
pub open spec fn literal_body(t: Seq<char>) -> Option<Seq<char>> {
    let quoted = match strip_prefix(t, seq!['"']) {
        Some(r) => strip_suffix(r, seq!['"']),
        None => None,
    };
    match quoted {
        Some(b) => Some(b),
        None => {
            let raw = t.subrange(lead_end(t, 'r', 0), t.len() as int);
            let h = lead_end(raw, '#', 0);
            match strip_prefix(raw, hashes(h).push('"')) {
                Some(r) => strip_suffix(r, seq!['"'] + hashes(h)),
                None => None,
            }
        },
    }
}

/// `s[i..]` with each unescaped backslash dropped and the character after it
/// kept.
pub open spec fn unescape(s: Seq<char>, i: int, esc: bool) -> Seq<char>
    decreases s.len() - i,
{
    if i < 0 || i >= s.len() {
        Seq::empty()
    } else if s[i] == '\\' && !esc {
        unescape(s, i + 1, true)
    } else {
        seq![s[i]] + unescape(s, i + 1, false)
    }
}

/// The contents of a string literal, `\"` and `\\` unescaped.
pub open spec fn string_literal_spec(text: Seq<char>) -> Option<Seq<char>> {
    match literal_body(trim(text)) {
        Some(b) => Some(unescape(b, 0, false)),
        None => None,
    }
}

/// The reason a `reason = "…"` argument states, if the argument is one.
pub open spec fn reason_arg(a: Seq<char>) -> Option<Option<Seq<char>>> {
    match strip_prefix(a, "reason"@) {
        Some(rest) => if starts_with(trim_start(rest), seq!['=']) {
            let value = trim_start(rest);
            Some(
                match string_literal_spec(value.subrange(lead_end(value, '=', 0), value.len() as int)) {
                    Some(lit) => normalized(lit),
                    None => None,
                },
            )
        } else {
            None
        },
        None => None,
    }
}

/// The lint paths and the reason among the first `j` arguments: the last
/// `reason = …` wins.
pub open spec fn rr_upto(args: Seq<Seq<char>>, j: int) -> (Seq<Seq<char>>, Option<Seq<char>>)
    decreases j,
{
    if j <= 0 || j > args.len() {
        (Seq::empty(), None)
    } else {
        let prev = rr_upto(args, j - 1);
        let a = trim(args[j - 1]);
        if a.len() == 0 {
            prev
        } else {
            match reason_arg(a) {
                Some(reason) => (prev.0, reason),
                None => (prev.0.push(a), prev.1),
            }
        }
    }
}

/// Split an argument list into lint paths and the stated reason.
pub open spec fn rust_rr(arguments: Seq<char>) -> (Seq<Seq<char>>, Option<Seq<char>>) {
    let args = split_arguments_spec(arguments);
    rr_upto(args, args.len() as int)
}

/// The Rust record an attribute carries, if it silences anything.
pub open spec fn rust_directive(path: Seq<char>, a: AttrView) -> Option<DirectiveView> {
    match suppressing_arguments(a.text) {
        None => None,
        Some(args) => Some(
            dv(
                Tool::Rust,
                if a.inner { Scope::File } else { Scope::Block },
                rust_rr(args).0,
                rust_rr(args).1,
                path,
                a.line,
                a.end_line,
                a.column,
                a.raw,
                if a.inner { whole_file() } else { Suppressed { start_line: a.line, end_line: None } },
            ),
        ),
    }
}

pub open spec fn rust_f(path: Seq<char>) -> spec_fn(AttrView) -> Option<DirectiveView> {
    |a: AttrView| rust_directive(path, a)
}

/// Every Rust record in a file, in source order.
pub open spec fn rust_parse_spec(f: SourceView) -> Seq<DirectiveView> {
    f.extracted.attributes.filter_map(rust_f(f.display_path))
}

pub proof fn lemma_lead_end(s: Seq<char>, c: char, i: int)
    requires
        0 <= i <= s.len(),
    ensures
        i <= lead_end(s, c, i) <= s.len(),
    decreases s.len() - i,
{
    if i < s.len() && s[i] == c {
        lemma_lead_end(s, c, i + 1);
    }
}

fn lead_end_exec(s: &Vec<char>, c: char) -> (r: usize)
    ensures
        r == lead_end(s@, c, 0),
        r <= s@.len(),
{
    proof { lemma_lead_end(s@, c, 0); }
    let mut i: usize = 0;
    while i < s.len() && s[i] == c
        invariant
            i <= s@.len(),
            lead_end(s@, c, i as int) == lead_end(s@, c, 0),
        decreases s@.len() - i,
    {
        i = i + 1;
    }
    i
}

fn suppressing_arguments_vec(text: &Vec<char>) -> (r: Option<Vec<char>>)
    ensures
        r.is_some() == suppressing_arguments(text@).is_some(),
        r.is_some() ==> r.unwrap()@ == suppressing_arguments(text@).unwrap(),
{
    let t = trim_vec(text);
    let allow = chars_of("allow");
    let rest = match strip_prefix_vec(&t, &allow) {
        Some(r) => r,
        None => {
            let expect = chars_of("expect");
            match strip_prefix_vec(&t, &expect) {
                Some(r) => r,
                None => {
                    return None;
                },
            }
        },
    };
    let open = vec!['('];
    let close = vec![')'];
    proof {
        assert(open@ =~= seq!['(']);
        assert(close@ =~= seq![')']);
    }
    match strip_prefix_vec(&trim_start_vec(&rest), &open) {
        Some(inner) => strip_suffix_vec(&inner, &close),
        None => None,
    }
}

fn split_arguments(s: &Vec<char>) -> (r: Vec<Vec<char>>)
    ensures
        chars_view(r@) == split_arguments_spec(s@),
{
    let mut parts: Vec<Vec<char>> = Vec::new();
    let mut start: usize = 0;
    let mut in_str = false;
    let mut esc = false;
    let mut i: usize = 0;
    while i < s.len()
        invariant
            start <= i <= s@.len(),
            split_arguments_spec(s@) == chars_view(parts@) + args_from(s@, i as int, start as int, in_str, esc),
        decreases s@.len() - i,
    {
        let ch = s[i];
        if esc {
            esc = false;
        } else if ch == '\\' && in_str {
            esc = true;
        } else if ch == '"' {
            in_str = !in_str;
        } else if ch == ',' && !in_str {
            let piece = slice(s, start, i);
            let ghost before = chars_view(parts@);
            parts.push(piece);
            proof {
                assert(chars_view(parts@) =~= before + seq![piece@]);
                assert(split_arguments_spec(s@) =~= chars_view(parts@) + args_from(s@, i + 1, i + 1, in_str, false));
            }
            start = i + 1;
        }
        i = i + 1;
    }
    let piece = slice(s, start, s.len());
    let ghost before = chars_view(parts@);
    parts.push(piece);
    proof { assert(chars_view(parts@) =~= before + seq![piece@]); }
    parts
}

fn hashes_vec(n: usize) -> (r: Vec<char>)
    ensures
        r@ == hashes(n as int),
{
    let mut r: Vec<char> = Vec::new();
    let mut k: usize = 0;
    while k < n
        invariant
            k <= n,
            r@ == hashes(k as int),
        decreases n - k,
    {
        r.push('#');
        proof { assert(r@ =~= hashes(k + 1)); }
        k = k + 1;
    }
    r
}

fn literal_body_vec(t: &Vec<char>) -> (r: Option<Vec<char>>)
    ensures
        r.is_some() == literal_body(t@).is_some(),
        r.is_some() ==> r.unwrap()@ == literal_body(t@).unwrap(),
{
    let quote = vec!['"'];
    proof { assert(quote@ =~= seq!['"']); }
    match strip_prefix_vec(t, &quote) {
        Some(r) => match strip_suffix_vec(&r, &quote) {
            Some(b) => {
                return Some(b);
            },
            None => {},
        },
        None => {},
    }
    let a = lead_end_exec(t, 'r');
    let raw = slice(t, a, t.len());
    let h = lead_end_exec(&raw, '#');
    let mut opener = hashes_vec(h);
    opener.push('"');
    let mut closer = vec!['"'];
    let tail = hashes_vec(h);
    let mut k: usize = 0;
    while k < tail.len()
        invariant
            k <= tail@.len(),
            tail@ == hashes(h as int),
            closer@ == seq!['"'] + tail@.take(k as int),
        decreases tail@.len() - k,
    {
        closer.push(tail[k]);
        proof { assert(closer@ =~= seq!['"'] + tail@.take(k + 1)); }
        k = k + 1;
    }
    proof { assert(tail@.take(tail@.len() as int) =~= tail@); }
    match strip_prefix_vec(&raw, &opener) {
        Some(r) => strip_suffix_vec(&r, &closer),
        None => None,
    }
}

fn unescape_vec(b: &Vec<char>) -> (r: Vec<char>)
    ensures
        r@ == unescape(b@, 0, false),
{
    let mut out: Vec<char> = Vec::new();
    let mut esc = false;
    let mut i: usize = 0;
    while i < b.len()
        invariant
            i <= b@.len(),
            unescape(b@, 0, false) == out@ + unescape(b@, i as int, esc),
        decreases b@.len() - i,
    {
        let ch = b[i];
        if ch == '\\' && !esc {
            esc = true;
        } else {
            out.push(ch);
            proof { assert(unescape(b@, 0, false) =~= out@ + unescape(b@, i + 1, false)); }
            esc = false;
        }
        i = i + 1;
    }
    proof { assert(out@ + Seq::<char>::empty() =~= out@); }
    out
}

/// The contents of a `"…"` literal, with `\"` and `\\` unescaped.
fn string_literal(text: &Vec<char>) -> (r: Option<Vec<char>>)
    ensures
        r.is_some() == string_literal_spec(text@).is_some(),
        r.is_some() ==> r.unwrap()@ == string_literal_spec(text@).unwrap(),
{
    match literal_body_vec(&trim_vec(text)) {
        Some(b) => Some(unescape_vec(&b)),
        None => None,
    }
}

fn reason_arg_vec(a: &Vec<char>) -> (r: Option<Option<String>>)
    ensures
        match (r, reason_arg(a@)) {
            (Some(x), Some(y)) => opt_string_view(x) == y,
            (None, None) => true,
            _ => false,
        },
{
    let kw = chars_of("reason");
    match strip_prefix_vec(a, &kw) {
        Some(rest) => {
            let value = trim_start_vec(&rest);
            proof {
                if value@.len() > 0 && value@[0] == '=' {
                    assert(value@.subrange(0, 1) =~= seq!['=']);
                }
                if starts_with(value@, seq!['=']) {
                    assert(value@.subrange(0, 1)[0] == '=');
                }
            }
            if value.len() > 0 && value[0] == '=' {
                let e = lead_end_exec(&value, '=');
                match string_literal(&slice(&value, e, value.len())) {
                    Some(lit) => Some(normalize_chars(&lit)),
                    None => Some(None),
                }
            } else {
                None
            }
        },
        None => None,
    }
}

fn rules_and_reason(arguments: &Vec<char>) -> (r: (Vec<String>, Option<String>))
    ensures
        strings_view(r.0@) == rust_rr(arguments@).0,
        opt_string_view(r.1) == rust_rr(arguments@).1,
{
    let args = split_arguments(arguments);
    let ghost av = chars_view(args@);
    let mut rules: Vec<String> = Vec::new();
    let mut reason: Option<String> = None;
    let mut j: usize = 0;
    while j < args.len()
        invariant
            av == chars_view(args@),
            av == split_arguments_spec(arguments@),
            j <= args@.len(),
            strings_view(rules@) == rr_upto(av, j as int).0,
            opt_string_view(reason) == rr_upto(av, j as int).1,
        decreases args@.len() - j,
    {
        proof { assert(av[j as int] == args@[j as int]@); }
        let a = trim_vec(&args[j]);
        if a.len() > 0 {
            match reason_arg_vec(&a) {
                Some(r) => {
                    reason = r;
                },
                None => {
                    let ghost before = strings_view(rules@);
                    let s = to_string(&a);
                    rules.push(s);
                    proof { assert(strings_view(rules@) =~= before.push(a@)); }
                },
            }
        }
        j = j + 1;
    }
    (rules, reason)
}

fn directive_for(path: &str, a: &Attribute) -> (r: Option<IgnoreDirective>)
    ensures
        match (r, rust_directive(path@, a@)) {
            (Some(d), Some(v)) => d@ == v,
            (None, None) => true,
            _ => false,
        },
{
    let text = chars_of(a.text.as_str());
    match suppressing_arguments_vec(&text) {
        None => None,
        Some(args) => {
            let (rules, reason) = rules_and_reason(&args);
            let scope = if a.inner { Scope::File } else { Scope::Block };
            let sup = if a.inner { whole_file_exec() } else { Suppressed { start_line: a.line, end_line: None } };
            Some(make(Tool::Rust, scope, rules, reason, path, a.line, a.end_line, a.column, a.raw.clone(), sup))
        },
    }
}

impl RustParser {
    /// Every Rust suppression in `file`, in source order.
    pub fn parse_file(&self, file: &SourceFile) -> (r: Vec<IgnoreDirective>)
        ensures
            directives_view(r@) == rust_parse_spec(file@),
    {
        let attrs = file.attributes();
        let path = file.display_path();
        let ghost av = attrs_view(attrs@);
        let mut out: Vec<IgnoreDirective> = Vec::new();
        let mut i: usize = 0;
        while i < attrs.len()
            invariant
                av == attrs_view(attrs@),
                av == file@.extracted.attributes,
                path@ == file@.display_path,
                i <= attrs@.len(),
                directives_view(out@) == av.take(i as int).filter_map(rust_f(path@)),
            decreases attrs@.len() - i,
        {
            proof { av.lemma_filter_map_take_succ(rust_f(path@), i as int); }
            let ghost before = directives_view(out@);
            match directive_for(path, &attrs[i]) {
                Some(d) => {
                    out.push(d);
                    proof { assert(directives_view(out@) =~= before + seq![d@]); }
                },
                None => {},
            }
            i = i + 1;
        }
        proof { assert(av.take(av.len() as int) =~= av); }
        out
    }
}

impl ToolParser for RustParser {
    fn tool(&self) -> (t: Tool)
        ensures
            t == Tool::Rust,
    {
        Tool::Rust
    }

    fn applies_to(&self, file: &SourceFile) -> (b: bool)
        ensures
            b == (file@.language == Language::Rust),
    {
        file.language() == Language::Rust
    }

    fn parse(&self, file: &SourceFile) -> (r: Vec<IgnoreDirective>)
        ensures
            directives_view(r@) == rust_parse_spec(file@),
    {
        self.parse_file(file)
    }
}

} // verus!
