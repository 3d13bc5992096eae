//! Comment grammar shared by the Python `#`-directive parsers.
//!
//! ruff, mypy, pyright, and ty all hang their directives off a `#` comment and
//! leave any further `# …` on the line as prose. One line can carry directives
//! for several tools, and each record's `raw` and `reason` must cover its own
//! directive and stop where the next one begins: [`segments`] draws that
//! boundary.

use vstd::prelude::*;

use crate::comments::{Comment, CommentView, sat_u32};
use crate::model::{normalize_chars, normalized, opt_string_view, strings_view};
use crate::text::{
    chars_of, slice, to_string, is_ws, trim_start, trim_end, skip_ws, skip_ws_back, skip_ws_from,
    skip_ws_back_from, lemma_skip_ws, lemma_skip_ws_back, strip_prefix, strip_prefix_vec,
    alphanumeric, is_alphanumeric, is_whitespace, trim_start_vec, trim_end_vec, find_char_from,
    find_char_vec,
};

verus! {

/// One `#`-introduced run inside a comment: a directive candidate, bounded by
/// the next run that opens a directive for some tool.
#[derive(Debug, Clone, PartialEq, Eq)]
pub struct Segment {
    /// 1-based column of the `#` that opened this run.
    pub column: u32,
    /// From that `#` up to the next tool's directive, trailing space trimmed.
    pub raw: String,
    /// The same run with its opening `#` removed.
    pub after_hash: String,
}

pub struct SegView {
    pub column: u32,
    pub raw: Seq<char>,
    pub after_hash: Seq<char>,
}

impl View for Segment {
    type V = SegView;

    open spec fn view(&self) -> SegView {
        SegView { column: self.column, raw: self.raw@, after_hash: self.after_hash@ }
    }
}

/// True when the text after a `#` opens a directive for one of the Python
/// tools.
pub open spec fn py_opens(after_hash: Seq<char>) -> bool {
    crate::tools::ruff::ruff_opens(after_hash) || crate::tools::mypy::mypy_opens(after_hash)
        || crate::tools::pyright::pyright_opens(after_hash) || crate::tools::ty::ty_opens(after_hash)
}

pub fn opens_directive(after_hash: &Vec<char>) -> (b: bool)
    ensures
        b == py_opens(after_hash@),
{
    crate::tools::ruff::opens_directive(after_hash) || crate::tools::mypy::opens_directive(after_hash)
        || crate::tools::pyright::opens_directive(after_hash) || crate::tools::ty::opens_directive(
        after_hash,
    )
}

/// Whether a `#` at `k` in `raw` opens a directive.
pub open spec fn opens_at(raw: Seq<char>, k: int) -> bool {
    raw[k] == '#' && py_opens(raw.subrange(k + 1, raw.len() as int))
}

/// The first index at or after `j` where a `#` opens a directive, or the end.
pub open spec fn seg_end(raw: Seq<char>, j: int) -> int
    decreases raw.len() - j,
{
    if j < 0 || j >= raw.len() {
        raw.len() as int
    } else if opens_at(raw, j) {
        j
    } else {
        seg_end(raw, j + 1)
    }
}

/// The run that the `#` at `k` opens.
pub open spec fn seg_at(raw: Seq<char>, column: u32, k: int) -> SegView {
    let r = trim_end(raw.subrange(k, seg_end(raw, k + 1)));
    SegView { column: sat_u32(column + k), raw: r, after_hash: r.subrange(1, r.len() as int) }
}

/// Every run opened by a `#` at or after `k`.
pub open spec fn segs_from(raw: Seq<char>, column: u32, k: int) -> Seq<SegView>
    decreases raw.len() - k,
{
    if k < 0 || k >= raw.len() {
        Seq::empty()
    } else if raw[k] == '#' {
        seq![seg_at(raw, column, k)] + segs_from(raw, column, k + 1)
    } else {
        segs_from(raw, column, k + 1)
    }
}

/// Every `#`-introduced run in a comment, outermost first.
pub open spec fn segments_spec(c: CommentView) -> Seq<SegView> {
    segs_from(c.raw, c.column, 0)
}

pub proof fn lemma_seg_end(raw: Seq<char>, j: int)
    requires
        0 <= j <= raw.len(),
    ensures
        j <= seg_end(raw, j) <= raw.len(),
    decreases raw.len() - j,
{
    if j < raw.len() && !opens_at(raw, j) {
        lemma_seg_end(raw, j + 1);
    }
}

/// The segment the `#` at `k` opens, as characters.
fn seg_at_exec(raw: &Vec<char>, column: u32, k: usize) -> (r: (Vec<char>, Vec<char>, u32))
    requires
        k < raw@.len(),
        raw@[k as int] == '#',
    ensures
        r.0@ == seg_at(raw@, column, k as int).raw,
        r.1@ == seg_at(raw@, column, k as int).after_hash,
        r.2 == seg_at(raw@, column, k as int).column,
        r.0@.len() >= 1,
        r.0@[0] == '#',
{
    proof { lemma_seg_end(raw@, k + 1); }
    let n = raw.len();
    let mut j = k + 1;
    while j < n
        invariant
            n == raw@.len(),
            k < j <= raw@.len(),
            seg_end(raw@, j as int) == seg_end(raw@, k + 1),
        ensures
            k < j <= raw@.len(),
            seg_end(raw@, j as int) == seg_end(raw@, k + 1),
            j < raw@.len() ==> opens_at(raw@, j as int),
        decreases raw@.len() - j,
    {
        if raw[j] == '#' {
            let after = slice(raw, j + 1, raw.len());
            if opens_directive(&after) {
                break;
            }
        }
        j = j + 1;
    }
    proof {
        if j < raw@.len() {
            assert(opens_at(raw@, j as int));
        }
    }
    let piece = slice(raw, k, j);
    let trimmed = trim_end_vec(&piece);
    proof {
        lemma_skip_ws_back(piece@, piece@.len() as int);
        if skip_ws_back(piece@, piece@.len() as int) == 0 {
            assert(is_ws(piece@[0]));
        }
    }
    let after = slice(&trimmed, 1, trimmed.len());
    let col: u32 = if (k as u64) >= (u32::MAX - column) as u64 { u32::MAX } else { column + k as u32 };
    (trimmed, after, col)
}

/// Every run in `c`, as characters.
pub fn segments_of(c: &Comment) -> (r: Vec<Segment>)
    ensures
        r@.map_values(|s: Segment| s@) == segments_spec(c@),
{
    let raw = chars_of(c.raw.as_str());
    let mut out: Vec<Segment> = Vec::new();
    let mut k: usize = 0;
    while k < raw.len()
        invariant
            raw@ == c.raw@,
            k <= raw@.len(),
            segs_from(raw@, c.column, 0) == out@.map_values(|s: Segment| s@) + segs_from(raw@, c.column, k as int),
        decreases raw@.len() - k,
    {
        if raw[k] == '#' {
            let (r, a, col) = seg_at_exec(&raw, c.column, k);
            let ghost before = out@.map_values(|s: Segment| s@);
            let seg = Segment { column: col, raw: to_string(&r), after_hash: to_string(&a) };
            out.push(seg);
            proof {
                assert(out@.map_values(|s: Segment| s@) =~= before + seq![seg@]);
            }
        }
        k = k + 1;
    }
    proof {
        assert(out@.map_values(|s: Segment| s@) + Seq::<SegView>::empty() =~= out@.map_values(|s: Segment| s@));
    }
    out
}

/// Every `#`-introduced run in `comment`, outermost first, each cut short at
/// the next run that opens a directive.
pub fn segments(comment: &Comment) -> (r: Vec<Segment>)
    ensures
        r@.map_values(|s: Segment| s@) == segments_spec(comment@),
{
    segments_of(comment)
}

// ---------------------------------------------------------------------------
// Keywords, rule lists, and reasons.

/// `keyword` stripped from the front of `input`, when no identifier character
/// (alphanumeric, `_`, `-`) follows it.
pub open spec fn strip_keyword_spec(input: Seq<char>, keyword: Seq<char>) -> Option<Seq<char>> {
    match strip_prefix(input, keyword) {
        Some(rest) => if rest.len() == 0 {
            Some(rest)
        } else if alphanumeric(rest[0]) || rest[0] == '_' || rest[0] == '-' {
            None
        } else {
            Some(rest)
        },
        None => None,
    }
}

pub fn strip_keyword_vec(input: &Vec<char>, keyword: &Vec<char>) -> (r: Option<Vec<char>>)
    ensures
        r.is_some() == strip_keyword_spec(input@, keyword@).is_some(),
        r.is_some() ==> r.unwrap()@ == strip_keyword_spec(input@, keyword@).unwrap(),
{
    match strip_prefix_vec(input, keyword) {
        Some(rest) => {
            if rest.len() == 0 {
                Some(rest)
            } else if is_alphanumeric(rest[0]) || rest[0] == '_' || rest[0] == '-' {
                None
            } else {
                Some(rest)
            }
        },
        None => None,
    }
}

/// Strip `keyword` from the front of `input`, requiring a word boundary after
/// it so `ignore-file` never reads as `ignore`.
pub fn strip_keyword(input: &str, keyword: &str) -> (r: Option<String>)
    ensures
        opt_string_view(r) == strip_keyword_spec(input@, keyword@),
{
    let i = chars_of(input);
    let k = chars_of(keyword);
    match strip_keyword_vec(&i, &k) {
        Some(rest) => Some(to_string(&rest)),
        None => None,
    }
}

/// The `# …` prose trailing a directive, whitespace collapsed.
pub open spec fn trailing_reason_spec(remainder: Seq<char>) -> Option<Seq<char>> {
    match strip_prefix(trim_start(remainder), seq!['#']) {
        Some(r) => normalized(r),
        None => None,
    }
}

pub fn trailing_reason_vec(remainder: &Vec<char>) -> (r: Option<String>)
    ensures
        opt_string_view(r) == trailing_reason_spec(remainder@),
{
    let t = trim_start_vec(remainder);
    let hash = vec!['#'];
    proof { assert(hash@ =~= seq!['#']); }
    match strip_prefix_vec(&t, &hash) {
        Some(r) => normalize_chars(&r),
        None => None,
    }
}

pub open spec fn is_rule_sep(c: char) -> bool {
    c == ',' || c == ' ' || c == '\t'
}

pub open spec fn is_quote(c: char) -> bool {
    c == '"' || c == '\''
}

/// The first index at or after `i` not holding a quote.
pub open spec fn skip_quotes(s: Seq<char>, i: int) -> int
    decreases s.len() - i,
{
    if 0 <= i < s.len() && is_quote(s[i]) {
        skip_quotes(s, i + 1)
    } else {
        i
    }
}

/// The smallest index `j` at or after `lo` and at or before `i` such that
/// `s[j..i]` is all quotes.
pub open spec fn skip_quotes_back(s: Seq<char>, lo: int, i: int) -> int
    decreases i - lo,
{
    if lo < i && i <= s.len() && is_quote(s[i - 1]) {
        skip_quotes_back(s, lo, i - 1)
    } else {
        i
    }
}

/// `trim_matches(['"', '\''])`.
pub open spec fn trim_quotes(s: Seq<char>) -> Seq<char> {
    let a = skip_quotes(s, 0);
    s.subrange(a, skip_quotes_back(s, a, s.len() as int))
}

pub proof fn lemma_skip_quotes(s: Seq<char>, i: int)
    requires
        0 <= i <= s.len(),
    ensures
        i <= skip_quotes(s, i) <= s.len(),
    decreases s.len() - i,
{
    if i < s.len() && is_quote(s[i]) {
        lemma_skip_quotes(s, i + 1);
    }
}

pub proof fn lemma_skip_quotes_back(s: Seq<char>, lo: int, i: int)
    requires
        0 <= lo <= i <= s.len(),
    ensures
        lo <= skip_quotes_back(s, lo, i) <= i,
    decreases i - lo,
{
    if lo < i && is_quote(s[i - 1]) {
        lemma_skip_quotes_back(s, lo, i - 1);
    }
}

fn trim_quotes_vec(s: &Vec<char>) -> (r: Vec<char>)
    ensures
        r@ == trim_quotes(s@),
{
    proof { lemma_skip_quotes(s@, 0); }
    let mut a: usize = 0;
    while a < s.len() && (s[a] == '"' || s[a] == '\'')
        invariant
            a <= s@.len(),
            skip_quotes(s@, a as int) == skip_quotes(s@, 0),
        decreases s@.len() - a,
    {
        a = a + 1;
    }
    proof { lemma_skip_quotes_back(s@, a as int, s@.len() as int); }
    let mut b = s.len();
    while a < b && (s[b - 1] == '"' || s[b - 1] == '\'')
        invariant
            a <= b <= s@.len(),
            skip_quotes_back(s@, a as int, b as int) == skip_quotes_back(s@, a as int, s@.len() as int),
        decreases b - a,
    {
        b = b - 1;
    }
    slice(s, a, b)
}

/// The token ending at `i` that started at `start`, quotes trimmed, if any is
/// left.
pub open spec fn rule_token(list: Seq<char>, start: int, i: int) -> Seq<Seq<char>> {
    let t = trim_quotes(list.subrange(start, i));
    if t.len() == 0 { Seq::empty() } else { seq![t] }
}

/// The rule names in `list[start..]`, split on commas, spaces and tabs, each
/// with its quotes trimmed and empty ones dropped.
pub open spec fn split_rules_from(list: Seq<char>, i: int, start: int) -> Seq<Seq<char>>
    decreases list.len() - i,
{
    if i < 0 || i >= list.len() {
        rule_token(list, start, list.len() as int)
    } else if is_rule_sep(list[i]) {
        rule_token(list, start, i) + split_rules_from(list, i + 1, i + 1)
    } else {
        split_rules_from(list, i + 1, start)
    }
}

pub open spec fn split_rules_spec(list: Seq<char>) -> Seq<Seq<char>> {
    split_rules_from(list, 0, 0)
}

pub fn split_rules_vec(list: &Vec<char>) -> (r: Vec<String>)
    ensures
        strings_view(r@) == split_rules_spec(list@),
{
    let mut out: Vec<String> = Vec::new();
    let mut start: usize = 0;
    let mut i: usize = 0;
    while i < list.len()
        invariant
            start <= i <= list@.len(),
            split_rules_spec(list@) == strings_view(out@) + split_rules_from(list@, i as int, start as int),
        decreases list@.len() - i,
    {
        let c = list[i];
        if c == ',' || c == ' ' || c == '\t' {
            let t = trim_quotes_vec(&slice(list, start, i));
            if t.len() > 0 {
                let ghost before = strings_view(out@);
                out.push(to_string(&t));
                proof { assert(strings_view(out@) =~= before + rule_token(list@, start as int, i as int)); }
            } else {
                proof { assert(rule_token(list@, start as int, i as int) =~= Seq::<Seq<char>>::empty()); }
            }
            proof {
                assert(split_rules_from(list@, i as int, start as int) == rule_token(list@, start as int, i as int) + split_rules_from(list@, i + 1, i + 1));
            }
            i = i + 1;
            start = i;
            proof {
                assert(split_rules_spec(list@) =~= strings_view(out@) + split_rules_from(list@, i as int, start as int));
            }
        } else {
            i = i + 1;
        }
    }
    let t = trim_quotes_vec(&slice(list, start, list.len()));
    let ghost before = strings_view(out@);
    if t.len() > 0 {
        out.push(to_string(&t));
        proof { assert(strings_view(out@) =~= before + rule_token(list@, start as int, list@.len() as int)); }
    } else {
        proof {
            assert(rule_token(list@, start as int, list@.len() as int) =~= Seq::<Seq<char>>::empty());
            assert(strings_view(out@) =~= before + rule_token(list@, start as int, list@.len() as int));
        }
    }
    out
}

/// Split a comma/whitespace-separated rule list, keeping each name verbatim
/// but for the quotes mypy's own spelling puts around it.
pub fn split_rules(list: &str) -> (r: Vec<String>)
    ensures
        strings_view(r@) == split_rules_spec(list@),
{
    let l = chars_of(list);
    split_rules_vec(&l)
}

/// The rule list and trailing reason of the text after a directive keyword:
/// `[a, b]  # why`. A list that is never closed is a blanket suppression whose
/// reason is dropped too.
pub open spec fn rules_and_reason_spec(rest: Seq<char>) -> (Seq<Seq<char>>, Option<Seq<char>>) {
    if rest.len() > 0 && rest[0] == '[' {
        let inside = rest.subrange(1, rest.len() as int);
        match find_char_from(inside, ']', 0) {
            Some(k) => (
                split_rules_spec(inside.subrange(0, k)),
                trailing_reason_spec(inside.subrange(k + 1, inside.len() as int)),
            ),
            None => (Seq::empty(), trailing_reason_spec(Seq::empty())),
        }
    } else {
        (Seq::empty(), trailing_reason_spec(rest))
    }
}

pub fn rules_and_reason_vec(rest: &Vec<char>) -> (r: (Vec<String>, Option<String>))
    ensures
        strings_view(r.0@) == rules_and_reason_spec(rest@).0,
        opt_string_view(r.1) == rules_and_reason_spec(rest@).1,
{
    if rest.len() > 0 && rest[0] == '[' {
        let inside = slice(rest, 1, rest.len());
        match find_char_vec(&inside, ']', 0) {
            Some(k) => {
                let rules = split_rules_vec(&slice(&inside, 0, k));
                let reason = trailing_reason_vec(&slice(&inside, k + 1, inside.len()));
                (rules, reason)
            },
            None => {
                let empty: Vec<char> = Vec::new();
                let reason = trailing_reason_vec(&empty);
                proof { assert(strings_view(Seq::<String>::empty()) =~= Seq::<Seq<char>>::empty()); }
                (Vec::new(), reason)
            },
        }
    } else {
        proof { assert(strings_view(Seq::<String>::empty()) =~= Seq::<Seq<char>>::empty()); }
        (Vec::new(), trailing_reason_vec(rest))
    }
}

/// Split the text after a directive keyword into its `[rule, rule]` list and
/// the trailing reason.
pub fn rules_and_reason(rest: &str) -> (r: (Vec<String>, Option<String>))
    ensures
        strings_view(r.0@) == rules_and_reason_spec(rest@).0,
        opt_string_view(r.1) == rules_and_reason_spec(rest@).1,
{
    let v = chars_of(rest);
    rules_and_reason_vec(&v)
}

/// The `# …` prose trailing a directive.
pub fn trailing_reason(remainder: &str) -> (r: Option<String>)
    ensures
        opt_string_view(r) == trailing_reason_spec(remainder@),
{
    let v = chars_of(remainder);
    trailing_reason_vec(&v)
}

} // verus!
