//! Language-aware comment and attribute extraction.
//!
//! Tool parsers consume the output of this module rather than matching raw
//! lines, so a `# noqa` inside a string literal is never mistaken for a
//! directive. The scanners lean toward missing an exotic comment over inventing
//! one: a false comment becomes a false suppression report.
//!
//! Every position here is a character index into the source. The line and
//! column of an index are given by [`lc`]: the line is one more than the number
//! of newlines before it, and the column one more than the number of
//! characters since the last of them.

use vstd::prelude::*;

use crate::source::Language;
use crate::text::{
    chars_of, slice, to_string, is_ws, is_whitespace, is_word, word_char, matches_at,
    matches_at_vec, find_char_from, find_char_vec,
};

verus! {

/// Whether a comment was introduced by a line marker or a block delimiter.
#[derive(Debug, Clone, Copy, PartialEq, Eq, Structural)]
pub enum CommentKind {
    /// Runs from its marker to the end of the line (`#`, `//`).
    Line,
    /// Delimited, and possibly spanning several lines (`/* … */`).
    Block,
}

/// One comment, with a 1-based span. `end_column` is exclusive.
#[derive(Debug, Clone, PartialEq, Eq)]
pub struct Comment {
    /// Line or block.
    pub kind: CommentKind,
    /// The comment exactly as written, delimiters included.
    pub raw: String,
    /// The comment body with its delimiters stripped, otherwise untouched.
    pub text: String,
    /// 1-based line of the opening delimiter.
    pub line: u32,
    /// 1-based column of the opening delimiter.
    pub column: u32,
    /// 1-based line of the closing delimiter (or of the line end).
    pub end_line: u32,
    /// 1-based column just past the comment's last character.
    pub end_column: u32,
    /// True when only whitespace precedes the comment on its opening line.
    pub leading: bool,
}

pub struct CommentView {
    pub kind: CommentKind,
    pub raw: Seq<char>,
    pub text: Seq<char>,
    pub line: u32,
    pub column: u32,
    pub end_line: u32,
    pub end_column: u32,
    pub leading: bool,
}

impl View for Comment {
    type V = CommentView;

    open spec fn view(&self) -> CommentView {
        CommentView {
            kind: self.kind,
            raw: self.raw@,
            text: self.text@,
            line: self.line,
            column: self.column,
            end_line: self.end_line,
            end_column: self.end_column,
            leading: self.leading,
        }
    }
}

/// One Rust attribute (`#[…]` or `#![…]`), with a 1-based span.
#[derive(Debug, Clone, PartialEq, Eq)]
pub struct Attribute {
    /// The attribute exactly as written, brackets included.
    pub raw: String,
    /// The contents between the brackets.
    pub text: String,
    /// True for the inner form (`#![…]`).
    pub inner: bool,
    /// 1-based line of the leading `#`.
    pub line: u32,
    /// 1-based column of the leading `#`.
    pub column: u32,
    /// 1-based line of the closing `]`.
    pub end_line: u32,
    /// 1-based column just past the closing `]`.
    pub end_column: u32,
}

pub struct AttrView {
    pub raw: Seq<char>,
    pub text: Seq<char>,
    pub inner: bool,
    pub line: u32,
    pub column: u32,
    pub end_line: u32,
    pub end_column: u32,
}

impl View for Attribute {
    type V = AttrView;

    open spec fn view(&self) -> AttrView {
        AttrView {
            raw: self.raw@,
            text: self.text@,
            inner: self.inner,
            line: self.line,
            column: self.column,
            end_line: self.end_line,
            end_column: self.end_column,
        }
    }
}

/// Everything one scan of a file produced.
#[derive(Debug, Clone, PartialEq, Eq)]
pub struct Extracted {
    /// Comments, in source order.
    pub comments: Vec<Comment>,
    /// Rust attributes, in source order. Empty for every other language.
    pub attributes: Vec<Attribute>,
}

pub struct ExtractedView {
    pub comments: Seq<CommentView>,
    pub attributes: Seq<AttrView>,
}

pub open spec fn comments_view(v: Seq<Comment>) -> Seq<CommentView> {
    v.map_values(|c: Comment| c@)
}

pub open spec fn attrs_view(v: Seq<Attribute>) -> Seq<AttrView> {
    v.map_values(|a: Attribute| a@)
}

impl View for Extracted {
    type V = ExtractedView;

    open spec fn view(&self) -> ExtractedView {
        ExtractedView { comments: comments_view(self.comments@), attributes: attrs_view(self.attributes@) }
    }
}

impl Extracted {
    /// Nothing extracted.
    pub fn default() -> (e: Extracted)
        ensures
            e@.comments.len() == 0,
            e@.attributes.len() == 0,
    {
        Extracted { comments: Vec::new(), attributes: Vec::new() }
    }
}

// ---------------------------------------------------------------------------
// Positions.

/// The 1-based `(line, column)` of index `i`.
pub open spec fn lc(s: Seq<char>, i: int) -> (int, int)
    decreases i,
{
    if i <= 0 {
        (1, 1)
    } else {
        let (l, c) = lc(s, i - 1);
        if s[i - 1] == '\n' {
            (l + 1, 1)
        } else {
            (l, c + 1)
        }
    }
}

pub proof fn lemma_lc_bounds(s: Seq<char>, i: int)
    requires
        0 <= i,
    ensures
        1 <= lc(s, i).0 <= i + 1,
        1 <= lc(s, i).1 <= i + 1,
    decreases i,
{
    if i > 0 {
        lemma_lc_bounds(s, i - 1);
    }
}

/// Every line and column of `s`, up to the position just past its end, fits
/// in a `u32`: the positions a scan reports can be counted without overflow.
pub open spec fn positions_fit(s: Seq<char>) -> bool {
    forall|i: int| 0 <= i <= s.len() ==> #[trigger] lc(s, i).0 <= u32::MAX && lc(s, i).1 <= u32::MAX
}

/// Inputs shorter than `u32::MAX` characters always fit.
pub proof fn lemma_short_positions_fit(s: Seq<char>)
    requires
        s.len() < u32::MAX,
    ensures
        positions_fit(s),
{
    assert forall|i: int| 0 <= i <= s.len() implies #[trigger] lc(s, i).0 <= u32::MAX && lc(s, i).1 <= u32::MAX by {
        lemma_lc_bounds(s, i);
    }
}

/// Whether every line and column of `s` fits in a `u32`.
pub fn positions_fit_exec(s: &Vec<char>) -> (b: bool)
    ensures
        b == positions_fit(s@),
{
    let mut line: u64 = 1;
    let mut col: u64 = 1;
    let mut i: usize = 0;
    while i < s.len()
        invariant
            i <= s@.len(),
            lc(s@, i as int) == (line as int, col as int),
            line <= u32::MAX,
            col <= u32::MAX,
            forall|k: int| 0 <= k <= i ==> #[trigger] lc(s@, k).0 <= u32::MAX && lc(s@, k).1 <= u32::MAX,
        decreases s@.len() - i,
    {
        if s[i] == '\n' {
            line = line + 1;
            col = 1;
        } else {
            col = col + 1;
        }
        i = i + 1;
        proof { assert(lc(s@, i as int) == (line as int, col as int)); }
        if line > u32::MAX as u64 || col > u32::MAX as u64 {
            proof {
                let k = i as int;
                assert(!(lc(s@, k).0 <= u32::MAX && lc(s@, k).1 <= u32::MAX));
                assert(!positions_fit(s@)) by {
                    if positions_fit(s@) {
                        assert(lc(s@, k).0 <= u32::MAX && lc(s@, k).1 <= u32::MAX);
                    }
                }
            }
            return false;
        }
    }
    true
}

/// `i + n`, stopping at the end of the input.
pub open spec fn adv(s: Seq<char>, i: int, n: int) -> int {
    if i + n < s.len() {
        i + n
    } else {
        s.len() as int
    }
}

/// `x` as a `u32`, saturating.
pub open spec fn sat_u32(x: int) -> u32 {
    if x > u32::MAX { u32::MAX } else if x < 0 { 0 } else { x as u32 }
}

/// A scanning position whose line and column are kept in step with its index.
pub struct Cur {
    pub i: usize,
    pub line: u32,
    pub col: u32,
}

pub open spec fn cur_ok(s: Seq<char>, c: Cur) -> bool {
    &&& c.i <= s.len()
    &&& lc(s, c.i as int) == (c.line as int, c.col as int)
}

/// Step the position forward to `j`.
pub fn goto(s: &Vec<char>, c: &mut Cur, j: usize)
    requires
        positions_fit(s@),
        cur_ok(s@, *old(c)),
        old(c).i <= j <= s@.len(),
    ensures
        cur_ok(s@, *final(c)),
        final(c).i == j,
{
    while c.i < j
        invariant
            positions_fit(s@),
            cur_ok(s@, *c),
            c.i <= j <= s@.len(),
        decreases j - c.i,
    {
        proof {
            assert(lc(s@, c.i + 1).0 <= u32::MAX && lc(s@, c.i + 1).1 <= u32::MAX);
        }
        if s[c.i] == '\n' {
            c.line = c.line + 1;
            c.col = 1;
        } else {
            c.col = c.col + 1;
        }
        c.i = c.i + 1;
    }
}

fn adv_exec(s: &Vec<char>, i: usize, n: usize) -> (r: usize)
    requires
        i <= s@.len(),
    ensures
        r == adv(s@, i as int, n as int),
        i <= r <= s@.len(),
{
    if n < s.len() - i {
        i + n
    } else {
        s.len()
    }
}

// ---------------------------------------------------------------------------
// Delimited runs: strings and literals.

/// Scan forward from `j` to just past the next `d`, honouring backslash escapes
/// when `esc`; the end of the input when there is none.
pub open spec fn delim_scan(s: Seq<char>, j: int, d: Seq<char>, esc: bool) -> int
    decreases s.len() - j,
{
    if j < 0 || j >= s.len() {
        j
    } else if esc && s[j] == '\\' {
        delim_scan(s, adv(s, j, 2), d, esc)
    } else if matches_at(s, d, j) {
        j + d.len()
    } else {
        delim_scan(s, j + 1, d, esc)
    }
}

/// Skip a delimited run that opens at `i` with `d`.
pub open spec fn skip_delimited(s: Seq<char>, i: int, d: Seq<char>, esc: bool) -> int {
    delim_scan(s, adv(s, i, d.len() as int), d, esc)
}

pub proof fn lemma_delim_scan(s: Seq<char>, j: int, d: Seq<char>, esc: bool)
    requires
        0 <= j <= s.len(),
    ensures
        j <= delim_scan(s, j, d, esc) <= s.len(),
    decreases s.len() - j,
{
    if j < s.len() {
        if esc && s[j] == '\\' {
            lemma_delim_scan(s, adv(s, j, 2), d, esc);
        } else if !matches_at(s, d, j) {
            lemma_delim_scan(s, j + 1, d, esc);
        }
    }
}

pub proof fn lemma_skip_delimited(s: Seq<char>, i: int, d: Seq<char>, esc: bool)
    requires
        0 <= i < s.len(),
        d.len() >= 1,
    ensures
        i < skip_delimited(s, i, d, esc) <= s.len(),
{
    lemma_delim_scan(s, adv(s, i, d.len() as int), d, esc);
}

fn delim_scan_exec(s: &Vec<char>, j: usize, d: &Vec<char>, esc: bool) -> (r: usize)
    requires
        j <= s@.len(),
    ensures
        r == delim_scan(s@, j as int, d@, esc),
        j <= r <= s@.len(),
{
    proof { lemma_delim_scan(s@, j as int, d@, esc); }
    let mut k = j;
    while k < s.len()
        invariant
            j <= k <= s@.len(),
            delim_scan(s@, k as int, d@, esc) == delim_scan(s@, j as int, d@, esc),
        decreases s@.len() - k,
    {
        if esc && s[k] == '\\' {
            k = adv_exec(s, k, 2);
        } else if matches_at_vec(s, d, k) {
            return k + d.len();
        } else {
            k = k + 1;
        }
    }
    k
}

pub fn skip_delimited_exec(s: &Vec<char>, i: usize, d: &Vec<char>, esc: bool) -> (r: usize)
    requires
        i <= s@.len(),
    ensures
        r == skip_delimited(s@, i as int, d@, esc),
        i <= r <= s@.len(),
{
    let a = adv_exec(s, i, d.len());
    delim_scan_exec(s, a, d, esc)
}

// ---------------------------------------------------------------------------
// Line comments.

/// The index of the newline that ends the line holding `i`, or the end of the
/// input.
pub open spec fn line_end(s: Seq<char>, i: int) -> int {
    match find_char_from(s, '\n', i) {
        Some(k) => k,
        None => s.len() as int,
    }
}

pub proof fn lemma_find_char_from(s: Seq<char>, c: char, i: int)
    requires
        0 <= i <= s.len(),
    ensures
        find_char_from(s, c, i) matches Some(k) ==> i <= k < s.len() && s[k] == c,
        forall|k: int| i <= k < s.len() && (find_char_from(s, c, i) matches Some(f) ==> k < f) ==> s[k] != c,
    decreases s.len() - i,
{
    if i < s.len() && s[i] != c {
        lemma_find_char_from(s, c, i + 1);
    }
}

/// Drop every trailing `\r`.
pub open spec fn strip_cr(r: Seq<char>) -> Seq<char>
    decreases r.len(),
{
    if r.len() > 0 && r.last() == '\r' {
        strip_cr(r.drop_last())
    } else {
        r
    }
}

pub proof fn lemma_strip_cr(r: Seq<char>, k: int)
    requires
        0 < k <= r.len(),
        forall|m: int| 0 <= m < k ==> r[m] != '\r',
    ensures
        k <= strip_cr(r).len() <= r.len(),
        strip_cr(r) == r.subrange(0, strip_cr(r).len() as int),
    decreases r.len(),
{
    if r.len() > 0 && r.last() == '\r' {
        lemma_strip_cr(r.drop_last(), k);
        assert(r.drop_last().subrange(0, strip_cr(r).len() as int) =~= r.subrange(0, strip_cr(r).len() as int));
    } else {
        assert(r.subrange(0, r.len() as int) =~= r);
    }
}

/// The line comment whose `marker_len`-character marker opens at `i`.
pub open spec fn line_comment(s: Seq<char>, i: int, marker_len: int, leading: bool) -> CommentView {
    let raw = strip_cr(s.subrange(i, line_end(s, i)));
    let (l, c) = lc(s, i);
    CommentView {
        kind: CommentKind::Line,
        raw: raw,
        text: raw.subrange(marker_len, raw.len() as int),
        line: l as u32,
        column: c as u32,
        end_line: l as u32,
        end_column: sat_u32(c + raw.len()),
        leading: leading,
    }
}

fn strip_cr_exec(v: Vec<char>) -> (r: Vec<char>)
    ensures
        r@ == strip_cr(v@),
{
    let mut r = v;
    while r.len() > 0 && r[r.len() - 1] == '\r'
        invariant
            strip_cr(r@) == strip_cr(v@),
        decreases r@.len(),
    {
        proof { assert(r@.drop_last() =~= r@.subrange(0, r@.len() - 1)); }
        r.pop();
    }
    r
}

/// Collect the line comment at the position, whose marker is `marker_len`
/// characters long and contains no line break.
fn take_line_comment(s: &Vec<char>, cur: &mut Cur, marker_len: usize, leading: bool) -> (c: Comment)
    requires
        positions_fit(s@),
        cur_ok(s@, *old(cur)),
        1 <= marker_len,
        old(cur).i + marker_len <= s@.len(),
        forall|m: int| old(cur).i <= m < old(cur).i + marker_len ==> s@[m] != '\n' && s@[m] != '\r',
    ensures
        cur_ok(s@, *final(cur)),
        final(cur).i == line_end(s@, old(cur).i as int),
        c@ == line_comment(s@, old(cur).i as int, marker_len as int, leading),
        old(cur).i < final(cur).i,
{
    let start = cur.i;
    let (line, column) = (cur.line, cur.col);
    proof { lemma_find_char_from(s@, '\n', start as int); }
    let end = match find_char_vec(s, '\n', start) {
        Some(k) => k,
        None => s.len(),
    };
    proof {
        if end < start + marker_len {
            assert(s@[end as int] == '\n');
        }
    }
    let raw = strip_cr_exec(slice(s, start, end));
    proof {
        let r = s@.subrange(start as int, end as int);
        lemma_strip_cr(r, marker_len as int);
    }
    let text = slice(&raw, marker_len, raw.len());
    goto(s, cur, end);
    proof { lemma_lc_bounds(s@, start as int); }
    let width = raw.len();
    let end_column: u32 = if width as u64 >= (u32::MAX - column) as u64 { u32::MAX } else { column + width as u32 };
    Comment {
        kind: CommentKind::Line,
        raw: to_string(&raw),
        text: to_string(&text),
        line,
        column,
        end_line: line,
        end_column,
        leading,
    }
}

// ---------------------------------------------------------------------------
// Block comments.

pub open spec fn open_block() -> Seq<char> {
    seq!['/', '*']
}

pub open spec fn close_block() -> Seq<char> {
    seq!['*', '/']
}

/// Where a block comment whose body is scanned from `j` at nesting `depth`
/// ends: just past the `*/` that closes it, or the end of the input.
pub open spec fn block_end(s: Seq<char>, j: int, depth: int, nested: bool) -> int
    decreases s.len() - j,
{
    if j < 0 || j >= s.len() {
        s.len() as int
    } else if nested && matches_at(s, open_block(), j) {
        block_end(s, j + 2, depth + 1, nested)
    } else if matches_at(s, close_block(), j) {
        if depth - 1 == 0 {
            j + 2
        } else {
            block_end(s, j + 2, depth - 1, nested)
        }
    } else {
        block_end(s, j + 1, depth, nested)
    }
}

pub proof fn lemma_block_end(s: Seq<char>, j: int, depth: int, nested: bool)
    requires
        0 <= j <= s.len(),
    ensures
        j <= block_end(s, j, depth, nested) <= s.len(),
    decreases s.len() - j,
{
    if j < s.len() {
        if nested && matches_at(s, open_block(), j) {
            lemma_block_end(s, j + 2, depth + 1, nested);
        } else if matches_at(s, close_block(), j) {
            if depth - 1 != 0 {
                lemma_block_end(s, j + 2, depth - 1, nested);
            }
        } else {
            lemma_block_end(s, j + 1, depth, nested);
        }
    }
}

/// The body of a block comment's `raw`: the opener dropped, and the closer
/// too when the comment was terminated.
pub open spec fn block_text(raw: Seq<char>) -> Seq<char> {
    let rest = raw.subrange(2, raw.len() as int);
    if rest.len() >= 2 && rest.subrange(rest.len() - 2, rest.len() as int) == close_block() {
        rest.subrange(0, rest.len() - 2)
    } else {
        rest
    }
}

/// The block comment that opens at `i`, and the index just past it.
pub open spec fn block_comment(s: Seq<char>, i: int, nested: bool, leading: bool) -> (CommentView, int) {
    let end = block_end(s, i + 2, 1, nested);
    let raw = s.subrange(i, end);
    let (l, c) = lc(s, i);
    let (el, ec) = lc(s, end);
    (
        CommentView {
            kind: CommentKind::Block,
            raw: raw,
            text: block_text(raw),
            line: l as u32,
            column: c as u32,
            end_line: el as u32,
            end_column: ec as u32,
            leading: leading,
        },
        end,
    )
}

fn block_end_exec(s: &Vec<char>, j: usize, nested: bool) -> (r: usize)
    requires
        j <= s@.len(),
        positions_fit(s@),
    ensures
        r == block_end(s@, j as int, 1, nested),
        j <= r <= s@.len(),
{
    proof { lemma_block_end(s@, j as int, 1, nested); }
    let open = vec!['/', '*'];
    let close = vec!['*', '/'];
    proof {
        assert(open@ =~= open_block());
        assert(close@ =~= close_block());
    }
    let mut k = j;
    let mut depth: usize = 1;
    while k < s.len()
        invariant
            j <= k <= s@.len(),
            positions_fit(s@),
            1 <= depth <= k + 1,
            open@ == open_block(),
            close@ == close_block(),
            block_end(s@, k as int, depth as int, nested) == block_end(s@, j as int, 1, nested),
        decreases s@.len() - k,
    {
        if nested && matches_at_vec(s, &open, k) {
            depth = depth + 1;
            k = k + 2;
        } else if matches_at_vec(s, &close, k) {
            if depth == 1 {
                return k + 2;
            }
            depth = depth - 1;
            k = k + 2;
        } else {
            k = k + 1;
        }
    }
    s.len()
}


fn block_text_exec(raw: &Vec<char>) -> (t: Vec<char>)
    requires
        raw@.len() >= 2,
    ensures
        t@ == block_text(raw@),
{
    let rest = slice(raw, 2, raw.len());
    let n = rest.len();
    if n >= 2 && rest[n - 2] == '*' && rest[n - 1] == '/' {
        proof { assert(rest@.subrange(n - 2, n as int) =~= close_block()); }
        slice(&rest, 0, n - 2)
    } else {
        proof {
            if n >= 2 && rest@.subrange(n - 2, n as int) == close_block() {
                assert(rest@.subrange(n - 2, n as int)[0] == rest@[n - 2]);
                assert(rest@.subrange(n - 2, n as int)[1] == rest@[n - 1]);
            }
        }
        rest
    }
}

/// Collect the block comment that opens (with `/*`) at the position.
fn take_block_comment(s: &Vec<char>, cur: &mut Cur, nested: bool, leading: bool) -> (r: Comment)
    requires
        positions_fit(s@),
        cur_ok(s@, *old(cur)),
        matches_at(s@, open_block(), old(cur).i as int),
    ensures
        cur_ok(s@, *final(cur)),
        final(cur).i == block_comment(s@, old(cur).i as int, nested, leading).1,
        r@ == block_comment(s@, old(cur).i as int, nested, leading).0,
        old(cur).i < final(cur).i,
{
    let start = cur.i;
    let (line, column) = (cur.line, cur.col);
    let len = s.len();
    let end = if start + 2 <= len { block_end_exec(s, start + 2, nested) } else { len };
    let raw = slice(s, start, end);
    let text = block_text_exec(&raw);
    goto(s, cur, end);
    Comment {
        kind: CommentKind::Block,
        raw: to_string(&raw),
        text: to_string(&text),
        line,
        column,
        end_line: cur.line,
        end_column: cur.col,
        leading,
    }
}

// ---------------------------------------------------------------------------
// Rust attributes.

/// Where an attribute scanned from `j` at bracket depth `depth` ends: just past
/// the `]` that balances its opening bracket, or the end of the input. String
/// literals inside it are skipped whole.
pub open spec fn attr_end(s: Seq<char>, j: int, depth: int) -> int
    decreases s.len() - j,
{
    if j < 0 || j >= s.len() {
        s.len() as int
    } else if s[j] == '[' {
        attr_end(s, j + 1, depth + 1)
    } else if s[j] == ']' {
        if depth - 1 == 0 {
            j + 1
        } else {
            attr_end(s, j + 1, depth - 1)
        }
    } else if s[j] == '"' {
        proof { lemma_skip_delimited(s, j, seq!['"'], true); }
        attr_end(s, skip_delimited(s, j, seq!['"'], true), depth)
    } else {
        attr_end(s, j + 1, depth)
    }
}

pub proof fn lemma_attr_end(s: Seq<char>, j: int, depth: int)
    requires
        0 <= j <= s.len(),
    ensures
        j <= attr_end(s, j, depth) <= s.len(),
    decreases s.len() - j,
{
    if j < s.len() {
        if s[j] == '[' {
            lemma_attr_end(s, j + 1, depth + 1);
        } else if s[j] == ']' {
            if depth - 1 != 0 {
                lemma_attr_end(s, j + 1, depth - 1);
            }
        } else if s[j] == '"' {
            lemma_skip_delimited(s, j, seq!['"'], true);
            lemma_attr_end(s, skip_delimited(s, j, seq!['"'], true), depth);
        } else {
            lemma_attr_end(s, j + 1, depth);
        }
    }
}

/// The opener an attribute's `raw` starts with.
pub open spec fn attr_opener(inner: bool) -> Seq<char> {
    if inner { seq!['#', '!', '['] } else { seq!['#', '['] }
}

/// The contents between an attribute's brackets.
pub open spec fn attr_text(raw: Seq<char>, inner: bool) -> Seq<char> {
    let rest = raw.subrange(attr_opener(inner).len() as int, raw.len() as int);
    if rest.len() >= 1 && rest.last() == ']' {
        rest.drop_last()
    } else {
        rest
    }
}

/// The attribute whose `#` sits at `i`, and the index just past it; `None` when
/// the `#` is not followed by `[` or `![`.
pub open spec fn attribute_at(s: Seq<char>, i: int) -> Option<(AttrView, int)> {
    let inner = i + 1 < s.len() && s[i + 1] == '!';
    let off = if inner { 2int } else { 1int };
    if !(i + off < s.len() && s[i + off] == '[') {
        None
    } else {
        let end = attr_end(s, i + off, 0);
        let raw = s.subrange(i, end);
        let (l, c) = lc(s, i);
        let (el, ec) = lc(s, end);
        Some(
            (
                AttrView {
                    raw: raw,
                    text: attr_text(raw, inner),
                    inner: inner,
                    line: l as u32,
                    column: c as u32,
                    end_line: el as u32,
                    end_column: ec as u32,
                },
                end,
            ),
        )
    }
}

fn attr_end_exec(s: &Vec<char>, j: usize) -> (r: usize)
    requires
        j < s@.len(),
        s@[j as int] == '[',
        positions_fit(s@),
    ensures
        r == attr_end(s@, j as int, 0),
        j < r <= s@.len(),
{
    let quote = vec!['"'];
    proof {
        assert(quote@ =~= seq!['"']);
        lemma_attr_end(s@, j + 1, 1);
    }
    let mut k = if j < s.len() { j + 1 } else { j };
    let mut depth: usize = 1;
    while k < s.len()
        invariant
            j < k <= s@.len(),
            positions_fit(s@),
            1 <= depth <= k,
            quote@ == seq!['"'],
            attr_end(s@, k as int, depth as int) == attr_end(s@, j as int, 0),
        decreases s@.len() - k,
    {
        let c = s[k];
        if c == '[' {
            depth = depth + 1;
            k = k + 1;
        } else if c == ']' {
            if depth == 1 {
                return k + 1;
            }
            depth = depth - 1;
            k = k + 1;
        } else if c == '"' {
            proof { lemma_skip_delimited(s@, k as int, seq!['"'], true); }
            k = skip_delimited_exec(s, k, &quote, true);
        } else {
            k = k + 1;
        }
    }
    s.len()
}

/// Collect the attribute whose `#` is at the position, if it is one.
fn take_attribute(s: &Vec<char>, cur: &mut Cur) -> (r: Option<Attribute>)
    requires
        positions_fit(s@),
        cur_ok(s@, *old(cur)),
        old(cur).i < s@.len(),
    ensures
        cur_ok(s@, *final(cur)),
        match (r, attribute_at(s@, old(cur).i as int)) {
            (Some(a), Some((v, end))) => a@ == v && final(cur).i == end && old(cur).i < end,
            (None, None) => final(cur).i == old(cur).i,
            _ => false,
        },
{
    let start = cur.i;
    let n = s.len();
    let inner = start + 1 < n && s[start + 1] == '!';
    let off: usize = if inner { 2 } else { 1 };
    if !(start + off < s.len() && s[start + off] == '[') {
        return None;
    }
    let (line, column) = (cur.line, cur.col);
    let end = attr_end_exec(s, start + off);
    let raw = slice(s, start, end);
    let opener_len: usize = if inner { 3 } else { 2 };
    let rest = slice(&raw, opener_len, raw.len());
    let text = if rest.len() >= 1 && rest[rest.len() - 1] == ']' {
        slice(&rest, 0, rest.len() - 1)
    } else {
        rest
    };
    proof {
        assert(raw@.subrange(opener_len as int, raw@.len() as int) == rest@ || true);
    }
    goto(s, cur, end);
    Some(Attribute {
        raw: to_string(&raw),
        text: to_string(&text),
        inner,
        line,
        column,
        end_line: cur.line,
        end_column: cur.col,
    })
}

// ---------------------------------------------------------------------------
// Rust raw strings and char literals.

/// How many `#` run from index `k`.
pub open spec fn hash_run(s: Seq<char>, k: int) -> int
    decreases s.len() - k,
{
    if 0 <= k < s.len() && s[k] == '#' {
        1 + hash_run(s, k + 1)
    } else {
        0
    }
}

pub proof fn lemma_hash_run(s: Seq<char>, k: int)
    requires
        0 <= k <= s.len(),
    ensures
        0 <= hash_run(s, k) <= s.len() - k,
        forall|m: int| k <= m < k + hash_run(s, k) ==> s[m] == '#',
        k + hash_run(s, k) < s.len() ==> s[k + hash_run(s, k)] != '#',
    decreases s.len() - k,
{
    if k < s.len() && s[k] == '#' {
        lemma_hash_run(s, k + 1);
    }
}

/// A raw string's terminator: `"` and `hashes` hash marks.
pub open spec fn raw_terminator(hashes: int) -> Seq<char> {
    seq!['"'] + Seq::new(hashes as nat, |_i: int| '#')
}

/// From `j`, the index just past the next `t`, or the end of the input.
pub open spec fn terminator_scan(s: Seq<char>, j: int, t: Seq<char>) -> int
    decreases s.len() - j,
{
    if j < 0 || j >= s.len() {
        s.len() as int
    } else if matches_at(s, t, j) {
        j + t.len()
    } else {
        terminator_scan(s, j + 1, t)
    }
}

pub proof fn lemma_terminator_scan(s: Seq<char>, j: int, t: Seq<char>)
    requires
        0 <= j <= s.len(),
    ensures
        j <= terminator_scan(s, j, t) <= s.len(),
    decreases s.len() - j,
{
    if j < s.len() && !matches_at(s, t, j) {
        lemma_terminator_scan(s, j + 1, t);
    }
}

/// The end of the raw string (`r"…"`, `r#"…"#`, …) whose `r` is at `i`, or
/// `None` when that `r` is just an identifier.
pub open spec fn raw_string_end(s: Seq<char>, i: int) -> Option<int> {
    let h = hash_run(s, i + 1);
    if !(i + 1 + h < s.len() && s[i + 1 + h] == '"') {
        None
    } else {
        Some(terminator_scan(s, i + 2 + h, raw_terminator(h)))
    }
}

fn raw_string_end_exec(s: &Vec<char>, i: usize) -> (r: Option<usize>)
    requires
        i < s@.len(),
    ensures
        match (r, raw_string_end(s@, i as int)) {
            (Some(a), Some(b)) => a == b && i < a <= s@.len(),
            (None, None) => true,
            _ => false,
        },
{
    proof { lemma_hash_run(s@, i + 1); }
    let n = s.len();
    let mut h: usize = 0;
    while h < n - i - 1 && s[i + 1 + h] == '#'
        invariant
            i < s@.len(),
            n == s@.len(),
            i + 1 + h <= s@.len(),
            hash_run(s@, i + 1) == h + hash_run(s@, i + 1 + h),
        decreases s@.len() - h,
    {
        h = h + 1;
    }
    if !(h < n - i - 1 && s[i + 1 + h] == '"') {
        return None;
    }
    let mut t: Vec<char> = vec!['"'];
    let mut m: usize = 0;
    while m < h
        invariant
            m <= h,
            t@ == seq!['"'] + Seq::new(m as nat, |_i: int| '#'),
        decreases h - m,
    {
        t.push('#');
        m = m + 1;
        proof { assert(t@ =~= seq!['"'] + Seq::new(m as nat, |_i: int| '#')); }
    }
    let start = i + 2 + h;
    proof {
        assert(t@ =~= raw_terminator(h as int));
        lemma_terminator_scan(s@, start as int, t@);
        assert(raw_string_end(s@, i as int) == Some(terminator_scan(s@, start as int, t@)));
    }
    let mut k = start;
    while k < s.len()
        invariant
            i < start <= k <= s@.len(),
            raw_string_end(s@, i as int) == Some(terminator_scan(s@, start as int, t@)),
            terminator_scan(s@, k as int, t@) == terminator_scan(s@, start as int, t@),
        decreases s@.len() - k,
    {
        if matches_at_vec(s, &t, k) {
            return Some(k + t.len());
        }
        k = k + 1;
    }
    Some(s.len())
}

/// Where a Rust `'` at `i` stops being skipped: past a char literal, or just
/// past the `'` when it opens a lifetime.
pub open spec fn char_literal_end(s: Seq<char>, i: int) -> int {
    if i + 1 < s.len() && s[i + 1] == '\\' {
        skip_delimited(s, i, seq!['\''], true)
    } else if i + 2 < s.len() && s[i + 2] == '\'' {
        i + 3
    } else {
        i + 1
    }
}

fn char_literal_end_exec(s: &Vec<char>, i: usize) -> (r: usize)
    requires
        i < s@.len(),
    ensures
        r == char_literal_end(s@, i as int),
        i < r <= s@.len(),
{
    let n = s.len();
    if 1 < n - i && s[i + 1] == '\\' {
        let q = vec!['\''];
        proof {
            assert(q@ =~= seq!['\'']);
            lemma_skip_delimited(s@, i as int, seq!['\''], true);
        }
        skip_delimited_exec(s, i, &q, true)
    } else if 2 < n - i && s[i + 2] == '\'' {
        i + 3
    } else {
        i + 1
    }
}


// ---------------------------------------------------------------------------
// `#`-comment languages.

/// True when a `#` after `prev` opens a comment in a language where `#` only
/// does so at a word boundary (shell, YAML).
pub open spec fn at_word_boundary(prev: Option<char>) -> bool {
    match prev {
        None => true,
        Some(c) => is_ws(c) || c == ';' || c == '|' || c == '&' || c == '(' || c == ')' || c == '<' || c == '>',
    }
}

fn at_word_boundary_exec(prev: Option<char>) -> (b: bool)
    ensures
        b == at_word_boundary(prev),
{
    match prev {
        None => true,
        Some(c) => is_whitespace(c) || c == ';' || c == '|' || c == '&' || c == '(' || c == ')' || c == '<' || c == '>',
    }
}

/// Where the string opened by the quote at `i` ends. `word` is the shell/YAML
/// dialect: no triple quotes, and no escapes inside `'…'`.
pub open spec fn quote_end(s: Seq<char>, i: int, word: bool) -> int {
    let ch = s[i];
    let esc = ch == '"' || !word;
    if !word && matches_at(s, seq![ch, ch, ch], i) {
        skip_delimited(s, i, seq![ch, ch, ch], esc)
    } else {
        skip_delimited(s, i, seq![ch], esc)
    }
}

fn quote_end_exec(s: &Vec<char>, i: usize, word: bool) -> (r: usize)
    requires
        i < s@.len(),
    ensures
        r == quote_end(s@, i as int, word),
        i < r <= s@.len(),
{
    let ch = s[i];
    let esc = ch == '"' || !word;
    let triple = vec![ch, ch, ch];
    let single = vec![ch];
    proof {
        assert(triple@ =~= seq![ch, ch, ch]);
        assert(single@ =~= seq![ch]);
        lemma_skip_delimited(s@, i as int, seq![ch, ch, ch], esc);
        lemma_skip_delimited(s@, i as int, seq![ch], esc);
    }
    if !word && matches_at_vec(s, &triple, i) {
        skip_delimited_exec(s, i, &triple, esc)
    } else {
        skip_delimited_exec(s, i, &single, esc)
    }
}

/// `c` with the two quote characters exchanged.
pub open spec fn swap_quote(c: char) -> char {
    if c == '\'' {
        '"'
    } else if c == '"' {
        '\''
    } else {
        c
    }
}

/// `s` with every `'` written as `"` and every `"` as `'`.
pub open spec fn swap_quotes(s: Seq<char>) -> Seq<char> {
    s.map_values(|c: char| swap_quote(c))
}

proof fn lemma_matches_swapped(s: Seq<char>, d: Seq<char>, j: int)
    ensures
        matches_at(swap_quotes(s), swap_quotes(d), j) == matches_at(s, d, j),
{
    let t = swap_quotes(s);
    let e = swap_quotes(d);
    if 0 <= j && j + d.len() <= s.len() {
        if s.subrange(j, j + d.len()) == d {
            assert(t.subrange(j, j + e.len()) =~= e) by {
                assert forall|k: int| 0 <= k < e.len() implies t.subrange(j, j + e.len())[k] == e[k] by {
                    assert(s.subrange(j, j + d.len())[k] == d[k]);
                }
            }
        }
        if t.subrange(j, j + e.len()) == e {
            assert(s.subrange(j, j + d.len()) =~= d) by {
                assert forall|k: int| 0 <= k < d.len() implies s.subrange(j, j + d.len())[k] == d[k] by {
                    assert(t.subrange(j, j + e.len())[k] == e[k]);
                    assert(swap_quote(s[j + k]) == swap_quote(d[k]));
                }
            }
        }
    }
}

proof fn lemma_delim_scan_swapped(s: Seq<char>, j: int, d: Seq<char>, esc: bool)
    ensures
        delim_scan(swap_quotes(s), j, swap_quotes(d), esc) == delim_scan(s, j, d, esc),
    decreases s.len() - j,
{
    let t = swap_quotes(s);
    if 0 <= j < s.len() {
        assert(t[j] == swap_quote(s[j]));
        lemma_matches_swapped(s, d, j);
        if esc && s[j] == '\\' {
            lemma_delim_scan_swapped(s, adv(s, j, 2), d, esc);
        } else if !matches_at(s, d, j) {
            lemma_delim_scan_swapped(s, j + 1, d, esc);
        }
    }
}

/// In Python and TOML a string ends in the same place whichever quote
/// character it uses: writing every `'` as `"` and every `"` as `'` moves no
/// string end, so a backslash escapes inside `'…'` just as inside `"…"`.
pub proof fn law_python_quotes_are_alike(s: Seq<char>, i: int)
    requires
        0 <= i < s.len(),
        s[i] == '\'' || s[i] == '"',
    ensures
        quote_end(swap_quotes(s), i, false) == quote_end(s, i, false),
{
    let t = swap_quotes(s);
    let ch = s[i];
    let sw = swap_quote(ch);
    assert(t[i] == sw);
    assert(swap_quotes(seq![ch, ch, ch]) =~= seq![sw, sw, sw]);
    assert(swap_quotes(seq![ch]) =~= seq![sw]);
    lemma_matches_swapped(s, seq![ch, ch, ch], i);
    lemma_delim_scan_swapped(s, adv(s, i, 3), seq![ch, ch, ch], true);
    lemma_delim_scan_swapped(s, adv(s, i, 1), seq![ch], true);
}

proof fn lemma_lc_swapped(s: Seq<char>, i: int)
    requires
        i <= s.len(),
    ensures
        lc(swap_quotes(s), i) == lc(s, i),
    decreases i,
{
    if i > 0 {
        lemma_lc_swapped(s, i - 1);
        assert(swap_quotes(s)[i - 1] == swap_quote(s[i - 1]));
    }
}

proof fn lemma_find_newline_swapped(s: Seq<char>, i: int)
    ensures
        find_char_from(swap_quotes(s), '\n', i) == find_char_from(s, '\n', i),
    decreases s.len() - i,
{
    if 0 <= i < s.len() {
        assert(swap_quotes(s)[i] == swap_quote(s[i]));
        lemma_find_newline_swapped(s, i + 1);
    }
}

proof fn lemma_hash_scan_swapped(s: Seq<char>, i: int, p1: Option<char>, p2: Option<char>, lhc: bool)
    requires
        0 <= i,
    ensures
        ({
            let a = hash_scan(s, false, i, p1, lhc);
            let b = hash_scan(swap_quotes(s), false, i, p2, lhc);
            &&& b.len() == a.len()
            &&& forall|k: int| 0 <= k < a.len() ==> opens_at(#[trigger] b[k]) == opens_at(a[k]) && b[k].kind == a[k].kind
        }),
    decreases s.len() - i,
{
    let t = swap_quotes(s);
    if i < s.len() {
        let ch = s[i];
        assert(t[i] == swap_quote(ch));
        if ch == '\n' {
            lemma_hash_scan_swapped(s, i + 1, Some('\n'), Some('\n'), false);
        } else if ch == '#' {
            lemma_find_char_from(s, '\n', i);
            lemma_find_newline_swapped(s, i);
            lemma_lc_swapped(s, i);
            let j = line_end(s, i);
            lemma_hash_scan_swapped(s, j, Some('#'), Some('#'), true);
            let ra = hash_scan(s, false, j, Some('#'), true);
            let rb = hash_scan(t, false, j, Some('#'), true);
            let a = hash_scan(s, false, i, p1, lhc);
            let b = hash_scan(t, false, i, p2, lhc);
            assert(a == seq![line_comment(s, i, 1, !lhc)] + ra);
            assert(b == seq![line_comment(t, i, 1, !lhc)] + rb);
            assert forall|k: int| 0 <= k < a.len() implies opens_at(#[trigger] b[k]) == opens_at(a[k]) && b[k].kind == a[k].kind by {
                if k > 0 {
                    assert(a[k] == ra[k - 1]);
                    assert(b[k] == rb[k - 1]);
                }
            }
        } else if ch == '\\' {
            lemma_hash_scan_swapped(s, adv(s, i, 2), Some('\\'), Some('\\'), true);
        } else if ch == '"' || ch == '\'' {
            law_python_quotes_are_alike(s, i);
            lemma_skip_delimited(s, i, seq![ch, ch, ch], true);
            lemma_skip_delimited(s, i, seq![ch], true);
            let j = quote_end(s, i, false);
            lemma_hash_scan_swapped(s, j, Some(ch), Some(swap_quote(ch)), true);
        } else {
            lemma_hash_scan_swapped(s, i + 1, Some(ch), Some(ch), lhc || !is_ws(ch));
        }
    }
}

/// A Python or TOML source finds its comments in the same places whichever
/// quote character its strings use: writing every `'` as `"` and every `"` as
/// `'` leaves as many comments, of the same kinds, opening at the same lines
/// and columns. So an escaped quote inside `'…'` hides no comment that the
/// same string in `"…"` would show.
pub proof fn law_python_comments_ignore_quote_style(s: Seq<char>, language: Language)
    requires
        language is Python || language is Toml,
    ensures
        extracted_spec(swap_quotes(s), language).comments.len() == extracted_spec(s, language).comments.len(),
        forall|k: int| 0 <= k < extracted_spec(s, language).comments.len()
            ==> opens_at(#[trigger] extracted_spec(swap_quotes(s), language).comments[k])
                == opens_at(extracted_spec(s, language).comments[k]),
{
    lemma_hash_scan_swapped(s, 0, None, None, false);
}

/// In Python and TOML a backslash right after a string's opening quote escapes
/// the next character, so that character never closes the string: the string
/// runs on past it.
pub proof fn law_python_escape_never_closes(s: Seq<char>, i: int)
    requires
        0 <= i,
        i + 3 < s.len(),
        s[i] == '\'' || s[i] == '"',
        !matches_at(s, seq![s[i], s[i], s[i]], i),
        s[i + 1] == '\\',
    ensures
        quote_end(s, i, false) > i + 3,
{
    let d = seq![s[i]];
    assert(quote_end(s, i, false) == delim_scan(s, i + 1, d, true));
    assert(delim_scan(s, i + 1, d, true) == delim_scan(s, i + 3, d, true));
    if s[i + 3] == '\\' {
        lemma_delim_scan(s, adv(s, i + 3, 2), d, true);
    } else if !matches_at(s, d, i + 3) {
        lemma_delim_scan(s, i + 4, d, true);
    }
}

/// In shell and YAML a single-quoted string runs literally to the next `'`: a
/// backslash inside it escapes nothing.
pub proof fn law_shell_single_quotes_are_literal(s: Seq<char>, i: int)
    requires
        0 <= i,
        i + 2 < s.len(),
        s[i] == '\'',
        s[i + 1] == '\\',
        s[i + 2] == '\'',
    ensures
        quote_end(s, i, true) == i + 3,
{
    let d = seq!['\''];
    assert(s.subrange(i + 1, i + 2)[0] == '\\');
    assert(!matches_at(s, d, i + 1));
    assert(s.subrange(i + 2, i + 3) =~= d);
    assert(quote_end(s, i, true) == delim_scan(s, i + 1, d, false));
    assert(delim_scan(s, i + 1, d, false) == delim_scan(s, i + 2, d, false));
}

/// The comments of a `#`-comment source, scanned from `i`. `prev` is the
/// character before `i` and `lhc` whether its line already holds content.
pub open spec fn hash_scan(s: Seq<char>, word: bool, i: int, prev: Option<char>, lhc: bool) -> Seq<CommentView>
    decreases s.len() - i,
{
    if i < 0 || i >= s.len() {
        Seq::empty()
    } else {
        let ch = s[i];
        if ch == '\n' {
            hash_scan(s, word, i + 1, Some('\n'), false)
        } else if ch == '#' && (!word || at_word_boundary(prev)) {
            proof { lemma_find_char_from(s, '\n', i); }
            seq![line_comment(s, i, 1, !lhc)] + hash_scan(s, word, line_end(s, i), Some('#'), true)
        } else if ch == '\\' {
            hash_scan(s, word, adv(s, i, 2), Some('\\'), true)
        } else if ch == '"' || ch == '\'' {
            proof {
                lemma_skip_delimited(s, i, seq![ch, ch, ch], ch == '"' || !word);
                lemma_skip_delimited(s, i, seq![ch], ch == '"' || !word);
            }
            hash_scan(s, word, quote_end(s, i, word), Some(ch), true)
        } else {
            hash_scan(s, word, i + 1, Some(ch), lhc || !is_ws(ch))
        }
    }
}

fn scan_hash(s: &Vec<char>, word: bool) -> (out: Vec<Comment>)
    requires
        positions_fit(s@),
    ensures
        comments_view(out@) == hash_scan(s@, word, 0, None, false),
{
    let mut out: Vec<Comment> = Vec::new();
    let mut cur = Cur { i: 0, line: 1, col: 1 };
    let mut prev: Option<char> = None;
    let mut lhc = false;
    while cur.i < s.len()
        invariant
            positions_fit(s@),
            cur_ok(s@, cur),
            hash_scan(s@, word, 0, None, false) == comments_view(out@) + hash_scan(s@, word, cur.i as int, prev, lhc),
        decreases s@.len() - cur.i,
    {
        let i = cur.i;
        let ch = s[i];
        if ch == '\n' {
            goto(s, &mut cur, i + 1);
            prev = Some('\n');
            lhc = false;
        } else if ch == '#' && (!word || at_word_boundary_exec(prev)) {
            let c = take_line_comment(s, &mut cur, 1, !lhc);
            let ghost before = comments_view(out@);
            out.push(c);
            proof {
                assert(comments_view(out@) =~= before + seq![c@]);
            }
            prev = Some('#');
            lhc = true;
        } else if ch == '\\' {
            let j = adv_exec(s, i, 2);
            goto(s, &mut cur, j);
            prev = Some('\\');
            lhc = true;
        } else if ch == '"' || ch == '\'' {
            let j = quote_end_exec(s, i, word);
            goto(s, &mut cur, j);
            prev = Some(ch);
            lhc = true;
        } else {
            goto(s, &mut cur, i + 1);
            prev = Some(ch);
            lhc = lhc || !is_whitespace(ch);
        }
    }
    proof {
        assert(hash_scan(s@, word, cur.i as int, prev, lhc) =~= Seq::<CommentView>::empty());
        assert(comments_view(out@) + Seq::<CommentView>::empty() =~= comments_view(out@));
    }
    out
}

// ---------------------------------------------------------------------------
// `//` and `/* … */` languages.

pub open spec fn with_comment(c: CommentView, rest: ExtractedView) -> ExtractedView {
    ExtractedView { comments: seq![c] + rest.comments, attributes: rest.attributes }
}

pub open spec fn with_attr(a: AttrView, rest: ExtractedView) -> ExtractedView {
    ExtractedView { comments: rest.comments, attributes: seq![a] + rest.attributes }
}

pub open spec fn empty_view() -> ExtractedView {
    ExtractedView { comments: Seq::empty(), attributes: Seq::empty() }
}

/// True when `prev` continues an identifier, so an `r` after it is not a raw
/// string prefix.
pub open spec fn is_ident_prev(prev: Option<char>) -> bool {
    match prev {
        Some(c) => is_word(c),
        None => false,
    }
}

fn is_ident_prev_exec(prev: Option<char>) -> (b: bool)
    ensures
        b == is_ident_prev(prev),
{
    match prev {
        Some(c) => word_char(c),
        None => false,
    }
}

pub open spec fn line_marker() -> Seq<char> {
    seq!['/', '/']
}

/// The comments and attributes of a C-style source, scanned from `i`. `rust`
/// selects Rust's dialect (nested blocks, raw strings, char literals,
/// attributes); otherwise JavaScript's (template literals).
pub open spec fn c_scan(s: Seq<char>, rust: bool, i: int, prev: Option<char>, lhc: bool) -> ExtractedView
    decreases s.len() - i,
{
    if i < 0 || i >= s.len() {
        empty_view()
    } else {
        let ch = s[i];
        if ch == '\n' {
            c_scan(s, rust, i + 1, Some('\n'), false)
        } else if matches_at(s, line_marker(), i) {
            proof { lemma_find_char_from(s, '\n', i); }
            with_comment(line_comment(s, i, 2, !lhc), c_scan(s, rust, line_end(s, i), Some('/'), true))
        } else if matches_at(s, open_block(), i) {
            proof { lemma_block_end(s, i + 2, 1, rust); }
            with_comment(
                block_comment(s, i, rust, !lhc).0,
                c_scan(s, rust, block_comment(s, i, rust, !lhc).1, Some('/'), true),
            )
        } else if rust && ch == '#' && i + 1 < s.len() && (s[i + 1] == '[' || s[i + 1] == '!')
            && attribute_at(s, i) is Some {
            proof {
                let inner = i + 1 < s.len() && s[i + 1] == '!';
                let off = if inner { 2int } else { 1int };
                lemma_attr_end(s, i + off, 0);
            }
            with_attr(
                attribute_at(s, i).unwrap().0,
                c_scan(s, rust, attribute_at(s, i).unwrap().1, Some(']'), true),
            )
        } else if rust && ch == 'r' && !is_ident_prev(prev) && raw_string_end(s, i) is Some {
            proof {
                lemma_hash_run(s, i + 1);
                lemma_terminator_scan(s, i + 2 + hash_run(s, i + 1), raw_terminator(hash_run(s, i + 1)));
            }
            c_scan(s, rust, raw_string_end(s, i).unwrap(), Some('"'), true)
        } else if rust && ch == 'b' && i + 1 < s.len() && s[i + 1] == 'r' && !is_ident_prev(prev) {
            proof {
                lemma_hash_run(s, i + 2);
                if raw_string_end(s, i + 1) is Some {
                    lemma_terminator_scan(s, i + 3 + hash_run(s, i + 2), raw_terminator(hash_run(s, i + 2)));
                }
            }
            c_scan(
                s,
                rust,
                match raw_string_end(s, i + 1) {
                    Some(e) => e,
                    None => i + 1,
                },
                Some('"'),
                true,
            )
        } else if ch == '"' {
            proof { lemma_skip_delimited(s, i, seq!['"'], true); }
            c_scan(s, rust, skip_delimited(s, i, seq!['"'], true), Some('"'), true)
        } else if ch == '`' && !rust {
            proof { lemma_skip_delimited(s, i, seq!['`'], true); }
            c_scan(s, rust, skip_delimited(s, i, seq!['`'], true), Some('`'), true)
        } else if ch == '\'' {
            proof { lemma_skip_delimited(s, i, seq!['\''], true); }
            c_scan(
                s,
                rust,
                if rust { char_literal_end(s, i) } else { skip_delimited(s, i, seq!['\''], true) },
                Some('\''),
                true,
            )
        } else {
            c_scan(s, rust, i + 1, Some(ch), lhc || !is_ws(ch))
        }
    }
}

fn scan_c_style(s: &Vec<char>, rust: bool) -> (out: Extracted)
    requires
        positions_fit(s@),
    ensures
        out@ == c_scan(s@, rust, 0, None, false),
{
    let mut out = Extracted::default();
    let mut cur = Cur { i: 0, line: 1, col: 1 };
    let mut prev: Option<char> = None;
    let mut lhc = false;
    let line_mark = vec!['/', '/'];
    let open = vec!['/', '*'];
    let dq = vec!['"'];
    let bq = vec!['`'];
    let sq = vec!['\''];
    proof {
        assert(line_mark@ =~= line_marker());
        assert(open@ =~= open_block());
        assert(dq@ =~= seq!['"']);
        assert(bq@ =~= seq!['`']);
        assert(sq@ =~= seq!['\'']);
        assert(out@.comments =~= Seq::<CommentView>::empty());
        assert(out@.attributes =~= Seq::<AttrView>::empty());
    }
    while cur.i < s.len()
        invariant
            positions_fit(s@),
            cur_ok(s@, cur),
            line_mark@ == line_marker(),
            open@ == open_block(),
            dq@ == seq!['"'],
            bq@ == seq!['`'],
            sq@ == seq!['\''],
            c_scan(s@, rust, 0, None, false).comments == out@.comments + c_scan(s@, rust, cur.i as int, prev, lhc).comments,
            c_scan(s@, rust, 0, None, false).attributes == out@.attributes + c_scan(s@, rust, cur.i as int, prev, lhc).attributes,
        decreases s@.len() - cur.i,
    {
        let i = cur.i;
        let ch = s[i];
        let ghost oc = out@.comments;
        let ghost oa = out@.attributes;
        if ch == '\n' {
            goto(s, &mut cur, i + 1);
            prev = Some('\n');
            lhc = false;
            continue;
        }
        if matches_at_vec(s, &line_mark, i) {
            let c = take_line_comment(s, &mut cur, 2, !lhc);
            out.comments.push(c);
            proof { assert(out@.comments =~= oc + seq![c@]); }
            prev = Some('/');
            lhc = true;
            continue;
        }
        if matches_at_vec(s, &open, i) {
            let c = take_block_comment(s, &mut cur, rust, !lhc);
            out.comments.push(c);
            proof { assert(out@.comments =~= oc + seq![c@]); }
            prev = Some('/');
            lhc = true;
            continue;
        }
        if rust && ch == '#' && i + 1 < s.len() && (s[i + 1] == '[' || s[i + 1] == '!') {
            let a = take_attribute(s, &mut cur);
            if let Some(a) = a {
                out.attributes.push(a);
                proof { assert(out@.attributes =~= oa + seq![a@]); }
                prev = Some(']');
                lhc = true;
                continue;
            }
        }
        if rust && ch == 'r' && !is_ident_prev_exec(prev) {
            if let Some(e) = raw_string_end_exec(s, i) {
                goto(s, &mut cur, e);
                prev = Some('"');
                lhc = true;
                continue;
            }
        }
        if rust && ch == 'b' && i + 1 < s.len() && s[i + 1] == 'r' && !is_ident_prev_exec(prev) {
            let e = match raw_string_end_exec(s, i + 1) {
                Some(e) => e,
                None => i + 1,
            };
            goto(s, &mut cur, e);
            prev = Some('"');
            lhc = true;
            continue;
        }
        if ch == '"' {
            proof { lemma_skip_delimited(s@, i as int, seq!['"'], true); }
            let e = skip_delimited_exec(s, i, &dq, true);
            goto(s, &mut cur, e);
            prev = Some('"');
            lhc = true;
            continue;
        }
        if ch == '`' && !rust {
            proof { lemma_skip_delimited(s@, i as int, seq!['`'], true); }
            let e = skip_delimited_exec(s, i, &bq, true);
            goto(s, &mut cur, e);
            prev = Some('`');
            lhc = true;
            continue;
        }
        if ch == '\'' {
            proof { lemma_skip_delimited(s@, i as int, seq!['\''], true); }
            let e = if rust { char_literal_end_exec(s, i) } else { skip_delimited_exec(s, i, &sq, true) };
            goto(s, &mut cur, e);
            prev = Some('\'');
            lhc = true;
            continue;
        }
        goto(s, &mut cur, i + 1);
        prev = Some(ch);
        lhc = lhc || !is_whitespace(ch);
    }
    proof {
        assert(out@.comments + Seq::<CommentView>::empty() =~= out@.comments);
        assert(out@.attributes + Seq::<AttrView>::empty() =~= out@.attributes);
    }
    out
}

// ---------------------------------------------------------------------------
// Entry point.

/// What [`extract`] finds in `s` for `language`.
pub open spec fn extracted_spec(s: Seq<char>, language: Language) -> ExtractedView {
    match language {
        Language::Python | Language::Toml => ExtractedView {
            comments: hash_scan(s, false, 0, None, false),
            attributes: Seq::empty(),
        },
        Language::Shell | Language::Yaml => ExtractedView {
            comments: hash_scan(s, true, 0, None, false),
            attributes: Seq::empty(),
        },
        Language::Rust => c_scan(s, true, 0, None, false),
        Language::JavaScript | Language::TypeScript => c_scan(s, false, 0, None, false),
        Language::Unknown => empty_view(),
    }
}

// ---------------------------------------------------------------------------
// The shape of what a scan finds.

/// Position `p` comes strictly before position `q` (line, then column).
pub open spec fn pos_lt(p: (int, int), q: (int, int)) -> bool {
    p.0 < q.0 || (p.0 == q.0 && p.1 < q.1)
}

/// Where a comment opens.
pub open spec fn opens_at(c: CommentView) -> (int, int) {
    (c.line as int, c.column as int)
}

/// Each comment opens strictly after the one before it.
pub open spec fn in_source_order(cs: Seq<CommentView>) -> bool {
    forall|a: int, b: int| 0 <= a < b < cs.len() ==> pos_lt(opens_at(#[trigger] cs[a]), opens_at(#[trigger] cs[b]))
}

/// A comment's span is sound: 1-based, it ends on or after the line it opens
/// on, and a line comment stays on its line, ends just past its last
/// character, and holds no line break and no carriage return at its end.
pub open spec fn well_placed(c: CommentView) -> bool {
    &&& 1 <= c.line <= c.end_line
    &&& 1 <= c.column
    &&& c.kind is Line ==> {
        &&& c.end_line == c.line
        &&& c.end_column == c.column + c.raw.len()
        &&& forall|m: int| 0 <= m < c.raw.len() ==> #[trigger] c.raw[m] != '\n'
        &&& c.raw.len() > 0 ==> c.raw.last() != '\r'
    }
}

/// Every comment of `cs` opens at or after position `p`, and each is well placed.
pub open spec fn placed_from(cs: Seq<CommentView>, p: (int, int)) -> bool {
    forall|k: int| 0 <= k < cs.len() ==> !pos_lt(opens_at(#[trigger] cs[k]), p) && well_placed(cs[k])
}

proof fn lemma_lc_mono(s: Seq<char>, i: int, j: int)
    requires
        0 <= i <= j,
    ensures
        !pos_lt(lc(s, j), lc(s, i)),
        i < j ==> pos_lt(lc(s, i), lc(s, j)),
    decreases j - i,
{
    if i < j {
        lemma_lc_mono(s, i, j - 1);
    }
}

proof fn lemma_lc_same_line(s: Seq<char>, i: int, m: int)
    requires
        0 <= i,
        0 <= m,
        forall|k: int| i <= k < i + m ==> s[k] != '\n',
    ensures
        lc(s, i + m) == (lc(s, i).0, lc(s, i).1 + m),
    decreases m,
{
    if m > 0 {
        lemma_lc_same_line(s, i, m - 1);
        assert(s[i + m - 1] != '\n');
    }
}

proof fn lemma_strip_cr_shape(r: Seq<char>)
    ensures
        strip_cr(r) == r.take(strip_cr(r).len() as int),
        strip_cr(r).len() <= r.len(),
        strip_cr(r).len() > 0 ==> strip_cr(r).last() != '\r',
    decreases r.len(),
{
    if r.len() > 0 && r.last() == '\r' {
        lemma_strip_cr_shape(r.drop_last());
        assert(r.drop_last().take(strip_cr(r).len() as int) =~= r.take(strip_cr(r).len() as int));
    } else {
        assert(r.take(r.len() as int) =~= r);
    }
}

proof fn lemma_line_comment_placed(s: Seq<char>, i: int, marker_len: int, leading: bool)
    requires
        positions_fit(s),
        0 <= i < s.len(),
        s[i] != '\n',
    ensures
        opens_at(line_comment(s, i, marker_len, leading)) == lc(s, i),
        well_placed(line_comment(s, i, marker_len, leading)),
        i < line_end(s, i) <= s.len(),
{
    lemma_find_char_from(s, '\n', i);
    lemma_lc_bounds(s, i);
    assert(lc(s, i).0 <= u32::MAX && lc(s, i).1 <= u32::MAX);
    let sub = s.subrange(i, line_end(s, i));
    lemma_strip_cr_shape(sub);
    lemma_lc_same_line(s, i, line_end(s, i) - i);
    let j = line_end(s, i);
    assert(0 <= j <= s.len());
    assert(lc(s, j).0 <= u32::MAX && lc(s, j).1 <= u32::MAX);
    let c = line_comment(s, i, marker_len, leading);
    assert forall|m: int| 0 <= m < c.raw.len() implies #[trigger] c.raw[m] != '\n' by {
        assert(c.raw[m] == sub[m]);
        assert(sub[m] == s[i + m]);
    }
}

proof fn lemma_block_comment_placed(s: Seq<char>, i: int, nested: bool, leading: bool)
    requires
        positions_fit(s),
        0 <= i,
        i + 2 <= s.len(),
    ensures
        opens_at(block_comment(s, i, nested, leading).0) == lc(s, i),
        well_placed(block_comment(s, i, nested, leading).0),
        i < block_comment(s, i, nested, leading).1 <= s.len(),
{
    lemma_block_end(s, i + 2, 1, nested);
    let end = block_end(s, i + 2, 1, nested);
    lemma_lc_bounds(s, i);
    lemma_lc_mono(s, i, end);
    assert(lc(s, i).0 <= u32::MAX && lc(s, i).1 <= u32::MAX);
    assert(lc(s, end).0 <= u32::MAX && lc(s, end).1 <= u32::MAX);
}

/// Putting a comment that opens at `lc(s, i)` before comments placed from a
/// later index keeps them in order and placed from `lc(s, i)`.
proof fn lemma_prepend_placed(s: Seq<char>, i: int, j: int, c: CommentView, rest: Seq<CommentView>)
    requires
        0 <= i < j,
        opens_at(c) == lc(s, i),
        well_placed(c),
        in_source_order(rest),
        placed_from(rest, lc(s, j)),
    ensures
        in_source_order(seq![c] + rest),
        placed_from(seq![c] + rest, lc(s, i)),
{
    lemma_lc_mono(s, i, j);
    let all = seq![c] + rest;
    assert forall|a: int, b: int| 0 <= a < b < all.len() implies pos_lt(opens_at(#[trigger] all[a]), opens_at(#[trigger] all[b])) by {
        assert(all[b] == rest[b - 1]);
        if a > 0 {
            assert(all[a] == rest[a - 1]);
        } else {
            assert(!pos_lt(opens_at(rest[b - 1]), lc(s, j)));
        }
    }
    assert forall|k: int| 0 <= k < all.len() implies !pos_lt(opens_at(#[trigger] all[k]), lc(s, i)) && well_placed(all[k]) by {
        if k > 0 {
            assert(all[k] == rest[k - 1]);
            assert(!pos_lt(opens_at(rest[k - 1]), lc(s, j)));
        }
    }
}

/// Comments placed from a later index are placed from an earlier one.
proof fn lemma_placed_earlier(s: Seq<char>, i: int, j: int, cs: Seq<CommentView>)
    requires
        0 <= i <= j,
        placed_from(cs, lc(s, j)),
    ensures
        placed_from(cs, lc(s, i)),
{
    lemma_lc_mono(s, i, j);
    assert forall|k: int| 0 <= k < cs.len() implies !pos_lt(opens_at(#[trigger] cs[k]), lc(s, i)) && well_placed(cs[k]) by {
        assert(!pos_lt(opens_at(cs[k]), lc(s, j)));
    }
}

proof fn lemma_hash_scan_shape(s: Seq<char>, word: bool, i: int, prev: Option<char>, lhc: bool)
    requires
        positions_fit(s),
        0 <= i,
    ensures
        in_source_order(hash_scan(s, word, i, prev, lhc)),
        placed_from(hash_scan(s, word, i, prev, lhc), lc(s, i)),
    decreases s.len() - i,
{
    if i < s.len() {
        let ch = s[i];
        if ch == '\n' {
            lemma_hash_scan_shape(s, word, i + 1, Some('\n'), false);
            lemma_placed_earlier(s, i, i + 1, hash_scan(s, word, i + 1, Some('\n'), false));
        } else if ch == '#' && (!word || at_word_boundary(prev)) {
            lemma_line_comment_placed(s, i, 1, !lhc);
            let j = line_end(s, i);
            lemma_hash_scan_shape(s, word, j, Some('#'), true);
            lemma_prepend_placed(s, i, j, line_comment(s, i, 1, !lhc), hash_scan(s, word, j, Some('#'), true));
        } else if ch == '\\' {
            let j = adv(s, i, 2);
            lemma_hash_scan_shape(s, word, j, Some('\\'), true);
            lemma_placed_earlier(s, i, j, hash_scan(s, word, j, Some('\\'), true));
        } else if ch == '"' || ch == '\'' {
            lemma_skip_delimited(s, i, seq![ch, ch, ch], ch == '"' || !word);
            lemma_skip_delimited(s, i, seq![ch], ch == '"' || !word);
            let j = quote_end(s, i, word);
            lemma_hash_scan_shape(s, word, j, Some(ch), true);
            lemma_placed_earlier(s, i, j, hash_scan(s, word, j, Some(ch), true));
        } else {
            lemma_hash_scan_shape(s, word, i + 1, Some(ch), lhc || !is_ws(ch));
            lemma_placed_earlier(s, i, i + 1, hash_scan(s, word, i + 1, Some(ch), lhc || !is_ws(ch)));
        }
    }
}

proof fn lemma_c_scan_shape(s: Seq<char>, rust: bool, i: int, prev: Option<char>, lhc: bool)
    requires
        positions_fit(s),
        0 <= i,
    ensures
        in_source_order(c_scan(s, rust, i, prev, lhc).comments),
        placed_from(c_scan(s, rust, i, prev, lhc).comments, lc(s, i)),
        !rust ==> c_scan(s, rust, i, prev, lhc).attributes.len() == 0,
    decreases s.len() - i,
{
    if i < s.len() {
        let ch = s[i];
        if ch == '\n' {
            lemma_c_scan_shape(s, rust, i + 1, Some('\n'), false);
            lemma_placed_earlier(s, i, i + 1, c_scan(s, rust, i + 1, Some('\n'), false).comments);
        } else if matches_at(s, line_marker(), i) {
            lemma_line_comment_placed(s, i, 2, !lhc);
            let j = line_end(s, i);
            lemma_c_scan_shape(s, rust, j, Some('/'), true);
            lemma_prepend_placed(s, i, j, line_comment(s, i, 2, !lhc), c_scan(s, rust, j, Some('/'), true).comments);
        } else if matches_at(s, open_block(), i) {
            lemma_block_comment_placed(s, i, rust, !lhc);
            let j = block_comment(s, i, rust, !lhc).1;
            lemma_c_scan_shape(s, rust, j, Some('/'), true);
            lemma_prepend_placed(s, i, j, block_comment(s, i, rust, !lhc).0, c_scan(s, rust, j, Some('/'), true).comments);
        } else if rust && ch == '#' && i + 1 < s.len() && (s[i + 1] == '[' || s[i + 1] == '!')
            && attribute_at(s, i) is Some {
            let inner = i + 1 < s.len() && s[i + 1] == '!';
            let off = if inner { 2int } else { 1int };
            lemma_attr_end(s, i + off, 0);
            let j = attribute_at(s, i).unwrap().1;
            lemma_c_scan_shape(s, rust, j, Some(']'), true);
            lemma_placed_earlier(s, i, j, c_scan(s, rust, j, Some(']'), true).comments);
        } else if rust && ch == 'r' && !is_ident_prev(prev) && raw_string_end(s, i) is Some {
            lemma_hash_run(s, i + 1);
            lemma_terminator_scan(s, i + 2 + hash_run(s, i + 1), raw_terminator(hash_run(s, i + 1)));
            let j = raw_string_end(s, i).unwrap();
            lemma_c_scan_shape(s, rust, j, Some('"'), true);
            lemma_placed_earlier(s, i, j, c_scan(s, rust, j, Some('"'), true).comments);
        } else if rust && ch == 'b' && i + 1 < s.len() && s[i + 1] == 'r' && !is_ident_prev(prev) {
            lemma_hash_run(s, i + 2);
            if raw_string_end(s, i + 1) is Some {
                lemma_terminator_scan(s, i + 3 + hash_run(s, i + 2), raw_terminator(hash_run(s, i + 2)));
            }
            let j = match raw_string_end(s, i + 1) {
                Some(e) => e,
                None => i + 1,
            };
            lemma_c_scan_shape(s, rust, j, Some('"'), true);
            lemma_placed_earlier(s, i, j, c_scan(s, rust, j, Some('"'), true).comments);
        } else if ch == '"' {
            lemma_skip_delimited(s, i, seq!['"'], true);
            let j = skip_delimited(s, i, seq!['"'], true);
            lemma_c_scan_shape(s, rust, j, Some('"'), true);
            lemma_placed_earlier(s, i, j, c_scan(s, rust, j, Some('"'), true).comments);
        } else if ch == '`' && !rust {
            lemma_skip_delimited(s, i, seq!['`'], true);
            let j = skip_delimited(s, i, seq!['`'], true);
            lemma_c_scan_shape(s, rust, j, Some('`'), true);
            lemma_placed_earlier(s, i, j, c_scan(s, rust, j, Some('`'), true).comments);
        } else if ch == '\'' {
            lemma_skip_delimited(s, i, seq!['\''], true);
            let j = if rust { char_literal_end(s, i) } else { skip_delimited(s, i, seq!['\''], true) };
            lemma_c_scan_shape(s, rust, j, Some('\''), true);
            lemma_placed_earlier(s, i, j, c_scan(s, rust, j, Some('\''), true).comments);
        } else {
            lemma_c_scan_shape(s, rust, i + 1, Some(ch), lhc || !is_ws(ch));
            lemma_placed_earlier(s, i, i + 1, c_scan(s, rust, i + 1, Some(ch), lhc || !is_ws(ch)).comments);
        }
    }
}

/// What an extraction finds is shaped as the source is: nothing for a
/// language with no grammar here, attributes for Rust alone, and comments in
/// source order, each with a sound span (a line comment on one line, holding
/// no line break and no trailing carriage return).
pub proof fn law_extraction_shape(s: Seq<char>, language: Language)
    requires
        language is Unknown || positions_fit(s),
    ensures
        language is Unknown ==> extracted_spec(s, language) == empty_view(),
        !(language is Rust) ==> extracted_spec(s, language).attributes.len() == 0,
        in_source_order(extracted_spec(s, language).comments),
        forall|k: int| 0 <= k < extracted_spec(s, language).comments.len()
            ==> well_placed(#[trigger] extracted_spec(s, language).comments[k]),
{
    match language {
        Language::Python | Language::Toml => {
            lemma_hash_scan_shape(s, false, 0, None, false);
        },
        Language::Shell | Language::Yaml => {
            lemma_hash_scan_shape(s, true, 0, None, false);
        },
        Language::Rust => {
            lemma_c_scan_shape(s, true, 0, None, false);
        },
        Language::JavaScript | Language::TypeScript => {
            lemma_c_scan_shape(s, false, 0, None, false);
        },
        Language::Unknown => {},
    }
    let cs = extracted_spec(s, language).comments;
    assert forall|k: int| 0 <= k < cs.len() implies well_placed(#[trigger] cs[k]) by {
        if !(language is Unknown) {
            assert(placed_from(cs, lc(s, 0)));
        }
    }
}

/// Extract every comment (and, for Rust, every attribute) from `chars`.
pub fn extract_chars(chars: &Vec<char>, language: Language) -> (e: Extracted)
    requires
        language is Unknown || positions_fit(chars@),
    ensures
        e@ == extracted_spec(chars@, language),
{
    match language {
        Language::Python | Language::Toml => {
            let comments = scan_hash(chars, false);
            let e = Extracted { comments, attributes: Vec::new() };
            proof { assert(e@.attributes =~= Seq::<AttrView>::empty()); }
            e
        },
        Language::Shell | Language::Yaml => {
            let comments = scan_hash(chars, true);
            let e = Extracted { comments, attributes: Vec::new() };
            proof { assert(e@.attributes =~= Seq::<AttrView>::empty()); }
            e
        },
        Language::Rust => scan_c_style(chars, true),
        Language::JavaScript | Language::TypeScript => scan_c_style(chars, false),
        Language::Unknown => {
            let e = Extracted::default();
            proof {
                assert(e@.attributes =~= Seq::<AttrView>::empty());
                assert(e@.comments =~= Seq::<CommentView>::empty());
            }
            e
        },
    }
}

/// Extract every comment (and, for Rust, every attribute) from `source`. An
/// unknown language yields nothing rather than a guessed grammar.
pub fn extract(source: &str, language: Language) -> (e: Extracted)
    requires
        language is Unknown || positions_fit(source@),
    ensures
        e@ == extracted_spec(source@, language),
{
    let chars = chars_of(source);
    extract_chars(&chars, language)
}

} // verus!
