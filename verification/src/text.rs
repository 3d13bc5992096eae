//! Character-level text primitives shared by the scanners and parsers.
//!
//! Text is handled as a sequence of `char`s: every column and offset the crate
//! reports counts characters, and every specification below is stated over
//! `Seq<char>`.

use vstd::prelude::*;
use vstd::std_specs::iter::IteratorSpec;

verus! {

/// The Unicode `White_Space` characters, which is what `char::is_whitespace`
/// and everything built on it (`trim`, `split_whitespace`) tests for.
pub open spec fn is_ws(c: char) -> bool {
    ||| ('\u{9}' <= c && c <= '\u{d}')
    ||| c == ' '
    ||| c == '\u{85}'
    ||| c == '\u{a0}'
    ||| c == '\u{1680}'
    ||| ('\u{2000}' <= c && c <= '\u{200a}')
    ||| c == '\u{2028}'
    ||| c == '\u{2029}'
    ||| c == '\u{202f}'
    ||| c == '\u{205f}'
    ||| c == '\u{3000}'
}

/// Exec form of [`is_ws`].
pub fn is_whitespace(c: char) -> (b: bool)
    ensures
        b == is_ws(c),
{
    ('\u{9}' <= c && c <= '\u{d}') || c == ' ' || c == '\u{85}' || c == '\u{a0}' || c
        == '\u{1680}' || ('\u{2000}' <= c && c <= '\u{200a}') || c == '\u{2028}' || c
        == '\u{2029}' || c == '\u{202f}' || c == '\u{205f}' || c == '\u{3000}'
}

pub open spec fn is_ascii_alpha(c: char) -> bool {
    ('a' <= c && c <= 'z') || ('A' <= c && c <= 'Z')
}

pub open spec fn is_ascii_digit(c: char) -> bool {
    '0' <= c && c <= '9'
}

pub open spec fn is_ascii_alnum(c: char) -> bool {
    is_ascii_alpha(c) || is_ascii_digit(c)
}

pub open spec fn is_hex_digit(c: char) -> bool {
    is_ascii_digit(c) || ('a' <= c && c <= 'f') || ('A' <= c && c <= 'F')
}

pub fn ascii_alpha(c: char) -> (b: bool)
    ensures
        b == is_ascii_alpha(c),
{
    ('a' <= c && c <= 'z') || ('A' <= c && c <= 'Z')
}

pub fn ascii_digit(c: char) -> (b: bool)
    ensures
        b == is_ascii_digit(c),
{
    '0' <= c && c <= '9'
}

pub fn ascii_alnum(c: char) -> (b: bool)
    ensures
        b == is_ascii_alnum(c),
{
    ascii_alpha(c) || ascii_digit(c)
}

pub fn hex_digit(c: char) -> (b: bool)
    ensures
        b == is_hex_digit(c),
{
    ascii_digit(c) || ('a' <= c && c <= 'f') || ('A' <= c && c <= 'F')
}

/// What `char::is_alphanumeric` answers: Unicode `Alphabetic` or `Numeric`.
pub uninterp spec fn alphanumeric(c: char) -> bool;

/// `char::is_alphanumeric`.
///
/// The result is named [`alphanumeric`]. The one fact stated beside the name is
/// the ASCII case, where the Unicode properties reduce to letters and digits.
#[verifier::external_body]
pub(crate) fn is_alphanumeric(c: char) -> (b: bool)
    ensures
        b == alphanumeric(c),
        (c as u32) < 128 ==> (b <==> is_ascii_alnum(c)),
{
    c.is_alphanumeric()
}

/// An identifier character in the sense the scanners use: alphanumeric or `_`.
pub open spec fn is_word(c: char) -> bool {
    alphanumeric(c) || c == '_'
}

pub fn word_char(c: char) -> (b: bool)
    ensures
        b == is_word(c),
{
    is_alphanumeric(c) || c == '_'
}

/// ASCII lower-casing, leaving every other character alone.
pub open spec fn ascii_lower(c: char) -> char {
    if 'A' <= c && c <= 'Z' {
        (((c as u32) as u8) + 32) as char
    } else {
        c
    }
}

pub fn to_ascii_lower(c: char) -> (r: char)
    ensures
        r == ascii_lower(c),
{
    if 'A' <= c && c <= 'Z' {
        (((c as u32) as u8) + 32) as char
    } else {
        c
    }
}

/// Two sequences equal up to ASCII case.
pub open spec fn eq_ignore_ascii_case(a: Seq<char>, b: Seq<char>) -> bool {
    a.len() == b.len() && forall|i: int| 0 <= i < a.len() ==> ascii_lower(#[trigger] a[i]) == ascii_lower(b[i])
}

pub open spec fn lower_seq(s: Seq<char>) -> Seq<char> {
    s.map_values(|c: char| ascii_lower(c))
}

// ---------------------------------------------------------------------------
// Whitespace runs and trimming.

/// The first index at or after `i` that does not hold whitespace (or the end).
pub open spec fn skip_ws(s: Seq<char>, i: int) -> int
    decreases s.len() - i,
{
    if i < 0 || i >= s.len() {
        i
    } else if is_ws(s[i]) {
        skip_ws(s, i + 1)
    } else {
        i
    }
}

/// The smallest index `j <= i` such that `s[j..i]` is all whitespace.
pub open spec fn skip_ws_back(s: Seq<char>, i: int) -> int
    decreases i,
{
    if i <= 0 || i > s.len() {
        i
    } else if is_ws(s[i - 1]) {
        skip_ws_back(s, i - 1)
    } else {
        i
    }
}

pub open spec fn trim_start(s: Seq<char>) -> Seq<char> {
    s.subrange(skip_ws(s, 0), s.len() as int)
}

pub open spec fn trim_end(s: Seq<char>) -> Seq<char> {
    s.subrange(0, skip_ws_back(s, s.len() as int))
}

pub open spec fn trim(s: Seq<char>) -> Seq<char> {
    trim_end(trim_start(s))
}

pub proof fn lemma_skip_ws(s: Seq<char>, i: int)
    requires
        0 <= i <= s.len(),
    ensures
        i <= skip_ws(s, i) <= s.len(),
        skip_ws(s, i) < s.len() ==> !is_ws(s[skip_ws(s, i)]),
        forall|k: int| i <= k < skip_ws(s, i) ==> is_ws(#[trigger] s[k]),
    decreases s.len() - i,
{
    if i < s.len() && is_ws(s[i]) {
        lemma_skip_ws(s, i + 1);
    }
}

pub proof fn lemma_skip_ws_back(s: Seq<char>, i: int)
    requires
        0 <= i <= s.len(),
    ensures
        0 <= skip_ws_back(s, i) <= i,
        skip_ws_back(s, i) > 0 ==> !is_ws(s[skip_ws_back(s, i) - 1]),
        forall|k: int| skip_ws_back(s, i) <= k < i ==> is_ws(#[trigger] s[k]),
    decreases i,
{
    if i > 0 && is_ws(s[i - 1]) {
        lemma_skip_ws_back(s, i - 1);
    }
}

/// Exec form of [`skip_ws`].
pub fn skip_ws_from(s: &Vec<char>, i: usize) -> (j: usize)
    requires
        i <= s@.len(),
    ensures
        j == skip_ws(s@, i as int),
        i <= j <= s@.len(),
{
    proof { lemma_skip_ws(s@, i as int); }
    let mut j = i;
    while j < s.len() && is_whitespace(s[j])
        invariant
            i <= j <= s@.len(),
            skip_ws(s@, j as int) == skip_ws(s@, i as int),
        decreases s@.len() - j,
    {
        j = j + 1;
    }
    j
}

/// Exec form of [`skip_ws_back`].
pub fn skip_ws_back_from(s: &Vec<char>, i: usize) -> (j: usize)
    requires
        i <= s@.len(),
    ensures
        j == skip_ws_back(s@, i as int),
        j <= i,
{
    proof { lemma_skip_ws_back(s@, i as int); }
    let mut j = i;
    while j > 0 && is_whitespace(s[j - 1])
        invariant
            j <= i <= s@.len(),
            skip_ws_back(s@, j as int) == skip_ws_back(s@, i as int),
        decreases j,
    {
        j = j - 1;
    }
    j
}

// ---------------------------------------------------------------------------
// Copies, conversions, and literal matching.

/// `s[from..to]` as a fresh vector.
pub fn slice(s: &Vec<char>, from: usize, to: usize) -> (r: Vec<char>)
    requires
        from <= to <= s@.len(),
    ensures
        r@ == s@.subrange(from as int, to as int),
{
    let mut r: Vec<char> = Vec::new();
    let mut i = from;
    while i < to
        invariant
            from <= i <= to <= s@.len(),
            r@ == s@.subrange(from as int, i as int),
        decreases to - i,
    {
        r.push(s[i]);
        i = i + 1;
        proof { assert(r@ =~= s@.subrange(from as int, i as int)); }
    }
    r
}

pub fn trim_vec(s: &Vec<char>) -> (r: Vec<char>)
    ensures
        r@ == trim(s@),
{
    let a = skip_ws_from(s, 0);
    let t = slice(s, a, s.len());
    let b = skip_ws_back_from(&t, t.len());
    slice(&t, 0, b)
}

pub fn trim_start_vec(s: &Vec<char>) -> (r: Vec<char>)
    ensures
        r@ == trim_start(s@),
{
    let a = skip_ws_from(s, 0);
    slice(s, a, s.len())
}

pub fn trim_end_vec(s: &Vec<char>) -> (r: Vec<char>)
    ensures
        r@ == trim_end(s@),
{
    let b = skip_ws_back_from(s, s.len());
    slice(s, 0, b)
}

/// `String::push`: appends one character.
#[verifier::external_body]
pub(crate) fn push_char(s: &mut String, c: char)
    ensures
        final(s)@ == old(s)@.push(c),
{
    s.push(c);
}

/// The characters of a vector as a `String`.
pub fn to_string(v: &Vec<char>) -> (s: String)
    ensures
        s@ == v@,
{
    let mut s = String::new();
    let mut i: usize = 0;
    while i < v.len()
        invariant
            i <= v@.len(),
            s@ == v@.subrange(0, i as int),
        decreases v@.len() - i,
    {
        push_char(&mut s, v[i]);
        i = i + 1;
        proof { assert(s@ =~= v@.subrange(0, i as int)); }
    }
    s
}

/// The characters of a string slice, in order.
pub fn chars_of(s: &str) -> (v: Vec<char>)
    ensures
        v@ == s@,
{
    let mut v: Vec<char> = Vec::new();
    let mut it = s.chars();
    broadcast use vstd::string::group_string_axioms;
    proof {
        assert(it.remaining() == s@);
    }
    loop
        invariant
            v@ + it.remaining() == s@,
            it.obeys_prophetic_iter_laws(),
            it.decrease() is Some,
        decreases it.decrease()->0,
    {
        let ghost before = it.remaining();
        match it.next() {
            Some(c) => {
                proof {
                    assert(it.remaining() == before.drop_first());
                }
                v.push(c);
                proof {
                    assert(v@ + it.remaining() =~= s@);
                }
            },
            None => {
                proof { assert(v@ =~= s@); }
                return v;
            },
        }
    }
}

/// Whether `p` occurs in `s` starting at index `i`.
pub open spec fn matches_at(s: Seq<char>, p: Seq<char>, i: int) -> bool {
    0 <= i && i + p.len() <= s.len() && s.subrange(i, i + p.len()) == p
}

pub fn matches_at_vec(s: &Vec<char>, p: &Vec<char>, i: usize) -> (b: bool)
    ensures
        b == matches_at(s@, p@, i as int),
{
    if i > s.len() || p.len() > s.len() - i {
        return false;
    }
    let mut k: usize = 0;
    while k < p.len()
        invariant
            i + p.len() <= s.len(),
            k <= p@.len(),
            forall|j: int| 0 <= j < k ==> s@[i + j] == p@[j],
        decreases p@.len() - k,
    {
        if s[i + k] != p[k] {
            proof {
                assert(s@.subrange(i as int, i + p@.len())[k as int] != p@[k as int]);
            }
            return false;
        }
        k = k + 1;
    }
    proof {
        assert(s@.subrange(i as int, i + p@.len()) =~= p@);
    }
    true
}

pub open spec fn starts_with(s: Seq<char>, p: Seq<char>) -> bool {
    matches_at(s, p, 0)
}

pub open spec fn ends_with(s: Seq<char>, p: Seq<char>) -> bool {
    matches_at(s, p, s.len() - p.len())
}

pub open spec fn strip_prefix(s: Seq<char>, p: Seq<char>) -> Option<Seq<char>> {
    if starts_with(s, p) {
        Some(s.subrange(p.len() as int, s.len() as int))
    } else {
        None
    }
}

pub open spec fn strip_suffix(s: Seq<char>, p: Seq<char>) -> Option<Seq<char>> {
    if ends_with(s, p) {
        Some(s.subrange(0, s.len() - p.len()))
    } else {
        None
    }
}

pub fn strip_prefix_vec(s: &Vec<char>, p: &Vec<char>) -> (r: Option<Vec<char>>)
    ensures
        r.is_some() == strip_prefix(s@, p@).is_some(),
        r.is_some() ==> r.unwrap()@ == strip_prefix(s@, p@).unwrap(),
{
    if matches_at_vec(s, p, 0) {
        Some(slice(s, p.len(), s.len()))
    } else {
        None
    }
}

pub fn strip_suffix_vec(s: &Vec<char>, p: &Vec<char>) -> (r: Option<Vec<char>>)
    ensures
        r.is_some() == strip_suffix(s@, p@).is_some(),
        r.is_some() ==> r.unwrap()@ == strip_suffix(s@, p@).unwrap(),
{
    if p.len() <= s.len() && matches_at_vec(s, p, s.len() - p.len()) {
        Some(slice(s, 0, s.len() - p.len()))
    } else {
        None
    }
}

/// The first index at or after `i` where `p` occurs.
pub open spec fn find_from(s: Seq<char>, p: Seq<char>, i: int) -> Option<int>
    decreases s.len() - i,
{
    if i < 0 || i + p.len() > s.len() {
        None
    } else if matches_at(s, p, i) {
        Some(i)
    } else if i >= s.len() {
        None
    } else {
        find_from(s, p, i + 1)
    }
}

pub proof fn lemma_find_from(s: Seq<char>, p: Seq<char>, i: int)
    requires
        0 <= i,
    ensures
        find_from(s, p, i) matches Some(k) ==> i <= k && k + p.len() <= s.len() && matches_at(s, p, k),
        forall|k: int| i <= k && (find_from(s, p, i) matches Some(f) ==> k < f) ==> !matches_at(s, p, k),
    decreases s.len() - i,
{
    if i + p.len() <= s.len() && !matches_at(s, p, i) && i < s.len() {
        lemma_find_from(s, p, i + 1);
    }
}

pub fn find_from_vec(s: &Vec<char>, p: &Vec<char>, i: usize) -> (r: Option<usize>)
    ensures
        r.is_some() == find_from(s@, p@, i as int).is_some(),
        r.is_some() ==> r.unwrap() as int == find_from(s@, p@, i as int).unwrap(),
{
    if i > s.len() {
        return None;
    }
    let mut k = i;
    while k <= s.len() && p.len() <= s.len() - k
        invariant
            i <= k,
            k <= s@.len() + 1,
            find_from(s@, p@, k as int) == find_from(s@, p@, i as int),
        decreases s@.len() + 1 - k,
    {
        if matches_at_vec(s, p, k) {
            return Some(k);
        }
        if k == s.len() {
            return None;
        }
        k = k + 1;
    }
    None
}

/// The first index at or after `i` holding `c`.
pub open spec fn find_char_from(s: Seq<char>, c: char, i: int) -> Option<int>
    decreases s.len() - i,
{
    if i < 0 || i >= s.len() {
        None
    } else if s[i] == c {
        Some(i)
    } else {
        find_char_from(s, c, i + 1)
    }
}

pub proof fn lemma_find_char_from(s: Seq<char>, c: char, i: int)
    requires
        0 <= i,
    ensures
        find_char_from(s, c, i) matches Some(k) ==> i <= k < s.len() && s[k] == c,
        forall|k: int| i <= k < s.len() && (find_char_from(s, c, i) matches Some(f) ==> k < f) ==> s[k] != c,
    decreases s.len() - i,
{
    if i < s.len() && s[i] != c {
        lemma_find_char_from(s, c, i + 1);
    }
}

pub fn find_char_vec(s: &Vec<char>, c: char, i: usize) -> (r: Option<usize>)
    ensures
        r.is_some() == find_char_from(s@, c, i as int).is_some(),
        r.is_some() ==> r.unwrap() as int == find_char_from(s@, c, i as int).unwrap(),
        r.is_some() ==> r.unwrap() < s@.len(),
{
    let mut k = i;
    while k < s.len()
        invariant
            i <= k,
            find_char_from(s@, c, k as int) == find_char_from(s@, c, i as int),
        decreases s@.len() - k,
    {
        if s[k] == c {
            return Some(k);
        }
        k = k + 1;
    }
    None
}


/// Strings from character vectors.
pub open spec fn chars_view(v: Seq<Vec<char>>) -> Seq<Seq<char>> {
    v.map_values(|c: Vec<char>| c@)
}

/// Whether two character vectors hold the same text.
pub fn eq_vec(a: &Vec<char>, b: &Vec<char>) -> (r: bool)
    ensures
        r == (a@ == b@),
{
    proof { assert(a@.subrange(0, a@.len() as int) =~= a@); }
    a.len() == b.len() && matches_at_vec(a, b, 0)
}

/// Whether a character vector holds the text of a string slice.
pub fn eq_str(a: &Vec<char>, b: &str) -> (r: bool)
    ensures
        r == (a@ == b@),
{
    let bv = chars_of(b);
    eq_vec(a, &bv)
}

/// The first character, if any.
pub open spec fn first(s: Seq<char>) -> Option<char> {
    if s.len() > 0 { Some(s[0]) } else { None }
}

/// The text after `p`, compared ASCII-case-blind.
pub open spec fn strip_prefix_ci(s: Seq<char>, p: Seq<char>) -> Option<Seq<char>> {
    if p.len() <= s.len() && eq_ignore_ascii_case(s.subrange(0, p.len() as int), p) {
        Some(s.subrange(p.len() as int, s.len() as int))
    } else {
        None
    }
}

pub fn strip_prefix_ci_vec(s: &Vec<char>, p: &Vec<char>) -> (r: Option<Vec<char>>)
    ensures
        r.is_some() == strip_prefix_ci(s@, p@).is_some(),
        r.is_some() ==> r.unwrap()@ == strip_prefix_ci(s@, p@).unwrap(),
{
    if p.len() > s.len() {
        return None;
    }
    let mut k: usize = 0;
    while k < p.len()
        invariant
            p@.len() <= s@.len(),
            k <= p@.len(),
            forall|j: int| 0 <= j < k ==> ascii_lower(s@[j]) == ascii_lower(p@[j]),
        decreases p@.len() - k,
    {
        if to_ascii_lower(s[k]) != to_ascii_lower(p[k]) {
            proof {
                let h = s@.subrange(0, p@.len() as int);
                assert(ascii_lower(h[k as int]) != ascii_lower(p@[k as int]));
            }
            return None;
        }
        k = k + 1;
    }
    proof {
        let h = s@.subrange(0, p@.len() as int);
        assert forall|i: int| 0 <= i < h.len() implies ascii_lower(#[trigger] h[i]) == ascii_lower(p@[i]) by {}
    }
    Some(slice(s, p.len(), s.len()))
}


/// The pieces of `s[start..]` between occurrences of `c` (empty pieces kept),
/// scanning from `i`.
pub open spec fn split_from(s: Seq<char>, c: char, i: int, start: int) -> Seq<Seq<char>>
    decreases s.len() - i,
{
    if i < 0 || i >= s.len() {
        seq![s.subrange(start, s.len() as int)]
    } else if s[i] == c {
        seq![s.subrange(start, i)] + split_from(s, c, i + 1, i + 1)
    } else {
        split_from(s, c, i + 1, start)
    }
}

pub proof fn lemma_split_len(s: Seq<char>, c: char, i: int, start: int)
    requires
        0 <= i <= s.len(),
    ensures
        split_from(s, c, i, start).len() <= s.len() - i + 1,
    decreases s.len() - i,
{
    if i < s.len() {
        lemma_split_len(s, c, i + 1, if s[i] == c { i + 1 } else { start });
    }
}

/// `str::split(c)`: every piece between occurrences of `c`.
pub open spec fn split_char(s: Seq<char>, c: char) -> Seq<Seq<char>> {
    split_from(s, c, 0, 0)
}

pub fn split_char_vec(s: &Vec<char>, c: char) -> (r: Vec<Vec<char>>)
    ensures
        chars_view(r@) == split_char(s@, c),
{
    let mut out: Vec<Vec<char>> = Vec::new();
    let mut start: usize = 0;
    let mut i: usize = 0;
    while i < s.len()
        invariant
            start <= i <= s@.len(),
            split_char(s@, c) == chars_view(out@) + split_from(s@, c, i as int, start as int),
        decreases s@.len() - i,
    {
        if s[i] == c {
            let piece = slice(s, start, i);
            let ghost before = chars_view(out@);
            out.push(piece);
            proof { assert(chars_view(out@) =~= before + seq![piece@]); }
            i = i + 1;
            start = i;
            proof {
                assert(split_char(s@, c) =~= chars_view(out@) + split_from(s@, c, i as int, start as int));
            }
        } else {
            i = i + 1;
        }
    }
    let piece = slice(s, start, s.len());
    let ghost before = chars_view(out@);
    out.push(piece);
    proof { assert(chars_view(out@) =~= before + seq![piece@]); }
    out
}

/// `split_once(c)`: the text before and after the first `c`.
pub open spec fn split_once(s: Seq<char>, c: char) -> Option<(Seq<char>, Seq<char>)> {
    match find_char_from(s, c, 0) {
        Some(k) => Some((s.subrange(0, k), s.subrange(k + 1, s.len() as int))),
        None => None,
    }
}

pub fn split_once_vec(s: &Vec<char>, c: char) -> (r: Option<(Vec<char>, Vec<char>)>)
    ensures
        match (r, split_once(s@, c)) {
            (Some((a, b)), Some((x, y))) => a@ == x && b@ == y,
            (None, None) => true,
            _ => false,
        },
{
    match find_char_vec(s, c, 0) {
        Some(k) => {
            let n = s.len();
            Some((slice(s, 0, k), slice(s, k + 1, n)))
        },
        None => None,
    }
}

/// The trimmed, non-empty pieces among the first `j` of `p`.
pub open spec fn trimmed_upto(p: Seq<Seq<char>>, j: int) -> Seq<Seq<char>>
    decreases j,
{
    if j <= 0 || j > p.len() {
        Seq::empty()
    } else {
        trimmed_upto(p, j - 1) + if trim(p[j - 1]).len() > 0 {
            seq![trim(p[j - 1])]
        } else {
            Seq::empty()
        }
    }
}

/// `s.split(c).map(str::trim).filter(|t| !t.is_empty())`.
pub open spec fn split_trimmed(s: Seq<char>, c: char) -> Seq<Seq<char>> {
    trimmed_upto(split_char(s, c), split_char(s, c).len() as int)
}

/// The trimmed, non-empty pieces of `s` between occurrences of `c`.
pub fn split_trimmed_vec(s: &Vec<char>, c: char) -> (r: Vec<String>)
    ensures
        crate::model::strings_view(r@) == split_trimmed(s@, c),
{
    let pieces = split_char_vec(s, c);
    let ghost p = chars_view(pieces@);
    let mut out: Vec<String> = Vec::new();
    let mut j: usize = 0;
    while j < pieces.len()
        invariant
            p == chars_view(pieces@),
            p == split_char(s@, c),
            j <= pieces@.len(),
            crate::model::strings_view(out@) == trimmed_upto(p, j as int),
        decreases pieces@.len() - j,
    {
        proof { assert(p[j as int] == pieces@[j as int]@); }
        let t = trim_vec(&pieces[j]);
        let ghost before = crate::model::strings_view(out@);
        if t.len() > 0 {
            let piece = to_string(&t);
            out.push(piece);
            proof { assert(crate::model::strings_view(out@) =~= before + seq![piece@]); }
        }
        proof { assert(crate::model::strings_view(out@) =~= trimmed_upto(p, j + 1)); }
        j = j + 1;
    }
    out
}

/// The piece `s[a..b]`, if it is not empty.
pub open spec fn word(s: Seq<char>, a: int, b: int) -> Seq<Seq<char>> {
    if a < b { seq![s.subrange(a, b)] } else { Seq::empty() }
}

/// The whitespace-separated words of `s[start..]`, scanning from `i`.
pub open spec fn words_from(s: Seq<char>, i: int, start: int) -> Seq<Seq<char>>
    decreases s.len() - i,
{
    if i < 0 || i >= s.len() {
        word(s, start, s.len() as int)
    } else if is_ws(s[i]) {
        word(s, start, i) + words_from(s, i + 1, i + 1)
    } else {
        words_from(s, i + 1, start)
    }
}

/// `str::split_whitespace`.
pub open spec fn split_ws(s: Seq<char>) -> Seq<Seq<char>> {
    words_from(s, 0, 0)
}

/// The whitespace-separated words of `s`.
pub fn split_ws_vec(s: &Vec<char>) -> (r: Vec<String>)
    ensures
        crate::model::strings_view(r@) == split_ws(s@),
{
    let mut out: Vec<String> = Vec::new();
    let mut start: usize = 0;
    let mut i: usize = 0;
    while i < s.len()
        invariant
            start <= i <= s@.len(),
            split_ws(s@) == crate::model::strings_view(out@) + words_from(s@, i as int, start as int),
        decreases s@.len() - i,
    {
        if is_whitespace(s[i]) {
            let ghost before = crate::model::strings_view(out@);
            if start < i {
                let w = to_string(&slice(s, start, i));
                out.push(w);
                proof { assert(crate::model::strings_view(out@) =~= before + word(s@, start as int, i as int)); }
            } else {
                proof { assert(crate::model::strings_view(out@) =~= before + word(s@, start as int, i as int)); }
            }
            i = i + 1;
            start = i;
            proof {
                assert(split_ws(s@) =~= crate::model::strings_view(out@) + words_from(s@, i as int, start as int));
            }
        } else {
            i = i + 1;
        }
    }
    let ghost before = crate::model::strings_view(out@);
    if start < s.len() {
        let w = to_string(&slice(s, start, s.len()));
        out.push(w);
        proof { assert(crate::model::strings_view(out@) =~= before + word(s@, start as int, s@.len() as int)); }
    } else {
        proof { assert(crate::model::strings_view(out@) =~= before + word(s@, start as int, s@.len() as int)); }
    }
    out
}

/// The decimal digit for `d` in `0..10`.
pub open spec fn digit(d: int) -> char {
    if d == 0 { '0' } else if d == 1 { '1' } else if d == 2 { '2' } else if d == 3 { '3' } else if d == 4 {
        '4'
    } else if d == 5 { '5' } else if d == 6 { '6' } else if d == 7 { '7' } else if d == 8 { '8' } else { '9' }
}

/// `n` written in decimal, as `Display` writes an unsigned integer.
pub open spec fn decimal(n: nat) -> Seq<char>
    decreases n,
{
    if n < 10 {
        seq![digit(n as int)]
    } else {
        decimal(n / 10).push(digit((n % 10) as int))
    }
}

fn digit_exec(d: u64) -> (c: char)
    requires
        d < 10,
    ensures
        c == digit(d as int),
{
    if d == 0 { '0' } else if d == 1 { '1' } else if d == 2 { '2' } else if d == 3 { '3' } else if d == 4 {
        '4'
    } else if d == 5 { '5' } else if d == 6 { '6' } else if d == 7 { '7' } else if d == 8 { '8' } else { '9' }
}

/// Append `n` in decimal to `out`.
pub fn push_decimal(out: &mut String, n: u64)
    ensures
        final(out)@ == old(out)@ + decimal(n as nat),
    decreases n,
{
    if n < 10 {
        push_char(out, digit_exec(n));
    } else {
        push_decimal(out, n / 10);
        push_char(out, digit_exec(n % 10));
        proof { assert(out@ =~= old(out)@ + decimal(n as nat)); }
    }
}

} // verus!
