//! Source files: the unit a tool parser consumes.
//!
//! A [`SourceFile`] extracts its comments (and, for Rust, its attributes) once,
//! at construction; parsers read that extraction and never re-scan raw lines.

use vstd::prelude::*;

use crate::comments::{Attribute, Comment, Extracted, ExtractedView, extract_chars, extracted_spec, positions_fit, positions_fit_exec, sat_u32};
use crate::text::{chars_of, slice, to_string, to_ascii_lower, ascii_lower, lower_seq, matches_at, matches_at_vec, find_char_from};

verus! {

/// A source language, as far as comment syntax is concerned.
#[derive(Debug, Clone, Copy, PartialEq, Eq, Hash, Structural)]
pub enum Language {
    /// Python (`.py`, `.pyi`, `.pyw`).
    Python,
    /// Rust (`.rs`).
    Rust,
    /// JavaScript (`.js`, `.jsx`, `.mjs`, `.cjs`).
    JavaScript,
    /// TypeScript (`.ts`, `.tsx`, `.mts`, `.cts`).
    TypeScript,
    /// POSIX-ish shell (`.sh`, `.bash`, `.zsh`, `.ksh`).
    Shell,
    /// YAML (`.yml`, `.yaml`).
    Yaml,
    /// TOML (`.toml`).
    Toml,
    /// Anything without a known comment grammar; scanned as having no comments.
    Unknown,
}

// ---------------------------------------------------------------------------
// Paths.

/// The last component of a `/`-separated path, skipping empty and `.` pieces
/// the way `Path::file_name` does. `None` for a path with no such piece or one
/// ending in `..`.
pub open spec fn last_piece(p: Seq<char>, i: int, cur_start: int, last: Option<(int, int)>) -> Option<(int, int)>
    decreases p.len() - i,
{
    if i < 0 || i > p.len() {
        last
    } else {
        let at_sep = i == p.len() || p[i] == '/';
        if !at_sep {
            last_piece(p, i + 1, cur_start, last)
        } else {
            let piece = p.subrange(cur_start, i);
            let next = if piece.len() == 0 || piece == seq!['.'] { last } else { Some((cur_start, i)) };
            if i == p.len() {
                next
            } else {
                last_piece(p, i + 1, i + 1, next)
            }
        }
    }
}

pub open spec fn file_name(p: Seq<char>) -> Option<Seq<char>> {
    match last_piece(p, 0, 0, None) {
        Some((a, b)) => {
            let name = p.subrange(a, b);
            if name == seq!['.', '.'] { None } else { Some(name) }
        },
        None => None,
    }
}

/// The index of the last `.` in `s` before `i`.
pub open spec fn last_dot(s: Seq<char>, i: int) -> Option<int>
    decreases i,
{
    if i <= 0 || i > s.len() {
        None
    } else if s[i - 1] == '.' {
        Some(i - 1)
    } else {
        last_dot(s, i - 1)
    }
}

/// `Path::extension`: the text after the file name's last `.`, when something
/// precedes that dot.
pub open spec fn extension(p: Seq<char>) -> Option<Seq<char>> {
    match file_name(p) {
        Some(name) => match last_dot(name, name.len() as int) {
            Some(k) => if k == 0 { None } else { Some(name.subrange(k + 1, name.len() as int)) },
            None => None,
        },
        None => None,
    }
}

pub open spec fn language_of_ext(e: Seq<char>) -> Language {
    if e == "py"@ || e == "pyi"@ || e == "pyw"@ {
        Language::Python
    } else if e == "rs"@ {
        Language::Rust
    } else if e == "js"@ || e == "jsx"@ || e == "mjs"@ || e == "cjs"@ {
        Language::JavaScript
    } else if e == "ts"@ || e == "tsx"@ || e == "mts"@ || e == "cts"@ {
        Language::TypeScript
    } else if e == "sh"@ || e == "bash"@ || e == "zsh"@ || e == "ksh"@ {
        Language::Shell
    } else if e == "yml"@ || e == "yaml"@ {
        Language::Yaml
    } else if e == "toml"@ {
        Language::Toml
    } else {
        Language::Unknown
    }
}

/// The language a path's (ASCII-lowercased) extension names.
pub open spec fn language_of_path(p: Seq<char>) -> Language {
    match extension(p) {
        Some(e) => language_of_ext(lower_seq(e)),
        None => language_of_ext(Seq::empty()),
    }
}

proof fn lemma_ext_table(e: Seq<char>)
    ensures
        ({
            let l = language_of_ext(e);
            &&& (e == "py"@ || e == "pyi"@ || e == "pyw"@) <==> l == Language::Python
            &&& e == "rs"@ <==> l == Language::Rust
            &&& (e == "js"@ || e == "jsx"@ || e == "mjs"@ || e == "cjs"@) <==> l == Language::JavaScript
            &&& (e == "ts"@ || e == "tsx"@ || e == "mts"@ || e == "cts"@) <==> l == Language::TypeScript
            &&& (e == "sh"@ || e == "bash"@ || e == "zsh"@ || e == "ksh"@) <==> l == Language::Shell
            &&& (e == "yml"@ || e == "yaml"@) <==> l == Language::Yaml
            &&& e == "toml"@ <==> l == Language::Toml
        }),
{
    reveal_strlit("py");
    assert("py"@ =~= seq!['p', 'y']);
    reveal_strlit("pyi");
    assert("pyi"@ =~= seq!['p', 'y', 'i']);
    reveal_strlit("pyw");
    assert("pyw"@ =~= seq!['p', 'y', 'w']);
    reveal_strlit("rs");
    assert("rs"@ =~= seq!['r', 's']);
    reveal_strlit("js");
    assert("js"@ =~= seq!['j', 's']);
    reveal_strlit("jsx");
    assert("jsx"@ =~= seq!['j', 's', 'x']);
    reveal_strlit("mjs");
    assert("mjs"@ =~= seq!['m', 'j', 's']);
    reveal_strlit("cjs");
    assert("cjs"@ =~= seq!['c', 'j', 's']);
    reveal_strlit("ts");
    assert("ts"@ =~= seq!['t', 's']);
    reveal_strlit("tsx");
    assert("tsx"@ =~= seq!['t', 's', 'x']);
    reveal_strlit("mts");
    assert("mts"@ =~= seq!['m', 't', 's']);
    reveal_strlit("cts");
    assert("cts"@ =~= seq!['c', 't', 's']);
    reveal_strlit("sh");
    assert("sh"@ =~= seq!['s', 'h']);
    reveal_strlit("bash");
    assert("bash"@ =~= seq!['b', 'a', 's', 'h']);
    reveal_strlit("zsh");
    assert("zsh"@ =~= seq!['z', 's', 'h']);
    reveal_strlit("ksh");
    assert("ksh"@ =~= seq!['k', 's', 'h']);
    reveal_strlit("yml");
    assert("yml"@ =~= seq!['y', 'm', 'l']);
    reveal_strlit("yaml");
    assert("yaml"@ =~= seq!['y', 'a', 'm', 'l']);
    reveal_strlit("toml");
    assert("toml"@ =~= seq!['t', 'o', 'm', 'l']);
}

proof fn lemma_last_piece_tail(p: Seq<char>, i: int, cs: int, last: Option<(int, int)>)
    requires
        0 <= cs <= i <= p.len(),
        forall|m: int| i <= m < p.len() ==> p[m] != '/',
        p.subrange(cs, p.len() as int).len() > 0,
        p.subrange(cs, p.len() as int) != seq!['.'],
    ensures
        last_piece(p, i, cs, last) == Some((cs, p.len() as int)),
    decreases p.len() - i,
{
    if i < p.len() {
        lemma_last_piece_tail(p, i + 1, cs, last);
    }
}

proof fn lemma_last_piece_reach(p: Seq<char>, i: int, cs: int, last: Option<(int, int)>, k: int)
    requires
        0 <= i <= k < p.len(),
        p[k] == '/',
    ensures
        exists|x: Option<(int, int)>| last_piece(p, i, cs, last) == #[trigger] last_piece(p, k + 1, k + 1, x),
    decreases k - i,
{
    let at_sep = p[i] == '/';
    let piece = p.subrange(cs, i);
    let next = if piece.len() == 0 || piece == seq!['.'] { last } else { Some((cs, i)) };
    if i == k {
        assert(last_piece(p, i, cs, last) == last_piece(p, k + 1, k + 1, next));
    } else if !at_sep {
        lemma_last_piece_reach(p, i + 1, cs, last, k);
    } else {
        lemma_last_piece_reach(p, i + 1, i + 1, next, k);
    }
}

proof fn lemma_last_dot_at(s: Seq<char>, i: int, k: int)
    requires
        0 <= k < i <= s.len(),
        s[k] == '.',
        forall|m: int| k < m < s.len() ==> s[m] != '.',
    ensures
        last_dot(s, i) == Some(k),
    decreases i,
{
    if i - 1 > k {
        lemma_last_dot_at(s, i - 1, k);
    }
}

/// The path `dir` + `stem.ext`, in a directory `dir` (empty, or ending in
/// `/`), has the extension `ext`, and its language is the one the
/// documentation of [`Language`] lists for that extension in any letter case:
/// `.py`, `.pyi`, `.pyw` Python; `.rs` Rust; `.js`, `.jsx`, `.mjs`, `.cjs`
/// JavaScript; `.ts`, `.tsx`, `.mts`, `.cts` TypeScript; `.sh`, `.bash`,
/// `.zsh`, `.ksh` shell; `.yml`, `.yaml` YAML; `.toml` TOML; any other
/// extension is unknown.
pub proof fn law_language_follows_the_extension(dir: Seq<char>, stem: Seq<char>, ext: Seq<char>)
    requires
        dir.len() == 0 || dir.last() == '/',
        stem.len() > 0,
        forall|m: int| 0 <= m < stem.len() ==> #[trigger] stem[m] != '/',
        ext.len() > 0,
        forall|m: int| 0 <= m < ext.len() ==> #[trigger] ext[m] != '/' && ext[m] != '.',
    ensures
        extension(dir + stem + seq!['.'] + ext) == Some(ext),
        ({
            let l = language_of_path(dir + stem + seq!['.'] + ext);
            let e = lower_seq(ext);
            &&& (e == "py"@ || e == "pyi"@ || e == "pyw"@) <==> l == Language::Python
            &&& e == "rs"@ <==> l == Language::Rust
            &&& (e == "js"@ || e == "jsx"@ || e == "mjs"@ || e == "cjs"@) <==> l == Language::JavaScript
            &&& (e == "ts"@ || e == "tsx"@ || e == "mts"@ || e == "cts"@) <==> l == Language::TypeScript
            &&& (e == "sh"@ || e == "bash"@ || e == "zsh"@ || e == "ksh"@) <==> l == Language::Shell
            &&& (e == "yml"@ || e == "yaml"@) <==> l == Language::Yaml
            &&& e == "toml"@ <==> l == Language::Toml
        }),
{
    let name = stem + seq!['.'] + ext;
    let p = dir + name;
    let d = dir.len() as int;
    assert(p.subrange(d, p.len() as int) =~= name);
    assert forall|m: int| d <= m < p.len() implies p[m] != '/' by {
        assert(p[m] == name[m - d]);
        if m - d < stem.len() {
            assert(name[m - d] == stem[m - d]);
        } else if m - d > stem.len() {
            assert(name[m - d] == ext[m - d - stem.len() - 1]);
        }
    }
    assert(name.len() >= 3);
    assert(name != seq!['.']);
    if d == 0 {
        lemma_last_piece_tail(p, 0, 0, None);
    } else {
        assert(p[d - 1] == '/');
        lemma_last_piece_reach(p, 0, 0, None, d - 1);
        let x = choose|x: Option<(int, int)>| last_piece(p, 0, 0, None) == #[trigger] last_piece(p, d, d, x);
        lemma_last_piece_tail(p, d, d, x);
    }
    assert(name != seq!['.', '.']);
    let k = stem.len() as int;
    assert(name[k] == '.');
    assert forall|m: int| k < m < name.len() implies name[m] != '.' by {
        assert(name[m] == ext[m - k - 1]);
    }
    lemma_last_dot_at(name, name.len() as int, k);
    assert(name.subrange(k + 1, name.len() as int) =~= ext);
    assert(file_name(p) == Some(name));
    assert(extension(p) == Some(ext));
    assert(p =~= dir + stem + seq!['.'] + ext);
    assert(language_of_path(dir + stem + seq!['.'] + ext) == language_of_ext(lower_seq(ext)));
    lemma_ext_table(lower_seq(ext));
}

fn last_piece_exec(p: &Vec<char>) -> (r: Option<(usize, usize)>)
    ensures
        match (r, last_piece(p@, 0, 0, None)) {
            (Some((a, b)), Some((x, y))) => a == x && b == y && a <= b <= p@.len(),
            (None, None) => true,
            _ => false,
        },
{
    let mut i: usize = 0;
    let mut start: usize = 0;
    let mut last: Option<(usize, usize)> = None;
    let dot = vec!['.'];
    loop
        invariant
            i <= p@.len(),
            start <= i,
            match last {
                Some((a, b)) => a <= b <= i,
                None => true,
            },
            last_piece(p@, 0, 0, None) == last_piece(p@, i as int, start as int, match last {
                Some((a, b)) => Some((a as int, b as int)),
                None => None,
            }),
            dot@ == seq!['.'],
        decreases p@.len() - i,
    {
        let at_sep = i == p.len() || p[i] == '/';
        if !at_sep {
            i = i + 1;
        } else {
            let piece = slice(p, start, i);
            let is_dot = piece.len() == 1 && piece[0] == '.';
            proof {
                assert(is_dot == (piece@ == seq!['.'])) by {
                    if piece@.len() == 1 && piece@[0] == '.' { assert(piece@ =~= seq!['.']); }
                }
            }
            if !(piece.len() == 0 || is_dot) {
                last = Some((start, i));
            }
            if i == p.len() {
                return last;
            }
            i = i + 1;
            start = i;
        }
    }
}

fn last_dot_exec(s: &Vec<char>) -> (r: Option<usize>)
    ensures
        match (r, last_dot(s@, s@.len() as int)) {
            (Some(a), Some(x)) => a == x && a < s@.len(),
            (None, None) => true,
            _ => false,
        },
{
    let mut i = s.len();
    while i > 0
        invariant
            i <= s@.len(),
            last_dot(s@, s@.len() as int) == last_dot(s@, i as int),
        decreases i,
    {
        if s[i - 1] == '.' {
            return Some(i - 1);
        }
        i = i - 1;
    }
    None
}

fn eq_lit(v: &Vec<char>, lit: &str) -> (b: bool)
    ensures
        b == (v@ == lit@),
{
    let l = chars_of(lit);
    let b = l.len() == v.len() && matches_at_vec(v, &l, 0);
    proof {
        assert(v@.subrange(0, v@.len() as int) =~= v@);
    }
    b
}

fn language_of_ext_exec(e: &Vec<char>) -> (l: Language)
    ensures
        l == language_of_ext(e@),
{
    if eq_lit(e, "py") || eq_lit(e, "pyi") || eq_lit(e, "pyw") {
        Language::Python
    } else if eq_lit(e, "rs") {
        Language::Rust
    } else if eq_lit(e, "js") || eq_lit(e, "jsx") || eq_lit(e, "mjs") || eq_lit(e, "cjs") {
        Language::JavaScript
    } else if eq_lit(e, "ts") || eq_lit(e, "tsx") || eq_lit(e, "mts") || eq_lit(e, "cts") {
        Language::TypeScript
    } else if eq_lit(e, "sh") || eq_lit(e, "bash") || eq_lit(e, "zsh") || eq_lit(e, "ksh") {
        Language::Shell
    } else if eq_lit(e, "yml") || eq_lit(e, "yaml") {
        Language::Yaml
    } else if eq_lit(e, "toml") {
        Language::Toml
    } else {
        Language::Unknown
    }
}

fn lower_vec(v: &Vec<char>) -> (r: Vec<char>)
    ensures
        r@ == lower_seq(v@),
{
    let mut r: Vec<char> = Vec::new();
    let mut i: usize = 0;
    while i < v.len()
        invariant
            i <= v@.len(),
            r@ == lower_seq(v@.take(i as int)),
        decreases v@.len() - i,
    {
        r.push(to_ascii_lower(v[i]));
        i = i + 1;
        proof { assert(r@ =~= lower_seq(v@.take(i as int))); }
    }
    proof { assert(v@.take(v@.len() as int) =~= v@); }
    r
}

impl Language {
    /// Guess the language from a file extension (compared ASCII-case-blind).
    pub fn from_path(path: &str) -> (l: Language)
        ensures
            l == language_of_path(path@),
    {
        let p = chars_of(path);
        let ext: Vec<char> = match last_piece_exec(&p) {
            Some((a, b)) => {
                let name = slice(&p, a, b);
                if eq_lit(&name, "..") {
                    proof { reveal_strlit(".."); assert(seq!['.', '.'] == ".."@); }
                    Vec::new()
                } else {
                    proof {
                        reveal_strlit("..");
                        assert(".."@ =~= seq!['.', '.']);
                    }
                    match last_dot_exec(&name) {
                        Some(k) => if k == 0 { Vec::new() } else { slice(&name, k + 1, name.len()) },
                        None => Vec::new(),
                    }
                }
            },
            None => Vec::new(),
        };
        proof {
            match extension(path@) {
                Some(e) => assert(ext@ == e),
                None => assert(ext@ =~= Seq::<char>::empty()),
            }
        }
        let lowered = lower_vec(&ext);
        proof {
            if extension(path@).is_none() {
                assert(lowered@ =~= Seq::<char>::empty());
            }
        }
        language_of_ext_exec(&lowered)
    }

    /// Whether this language has a comment grammar that can be scanned.
    pub fn is_scannable(self) -> (b: bool)
        ensures
            b == (self != Language::Unknown),
    {
        self != Language::Unknown
    }
}

/// A path as reports render it: `\` turned into `/`, and one leading `./`
/// dropped.
pub open spec fn display_path_spec(p: Seq<char>) -> Seq<char> {
    let slashed = p.map_values(|c: char| if c == '\\' { '/' } else { c });
    if starts_with_dot_slash(slashed) { slashed.subrange(2, slashed.len() as int) } else { slashed }
}

pub open spec fn starts_with_dot_slash(s: Seq<char>) -> bool {
    s.len() >= 2 && s[0] == '.' && s[1] == '/'
}

/// Render a path the way reports do: `/`-separated and without a leading `./`.
pub fn display_path(path: &str) -> (s: String)
    ensures
        s@ == display_path_spec(path@),
{
    let p = chars_of(path);
    let mut slashed: Vec<char> = Vec::new();
    let mut i: usize = 0;
    while i < p.len()
        invariant
            i <= p@.len(),
            slashed@ == p@.take(i as int).map_values(|c: char| if c == '\\' { '/' } else { c }),
        decreases p@.len() - i,
    {
        let c = p[i];
        slashed.push(if c == '\\' { '/' } else { c });
        i = i + 1;
        proof {
            assert(slashed@ =~= p@.take(i as int).map_values(|c: char| if c == '\\' { '/' } else { c }));
        }
    }
    proof {
        assert(p@.take(p@.len() as int) =~= p@);
    }
    if slashed.len() >= 2 && slashed[0] == '.' && slashed[1] == '/' {
        to_string(&slice(&slashed, 2, slashed.len()))
    } else {
        to_string(&slashed)
    }
}


/// How many times `c` occurs in `s`.
pub open spec fn count_char(s: Seq<char>, c: char) -> int
    decreases s.len(),
{
    if s.len() == 0 {
        0
    } else {
        count_char(s.drop_last(), c) + if s.last() == c { 1int } else { 0int }
    }
}

/// Lines in a text: its newlines, plus one for an unterminated last line.
pub open spec fn line_count_spec(s: Seq<char>) -> int {
    if s.len() == 0 {
        0
    } else {
        count_char(s, '\n') + if s.last() != '\n' { 1int } else { 0int }
    }
}

pub proof fn lemma_count_char_bound(s: Seq<char>, c: char)
    ensures
        0 <= count_char(s, c) <= s.len(),
    decreases s.len(),
{
    if s.len() > 0 {
        lemma_count_char_bound(s.drop_last(), c);
    }
}

/// A file to scan, with its comments already extracted.
#[derive(Debug)]
pub struct SourceFile {
    path: String,
    display_path: String,
    language: Language,
    source: String,
    chars: Vec<char>,
    extracted: Extracted,
}

pub struct SourceView {
    pub path: Seq<char>,
    pub display_path: Seq<char>,
    pub language: Language,
    pub source: Seq<char>,
    pub extracted: ExtractedView,
}

impl View for SourceFile {
    type V = SourceView;

    closed spec fn view(&self) -> SourceView {
        SourceView {
            path: self.path@,
            display_path: self.display_path@,
            language: self.language,
            source: self.source@,
            extracted: self.extracted@,
        }
    }
}

/// What a well-formed source view satisfies: everything in it follows from its
/// path and its contents.
pub open spec fn source_view_ok(v: SourceView) -> bool {
    &&& (v.language is Unknown || positions_fit(v.source))
    &&& v.display_path == display_path_spec(v.path)
    &&& v.language == language_of_path(v.path)
    &&& v.extracted == extracted_spec(v.source, v.language)
}

/// A file at `path` holding `source` can be scanned: its language has no
/// grammar here, or every line and column in it fits in a `u32`.
pub open spec fn source_fits(path: Seq<char>, source: Seq<char>) -> bool {
    language_of_path(path) is Unknown || positions_fit(source)
}

/// The file at `path` holding `source`, as a scan sees it.
pub open spec fn file_view(path: Seq<char>, source: Seq<char>) -> SourceView {
    SourceView {
        path,
        display_path: display_path_spec(path),
        language: language_of_path(path),
        source,
        extracted: extracted_spec(source, language_of_path(path)),
    }
}

impl SourceFile {
    #[verifier::type_invariant]
    closed spec fn inv(self) -> bool {
        &&& self.chars@ == self.source@
        &&& source_view_ok(self@)
    }

    /// Build a source file from contents already in memory. Positions are
    /// counted in `u32`, so a file in a scanned language must keep every line
    /// and column within it ([`SourceFile::fits`] tells).
    pub fn new(path: &str, source: String) -> (f: SourceFile)
        requires
            source_fits(path@, source@),
        ensures
            f@.path == path@,
            f@.source == source@,
            source_view_ok(f@),
            f@ == file_view(path@, source@),
    {
        let language = Language::from_path(path);
        let chars = chars_of(source.as_str());
        let extracted = extract_chars(&chars, language);
        SourceFile {
            path: path.to_owned(),
            display_path: display_path(path),
            language,
            source,
            chars,
            extracted,
        }
    }

    /// Whether [`SourceFile::new`] can take `source` at `path`.
    pub fn fits(path: &str, source: &str) -> (b: bool)
        ensures
            b == source_fits(path@, source@),
    {
        match Language::from_path(path) {
            Language::Unknown => true,
            _ => positions_fit_exec(&chars_of(source)),
        }
    }

    /// The path as given.
    pub fn path(&self) -> (p: &str)
        ensures
            p@ == self@.path,
    {
        self.path.as_str()
    }

    /// The path as it appears in reports: `/`-separated, no leading `./`.
    pub fn display_path(&self) -> (p: &str)
        ensures
            p@ == self@.display_path,
    {
        self.display_path.as_str()
    }

    /// The detected language.
    pub fn language(&self) -> (l: Language)
        ensures
            l == self@.language,
    {
        self.language
    }

    /// The full file contents.
    pub fn source(&self) -> (s: &str)
        ensures
            s@ == self@.source,
    {
        self.source.as_str()
    }

    /// The contents as characters.
    pub fn chars(&self) -> (c: &Vec<char>)
        ensures
            c@ == self@.source,
            source_view_ok(self@),
    {
        proof { use_type_invariant(self); }
        &self.chars
    }

    /// Every comment in the file, in source order.
    pub fn comments(&self) -> (c: &Vec<Comment>)
        ensures
            crate::comments::comments_view(c@) == self@.extracted.comments,
            source_view_ok(self@),
    {
        proof { use_type_invariant(self); }
        &self.extracted.comments
    }

    /// Every Rust attribute in the file, in source order; empty for every other
    /// language.
    pub fn attributes(&self) -> (a: &Vec<Attribute>)
        ensures
            crate::comments::attrs_view(a@) == self@.extracted.attributes,
            source_view_ok(self@),
    {
        proof { use_type_invariant(self); }
        &self.extracted.attributes
    }

    /// Number of lines in the file (a trailing newline does not add one).
    pub fn line_count(&self) -> (n: u32)
        ensures
            n == sat_u32(line_count_spec(self@.source)),
    {
        proof { use_type_invariant(self); }
        let s = &self.chars;
        if s.len() == 0 {
            return 0;
        }
        let mut count: u32 = 0;
        let mut i: usize = 0;
        while i < s.len()
            invariant
                i <= s@.len(),
                count == sat_u32(count_char(s@.take(i as int), '\n')),
            decreases s@.len() - i,
        {
            proof {
                assert(s@.take(i + 1).drop_last() =~= s@.take(i as int));
                lemma_count_char_bound(s@.take(i as int), '\n');
            }
            if s[i] == '\n' && count < u32::MAX {
                count = count + 1;
            }
            i = i + 1;
        }
        proof {
            assert(s@.take(s@.len() as int) =~= s@);
            lemma_count_char_bound(s@, '\n');
        }
        if s[s.len() - 1] != '\n' && count < u32::MAX {
            count + 1
        } else {
            count
        }
    }
}

} // verus!
