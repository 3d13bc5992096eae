//! The collapsed source excerpt a pull-request comment shows under each entry.
//!
//! Reports name paths relative to the invocation directory; the caller reads
//! the files it can and hands their text over as [`SourceLines`]. A file that
//! was not handed over renders without its snippet.

use vstd::prelude::*;

use crate::model::{DirectiveView, IgnoreDirective, Scope};
use crate::source::{Language, language_of_path};
use crate::text::{
    chars_of, chars_view, decimal, push_char, push_decimal, split_char, split_char_vec, to_string, trim_end,
    trim_end_vec,
};

verus! {

/// The line terminator `str::lines` removes: `\n`, or `\r\n` for a piece that
/// a `\n` ended.
pub open spec fn strip_cr(s: Seq<char>) -> Seq<char> {
    if s.len() > 0 && s.last() == '\r' {
        s.drop_last()
    } else {
        s
    }
}

/// `str::lines`: the lines of `t`, without their terminators; a final line
/// ending is optional, and a bare `\r` at the very end is kept.
pub open spec fn text_lines(t: Seq<char>) -> Seq<Seq<char>> {
    let p = split_char(t, '\n');
    let n = if t.len() == 0 || t.last() == '\n' { p.len() - 1 } else { p.len() as int };
    Seq::new(n as nat, |i: int| if i < p.len() - 1 { strip_cr(p[i]) } else { p[i] })
}

/// Source text for the files a body may quote, by report path; a later entry
/// for a path replaces an earlier one.
#[derive(Debug)]
pub struct SourceLines {
    files: Vec<(String, Vec<String>)>,
}

/// The lines held for `path` in `files`, the last entry for it winning.
pub open spec fn lines_for(files: Seq<(Seq<char>, Seq<Seq<char>>)>, path: Seq<char>) -> Option<Seq<Seq<char>>>
    decreases files.len(),
{
    if files.len() == 0 {
        None
    } else if files.last().0 == path {
        Some(files.last().1)
    } else {
        lines_for(files.drop_last(), path)
    }
}

/// The lines handed over last for a path are the ones a snippet reads, and
/// handing a file over leaves every other path as it was.
pub proof fn law_latest_source_wins(
    files: Seq<(Seq<char>, Seq<Seq<char>>)>,
    path: Seq<char>,
    lines: Seq<Seq<char>>,
    other: Seq<char>,
)
    ensures
        lines_for(files.push((path, lines)), path) == Some(lines),
        other != path ==> lines_for(files.push((path, lines)), other) == lines_for(files, other),
{
    assert(files.push((path, lines)).drop_last() =~= files);
}

pub open spec fn entry_view(e: (String, Vec<String>)) -> (Seq<char>, Seq<Seq<char>>) {
    (e.0@, crate::model::strings_view(e.1@))
}

impl View for SourceLines {
    type V = Seq<(Seq<char>, Seq<Seq<char>>)>;

    closed spec fn view(&self) -> Seq<(Seq<char>, Seq<Seq<char>>)> {
        self.files@.map_values(|e: (String, Vec<String>)| entry_view(e))
    }
}

fn piece_lines(pieces: &Vec<Vec<char>>, n: usize) -> (r: Vec<String>)
    requires
        n <= pieces@.len(),
    ensures
        r@.len() == n,
        forall|i: int|
            0 <= i < n ==> #[trigger] r@[i]@ == if i < pieces@.len() - 1 {
                strip_cr(pieces@[i]@)
            } else {
                pieces@[i]@
            },
{
    let mut r: Vec<String> = Vec::new();
    let mut i: usize = 0;
    while i < n
        invariant
            n <= pieces@.len(),
            i <= n,
            r@.len() == i,
            forall|k: int|
                0 <= k < i ==> #[trigger] r@[k]@ == if k < pieces@.len() - 1 {
                    strip_cr(pieces@[k]@)
                } else {
                    pieces@[k]@
                },
        decreases n - i,
    {
        let p = &pieces[i];
        let line = if i + 1 < pieces.len() && p.len() > 0 && p[p.len() - 1] == '\r' {
            let mut s = String::new();
            let mut k: usize = 0;
            let last = p.len() - 1;
            while k < last
                invariant
                    p@.len() > 0,
                    last == p@.len() - 1,
                    k <= last,
                    s@ == p@.subrange(0, k as int),
                decreases p@.len() - k,
            {
                push_char(&mut s, p[k]);
                k = k + 1;
                proof { assert(s@ =~= p@.subrange(0, k as int)); }
            }
            proof { assert(s@ =~= p@.drop_last()); }
            s
        } else {
            to_string(p)
        };
        r.push(line);
        i = i + 1;
    }
    r
}

/// The lines of `text` as `str::lines` splits them.
pub fn lines_of(text: &str) -> (r: Vec<String>)
    ensures
        crate::model::strings_view(r@) == text_lines(text@),
{
    let v = chars_of(text);
    let pieces = split_char_vec(&v, '\n');
    proof {
        crate::text::lemma_split_len(v@, '\n', 0, 0);
        assert(pieces@.len() == split_char(v@, '\n').len());
        assert(split_char(v@, '\n').len() >= 1) by {
            reveal_with_fuel(crate::text::split_from, 2);
            lemma_split_nonempty(v@, '\n', 0, 0);
        }
    }
    let n = if v.len() == 0 || v[v.len() - 1] == '\n' { pieces.len() - 1 } else { pieces.len() };
    let r = piece_lines(&pieces, n);
    proof {
        let p = split_char(text@, '\n');
        assert forall|i: int| 0 <= i < n implies pieces@[i]@ == p[i] by {
            assert(chars_view(pieces@)[i] == pieces@[i]@);
        }
        assert(crate::model::strings_view(r@) =~= text_lines(text@));
    }
    r
}

proof fn lemma_split_nonempty(s: Seq<char>, c: char, i: int, start: int)
    ensures
        crate::text::split_from(s, c, i, start).len() >= 1,
    decreases s.len() - i,
{
    if 0 <= i < s.len() {
        lemma_split_nonempty(s, c, i + 1, if s[i] == c { i + 1 } else { start });
    }
}

impl SourceLines {
    /// Nothing to quote.
    pub fn new() -> (s: SourceLines)
        ensures
            s@ == Seq::<(Seq<char>, Seq<Seq<char>>)>::empty(),
    {
        let s = SourceLines { files: Vec::new() };
        proof { assert(s@ =~= Seq::<(Seq<char>, Seq<Seq<char>>)>::empty()); }
        s
    }

    /// These lines and the lines of `text`, held for `path`.
    pub fn with(self, path: &str, text: &str) -> (s: SourceLines)
        ensures
            s@ == self@.push((path@, text_lines(text@))),
    {
        let lines = lines_of(text);
        let mut files = self.files;
        let ghost before = files@;
        files.push((path.to_owned(), lines));
        let s = SourceLines { files };
        proof {
            assert(s@ =~= self@.push((path@, text_lines(text@))));
        }
        s
    }

    /// The lines held for `path`, or `None` when it was never handed over.
    pub fn lines(&self, path: &str) -> (r: Option<&Vec<String>>)
        ensures
            match r {
                Some(v) => lines_for(self@, path@) == Some(crate::model::strings_view(v@)),
                None => lines_for(self@, path@).is_none(),
            },
    {
        let mut i: usize = self.files.len();
        proof { assert(self@.take(i as int) =~= self@); }
        while i > 0
            invariant
                i <= self.files@.len(),
                lines_for(self@, path@) == lines_for(self@.take(i as int), path@),
            decreases i,
        {
            let ghost t = self@.take(i as int);
            proof {
                assert(t.drop_last() =~= self@.take(i - 1));
                assert(t.last() == entry_view(self.files@[i - 1]));
            }
            if crate::text::eq_str(&chars_of(self.files[i - 1].0.as_str()), path) {
                return Some(&self.files[i - 1].1);
            }
            i = i - 1;
        }
        proof { assert(self@.take(0) =~= Seq::<(Seq<char>, Seq<Seq<char>>)>::empty()); }
        None
    }
}

/// Lines of suppressed source a snippet shows.
pub const SNIPPET_LINES: u32 = 10;

/// Lines of unsuppressed source shown either side of a single suppressed line.
pub const SNIPPET_CONTEXT: u32 = 2;

/// The 1-based range a directive silences, clamped to a file of `count` lines;
/// `None` when the file cannot hold it.
pub open spec fn range_spec(d: DirectiveView, count: int) -> Option<(int, int)> {
    if count == 0 {
        None
    } else if d.scope == Scope::File {
        Some((1, count))
    } else {
        let first = d.suppressed.start_line as int;
        if first == 0 || first > count {
            None
        } else {
            let end = match d.suppressed.end_line {
                Some(e) => e as int,
                None => count,
            };
            let last = if end < first { first } else if end > count { count } else { end };
            Some((first, last))
        }
    }
}

/// The 1-based source range a directive silences, clamped to a file of
/// `count` lines: the whole file for a `file`-scope directive, else its
/// recorded span, an unterminated one running to the end.
pub fn suppressed_range(d: &IgnoreDirective, count: u32) -> (r: Option<(u32, u32)>)
    ensures
        match r {
            Some((a, b)) => range_spec(d@, count as int) == Some((a as int, b as int)),
            None => range_spec(d@, count as int).is_none(),
        },
{
    if count == 0 {
        return None;
    }
    if d.scope == Scope::File {
        return Some((1, count));
    }
    let first = d.suppressed.start_line;
    if first == 0 || first > count {
        return None;
    }
    let end = match d.suppressed.end_line {
        Some(e) => e,
        None => count,
    };
    let last = if end < first { first } else if end > count { count } else { end };
    Some((first, last))
}

/// What the snippet is not showing, when that changes how it should be read.
pub open spec fn note_spec(scope: Scope, span: nat) -> Option<Seq<char>> {
    let truncated = span > SNIPPET_LINES;
    if scope == Scope::File {
        if truncated {
            Some("_the whole file is suppressed; showing its first "@ + decimal(SNIPPET_LINES as nat) + " of "@
                + decimal(span) + " lines._"@)
        } else {
            Some("_the whole file is suppressed._"@)
        }
    } else if truncated {
        Some("_showing the first "@ + decimal(SNIPPET_LINES as nat) + " of "@ + decimal(span) + " suppressed lines._"@)
    } else {
        None
    }
}

/// The note for a snippet of a `span`-line range: a range longer than
/// [`SNIPPET_LINES`] is cut, and a `file`-scope directive covers more than
/// the lines on screen.
pub fn note(d: &IgnoreDirective, span: u32) -> (r: Option<String>)
    ensures
        match r {
            Some(s) => note_spec(d.scope, span as nat) == Some(s@),
            None => note_spec(d.scope, span as nat).is_none(),
        },
{
    let truncated = span > SNIPPET_LINES;
    if d.scope == Scope::File {
        if truncated {
            let mut s = "_the whole file is suppressed; showing its first ".to_owned();
            push_decimal(&mut s, SNIPPET_LINES as u64);
            s.append(" of ");
            push_decimal(&mut s, span as u64);
            s.append(" lines._");
            Some(s)
        } else {
            Some("_the whole file is suppressed._".to_owned())
        }
    } else if truncated {
        let mut s = "_showing the first ".to_owned();
        push_decimal(&mut s, SNIPPET_LINES as u64);
        s.append(" of ");
        push_decimal(&mut s, span as u64);
        s.append(" suppressed lines._");
        Some(s)
    } else {
        None
    }
}

/// The length of the run of backticks that ends `s`.
pub open spec fn tail_run(s: Seq<char>) -> nat
    decreases s.len(),
{
    if s.len() == 0 {
        0
    } else if s.last() == '`' {
        tail_run(s.drop_last()) + 1
    } else {
        0
    }
}

/// The longest run of backticks in `s`.
pub open spec fn longest_run(s: Seq<char>) -> nat
    decreases s.len(),
{
    if s.len() == 0 {
        0
    } else {
        let a = longest_run(s.drop_last());
        let b = tail_run(s);
        if a < b { b } else { a }
    }
}

/// The longest run of backticks on any line of `w`.
pub open spec fn longest_in(w: Seq<Seq<char>>) -> nat
    decreases w.len(),
{
    if w.len() == 0 {
        0
    } else {
        let a = longest_in(w.drop_last());
        let b = longest_run(w.last());
        if a < b { b } else { a }
    }
}

/// The fence for `w`: one backtick more than its longest run (saturating), and
/// at least three.
pub open spec fn fence_len(w: Seq<Seq<char>>) -> nat {
    let n = if longest_in(w) < usize::MAX { longest_in(w) + 1 } else { longest_in(w) };
    if n < 3 { 3 } else { n }
}

pub open spec fn fence_spec(w: Seq<Seq<char>>) -> Seq<char> {
    Seq::new(fence_len(w), |i: int| '`')
}

proof fn lemma_runs_bounded(s: Seq<char>)
    ensures
        tail_run(s) <= s.len(),
        longest_run(s) <= s.len(),
    decreases s.len(),
{
    if s.len() > 0 {
        lemma_runs_bounded(s.drop_last());
    }
}

fn longest_run_exec(line: &Vec<char>) -> (n: usize)
    ensures
        n == longest_run(line@),
{
    let mut best: usize = 0;
    let mut cur: usize = 0;
    let mut i: usize = 0;
    while i < line.len()
        invariant
            i <= line@.len(),
            cur == tail_run(line@.take(i as int)),
            best == longest_run(line@.take(i as int)),
        decreases line@.len() - i,
    {
        proof {
            lemma_runs_bounded(line@.take(i as int));
            assert(line@.take(i + 1).drop_last() =~= line@.take(i as int));
        }
        if line[i] == '`' {
            cur = cur + 1;
        } else {
            cur = 0;
        }
        if best < cur {
            best = cur;
        }
        i = i + 1;
    }
    proof { assert(line@.take(line@.len() as int) =~= line@); }
    best
}

/// A fence long enough to hold `window`: source that itself holds a run of
/// backticks would otherwise close the block early.
pub fn fence_for(window: &[String]) -> (r: String)
    ensures
        r@ == fence_spec(crate::model::strings_view(window@)),
{
    let ghost wv = crate::model::strings_view(window@);
    let mut longest: usize = 0;
    let mut i: usize = 0;
    while i < window.len()
        invariant
            wv == crate::model::strings_view(window@),
            i <= window@.len(),
            longest == longest_in(wv.take(i as int)),
        decreases window@.len() - i,
    {
        let line = chars_of(window[i].as_str());
        let n = longest_run_exec(&line);
        proof {
            assert(wv.take(i + 1).drop_last() =~= wv.take(i as int));
            assert(wv.take(i + 1).last() == window@[i as int]@);
        }
        if longest < n {
            longest = n;
        }
        i = i + 1;
    }
    proof { assert(wv.take(wv.len() as int) =~= wv); }
    let n = if longest < usize::MAX { longest + 1 } else { longest };
    let n = if n < 3 { 3 } else { n };
    let mut r = String::new();
    let mut k: usize = 0;
    while k < n
        invariant
            k <= n,
            r@ == Seq::new(k as nat, |j: int| '`'),
        decreases n - k,
    {
        push_char(&mut r, '`');
        k = k + 1;
        proof { assert(r@ =~= Seq::new(k as nat, |j: int| '`')); }
    }
    proof { assert(r@ =~= fence_spec(wv)); }
    r
}

/// The fenced-block language tag for a language; empty for one we have no
/// grammar for.
pub open spec fn tag_spec(l: Language) -> Seq<char> {
    match l {
        Language::Python => "python"@,
        Language::Rust => "rust"@,
        Language::JavaScript => "javascript"@,
        Language::TypeScript => "typescript"@,
        Language::Shell => "bash"@,
        Language::Yaml => "yaml"@,
        Language::Toml => "toml"@,
        Language::Unknown => ""@,
    }
}

/// The fenced-block language tag for a path, or `""` when we have no grammar
/// for it, which renders as a plain block rather than a mislabelled one.
pub fn language_tag(path: &str) -> (r: &'static str)
    ensures
        r@ == tag_spec(language_of_path(path@)),
{
    match Language::from_path(path) {
        Language::Python => "python",
        Language::Rust => "rust",
        Language::JavaScript => "javascript",
        Language::TypeScript => "typescript",
        Language::Shell => "bash",
        Language::Yaml => "yaml",
        Language::Toml => "toml",
        Language::Unknown => "",
    }
}

/// The lines a snippet shows: a single suppressed line with
/// [`SNIPPET_CONTEXT`] lines either side, clamped to the file; a longer span
/// (or a whole file) from its start, at most [`SNIPPET_LINES`] of it.
pub open spec fn window_spec(first: int, last: int, count: int, single: bool) -> (int, int) {
    if single {
        (
            if first - SNIPPET_CONTEXT < 1 { 1 } else { first - SNIPPET_CONTEXT },
            if last + SNIPPET_CONTEXT > count { count } else { last + SNIPPET_CONTEXT },
        )
    } else {
        (first, if last < first + SNIPPET_LINES - 1 { last } else { first + SNIPPET_LINES - 1 })
    }
}

pub open spec fn spaces(n: int) -> Seq<char> {
    Seq::new(if n > 0 { n as nat } else { 0 }, |i: int| ' ')
}

/// `n` right-aligned in `width` columns, as `{n:>width$}` writes it.
pub open spec fn padded(n: nat, width: nat) -> Seq<char> {
    spaces(width - decimal(n).len()) + decimal(n)
}

/// The gutter a snippet line opens with: the suppressed line of a single-line
/// span is marked, its context aligned with spaces; a longer span has none.
pub open spec fn gutter_spec(single: bool, marked: bool) -> Seq<char> {
    if single {
        if marked { "> "@ } else { "  "@ }
    } else {
        ""@
    }
}

/// One numbered source line, with no trailing whitespace.
pub open spec fn source_line(gutter: Seq<char>, number: nat, width: nat, text: Seq<char>) -> Seq<char> {
    let t = trim_end(text);
    "  "@ + gutter + padded(number, width) + if t.len() == 0 { " |\n"@ } else { " | "@ + t + "\n"@ }
}

/// The numbered lines of window `w`, whose first line is line `from`.
pub open spec fn window_lines(w: Seq<Seq<char>>, from: int, first: int, single: bool, width: nat) -> Seq<char>
    decreases w.len(),
{
    if w.len() == 0 {
        Seq::empty()
    } else {
        let number = from + w.len() - 1;
        window_lines(w.drop_last(), from, first, single, width) + source_line(
            gutter_spec(single, number == first),
            number as nat,
            width,
            w.last(),
        )
    }
}

/// The collapsed block showing window `w`, lines `from..=to` of a file, for a
/// directive whose range is `first..=last`.
pub open spec fn block_spec(
    d: DirectiveView,
    w: Seq<Seq<char>>,
    first: int,
    last: int,
    from: int,
    to: int,
    single: bool,
) -> Seq<char> {
    let fence = fence_spec(w);
    let width = decimal(to as nat).len();
    let note = match note_spec(d.scope, (last - first + 1) as nat) {
        Some(n) => "  "@ + n + "\n\n"@,
        None => Seq::empty(),
    };
    "  <details>\n  <summary>suppressed code</summary>\n\n"@ + note + "  "@ + fence + tag_spec(language_of_path(d.path))
        + "\n"@ + window_lines(w, from, first, single, width) + "  "@ + fence + "\n\n  </details>\n"@
}

/// The snippet for `d` out of a file of `lines`, or `None` when the file does
/// not hold the range the record names.
pub open spec fn snippet_spec(d: DirectiveView, lines: Seq<Seq<char>>) -> Option<Seq<char>> {
    let count = if lines.len() < u32::MAX { lines.len() as int } else { u32::MAX as int };
    match range_spec(d, count) {
        None => None,
        Some((first, last)) => {
            let single = first == last && d.scope != Scope::File;
            let (from, to) = window_spec(first, last, count, single);
            Some(block_spec(d, lines.subrange(from - 1, to), first, last, from, to, single))
        },
    }
}

/// The snippet for `d` out of whatever `source` holds for its path.
pub open spec fn snippet_for(d: DirectiveView, source: Seq<(Seq<char>, Seq<Seq<char>>)>) -> Option<Seq<char>> {
    match lines_for(source, d.path) {
        Some(lines) => snippet_spec(d, lines),
        None => None,
    }
}

fn push_spaces(out: &mut String, n: usize)
    ensures
        final(out)@ == old(out)@ + spaces(n as int),
{
    let mut k: usize = 0;
    while k < n
        invariant
            k <= n,
            out@ == old(out)@ + spaces(k as int),
        decreases n - k,
    {
        push_char(out, ' ');
        k = k + 1;
        proof { assert(out@ =~= old(out)@ + spaces(k as int)); }
    }
}

fn decimal_width(n: u32) -> (w: usize)
    ensures
        w == decimal(n as nat).len(),
{
    let mut t = String::new();
    push_decimal(&mut t, n as u64);
    proof { assert(t@ =~= decimal(n as nat)); }
    chars_of(t.as_str()).len()
}

fn push_source_line(out: &mut String, single: bool, marked: bool, number: u32, width: usize, text: &str)
    ensures
        final(out)@ == old(out)@ + source_line(gutter_spec(single, marked), number as nat, width as nat, text@),
{
    out.append("  ");
    if single {
        if marked {
            out.append("> ");
        } else {
            out.append("  ");
        }
    } else {
        out.append("");
    }
    let len = decimal_width(number);
    push_spaces(out, if len < width { width - len } else { 0 });
    push_decimal(out, number as u64);
    let t = trim_end_vec(&chars_of(text));
    if t.len() == 0 {
        out.append(" |\n");
    } else {
        out.append(" | ");
        out.append(to_string(&t).as_str());
        out.append("\n");
    }
    proof {
        assert(out@ =~= old(out)@ + source_line(gutter_spec(single, marked), number as nat, width as nat, text@));
    }
}

fn render_block(d: &IgnoreDirective, window: &Vec<String>, first: u32, last: u32, from: u32, to: u32, single: bool) -> (block: String)
    requires
        1 <= from <= to,
        1 <= first <= last,
        window@.len() == to - from + 1,
    ensures
        block@ == block_spec(d@, crate::model::strings_view(window@), first as int, last as int, from as int, to as int, single),
{
    let ghost w = crate::model::strings_view(window@);
    let fence = fence_for(window.as_slice());
    let width = decimal_width(to);
    let mut block = "  <details>\n  <summary>suppressed code</summary>\n\n".to_owned();
    match note(d, last - first + 1) {
        Some(n) => {
            block.append("  ");
            block.append(n.as_str());
            block.append("\n\n");
        },
        None => {},
    }
    block.append("  ");
    block.append(fence.as_str());
    block.append(language_tag(d.path.as_str()));
    block.append("\n");
    let ghost head = block@;
    let mut k: usize = 0;
    while k < window.len()
        invariant
            1 <= from <= to,
            window@.len() == to - from + 1,
            block@ == head + window_lines(w.take(k as int), from as int, first as int, single, width as nat),
            w == crate::model::strings_view(window@),
            k <= window@.len(),
        decreases window@.len() - k,
    {
        let number: u32 = from + k as u32;
        push_source_line(&mut block, single, number == first, number, width, window[k].as_str());
        proof {
            assert(w.take(k + 1).drop_last() =~= w.take(k as int));
            assert(w.take(k + 1).last() == window@[k as int]@);
        }
        k = k + 1;
    }
    proof { assert(w.take(w.len() as int) =~= w); }
    block.append("  ");
    block.append(fence.as_str());
    block.append("\n\n  </details>\n");
    proof {
        assert(block@ =~= block_spec(d@, w, first as int, last as int, from as int, to as int, single));
    }
    block
}

/// The code the directive silences, as a collapsed `<details>` block under its
/// list item; `None` when `source` does not hold the file, or the file does
/// not hold the range the record names.
pub fn snippet(d: &IgnoreDirective, source: &SourceLines) -> (r: Option<String>)
    ensures
        match r {
            Some(s) => snippet_for(d@, source@) == Some(s@),
            None => snippet_for(d@, source@).is_none(),
        },
{
    let lines = match source.lines(d.path.as_str()) {
        Some(l) => l,
        None => {
            return None;
        },
    };
    let ghost lv = crate::model::strings_view(lines@);
    let count: u32 = if lines.len() < u32::MAX as usize { lines.len() as u32 } else { u32::MAX };
    let (first, last) = match suppressed_range(d, count) {
        Some(r) => r,
        None => {
            return None;
        },
    };
    let single = first == last && d.scope != Scope::File;
    let (from, to) = if single {
        (if first < 3 { 1 } else { first - 2 }, if count - last < 2 { count } else { last + 2 })
    } else {
        (first, if last - first < 9 { last } else { first + 9 })
    };
    proof {
        assert(window_spec(first as int, last as int, count as int, single) == (from as int, to as int));
    }
    let ghost w = lv.subrange(from - 1, to as int);
    let mut window: Vec<String> = Vec::new();
    let mut idx: usize = (from - 1) as usize;
    while idx < to as usize
        invariant
            lv == crate::model::strings_view(lines@),
            1 <= from <= to <= count <= lines@.len(),
            from - 1 <= idx <= to,
            window@.len() == idx - (from - 1),
            forall|j: int| 0 <= j < window@.len() ==> #[trigger] window@[j]@ == lv[from - 1 + j],
        decreases to - idx,
    {
        window.push(lines[idx].clone());
        proof { assert(window@[window@.len() - 1]@ == lv[idx as int]); }
        idx = idx + 1;
    }
    proof { assert(crate::model::strings_view(window@) =~= w); }
    Some(render_block(d, &window, first, last, from, to, single))
}

} // verus!
