//! Rendering a [`Report`] as a pull-request comment body.
//!
//! The body opens with a hidden [`MARKER`] comment, which is how the action
//! finds its own comment again and edits it in place.

use vstd::prelude::*;

use crate::cli::render::{ChangeCounts, counts_spec, join_with};
use crate::cli::{repo_ok, sha_ok};
use crate::cli::snippet::{SourceLines, snippet, snippet_for};
use crate::model::{
    Change, DirectiveView, ErrorView, IgnoreDirective, Report, Scope, directives_view, errors_view,
    strings_view, tool_name,
};
use crate::source::{Language, language_of_path};
use crate::text::{
    chars_of, decimal, digit, push_char, push_decimal, to_string, trim_end, trim_end_vec, split_char,
    split_char_vec, chars_view, strip_suffix, strip_suffix_vec, ends_with,
};

verus! {

/// The hidden marker every rendered body starts with.
pub const MARKER: &'static str = "<!-- notignored-report -->";

/// Entries a body lists before it stops and counts the rest.
pub const DEFAULT_MAX_ENTRIES: u32 = 20;

/// What the permalinks in a rendered body point at, and how much of the
/// report it lists.
#[derive(Debug, Clone, PartialEq, Eq)]
pub struct MarkdownOptions {
    /// `owner/repo` the permalinks address.
    pub repo: Option<String>,
    /// Commit the permalinks pin the source to.
    pub sha: Option<String>,
    /// Most entries the body lists before summarizing the remainder.
    pub max_entries: u32,
}

/// The commit the options may name: one `--github-sha` would accept.
pub open spec fn commit_spec(o: MarkdownOptions) -> Option<Seq<char>> {
    match o.sha {
        Some(s) => if sha_ok(s@) { Some(s@) } else { None },
        None => None,
    }
}

/// The `owner/repo` the options may link to, under the same rule.
pub open spec fn repository_spec(o: MarkdownOptions) -> Option<Seq<char>> {
    match o.repo {
        Some(r) => if repo_ok(r@) { Some(r@) } else { None },
        None => None,
    }
}

/// A byte left as it is in a URL path.
pub open spec fn unreserved(b: u8) -> bool {
    (65 <= b <= 90) || (97 <= b <= 122) || (48 <= b <= 57) || b == 45 || b == 46 || b == 95 || b == 126 || b == 47
}

/// An upper-case hex digit for `n` in `0..16`.
pub open spec fn hex_upper(n: int) -> char {
    if n < 10 {
        digit(n)
    } else if n == 10 {
        'A'
    } else if n == 11 {
        'B'
    } else if n == 12 {
        'C'
    } else if n == 13 {
        'D'
    } else if n == 14 {
        'E'
    } else {
        'F'
    }
}

/// Bytes percent-encoded for a URL path: `/` and the unreserved characters
/// kept, everything else as `%XX`.
pub open spec fn encode_bytes(b: Seq<u8>) -> Seq<char>
    decreases b.len(),
{
    if b.len() == 0 {
        Seq::empty()
    } else {
        let x = b.last();
        encode_bytes(b.drop_last()) + if unreserved(x) {
            seq![x as char]
        } else {
            seq!['%', hex_upper(x as int / 16), hex_upper(x as int % 16)]
        }
    }
}

/// The permalink for directive `d`, when the options say where the source
/// lives.
pub open spec fn permalink_spec(o: MarkdownOptions, d: DirectiveView) -> Option<Seq<char>> {
    match (repository_spec(o), commit_spec(o)) {
        (Some(repo), Some(sha)) => Some(
            "https://github.com/"@ + repo + "/blob/"@ + sha + "/"@ + encode_bytes(vstd::utf8::encode_utf8(d.path)) + "#L"@
                + decimal(d.line as nat),
        ),
        _ => None,
    }
}

impl MarkdownOptions {
    /// No permalinks, and the standard cap.
    pub fn default() -> (o: MarkdownOptions)
        ensures
            o.repo.is_none(),
            o.sha.is_none(),
            o.max_entries == DEFAULT_MAX_ENTRIES,
    {
        MarkdownOptions { repo: None, sha: None, max_entries: DEFAULT_MAX_ENTRIES }
    }

    /// The commit these options may name, or `None` when there is none or the
    /// one given could not have come from `--github-sha`.
    pub fn commit(&self) -> (r: Option<String>)
        ensures
            match r {
                Some(s) => commit_spec(*self) == Some(s@),
                None => commit_spec(*self).is_none(),
            },
    {
        match &self.sha {
            Some(s) => if crate::cli::github_sha(s.as_str()).is_ok() { Some(s.clone()) } else { None },
            None => None,
        }
    }

    /// The `owner/repo` these options may link to, under the same rule.
    pub fn repository(&self) -> (r: Option<String>)
        ensures
            match r {
                Some(s) => repository_spec(*self) == Some(s@),
                None => repository_spec(*self).is_none(),
            },
    {
        match &self.repo {
            Some(s) => if crate::cli::github_repo(s.as_str()).is_ok() { Some(s.clone()) } else { None },
            None => None,
        }
    }

    /// The `https://github.com/<owner>/<repo>/blob/<sha>/<path>#L<line>`
    /// permalink for a directive, or `None` when this run was not told where
    /// the source lives.
    pub fn permalink(&self, d: &IgnoreDirective) -> (r: Option<String>)
        ensures
            match r {
                Some(s) => permalink_spec(*self, d@) == Some(s@),
                None => permalink_spec(*self, d@).is_none(),
            },
    {
        let repo = match self.repository() {
            Some(r) => r,
            None => {
                return None;
            },
        };
        let sha = match self.commit() {
            Some(s) => s,
            None => {
                return None;
            },
        };
        let mut url = "https://github.com/".to_owned();
        url.append(repo.as_str());
        url.append("/blob/");
        url.append(sha.as_str());
        url.append("/");
        let enc = encode_path(d.path.as_str());
        url.append(enc.as_str());
        url.append("#L");
        push_decimal(&mut url, d.line as u64);
        Some(url)
    }
}

fn hex_upper_exec(n: u8) -> (c: char)
    requires
        n < 16,
    ensures
        c == hex_upper(n as int),
{
    if n == 0 { '0' } else if n == 1 { '1' } else if n == 2 { '2' } else if n == 3 { '3' } else if n == 4 { '4' } else if n
        == 5 { '5' } else if n == 6 { '6' } else if n == 7 { '7' } else if n == 8 { '8' } else if n == 9 { '9' } else if n
        == 10 { 'A' } else if n == 11 { 'B' } else if n == 12 { 'C' } else if n == 13 { 'D' } else if n == 14 { 'E' } else {
        'F'
    }
}

/// Percent-encode a report path for use in a URL: the separators survive,
/// everything unusual does not.
pub fn encode_path(path: &str) -> (r: String)
    ensures
        r@ == encode_bytes(vstd::utf8::encode_utf8(path@)),
{
    let bytes = path.as_bytes();
    let ghost bv = bytes@;
    let mut r = String::new();
    let mut i: usize = 0;
    proof { assert(bv.take(0) =~= Seq::<u8>::empty()); }
    while i < bytes.len()
        invariant
            bv == bytes@,
            i <= bv.len(),
            r@ == encode_bytes(bv.take(i as int)),
        decreases bv.len() - i,
    {
        let b = bytes[i];
        let ghost before = r@;
        if (65 <= b && b <= 90) || (97 <= b && b <= 122) || (48 <= b && b <= 57) || b == 45 || b == 46 || b == 95 || b
            == 126 || b == 47 {
            push_char(&mut r, b as char);
        } else {
            push_char(&mut r, '%');
            push_char(&mut r, hex_upper_exec(b / 16));
            push_char(&mut r, hex_upper_exec(b % 16));
        }
        proof {
            assert(bv.take(i + 1).drop_last() =~= bv.take(i as int));
            assert(bv.take(i + 1).last() == b);
            assert(r@ =~= encode_bytes(bv.take(i + 1)));
        }
        i = i + 1;
    }
    proof { assert(bv.take(bv.len() as int) =~= bv); }
    r
}

/// A character markdown gives meaning to.
pub open spec fn special(c: char) -> bool {
    c == '\\' || c == '`' || c == '*' || c == '_' || c == '[' || c == ']' || c == '<'
}

/// Text with each markdown-significant character backslash-escaped.
pub open spec fn escape_spec(t: Seq<char>) -> Seq<char>
    decreases t.len(),
{
    if t.len() == 0 {
        Seq::empty()
    } else {
        escape_spec(t.drop_last()) + if special(t.last()) { seq!['\\', t.last()] } else { seq![t.last()] }
    }
}

/// Escape the markdown-significant characters in text taken verbatim from
/// source, so it cannot re-flow the rest of the comment.
pub fn escape(text: &str) -> (r: String)
    ensures
        r@ == escape_spec(text@),
{
    let v = chars_of(text);
    let mut r = String::new();
    let mut i: usize = 0;
    proof { assert(v@.take(0) =~= Seq::<char>::empty()); }
    while i < v.len()
        invariant
            v@ == text@,
            i <= v@.len(),
            r@ == escape_spec(v@.take(i as int)),
        decreases v@.len() - i,
    {
        let c = v[i];
        if c == '\\' || c == '`' || c == '*' || c == '_' || c == '[' || c == ']' || c == '<' {
            push_char(&mut r, '\\');
        }
        push_char(&mut r, c);
        proof {
            assert(v@.take(i + 1).drop_last() =~= v@.take(i as int));
            assert(r@ =~= escape_spec(v@.take(i + 1)));
        }
        i = i + 1;
    }
    proof { assert(v@.take(v@.len() as int) =~= v@); }
    r
}

/// `1 suppression` / `2 suppressions`.
pub open spec fn plural(count: nat, one: Seq<char>, many: Seq<char>) -> Seq<char> {
    decimal(count) + " "@ + if count == 1 { one } else { many }
}

fn plural_exec(count: usize, one: &str, many: &str) -> (r: String)
    ensures
        r@ == plural(count as nat, one@, many@),
{
    let mut r = String::new();
    push_decimal(&mut r, count as u64);
    r.append(" ");
    if count == 1 {
        r.append(one);
    } else {
        r.append(many);
    }
    r
}

/// What the heading counts, in the words the count is true in.
pub open spec fn heading_spec(ds: Seq<DirectiveView>) -> Seq<char> {
    match counts_spec(ds) {
        None => plural(ds.len(), "suppression"@, "suppressions"@),
        Some((a, e)) => {
            let added = plural(a, "suppression"@, "suppressions"@) + " added"@;
            let edited = plural(e, "justification"@, "justifications"@) + " edited"@;
            if a == 0 {
                edited
            } else if e == 0 {
                added
            } else {
                added + ", "@ + edited
            }
        },
    }
}

/// What the heading of a report with suppressions counts.
pub fn heading(report: &Report) -> (r: String)
    ensures
        r@ == heading_spec(directives_view(report.ignores@)),
{
    match ChangeCounts::of(report) {
        None => plural_exec(report.ignores.len(), "suppression", "suppressions"),
        Some(counts) => {
            let mut added = plural_exec(counts.added, "suppression", "suppressions");
            added.append(" added");
            let mut edited = plural_exec(counts.justification_edited, "justification", "justifications");
            edited.append(" edited");
            if counts.added == 0 {
                edited
            } else if counts.justification_edited == 0 {
                added
            } else {
                added.append(", ");
                added.append(edited.as_str());
                added
            }
        },
    }
}

/// Each rule escaped.
pub open spec fn escaped_rules(rules: Seq<Seq<char>>) -> Seq<Seq<char>> {
    Seq::new(rules.len(), |i: int| escape_spec(rules[i]))
}

/// The rules of an entry: `(all rules)` for a blanket one, else each escaped,
/// comma-separated.
pub open spec fn entry_rules(rules: Seq<Seq<char>>) -> Seq<char> {
    if rules.len() == 0 {
        "(all rules)"@
    } else {
        join_with(escaped_rules(rules), ", "@)
    }
}

/// One directive as a list item: what is silenced, why, and where.
pub open spec fn entry_spec(d: DirectiveView, o: MarkdownOptions) -> Seq<char> {
    let reason = match d.reason {
        Some(r) => "_"@ + escape_spec(r) + "_"@,
        None => "_no reason given_"@,
    };
    let location = d.path + ":"@ + decimal(d.line as nat);
    let loc = match permalink_spec(o, d) {
        Some(url) => "["@ + escape_spec(location) + "]("@ + url + ")"@,
        None => "`"@ + location + "`"@,
    };
    let edited = if d.change == Some(Change::JustificationEdited) { " _(justification edited)_"@ } else { Seq::empty() };
    "- **"@ + tool_name(d.tool) + " "@ + entry_rules(d.rules) + "**"@ + edited + " — "@ + reason + " — "@ + loc + "\n"@
}

/// One directive as a list item.
pub fn entry(d: &IgnoreDirective, options: &MarkdownOptions) -> (r: String)
    ensures
        r@ == entry_spec(d@, *options),
{
    let rules = if d.rules.len() == 0 {
        "(all rules)".to_owned()
    } else {
        let ghost rv = strings_view(d.rules@);
        let mut escaped: Vec<String> = Vec::new();
        let mut k: usize = 0;
        while k < d.rules.len()
            invariant
                rv == strings_view(d.rules@),
                k <= rv.len(),
                escaped@.len() == k,
                forall|j: int| 0 <= j < k ==> #[trigger] escaped@[j]@ == escape_spec(rv[j]),
            decreases rv.len() - k,
        {
            let e = escape(d.rules[k].as_str());
            escaped.push(e);
            proof {
                assert(rv[k as int] == d.rules@[k as int]@);
            }
            k = k + 1;
        }
        proof { assert(strings_view(escaped@) =~= escaped_rules(rv)); }
        crate::cli::render::join(&escaped, ", ")
    };
    let reason = match &d.reason {
        Some(r) => {
            let mut t = "_".to_owned();
            t.append(escape(r.as_str()).as_str());
            t.append("_");
            t
        },
        None => "_no reason given_".to_owned(),
    };
    let mut location = d.path.clone();
    location.append(":");
    push_decimal(&mut location, d.line as u64);
    let loc = match options.permalink(d) {
        Some(url) => {
            let mut t = "[".to_owned();
            t.append(escape(location.as_str()).as_str());
            t.append("](");
            t.append(url.as_str());
            t.append(")");
            t
        },
        None => {
            let mut t = "`".to_owned();
            t.append(location.as_str());
            t.append("`");
            t
        },
    };
    let mut line = "- **".to_owned();
    line.append(d.tool.as_str());
    line.append(" ");
    line.append(rules.as_str());
    line.append("**");
    if d.change == Some(Change::JustificationEdited) {
        line.append(" _(justification edited)_");
    }
    line.append(" — ");
    line.append(reason.as_str());
    line.append(" — ");
    line.append(loc.as_str());
    line.append("\n");
    proof { assert(line@ =~= entry_spec(d@, *options)); }
    line
}

/// The provenance footer: the commit the suppressions were read from, when
/// the run was told one.
pub open spec fn stamp_spec(o: MarkdownOptions) -> Option<Seq<char>> {
    match commit_spec(o) {
        None => None,
        Some(sha) => {
            let short = sha.take(7);
            let commit = match repository_spec(o) {
                Some(repo) => "[`"@ + short + "`](https://github.com/"@ + repo + "/commit/"@ + sha + ")"@,
                None => "`"@ + short + "`"@,
            };
            Some("---\n\n<sub>Suppressions as of "@ + commit + ".</sub>\n"@)
        },
    }
}

/// The provenance footer.
pub fn stamp(options: &MarkdownOptions) -> (r: Option<String>)
    ensures
        match r {
            Some(s) => stamp_spec(*options) == Some(s@),
            None => stamp_spec(*options).is_none(),
        },
{
    let sha = match options.commit() {
        Some(s) => s,
        None => {
            return None;
        },
    };
    let sv = chars_of(sha.as_str());
    let mut short = String::new();
    let mut k: usize = 0;
    while k < 7 && k < sv.len()
        invariant
            k <= 7,
            k <= sv@.len(),
            short@ == sv@.take(k as int),
        decreases 7 - k,
    {
        push_char(&mut short, sv[k]);
        proof { assert(short@ =~= sv@.take(k + 1)); }
        k = k + 1;
    }
    proof {
        assert(sha_ok(sha@));
        assert(short@ == sha@.take(7));
    }
    let commit = match options.repository() {
        Some(repo) => {
            let mut t = "[`".to_owned();
            t.append(short.as_str());
            t.append("`](https://github.com/");
            t.append(repo.as_str());
            t.append("/commit/");
            t.append(sha.as_str());
            t.append(")");
            t
        },
        None => {
            let mut t = "`".to_owned();
            t.append(short.as_str());
            t.append("`");
            t
        },
    };
    let mut s = "---\n\n<sub>Suppressions as of ".to_owned();
    s.append(commit.as_str());
    s.append(".</sub>\n");
    Some(s)
}

/// `body` ending in exactly one blank line, so what follows starts its own
/// block.
pub open spec fn separated(body: Seq<char>) -> Seq<char> {
    if ends_with(body, "\n\n"@) { body } else { body + "\n"@ }
}

fn separate(body: &mut String)
    ensures
        final(body)@ == separated(old(body)@),
{
    let v = chars_of(body.as_str());
    let nl = chars_of("\n\n");
    if strip_suffix_vec(&v, &nl).is_none() {
        body.append("\n");
    }
}

/// The listed entries, each followed by its snippet where there is one.
pub open spec fn listed_entries(
    ds: Seq<DirectiveView>,
    o: MarkdownOptions,
    src: Seq<(Seq<char>, Seq<Seq<char>>)>,
) -> Seq<char>
    decreases ds.len(),
{
    if ds.len() == 0 {
        Seq::empty()
    } else {
        listed_entries(ds.drop_last(), o, src) + entry_spec(ds.last(), o) + match snippet_for(ds.last(), src) {
            Some(sn) => "\n"@ + sn + "\n"@,
            None => Seq::empty(),
        }
    }
}

/// The files that could not be scanned, one list item each.
pub open spec fn error_items(es: Seq<ErrorView>) -> Seq<char>
    decreases es.len(),
{
    if es.len() == 0 {
        Seq::empty()
    } else {
        error_items(es.drop_last()) + "- `"@ + es.last().path + "` — "@ + escape_spec(es.last().message) + "\n"@
    }
}

/// The whole comment body, marker included.
pub open spec fn body_spec(
    ds: Seq<DirectiveView>,
    es: Seq<ErrorView>,
    o: MarkdownOptions,
    src: Seq<(Seq<char>, Seq<Seq<char>>)>,
) -> Seq<char> {
    let start = MARKER@ + "\n\n"@;
    let b1 = if ds.len() == 0 {
        start + "### notignored\n\nNo lint or type-check suppressions found.\n"@
    } else {
        let listed = if ds.len() < o.max_entries { ds.len() } else { o.max_entries as nat };
        let b = start + "### notignored: "@ + heading_spec(ds) + "\n\n"@ + listed_entries(ds.take(listed as int), o, src);
        if ds.len() > o.max_entries {
            separated(b) + "_… and "@ + decimal((ds.len() - o.max_entries) as nat) + " more not shown ("@ + decimal(
                ds.len(),
            ) + " total)._\n"@
        } else {
            b
        }
    };
    let b2 = if es.len() == 0 {
        b1
    } else {
        separated(b1) + "#### Could not be scanned\n\n"@ + error_items(es)
    };
    match stamp_spec(o) {
        Some(st) => separated(b2) + st,
        None => b2,
    }
}

proof fn lemma_extends(a: Seq<char>, b: Seq<char>, p: Seq<char>)
    requires
        a.len() >= p.len(),
        a.take(p.len() as int) == p,
    ensures
        (a + b).take(p.len() as int) == p,
        separated(a).take(p.len() as int) == p,
        (a + b).len() >= p.len(),
        separated(a).len() >= p.len(),
{
    assert((a + b).take(p.len() as int) =~= a.take(p.len() as int));
    assert((a + "\n"@).take(p.len() as int) =~= a.take(p.len() as int));
}

/// Every body opens with the hidden marker, which is how the comment is found
/// again and edited in place.
pub proof fn law_body_opens_with_marker(
    ds: Seq<DirectiveView>,
    es: Seq<ErrorView>,
    o: MarkdownOptions,
    src: Seq<(Seq<char>, Seq<Seq<char>>)>,
)
    ensures
        body_spec(ds, es, o, src).take(MARKER@.len() as int) == MARKER@,
{
    let p = MARKER@;
    let start = p + "\n\n"@;
    assert(start.take(p.len() as int) =~= p);
    let b1 = if ds.len() == 0 {
        start + "### notignored\n\nNo lint or type-check suppressions found.\n"@
    } else {
        let listed = if ds.len() < o.max_entries { ds.len() } else { o.max_entries as nat };
        let b = start + "### notignored: "@ + heading_spec(ds) + "\n\n"@ + listed_entries(ds.take(listed as int), o, src);
        lemma_extends(start, "### notignored: "@, p);
        lemma_extends(start + "### notignored: "@, heading_spec(ds), p);
        lemma_extends(start + "### notignored: "@ + heading_spec(ds), "\n\n"@, p);
        lemma_extends(start + "### notignored: "@ + heading_spec(ds) + "\n\n"@, listed_entries(ds.take(listed as int), o, src), p);
        let tail = "_… and "@ + decimal((ds.len() - o.max_entries) as nat) + " more not shown ("@ + decimal(ds.len())
            + " total)._\n"@;
        lemma_extends(b, tail, p);
        lemma_extends(separated(b), tail, p);
        assert(separated(b) + "_… and "@ + decimal((ds.len() - o.max_entries) as nat) + " more not shown ("@ + decimal(ds.len())
            + " total)._\n"@ =~= separated(b) + tail);
        if ds.len() > o.max_entries {
            separated(b) + tail
        } else {
            b
        }
    };
    lemma_extends(start, "### notignored\n\nNo lint or type-check suppressions found.\n"@, p);
    let b2 = if es.len() == 0 {
        b1
    } else {
        separated(b1) + "#### Could not be scanned\n\n"@ + error_items(es)
    };
    lemma_extends(b1, "#### Could not be scanned\n\n"@, p);
    lemma_extends(separated(b1), "#### Could not be scanned\n\n"@, p);
    lemma_extends(separated(b1) + "#### Could not be scanned\n\n"@, error_items(es), p);
    match stamp_spec(o) {
        Some(st) => {
            lemma_extends(b2, st, p);
            lemma_extends(separated(b2), st, p);
        },
        None => {},
    }
    assert(body_spec(ds, es, o, src) == match stamp_spec(o) {
        Some(st) => separated(b2) + st,
        None => b2,
    });
}

/// A body with suppressions lists the first `min(n, max_entries)` of the `n`
/// directives, in report order, under a heading that counts all of them. When
/// more than `max_entries` were found, exactly one line follows the listing,
/// giving how many were left out and the total; otherwise nothing follows it.
pub proof fn law_body_lists_at_most_max_entries(
    ds: Seq<DirectiveView>,
    o: MarkdownOptions,
    src: Seq<(Seq<char>, Seq<Seq<char>>)>,
)
    requires
        ds.len() > 0,
        stamp_spec(o) is None,
    ensures
        ({
            let n = ds.len();
            let m = o.max_entries as nat;
            let listed = if n < m { n } else { m };
            let head = MARKER@ + "\n\n"@ + "### notignored: "@ + heading_spec(ds) + "\n\n"@
                + listed_entries(ds.take(listed as int), o, src);
            &&& n <= m ==> body_spec(ds, Seq::empty(), o, src) == head
            &&& n > m ==> body_spec(ds, Seq::empty(), o, src) == separated(head) + "_… and "@ + decimal((n - m) as nat)
                + " more not shown ("@ + decimal(n) + " total)._\n"@
        }),
{
}

fn push_entries(body: &mut String, report: &Report, listed: usize, options: &MarkdownOptions, source: &SourceLines)
    requires
        listed <= report.ignores@.len(),
    ensures
        final(body)@ == old(body)@ + listed_entries(
            directives_view(report.ignores@).take(listed as int),
            *options,
            source@,
        ),
{
    let ghost ds = directives_view(report.ignores@);
    let mut k: usize = 0;
    proof { assert(ds.take(0) =~= Seq::<DirectiveView>::empty()); }
    while k < listed
        invariant
            ds == directives_view(report.ignores@),
            listed <= report.ignores@.len(),
            k <= listed,
            body@ == old(body)@ + listed_entries(ds.take(k as int), *options, source@),
        decreases listed - k,
    {
        let d = &report.ignores[k];
        let e = entry(d, options);
        body.append(e.as_str());
        match snippet(d, source) {
            Some(sn) => {
                body.append("\n");
                body.append(sn.as_str());
                body.append("\n");
            },
            None => {},
        }
        proof {
            assert(ds.take(k + 1).drop_last() =~= ds.take(k as int));
            assert(ds.take(k + 1).last() == d@);
            assert(body@ =~= old(body)@ + listed_entries(ds.take(k + 1), *options, source@));
        }
        k = k + 1;
    }
}

fn push_errors(body: &mut String, report: &Report)
    ensures
        final(body)@ == old(body)@ + error_items(errors_view(report.errors@)),
{
    let ghost es = errors_view(report.errors@);
    let mut k: usize = 0;
    proof { assert(es.take(0) =~= Seq::<ErrorView>::empty()); }
    while k < report.errors.len()
        invariant
            es == errors_view(report.errors@),
            k <= es.len(),
            body@ == old(body)@ + error_items(es.take(k as int)),
        decreases es.len() - k,
    {
        let e = &report.errors[k];
        body.append("- `");
        body.append(e.path.as_str());
        body.append("` — ");
        body.append(escape(e.message.as_str()).as_str());
        body.append("\n");
        proof {
            assert(es.take(k + 1).drop_last() =~= es.take(k as int));
            assert(es.take(k + 1).last() == e@);
            assert(body@ =~= old(body)@ + error_items(es.take(k + 1)));
        }
        k = k + 1;
    }
    proof { assert(es.take(es.len() as int) =~= es); }
}

/// The report as a pull-request comment body: the marker, a heading that
/// counts what the report can say, at most `max_entries` entries (each with
/// its snippet when `source` holds the file) and a count of the rest, the
/// files that could not be scanned, and the provenance footer.
pub fn render_markdown(report: &Report, options: &MarkdownOptions, source: &SourceLines) -> (r: String)
    ensures
        r@ == body_spec(directives_view(report.ignores@), errors_view(report.errors@), *options, source@),
{
    let ghost ds = directives_view(report.ignores@);
    let mut body = MARKER.to_owned();
    body.append("\n\n");
    if report.ignores.len() == 0 {
        body.append("### notignored\n\nNo lint or type-check suppressions found.\n");
    } else {
        let count = report.ignores.len();
        body.append("### notignored: ");
        body.append(heading(report).as_str());
        body.append("\n\n");
        let max = options.max_entries as usize;
        let listed = if count < max { count } else { max };
        push_entries(&mut body, report, listed, options, source);
        if count > max {
            separate(&mut body);
            body.append("_… and ");
            push_decimal(&mut body, (count - max) as u64);
            body.append(" more not shown (");
            push_decimal(&mut body, count as u64);
            body.append(" total)._\n");
        }
    }
    let ghost b1 = body@;
    if report.errors.len() > 0 {
        separate(&mut body);
        body.append("#### Could not be scanned\n\n");
        push_errors(&mut body, report);
    }
    match stamp(options) {
        Some(st) => {
            separate(&mut body);
            body.append(st.as_str());
        },
        None => {},
    }
    proof {
        assert(body@ =~= body_spec(ds, errors_view(report.errors@), *options, source@));
    }
    body
}

} // verus!
