//! What a change touched: which files, and which lines it added to them.
//!
//! `--diff` narrows a report to the suppressions a change introduced. git is
//! asked by the caller; this module reads what git printed (the `--raw`
//! change list and the `--unified=0` hunk headers), selects the directives
//! on added lines, and labels each as written or as a rewritten
//! justification by pairing it with the file's pre-image.

use vstd::prelude::*;

use crate::model::{
    Change, DirectiveView, ErrorView, IgnoreDirective, Report, ReportError, Scope, Tool,
    debug_quoted, debug_str, directives_view, errors_view, strings_view, opt_string_view,
};
use crate::scan::{ScanOptions, scan_source, file_records};
use crate::source::{SourceFile, file_view, source_fits};
use crate::model::sorted_view;
use crate::text::{
    chars_of, slice, to_string, push_char, is_ws, is_whitespace, is_ascii_digit, ascii_digit,
    is_hex_digit, hex_digit, strip_prefix, strip_prefix_vec, strip_suffix, strip_suffix_vec,
    split_char, split_char_vec, chars_view, split_once, split_once_vec, split_ws, split_ws_vec,
};

verus! {

/// A `--diff` run that could not be decided.
#[derive(Debug, Clone, PartialEq, Eq)]
pub enum DiffError {
    /// No `git` on PATH.
    GitMissing,
    /// A `git` that could not be started.
    Spawn {
        /// The underlying reason.
        message: String,
    },
    /// The directory is not inside a git work tree.
    NotAWorkTree {
        /// The directory the diff was asked for.
        path: String,
    },
    /// A git invocation failed; its own message says why.
    Git {
        /// The command as it was run.
        command: String,
        /// git's stderr, trimmed.
        message: String,
    },
    /// git succeeded but printed something this build cannot read.
    Malformed {
        /// The command whose output could not be read.
        command: String,
        /// What could not be read, quoted.
        detail: String,
    },
}

/// The one-line description of a [`DiffError`].
pub open spec fn diff_error_message(e: DiffError) -> Seq<char> {
    match e {
        DiffError::GitMissing => "git not found on PATH"@,
        DiffError::Spawn { message } => "cannot run git: "@ + message@,
        DiffError::NotAWorkTree { path } => "not inside a git work tree: "@ + path@,
        DiffError::Git { command, message } => "`"@ + command@ + "` failed: "@ + message@,
        DiffError::Malformed { command, detail } => "cannot read `"@ + command@ + "` output: "@ + detail@,
    }
}

/// The next action a [`DiffError`] suggests.
pub open spec fn diff_error_hint(e: DiffError) -> Seq<char> {
    match e {
        DiffError::GitMissing => "install git, or drop --diff to scan the whole tree"@,
        DiffError::Spawn { .. } => "make sure the git on PATH is executable, or drop --diff to scan the whole tree"@,
        DiffError::NotAWorkTree { .. } => "run --diff from inside a git work tree, or drop --diff to scan the whole tree"@,
        DiffError::Git { .. } => "pass a --diff-base this repository can resolve: a branch, tag, commit, or A..B range"@,
        DiffError::Malformed { .. } => "this git speaks a diff format notignored cannot read — report it, or drop --diff to scan the whole tree"@,
    }
}

impl DiffError {
    /// The concrete next action for this failure.
    pub fn hint(&self) -> (h: &'static str)
        ensures
            h@ == diff_error_hint(*self),
    {
        match self {
            DiffError::GitMissing => "install git, or drop --diff to scan the whole tree",
            DiffError::Spawn { .. } => "make sure the git on PATH is executable, or drop --diff to scan the whole tree",
            DiffError::NotAWorkTree { .. } => "run --diff from inside a git work tree, or drop --diff to scan the whole tree",
            DiffError::Git { .. } => "pass a --diff-base this repository can resolve: a branch, tag, commit, or A..B range",
            DiffError::Malformed { .. } => "this git speaks a diff format notignored cannot read — report it, or drop --diff to scan the whole tree",
        }
    }

    /// The one-line description of this failure.
    pub fn message(&self) -> (m: String)
        ensures
            m@ == diff_error_message(*self),
    {
        match self {
            DiffError::GitMissing => "git not found on PATH".to_owned(),
            DiffError::Spawn { message } => {
                let mut m = "cannot run git: ".to_owned();
                m.append(message.as_str());
                m
            },
            DiffError::NotAWorkTree { path } => {
                let mut m = "not inside a git work tree: ".to_owned();
                m.append(path.as_str());
                m
            },
            DiffError::Git { command, message } => {
                let mut m = "`".to_owned();
                m.append(command.as_str());
                m.append("` failed: ");
                m.append(message.as_str());
                m
            },
            DiffError::Malformed { command, detail } => {
                let mut m = "cannot read `".to_owned();
                m.append(command.as_str());
                m.append("` output: ");
                m.append(detail.as_str());
                m
            },
        }
    }
}

/// A git object name, as git wrote it and as it is handed back to git: only
/// hex digits, and never the all-zero id.
#[derive(Debug, Clone, PartialEq, Eq)]
pub struct BlobId(String);

/// Every character is a hex digit.
pub open spec fn all_hex(s: Seq<char>) -> bool {
    forall|i: int| 0 <= i < s.len() ==> is_hex_digit(#[trigger] s[i])
}

/// Every character is `0`.
pub open spec fn all_zero(s: Seq<char>) -> bool {
    forall|i: int| 0 <= i < s.len() ==> #[trigger] s[i] == '0'
}

/// The object name `oid` spells, if it spells one.
pub open spec fn blob_spec(oid: Seq<char>) -> Option<Seq<char>> {
    if oid.len() == 0 || !all_hex(oid) || all_zero(oid) {
        None
    } else {
        Some(oid)
    }
}

impl View for BlobId {
    type V = Seq<char>;

    closed spec fn view(&self) -> Seq<char> {
        self.0@
    }
}

fn all_hex_exec(s: &Vec<char>) -> (b: bool)
    ensures
        b == all_hex(s@),
{
    let mut i: usize = 0;
    while i < s.len()
        invariant
            i <= s@.len(),
            forall|k: int| 0 <= k < i ==> is_hex_digit(#[trigger] s@[k]),
        decreases s@.len() - i,
    {
        if !hex_digit(s[i]) {
            return false;
        }
        i = i + 1;
    }
    true
}

fn all_zero_exec(s: &Vec<char>) -> (b: bool)
    ensures
        b == all_zero(s@),
{
    let mut i: usize = 0;
    while i < s.len()
        invariant
            i <= s@.len(),
            forall|k: int| 0 <= k < i ==> #[trigger] s@[k] == '0',
        decreases s@.len() - i,
    {
        if s[i] != '0' {
            return false;
        }
        i = i + 1;
    }
    true
}

impl BlobId {
    /// Read an object name git wrote, or `None` when it is not one; the
    /// all-zero id is `None` too.
    pub fn parse(oid: &str) -> (r: Option<BlobId>)
        ensures
            match r {
                Some(b) => blob_spec(oid@) == Some(b@),
                None => blob_spec(oid@).is_none(),
            },
    {
        let v = chars_of(oid);
        if v.len() == 0 || !all_hex_exec(&v) || all_zero_exec(&v) {
            None
        } else {
            Some(BlobId(oid.to_owned()))
        }
    }

    /// The name, as git spells it.
    pub fn as_str(&self) -> (s: &str)
        ensures
            s@ == self@,
    {
        self.0.as_str()
    }

    /// A copy of this name.
    pub fn copy(&self) -> (r: BlobId)
        ensures
            r@ == self@,
    {
        BlobId(self.0.clone())
    }
}

/// A file a change touched.
#[derive(Debug, Clone, PartialEq, Eq)]
pub struct ChangedFile {
    /// The path git reported, relative to the directory the diff was taken in.
    pub path: String,
    /// Where git paired the file as renamed (or copied) from.
    pub renamed_from: Option<String>,
    /// The object name of the file's contents at the base, if it had any.
    pub base_blob: Option<BlobId>,
}

pub struct ChangedFileView {
    pub path: Seq<char>,
    pub renamed_from: Option<Seq<char>>,
    pub base_blob: Option<Seq<char>>,
}

impl View for ChangedFile {
    type V = ChangedFileView;

    open spec fn view(&self) -> ChangedFileView {
        ChangedFileView {
            path: self.path@,
            renamed_from: opt_string_view(self.renamed_from),
            base_blob: match self.base_blob {
                Some(b) => Some(b@),
                None => None,
            },
        }
    }
}

impl ChangedFile {
    /// A copy of this record.
    pub fn copy(&self) -> (r: ChangedFile)
        ensures
            r@ == self@,
    {
        ChangedFile {
            path: self.path.clone(),
            renamed_from: crate::model::clone_opt_string(&self.renamed_from),
            base_blob: match &self.base_blob {
                Some(b) => Some(b.copy()),
                None => None,
            },
        }
    }
}

/// A changed file's contents at the diff's base.
#[derive(Debug, Clone, PartialEq, Eq)]
pub struct BaseImage {
    /// The path the file had at the base.
    pub path: String,
    /// The file as it read then.
    pub text: String,
}

/// Everything one `git diff --raw` named.
#[derive(Debug, Clone, PartialEq, Eq)]
pub struct Changed {
    /// The files to read, in git's order.
    pub files: Vec<ChangedFile>,
    /// The lossy spelling of each path that could not be represented.
    pub undecodable: Vec<String>,
}

impl Changed {
    /// Nothing changed.
    pub fn default() -> (c: Changed)
        ensures
            c.files@.len() == 0,
            c.undecodable@.len() == 0,
    {
        Changed { files: Vec::new(), undecodable: Vec::new() }
    }
}

/// One hunk of a unified diff: the inclusive base lines it replaced and the
/// new lines it wrote, each `None` when that side holds nothing.
#[derive(Debug, Clone, Copy, PartialEq, Eq)]
pub struct Hunk {
    /// Inclusive 1-based `(first, last)` on the base side.
    pub base: Option<(u32, u32)>,
    /// The same on the new side.
    pub new: Option<(u32, u32)>,
}

/// Whether the inclusive span `start..=end` overlaps the inclusive `range`.
pub open spec fn overlaps_spec(range: (u32, u32), start: u32, end: u32) -> bool {
    range.0 <= end && start <= range.1
}

/// Whether the inclusive span `start..=end` overlaps the inclusive `range`.
pub fn overlaps(range: (u32, u32), start: u32, end: u32) -> (b: bool)
    ensures
        b == overlaps_spec(range, start, end),
{
    range.0 <= end && start <= range.1
}

/// What a change did to one file: the hunks of its patch, and the file as it
/// was before them once the caller has read it.
#[derive(Debug, Clone, PartialEq, Eq)]
pub struct FileChange {
    /// The hunks, in file order.
    pub hunks: Vec<Hunk>,
    /// The file's contents at the base, when they could be read.
    pub base: Option<BaseImage>,
}

/// Whether hunk `h` added a line of `start..=end`.
pub open spec fn adds(h: Hunk, start: u32, end: u32) -> bool {
    match h.new {
        Some(r) => overlaps_spec(r, start, end),
        None => false,
    }
}

/// Whether some hunk added a line of `start..=end`.
pub open spec fn intersects_spec(hunks: Seq<Hunk>, start: u32, end: u32) -> bool {
    exists|k: int| 0 <= k < hunks.len() && adds(#[trigger] hunks[k], start, end)
}

impl FileChange {
    /// No hunks and no base.
    pub fn default() -> (c: FileChange)
        ensures
            c.hunks@.len() == 0,
            c.base.is_none(),
    {
        FileChange { hunks: Vec::new(), base: None }
    }

    /// Whether the change added no line at all to this file.
    pub fn is_empty(&self) -> (b: bool)
        ensures
            b == forall|k: int| 0 <= k < self.hunks@.len() ==> (#[trigger] self.hunks@[k]).new.is_none(),
    {
        let mut k: usize = 0;
        while k < self.hunks.len()
            invariant
                k <= self.hunks@.len(),
                forall|x: int| 0 <= x < k ==> (#[trigger] self.hunks@[x]).new.is_none(),
            decreases self.hunks@.len() - k,
        {
            if self.hunks[k].new.is_some() {
                return false;
            }
            k = k + 1;
        }
        true
    }

    /// Whether any line of the inclusive span `start..=end` was added.
    pub fn intersects(&self, start: u32, end: u32) -> (b: bool)
        ensures
            b == intersects_spec(self.hunks@, start, end),
    {
        let mut k: usize = 0;
        while k < self.hunks.len()
            invariant
                k <= self.hunks@.len(),
                forall|x: int| 0 <= x < k ==> !adds(#[trigger] self.hunks@[x], start, end),
            decreases self.hunks@.len() - k,
        {
            match self.hunks[k].new {
                Some(r) => {
                    if overlaps(r, start, end) {
                        return true;
                    }
                },
                None => {},
            }
            k = k + 1;
        }
        false
    }

    /// Record the file's contents at the base.
    pub fn set_base(&mut self, base: Option<BaseImage>)
        ensures
            final(self).hunks == old(self).hunks,
            final(self).base == base,
    {
        self.base = base;
    }
}

// ---------------------------------------------------------------------------
// Hunk headers.

/// The value of a run of decimal digits.
pub open spec fn digits_value(s: Seq<char>) -> int
    decreases s.len(),
{
    if s.len() == 0 {
        0
    } else {
        digits_value(s.drop_last()) * 10 + (s.last() as int - '0' as int)
    }
}

/// Every character is an ASCII digit.
pub open spec fn all_digits(s: Seq<char>) -> bool {
    forall|i: int| 0 <= i < s.len() ==> is_ascii_digit(#[trigger] s[i])
}

/// `str::parse::<u32>`: an optional `+`, then one or more ASCII digits whose
/// value fits.
pub open spec fn parse_u32_spec(s: Seq<char>) -> Option<u32> {
    let d = if s.len() > 0 && s[0] == '+' { s.drop_first() } else { s };
    if d.len() > 0 && all_digits(d) && digits_value(d) <= u32::MAX {
        Some(digits_value(d) as u32)
    } else {
        None
    }
}

pub proof fn lemma_digits_value_nonneg(s: Seq<char>)
    requires
        all_digits(s),
    ensures
        digits_value(s) >= 0,
    decreases s.len(),
{
    if s.len() > 0 {
        assert(all_digits(s.drop_last()));
        assert(is_ascii_digit(s[s.len() - 1]));
        lemma_digits_value_nonneg(s.drop_last());
    }
}

/// Parse a decimal `u32` as `str::parse` does.
pub fn parse_u32(s: &Vec<char>) -> (r: Option<u32>)
    ensures
        r == parse_u32_spec(s@),
{
    let start: usize = if s.len() > 0 && s[0] == '+' { 1 } else { 0 };
    let ghost d = if s@.len() > 0 && s@[0] == '+' { s@.drop_first() } else { s@ };
    proof { assert(d =~= s@.subrange(start as int, s@.len() as int)); }
    if start == s.len() {
        return None;
    }
    let mut v: u64 = 0;
    let mut i: usize = start;
    proof { assert(d.take(0) =~= Seq::<char>::empty()); }
    while i < s.len()
        invariant
            start <= i <= s@.len(),
            d == s@.subrange(start as int, s@.len() as int),
            d == (if s@.len() > 0 && s@[0] == '+' { s@.drop_first() } else { s@ }),
            all_digits(d.take(i - start)),
            v as int == if digits_value(d.take(i - start)) > u32::MAX { u32::MAX + 1 } else { digits_value(
                d.take(i - start),
            ) },
        decreases s@.len() - i,
    {
        let c = s[i];
        if !ascii_digit(c) {
            proof {
                assert(d[i - start] == c);
                assert(!all_digits(d));
            }
            return None;
        }
        let digit: u64 = ((c as u32) - ('0' as u32)) as u64;
        let ghost j = i - start;
        proof {
            assert(d.take(j + 1).drop_last() =~= d.take(j));
            assert(d.take(j + 1).last() == c);
            assert(all_digits(d.take(j + 1)));
            lemma_digits_value_nonneg(d.take(j));
        }
        if v > 0xffff_ffff {
            v = 0x1_0000_0000;
        } else {
            let w = v * 10 + digit;
            v = if w > 0xffff_ffff { 0x1_0000_0000 } else { w };
        }
        i = i + 1;
    }
    proof { assert(d.take(d.len() as int) =~= d); }
    if v > 0xffff_ffff {
        None
    } else {
        Some(v as u32)
    }
}

/// A patch's lines as `str::lines` gives them: a `\r` before a `\n` dropped.
pub open spec fn patch_lines(p: Seq<char>) -> Seq<Seq<char>> {
    let ps = split_char(p, '\n');
    Seq::new(
        ps.len(),
        |k: int|
            if k + 1 < ps.len() {
                match strip_suffix(ps[k], seq!['\r']) {
                    Some(t) => t,
                    None => ps[k],
                }
            } else {
                ps[k]
            },
    )
}

/// The first field from `i` on that opens with `sign`, without it.
pub open spec fn side_field(fields: Seq<Seq<char>>, sign: char, i: int) -> Option<Seq<char>>
    decreases fields.len() - i,
{
    if i < 0 || i >= fields.len() {
        None
    } else {
        match strip_prefix(fields[i], seq![sign]) {
            Some(rest) => Some(rest),
            None => side_field(fields, sign, i + 1),
        }
    }
}

/// One side of a hunk header: `None` when it cannot be read, else the
/// inclusive range it covers, itself `None` for a side holding no line.
pub open spec fn side_spec(header: Seq<char>, sign: char) -> Option<Option<(u32, u32)>> {
    match side_field(split_ws(header), sign, 0) {
        None => None,
        Some(field) => {
            let first = match split_once(field, ',') {
                Some((a, b)) => a,
                None => field,
            };
            let count = match split_once(field, ',') {
                Some((a, b)) => b,
                None => seq!['1'],
            };
            match (parse_u32_spec(first), parse_u32_spec(count)) {
                (Some(f), Some(c)) => Some(
                    if c > 0 {
                        Some((f, if f + (c - 1) > u32::MAX { u32::MAX } else { (f + (c - 1)) as u32 }))
                    } else {
                        None
                    },
                ),
                _ => None,
            }
        },
    }
}

/// The hunks of the header lines from `i` on, or the first header that
/// cannot be read.
pub open spec fn hunks_from(lines: Seq<Seq<char>>, i: int) -> Result<Seq<Hunk>, Seq<char>>
    decreases lines.len() - i,
{
    if i < 0 || i >= lines.len() {
        Ok(Seq::empty())
    } else {
        match strip_prefix(lines[i], "@@ "@) {
            None => hunks_from(lines, i + 1),
            Some(header) => match (side_spec(header, '-'), side_spec(header, '+')) {
                (Some(b), Some(n)) => match hunks_from(lines, i + 1) {
                    Ok(rest) => Ok(seq![Hunk { base: b, new: n }] + rest),
                    Err(e) => Err(e),
                },
                _ => Err(lines[i]),
            },
        }
    }
}

/// The hunks of a patch, or the first header line that cannot be read.
pub open spec fn parse_patch_spec(patch: Seq<char>) -> Result<Seq<Hunk>, Seq<char>> {
    hunks_from(patch_lines(patch), 0)
}

/// The detail of an unreadable header.
pub open spec fn header_detail(line: Seq<char>) -> Seq<char> {
    "unreadable hunk header "@ + debug_quoted(line)
}

fn side_field_vec(fields: &Vec<String>, sign: char) -> (r: Option<Vec<char>>)
    ensures
        r.is_some() == side_field(strings_view(fields@), sign, 0).is_some(),
        r.is_some() ==> r.unwrap()@ == side_field(strings_view(fields@), sign, 0).unwrap(),
{
    let ghost fv = strings_view(fields@);
    let s = vec![sign];
    proof { assert(s@ =~= seq![sign]); }
    let mut i: usize = 0;
    while i < fields.len()
        invariant
            fv == strings_view(fields@),
            s@ == seq![sign],
            i <= fields@.len(),
            side_field(fv, sign, 0) == side_field(fv, sign, i as int),
        decreases fields@.len() - i,
    {
        let f = chars_of(fields[i].as_str());
        match strip_prefix_vec(&f, &s) {
            Some(rest) => {
                return Some(rest);
            },
            None => {},
        }
        i = i + 1;
    }
    None
}

fn side(header: &Vec<char>, sign: char) -> (r: Option<Option<(u32, u32)>>)
    ensures
        r == side_spec(header@, sign),
{
    let fields = split_ws_vec(header);
    let field = match side_field_vec(&fields, sign) {
        Some(f) => f,
        None => {
            return None;
        },
    };
    let (first, count) = match split_once_vec(&field, ',') {
        Some((a, b)) => (a, b),
        None => {
            let one = vec!['1'];
            proof { assert(one@ =~= seq!['1']); }
            (slice(&field, 0, field.len()), one)
        },
    };
    proof {
        if split_once(field@, ',').is_none() {
            assert(first@ =~= field@);
        }
    }
    let f = match parse_u32(&first) {
        Some(f) => f,
        None => {
            return None;
        },
    };
    let c = match parse_u32(&count) {
        Some(c) => c,
        None => {
            return None;
        },
    };
    if c > 0 {
        let last = if (c - 1) > u32::MAX - f { u32::MAX } else { f + (c - 1) };
        Some(Some((f, last)))
    } else {
        Some(None)
    }
}

impl FileChange {
    /// Read the hunks out of a unified diff: only `@@ ` header lines count, and
    /// a header that cannot be read is an error naming it.
    pub fn parse(patch: &str, command: &str) -> (r: Result<FileChange, DiffError>)
        ensures
            match r {
                Ok(fc) => parse_patch_spec(patch@) == Ok::<Seq<Hunk>, Seq<char>>(fc.hunks@) && fc.base.is_none(),
                Err(e) => match parse_patch_spec(patch@) {
                    Err(line) => e matches DiffError::Malformed { command: c, detail: d } && c@ == command@
                        && d@ == header_detail(line),
                    Ok(_) => false,
                },
            },
    {
        let text = chars_of(patch);
        let pieces = split_char_vec(&text, '\n');
        let ghost ps = chars_view(pieces@);
        let ghost lines = patch_lines(patch@);
        let prefix = chars_of("@@ ");
        let cr = vec!['\r'];
        proof { assert(cr@ =~= seq!['\r']); }
        let mut hunks: Vec<Hunk> = Vec::new();
        let mut k: usize = 0;
        while k < pieces.len()
            invariant
                ps == chars_view(pieces@),
                ps == split_char(patch@, '\n'),
                lines == patch_lines(patch@),
                prefix@ == "@@ "@,
                cr@ == seq!['\r'],
                k <= pieces@.len(),
                hunks_from(lines, 0) == match hunks_from(lines, k as int) {
                    Ok(rest) => Ok(hunks@ + rest),
                    Err(e) => Err::<Seq<Hunk>, Seq<char>>(e),
                },
            decreases pieces@.len() - k,
        {
            proof { assert(ps[k as int] == pieces@[k as int]@); }
            let line = if k + 1 < pieces.len() {
                match strip_suffix_vec(&pieces[k], &cr) {
                    Some(t) => t,
                    None => slice(&pieces[k], 0, pieces[k].len()),
                }
            } else {
                slice(&pieces[k], 0, pieces[k].len())
            };
            proof {
                if !(k + 1 < pieces@.len() && strip_suffix(ps[k as int], seq!['\r']).is_some()) {
                    assert(line@ =~= ps[k as int]);
                }
                assert(line@ == lines[k as int]);
            }
            match strip_prefix_vec(&line, &prefix) {
                None => {},
                Some(header) => {
                    let b = side(&header, '-');
                    let n = side(&header, '+');
                    match (b, n) {
                        (Some(b), Some(n)) => {
                            let ghost before = hunks@;
                            hunks.push(Hunk { base: b, new: n });
                            proof {
                                match hunks_from(lines, k + 1) {
                                    Ok(rest) => {
                                        assert(before + (seq![Hunk { base: b, new: n }] + rest) =~= hunks@ + rest);
                                    },
                                    Err(_) => {},
                                }
                            }
                        },
                        _ => {
                            let mut detail = "unreadable hunk header ".to_owned();
                            let l = to_string(&line);
                            let quoted = debug_str(l.as_str());
                            detail.append(quoted.as_str());
                            return Err(DiffError::Malformed { command: command.to_owned(), detail });
                        },
                    }
                },
            }
            k = k + 1;
        }
        proof { assert(hunks@ + Seq::<Hunk>::empty() =~= hunks@); }
        Ok(FileChange { hunks, base: None })
    }
}

// ---------------------------------------------------------------------------
// The `--raw` change list.

/// The text of bytes that are valid UTF-8, or `None` when they are not.
pub open spec fn utf8_text(b: Seq<u8>) -> Option<Seq<char>> {
    if vstd::utf8::valid_utf8(b) {
        Some(vstd::utf8::decode_utf8(b))
    } else {
        None
    }
}

/// The text of bytes with each invalid sequence replaced by U+FFFD.
pub uninterp spec fn utf8_lossy(b: Seq<u8>) -> Seq<char>;

/// `String::from_utf8`: the text the bytes encode, when they are valid UTF-8,
/// and nothing otherwise.
#[verifier::external_body]
pub(crate) fn decode(b: Vec<u8>) -> (r: Option<String>)
    ensures
        match r {
            Some(s) => utf8_text(b@) == Some(s@),
            None => utf8_text(b@).is_none(),
        },
{
    String::from_utf8(b).ok()
}

/// `String::from_utf8_lossy`: the text of the bytes, each invalid sequence
/// replaced by U+FFFD; bytes that are valid UTF-8 decode exactly.
#[verifier::external_body]
pub(crate) fn decode_lossy(b: &[u8]) -> (r: String)
    ensures
        r@ == utf8_lossy(b@),
        utf8_text(b@) matches Some(t) ==> r@ == t,
{
    String::from_utf8_lossy(b).into_owned()
}

/// The bytes `s[a..b]`, if there are any.
pub open spec fn field(s: Seq<u8>, a: int, b: int) -> Seq<Seq<u8>> {
    if a < b { seq![s.subrange(a, b)] } else { Seq::empty() }
}

/// The non-empty NUL-separated fields of `s[start..]`, scanning from `i`.
pub open spec fn fields_from(s: Seq<u8>, i: int, start: int) -> Seq<Seq<u8>>
    decreases s.len() - i,
{
    if i < 0 || i >= s.len() {
        field(s, start, s.len() as int)
    } else if s[i] == 0 {
        field(s, start, i) + fields_from(s, i + 1, i + 1)
    } else {
        fields_from(s, i + 1, start)
    }
}

/// How many paths a `--raw` record carries after its info field.
#[derive(Debug, Clone, Copy, PartialEq, Eq, Structural)]
pub enum StatusKind {
    /// The status applies to the one path that follows it.
    OnePath,
    /// A rename or copy: a source path, then a destination path.
    Paired,
}

/// How many paths a status introduces: `R`/`C` with a digit score two, `A`,
/// `D`, `M`, `T`, `U` alone one; `None` for a status this build does not know.
pub open spec fn status_kind_spec(status: Seq<char>) -> Option<StatusKind> {
    if status.len() == 0 {
        None
    } else {
        let letter = status[0];
        let score = status.drop_first();
        if (letter == 'R' || letter == 'C') && all_digits(score) {
            Some(StatusKind::Paired)
        } else if (letter == 'A' || letter == 'D' || letter == 'M' || letter == 'T' || letter == 'U') && score.len()
            == 0 {
            Some(StatusKind::OnePath)
        } else {
            None
        }
    }
}

/// The source object id and the status of one `--raw` info field
/// (`:<src-mode> <dst-mode> <src-oid> <dst-oid> <status>`), or `None` when it
/// is not one. The id is `None` for the all-zero one.
pub open spec fn raw_info_spec(info: Seq<char>) -> Option<(Option<Seq<char>>, Seq<char>)> {
    match strip_prefix(info, seq![':']) {
        None => None,
        Some(rest) => {
            let f = split_ws(rest);
            if f.len() != 5 {
                None
            } else if blob_spec(f[2]).is_none() && !all_zero(f[2]) {
                None
            } else {
                Some((blob_spec(f[2]), f[4]))
            }
        },
    }
}

/// The record whose info field is field `i`: the file it names, or the
/// undecodable path it holds, and the field after it; or the detail of why
/// it cannot be read.
pub open spec fn raw_record(fs: Seq<Seq<u8>>, i: int) -> Result<(Seq<ChangedFileView>, Seq<Seq<char>>, int), Seq<char>> {
    let info = utf8_lossy(fs[i]);
    match raw_info_spec(info) {
        None => Err("unreadable record "@ + debug_quoted(info)),
        Some((blob, status)) => match status_kind_spec(status) {
            None => Err("unknown status "@ + debug_quoted(status)),
            Some(kind) => {
                let need: int = if kind == StatusKind::OnePath { 1 } else { 2 };
                if i + need >= fs.len() {
                    Err("record "@ + debug_quoted(info) + " names no path"@)
                } else {
                    let path = if kind == StatusKind::OnePath { fs[i + 1] } else { fs[i + 2] };
                    match utf8_text(path) {
                        None => Ok((Seq::empty(), seq![utf8_lossy(path)], i + 1 + need)),
                        Some(p) => if kind == StatusKind::OnePath {
                            Ok((seq![ChangedFileView { path: p, renamed_from: None, base_blob: blob }], Seq::empty(), i + 2))
                        } else {
                            match utf8_text(fs[i + 1]) {
                                Some(src) => Ok(
                                    (
                                        seq![ChangedFileView { path: p, renamed_from: Some(src), base_blob: blob }],
                                        Seq::empty(),
                                        i + 3,
                                    ),
                                ),
                                None => Ok((Seq::empty(), seq![utf8_lossy(fs[i + 1])], i + 3)),
                            }
                        },
                    }
                }
            },
        },
    }
}

/// The files and undecodable paths of the records from field `i` on, or the
/// detail of the first record that cannot be read.
pub open spec fn raw_from(fs: Seq<Seq<u8>>, i: int) -> Result<(Seq<ChangedFileView>, Seq<Seq<char>>), Seq<char>>
    decreases fs.len() - i,
{
    if i < 0 || i >= fs.len() {
        Ok((Seq::empty(), Seq::empty()))
    } else {
        match raw_record(fs, i) {
            Err(e) => Err(e),
            Ok((files, undecodable, next)) => if next <= i || next > fs.len() {
                Err(Seq::empty())
            } else {
                match raw_from(fs, next) {
                    Ok((f, u)) => Ok((files + f, undecodable + u)),
                    Err(e) => Err(e),
                }
            },
        }
    }
}

/// What a `git diff --raw -z` output says: its files and undecodable paths,
/// or the detail of the first record that cannot be read.
pub open spec fn parse_raw_spec(output: Seq<u8>) -> Result<(Seq<ChangedFileView>, Seq<Seq<char>>), Seq<char>> {
    raw_from(fields_from(output, 0, 0), 0)
}

fn nul_fields(s: &Vec<u8>) -> (r: Vec<Vec<u8>>)
    ensures
        r@.map_values(|f: Vec<u8>| f@) == fields_from(s@, 0, 0),
{
    let mut out: Vec<Vec<u8>> = Vec::new();
    let mut start: usize = 0;
    let mut i: usize = 0;
    while i < s.len()
        invariant
            start <= i <= s@.len(),
            fields_from(s@, 0, 0) == out@.map_values(|f: Vec<u8>| f@) + fields_from(s@, i as int, start as int),
        decreases s@.len() - i,
    {
        if s[i] == 0 {
            let ghost before = out@.map_values(|f: Vec<u8>| f@);
            if start < i {
                let mut piece: Vec<u8> = Vec::new();
                let mut k = start;
                while k < i
                    invariant
                        start <= k <= i,
                        i < s@.len(),
                        piece@ == s@.subrange(start as int, k as int),
                    decreases i - k,
                {
                    piece.push(s[k]);
                    proof { assert(piece@ =~= s@.subrange(start as int, k + 1)); }
                    k = k + 1;
                }
                out.push(piece);
            }
            proof { assert(out@.map_values(|f: Vec<u8>| f@) =~= before + field(s@, start as int, i as int)); }
            i = i + 1;
            start = i;
            proof {
                assert(fields_from(s@, 0, 0) =~= out@.map_values(|f: Vec<u8>| f@) + fields_from(s@, i as int, start as int));
            }
        } else {
            i = i + 1;
        }
    }
    let ghost before = out@.map_values(|f: Vec<u8>| f@);
    if start < s.len() {
        let mut piece: Vec<u8> = Vec::new();
        let mut k = start;
        while k < s.len()
            invariant
                start <= k <= s@.len(),
                piece@ == s@.subrange(start as int, k as int),
            decreases s@.len() - k,
        {
            piece.push(s[k]);
            proof { assert(piece@ =~= s@.subrange(start as int, k + 1)); }
            k = k + 1;
        }
        out.push(piece);
    }
    proof { assert(out@.map_values(|f: Vec<u8>| f@) =~= before + field(s@, start as int, s@.len() as int)); }
    out
}

fn status_kind(status: &Vec<char>) -> (r: Option<StatusKind>)
    ensures
        r == status_kind_spec(status@),
{
    if status.len() == 0 {
        return None;
    }
    let letter = status[0];
    let score = slice(status, 1, status.len());
    proof { assert(score@ =~= status@.drop_first()); }
    if letter == 'R' || letter == 'C' {
        let mut i: usize = 0;
        while i < score.len()
            invariant
                i <= score@.len(),
                score@ == status@.drop_first(),
                status@.len() > 0,
                status@[0] == letter,
                letter == 'R' || letter == 'C',
                forall|k: int| 0 <= k < i ==> is_ascii_digit(#[trigger] score@[k]),
            decreases score@.len() - i,
        {
            if !ascii_digit(score[i]) {
                proof { assert(!is_ascii_digit(score@[i as int])); }
                return None;
            }
            i = i + 1;
        }
        Some(StatusKind::Paired)
    } else if (letter == 'A' || letter == 'D' || letter == 'M' || letter == 'T' || letter == 'U') && score.len() == 0 {
        Some(StatusKind::OnePath)
    } else {
        None
    }
}

fn raw_info(info: &Vec<char>) -> (r: Option<(Option<BlobId>, Vec<char>)>)
    ensures
        match (r, raw_info_spec(info@)) {
            (Some((b, st)), Some((bv, sv))) => st@ == sv && match (b, bv) {
                (Some(x), Some(y)) => x@ == y,
                (None, None) => true,
                _ => false,
            },
            (None, None) => true,
            _ => false,
        },
{
    let colon = vec![':'];
    proof { assert(colon@ =~= seq![':']); }
    let rest = match strip_prefix_vec(info, &colon) {
        Some(r) => r,
        None => {
            return None;
        },
    };
    let f = split_ws_vec(&rest);
    let ghost fv = strings_view(f@);
    if f.len() != 5 {
        return None;
    }
    proof {
        assert(fv[2] == f@[2]@);
        assert(fv[4] == f@[4]@);
    }
    let blob = BlobId::parse(f[2].as_str());
    let oid = chars_of(f[2].as_str());
    if blob.is_none() && !all_zero_exec(&oid) {
        return None;
    }
    Some((blob, chars_of(f[4].as_str())))
}

fn copy_bytes(v: &Vec<u8>) -> (r: Vec<u8>)
    ensures
        r@ == v@,
{
    let mut r: Vec<u8> = Vec::new();
    let mut k: usize = 0;
    while k < v.len()
        invariant
            k <= v@.len(),
            r@ == v@.take(k as int),
        decreases v@.len() - k,
    {
        r.push(v[k]);
        proof { assert(r@ =~= v@.take(k + 1)); }
        k = k + 1;
    }
    proof { assert(v@.take(v@.len() as int) =~= v@); }
    r
}

fn malformed(command: &str, detail: String) -> (e: DiffError)
    ensures
        e matches DiffError::Malformed { command: c, detail: d } && c@ == command@ && d@ == detail@,
{
    DiffError::Malformed { command: command.to_owned(), detail }
}

/// The record whose info field is field `i`.
fn record_at(fs: &Vec<Vec<u8>>, i: usize, command: &str) -> (r: Result<(Vec<ChangedFile>, Vec<String>, usize), DiffError>)
    requires
        i < fs@.len(),
    ensures
        match (r, raw_record(fs@.map_values(|f: Vec<u8>| f@), i as int)) {
            (Ok((f, u, next)), Ok((fv, uv, nv))) => f@.map_values(|x: ChangedFile| x@) == fv && strings_view(u@) == uv
                && next as int == nv,
            (Err(e), Err(detail)) => e matches DiffError::Malformed { command: c, detail: d } && c@ == command@ && d@
                == detail,
            _ => false,
        },
{
    let ghost fv = fs@.map_values(|f: Vec<u8>| f@);
    proof { assert(fv[i as int] == fs@[i as int]@); }
    let info = decode_lossy(fs[i].as_slice());
    let iv = chars_of(info.as_str());
    let (blob, status) = match raw_info(&iv) {
        Some(x) => x,
        None => {
            let mut detail = "unreadable record ".to_owned();
            let q = debug_str(info.as_str());
            detail.append(q.as_str());
            return Err(malformed(command, detail));
        },
    };
    let kind = match status_kind(&status) {
        Some(k) => k,
        None => {
            let mut detail = "unknown status ".to_owned();
            let st = to_string(&status);
            let q = debug_str(st.as_str());
            detail.append(q.as_str());
            return Err(malformed(command, detail));
        },
    };
    let need: usize = if kind == StatusKind::OnePath { 1 } else { 2 };
    if need >= fs.len() - i {
        let mut detail = "record ".to_owned();
        let q = debug_str(info.as_str());
        detail.append(q.as_str());
        detail.append(" names no path");
        return Err(malformed(command, detail));
    }
    let pi: usize = if kind == StatusKind::OnePath { i + 1 } else { i + 2 };
    proof {
        assert(fv[pi as int] == fs@[pi as int]@);
        assert(fv[i + 1] == fs@[i + 1]@);
    }
    let mut files: Vec<ChangedFile> = Vec::new();
    let mut undecodable: Vec<String> = Vec::new();
    match decode(copy_bytes(&fs[pi])) {
        None => {
            let lossy = decode_lossy(fs[pi].as_slice());
            undecodable.push(lossy);
            proof {
                assert(files@.map_values(|x: ChangedFile| x@) =~= Seq::<ChangedFileView>::empty());
                assert(strings_view(undecodable@) =~= seq![utf8_lossy(fv[pi as int])]);
            }
        },
        Some(p) => {
            if kind == StatusKind::OnePath {
                let cf = ChangedFile { path: p, renamed_from: None, base_blob: blob };
                files.push(cf);
                proof {
                    assert(files@.map_values(|x: ChangedFile| x@) =~= seq![cf@]);
                    assert(strings_view(undecodable@) =~= Seq::<Seq<char>>::empty());
                }
            } else {
                match decode(copy_bytes(&fs[i + 1])) {
                    Some(src) => {
                        let cf = ChangedFile { path: p, renamed_from: Some(src), base_blob: blob };
                        files.push(cf);
                        proof {
                            assert(files@.map_values(|x: ChangedFile| x@) =~= seq![cf@]);
                            assert(strings_view(undecodable@) =~= Seq::<Seq<char>>::empty());
                        }
                    },
                    None => {
                        let lossy = decode_lossy(fs[i + 1].as_slice());
                        undecodable.push(lossy);
                        proof {
                            assert(files@.map_values(|x: ChangedFile| x@) =~= Seq::<ChangedFileView>::empty());
                            assert(strings_view(undecodable@) =~= seq![utf8_lossy(fv[i + 1])]);
                        }
                    },
                }
            }
        },
    }
    Ok((files, undecodable, i + 1 + need))
}

/// Read `git diff --raw -z` output: NUL-separated records, each an info field
/// then its path, or source and destination paths for a rename or copy.
///
/// A path that is not valid UTF-8 is set aside, as its lossy spelling, rather
/// than decoded into a name that points at nothing; a record cut short or one
/// this build cannot read is an error naming it.
pub fn parse_raw(output: &Vec<u8>, command: &str) -> (r: Result<Changed, DiffError>)
    ensures
        match r {
            Ok(c) => parse_raw_spec(output@) == Ok::<(Seq<ChangedFileView>, Seq<Seq<char>>), Seq<char>>(
                (c.files@.map_values(|f: ChangedFile| f@), strings_view(c.undecodable@)),
            ),
            Err(e) => match parse_raw_spec(output@) {
                Err(detail) => e matches DiffError::Malformed { command: c, detail: d } && c@ == command@ && d@
                    == detail,
                Ok(_) => false,
            },
        },
{
    let fs = nul_fields(output);
    let ghost fv = fs@.map_values(|f: Vec<u8>| f@);
    let mut files: Vec<ChangedFile> = Vec::new();
    let mut undecodable: Vec<String> = Vec::new();
    proof {
        assert(files@.map_values(|f: ChangedFile| f@) =~= Seq::<ChangedFileView>::empty());
        assert(strings_view(undecodable@) =~= Seq::<Seq<char>>::empty());
        match raw_from(fv, 0) {
            Ok((f, u)) => {
                assert(Seq::<ChangedFileView>::empty() + f =~= f);
                assert(Seq::<Seq<char>>::empty() + u =~= u);
            },
            Err(_) => {},
        }
    }
    let mut i: usize = 0;
    while i < fs.len()
        invariant
            fv == fs@.map_values(|f: Vec<u8>| f@),
            fv == fields_from(output@, 0, 0),
            i <= fs@.len(),
            raw_from(fv, 0) == match raw_from(fv, i as int) {
                Ok((f, u)) => Ok((files@.map_values(|f: ChangedFile| f@) + f, strings_view(undecodable@) + u)),
                Err(e) => Err::<(Seq<ChangedFileView>, Seq<Seq<char>>), Seq<char>>(e),
            },
        decreases fs@.len() - i,
    {
        match record_at(&fs, i, command) {
            Err(e) => {
                return Err(e);
            },
            Ok((mut f, mut u, next)) => {
                let ghost f0 = files@.map_values(|f: ChangedFile| f@);
                let ghost u0 = strings_view(undecodable@);
                let ghost fr = f@.map_values(|x: ChangedFile| x@);
                let ghost ur = strings_view(u@);
                files.append(&mut f);
                undecodable.append(&mut u);
                proof {
                    assert(files@.map_values(|f: ChangedFile| f@) =~= f0 + fr);
                    assert(strings_view(undecodable@) =~= u0 + ur);
                    match raw_from(fv, next as int) {
                        Ok((f2, u2)) => {
                            assert(f0 + (fr + f2) =~= (f0 + fr) + f2);
                            assert(u0 + (ur + u2) =~= (u0 + ur) + u2);
                        },
                        Err(_) => {},
                    }
                }
                i = next;
            },
        }
    }
    proof {
        assert(files@.map_values(|f: ChangedFile| f@) + Seq::<ChangedFileView>::empty() =~= files@.map_values(|f: ChangedFile| f@));
        assert(strings_view(undecodable@) + Seq::<Seq<char>>::empty() =~= strings_view(undecodable@));
    }
    Ok(Changed { files, undecodable })
}

// ---------------------------------------------------------------------------
// Selecting paths.

/// The parts a relative path keeps after `.` and empty pieces are dropped and
/// each `..` takes back the part before it; `None` when a `..` climbs above
/// the start.
pub open spec fn rel_parts(pieces: Seq<Seq<char>>, j: int) -> Option<Seq<Seq<char>>>
    decreases j,
{
    if j <= 0 || j > pieces.len() {
        Some(Seq::empty())
    } else {
        match rel_parts(pieces, j - 1) {
            None => None,
            Some(parts) => {
                let p = pieces[j - 1];
                if p.len() == 0 || p == seq!['.'] {
                    Some(parts)
                } else if p == seq!['.', '.'] {
                    if parts.len() == 0 { None } else { Some(parts.drop_last()) }
                } else {
                    Some(parts.push(p))
                }
            },
        }
    }
}

pub proof fn lemma_rel_none(pieces: Seq<Seq<char>>, j: int, k: int)
    requires
        0 <= j <= k <= pieces.len(),
        rel_parts(pieces, j).is_none(),
    ensures
        rel_parts(pieces, k).is_none(),
    decreases k - j,
{
    if j < k {
        lemma_rel_none(pieces, j, k - 1);
    }
}

/// Parts joined with `/`.
pub open spec fn join_slash(parts: Seq<Seq<char>>) -> Seq<char>
    decreases parts.len(),
{
    if parts.len() == 0 {
        Seq::empty()
    } else if parts.len() == 1 {
        parts[0]
    } else {
        join_slash(parts.drop_last()) + seq!['/'] + parts.last()
    }
}

/// A relative path's `/`-separated form, or `None` for an absolute path or
/// one that climbs above where it starts. The empty text is the starting
/// directory itself.
pub open spec fn relative_prefix_spec(path: Seq<char>) -> Option<Seq<char>> {
    if path.len() > 0 && path[0] == '/' {
        None
    } else {
        let pieces = split_char(path, '/');
        match rel_parts(pieces, pieces.len() as int) {
            Some(parts) => Some(crate::source::display_path_spec(join_slash(parts))),
            None => None,
        }
    }
}

/// The current directory, `.`, selects every path: a run told no paths
/// narrows a change to nothing less than all of it.
pub proof fn law_dot_selects_everything(candidate: Seq<char>)
    ensures
        selects_spec(seq!['.'], candidate),
{
    let dot = seq!['.'];
    assert(crate::text::split_from(dot, '/', 1, 0) == seq![dot.subrange(0, 1)]);
    assert(dot.subrange(0, 1) =~= dot);
    assert(split_char(dot, '/') == crate::text::split_from(dot, '/', 0, 0));
    assert(crate::text::split_from(dot, '/', 0, 0) == crate::text::split_from(dot, '/', 1, 0));
    let pieces = split_char(dot, '/');
    assert(pieces =~= seq![dot]);
    assert(rel_parts(pieces, 0) == Some(Seq::<Seq<char>>::empty()));
    assert(rel_parts(pieces, 1) == Some(Seq::<Seq<char>>::empty()));
    assert(join_slash(Seq::<Seq<char>>::empty()) == Seq::<char>::empty());
    let e = Seq::<char>::empty();
    assert(e.map_values(|c: char| if c == '\\' { '/' } else { c }) =~= e);
    assert(crate::source::display_path_spec(e).len() == 0);
}

/// Whether `selector` names `candidate` or a directory holding it.
pub open spec fn selects_spec(selector: Seq<char>, candidate: Seq<char>) -> bool {
    match relative_prefix_spec(selector) {
        None => false,
        Some(prefix) => {
            let c = crate::source::display_path_spec(candidate);
            prefix.len() == 0 || c == prefix || match strip_prefix(c, prefix) {
                Some(rest) => rest.len() > 0 && rest[0] == '/',
                None => false,
            }
        },
    }
}

fn relative_prefix(path: &str) -> (r: Option<String>)
    ensures
        match r {
            Some(s) => relative_prefix_spec(path@) == Some(s@),
            None => relative_prefix_spec(path@).is_none(),
        },
{
    let v = chars_of(path);
    if v.len() > 0 && v[0] == '/' {
        return None;
    }
    let pieces = split_char_vec(&v, '/');
    let ghost pv = chars_view(pieces@);
    let mut parts: Vec<Vec<char>> = Vec::new();
    let mut j: usize = 0;
    while j < pieces.len()
        invariant
            pv == chars_view(pieces@),
            pv == split_char(path@, '/'),
            j <= pieces@.len(),
            rel_parts(pv, j as int) == Some(chars_view(parts@)),
        decreases pieces@.len() - j,
    {
        proof { assert(pv[j as int] == pieces@[j as int]@); }
        let p = &pieces[j];
        let dot = vec!['.'];
        let dots = vec!['.', '.'];
        proof {
            assert(dot@ =~= seq!['.']);
            assert(dots@ =~= seq!['.', '.']);
        }
        let ghost before = chars_view(parts@);
        if p.len() == 0 || crate::text::eq_vec(p, &dot) {
        } else if crate::text::eq_vec(p, &dots) {
            if parts.len() == 0 {
                proof {
                    assert(rel_parts(pv, j + 1).is_none());
                    lemma_rel_none(pv, j + 1, pv.len() as int);
                }
                return None;
            }
            parts.pop();
            proof { assert(chars_view(parts@) =~= before.drop_last()); }
        } else {
            let q = slice(p, 0, p.len());
            proof { assert(q@ =~= p@); }
            parts.push(q);
            proof { assert(chars_view(parts@) =~= before.push(p@)); }
        }
        j = j + 1;
    }
    let ghost partv = chars_view(parts@);
    let mut joined = String::new();
    let mut k: usize = 0;
    proof { assert(partv.take(0) =~= Seq::<Seq<char>>::empty()); }
    while k < parts.len()
        invariant
            partv == chars_view(parts@),
            k <= parts@.len(),
            joined@ == join_slash(partv.take(k as int)),
        decreases parts@.len() - k,
    {
        proof { assert(partv[k as int] == parts@[k as int]@); }
        let ghost before = joined@;
        if k > 0 {
            push_char(&mut joined, '/');
        }
        let piece = to_string(&parts[k]);
        joined.append(piece.as_str());
        proof {
            assert(partv.take(k + 1).drop_last() =~= partv.take(k as int));
            if k > 0 {
                assert(joined@ =~= before + seq!['/'] + partv[k as int]);
            } else {
                assert(joined@ =~= partv[0]);
            }
        }
        k = k + 1;
    }
    proof { assert(partv.take(partv.len() as int) =~= partv); }
    Some(crate::source::display_path(joined.as_str()))
}

/// The named parts of a path's first `j` `/`-separated pieces: empty pieces
/// and `.` name nothing.
pub open spec fn named_parts(pieces: Seq<Seq<char>>, j: int) -> Seq<Seq<char>>
    decreases j,
{
    if j <= 0 || j > pieces.len() {
        Seq::empty()
    } else {
        let prev = named_parts(pieces, j - 1);
        let p = pieces[j - 1];
        if p.len() == 0 || p == seq!['.'] {
            prev
        } else {
            prev.push(p)
        }
    }
}

/// The named parts of a path.
pub open spec fn components(p: Seq<char>) -> Seq<Seq<char>> {
    named_parts(split_char(p, '/'), split_char(p, '/').len() as int)
}

/// Whether a path is absolute.
pub open spec fn is_absolute(p: Seq<char>) -> bool {
    p.len() > 0 && p[0] == '/'
}

/// A selector as the diff reads it, given the absolute directory `cwd` the run
/// was started in: an absolute selector under `cwd` becomes the rest of its
/// path below it; any other selector stays as written (and an absolute one
/// outside `cwd` then selects nothing).
pub open spec fn selector_spec(selector: Seq<char>, cwd: Seq<char>) -> Seq<char> {
    let s = components(selector);
    let c = components(cwd);
    if is_absolute(selector) && is_absolute(cwd) && c.len() <= s.len() && s.take(c.len() as int) == c {
        join_slash(s.skip(c.len() as int))
    } else {
        selector
    }
}

fn components_exec(p: &str) -> (r: Vec<Vec<char>>)
    ensures
        chars_view(r@) == components(p@),
{
    let v = chars_of(p);
    let pieces = split_char_vec(&v, '/');
    let ghost pv = chars_view(pieces@);
    let mut parts: Vec<Vec<char>> = Vec::new();
    let mut j: usize = 0;
    proof { assert(chars_view(parts@) =~= Seq::<Seq<char>>::empty()); }
    while j < pieces.len()
        invariant
            pv == chars_view(pieces@),
            pv == split_char(p@, '/'),
            j <= pieces@.len(),
            chars_view(parts@) == named_parts(pv, j as int),
        decreases pieces@.len() - j,
    {
        proof { assert(pv[j as int] == pieces@[j as int]@); }
        let piece = &pieces[j];
        let dot = vec!['.'];
        proof { assert(dot@ =~= seq!['.']); }
        if !(piece.len() == 0 || crate::text::eq_vec(piece, &dot)) {
            let ghost before = chars_view(parts@);
            parts.push(slice(piece, 0, piece.len()));
            proof {
                assert(piece@.subrange(0, piece@.len() as int) =~= piece@);
                assert(chars_view(parts@) =~= before.push(pv[j as int]));
            }
        }
        j = j + 1;
    }
    parts
}

fn join_parts(parts: &Vec<Vec<char>>, from: usize) -> (r: String)
    requires
        from <= parts@.len(),
    ensures
        r@ == join_slash(chars_view(parts@).skip(from as int)),
{
    let ghost all = chars_view(parts@).skip(from as int);
    let mut r = String::new();
    let mut k: usize = from;
    proof { assert(all.take(0) =~= Seq::<Seq<char>>::empty()); }
    while k < parts.len()
        invariant
            from <= k <= parts@.len(),
            all == chars_view(parts@).skip(from as int),
            r@ == join_slash(all.take(k - from)),
        decreases parts@.len() - k,
    {
        let ghost before = r@;
        if k > from {
            push_char(&mut r, '/');
        }
        r.append(to_string(&parts[k]).as_str());
        proof {
            assert(all[k - from] == parts@[k as int]@);
            assert(all.take(k - from + 1).drop_last() =~= all.take(k - from));
            if k == from {
                assert(r@ =~= all.take(1)[0]);
            } else {
                assert(r@ =~= before + seq!['/'] + all[k - from]);
            }
        }
        k = k + 1;
    }
    proof { assert(all.take(parts@.len() - from) =~= all); }
    r
}

/// The selector the diff reads for `selector`, given the absolute directory
/// `cwd` the run was started in: an absolute path under `cwd` is taken
/// relative to it, so it selects what its relative spelling would.
pub fn relative_selector(selector: &str, cwd: &str) -> (r: String)
    ensures
        r@ == selector_spec(selector@, cwd@),
{
    let sv = chars_of(selector);
    let cv = chars_of(cwd);
    if !(sv.len() > 0 && sv[0] == '/' && cv.len() > 0 && cv[0] == '/') {
        return selector.to_owned();
    }
    let s = components_exec(selector);
    let c = components_exec(cwd);
    let ghost sc = chars_view(s@);
    let ghost cc = chars_view(c@);
    if c.len() > s.len() {
        return selector.to_owned();
    }
    let mut k: usize = 0;
    while k < c.len()
        invariant
            sc == chars_view(s@),
            cc == chars_view(c@),
            sc == components(selector@),
            cc == components(cwd@),
            is_absolute(selector@),
            is_absolute(cwd@),
            c@.len() <= s@.len(),
            k <= c@.len(),
            forall|x: int| 0 <= x < k ==> #[trigger] sc[x] == cc[x],
        decreases c@.len() - k,
    {
        proof {
            assert(sc[k as int] == s@[k as int]@);
            assert(cc[k as int] == c@[k as int]@);
        }
        if !crate::text::eq_vec(&s[k], &c[k]) {
            proof {
                assert(sc[k as int] != cc[k as int]);
                assert(sc.take(cc.len() as int)[k as int] == sc[k as int]);
                assert(sc.take(cc.len() as int) != cc);
            }
            return selector.to_owned();
        }
        k = k + 1;
    }
    proof { assert(sc.take(cc.len() as int) =~= cc); }
    join_parts(&s, c.len())
}

/// Whether `selector` names `candidate` or a directory holding it: both
/// read relative to the directory the diff was taken in, so an absolute
/// selector or one that climbs out of it selects nothing.
pub fn path_selects(selector: &str, candidate: &str) -> (b: bool)
    ensures
        b == selects_spec(selector@, candidate@),
{
    let prefix = match relative_prefix(selector) {
        None => {
            return false;
        },
        Some(p) => p,
    };
    if prefix.as_str().is_empty() {
        return true;
    }
    let c = crate::source::display_path(candidate);
    if c == prefix {
        return true;
    }
    let cv = chars_of(c.as_str());
    let pv = chars_of(prefix.as_str());
    match strip_prefix_vec(&cv, &pv) {
        Some(rest) => rest.len() > 0 && rest[0] == '/',
        None => false,
    }
}

// ---------------------------------------------------------------------------
// The files a change touched, by path.

/// The change of the first entry whose path is `k`.
pub open spec fn lookup(e: Seq<(String, FileChange)>, k: Seq<char>) -> Option<FileChange>
    decreases e.len(),
{
    if e.len() == 0 {
        None
    } else if e[0].0@ == k {
        Some(e[0].1)
    } else {
        lookup(e.drop_first(), k)
    }
}

/// What a change did to each file it touched, by report path.
#[derive(Debug)]
pub struct ChangeSet {
    entries: Vec<(String, FileChange)>,
}

impl View for ChangeSet {
    type V = Map<Seq<char>, FileChange>;

    closed spec fn view(&self) -> Map<Seq<char>, FileChange> {
        Map::new(|k: Seq<char>| lookup(self.entries@, k).is_some(), |k: Seq<char>| lookup(self.entries@, k).unwrap())
    }
}

/// The index of the first entry whose path is `k`, if any.
pub open spec fn find_entry(e: Seq<(String, FileChange)>, k: Seq<char>, i: int) -> Option<int>
    decreases e.len() - i,
{
    if i < 0 || i >= e.len() {
        None
    } else if e[i].0@ == k {
        Some(i)
    } else {
        find_entry(e, k, i + 1)
    }
}

pub proof fn lemma_lookup_find(e: Seq<(String, FileChange)>, k: Seq<char>, i: int)
    requires
        0 <= i <= e.len(),
        forall|x: int| 0 <= x < i ==> e[x].0@ != k,
    ensures
        lookup(e, k) == match find_entry(e, k, i) {
            Some(x) => Some(e[x].1),
            None => None::<FileChange>,
        },
        find_entry(e, k, i) matches Some(x) ==> i <= x < e.len() && e[x].0@ == k && forall|y: int|
            0 <= y < x ==> e[y].0@ != k,
    decreases e.len() - i,
{
    if i < e.len() && e[i].0@ != k {
        lemma_lookup_find(e, k, i + 1);
    } else {
        lemma_lookup_first(e, k, i);
    }
}

proof fn lemma_lookup_first(e: Seq<(String, FileChange)>, k: Seq<char>, i: int)
    requires
        0 <= i <= e.len(),
        forall|x: int| 0 <= x < i ==> e[x].0@ != k,
    ensures
        lookup(e, k) == if i < e.len() && e[i].0@ == k { Some(e[i].1) } else if i == e.len() { None::<FileChange> } else { lookup(e, k) },
    decreases i,
{
    if i > 0 {
        assert(e[0].0@ != k);
        let t = e.drop_first();
        assert forall|x: int| 0 <= x < i - 1 implies t[x].0@ != k by {
            assert(t[x] == e[x + 1]);
        }
        lemma_lookup_first(t, k, i - 1);
        if i < e.len() {
            assert(t[i - 1] == e[i]);
        }
    }
}

impl ChangeSet {
    /// No file changed.
    pub fn new() -> (c: ChangeSet)
        ensures
            c@ == Map::<Seq<char>, FileChange>::empty(),
    {
        let c = ChangeSet { entries: Vec::new() };
        proof { assert(c@ =~= Map::<Seq<char>, FileChange>::empty()); }
        c
    }

    /// Record what the change did to the file at `path`, replacing what was
    /// recorded for it before.
    pub fn insert(&mut self, path: String, change: FileChange)
        ensures
            final(self)@ == old(self)@.insert(path@, change),
    {
        let ghost e0 = self.entries@;
        let mut i: usize = 0;
        while i < self.entries.len()
            invariant
                self.entries@ == e0,
                e0 == old(self).entries@,
                i <= e0.len(),
                forall|x: int| 0 <= x < i ==> e0[x].0@ != path@,
            decreases e0.len() - i,
        {
            if self.entries[i].0 == path {
                proof { lemma_lookup_find(e0, path@, 0); }
                let ghost k = path@;
                self.entries.set(i, (path, change));
                proof {
                    let e1 = self.entries@;
                    assert forall|q: Seq<char>| #![auto] lookup(e1, q) == if q == k { Some(change) } else { lookup(e0, q) } by {
                        lemma_lookup_find(e0, q, 0);
                        lemma_lookup_find(e1, q, 0);
                        if q != k {
                            assert(find_entry(e1, q, 0) == find_entry(e0, q, 0)) by {
                                lemma_find_same(e0, e1, q, i as int, 0);
                            }
                        } else {
                            lemma_find_at(e1, q, i as int, 0);
                        }
                    }
                    assert(self@ =~= old(self)@.insert(k, change));
                }
                return;
            }
            i = i + 1;
        }
        let ghost k = path@;
        self.entries.push((path, change));
        proof {
            let e1 = self.entries@;
            assert forall|q: Seq<char>| #![auto] lookup(e1, q) == if q == k { Some(change) } else { lookup(e0, q) } by {
                lemma_lookup_find(e0, q, 0);
                lemma_lookup_find(e1, q, 0);
                lemma_find_push(e0, e1, q, k, 0);
            }
            assert(self@ =~= old(self)@.insert(k, change));
        }
    }

    /// What the change did to the file at `path`, if it touched it.
    pub fn get(&self, path: &str) -> (r: Option<&FileChange>)
        ensures
            match r {
                Some(c) => self@.contains_key(path@) && self@[path@] == *c,
                None => !self@.contains_key(path@),
            },
    {
        let key = path.to_owned();
        let mut i: usize = 0;
        while i < self.entries.len()
            invariant
                key@ == path@,
                i <= self.entries@.len(),
                forall|x: int| 0 <= x < i ==> self.entries@[x].0@ != path@,
            decreases self.entries@.len() - i,
        {
            if self.entries[i].0 == key {
                proof {
                    lemma_lookup_find(self.entries@, path@, 0);
                    lemma_find_at(self.entries@, path@, i as int, 0);
                }
                return Some(&self.entries[i].1);
            }
            i = i + 1;
        }
        proof { lemma_lookup_find(self.entries@, path@, 0); lemma_find_none(self.entries@, path@, 0); }
        None
    }
}

proof fn lemma_find_at(e: Seq<(String, FileChange)>, k: Seq<char>, i: int, j: int)
    requires
        0 <= j <= i < e.len(),
        e[i].0@ == k,
        forall|x: int| 0 <= x < i ==> e[x].0@ != k,
    ensures
        find_entry(e, k, j) == Some(i),
    decreases i - j,
{
    if j < i {
        lemma_find_at(e, k, i, j + 1);
    }
}

proof fn lemma_find_none(e: Seq<(String, FileChange)>, k: Seq<char>, j: int)
    requires
        0 <= j <= e.len(),
        forall|x: int| 0 <= x < e.len() ==> e[x].0@ != k,
    ensures
        find_entry(e, k, j).is_none(),
    decreases e.len() - j,
{
    if j < e.len() {
        lemma_find_none(e, k, j + 1);
    }
}

proof fn lemma_find_same(e0: Seq<(String, FileChange)>, e1: Seq<(String, FileChange)>, q: Seq<char>, i: int, j: int)
    requires
        0 <= j <= e0.len(),
        e1.len() == e0.len(),
        0 <= i < e0.len(),
        e0[i].0@ != q,
        e1[i].0@ == e0[i].0@,
        forall|x: int| 0 <= x < e0.len() && x != i ==> e1[x] == e0[x],
    ensures
        find_entry(e1, q, j) == find_entry(e0, q, j),
    decreases e0.len() - j,
{
    if j < e0.len() {
        lemma_find_same(e0, e1, q, i, j + 1);
    }
}

proof fn lemma_find_push(e0: Seq<(String, FileChange)>, e1: Seq<(String, FileChange)>, q: Seq<char>, k: Seq<char>, j: int)
    requires
        0 <= j <= e0.len(),
        e1.len() == e0.len() + 1,
        forall|x: int| 0 <= x < e0.len() ==> e1[x] == e0[x],
        e1[e0.len() as int].0@ == k,
        forall|x: int| 0 <= x < e0.len() ==> e0[x].0@ != k,
    ensures
        find_entry(e1, q, j) == match find_entry(e0, q, j) {
            Some(x) => Some(x),
            None => if q == k { Some(e0.len() as int) } else { None::<int> },
        },
    decreases e0.len() + 1 - j,
{
    if j < e0.len() {
        lemma_find_push(e0, e1, q, k, j + 1);
    } else {
        assert(find_entry(e1, q, j + 1).is_none());
        assert(find_entry(e0, q, j).is_none());
    }
}

// ---------------------------------------------------------------------------
// Selecting directives.

/// Whether a directive is one the change introduced: a line it occupies is
/// one the change added.
pub open spec fn is_new(changes: Map<Seq<char>, FileChange>, d: DirectiveView) -> bool {
    changes.contains_key(d.path) && intersects_spec(changes[d.path].hunks@, d.line, d.end_line)
}

/// The directives the change introduced, in their order.
pub open spec fn new_only(ds: Seq<DirectiveView>, changes: Map<Seq<char>, FileChange>) -> Seq<DirectiveView> {
    ds.filter(|d: DirectiveView| is_new(changes, d))
}

/// Drop every directive the change did not introduce; errors stay.
pub fn retain_new(report: &mut Report, changes: &ChangeSet)
    ensures
        directives_view(final(report).ignores@) == directives_view(old(report).ignores@).filter(
            |d: DirectiveView| is_new(changes@, d),
        ),
        final(report).errors == old(report).errors,
        final(report).version == old(report).version,
{
    let ghost v = directives_view(report.ignores@);
    let ghost pred = |d: DirectiveView| is_new(changes@, d);
    let mut kept: Vec<IgnoreDirective> = Vec::new();
    proof { assert(v.take(0).filter(pred) =~= Seq::<DirectiveView>::empty()); }
    let mut i: usize = 0;
    while i < report.ignores.len()
        invariant
            v == directives_view(report.ignores@),
            pred == (|d: DirectiveView| is_new(changes@, d)),
            i <= v.len(),
            directives_view(kept@) == v.take(i as int).filter(pred),
        decreases v.len() - i,
    {
        let d = &report.ignores[i];
        proof {
            assert(v[i as int] == d@);
            assert(v.take(i + 1) =~= v.take(i as int).push(d@));
            v.take(i as int).lemma_filter_push(d@, pred);
        }
        let keep = match changes.get(d.path.as_str()) {
            Some(c) => c.intersects(d.line, d.end_line),
            None => false,
        };
        if keep {
            let ghost before = directives_view(kept@);
            let c = d.copy();
            kept.push(c);
            proof { assert(directives_view(kept@) =~= before.push(d@)); }
        }
        i = i + 1;
    }
    proof { assert(v.take(v.len() as int) =~= v); }
    report.ignores = kept;
}

// ---------------------------------------------------------------------------
// Labelling what was selected.

/// Each directive labelled with the verdict it gets among `ds`.
pub open spec fn classified(ds: Seq<DirectiveView>, changes: Map<Seq<char>, FileChange>, tools: Seq<Tool>) -> Seq<DirectiveView> {
    Seq::new(ds.len(), |x: int| labelled(ds[x], verdict_spec(ds, changes, tools, x)))
}

/// Classification labels and nothing else: every record keeps its place and
/// every field but its verdict, and every record gets a verdict.
pub proof fn law_classification_only_labels(
    ds: Seq<DirectiveView>,
    changes: Map<Seq<char>, FileChange>,
    tools: Seq<Tool>,
)
    ensures
        classified(ds, changes, tools).len() == ds.len(),
        forall|x: int|
            0 <= x < ds.len() ==> (#[trigger] classified(ds, changes, tools)[x]).change.is_some() && (DirectiveView {
                change: None,
                ..classified(ds, changes, tools)[x]
            }) == (DirectiveView { change: None, ..ds[x] }),
{
}

/// Where the pairing of one file's directives stands: which reported
/// directives found a counterpart, which base directives were taken, and
/// which reported ones rewrote only their reason.
pub struct PairState {
    pub paired: Seq<bool>,
    pub used: Seq<bool>,
    pub edited: Seq<bool>,
}

/// The first base directive from `o` on that is still free, of `head`'s
/// tool, and inside the hunk's base range.
pub open spec fn counterpart(prev: Seq<DirectiveView>, used: Seq<bool>, head: DirectiveView, range: (u32, u32), o: int) -> Option<int>
    decreases prev.len() - o,
{
    if o < 0 || o >= prev.len() {
        None
    } else if !used[o] && prev[o].tool == head.tool && overlaps_spec(range, prev[o].line, prev[o].end_line) {
        Some(o)
    } else {
        counterpart(prev, used, head, range, o + 1)
    }
}

/// Reported directive `s` paired, if it can be, within a hunk with these
/// ranges.
pub open spec fn pair_slot(st: PairState, heads: Seq<DirectiveView>, prev: Seq<DirectiveView>, base: (u32, u32), new: (u32, u32), s: int) -> PairState {
    if st.paired[s] || !overlaps_spec(new, heads[s].line, heads[s].end_line) {
        st
    } else {
        match counterpart(prev, st.used, heads[s], base, 0) {
            None => st,
            Some(o) => PairState {
                paired: st.paired.update(s, true),
                used: st.used.update(o, true),
                edited: if prev[o].rules == heads[s].rules && prev[o].scope == heads[s].scope && prev[o].reason
                    != heads[s].reason {
                    st.edited.update(s, true)
                } else {
                    st.edited
                },
            },
        }
    }
}

/// The first `j` reported directives paired within one hunk.
pub open spec fn pair_slots(st: PairState, heads: Seq<DirectiveView>, prev: Seq<DirectiveView>, base: (u32, u32), new: (u32, u32), j: int) -> PairState
    decreases j,
{
    if j <= 0 || j > heads.len() {
        st
    } else {
        pair_slot(pair_slots(st, heads, prev, base, new, j - 1), heads, prev, base, new, j - 1)
    }
}

/// The first `k` hunks paired, in file order; a hunk with a side holding no
/// line pairs nothing.
pub open spec fn pair_hunks(st: PairState, heads: Seq<DirectiveView>, prev: Seq<DirectiveView>, hunks: Seq<Hunk>, k: int) -> PairState
    decreases k,
{
    if k <= 0 || k > hunks.len() {
        st
    } else {
        let st0 = pair_hunks(st, heads, prev, hunks, k - 1);
        match (hunks[k - 1].base, hunks[k - 1].new) {
            (Some(b), Some(n)) => pair_slots(st0, heads, prev, b, n, heads.len() as int),
            _ => st0,
        }
    }
}

/// Which of one file's reported directives (in file order) rewrote only the
/// reason of a directive its pre-image held (in file order) in the same hunk.
pub open spec fn pair_spec(heads: Seq<DirectiveView>, prev: Seq<DirectiveView>, hunks: Seq<Hunk>) -> Seq<bool> {
    let init = PairState {
        paired: Seq::new(heads.len(), |i: int| false),
        used: Seq::new(prev.len(), |i: int| false),
        edited: Seq::new(heads.len(), |i: int| false),
    };
    pair_hunks(init, heads, prev, hunks, hunks.len() as int).edited
}

/// Hunk `h` reaches from reported directive `head` (on its new side) to base
/// directive `base_d` (on its base side).
pub open spec fn hunk_spans(h: Hunk, head: DirectiveView, base_d: DirectiveView) -> bool {
    match (h.base, h.new) {
        (Some(b), Some(n)) => overlaps_spec(n, head.line, head.end_line) && overlaps_spec(b, base_d.line, base_d.end_line),
        _ => false,
    }
}

/// Some hunk among the first `k` spans from `head` to `base_d`.
pub open spec fn some_hunk_spans(hunks: Seq<Hunk>, k: int, head: DirectiveView, base_d: DirectiveView) -> bool {
    exists|j: int| 0 <= j < k && #[trigger] hunk_spans(hunks[j], head, base_d)
}

proof fn lemma_pair_one(h: DirectiveView, p: DirectiveView, hunks: Seq<Hunk>, k: int)
    requires
        0 <= k <= hunks.len(),
    ensures
        ({
            let init = PairState {
                paired: Seq::new(1, |i: int| false),
                used: Seq::new(1, |i: int| false),
                edited: Seq::new(1, |i: int| false),
            };
            let st = pair_hunks(init, seq![h], seq![p], hunks, k);
            let linked = some_hunk_spans(hunks, k, h, p) && p.tool == h.tool;
            &&& st.paired.len() == 1
            &&& st.used.len() == 1
            &&& st.edited.len() == 1
            &&& st.paired[0] == linked
            &&& st.used[0] == linked
            &&& st.edited[0] == (linked && p.rules == h.rules && p.scope == h.scope && p.reason != h.reason)
        }),
    decreases k,
{
    let init = PairState {
        paired: Seq::new(1, |i: int| false),
        used: Seq::new(1, |i: int| false),
        edited: Seq::new(1, |i: int| false),
    };
    if k > 0 {
        lemma_pair_one(h, p, hunks, k - 1);
        let st0 = pair_hunks(init, seq![h], seq![p], hunks, k - 1);
        let hk = hunks[k - 1];
        if some_hunk_spans(hunks, k - 1, h, p) {
            let j = choose|j: int| 0 <= j < k - 1 && #[trigger] hunk_spans(hunks[j], h, p);
            assert(0 <= j < k && hunk_spans(hunks[j], h, p));
        }
        if hunk_spans(hk, h, p) {
            assert(0 <= k - 1 < k && hunk_spans(hunks[k - 1], h, p));
        }
        if some_hunk_spans(hunks, k, h, p) && !hunk_spans(hk, h, p) {
            let j = choose|j: int| 0 <= j < k && #[trigger] hunk_spans(hunks[j], h, p);
            assert(j != k - 1);
            assert(0 <= j < k - 1 && hunk_spans(hunks[j], h, p));
        }
        match (hk.base, hk.new) {
            (Some(b), Some(n)) => {
                let heads = seq![h];
                let prev = seq![p];
                assert(heads.len() == 1 && prev.len() == 1);
                assert(pair_slots(st0, heads, prev, b, n, 0) == st0);
                assert(pair_slots(st0, heads, prev, b, n, 1) == pair_slot(st0, heads, prev, b, n, 0));
                assert(counterpart(prev, st0.used, h, b, 1) == None::<int>);
            },
            _ => {},
        }
    } else {
        assert(!some_hunk_spans(hunks, 0, h, p));
    }
}

/// One reported directive against one base directive: the reported one is a
/// justification edit exactly when some hunk holds it on its new side and the
/// base one on its base side (the `-` side, where a counterpart is looked
/// for), both are of one tool, silence the same rules over the same scope,
/// and state different reasons.
pub proof fn law_a_counterpart_is_found_on_the_base_side(h: DirectiveView, p: DirectiveView, hunks: Seq<Hunk>)
    ensures
        pair_spec(seq![h], seq![p], hunks).len() == 1,
        pair_spec(seq![h], seq![p], hunks)[0] == ((exists|j: int|
            0 <= j < hunks.len() && #[trigger] hunk_spans(hunks[j], h, p)) && p.tool == h.tool && p.rules == h.rules
            && p.scope == h.scope && p.reason != h.reason),
{
    lemma_pair_one(h, p, hunks, hunks.len() as int);
    let init = PairState {
        paired: Seq::new(1, |i: int| false),
        used: Seq::new(1, |i: int| false),
        edited: Seq::new(1, |i: int| false),
    };
    assert(seq![h].len() == 1 && seq![p].len() == 1);
    assert(pair_spec(seq![h], seq![p], hunks) == pair_hunks(init, seq![h], seq![p], hunks, hunks.len() as int).edited);
}

/// Reported directive `head` and base directive `base_d` are the two sides of
/// one reworded justification across hunk `h`.
pub open spec fn rewords_across(h: Hunk, head: DirectiveView, base_d: DirectiveView) -> bool {
    &&& hunk_spans(h, head, base_d)
    &&& base_d.tool == head.tool
    &&& base_d.rules == head.rules
    &&& base_d.scope == head.scope
    &&& base_d.reason != head.reason
}

/// Some hunk among the first `k` and some base directive make reported
/// directive `head` a reworded justification.
pub open spec fn has_reworded_original(hunks: Seq<Hunk>, k: int, prev: Seq<DirectiveView>, head: DirectiveView) -> bool {
    exists|j: int, o: int| 0 <= j < k && 0 <= o < prev.len() && #[trigger] rewords_across(hunks[j], head, prev[o])
}

proof fn lemma_counterpart_found(prev: Seq<DirectiveView>, used: Seq<bool>, head: DirectiveView, range: (u32, u32), o0: int)
    requires
        0 <= o0,
    ensures
        counterpart(prev, used, head, range, o0) matches Some(o) ==> o0 <= o < prev.len() && prev[o].tool == head.tool
            && overlaps_spec(range, prev[o].line, prev[o].end_line),
    decreases prev.len() - o0,
{
    if o0 < prev.len() {
        lemma_counterpart_found(prev, used, head, range, o0 + 1);
    }
}

proof fn lemma_pair_slots_sound(
    st: PairState,
    heads: Seq<DirectiveView>,
    prev: Seq<DirectiveView>,
    hunks: Seq<Hunk>,
    k: int,
    j: int,
)
    requires
        0 <= k < hunks.len(),
        hunks[k].base is Some,
        hunks[k].new is Some,
        st.paired.len() == heads.len(),
        st.used.len() == prev.len(),
        st.edited.len() == heads.len(),
        forall|s: int| 0 <= s < heads.len() && #[trigger] st.edited[s] ==> has_reworded_original(hunks, k, prev, heads[s]),
    ensures
        ({
            let nx = pair_slots(st, heads, prev, hunks[k].base.unwrap(), hunks[k].new.unwrap(), j);
            &&& nx.paired.len() == heads.len()
            &&& nx.used.len() == prev.len()
            &&& nx.edited.len() == heads.len()
            &&& forall|s: int| 0 <= s < heads.len() && #[trigger] nx.edited[s] ==> has_reworded_original(hunks, k + 1, prev, heads[s])
        }),
    decreases j,
{
    let b = hunks[k].base.unwrap();
    let n = hunks[k].new.unwrap();
    if j <= 0 || j > heads.len() {
        assert forall|s: int| 0 <= s < heads.len() && #[trigger] st.edited[s] implies has_reworded_original(hunks, k + 1, prev, heads[s]) by {
            let (jj, o) = choose|jj: int, o: int| 0 <= jj < k && 0 <= o < prev.len() && #[trigger] rewords_across(hunks[jj], heads[s], prev[o]);
            assert(0 <= jj < k + 1 && 0 <= o < prev.len() && rewords_across(hunks[jj], heads[s], prev[o]));
        }
    } else {
        lemma_pair_slots_sound(st, heads, prev, hunks, k, j - 1);
        let st0 = pair_slots(st, heads, prev, b, n, j - 1);
        let sl = j - 1;
        let nx = pair_slot(st0, heads, prev, b, n, sl);
        assert(pair_slots(st, heads, prev, b, n, j) == nx);
        lemma_counterpart_found(prev, st0.used, heads[sl], b, 0);
        if !(st0.paired[sl] || !overlaps_spec(n, heads[sl].line, heads[sl].end_line)) {
            match counterpart(prev, st0.used, heads[sl], b, 0) {
                None => {},
                Some(o) => {
                    assert forall|s: int| 0 <= s < heads.len() && #[trigger] nx.edited[s] implies has_reworded_original(hunks, k + 1, prev, heads[s]) by {
                        if s == sl && !st0.edited[s] {
                            assert(rewords_across(hunks[k], heads[s], prev[o]));
                        }
                    }
                },
            }
        }
    }
}

proof fn lemma_pair_hunks_sound(st: PairState, heads: Seq<DirectiveView>, prev: Seq<DirectiveView>, hunks: Seq<Hunk>, k: int)
    requires
        0 <= k <= hunks.len(),
        st.paired.len() == heads.len(),
        st.used.len() == prev.len(),
        st.edited.len() == heads.len(),
        forall|s: int| 0 <= s < heads.len() ==> !(#[trigger] st.edited[s]),
    ensures
        ({
            let nx = pair_hunks(st, heads, prev, hunks, k);
            &&& nx.paired.len() == heads.len()
            &&& nx.used.len() == prev.len()
            &&& nx.edited.len() == heads.len()
            &&& forall|s: int| 0 <= s < heads.len() && #[trigger] nx.edited[s] ==> has_reworded_original(hunks, k, prev, heads[s])
        }),
    decreases k,
{
    if k > 0 {
        lemma_pair_hunks_sound(st, heads, prev, hunks, k - 1);
        let st0 = pair_hunks(st, heads, prev, hunks, k - 1);
        match (hunks[k - 1].base, hunks[k - 1].new) {
            (Some(b), Some(n)) => {
                lemma_pair_slots_sound(st0, heads, prev, hunks, k - 1, heads.len() as int);
            },
            _ => {
                assert forall|s: int| 0 <= s < heads.len() && #[trigger] st0.edited[s] implies has_reworded_original(hunks, k, prev, heads[s]) by {
                    let (jj, o) = choose|jj: int, o: int| 0 <= jj < k - 1 && 0 <= o < prev.len() && #[trigger] rewords_across(hunks[jj], heads[s], prev[o]);
                    assert(0 <= jj < k && 0 <= o < prev.len() && rewords_across(hunks[jj], heads[s], prev[o]));
                }
            },
        }
    }
}

/// Whatever the hunks and directives, a reported directive is a justification
/// edit only when some hunk holds it on its new side and, on its base side,
/// a base directive of the same tool silencing the same rules over the same
/// scope with another reason.
pub proof fn law_an_edit_has_a_reworded_original(heads: Seq<DirectiveView>, prev: Seq<DirectiveView>, hunks: Seq<Hunk>)
    ensures
        pair_spec(heads, prev, hunks).len() == heads.len(),
        forall|s: int| 0 <= s < heads.len() && #[trigger] pair_spec(heads, prev, hunks)[s]
            ==> has_reworded_original(hunks, hunks.len() as int, prev, heads[s]),
{
    let init = PairState {
        paired: Seq::new(heads.len(), |i: int| false),
        used: Seq::new(prev.len(), |i: int| false),
        edited: Seq::new(heads.len(), |i: int| false),
    };
    lemma_pair_hunks_sound(init, heads, prev, hunks, hunks.len() as int);
}

/// A directive on path `p`.
pub open spec fn on_path(p: Seq<char>) -> spec_fn(DirectiveView) -> bool {
    |d: DirectiveView| d.path == p
}

/// What the change did to reported directive `x` of `ds`: a rewritten
/// justification when it pairs, in its file, with a base directive of the same
/// tool, rules and scope and another reason; written by the change otherwise,
/// and in particular wherever there is no pre-image to pair with.
pub open spec fn verdict_spec(ds: Seq<DirectiveView>, changes: Map<Seq<char>, FileChange>, tools: Seq<Tool>, x: int) -> Change {
    let p = ds[x].path;
    if !changes.contains_key(p) {
        Change::Added
    } else {
        match changes[p].base {
            None => Change::Added,
            Some(base) => if !source_fits(base.path@, base.text@) {
                Change::Added
            } else {
                let prev = sorted_view(file_records(tools, file_view(base.path@, base.text@)));
                let heads = ds.filter(on_path(p));
                if pair_spec(heads, prev, changes[p].hunks@)[ds.take(x).filter(on_path(p)).len() as int] {
                    Change::JustificationEdited
                } else {
                    Change::Added
                }
            },
        }
    }
}

/// A record carrying a verdict.
pub open spec fn labelled(d: DirectiveView, c: Change) -> DirectiveView {
    DirectiveView { change: Some(c), ..d }
}

fn same_rules(a: &Vec<String>, b: &Vec<String>) -> (r: bool)
    ensures
        r == (strings_view(a@) == strings_view(b@)),
{
    if a.len() != b.len() {
        proof { assert(strings_view(a@).len() != strings_view(b@).len()); }
        return false;
    }
    let mut k: usize = 0;
    while k < a.len()
        invariant
            a@.len() == b@.len(),
            k <= a@.len(),
            forall|x: int| 0 <= x < k ==> a@[x]@ == b@[x]@,
        decreases a@.len() - k,
    {
        if a[k] != b[k] {
            proof { assert(strings_view(a@)[k as int] != strings_view(b@)[k as int]); }
            return false;
        }
        k = k + 1;
    }
    proof { assert(strings_view(a@) =~= strings_view(b@)); }
    true
}

fn same_reason(a: &Option<String>, b: &Option<String>) -> (r: bool)
    ensures
        r == (opt_string_view(*a) == opt_string_view(*b)),
{
    match a {
        Some(x) => match b {
            Some(y) => {
                let r = *x == *y;
                r
            },
            None => false,
        },
        None => b.is_none(),
    }
}

fn bools(n: usize) -> (r: Vec<bool>)
    ensures
        r@ == Seq::new(n as nat, |i: int| false),
{
    let mut r: Vec<bool> = Vec::new();
    let mut k: usize = 0;
    while k < n
        invariant
            k <= n,
            r@ == Seq::new(k as nat, |i: int| false),
        decreases n - k,
    {
        r.push(false);
        proof { assert(r@ =~= Seq::new((k + 1) as nat, |i: int| false)); }
        k = k + 1;
    }
    r
}

/// The first base directive still free, of `head`'s tool, inside `range`.
fn find_counterpart(previous: &Vec<IgnoreDirective>, used: &Vec<bool>, head: &IgnoreDirective, range: (u32, u32)) -> (r: Option<usize>)
    requires
        used@.len() == previous@.len(),
    ensures
        match r {
            Some(o) => counterpart(directives_view(previous@), used@, head@, range, 0) == Some(o as int) && o < previous@.len(),
            None => counterpart(directives_view(previous@), used@, head@, range, 0).is_none(),
        },
{
    let ghost pv = directives_view(previous@);
    let mut o: usize = 0;
    while o < previous.len()
        invariant
            pv == directives_view(previous@),
            used@.len() == pv.len(),
            o <= pv.len(),
            counterpart(pv, used@, head@, range, 0) == counterpart(pv, used@, head@, range, o as int),
        decreases pv.len() - o,
    {
        let cand = &previous[o];
        proof { assert(pv[o as int] == cand@); }
        if !used[o] && cand.tool == head.tool && overlaps(range, cand.line, cand.end_line) {
            return Some(o);
        }
        o = o + 1;
    }
    None
}

/// Pair one file's reported directives with the ones its pre-image held,
/// hunk by hunk: which rewrote only their reason.
fn pair(heads: &Vec<IgnoreDirective>, previous: &Vec<IgnoreDirective>, hunks: &Vec<Hunk>) -> (edited: Vec<bool>)
    ensures
        edited@ == pair_spec(directives_view(heads@), directives_view(previous@), hunks@),
        edited@.len() == heads@.len(),
{
    let ghost hv = directives_view(heads@);
    let ghost pv = directives_view(previous@);
    let mut paired = bools(heads.len());
    let mut used = bools(previous.len());
    let mut edited = bools(heads.len());
    let ghost init = PairState { paired: paired@, used: used@, edited: edited@ };
    let mut k: usize = 0;
    while k < hunks.len()
        invariant
            hv == directives_view(heads@),
            pv == directives_view(previous@),
            init == (PairState {
                paired: Seq::new(hv.len(), |i: int| false),
                used: Seq::new(pv.len(), |i: int| false),
                edited: Seq::new(hv.len(), |i: int| false),
            }),
            k <= hunks@.len(),
            (PairState { paired: paired@, used: used@, edited: edited@ }) == pair_hunks(init, hv, pv, hunks@, k as int),
            paired@.len() == hv.len(),
            edited@.len() == hv.len(),
            used@.len() == pv.len(),
        decreases hunks@.len() - k,
    {
        let h = hunks[k];
        match (h.base, h.new) {
            (Some(b), Some(n)) => {
                let ghost st0 = PairState { paired: paired@, used: used@, edited: edited@ };
                let mut s: usize = 0;
                while s < heads.len()
                    invariant
                        hv == directives_view(heads@),
                        pv == directives_view(previous@),
                        s <= hv.len(),
                        (PairState { paired: paired@, used: used@, edited: edited@ }) == pair_slots(st0, hv, pv, b, n, s as int),
                        paired@.len() == hv.len(),
                        edited@.len() == hv.len(),
                        used@.len() == pv.len(),
                    decreases hv.len() - s,
                {
                    let head = &heads[s];
                    proof { assert(hv[s as int] == head@); }
                    let ghost st = PairState { paired: paired@, used: used@, edited: edited@ };
                    if !paired[s] && overlaps(n, head.line, head.end_line) {
                        match find_counterpart(previous, &used, head, b) {
                            None => {},
                            Some(o) => {
                                let cand = &previous[o];
                                proof { assert(pv[o as int] == cand@); }
                                let rewritten = same_rules(&cand.rules, &head.rules) && cand.scope == head.scope
                                    && !same_reason(&cand.reason, &head.reason);
                                used.set(o, true);
                                paired.set(s, true);
                                if rewritten {
                                    edited.set(s, true);
                                }
                            },
                        }
                    }
                    proof {
                        assert((PairState { paired: paired@, used: used@, edited: edited@ }) == pair_slot(st, hv, pv, b, n, s as int));
                    }
                    s = s + 1;
                }
            },
            _ => {},
        }
        k = k + 1;
    }
    edited
}

/// Say of every reported directive whether the change wrote it or rewrote
/// the justification of one that was already there. It labels and nothing
/// else: the same records, in the same order, each given a verdict.
pub fn classify(report: &mut Report, changes: &ChangeSet, tools: &[Tool])
    ensures
        final(report).errors == old(report).errors,
        final(report).version == old(report).version,
        final(report).ignores@.len() == old(report).ignores@.len(),
        directives_view(final(report).ignores@) == Seq::new(
            old(report).ignores@.len(),
            |x: int|
                labelled(
                    directives_view(old(report).ignores@)[x],
                    verdict_spec(directives_view(old(report).ignores@), changes@, tools@, x),
                ),
        ),
{
    let ghost ds = directives_view(report.ignores@);
    let n = report.ignores.len();
    let mut verdicts: Vec<Change> = Vec::new();
    let mut done = bools(n);
    let mut k: usize = 0;
    while k < n
        invariant
            n == report.ignores@.len(),
            k <= n,
            verdicts@.len() == k,
            forall|y: int| 0 <= y < k ==> #[trigger] verdicts@[y] == Change::Added,
        decreases n - k,
    {
        verdicts.push(Change::Added);
        k = k + 1;
    }
    let mut x: usize = 0;
    while x < n
        invariant
            ds == directives_view(report.ignores@),
            n == ds.len(),
            report.errors == old(report).errors,
            report.version == old(report).version,
            report.ignores@ == old(report).ignores@,
            x <= n,
            verdicts@.len() == n,
            done@.len() == n,
            forall|y: int| 0 <= y < n ==> (#[trigger] done@[y] <==> exists|z: int| 0 <= z < x && ds[z].path == ds[y].path),
            forall|y: int| 0 <= y < n && done@[y] ==> #[trigger] verdicts@[y] == verdict_spec(ds, changes@, tools@, y),
        decreases n - x,
    {
        if !done[x] {
            verdicts = label_file(report, changes, tools, x, verdicts, &mut done);
        } else {
            proof {
                assert forall|y: int| 0 <= y < n implies (#[trigger] done@[y] <==> exists|z: int| 0 <= z < x + 1 && ds[z].path == ds[y].path) by {
                    if ds[x as int].path == ds[y].path {
                        let z = choose|z: int| 0 <= z < x && ds[z].path == ds[x as int].path;
                        assert(0 <= z < x && ds[z].path == ds[y].path);
                    }
                }
            }
        }
        x = x + 1;
    }
    let mut y: usize = 0;
    while y < n
        invariant
            n == report.ignores@.len(),
            n == ds.len(),
            report.errors == old(report).errors,
            report.version == old(report).version,
            y <= n,
            verdicts@.len() == n,
            forall|z: int| 0 <= z < n ==> #[trigger] verdicts@[z] == verdict_spec(ds, changes@, tools@, z),
            forall|z: int| 0 <= z < y ==> #[trigger] directives_view(report.ignores@)[z] == labelled(ds[z], verdicts@[z]),
            forall|z: int| y <= z < n ==> #[trigger] directives_view(report.ignores@)[z] == ds[z],
        decreases n - y,
    {
        let mut d = report.ignores[y].copy();
        d.change = Some(verdicts[y]);
        let ghost prev = report.ignores@;
        proof { assert(directives_view(prev)[y as int] == prev[y as int]@); }
        report.ignores.set(y, d);
        proof {
            assert forall|z: int| 0 <= z < y + 1 implies #[trigger] directives_view(report.ignores@)[z] == labelled(ds[z], verdicts@[z]) by {
                assert(directives_view(report.ignores@)[z] == report.ignores@[z]@);
                if z < y {
                    assert(report.ignores@[z] == prev[z]);
                    assert(directives_view(prev)[z] == prev[z]@);
                }
            }
            assert forall|z: int| y + 1 <= z < n implies #[trigger] directives_view(report.ignores@)[z] == ds[z] by {
                assert(directives_view(report.ignores@)[z] == report.ignores@[z]@);
                assert(report.ignores@[z] == prev[z]);
                assert(directives_view(prev)[z] == prev[z]@);
            }
        }
        y = y + 1;
    }
    proof {
        assert(directives_view(report.ignores@) =~= Seq::new(
            n as nat,
            |x: int| labelled(ds[x], verdict_spec(ds, changes@, tools@, x)),
        ));
    }
}

/// The pairing verdicts of the file that directive `x` sits in, when nothing
/// in that file has been labelled yet: every directive of the file gets its
/// verdict and is marked done.
fn label_file(report: &Report, changes: &ChangeSet, tools: &[Tool], x: usize, verdicts: Vec<Change>, done: &mut Vec<bool>) -> (r: Vec<Change>)
    requires
        x < report.ignores@.len(),
        verdicts@.len() == report.ignores@.len(),
        old(done)@.len() == report.ignores@.len(),
        !old(done)@[x as int],
        forall|y: int| 0 <= y < report.ignores@.len() ==> (#[trigger] old(done)@[y] <==> exists|z: int| 0 <= z < x && directives_view(report.ignores@)[z].path == directives_view(report.ignores@)[y].path),
        forall|y: int| 0 <= y < report.ignores@.len() && old(done)@[y] ==> #[trigger] verdicts@[y] == verdict_spec(directives_view(report.ignores@), changes@, tools@, y),
    ensures
        r@.len() == report.ignores@.len(),
        final(done)@.len() == report.ignores@.len(),
        forall|y: int| 0 <= y < report.ignores@.len() ==> (#[trigger] final(done)@[y] <==> exists|z: int| 0 <= z < x + 1 && directives_view(report.ignores@)[z].path == directives_view(report.ignores@)[y].path),
        forall|y: int| 0 <= y < report.ignores@.len() && final(done)@[y] ==> #[trigger] r@[y] == verdict_spec(directives_view(report.ignores@), changes@, tools@, y),
{
    let ghost ds = directives_view(report.ignores@);
    let n = report.ignores.len();
    let path = report.ignores[x].path.clone();
    proof { assert(ds[x as int] == report.ignores@[x as int]@); }
    let ghost p = path@;
    let ghost pred = on_path(p);
    // The file's directives, in file order.
    let mut heads: Vec<IgnoreDirective> = Vec::new();
    proof { assert(ds.take(0).filter(pred) =~= Seq::<DirectiveView>::empty()); }
    let mut y: usize = 0;
    while y < n
        invariant
            ds == directives_view(report.ignores@),
            n == ds.len(),
            p == path@,
            pred == on_path(p),
            y <= n,
            directives_view(heads@) == ds.take(y as int).filter(pred),
        decreases n - y,
    {
        let d = &report.ignores[y];
        proof {
            assert(ds[y as int] == d@);
            assert(ds.take(y + 1) =~= ds.take(y as int).push(d@));
            ds.take(y as int).lemma_filter_push(d@, pred);
        }
        if d.path == path {
            let ghost before = directives_view(heads@);
            heads.push(d.copy());
            proof { assert(directives_view(heads@) =~= before.push(d@)); }
        }
        y = y + 1;
    }
    proof { assert(ds.take(n as int) =~= ds); }
    // Which of them rewrote only their reason, when the file has a pre-image.
    let edited: Option<Vec<bool>> = match changes.get(path.as_str()) {
        None => None,
        Some(c) => match &c.base {
            None => None,
            Some(base) => {
                if !SourceFile::fits(base.path.as_str(), base.text.as_str()) {
                    None
                } else {
                    let file = SourceFile::new(base.path.as_str(), base.text.clone());
                    let mut ts: Vec<Tool> = Vec::new();
                    let mut t: usize = 0;
                    while t < tools.len()
                        invariant
                            t <= tools@.len(),
                            ts@ == tools@.take(t as int),
                        decreases tools@.len() - t,
                    {
                        ts.push(tools[t]);
                        proof { assert(ts@ =~= tools@.take(t + 1)); }
                        t = t + 1;
                    }
                    proof { assert(tools@.take(tools@.len() as int) =~= tools@); }
                    let previous = scan_source(&file, &ScanOptions { tools: ts });
                    Some(pair(&heads, &previous.ignores, &c.hunks))
                }
            },
        },
    };
    // Give each of the file's directives its verdict.
    let mut out = verdicts;
    let mut slot: usize = 0;
    let mut y: usize = 0;
    proof { assert(ds.take(0).filter(pred) =~= Seq::<DirectiveView>::empty()); }
    while y < n
        invariant
            ds == directives_view(report.ignores@),
            n == ds.len(),
            p == path@,
            p == ds[x as int].path,
            pred == on_path(p),
            y <= n,
            slot as int == ds.take(y as int).filter(pred).len(),
            directives_view(heads@) == ds.filter(pred),
            out@.len() == n,
            done@.len() == n,
            match edited {
                Some(e) => changes@.contains_key(p) && changes@[p].base.is_some() && source_fits(changes@[p].base.unwrap().path@, changes@[p].base.unwrap().text@)
                    && e@.len() == ds.filter(pred).len() && e@ == pair_spec(
                    ds.filter(pred),
                    sorted_view(file_records(tools@, file_view(changes@[p].base.unwrap().path@, changes@[p].base.unwrap().text@))),
                    changes@[p].hunks@,
                ),
                None => !changes@.contains_key(p) || changes@[p].base.is_none() || !source_fits(changes@[p].base.unwrap().path@, changes@[p].base.unwrap().text@),
            },
            forall|z: int| 0 <= z < n ==> (#[trigger] done@[z] <==> (exists|w: int| 0 <= w < x && ds[w].path == ds[z].path) || (z < y && ds[z].path == p)),
            forall|z: int| 0 <= z < n && done@[z] ==> #[trigger] out@[z] == verdict_spec(ds, changes@, tools@, z),
        decreases n - y,
    {
        let d = &report.ignores[y];
        proof {
            assert(ds[y as int] == d@);
            assert(ds.take(y + 1) =~= ds.take(y as int).push(d@));
            ds.take(y as int).lemma_filter_push(d@, pred);
            lemma_filter_len_le(ds.take(y + 1), ds, pred);
        }
        if d.path == path {
            let v = match &edited {
                Some(e) => if e[slot] { Change::JustificationEdited } else { Change::Added },
                None => Change::Added,
            };
            proof { assert(v == verdict_spec(ds, changes@, tools@, y as int)); }
            out.set(y, v);
            done.set(y, true);
            slot = slot + 1;
        }
        proof {
            assert forall|z: int| 0 <= z < n implies (#[trigger] done@[z] <==> (exists|w: int| 0 <= w < x && ds[w].path == ds[z].path) || (z < y + 1 && ds[z].path == p)) by {
                if z == y && ds[z].path != p {
                    if exists|w: int| 0 <= w < x && ds[w].path == ds[z].path {
                    }
                }
            }
        }
        y = y + 1;
    }
    proof {
        assert forall|z: int| 0 <= z < n implies (#[trigger] done@[z] <==> exists|w: int| 0 <= w < x + 1 && ds[w].path == ds[z].path) by {
            if ds[z].path == p {
                assert(0 <= x < x + 1 && ds[x as int].path == ds[z].path);
            }
            if exists|w: int| 0 <= w < x + 1 && ds[w].path == ds[z].path {
                let w = choose|w: int| 0 <= w < x + 1 && ds[w].path == ds[z].path;
                if w == x {
                    assert(ds[z].path == p);
                }
            }
        }
    }
    out
}

/// A filter of a prefix is no longer than the filter of the whole.
pub proof fn lemma_filter_len_le(a: Seq<DirectiveView>, s: Seq<DirectiveView>, pred: spec_fn(DirectiveView) -> bool)
    requires
        a.len() <= s.len(),
        a == s.take(a.len() as int),
    ensures
        a.filter(pred).len() <= s.filter(pred).len(),
    decreases s.len() - a.len(),
{
    if a.len() < s.len() {
        let b = s.take(a.len() as int + 1);
        assert(b.drop_last() =~= a);
        assert(b =~= a.push(s[a.len() as int]));
        a.lemma_filter_push(s[a.len() as int], pred);
        lemma_filter_len_le(b, s, pred);
    } else {
        assert(a =~= s);
    }
}

} // verus!
