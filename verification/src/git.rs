//! What a `--diff` run asks git, and what git's answers mean.
//!
//! Running git is the binary's job; every argument list it passes and every
//! reading of what came back is decided here.

use vstd::prelude::*;

use crate::cli::render::{join, join_with};
use crate::diff::{BaseImage, ChangedFile, DiffError, decode, decode_lossy, utf8_lossy, utf8_text};
use crate::model::{opt_string_view, strings_view};
use crate::source::{display_path, display_path_spec};
use crate::text::{chars_of, find_from, find_from_vec, to_string, trim, trim_vec};

verus! {

/// What the work tree is compared against.
#[derive(Debug, Clone, PartialEq, Eq)]
pub enum Base {
    /// The work tree against `HEAD`.
    Head,
    /// The index against the empty tree.
    Index,
    /// A resolved revision.
    Revision(String),
    /// An `A..B` range exactly as the caller wrote it.
    Range(String),
}

/// The single argument a base becomes on a `git diff` command line.
pub open spec fn base_arg(b: Base) -> Seq<char> {
    match b {
        Base::Head => "HEAD"@,
        Base::Index => "--cached"@,
        Base::Revision(rev) => rev@,
        Base::Range(rev) => rev@,
    }
}

impl Base {
    /// The single argument this base becomes on a `git diff` command line.
    pub fn arg(&self) -> (r: &str)
        ensures
            r@ == base_arg(*self),
    {
        match self {
            Base::Head => "HEAD",
            Base::Index => "--cached",
            Base::Revision(rev) => rev.as_str(),
            Base::Range(rev) => rev.as_str(),
        }
    }
}

/// Whether a base the caller wrote is an explicit range.
pub open spec fn is_range_spec(base: Seq<char>) -> bool {
    find_from(base, ".."@, 0).is_some()
}

/// Whether `base` is an explicit `A..B` range, which is passed to git as it
/// stands; a plain ref is compared from where it forked.
pub fn is_range(base: &str) -> (b: bool)
    ensures
        b == is_range_spec(base@),
{
    let v = chars_of(base);
    let dots = chars_of("..");
    find_from_vec(&v, &dots, 0).is_some()
}

/// The merge base `git merge-base` printed, when it printed one.
pub open spec fn merge_base_spec(answer: Option<Seq<char>>) -> Option<Seq<char>> {
    match answer {
        Some(a) => if trim(a).len() > 0 { Some(trim(a)) } else { None },
        None => None,
    }
}

/// Read what `git merge-base <rev> HEAD` answered: its trimmed output, or
/// `None` when it failed or named nothing.
pub fn merge_base_of(answer: Option<String>) -> (r: Option<String>)
    ensures
        match r {
            Some(s) => merge_base_spec(opt_string_view(answer)) == Some(s@),
            None => merge_base_spec(opt_string_view(answer)).is_none(),
        },
{
    match answer {
        Some(a) => {
            let t = trim_vec(&chars_of(a.as_str()));
            if t.len() > 0 {
                Some(to_string(&t))
            } else {
                None
            }
        },
        None => None,
    }
}

/// What a requested base means as something to compare against.
pub open spec fn resolve_base_spec(base: Option<Seq<char>>, merge_base: Option<Seq<char>>, head_exists: bool) -> Seq<char> {
    match base {
        Some(b) => if is_range_spec(b) {
            b
        } else {
            match merge_base {
                Some(m) => m,
                None => b,
            }
        },
        None => if head_exists { "HEAD"@ } else { "--cached"@ },
    }
}

/// What `base` means as something to compare against: a range as written; a
/// plain ref as its merge base with `HEAD` (`merge_base`, which git may not
/// be able to name, in which case the ref itself); no base as `HEAD`, or the
/// index in a repository with no commit yet.
pub fn resolve_base(base: Option<&str>, merge_base: Option<String>, head_exists: bool) -> (r: Base)
    ensures
        base_arg(r) == resolve_base_spec(
            match base {
                Some(b) => Some(b@),
                None => None,
            },
            opt_string_view(merge_base),
            head_exists,
        ),
        base.is_none() ==> (r == if head_exists { Base::Head } else { Base::Index }),
        base matches Some(b) && is_range_spec(b@) ==> r is Range,
        base matches Some(b) && !is_range_spec(b@) ==> r is Revision,
{
    match base {
        Some(b) => if is_range(b) {
            Base::Range(b.to_owned())
        } else {
            match merge_base {
                Some(m) => Base::Revision(m),
                None => Base::Revision(b.to_owned()),
            }
        },
        None => if head_exists {
            Base::Head
        } else {
            Base::Index
        },
    }
}

/// Whether `git rev-parse --is-inside-work-tree` said a diff can be taken
/// at `root`: only a work tree answers `true`; a bare repository answers
/// otherwise and a directory outside any repository makes git fail, both of
/// which mean "not a work tree"; any other failure stands.
pub fn work_tree(answer: Result<String, DiffError>, root: &str) -> (r: Result<(), DiffError>)
    ensures
        match answer {
            Ok(a) => if trim(a@) == "true"@ {
                r is Ok
            } else {
                r matches Err(DiffError::NotAWorkTree { path }) && path@ == display_path_spec(root@)
            },
            Err(DiffError::Git { .. }) => r matches Err(DiffError::NotAWorkTree { path }) && path@
                == display_path_spec(root@),
            Err(e) => r == Err::<(), DiffError>(e),
        },
{
    match answer {
        Ok(a) => {
            let t = trim_vec(&chars_of(a.as_str()));
            if crate::text::eq_str(&t, "true") {
                Ok(())
            } else {
                Err(DiffError::NotAWorkTree { path: display_path(root) })
            }
        },
        Err(DiffError::Git { .. }) => Err(DiffError::NotAWorkTree { path: display_path(root) }),
        Err(e) => Err(e),
    }
}

/// The arguments of the `git diff` that lists what changed: NUL-separated raw
/// records with full object names, paths relative to where it runs.
pub open spec fn raw_args_spec(base: Base) -> Seq<Seq<char>> {
    seq!["diff"@, "--raw"@, "-z"@, "--abbrev=40"@, "--relative"@, base_arg(base)]
}

/// The arguments of the `git diff` that lists every changed file.
pub fn raw_args(base: &Base) -> (r: Vec<String>)
    ensures
        strings_view(r@) == raw_args_spec(*base),
{
    let mut r: Vec<String> = Vec::new();
    r.push("diff".to_owned());
    r.push("--raw".to_owned());
    r.push("-z".to_owned());
    r.push("--abbrev=40".to_owned());
    r.push("--relative".to_owned());
    r.push(base.arg().to_owned());
    proof { assert(strings_view(r@) =~= raw_args_spec(*base)); }
    r
}

/// The arguments of the `git diff` that lists one file's hunks: no context
/// lines, the file under the path the report uses, and for a rename the path
/// it came from as well.
pub open spec fn file_change_args_spec(base: Base, path: Seq<char>, renamed_from: Option<Seq<char>>) -> Seq<Seq<char>> {
    let head = seq![
        "diff"@,
        "--no-color"@,
        "--unified=0"@,
        "--relative"@,
        base_arg(base),
        "--"@,
        display_path_spec(path),
    ];
    match renamed_from {
        Some(source) => head.push(display_path_spec(source)),
        None => head,
    }
}

/// The arguments of the `git diff` that lists the hunks of `file`.
pub fn file_change_args(base: &Base, file: &ChangedFile) -> (r: Vec<String>)
    ensures
        strings_view(r@) == file_change_args_spec(*base, file@.path, file@.renamed_from),
{
    let mut r: Vec<String> = Vec::new();
    r.push("diff".to_owned());
    r.push("--no-color".to_owned());
    r.push("--unified=0".to_owned());
    r.push("--relative".to_owned());
    r.push(base.arg().to_owned());
    r.push("--".to_owned());
    r.push(display_path(file.path.as_str()));
    match &file.renamed_from {
        Some(source) => {
            r.push(display_path(source.as_str()));
        },
        None => {},
    }
    proof { assert(strings_view(r@) =~= file_change_args_spec(*base, file@.path, file@.renamed_from)); }
    r
}

/// A git invocation as a message names it.
pub open spec fn command_label_spec(args: Seq<Seq<char>>) -> Seq<char> {
    "git "@ + join_with(args, " "@)
}

/// `git <args>`, as error messages name the command.
pub fn command_label(args: &Vec<String>) -> (r: String)
    ensures
        r@ == command_label_spec(strings_view(args@)),
{
    let mut r = "git ".to_owned();
    r.append(join(args, " ").as_str());
    r
}

/// A git invocation that exited unsuccessfully: the command, and what it
/// wrote to stderr, trimmed.
pub fn git_failure(args: &Vec<String>, stderr: &[u8]) -> (e: DiffError)
    ensures
        e matches DiffError::Git { command, message } && command@ == command_label_spec(strings_view(args@))
            && message@ == trim(utf8_lossy(stderr@)),
        utf8_text(stderr@) matches Some(t) ==> e matches DiffError::Git { message, .. } && message@ == trim(t),
{
    let text = decode_lossy(stderr);
    let message = to_string(&trim_vec(&chars_of(text.as_str())));
    DiffError::Git { command: command_label(args), message }
}

/// What git wrote to stdout, read lossily, as patches and revisions are read:
/// one undecodable byte must not abort a scan.
pub fn output_text(stdout: &[u8]) -> (r: String)
    ensures
        r@ == utf8_lossy(stdout@),
        utf8_text(stdout@) matches Some(t) ==> r@ == t,
{
    decode_lossy(stdout)
}

/// A changed file's contents at the base, given the bytes of its base blob:
/// under the path it had then (the source of a rename), when they are text.
pub fn pre_image_of(file: &ChangedFile, bytes: Vec<u8>) -> (r: Option<BaseImage>)
    ensures
        match r {
            Some(img) => utf8_text(bytes@) == Some(img.text@) && img.path@ == match file@.renamed_from {
                Some(source) => source,
                None => file@.path,
            },
            None => utf8_text(bytes@).is_none(),
        },
{
    let text = match decode(bytes) {
        Some(t) => t,
        None => {
            return None;
        },
    };
    let path = match &file.renamed_from {
        Some(source) => source.clone(),
        None => file.path.clone(),
    };
    Some(BaseImage { path, text })
}

} // verus!
