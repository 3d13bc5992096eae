//! What a run looks at, and the report it assembles from what it read.

use vstd::prelude::*;

use crate::diff::{
    BaseImage, ChangeSet, Changed, ChangedFile, FileChange, classified, classify, new_only, retain_new,
};
use crate::model::{
    DirectiveView, ErrorView, Report, ReportError, Tool, REPORT_VERSION, directives_view, errors_view, sort_errors,
    sorted_errors, sorted_view, strings_view,
};
use crate::scan::{Input, ScanError, ScanOptions, all_errors, all_records, scan_files};
use crate::diff::{DiffError, diff_error_hint, diff_error_message};
use crate::source::{Language, display_path, display_path_spec, language_of_path};

verus! {

/// What a run decided to look at.
#[derive(Debug)]
pub struct Selection {
    /// The files to parse, in report order.
    pub files: Vec<String>,
    /// In `--diff` mode, what the change did to each selected file, keyed by
    /// the path the report uses; `None` when every directive is reported.
    pub changes: Option<ChangeSet>,
    /// What selection itself could not do, carried into the report so a file
    /// that cannot be scanned is never counted as clean.
    pub errors: Vec<ReportError>,
}

/// The message for a changed path this build cannot name.
pub open spec fn undecodable_message() -> Seq<char> {
    "path is not valid UTF-8, so it cannot be scanned"@
}

impl Selection {
    /// A tree scan: these files, every directive reported.
    pub fn tree(files: Vec<String>) -> (s: Selection)
        ensures
            s.files@ == files@,
            s.changes.is_none(),
            s.errors@.len() == 0,
    {
        Selection { files, changes: None, errors: Vec::new() }
    }

    /// A `--diff` run over `changed`, with nothing admitted yet: each path
    /// git could not hand over as text becomes an error.
    pub fn of_change(changed: &Changed) -> (s: Selection)
        ensures
            s.files@.len() == 0,
            s.changes matches Some(c) && c@ == Map::<Seq<char>, FileChange>::empty(),
            s.errors@.len() == changed.undecodable@.len(),
            forall|i: int|
                0 <= i < s.errors@.len() ==> #[trigger] s.errors@[i]@ == (ErrorView {
                    path: changed.undecodable@[i]@,
                    message: undecodable_message(),
                }),
    {
        let mut errors: Vec<ReportError> = Vec::new();
        let mut i: usize = 0;
        while i < changed.undecodable.len()
            invariant
                i <= changed.undecodable@.len(),
                errors@.len() == i,
                forall|k: int|
                    0 <= k < i ==> #[trigger] errors@[k]@ == (ErrorView {
                        path: changed.undecodable@[k]@,
                        message: undecodable_message(),
                    }),
            decreases changed.undecodable@.len() - i,
        {
            errors.push(
                ReportError {
                    path: changed.undecodable[i].clone(),
                    message: "path is not valid UTF-8, so it cannot be scanned".to_owned(),
                },
            );
            i = i + 1;
        }
        Selection { files: Vec::new(), changes: Some(ChangeSet::new()), errors }
    }

    /// Add a changed file to a `--diff` selection: its change, with the
    /// contents it had at the base, under the path the report uses.
    pub fn take_in(&mut self, file: &ChangedFile, change: FileChange, base: Option<BaseImage>)
        requires
            old(self).changes.is_some(),
        ensures
            final(self).files@ == old(self).files@.push(final(self).files@.last()),
            final(self).files@.last()@ == file@.path,
            final(self).errors == old(self).errors,
            final(self).changes matches Some(c) && c@ == old(self).changes.unwrap()@.insert(
                display_path_spec(file@.path),
                FileChange { hunks: change.hunks, base },
            ),
    {
        let mut change = change;
        change.set_base(base);
        let key = display_path(file.path.as_str());
        let mut changes = match self.changes.take() {
            Some(c) => c,
            None => ChangeSet::new(),
        };
        changes.insert(key, change);
        self.changes = Some(changes);
        self.files.push(file.path.clone());
    }
}

/// Whether a changed file is worth asking git about: one the change deleted
/// has no source left to read, and one no parser reads is skipped anyway.
pub fn wants_change(file: &ChangedFile, exists: bool) -> (b: bool)
    ensures
        b == (exists && language_of_path(file@.path) != Language::Unknown),
{
    exists && Language::from_path(file.path.as_str()).is_scannable()
}

/// The directives a run reports out of a scan's sorted records: all of
/// them, or in `--diff` mode the ones the change introduced, each labelled.
pub open spec fn selected_records(
    records: Seq<DirectiveView>,
    changes: Option<Map<Seq<char>, FileChange>>,
    tools: Seq<Tool>,
) -> Seq<DirectiveView> {
    match changes {
        None => records,
        Some(cs) => classified(new_only(records, cs), cs, tools),
    }
}

/// The errors a run reports: the scan's, and the selection's merged in.
pub open spec fn selected_errors(scanned: Seq<ErrorView>, extra: Seq<ErrorView>) -> Seq<ErrorView> {
    if extra.len() == 0 {
        scanned
    } else {
        sorted_errors(scanned + extra)
    }
}

/// The report a run assembles from the files it read: the scan of `inputs`,
/// narrowed in `--diff` mode to what the change introduced and labelled, with
/// the selection's own errors merged in, in report order.
pub fn assemble(selection: Selection, inputs: &Vec<Input>, options: &ScanOptions) -> (r: Report)
    ensures
        r.version == REPORT_VERSION,
        directives_view(r.ignores@) == selected_records(
            sorted_view(all_records(options.tools@, inputs@, inputs@.len() as int)),
            match selection.changes {
                Some(c) => Some(c@),
                None => None,
            },
            options.tools@,
        ),
        errors_view(r.errors@) == selected_errors(
            sorted_errors(all_errors(options.tools@, inputs@, inputs@.len() as int)),
            errors_view(selection.errors@),
        ),
{
    let mut report = scan_files(inputs, options);
    let ghost records = directives_view(report.ignores@);
    let ghost scanned = errors_view(report.errors@);
    match &selection.changes {
        Some(changes) => {
            retain_new(&mut report, changes);
            proof { assert(directives_view(report.ignores@) == new_only(records, changes@)); }
            let ghost kept = directives_view(report.ignores@);
            classify(&mut report, changes, options.tools.as_slice());
            proof {
                assert(directives_view(report.ignores@) =~= classified(kept, changes@, options.tools@));
            }
        },
        None => {},
    }
    if selection.errors.len() > 0 {
        let mut all = report.errors;
        let mut extra = selection.errors;
        let ghost e0 = errors_view(all@);
        let ghost e1 = errors_view(extra@);
        all.append(&mut extra);
        proof { assert(errors_view(all@) =~= e0 + e1); }
        report.errors = sort_errors(&all);
    }
    report
}

/// Why a run could not decide what to look at.
#[derive(Debug)]
pub enum SelectError {
    /// A path could not be walked.
    Scan(ScanError),
    /// The change itself could not be determined.
    Diff(DiffError),
}

/// What a selection failure says, on the line that reports it.
pub open spec fn select_error_message(e: SelectError) -> Seq<char> {
    match e {
        SelectError::Scan(ScanError::Path { path, message }) => "cannot read "@ + path@ + ": "@ + message@,
        SelectError::Diff(d) => "cannot diff: "@ + diff_error_message(d),
    }
}

impl SelectError {
    /// The one-line description of this failure.
    pub fn message(&self) -> (m: String)
        ensures
            m@ == select_error_message(*self),
    {
        match self {
            SelectError::Scan(e) => e.message(),
            SelectError::Diff(d) => {
                let mut m = "cannot diff: ".to_owned();
                m.append(d.message().as_str());
                m
            },
        }
    }

    /// The concrete next action for this failure.
    pub fn hint(&self) -> (h: &'static str)
        ensures
            h@ == match self {
                SelectError::Scan(_) => "pass paths that exist, or omit them to scan the current directory"@,
                SelectError::Diff(d) => diff_error_hint(*d),
            },
    {
        match self {
            SelectError::Scan(_) => "pass paths that exist, or omit them to scan the current directory",
            SelectError::Diff(d) => d.hint(),
        }
    }
}

/// How writing the rendered report went.
#[derive(Debug, Clone, Copy, PartialEq, Eq, Structural)]
pub enum Written {
    /// All of it reached its destination.
    Complete,
    /// The reader stopped reading (`| head`): its prerogative, not a failure.
    ClosedPipe,
    /// Any other failure to write.
    Failed,
}

/// The exit code of a run whose report was written as `written` says: a
/// failed write is an error, a closed pipe is not, and otherwise the report
/// decides.
pub fn finish(report: &Report, fail_if_found: bool, written: Written) -> (c: u8)
    ensures
        c == if written == Written::Failed {
            crate::cli::EXIT_ERROR
        } else {
            crate::cli::exit_code_spec(report.errors@.len(), report.ignores@.len(), fail_if_found)
        },
{
    match written {
        Written::Failed => crate::cli::EXIT_ERROR,
        _ => crate::cli::exit_code(report, fail_if_found),
    }
}

} // verus!
