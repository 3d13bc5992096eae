use notignored::diff::{
    BaseImage, BlobId, ChangeSet, Changed, ChangedFile, DiffError, FileChange, Hunk, classify, parse_raw,
    path_selects, retain_new,
};
use notignored::model::{Change, IgnoreDirective, Report, ReportError, Scope, Suppressed, Tool};
use notignored::scan::{ScanOptions, scan_source};
use notignored::source::{SourceFile, display_path};

/// The hunks of a patch git is standing in for.
fn hunks_of(patch: &str) -> FileChange {
    FileChange::parse(patch, "git diff").expect("a readable patch")
}

#[test]
fn hunk_headers_become_the_hunks_a_change_made() {
    let patch = "diff --git a/a.py b/a.py\n--- a/a.py\n+++ b/a.py\n@@ -1,0 +2,3 @@ def f():\n+one\n+two\n+three\n@@ -9 +12 @@\n-old\n+new\n@@ -20,2 +24,0 @@\n-gone\n-gone\n";
    let added = hunks_of(patch);
    assert!(added.intersects(2, 2) && added.intersects(4, 4));
    assert!(!added.intersects(1, 1) && !added.intersects(5, 11));
    assert!(added.intersects(12, 12));
    // A pure deletion adds nothing at the line it removed.
    assert!(!added.intersects(24, 24));
    assert!(!added.is_empty());
}

#[test]
fn a_span_counts_when_any_of_its_lines_was_added() {
    let added = hunks_of("@@ -1,0 +5,2 @@\n+a\n+b\n");
    // Straddling the run from either side, and containing it whole.
    assert!(added.intersects(3, 5));
    assert!(added.intersects(6, 9));
    assert!(added.intersects(1, 20));
    assert!(!added.intersects(1, 4));
    assert!(!added.intersects(7, 9));
}

#[test]
fn an_unreadable_hunk_header_is_an_error_rather_than_a_guess() {
    for patch in [
        "@@ no plus side @@\n",
        "@@ -1,0 +not-a-number,2 @@\n",
        "@@ -1,0 +5,not-a-number @@\n",
    ] {
        let error = FileChange::parse(patch, "git diff").unwrap_err();
        assert!(matches!(error, DiffError::Malformed { .. }), "{error:?}");
        assert!(error.message().contains("hunk header"), "{error:?}");
        assert!(error.hint().contains("--diff"), "{}", error.hint());
    }

    // A body line that merely looks like a header is body, not a header: a
    // patch of a patch still reads as one hunk of added text.
    let added = hunks_of("@@ -1,0 +9,2 @@\n+@@ -1,0 +3,3 @@\n+ @@ -1,0 +3,3 @@\n");
    assert!(added.intersects(9, 10) && !added.intersects(3, 3));
    assert!(FileChange::default().is_empty());
}

/// A `--raw` record's info field, as git writes it.
///
/// The mode pair and the destination id are real values this parser does not
/// read, spelled the way git spells them so a record here is one git could
/// have produced.
const OLD: &str = "de980441c3ab03a8c07dda1ad27b8a11f39deb1e";
const NEW: &str = "3e757656cf36eca53338e520d134963a44f793f8";

fn info(status: &str) -> String {
    format!(":100644 100644 {OLD} {NEW} {status}\0")
}

/// A record: an info field carrying `status`, then its path(s).
fn record(status: &str, paths: &[&[u8]]) -> Vec<u8> {
    let mut out = info(status).into_bytes();
    for path in paths {
        out.extend_from_slice(path);
        out.push(0);
    }
    out
}

/// A path git named in bytes this build cannot spell is set aside rather
/// than decoded into a name that points at nothing.
#[test]
fn a_path_that_is_not_utf8_is_set_aside_rather_than_guessed_at() {
    let command = "git diff --raw";
    let mut output = record("M", &[b"caf\xe9.py"]);
    output.extend(record("A", &[b"plain.py"]));
    let changed = parse_raw(&output, command).unwrap();
    assert_eq!(
        changed.files,
        vec![ChangedFile {
            path: "plain.py".to_string(),
            renamed_from: None,
            base_blob: BlobId::parse(OLD),
        }],
        "the file git *could* name is still part of the change"
    );
    assert_eq!(changed.undecodable, vec!["caf\u{fffd}.py"]);

    // Either end of a rename losing its name loses the pairing, so the whole
    // record is one this build cannot act on.
    for paths in [
        &[&b"caf\xe9.py"[..], b"new.py"],
        &[&b"old.py"[..], b"caf\xe9.py"],
    ] {
        let output = record("R100", paths);
        let changed = parse_raw(&output, command).unwrap();
        assert!(changed.files.is_empty(), "{paths:?}");
        assert_eq!(changed.undecodable, vec!["caf\u{fffd}.py"], "{paths:?}");
    }
}

#[test]
fn truncated_raw_output_is_an_error_not_a_shorter_answer() {
    let command = "git diff --raw";
    assert_eq!(parse_raw(&Vec::new(), command).unwrap(), Changed::default());
    for truncated in [record("M", &[]), record("R100", &[b"old.py"])] {
        let error = parse_raw(&truncated, command).unwrap_err();
        assert!(matches!(error, DiffError::Malformed { .. }), "{error:?}");
        assert!(error.message().contains("names no path"), "{error:?}");
    }

    // A status this build does not know — git's own "unknown" marker, or a
    // field that is not a status at all — is not read as a plain change.
    for unknown in ["X", "M100", "a.py"] {
        let output = record(unknown, &[b"a.py"]);
        let error = parse_raw(&output, command).unwrap_err();
        assert!(error.message().contains("unknown status"), "{error:?}");
    }

    // An info field this build cannot read at all — one git never wrote, or
    // one whose source id is not an object name to hand back to it — is a
    // failure rather than a record answered from its remaining fields.
    for unreadable in [
        &b"M\0a.py\0"[..],
        b":100644 100644 M\0a.py\0",
        b":100644 100644 not-an-oid 3e75765 M\0a.py\0",
        b":100644 100644  3e75765 M\0a.py\0",
    ] {
        let error = parse_raw(&unreadable.to_vec(), command).unwrap_err();
        assert!(
            error.message().contains("unreadable record"),
            "{unreadable:?}: {error:?}"
        );
    }

    // Every status git does define is understood.
    for (status, paths, renamed_from) in [
        ("A", &[&b"a.py"[..]][..], None),
        ("D", &[b"a.py"], None),
        ("T", &[b"a.py"], None),
        ("U", &[b"a.py"], None),
        ("C75", &[b"old.py", b"a.py"], Some("old.py")),
        ("R", &[b"old.py", b"a.py"], Some("old.py")),
    ] {
        let output = record(status, paths);
        let changed = parse_raw(&output, command).unwrap();
        assert_eq!(changed.files.len(), 1, "{status}");
        assert_eq!(changed.files[0].path, "a.py".to_string(), "{status}");
        assert_eq!(
            changed.files[0].renamed_from,
            renamed_from.map(str::to_string),
            "{status}"
        );
        assert!(changed.undecodable.is_empty(), "{status}");
    }

    let mut output = record("M", &[b"a.py"]);
    output.extend(record("A", &[b"b.py"]));
    assert_eq!(
        parse_raw(&output, command)
            .unwrap()
            .files
            .iter()
            .map(|file| display_path(file.path.as_str()))
            .collect::<Vec<_>>(),
        vec!["a.py", "b.py"]
    );
}

/// A file with no contents at the base carries no source blob: git writes
/// the all-zero object id, and that is "there is nothing to compare".
#[test]
fn an_all_zero_source_id_means_the_file_had_no_pre_image() {
    let zeros = "0".repeat(40);
    let output = format!(":000000 100644 {zeros} {NEW} A\0new.py\0");
    let changed = parse_raw(&output.as_bytes().to_vec(), "git diff --raw").unwrap();
    assert_eq!(changed.files[0].base_blob, None);

    let output = format!(":100644 100644 {OLD} {NEW} M\0old.py\0");
    let changed = parse_raw(&output.as_bytes().to_vec(), "git diff --raw").unwrap();
    assert_eq!(
        changed.files[0].base_blob.as_ref().map(BlobId::as_str),
        Some(OLD)
    );
}

#[test]
fn positional_paths_select_a_file_or_the_directory_holding_it() {
    let candidate = "src/app.py";
    for selector in [".", "./", "src", "src/", "./src", "src/app.py"] {
        assert!(
            path_selects(selector, candidate),
            "{selector} should select {candidate:?}"
        );
    }
    for selector in ["srcs", "src/app", "docs", "/elsewhere/src"] {
        assert!(
            !path_selects(selector, candidate),
            "{selector} should not select {candidate:?}"
        );
    }
}

fn directive(path: &str, line: u32, end_line: u32) -> IgnoreDirective {
    IgnoreDirective {
        tool: Tool::Ruff,
        scope: Scope::Line,
        rules: vec![],
        reason: None,
        path: path.to_string(),
        line,
        end_line,
        column: 1,
        raw: "# noqa".to_string(),
        suppressed: Suppressed {
            start_line: line,
            end_line: Some(end_line),
        },
        change: None,
    }
}

#[test]
fn only_directives_on_added_lines_survive() {
    let mut report = Report::new();
    report.ignores.push(directive("a.py", 1, 1)); // pre-existing
    report.ignores.push(directive("a.py", 7, 7)); // added
    report.ignores.push(directive("b.py", 7, 7)); // file not in the diff
    report.errors.push(ReportError {
        path: "c.py".into(),
        message: "unreadable".into(),
    });

    let mut changes = ChangeSet::new();
    changes.insert("a.py".to_string(), hunks_of("@@ -6,0 +7,1 @@\n+x\n"));
    retain_new(&mut report, &changes);

    assert_eq!(
        report
            .ignores
            .iter()
            .map(|d| (d.path.as_str(), d.line))
            .collect::<Vec<_>>(),
        vec![("a.py", 7)]
    );
    // A file that could not be read is still reported: the run is incomplete
    // either way.
    assert_eq!(report.errors.len(), 1);
}

#[test]
fn a_directive_spanning_lines_survives_on_a_partial_overlap() {
    let mut report = Report::new();
    // A block-comment directive opened before the change and closed inside
    // it: the change is what made it say what it now says.
    report.ignores.push(directive("a.py", 4, 8));
    let mut changes = ChangeSet::new();
    changes.insert("a.py".to_string(), hunks_of("@@ -7,0 +8,1 @@\n+  reason\n"));
    retain_new(&mut report, &changes);
    assert_eq!(report.ignores.len(), 1, "{report:#?}");

    // ...and one that ends before the first added line does not.
    let mut report = Report::new();
    report.ignores.push(directive("a.py", 4, 6));
    retain_new(&mut report, &changes);
    assert!(report.ignores.is_empty(), "{report:#?}");
}

/// The base side of every hunk header is read too, and a side with no lines
/// on it is `None` rather than a range nothing can be inside.
#[test]
fn hunk_headers_carry_the_base_side_as_well_as_the_new_one() {
    let change = hunks_of("@@ -2 +2 @@\n-old\n+new\n@@ -9,0 +10,2 @@\n+a\n+b\n@@ -20,2 +21,0 @@\n-gone\n-gone\n");
    assert_eq!(
        change.hunks,
        vec![
            Hunk {
                base: Some((2, 2)),
                new: Some((2, 2)),
            },
            // A pure insertion replaced nothing, so no base directive can be
            // inside it.
            Hunk {
                base: None,
                new: Some((10, 11)),
            },
            Hunk {
                base: Some((20, 21)),
                new: None,
            },
        ]
    );
    // Selection is unchanged by any of it: only the new side decides.
    assert!(change.intersects(2, 2) && change.intersects(10, 11));
    assert!(!change.intersects(21, 21));
}

/// A base side this build cannot read is an error for the same reason the
/// new side is: the lines it covers would silently read as unchanged.
#[test]
fn an_unreadable_base_side_is_an_error_rather_than_a_guess() {
    for patch in [
        "@@ +1,2 @@\n",
        "@@ -not-a-number +1 @@\n",
        "@@ -1,x +1 @@\n",
    ] {
        let error = FileChange::parse(patch, "git diff").unwrap_err();
        assert!(matches!(error, DiffError::Malformed { .. }), "{error:?}");
        assert!(error.message().contains("hunk header"), "{error:?}");
    }
}

/// One file's change: the hunks of its patch, and what it used to say.
fn change_of(patch: &str, base: Option<&str>) -> FileChange {
    let mut change = hunks_of(patch);
    change.set_base(base.map(|text| BaseImage {
        path: "a.py".to_string(),
        text: text.to_string(),
    }));
    change
}

/// Classify a one-file report and read back the word on each record.
fn verdicts(source: &str, patch: &str, base: Option<&str>) -> Vec<(u32, Change)> {
    let mut report = scan_source(
        &SourceFile::new("a.py", source.to_string()),
        &ScanOptions::default(),
    );
    let mut changes = ChangeSet::new();
    changes.insert("a.py".to_string(), change_of(patch, base));
    retain_new(&mut report, &changes);
    classify(&mut report, &changes, &[]);
    report
        .ignores
        .iter()
        .map(|directive| {
            (
                directive.line,
                directive.change.expect("a --diff run classifies"),
            )
        })
        .collect()
}

#[test]
fn a_rewritten_reason_is_a_justification_edit_and_a_rewritten_rule_set_is_not() {
    // The same directive, the same rules, a different reason.
    assert_eq!(
        verdicts(
            "x = 1  # noqa: E501  # the new reason\n",
            "@@ -1 +1 @@\n",
            Some("x = 1  # noqa: E501  # the old reason\n"),
        ),
        vec![(1, Change::JustificationEdited)]
    );
    // A reason written where there was none, and one taken away.
    assert_eq!(
        verdicts(
            "x = 1  # noqa: E501  # now justified\n",
            "@@ -1 +1 @@\n",
            Some("x = 1  # noqa: E501\n"),
        ),
        vec![(1, Change::JustificationEdited)]
    );
    assert_eq!(
        verdicts(
            "x = 1  # noqa: E501\n",
            "@@ -1 +1 @@\n",
            Some("x = 1  # noqa: E501  # was justified\n"),
        ),
        vec![(1, Change::JustificationEdited)]
    );
    // The rule set moved: this now silences something its base version did
    // not, whatever happened to the words next to it.
    assert_eq!(
        verdicts(
            "x = 1  # noqa: E501,F401  # the new reason\n",
            "@@ -1 +1 @@\n",
            Some("x = 1  # noqa: E501  # the old reason\n"),
        ),
        vec![(1, Change::Added)]
    );
    // So did the scope.
    assert_eq!(
        verdicts(
            "# ruff: noqa: E501  # a file-wide reason\n",
            "@@ -1 +1 @@\n",
            Some("x = 1  # noqa: E501  # a line-wide reason\n"),
        ),
        vec![(1, Change::Added)]
    );
}

#[test]
fn a_directive_with_no_counterpart_is_added() {
    // Nothing was there: the change wrote it.
    assert_eq!(
        verdicts(
            "x = 1\ny = 2  # noqa: E501  # brand new\n",
            "@@ -1,0 +2 @@\n",
            Some("x = 1\n"),
        ),
        vec![(2, Change::Added)]
    );
    // A file with no pre-image at all — one the change created, or one this
    // build cannot read as text.
    assert_eq!(
        verdicts("x = 1  # noqa: E501  # why\n", "@@ -0,0 +1 @@\n", None),
        vec![(1, Change::Added)]
    );
    // A counterpart of another tool is not a counterpart.
    assert_eq!(
        verdicts(
            "x = 1  # noqa: E501  # a ruff reason\n",
            "@@ -1 +1 @@\n",
            Some("x = 1  # type: ignore  # a mypy reason\n"),
        ),
        vec![(1, Change::Added)]
    );
}

/// Several directives of one tool in one hunk pair in file order.
#[test]
fn directives_in_one_hunk_pair_in_file_order() {
    assert_eq!(
        verdicts(
            "a = 1  # noqa: E501  # first, reworded\nb = 2  # noqa: E501  # second\n",
            "@@ -1,2 +1,2 @@\n",
            Some("a = 1  # noqa: E501  # first\nb = 2  # noqa: E501  # second\n"),
        ),
        vec![(1, Change::JustificationEdited), (2, Change::Added)]
    );
}

/// Classification labels and nothing else: the same records, in the same
/// order, whatever the pre-image says.
#[test]
fn classification_never_moves_a_record() {
    let source = "a = 1  # noqa: E501  # reworded\nb = 2  # noqa: F401  # new\n";
    let mut changes = ChangeSet::new();
    changes.insert(
        "a.py".to_string(),
        change_of("@@ -1,2 +1,2 @@\n", Some("a = 1  # noqa: E501  # was\n")),
    );
    let mut report = scan_source(
        &SourceFile::new("a.py", source.to_string()),
        &ScanOptions::default(),
    );
    retain_new(&mut report, &changes);
    let before = report.clone();
    classify(&mut report, &changes, &[]);

    assert_eq!(report.ignores.len(), before.ignores.len());
    for (after, before) in report.ignores.iter().zip(&before.ignores) {
        assert_eq!(
            IgnoreDirective {
                change: None,
                ..after.clone()
            },
            *before
        );
    }
    assert_eq!(report.errors, before.errors);
}
