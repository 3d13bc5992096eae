use notignored::cli::args::Cli;
use notignored::cli::select::{assemble, finish, wants_change, SelectError, Selection, Written};
use notignored::cli::{ColorChoice, Format, EXIT_ERROR, EXIT_FOUND, EXIT_OK};
use notignored::diff::{relative_selector, BaseImage, ChangeSet, Changed, ChangedFile, DiffError, FileChange};
use notignored::model::Change;
use notignored::scan::{Input, ScanError, ScanOptions};
use notignored::source::SourceFile;

fn cli(paths: &[&str]) -> Cli {
    Cli {
        paths: paths.iter().map(|p| p.to_string()).collect(),
        format: Format::Human,
        color: ColorChoice::Auto,
        tools: Vec::new(),
        fail_if_found: false,
        github_repo: None,
        github_sha: None,
        max_entries: 20,
        diff: true,
        diff_base: None,
    }
}

fn changed(path: &str) -> ChangedFile {
    ChangedFile { path: path.to_string(), renamed_from: None, base_blob: None }
}

fn names(files: &[ChangedFile]) -> Vec<&str> {
    files.iter().map(|f| f.path.as_str()).collect()
}

#[test]
fn overlapping_paths_select_each_changed_file_once_in_path_order() {
    let files = vec![changed("src/b.py"), changed("docs/x.py"), changed("src/a.py")];
    let narrowed = cli(&["src", "src/a.py", "."]).narrow_to_paths(&files, &vec![true, true, true], "/work").unwrap();
    assert_eq!(names(&narrowed), vec!["docs/x.py", "src/a.py", "src/b.py"]);

    let narrowed = cli(&["src"]).narrow_to_paths(&files, &vec![true], "/work").unwrap();
    assert_eq!(names(&narrowed), vec!["src/a.py", "src/b.py"]);
}

#[test]
fn a_path_that_names_nothing_changed_and_nothing_on_disk_is_a_typo() {
    let files = vec![changed("src/a.py")];
    let error = cli(&["src", "does/not/exist"]).narrow_to_paths(&files, &vec![true, false], "/work").unwrap_err();
    assert_eq!(
        error,
        ScanError::Path { path: "does/not/exist".to_string(), message: "no such file or directory".to_string() }
    );
    assert_eq!(error.message(), "cannot read does/not/exist: no such file or directory");
    // A path that exists but holds no change narrows to an empty run.
    let narrowed = cli(&["docs"]).narrow_to_paths(&files, &vec![true], "/work").unwrap();
    assert!(narrowed.is_empty());
    // A deleted file is still named by the change, so it is no typo.
    let narrowed = cli(&["src/a.py"]).narrow_to_paths(&files, &vec![false], "/work").unwrap();
    assert_eq!(names(&narrowed), vec!["src/a.py"]);
}

#[test]
fn only_existing_files_a_parser_reads_are_worth_a_diff() {
    assert!(wants_change(&changed("a.py"), true));
    assert!(!wants_change(&changed("a.py"), false));
    assert!(!wants_change(&changed("README.md"), true));
}

#[test]
fn an_undecodable_changed_path_is_carried_as_an_error() {
    let change = Changed { files: vec![changed("a.py")], undecodable: vec!["caf\u{fffd}.py".to_string()] };
    let selection = Selection::of_change(&change);
    assert!(selection.files.is_empty());
    assert_eq!(selection.errors.len(), 1);
    assert_eq!(selection.errors[0].path, "caf\u{fffd}.py");
    assert_eq!(selection.errors[0].message, "path is not valid UTF-8, so it cannot be scanned");
}

#[test]
fn a_diff_run_reports_only_what_the_change_added_and_labels_it() {
    let mut selection = Selection::of_change(&Changed::default());
    let patch = FileChange::parse("@@ -1 +1 @@\n", "git diff").unwrap();
    let base = BaseImage { path: "a.py".to_string(), text: "x = 1  # noqa: E501  # old\n".to_string() };
    selection.take_in(&changed("./a.py"), patch, Some(base));
    assert_eq!(selection.files, vec!["./a.py".to_string()]);
    assert!(selection.changes.as_ref().unwrap().get("a.py").is_some());

    let source = "x = 1  # noqa: E501  # new\ny = 2  # noqa: F401\n";
    let inputs = vec![Input::Source(SourceFile::new("./a.py", source.to_string()))];
    let report = assemble(selection, &inputs, &ScanOptions::default());
    assert_eq!(report.ignores.len(), 1, "{report:#?}");
    assert_eq!(report.ignores[0].line, 1);
    assert_eq!(report.ignores[0].change, Some(Change::JustificationEdited));
    assert!(report.errors.is_empty());
}

#[test]
fn a_tree_run_reports_everything_and_merges_selection_errors_in_order() {
    let inputs = vec![
        Input::Source(SourceFile::new("b.py", "x = 1  # noqa\n".to_string())),
        Input::Unreadable { path: "z.py".to_string(), message: "stream did not contain valid UTF-8".to_string() },
    ];
    let mut selection = Selection::tree(vec!["b.py".to_string(), "z.py".to_string()]);
    selection.errors.push(notignored::model::ReportError { path: "a.py".to_string(), message: "gone".to_string() });
    let report = assemble(selection, &inputs, &ScanOptions::default());
    assert_eq!(report.ignores.len(), 1);
    assert_eq!(report.ignores[0].change, None);
    let paths: Vec<&str> = report.errors.iter().map(|e| e.path.as_str()).collect();
    assert_eq!(paths, vec!["a.py", "z.py"]);
}

#[test]
fn a_failed_write_is_an_error_and_a_closed_pipe_is_not() {
    let report = notignored::model::Report::new();
    assert_eq!(finish(&report, true, Written::Complete), EXIT_OK);
    assert_eq!(finish(&report, true, Written::ClosedPipe), EXIT_OK);
    assert_eq!(finish(&report, true, Written::Failed), EXIT_ERROR);

    let mut found = notignored::model::Report::new();
    let source = SourceFile::new("a.py", "x = 1  # noqa\n".to_string());
    found.ignores = notignored::scan::scan_source(&source, &ScanOptions::default()).ignores;
    assert_eq!(finish(&found, true, Written::ClosedPipe), EXIT_FOUND);
    assert_eq!(finish(&found, false, Written::ClosedPipe), EXIT_OK);
}

#[test]
fn a_selection_failure_says_what_and_what_next() {
    let scan = SelectError::Scan(ScanError::Path { path: "x".to_string(), message: "no such file or directory".to_string() });
    assert_eq!(scan.message(), "cannot read x: no such file or directory");
    assert_eq!(scan.hint(), "pass paths that exist, or omit them to scan the current directory");
    let diff = SelectError::Diff(DiffError::GitMissing);
    assert_eq!(diff.message(), "cannot diff: git not found on PATH");
    assert!(diff.hint().contains("install git"));
    let _ = ChangeSet::new();
}

#[test]
fn an_absolute_path_under_the_working_directory_selects_like_its_relative_spelling() {
    let files = vec![changed("app.py"), changed("src/a.py")];
    let narrowed = cli(&["/work/app.py"]).narrow_to_paths(&files, &vec![true], "/work").unwrap();
    assert_eq!(names(&narrowed), vec!["app.py"]);
    let narrowed = cli(&["/work"]).narrow_to_paths(&files, &vec![true], "/work/").unwrap();
    assert_eq!(names(&narrowed), vec!["app.py", "src/a.py"]);
    // Elsewhere on disk, or climbing out of the tree, selects nothing.
    let narrowed = cli(&["/definitely/elsewhere"]).narrow_to_paths(&files, &vec![true], "/work").unwrap();
    assert!(narrowed.is_empty());
    let narrowed = cli(&["../sibling"]).narrow_to_paths(&files, &vec![true], "/work").unwrap();
    assert!(narrowed.is_empty());
    // A `..` that comes back down again stays inside.
    let narrowed = cli(&["/work/docs/../app.py"]).narrow_to_paths(&files, &vec![true], "/work").unwrap();
    assert_eq!(names(&narrowed), vec!["app.py"]);
}

#[test]
fn an_absolute_selector_is_read_relative_to_the_working_directory() {
    assert_eq!(relative_selector("/work/src/app.py", "/work"), "src/app.py");
    assert_eq!(relative_selector("/work//src/./app.py", "/work/"), "src/app.py");
    assert_eq!(relative_selector("/work", "/work"), "");
    assert_eq!(relative_selector("/workshop/app.py", "/work"), "/workshop/app.py");
    assert_eq!(relative_selector("src/app.py", "/work"), "src/app.py");
}
