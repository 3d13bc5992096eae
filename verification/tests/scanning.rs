use notignored::model::{Report, Tool};
use notignored::scan::{scan_files, scan_source, Input, ScanOptions};
use notignored::source::SourceFile;
use notignored::tools::llmlint::KEYWORD;

fn source(path: &str, text: &str) -> Input {
    Input::Source(SourceFile::new(path, text.to_string()))
}

#[test]
fn every_file_is_scanned_and_the_report_is_in_path_order() {
    let inputs = vec![
        source("src/b.py", "x = 1  # noqa: E501\n"),
        source("./src/a.py", "y = 2  # type: ignore\nz = 3  # noqa\n"),
        source("notes.md", "# noqa\n"),
    ];
    let report = scan_files(&inputs, &ScanOptions::default());
    let found: Vec<(&str, u32, Tool)> =
        report.ignores.iter().map(|d| (d.path.as_str(), d.line, d.tool)).collect();
    assert_eq!(
        found,
        vec![("src/a.py", 1, Tool::Mypy), ("src/a.py", 2, Tool::Ruff), ("src/b.py", 1, Tool::Ruff)]
    );
    assert!(report.errors.is_empty());
    assert_eq!(report.version, Report::new().version);
}

#[test]
fn a_tool_filter_selects_parsers() {
    let inputs = vec![source("a.py", "x = 1  # noqa: E501  # type: ignore\n")];
    let only_ruff = scan_files(&inputs, &ScanOptions { tools: vec![Tool::Ruff] });
    assert_eq!(only_ruff.ignores.len(), 1);
    assert_eq!(only_ruff.ignores[0].tool, Tool::Ruff);
    let only_eslint = scan_files(&inputs, &ScanOptions { tools: vec![Tool::Eslint] });
    assert!(only_eslint.ignores.is_empty());
}

#[test]
fn an_unreadable_file_becomes_a_report_error_not_a_panic() {
    let inputs = vec![
        Input::Unreadable { path: "broken.py".to_string(), message: "stream did not contain valid UTF-8".to_string() },
        source("a.py", "x = 1\n"),
    ];
    let report = scan_files(&inputs, &ScanOptions::default());
    assert!(report.ignores.is_empty());
    assert_eq!(report.errors.len(), 1);
    assert_eq!(report.errors[0].path, "broken.py");
    assert_eq!(report.errors[0].message, "stream did not contain valid UTF-8");
}

#[test]
fn an_unclosed_llmlint_block_is_a_report_error() {
    let text = "# llmlint: ignore-block[no_todo] pending\nx = 1\n";
    let report = scan_source(&SourceFile::new("a.py", text.to_string()), &ScanOptions::default());
    assert_eq!(report.ignores.len(), 1);
    assert_eq!(report.ignores[0].suppressed.end_line, None);
    assert_eq!(report.errors.len(), 1);
    assert_eq!(report.errors[0].path, "a.py");
}

#[test]
fn a_keyword_followed_by_a_letter_of_any_script_is_no_keyword() {
    assert_eq!(notignored::tools::python::strip_keyword("ignoreé", "ignore"), None);
    assert_eq!(notignored::tools::python::strip_keyword("ignore!", "ignore").as_deref(), Some("!"));
}

#[test]
fn every_record_names_its_file_and_the_tool_that_found_it() {
    let file = SourceFile::new(
        "./src/app.py",
        format!(
            "x = 1  # type: ignore  # noqa: E501\ny = 2  # pyright: ignore[reportGeneralTypeIssues]\n# {KEYWORD}: ignore[a] why\n"
        ),
    );
    let all = scan_source(&file, &ScanOptions::default());
    let tools: Vec<Tool> = all.ignores.iter().map(|d| d.tool).collect();
    assert_eq!(tools.iter().filter(|t| **t == Tool::Mypy).count(), 1);
    assert_eq!(tools.iter().filter(|t| **t == Tool::Ruff).count(), 1);
    assert_eq!(tools.iter().filter(|t| **t == Tool::Pyright).count(), 1);
    assert_eq!(tools.iter().filter(|t| **t == Tool::Llmlint).count(), 1);
    assert!(all.ignores.iter().all(|d| d.path == "src/app.py"));
    let some = scan_source(&file, &ScanOptions { tools: vec![Tool::Ruff, Tool::Eslint] });
    assert_eq!(some.ignores.len(), 1);
    assert!(some.ignores.iter().all(|d| d.tool == Tool::Ruff && d.path == "src/app.py"));
}
