use std::str::FromStr;

use notignored::model::{IgnoreDirective, Report, ReportError, Scope, Suppressed, Tool, normalize_reason, REPORT_VERSION};

#[test]
fn tool_names_round_trip_through_from_str() {
    for tool in Tool::ALL {
        assert_eq!(Tool::from_str(tool.as_str()), Ok(tool));
        assert_eq!(tool.to_string(), tool.as_str());
    }
}

#[test]
fn unknown_tool_names_are_rejected_with_the_known_set() {
    let err = Tool::from_str("flake8").unwrap_err();
    assert_eq!(err.name, "flake8");
    let msg = err.message();
    assert!(msg.contains("flake8"), "{msg}");
    assert!(msg.contains("ruff"), "{msg}");
}

#[test]
fn only_the_registered_tools_report_as_implemented() {
    assert!(Tool::Ruff.is_implemented());
    assert!(!Tool::Eslint.is_implemented());
}

#[test]
fn scope_names_are_kebab_case() {
    assert_eq!(Scope::NextLine.to_string(), "next-line");
    assert_eq!(Scope::Line.as_str(), "line");
    assert_eq!(Scope::File.as_str(), "file");
    assert_eq!(Scope::Block.as_str(), "block");
}

#[test]
fn reasons_collapse_whitespace_and_drop_empties() {
    assert_eq!(
        normalize_reason("  long   wrapped\n URL "),
        Some("long wrapped URL".into())
    );
    assert_eq!(normalize_reason("   \n  "), None);
}

#[test]
fn normalizing_a_normalized_reason_changes_nothing() {
    let once = normalize_reason("\t why:\u{a0}the   vendored\r\n  parser  ").unwrap();
    assert_eq!(once, "why: the vendored parser");
    assert_eq!(normalize_reason(&once), Some(once.clone()));
    assert_eq!(normalize_reason("\u{2003}\u{3000}\n"), None);
    assert_eq!(normalize_reason("x"), Some("x".to_string()));
}

#[test]
fn sort_orders_by_path_then_position() {
    let mut report = Report::default();
    report.ignores.push(directive("b.py", 1, 1));
    report.ignores.push(directive("a.py", 9, 1));
    report.ignores.push(directive("a.py", 2, 7));
    report.ignores.push(directive("a.py", 2, 3));
    report.errors.push(ReportError {
        path: "z.py".into(),
        message: "b".into(),
    });
    report.errors.push(ReportError {
        path: "a.py".into(),
        message: "a".into(),
    });
    report.sort();

    let order: Vec<_> = report
        .ignores
        .iter()
        .map(|d| (d.path.as_str(), d.line, d.column))
        .collect();
    assert_eq!(
        order,
        vec![
            ("a.py", 2, 3),
            ("a.py", 2, 7),
            ("a.py", 9, 1),
            ("b.py", 1, 1)
        ]
    );
    assert_eq!(report.errors[0].path, "a.py");
    assert_eq!(report.version, REPORT_VERSION);
}

fn directive(path: &str, line: u32, column: u32) -> IgnoreDirective {
    IgnoreDirective {
        tool: Tool::Ruff,
        scope: Scope::Line,
        rules: vec![],
        reason: None,
        path: path.to_string(),
        line,
        end_line: line,
        column,
        raw: "# noqa".to_string(),
        suppressed: Suppressed {
            start_line: line,
            end_line: Some(line),
        },
        change: None,
    }
}

#[test]
fn a_future_envelope_version_is_refused() {
    let error = notignored::model::accept_version(REPORT_VERSION + 1).unwrap_err();
    assert!(error.contains("newer than this build"), "{error}");
    assert_eq!(error, "report version 2 is newer than this build understands (1); upgrade notignored");
    assert_eq!(notignored::model::accept_version(REPORT_VERSION), Ok(REPORT_VERSION));
    assert_eq!(notignored::model::accept_version(0), Ok(0));
}
