use notignored::model::{IgnoreDirective, Scope, Suppressed, Tool};
use notignored::source::SourceFile;
use notignored::tools::ToolParser;
use notignored::tools::pyright::PyrightParser;

fn parse(source: &str) -> Vec<IgnoreDirective> {
    let file = SourceFile::new("src/app.py", source.to_string());
    PyrightParser.parse(&file)
}

fn only(source: &str) -> IgnoreDirective {
    let mut found = parse(source);
    assert_eq!(
        found.len(),
        1,
        "expected one directive in {source:?}: {found:#?}"
    );
    found.remove(0)
}

#[test]
fn pyright_the_parser_claims_python_files_only() {
    assert_eq!(PyrightParser.tool(), Tool::Pyright);
    assert!(PyrightParser.applies_to(&SourceFile::new("a.py", String::new())));
    assert!(!PyrightParser.applies_to(&SourceFile::new("a.rs", String::new())));
}

#[test]
fn a_bare_ignore_is_a_blanket_line_suppression() {
    let directive = only("f(1)  # pyright: ignore\n");
    assert_eq!(directive.tool, Tool::Pyright);
    assert_eq!(directive.scope, Scope::Line);
    assert!(directive.rules.is_empty());
    assert_eq!(directive.reason, None);
    assert_eq!(directive.path, "src/app.py");
    assert_eq!(
        (directive.line, directive.end_line, directive.column),
        (1, 1, 7)
    );
    assert_eq!(directive.raw, "# pyright: ignore");
    assert_eq!(
        directive.suppressed,
        Suppressed {
            start_line: 1,
            end_line: Some(1)
        }
    );
}

#[test]
fn pyright_rule_names_are_captured_verbatim() {
    assert_eq!(
        only("f(1)  # pyright: ignore[reportArgumentType]\n").rules,
        vec!["reportArgumentType"]
    );
    assert_eq!(
        only("f(1)  # pyright: ignore[reportAny, reportUnusedImport]\n").rules,
        vec!["reportAny", "reportUnusedImport"]
    );
}

#[test]
fn pyright_a_trailing_comment_becomes_the_reason() {
    let directive = only("f(1)  # pyright: ignore[reportAny]  # third-party stub is Any\n");
    assert_eq!(directive.rules, vec!["reportAny"]);
    assert_eq!(directive.reason.as_deref(), Some("third-party stub is Any"));
}

#[test]
fn pyright_a_directive_need_not_open_the_comment() {
    let directive = only("f(1)  # noqa: F401  # pyright: ignore[reportAny]\n");
    assert_eq!(directive.rules, vec!["reportAny"]);
    assert_eq!(directive.raw, "# pyright: ignore[reportAny]");
    assert_eq!(directive.column, 21);
}

#[test]
fn a_leading_directive_still_only_covers_its_own_line() {
    // Pyright gives a comment above the first statement no module-wide
    // meaning, so neither do we.
    let directive = only("# pyright: ignore\nimport os\n");
    assert_eq!(directive.scope, Scope::Line);
    assert_eq!(
        directive.suppressed,
        Suppressed {
            start_line: 1,
            end_line: Some(1)
        }
    );
}

#[test]
fn mode_switches_are_configuration_not_suppressions() {
    assert!(parse("# pyright: basic\nimport os\n").is_empty());
    assert!(parse("# pyright: strict\nimport os\n").is_empty());
}

#[test]
fn a_rule_switched_off_is_a_file_wide_suppression() {
    let directive = only("# pyright: reportMissingImports=false\nimport legacy\n");
    assert_eq!(directive.scope, Scope::File);
    assert_eq!(directive.rules, vec!["reportMissingImports"]);
    assert_eq!(directive.reason, None);
    assert_eq!((directive.line, directive.column), (1, 1));
    assert_eq!(directive.raw, "# pyright: reportMissingImports=false");
    assert_eq!(
        directive.suppressed,
        Suppressed {
            start_line: 1,
            end_line: None
        }
    );
    // `none` is pyright's other off value, and the spaces it tolerates
    // around the `=` do not change what it reads.
    assert_eq!(
        only("# pyright: reportMissingImports = none\nimport legacy\n").rules,
        vec!["reportMissingImports"]
    );
}

#[test]
fn only_the_rules_switched_off_are_reported() {
    let directive = only(
        "# pyright: strict, reportMissingImports=false, reportAny=error, reportUnusedImport=none\n",
    );
    assert_eq!(
        directive.rules,
        vec!["reportMissingImports", "reportUnusedImport"]
    );
    // A rule turned on, or given a severity, silences nothing.
    for on in ["true", "error", "warning", "information"] {
        assert!(
            parse(&format!("# pyright: reportAny={on}\n")).is_empty(),
            "`{on}` is not a suppression"
        );
    }
}

#[test]
fn a_rule_override_pyright_rejects_is_not_a_suppression() {
    // Pyright reads the rest of the line as its item list, so each of these
    // makes it refuse the comment — and silence nothing.
    for rejected in [
        "# pyright: reportAny=false  # no stubs published",
        "# pyright: reportAny=False",
        "# pyright: reportAny",
        "# pyright: reportAny=false, ",
        "# pyright: =false",
    ] {
        assert!(
            parse(&format!("{rejected}\nimport legacy\n")).is_empty(),
            "{rejected:?} is a form pyright refuses"
        );
    }
    // The directive has to open the comment: embedded, pyright reads prose.
    assert!(parse("# stale  # pyright: reportAny=false\n").is_empty());
}

#[test]
fn a_rule_override_is_reported_wherever_pyright_applies_it() {
    // Pyright faults the placement of an override that trails code and then
    // applies it anyway, so the rule really is off for the file.
    let directive = only("import legacy  # pyright: reportMissingImports=false\n");
    assert_eq!(directive.scope, Scope::File);
    assert_eq!(directive.rules, vec!["reportMissingImports"]);
    assert_eq!((directive.line, directive.column), (1, 16));
}

#[test]
fn pyright_look_alike_comments_are_not_directives() {
    assert!(parse("f(1)  # pyright: ignored\n").is_empty());
    assert!(parse("f(1)  # pyright ignore\n").is_empty());
    assert!(parse("f(1)  # PYRIGHT: IGNORE\n").is_empty());
    assert!(parse("f(1)  # type: ignore\n").is_empty());
    assert!(parse("f(1)  # copyright: ignore\n").is_empty());
}

#[test]
fn pyright_a_directive_inside_a_string_literal_is_not_reported() {
    assert!(parse("MSG = \"# pyright: ignore\"\n").is_empty());
}

#[test]
fn pyright_every_directive_in_a_file_is_reported_in_source_order() {
    let found = parse("f(1)  # pyright: ignore\ng(2)  # pyright: ignore[reportAny]\n");
    assert_eq!(found.len(), 2);
    assert_eq!(found.iter().map(|d| d.line).collect::<Vec<_>>(), vec![1, 2]);
}
