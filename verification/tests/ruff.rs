use notignored::model::{IgnoreDirective, Scope, Suppressed, Tool};
use notignored::source::SourceFile;
use notignored::tools::ToolParser;
use notignored::tools::ruff::{RuffParser, is_rule_code};

fn parse(source: &str) -> Vec<IgnoreDirective> {
    let file = SourceFile::new("src/app.py", source.to_string());
    RuffParser.parse(&file)
}

fn only(source: &str) -> IgnoreDirective {
    let mut found = parse(source);
    assert_eq!(
        found.len(),
        1,
        "expected one directive in {source:?}: {found:#?}"
    );
    found.remove(0)
}

#[test]
fn ruff_the_parser_claims_python_files_only() {
    assert_eq!(RuffParser.tool(), Tool::Ruff);
    assert!(RuffParser.applies_to(&SourceFile::new("a.py", String::new())));
    assert!(!RuffParser.applies_to(&SourceFile::new("a.rs", String::new())));
}

#[test]
fn a_bare_noqa_is_a_blanket_line_suppression() {
    let directive = only("x = 1  # noqa\n");
    assert_eq!(directive.tool, Tool::Ruff);
    assert_eq!(directive.scope, Scope::Line);
    assert!(directive.rules.is_empty());
    assert_eq!(directive.reason, None);
    assert_eq!(directive.path, "src/app.py");
    assert_eq!(
        (directive.line, directive.end_line, directive.column),
        (1, 1, 8)
    );
    assert_eq!(directive.raw, "# noqa");
    assert_eq!(
        directive.suppressed,
        Suppressed {
            start_line: 1,
            end_line: Some(1)
        }
    );
}

#[test]
fn a_single_code_is_captured_verbatim() {
    let directive = only("import os  # noqa: F401\n");
    assert_eq!(directive.rules, vec!["F401"]);
    assert_eq!(directive.scope, Scope::Line);
}

#[test]
fn several_codes_split_on_commas_and_whitespace() {
    assert_eq!(
        only("x = 1  # noqa: E501, F401\n").rules,
        vec!["E501", "F401"]
    );
    assert_eq!(
        only("x = 1  # noqa:E501,F401\n").rules,
        vec!["E501", "F401"]
    );
    assert_eq!(
        only("x = 1  # noqa: E501 F401\n").rules,
        vec!["E501", "F401"]
    );
    assert_eq!(only("x = 1  # noqa: PLR0913\n").rules, vec!["PLR0913"]);
}

#[test]
fn ruff_a_trailing_comment_becomes_the_reason() {
    let directive = only("u = URL  # noqa: E501  # long wrapped URL\n");
    assert_eq!(directive.rules, vec!["E501"]);
    assert_eq!(directive.reason.as_deref(), Some("long wrapped URL"));
    assert_eq!(directive.raw, "# noqa: E501  # long wrapped URL");
    assert_eq!(directive.column, 10);
}

#[test]
fn a_blanket_directive_can_carry_a_reason_too() {
    let directive = only("x = 1  # noqa  # generated file\n");
    assert!(directive.rules.is_empty());
    assert_eq!(directive.reason.as_deref(), Some("generated file"));
}

#[test]
fn reason_whitespace_is_collapsed_and_an_empty_reason_is_none() {
    assert_eq!(
        only("x = 1  # noqa: E501  #   spaced    out  \n")
            .reason
            .as_deref(),
        Some("spaced out")
    );
    assert_eq!(only("x = 1  # noqa: E501  #   \n").reason, None);
}

#[test]
fn trailing_prose_without_a_hash_is_not_a_reason() {
    let directive = only("x = 1  # noqa: E501 because it is long\n");
    assert_eq!(directive.rules, vec!["E501"]);
    assert_eq!(directive.reason, None);
}

#[test]
fn file_level_directives_run_to_end_of_file() {
    let directive = only("# ruff: noqa\nx = 1\n");
    assert_eq!(directive.scope, Scope::File);
    assert!(directive.rules.is_empty());
    assert_eq!(
        directive.suppressed,
        Suppressed {
            start_line: 1,
            end_line: None
        }
    );
    assert_eq!(directive.column, 1);
}

#[test]
fn file_level_directives_can_name_codes_and_a_reason() {
    let directive = only("# ruff: noqa: E501  # vendored\nx = 1\n");
    assert_eq!(directive.scope, Scope::File);
    assert_eq!(directive.rules, vec!["E501"]);
    assert_eq!(directive.reason.as_deref(), Some("vendored"));
}

#[test]
fn the_keyword_is_case_insensitive() {
    assert_eq!(only("x = 1  # NOQA: E501\n").rules, vec!["E501"]);
    assert_eq!(only("# RUFF: NoQA\nx = 1\n").scope, Scope::File);
}

#[test]
fn ruff_a_directive_need_not_open_the_comment() {
    let directive = only("x = 1  # type: ignore  # noqa: E501\n");
    assert_eq!(directive.rules, vec!["E501"]);
    assert_eq!(directive.raw, "# noqa: E501");
    assert_eq!(directive.column, 24);
}

#[test]
fn look_alike_words_are_not_directives() {
    assert!(parse("x = 1  # noqable\n").is_empty());
    assert!(parse("x = 1  # not a noqa marker\n").is_empty());
    assert!(parse("x = 1  # ruff: format\n").is_empty());
    assert!(parse("x = 1  # ruff: noqable\n").is_empty());
}

#[test]
fn noqa_inside_a_string_literal_is_not_a_directive() {
    assert!(parse("MSG = \"# noqa: E501\"\n").is_empty());
    assert!(parse("DOC = '''\n# noqa\n'''\n").is_empty());
}

#[test]
fn empty_codes_degrade_to_a_blanket_suppression() {
    let directive = only("x = 1  # noqa:\n");
    assert!(directive.rules.is_empty());
    assert_eq!(directive.scope, Scope::Line);
}

#[test]
fn unparseable_codes_stop_the_code_list() {
    let directive = only("x = 1  # noqa: E501, oops\n");
    assert_eq!(directive.rules, vec!["E501"]);
}

#[test]
fn ruff_every_directive_in_a_file_is_reported_in_source_order() {
    let found = parse("# ruff: noqa: E501\nimport os  # noqa: F401\nx = 1  # noqa\n");
    assert_eq!(found.len(), 3);
    assert_eq!(
        found.iter().map(|d| d.line).collect::<Vec<_>>(),
        vec![1, 2, 3]
    );
    assert_eq!(found[0].scope, Scope::File);
}

#[test]
fn rule_code_shapes_are_recognized_precisely() {
    assert!(is_rule_code("E501"));
    assert!(is_rule_code("PLR0913"));
    assert!(!is_rule_code(""));
    assert!(!is_rule_code("E"));
    assert!(!is_rule_code("501"));
    assert!(!is_rule_code("E501x"));
}

#[test]
fn a_short_comment_cannot_be_mistaken_for_a_keyword() {
    assert!(parse("x = 1  # no\n").is_empty());
    assert!(parse("x = 1  #\n").is_empty());
}
