use notignored::model::{IgnoreDirective, Scope, Suppressed, Tool};
use notignored::source::SourceFile;
use notignored::tools::ToolParser;
use notignored::tools::shellcheck::ShellcheckParser;

fn parse(source: &str) -> Vec<IgnoreDirective> {
    let file = SourceFile::new("scripts/deploy.sh", source.to_string());
    ShellcheckParser.parse(&file)
}

fn only(source: &str) -> IgnoreDirective {
    let mut found = parse(source);
    assert_eq!(
        found.len(),
        1,
        "expected one directive in {source:?}: {found:#?}"
    );
    found.remove(0)
}

#[test]
fn the_parser_claims_shell_files_only() {
    assert_eq!(ShellcheckParser.tool(), Tool::Shellcheck);
    assert!(ShellcheckParser.applies_to(&SourceFile::new("a.sh", String::new())));
    assert!(!ShellcheckParser.applies_to(&SourceFile::new("a.py", String::new())));
}

#[test]
fn a_directive_before_the_first_command_covers_the_file() {
    let directive = only("#!/bin/bash\n# shellcheck disable=SC2086\necho $1\n");
    assert_eq!(directive.tool, Tool::Shellcheck);
    assert_eq!(directive.scope, Scope::File);
    assert_eq!(directive.rules, vec!["SC2086"]);
    assert_eq!(directive.reason, None);
    assert_eq!(directive.path, "scripts/deploy.sh");
    assert_eq!(
        (directive.line, directive.end_line, directive.column),
        (2, 2, 1)
    );
    assert_eq!(directive.raw, "# shellcheck disable=SC2086");
    assert_eq!(
        directive.suppressed,
        Suppressed {
            start_line: 1,
            end_line: None
        }
    );
}

#[test]
fn a_directive_after_a_command_covers_the_next_line() {
    let directive = only("#!/bin/bash\necho hi\n# shellcheck disable=SC2086\necho $1\n");
    assert_eq!(directive.scope, Scope::NextLine);
    assert_eq!(
        directive.suppressed,
        Suppressed {
            start_line: 4,
            end_line: Some(4)
        }
    );
}

#[test]
fn an_assignment_counts_as_the_first_command() {
    assert_eq!(
        only("#!/bin/bash\nX=1\n# shellcheck disable=SC2086\necho $1\n").scope,
        Scope::NextLine
    );
}

#[test]
fn blank_lines_and_comments_do_not_start_the_script() {
    assert_eq!(
        only("#!/bin/bash\n\n# a note\n\n# shellcheck disable=SC2086\necho $1\n").scope,
        Scope::File
    );
}

#[test]
fn several_codes_split_on_commas() {
    assert_eq!(
        only("# shellcheck disable=SC2086,SC2046\necho $1\n").rules,
        vec!["SC2086", "SC2046"]
    );
}

#[test]
fn a_code_range_is_recorded_as_the_token_the_author_wrote() {
    assert_eq!(
        only("# shellcheck disable=SC2000-SC2100\necho $1\n").rules,
        vec!["SC2000-SC2100"]
    );
}

#[test]
fn disable_all_is_a_blanket_suppression() {
    let directive = only("# shellcheck disable=all\necho $1\n");
    assert!(directive.rules.is_empty());
    assert_eq!(directive.scope, Scope::File);
}

#[test]
fn shellcheck_a_trailing_comment_becomes_the_reason() {
    let directive =
        only("#!/bin/bash\n# shellcheck disable=SC2086  #   word   splitting is wanted \n");
    assert_eq!(directive.rules, vec!["SC2086"]);
    assert_eq!(
        directive.reason.as_deref(),
        Some("word splitting is wanted")
    );
    // `raw` is the directive exactly as written, trailing space included.
    assert_eq!(
        directive.raw,
        "# shellcheck disable=SC2086  #   word   splitting is wanted "
    );
}

#[test]
fn several_keys_on_one_line_are_merged_into_one_record() {
    let directive =
        only("# shellcheck shell=bash disable=SC2086 disable=SC2116 # both\necho $1\n");
    assert_eq!(directive.rules, vec!["SC2086", "SC2116"]);
    assert_eq!(directive.reason.as_deref(), Some("both"));
}

#[test]
fn directives_that_shellcheck_rejects_are_not_reported() {
    // Trailing prose without a `#` is SC1072: the directive is voided.
    assert!(
        parse("# shellcheck disable=SC2086 word splitting is wanted\necho $1\n").is_empty()
    );
    // A directive that trails a command is SC1126.
    assert!(parse("#!/bin/bash\necho hi\necho $1 # shellcheck disable=SC2086\n").is_empty());
    // The keyword is lower-case and must open the comment.
    assert!(parse("# ShellCheck disable=SC2086\necho $1\n").is_empty());
    assert!(parse("# note: shellcheck disable=SC2086\necho $1\n").is_empty());
    assert!(parse("# shellcheckdisable=SC2086\necho $1\n").is_empty());
}

#[test]
fn directives_that_disable_nothing_are_not_suppressions() {
    assert!(parse("# shellcheck shell=bash\necho $1\n").is_empty());
    assert!(parse("# shellcheck source=./lib.sh\n. ./lib.sh\n").is_empty());
    assert!(parse("# shellcheck disable=\necho $1\n").is_empty());
}

#[test]
fn a_directive_inside_a_string_is_not_a_comment() {
    assert!(parse("#!/bin/bash\necho '# shellcheck disable=SC2086'\n").is_empty());
}

#[test]
fn shellcheck_every_directive_in_a_file_is_reported_in_source_order() {
    let found = parse("#!/bin/bash\n# shellcheck disable=SC2086\necho $1\n# shellcheck disable=SC2046  # command substitution is intended\necho $(ls)\n");
    assert_eq!(found.len(), 2);
    assert_eq!(found.iter().map(|d| d.line).collect::<Vec<_>>(), vec![2, 4]);
    assert_eq!(found[0].scope, Scope::File);
    assert_eq!(found[1].scope, Scope::NextLine);
}

#[test]
fn a_script_with_no_commands_reports_every_directive_at_file_scope() {
    let directive = only("# shellcheck disable=SC2086\n");
    assert_eq!(directive.scope, Scope::File);
}
