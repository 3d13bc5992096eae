use notignored::model::{IgnoreDirective, Scope, Suppressed, Tool};
use notignored::source::SourceFile;
use notignored::tools::ToolParser;
use notignored::tools::eslint::{EslintParser, split_description};

fn parse(source: &str) -> Vec<IgnoreDirective> {
    let file = SourceFile::new("src/app.ts", source.to_string());
    EslintParser.parse(&file)
}

fn only(source: &str) -> IgnoreDirective {
    let mut found = parse(source);
    assert_eq!(
        found.len(),
        1,
        "expected one directive in {source:?}: {found:#?}"
    );
    found.remove(0)
}

#[test]
fn eslint_the_parser_claims_javascript_and_typescript() {
    assert_eq!(EslintParser.tool(), Tool::Eslint);
    assert!(EslintParser.applies_to(&SourceFile::new("a.js", String::new())));
    assert!(EslintParser.applies_to(&SourceFile::new("a.tsx", String::new())));
    assert!(!EslintParser.applies_to(&SourceFile::new("a.py", String::new())));
}

#[test]
fn a_next_line_directive_carries_its_rule_reason_and_span() {
    let directive = only("// eslint-disable-next-line no-console -- debugging aid\nlog();\n");
    assert_eq!(directive.tool, Tool::Eslint);
    assert_eq!(directive.scope, Scope::NextLine);
    assert_eq!(directive.rules, vec!["no-console"]);
    assert_eq!(directive.reason.as_deref(), Some("debugging aid"));
    assert_eq!(directive.path, "src/app.ts");
    assert_eq!(
        (directive.line, directive.end_line, directive.column),
        (1, 1, 1)
    );
    assert_eq!(
        directive.raw,
        "// eslint-disable-next-line no-console -- debugging aid"
    );
    assert_eq!(
        directive.suppressed,
        Suppressed {
            start_line: 2,
            end_line: Some(2)
        }
    );
}

#[test]
fn a_disable_line_directive_covers_its_own_line() {
    let directive = only("log(); // eslint-disable-line no-console\n");
    assert_eq!(directive.scope, Scope::Line);
    assert_eq!(directive.column, 8);
    assert_eq!(
        directive.suppressed,
        Suppressed {
            start_line: 1,
            end_line: Some(1)
        }
    );
}

#[test]
fn rules_split_on_commas_only() {
    assert_eq!(
        only("// eslint-disable-next-line no-alert, no-console\nx;\n").rules,
        vec!["no-alert", "no-console"]
    );
    assert_eq!(
        only("// eslint-disable-next-line no-alert,no-console\nx;\n").rules,
        vec!["no-alert", "no-console"]
    );
    // ESLint reads this as one (nonexistent) rule id, and so do we.
    assert_eq!(
        only("// eslint-disable-next-line no-alert no-console\nx;\n").rules,
        vec!["no-alert no-console"]
    );
    // Plugin rule ids keep their slashes and scopes.
    assert_eq!(
        only("// eslint-disable-next-line @typescript-eslint/no-explicit-any\nx;\n").rules,
        vec!["@typescript-eslint/no-explicit-any"]
    );
}

#[test]
fn a_directive_with_no_rules_is_blanket() {
    let directive = only("// eslint-disable-next-line\nx;\n");
    assert!(directive.rules.is_empty());
    assert_eq!(directive.reason, None);
}

#[test]
fn the_description_separator_needs_whitespace_and_two_dashes() {
    assert_eq!(
        only("// eslint-disable-next-line no-console ---- long dashes\nx;\n")
            .reason
            .as_deref(),
        Some("long dashes")
    );
    // No trailing whitespace after the dashes: ESLint keeps them in the rule
    // id, so the reason is none and the rule is reported as written.
    let unseparated = only("// eslint-disable-next-line no-console --\nx;\n");
    assert_eq!(unseparated.reason, None);
    assert_eq!(unseparated.rules, vec!["no-console --"]);
    let glued = only("// eslint-disable-line no-console--nope\nx;\n");
    assert_eq!(glued.rules, vec!["no-console--nope"]);
    assert_eq!(glued.reason, None);
    // An empty description is no description.
    assert_eq!(
        only("// eslint-disable-next-line no-console -- \nx;\n").reason,
        None
    );
}

#[test]
fn eslint_a_block_comment_reason_may_span_lines() {
    let directive = only("/* eslint-disable-next-line no-console\n   -- a reason that spans\n      several lines */\nlog();\n");
    assert_eq!(directive.rules, vec!["no-console"]);
    assert_eq!(
        directive.reason.as_deref(),
        Some("a reason that spans several lines")
    );
    assert_eq!((directive.line, directive.end_line), (1, 3));
    assert_eq!(
        directive.suppressed,
        Suppressed {
            start_line: 4,
            end_line: Some(4)
        }
    );
}

#[test]
fn disable_and_enable_pair_into_a_block() {
    let directive = only("/* eslint-disable no-console -- noisy module */\nlog();\n/* eslint-enable no-console */\nlog();\n");
    assert_eq!(directive.scope, Scope::Block);
    assert_eq!(directive.rules, vec!["no-console"]);
    assert_eq!(directive.reason.as_deref(), Some("noisy module"));
    assert_eq!(
        directive.suppressed,
        Suppressed {
            start_line: 1,
            end_line: Some(3)
        }
    );
}

#[test]
fn an_unterminated_disable_runs_to_end_of_file() {
    let directive = only("/* eslint-disable */\nlog();\n");
    assert_eq!(directive.scope, Scope::Block);
    assert!(directive.rules.is_empty());
    assert_eq!(
        directive.suppressed,
        Suppressed {
            start_line: 1,
            end_line: None
        }
    );
}

#[test]
fn a_blanket_enable_closes_every_open_block() {
    let found = parse("/* eslint-disable no-console */\n/* eslint-disable no-alert */\nlog();\n/* eslint-enable */\n");
    assert_eq!(found.len(), 2);
    assert_eq!(found[0].suppressed.end_line, Some(4));
    assert_eq!(found[1].suppressed.end_line, Some(4));
}

#[test]
fn a_partial_enable_leaves_the_block_open() {
    // ESLint keeps `no-alert` disabled here, so the block has not ended.
    let directive = only("/* eslint-disable no-console, no-alert */\n/* eslint-enable no-console */\nlog();\n");
    assert_eq!(directive.suppressed.end_line, None);
}

#[test]
fn a_named_enable_does_not_close_a_blanket_disable() {
    let directive = only("/* eslint-disable */\n/* eslint-enable no-console */\nx;\n");
    assert_eq!(directive.suppressed.end_line, None);
}

#[test]
fn an_enable_without_a_block_is_ignored() {
    assert!(parse("/* eslint-enable no-console */\nx;\n").is_empty());
}

#[test]
fn disable_and_enable_are_block_comments_only() {
    // ESLint does not honour these in a line comment, so neither do we.
    assert!(parse("// eslint-disable\nlog();\n").is_empty());
    assert!(parse("// eslint-enable\nlog();\n").is_empty());
    // …but the line-scoped pair works in either comment form.
    assert_eq!(
        only("/* eslint-disable-line no-console */ log();\n").scope,
        Scope::Line
    );
}

#[test]
fn eslint_a_directive_that_does_not_open_the_comment_is_not_one() {
    assert!(parse("// TODO eslint-disable-next-line no-console\nlog();\n").is_empty());
    assert!(parse("// eslint-disabled no-console\nlog();\n").is_empty());
    // The `/* eslint rule: "error" */` configuration comment is not a
    // suppression.
    assert!(parse("/* eslint no-console: \"error\" */\nlog();\n").is_empty());
}

#[test]
fn eslint_a_directive_inside_a_string_literal_is_not_reported() {
    assert!(parse("const m = \"// eslint-disable-next-line no-console\";\n").is_empty());
    assert!(parse("const m = `/* eslint-disable */`;\n").is_empty());
}

#[test]
fn eslint_every_directive_is_reported_in_source_order() {
    let found = parse("/* eslint-disable no-console */\nlog(); // eslint-disable-line no-alert\n// eslint-disable-next-line no-alert\nalert();\n");
    assert_eq!(
        found.iter().map(|d| (d.line, d.scope)).collect::<Vec<_>>(),
        vec![(1, Scope::Block), (2, Scope::Line), (3, Scope::NextLine)]
    );
}

#[test]
fn the_description_split_finds_the_first_separator_only() {
    let split = |text: &str| {
        let (head, description) = split_description(text);
        (head, description)
    };
    assert_eq!(split("a -- b -- c"), ("a ".to_string(), Some(" b -- c".to_string())));
    assert_eq!(split("a--b"), ("a--b".to_string(), None));
    assert_eq!(split("a -"), ("a -".to_string(), None));
    assert_eq!(split("--lead"), ("--lead".to_string(), None));
}
