use notignored::model::{IgnoreDirective, ReportError, Scope, Suppressed, Tool};
use notignored::source::SourceFile;
use notignored::tools::ToolParser;
use notignored::tools::llmlint::{LlmlintParser, Scanned, KEYWORD};

/// A `#` comment carrying `body`, assembled from [`KEYWORD`] rather than
/// written out — see the "never spells a directive out" note in the module
/// docs for why every fixture below is built this way.
fn hash(body: &str) -> String {
    format!("# {KEYWORD}: {body}")
}

/// A source file whose lines are `lines`, newline-terminated.
fn script(lines: &[&str]) -> String {
    format!("{}\n", lines.join("\n"))
}

fn scan_in(path: &str, source: &str) -> Scanned {
    LlmlintParser.scan(&SourceFile::new(path, source.to_string()))
}

fn parse(source: &str) -> Vec<IgnoreDirective> {
    scan_in("src/app.py", source).directives
}

fn only(source: &str) -> IgnoreDirective {
    let mut found = parse(source);
    assert_eq!(
        found.len(),
        1,
        "expected one directive in {source:?}: {found:#?}"
    );
    found.remove(0)
}

/// The single directive in a one-line `#` comment followed by one statement.
fn only_hash(body: &str) -> IgnoreDirective {
    only(&script(&[&hash(body), "x = 1"]))
}

fn parse_hash(body: &str) -> Vec<IgnoreDirective> {
    parse(&script(&[&hash(body), "x = 1"]))
}

#[test]
fn the_parser_claims_every_language_with_a_comment_grammar() {
    assert_eq!(LlmlintParser.tool(), Tool::Llmlint);
    for name in ["a.py", "a.rs", "a.ts", "a.sh", "a.yml", "a.toml"] {
        assert!(
            LlmlintParser.applies_to(&SourceFile::new(name, String::new())),
            "{name}"
        );
    }
    assert!(!LlmlintParser.applies_to(&SourceFile::new("a.md", String::new())));
}

#[test]
fn an_ignore_covers_the_line_it_sits_on() {
    let directive = only_hash("ignore[no_todo] tracked in issue 42");
    assert_eq!(directive.tool, Tool::Llmlint);
    assert_eq!(directive.scope, Scope::Line);
    assert_eq!(directive.rules, vec!["no_todo"]);
    assert_eq!(directive.reason.as_deref(), Some("tracked in issue 42"));
    assert_eq!(directive.path, "src/app.py");
    assert_eq!(
        (directive.line, directive.end_line, directive.column),
        (1, 1, 3)
    );
    assert_eq!(
        directive.raw,
        format!("{KEYWORD}: ignore[no_todo] tracked in issue 42")
    );
    assert_eq!(
        directive.suppressed,
        Suppressed {
            start_line: 1,
            end_line: Some(1)
        }
    );
}

#[test]
fn an_ignore_file_covers_the_whole_file() {
    let directive = only_hash("ignore-file[a, b] generated module");
    assert_eq!(directive.scope, Scope::File);
    assert_eq!(directive.rules, vec!["a", "b"]);
    assert_eq!(
        directive.suppressed,
        Suppressed {
            start_line: 1,
            end_line: None
        }
    );
}

#[test]
fn a_block_spans_from_its_opening_directive_to_its_closing_one() {
    let found = parse(&script(&[
        "x = 0",
        &hash("ignore-block[no_print] a debugging aid, deliberately"),
        "print(1)",
        "print(2)",
        &hash("ignore-end[no_print]"),
        "y = 1",
    ]));
    assert_eq!(found.len(), 1, "{found:#?}");
    assert_eq!(found[0].scope, Scope::Block);
    assert_eq!(found[0].rules, vec!["no_print"]);
    assert_eq!(
        found[0].reason.as_deref(),
        Some("a debugging aid, deliberately")
    );
    assert_eq!(
        found[0].suppressed,
        Suppressed {
            start_line: 2,
            end_line: Some(5)
        }
    );
}

#[test]
fn a_block_closes_only_when_every_rule_it_named_is_closed() {
    let scanned = scan_in(
        "src/app.py",
        &script(&[
            &hash("ignore-block[a, b] two rules at once"),
            "x = 1",
            &hash("ignore-end[a]"),
            "y = 2",
            &hash("ignore-end[b]"),
        ]),
    );
    assert!(scanned.errors.is_empty(), "{scanned:#?}");
    assert_eq!(scanned.directives.len(), 1);
    assert_eq!(scanned.directives[0].suppressed.end_line, Some(5));
}

#[test]
fn an_unclosed_block_stays_open_and_raises_a_report_error() {
    let scanned = scan_in(
        "src/app.py",
        &script(&[&hash("ignore-block[no_print] never closed"), "print(1)"]),
    );
    assert_eq!(scanned.directives.len(), 1);
    assert_eq!(
        scanned.directives[0].suppressed,
        Suppressed {
            start_line: 1,
            end_line: None
        }
    );
    assert_eq!(scanned.errors.len(), 1, "{scanned:#?}");
    assert_eq!(scanned.errors[0].path, "src/app.py");
    let message = &scanned.errors[0].message;
    assert!(message.contains("no_print"), "{message}");
    assert!(message.contains("line 1"), "{message}");
}

#[test]
fn an_ignore_end_with_no_open_block_is_not_a_record() {
    let scanned = scan_in(
        "src/app.py",
        &script(&[&hash("ignore-end[no_print]"), "x = 1"]),
    );
    assert!(scanned.directives.is_empty(), "{scanned:#?}");
    assert!(scanned.errors.is_empty());
}

#[test]
fn the_trait_method_is_the_scan_without_its_errors() {
    let source = script(&[&hash("ignore-block[a] open forever"), "x = 1"]);
    let file = SourceFile::new("src/app.py", source);
    let scanned = LlmlintParser.scan(&file);
    assert_eq!(LlmlintParser.parse(&file), scanned.directives);
    assert_eq!(scanned.errors.len(), 1);
}

#[test]
fn directives_are_found_in_every_host_comment_syntax() {
    let slash = LlmlintParser
        .parse(&SourceFile::new(
            "a.ts",
            script(&[
                &format!("// {KEYWORD}: ignore[a] a slash comment"),
                "const x = 1;",
            ]),
        ))
        .remove(0);
    assert_eq!(slash.rules, vec!["a"]);

    let directive = LlmlintParser
        .parse(&SourceFile::new(
            "a.rs",
            script(&[
                &format!("/* {KEYWORD}: ignore[a] inside a block comment */"),
                "fn f() {}",
            ]),
        ))
        .remove(0);
    assert_eq!(directive.reason.as_deref(), Some("inside a block comment"));
    assert_eq!(
        directive.raw,
        format!("{KEYWORD}: ignore[a] inside a block comment")
    );
    assert_eq!((directive.line, directive.column), (1, 4));
}

#[test]
fn a_directive_on_an_inner_line_of_a_block_comment_reports_that_line() {
    let directive = LlmlintParser
        .parse(&SourceFile::new(
            "a.rs",
            script(&[
                "/*",
                &format!("  {KEYWORD}: ignore[a] on the second line"),
                "*/",
                "fn f() {}",
            ]),
        ))
        .remove(0);
    assert_eq!((directive.line, directive.column), (2, 3));
    assert_eq!(directive.reason.as_deref(), Some("on the second line"));
}

#[test]
fn the_directive_need_not_open_the_comment() {
    let directive = only(&script(&[
        &format!("# see the ADR: {KEYWORD}: ignore[a] deliberate"),
        "x = 1",
    ]));
    assert_eq!(directive.rules, vec!["a"]);
    assert_eq!(directive.column, 16);
    assert_eq!(directive.raw, format!("{KEYWORD}: ignore[a] deliberate"));
}

#[test]
fn whitespace_around_the_verb_is_tolerated_but_the_colon_binds_tight() {
    assert_eq!(
        only(&script(&[&format!("# {KEYWORD}:ignore[a] tight"), "x = 1"])).rules,
        vec!["a"]
    );
    assert_eq!(only_hash(" ignore [a] loose").rules, vec!["a"]);
    assert!(parse(&script(&[
        &format!("# {KEYWORD} : ignore[a] spaced"),
        "x = 1"
    ]))
    .is_empty());
}

#[test]
fn the_keyword_and_verb_are_lower_case() {
    let shouted = KEYWORD.to_uppercase();
    assert!(parse(&script(&[
        &format!("# {shouted}: ignore[a] shouting"),
        "x = 1"
    ]))
    .is_empty());
    assert!(parse_hash("IGNORE[a] shouting").is_empty());
}

#[test]
fn look_alike_verbs_are_not_directives() {
    assert!(parse_hash("ignoreblock[a] no dash").is_empty());
    assert!(parse_hash("ignore-foo[a] unknown verb").is_empty());
    assert!(parse_hash("ignore no brackets at all").is_empty());
    assert!(parse_hash("ignore[] nothing named").is_empty());
    assert!(parse_hash("ignore[a unterminated").is_empty());
    assert!(parse(&script(&[
        &format!("# {KEYWORD} is a linter we use"),
        "x = 1"
    ]))
    .is_empty());
}

#[test]
fn a_directive_with_no_reason_is_still_reported() {
    let directive = only_hash("ignore[a]");
    assert_eq!(directive.rules, vec!["a"]);
    assert_eq!(directive.reason, None);
}

#[test]
fn llmlint_a_directive_inside_a_string_literal_is_not_reported() {
    let source = script(&[&format!("MSG = \"# {KEYWORD}: ignore[a] in a string\"")]);
    assert!(parse(&source).is_empty(), "{source}");
}

#[test]
fn a_second_keyword_on_a_line_is_reached_when_the_first_is_prose() {
    let directive = only(&script(&[
        &format!("# {KEYWORD} is fine: {KEYWORD}: ignore[a] the real one"),
        "x = 1",
    ]));
    assert_eq!(directive.rules, vec!["a"]);
    assert_eq!(directive.raw, format!("{KEYWORD}: ignore[a] the real one"));
}

#[test]
fn llmlint_every_directive_in_a_file_is_reported_in_source_order() {
    let found = parse(&script(&[
        &hash("ignore-file[a] whole module"),
        &hash("ignore-block[b] a stretch of it"),
        "x = 1",
        &hash("ignore-end[b]"),
        &format!("y = 2  # {KEYWORD}: ignore[c] just here"),
    ]));
    assert_eq!(
        found.iter().map(|d| (d.line, d.scope)).collect::<Vec<_>>(),
        vec![(1, Scope::File), (2, Scope::Block), (5, Scope::Line)]
    );
}

#[test]
fn a_block_closed_for_only_some_of_its_rules_stays_open() {
    let scanned = scan_in(
        "src/app.py",
        &script(&[&hash("ignore-block[a, b] two rules"), "x = 1", &hash("ignore-end[a]"), "y = 2"]),
    );
    assert_eq!(scanned.directives.len(), 1, "{scanned:#?}");
    assert_eq!(scanned.directives[0].suppressed.end_line, None);
    assert_eq!(scanned.errors.len(), 1, "{scanned:#?}");
    assert!(scanned.errors[0].message.contains("rule \"b\""), "{scanned:#?}");
}
