use notignored::model::{IgnoreDirective, Scope, Suppressed, Tool};
use notignored::source::SourceFile;
use notignored::tools::ToolParser;
use notignored::tools::biome::BiomeParser;

fn parse(source: &str) -> Vec<IgnoreDirective> {
    let file = SourceFile::new("src/app.ts", source.to_string());
    BiomeParser.parse(&file)
}

fn only(source: &str) -> IgnoreDirective {
    let mut found = parse(source);
    assert_eq!(
        found.len(),
        1,
        "expected one directive in {source:?}: {found:#?}"
    );
    found.remove(0)
}

#[test]
fn biome_the_parser_claims_javascript_and_typescript() {
    assert_eq!(BiomeParser.tool(), Tool::Biome);
    assert!(BiomeParser.applies_to(&SourceFile::new("a.js", String::new())));
    assert!(BiomeParser.applies_to(&SourceFile::new("a.mts", String::new())));
    assert!(!BiomeParser.applies_to(&SourceFile::new("a.rs", String::new())));
}

#[test]
fn a_line_directive_carries_its_selector_reason_and_span() {
    let directive =
        only("// biome-ignore lint/suspicious/noDebugger: paused on purpose\ndebugger;\n");
    assert_eq!(directive.tool, Tool::Biome);
    assert_eq!(directive.scope, Scope::NextLine);
    assert_eq!(directive.rules, vec!["lint/suspicious/noDebugger"]);
    assert_eq!(directive.reason.as_deref(), Some("paused on purpose"));
    assert_eq!(directive.path, "src/app.ts");
    assert_eq!(
        (directive.line, directive.end_line, directive.column),
        (1, 1, 1)
    );
    assert_eq!(
        directive.raw,
        "// biome-ignore lint/suspicious/noDebugger: paused on purpose"
    );
    assert_eq!(
        directive.suppressed,
        Suppressed {
            start_line: 2,
            end_line: Some(2)
        }
    );
}

#[test]
fn selectors_split_on_whitespace_and_keep_their_shape() {
    assert_eq!(
        only("// biome-ignore lint/a/x lint/b/y: two\nx;\n").rules,
        vec!["lint/a/x", "lint/b/y"]
    );
    // A group and a whole domain are valid selectors too.
    assert_eq!(
        only("// biome-ignore lint/suspicious: group\nx;\n").rules,
        vec!["lint/suspicious"]
    );
    assert_eq!(
        only("// biome-ignore lint: domain\nx;\n").rules,
        vec!["lint"]
    );
    // Biome tolerates space before the colon.
    assert_eq!(
        only("// biome-ignore lint/a/x : spaced\nx;\n").rules,
        vec!["lint/a/x"]
    );
}

#[test]
fn a_directive_without_a_reason_is_not_a_suppression() {
    // Biome errors on both of these rather than suppressing anything.
    assert!(parse("// biome-ignore lint/suspicious/noDebugger\ndebugger;\n").is_empty());
    assert!(parse("// biome-ignore lint/suspicious/noDebugger:\ndebugger;\n").is_empty());
    assert!(parse("// biome-ignore lint/suspicious/noDebugger:   \ndebugger;\n").is_empty());
}

#[test]
fn biome_a_block_comment_reason_may_span_lines() {
    let directive = only("/* biome-ignore lint/suspicious/noDebugger: a reason\n   that spans lines */\ndebugger;\n");
    assert_eq!(
        directive.reason.as_deref(),
        Some("a reason that spans lines")
    );
    assert_eq!((directive.line, directive.end_line), (1, 2));
    assert_eq!(
        directive.suppressed,
        Suppressed {
            start_line: 3,
            end_line: Some(3)
        }
    );
}

#[test]
fn ignore_all_exempts_the_whole_file() {
    let directive = only("// biome-ignore-all lint/suspicious/noDebugger: legacy\ndebugger;\n");
    assert_eq!(directive.scope, Scope::File);
    assert_eq!(
        directive.suppressed,
        Suppressed {
            start_line: 1,
            end_line: None
        }
    );
}

#[test]
fn start_and_end_pair_into_a_block() {
    let directive = only("// biome-ignore-start lint/suspicious/noDebugger: a debugging region\ndebugger;\n// biome-ignore-end lint/suspicious/noDebugger: region over\ndebugger;\n");
    assert_eq!(directive.scope, Scope::Block);
    assert_eq!(directive.reason.as_deref(), Some("a debugging region"));
    assert_eq!(
        directive.suppressed,
        Suppressed {
            start_line: 1,
            end_line: Some(3)
        }
    );
}

#[test]
fn an_unterminated_start_runs_to_end_of_file() {
    let directive = only("// biome-ignore-start lint/a/x: open\ndebugger;\n");
    assert_eq!(directive.scope, Scope::Block);
    assert_eq!(directive.suppressed.end_line, None);
}

#[test]
fn an_end_closes_only_a_range_naming_the_same_selector() {
    // Biome does not accept a domain-level end for a rule-level start.
    let directive = only("// biome-ignore-start lint/suspicious/noDebugger: open\n// biome-ignore-end lint: wrong selector\ndebugger;\n");
    assert_eq!(directive.suppressed.end_line, None);
}

#[test]
fn nested_ranges_close_innermost_first() {
    let found = parse("// biome-ignore-start lint/a/x: outer\n// biome-ignore-start lint/a/x: inner\n// biome-ignore-end lint/a/x: closes inner\n// biome-ignore-end lint/a/x: closes outer\n");
    assert_eq!(found.len(), 2);
    assert_eq!(found[0].suppressed.end_line, Some(4));
    assert_eq!(found[1].suppressed.end_line, Some(3));
}

#[test]
fn an_end_without_a_start_is_ignored() {
    assert!(parse("// biome-ignore-end lint/a/x: stray\nx;\n").is_empty());
}

#[test]
fn biome_a_directive_that_does_not_open_the_comment_is_not_one() {
    assert!(parse("// TODO biome-ignore lint/a/x: nope\nx;\n").is_empty());
    assert!(parse("// biome-ignoreable lint/a/x: nope\nx;\n").is_empty());
    // Biome's directives are case-sensitive.
    assert!(parse("// BIOME-IGNORE lint/a/x: nope\nx;\n").is_empty());
}

#[test]
fn biome_a_directive_inside_a_string_literal_is_not_reported() {
    assert!(parse("const m = \"// biome-ignore lint/a/x: nope\";\n").is_empty());
}

#[test]
fn the_keyword_need_not_be_followed_by_a_space() {
    assert_eq!(
        only("//biome-ignore lint/a/x: tight\nx;\n").rules,
        vec!["lint/a/x"]
    );
}

#[test]
fn a_directive_naming_no_selector_is_not_a_suppression() {
    // Biome silences nothing for `biome-ignore: reason`, so there is no
    // blanket form to report.
    assert!(parse("// biome-ignore: everything here\ndebugger;\n").is_empty());
}

#[test]
fn a_directive_trailing_code_on_its_line_is_not_one() {
    assert!(parse("debugger; // biome-ignore lint/suspicious/noDebugger: paused on purpose\n").is_empty());
    assert!(parse("let x = 1; /* biome-ignore-all lint: whole file */\n").is_empty());
}
