use notignored::model::{IgnoreDirective, Scope, Suppressed, Tool};
use notignored::source::SourceFile;
use notignored::tools::ToolParser;
use notignored::tools::typescript::TypescriptParser;

fn parse(source: &str) -> Vec<IgnoreDirective> {
    let file = SourceFile::new("src/app.ts", source.to_string());
    TypescriptParser.parse(&file)
}

fn only(source: &str) -> IgnoreDirective {
    let mut found = parse(source);
    assert_eq!(
        found.len(),
        1,
        "expected one directive in {source:?}: {found:#?}"
    );
    found.remove(0)
}

#[test]
fn typescript_the_parser_claims_javascript_and_typescript() {
    assert_eq!(TypescriptParser.tool(), Tool::Typescript);
    assert!(TypescriptParser.applies_to(&SourceFile::new("a.ts", String::new())));
    assert!(TypescriptParser.applies_to(&SourceFile::new("a.js", String::new())));
    assert!(!TypescriptParser.applies_to(&SourceFile::new("a.py", String::new())));
}

#[test]
fn expect_error_carries_its_reason_and_span() {
    let directive = only("// @ts-expect-error the API is untyped\nconst x: number = f();\n");
    assert_eq!(directive.tool, Tool::Typescript);
    assert_eq!(directive.scope, Scope::NextLine);
    assert!(directive.rules.is_empty());
    assert_eq!(directive.reason.as_deref(), Some("the API is untyped"));
    assert_eq!(directive.path, "src/app.ts");
    assert_eq!(
        (directive.line, directive.end_line, directive.column),
        (1, 1, 1)
    );
    assert_eq!(directive.raw, "// @ts-expect-error the API is untyped");
    assert_eq!(
        directive.suppressed,
        Suppressed {
            start_line: 2,
            end_line: Some(2)
        }
    );
}

#[test]
fn a_bare_ignore_has_no_reason() {
    let directive = only("// @ts-ignore\nconst x: number = f();\n");
    assert_eq!(directive.scope, Scope::NextLine);
    assert_eq!(directive.reason, None);
}

#[test]
fn punctuation_before_the_reason_is_kept_verbatim() {
    // `tsc` parses neither separator, so both are the author's prose.
    assert_eq!(
        only("// @ts-ignore: legacy shim\nx;\n").reason.as_deref(),
        Some(": legacy shim")
    );
    assert_eq!(
        only("// @ts-expect-error -- legacy shim\nx;\n")
            .reason
            .as_deref(),
        Some("-- legacy shim")
    );
}

#[test]
fn nocheck_exempts_the_whole_file() {
    let directive = only("// @ts-nocheck vendored bundle\nconst x: number = f();\n");
    assert_eq!(directive.scope, Scope::File);
    assert_eq!(directive.reason.as_deref(), Some("vendored bundle"));
    assert_eq!(
        directive.suppressed,
        Suppressed {
            start_line: 1,
            end_line: None
        }
    );
}

#[test]
fn nocheck_is_case_insensitive_but_needs_a_word_boundary() {
    assert_eq!(only("// @ts-NOCHECK\nx;\n").scope, Scope::File);
    assert_eq!(only("/// @ts-nocheck\nx;\n").scope, Scope::File);
    assert!(parse("// @ts-nocheckish\nx;\n").is_empty());
    // A fourth slash, or a block comment, is not a `@ts-nocheck`.
    assert!(parse("//// @ts-nocheck\nx;\n").is_empty());
    assert!(parse("/* @ts-nocheck */\nx;\n").is_empty());
}

#[test]
fn ignore_is_case_sensitive_and_needs_no_trailing_boundary() {
    assert!(parse("// @ts-Ignore\nx;\n").is_empty());
    // The compiler really does honour this one, so reporting it is not a
    // false positive — it is the suppression a reader would otherwise miss.
    let sloppy = only("// @ts-ignoreable\nx;\n");
    assert_eq!(sloppy.scope, Scope::NextLine);
    assert_eq!(sloppy.reason.as_deref(), Some("able"));
}

#[test]
fn slash_and_star_decoration_is_skipped() {
    for source in [
        "/* @ts-ignore */\nx;\n",
        "/** @ts-expect-error */\nx;\n",
        "/*@ts-ignore*/\nx;\n",
        "//@ts-ignore\nx;\n",
        "//// @ts-ignore\nx;\n",
        "/*** @ts-ignore ***/\nx;\n",
    ] {
        let directive = only(source);
        assert_eq!(directive.scope, Scope::NextLine, "{source:?}");
        assert_eq!(directive.reason, None, "{source:?}");
        assert_eq!(directive.suppressed.start_line, 2, "{source:?}");
    }
}

#[test]
fn a_block_directive_is_matched_on_the_comments_last_line() {
    // `tsc` scans from the last line break, so this one counts…
    let directive = only("/* prose\n   @ts-ignore */\nconst x: number = f();\n");
    assert_eq!((directive.line, directive.end_line), (1, 2));
    assert_eq!(
        directive.suppressed,
        Suppressed {
            start_line: 3,
            end_line: Some(3)
        }
    );

    // …and these do not, because their last line holds no keyword.
    assert!(parse("/* @ts-ignore\n*/ const x: number = f();\n").is_empty());
    assert!(parse("/*\n * @ts-ignore\n */\nx;\n").is_empty());
}

#[test]
fn typescript_a_directive_that_does_not_open_the_comment_is_not_one() {
    assert!(parse("// TODO @ts-ignore\nx;\n").is_empty());
    assert!(parse("/* prose @ts-ignore */\nx;\n").is_empty());
}

#[test]
fn typescript_a_directive_inside_a_string_literal_is_not_reported() {
    assert!(parse("const m = \"// @ts-ignore\";\n").is_empty());
}

#[test]
fn typescript_every_directive_is_reported_in_source_order() {
    let found = parse("// @ts-nocheck\n// @ts-ignore\n/** @ts-expect-error */\nx;\n");
    assert_eq!(
        found.iter().map(|d| (d.line, d.scope)).collect::<Vec<_>>(),
        vec![(1, Scope::File), (2, Scope::NextLine), (3, Scope::NextLine)]
    );
}
