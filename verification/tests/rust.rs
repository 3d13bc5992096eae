use notignored::model::{IgnoreDirective, Scope, Suppressed, Tool};
use notignored::source::SourceFile;
use notignored::tools::ToolParser;
use notignored::tools::rust::RustParser;

fn parse(source: &str) -> Vec<IgnoreDirective> {
    RustParser.parse(&SourceFile::new("src/lib.rs", source.to_string()))
}

fn only(source: &str) -> IgnoreDirective {
    let mut found = parse(source);
    assert_eq!(
        found.len(),
        1,
        "expected one directive in {source:?}: {found:#?}"
    );
    found.remove(0)
}

#[test]
fn the_parser_claims_rust_files_only() {
    assert_eq!(RustParser.tool(), Tool::Rust);
    assert!(RustParser.applies_to(&SourceFile::new("a.rs", String::new())));
    assert!(!RustParser.applies_to(&SourceFile::new("a.py", String::new())));
}

#[test]
fn an_outer_allow_is_a_block_suppression_of_the_lints_it_names() {
    let directive = only("#[allow(dead_code)]\nfn helper() {}\n");
    assert_eq!(directive.tool, Tool::Rust);
    assert_eq!(directive.scope, Scope::Block);
    assert_eq!(directive.rules, vec!["dead_code"]);
    assert_eq!(directive.reason, None);
    assert_eq!(directive.path, "src/lib.rs");
    assert_eq!(
        (directive.line, directive.end_line, directive.column),
        (1, 1, 1)
    );
    assert_eq!(directive.raw, "#[allow(dead_code)]");
    assert_eq!(
        directive.suppressed,
        Suppressed {
            start_line: 1,
            end_line: None
        }
    );
}

#[test]
fn an_inner_allow_exempts_the_whole_file() {
    let directive = only("#![allow(dead_code)]\nfn helper() {}\n");
    assert_eq!(directive.scope, Scope::File);
    assert_eq!(
        directive.suppressed,
        Suppressed {
            start_line: 1,
            end_line: None
        }
    );
}

#[test]
fn several_lints_and_tool_prefixed_paths_are_captured_verbatim() {
    assert_eq!(
        only("#[allow(dead_code, clippy::needless_range_loop)]\nfn f() {}\n").rules,
        vec!["dead_code", "clippy::needless_range_loop"]
    );
    assert_eq!(
        only("#[expect(rustdoc::broken_intra_doc_links)]\nfn f() {}\n").rules,
        vec!["rustdoc::broken_intra_doc_links"]
    );
}

#[test]
fn a_reason_is_taken_from_the_native_syntax() {
    let directive = only("#[expect(dead_code, reason = \"used by the C API\")]\nfn f() {}\n");
    assert_eq!(directive.rules, vec!["dead_code"]);
    assert_eq!(directive.reason.as_deref(), Some("used by the C API"));

    // Escapes and raw strings both read back as the source shows them.
    assert_eq!(
        only("#[expect(dead_code, reason = \"the \\\"C\\\" API\")]\nfn f() {}\n")
            .reason
            .as_deref(),
        Some("the \"C\" API")
    );
    assert_eq!(
        only("#[expect(dead_code, reason = r#\"the \"C\" API\"#)]\nfn f() {}\n")
            .reason
            .as_deref(),
        Some("the \"C\" API")
    );
    // A comma inside the reason does not split the argument list.
    let directive = only("#[allow(dead_code, reason = \"one, two\")]\nfn f() {}\n");
    assert_eq!(directive.rules, vec!["dead_code"]);
    assert_eq!(directive.reason.as_deref(), Some("one, two"));
}

#[test]
fn a_reason_written_across_lines_is_collapsed_and_spans_the_directive() {
    let directive = only("#[expect(\n    dead_code,\n    reason = \"kept for the\n              next release\"\n)]\nfn helper() {}\n");
    assert_eq!(directive.rules, vec!["dead_code"]);
    assert_eq!(
        directive.reason.as_deref(),
        Some("kept for the next release")
    );
    // The record spans every line the directive occupies, which is what
    // `--diff` intersects against the change's added lines.
    assert_eq!((directive.line, directive.end_line), (1, 5));
}

#[test]
fn lint_raising_attributes_are_not_suppressions() {
    for source in [
        "#[deny(dead_code)]\nfn f() {}\n",
        "#[warn(dead_code)]\nfn f() {}\n",
        "#[forbid(dead_code)]\nfn f() {}\n",
        "#[derive(Debug)]\nstruct S;\n",
        "#[allowance(dead_code)]\nfn f() {}\n",
        "#[allow]\nfn f() {}\n",
        // Conditional suppressions overstate the case; we skip them.
        "#[cfg_attr(test, allow(dead_code))]\nfn f() {}\n",
    ] {
        assert!(parse(source).is_empty(), "{source:?} is not a suppression");
    }
}

#[test]
fn a_blanket_allow_with_no_lints_is_reported_as_blanket() {
    let directive = only("#[allow()]\nfn f() {}\n");
    assert!(directive.rules.is_empty());
    assert_eq!(directive.scope, Scope::Block);
}

#[test]
fn an_attribute_inside_a_string_literal_is_not_a_directive() {
    assert!(parse("const S: &str = \"#[allow(dead_code)]\";\n").is_empty());
}

#[test]
fn every_attribute_in_a_file_is_reported_in_source_order() {
    let found = parse("#![allow(dead_code)]\n#[allow(unused_variables)]\nfn a() {}\n#[expect(clippy::all)]\nfn b() {}\n");
    assert_eq!(
        found.iter().map(|d| d.line).collect::<Vec<_>>(),
        vec![1, 2, 4]
    );
    assert_eq!(found[0].scope, Scope::File);
}
