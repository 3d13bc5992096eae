use notignored::model::{IgnoreDirective, Scope, Suppressed, Tool};
use notignored::source::SourceFile;
use notignored::tools::ToolParser;
use notignored::tools::ty::{TyParser, in_file_header};

fn parse(source: &str) -> Vec<IgnoreDirective> {
    let file = SourceFile::new("src/app.py", source.to_string());
    TyParser.parse(&file)
}

fn only(source: &str) -> IgnoreDirective {
    let mut found = parse(source);
    assert_eq!(
        found.len(),
        1,
        "expected one directive in {source:?}: {found:#?}"
    );
    found.remove(0)
}

#[test]
fn ty_the_parser_claims_python_files_only() {
    assert_eq!(TyParser.tool(), Tool::Ty);
    assert!(TyParser.applies_to(&SourceFile::new("a.py", String::new())));
    assert!(!TyParser.applies_to(&SourceFile::new("a.js", String::new())));
}

#[test]
fn a_trailing_bare_ignore_covers_its_own_line() {
    let directive = only("import os\nf(1)  # ty: ignore\n");
    assert_eq!(directive.tool, Tool::Ty);
    assert_eq!(directive.scope, Scope::Line);
    assert!(directive.rules.is_empty());
    assert_eq!(directive.reason, None);
    assert_eq!(directive.path, "src/app.py");
    assert_eq!(
        (directive.line, directive.end_line, directive.column),
        (2, 2, 7)
    );
    assert_eq!(directive.raw, "# ty: ignore");
    assert_eq!(
        directive.suppressed,
        Suppressed {
            start_line: 2,
            end_line: Some(2)
        }
    );
}

#[test]
fn ty_rule_names_are_captured_verbatim() {
    assert_eq!(
        only("import os\nf(1)  # ty: ignore[invalid-argument-type]\n").rules,
        vec!["invalid-argument-type"]
    );
    assert_eq!(
        only("import os\nf(1)  # ty: ignore[invalid-argument-type, unresolved-import]\n").rules,
        vec!["invalid-argument-type", "unresolved-import"]
    );
}

#[test]
fn ty_a_trailing_comment_becomes_the_reason() {
    let directive = only(
        "import os\nf(1)  # ty: ignore[invalid-argument-type]  # upstream stub is wrong\n",
    );
    assert_eq!(directive.rules, vec!["invalid-argument-type"]);
    assert_eq!(directive.reason.as_deref(), Some("upstream stub is wrong"));
}

#[test]
fn a_directive_above_all_code_exempts_the_file() {
    let directive = only("#!/usr/bin/env python\n\n# ty: ignore  # generated\nimport os\n");
    assert_eq!(directive.scope, Scope::File);
    assert_eq!(directive.reason.as_deref(), Some("generated"));
    assert_eq!(
        directive.suppressed,
        Suppressed {
            start_line: 1,
            end_line: None
        }
    );
}

#[test]
fn a_directive_on_its_own_line_in_the_body_covers_the_line_below() {
    let directive = only("import os\n\n# ty: ignore[invalid-argument-type]\nf(1)\n");
    assert_eq!(directive.scope, Scope::NextLine);
    assert_eq!(directive.line, 3);
    assert_eq!(
        directive.suppressed,
        Suppressed {
            start_line: 4,
            end_line: Some(4)
        }
    );
}

#[test]
fn ty_a_directive_need_not_open_the_comment() {
    let directive = only("import os\nf(1)  # noqa: F401  # ty: ignore\n");
    assert!(directive.rules.is_empty());
    assert_eq!(directive.raw, "# ty: ignore");
    assert_eq!(directive.column, 21);
    assert_eq!(directive.scope, Scope::Line);
}

#[test]
fn ty_a_record_stops_at_the_next_tools_directive() {
    let directive =
        only("import os\nf(1)  # ty: ignore  # narrowed upstream  # noqa: F401  # unused\n");
    assert_eq!(directive.reason.as_deref(), Some("narrowed upstream"));
    assert_eq!(directive.raw, "# ty: ignore  # narrowed upstream");
}

#[test]
fn the_header_check_reads_only_the_lines_above_the_comment() {
    let file = SourceFile::new("a.py", "\"\"\"Doc.\"\"\"\n# after\n".to_string());
    assert!(!in_file_header(&file, &file.comments()[0]));
    let shebang = SourceFile::new("a.py", "#!/usr/bin/env python\n# after\n".to_string());
    assert!(in_file_header(&shebang, &shebang.comments()[1]));
}

#[test]
fn ty_look_alike_comments_are_not_directives() {
    // ty rejects `ignore-file` itself: "no whitespace after `ignore`".
    assert!(parse("f(1)  # ty: ignore-file\n").is_empty());
    assert!(parse("f(1)  # ty: ignoreX\n").is_empty());
    assert!(parse("f(1)  # TY: IGNORE\n").is_empty());
    assert!(parse("f(1)  # ty: strict\n").is_empty());
    assert!(parse("f(1)  # type: ignore\n").is_empty());
    assert!(parse("f(1)  # security: ignore\n").is_empty());
}

#[test]
fn ty_a_directive_inside_a_string_literal_is_not_reported() {
    assert!(parse("MSG = \"# ty: ignore\"\n").is_empty());
}

#[test]
fn ty_every_directive_in_a_file_is_reported_in_source_order() {
    let found = parse("# ty: ignore\nf(1)  # ty: ignore\ng(2)  # ty: ignore[misc]\n");
    assert_eq!(found.len(), 3);
    assert_eq!(
        found.iter().map(|d| d.line).collect::<Vec<_>>(),
        vec![1, 2, 3]
    );
    assert_eq!(found[0].scope, Scope::File);
}
