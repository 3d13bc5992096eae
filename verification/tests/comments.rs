use notignored::comments::{Attribute, Comment, CommentKind, Extracted, extract};
use notignored::source::Language;

fn comments(source: &str, language: Language) -> Vec<Comment> {
    extract(source, language).comments
}

#[test]
fn hash_comments_carry_one_based_spans() {
    let found = comments("x = 1  # noqa: E501\n", Language::Python);
    assert_eq!(found.len(), 1);
    let comment = &found[0];
    assert_eq!(comment.kind, CommentKind::Line);
    assert_eq!(comment.raw, "# noqa: E501");
    assert_eq!(comment.text, " noqa: E501");
    assert_eq!((comment.line, comment.column), (1, 8));
    assert_eq!((comment.end_line, comment.end_column), (1, 20));
    assert!(!comment.leading);
}

#[test]
fn a_comment_alone_on_its_line_is_leading() {
    let found = comments("   # ruff: noqa\nx = 1  # noqa\n", Language::Python);
    assert!(found[0].leading);
    assert_eq!(found[0].column, 4);
    assert!(!found[1].leading);
    assert_eq!(found[1].line, 2);
}

#[test]
fn python_string_literals_are_not_comments() {
    let source = "a = \"# noqa\"\nb = '# noqa'\nc = \"\"\"\n# noqa\n\"\"\"\nd = 1  # real\n";
    let found = comments(source, Language::Python);
    assert_eq!(found.len(), 1, "{found:#?}");
    assert_eq!(found[0].raw, "# real");
    assert_eq!(found[0].line, 6);
}

#[test]
fn python_escaped_quotes_do_not_end_a_string_early() {
    let found = comments("a = \"\\\"# noqa\"\nb = 2  # real\n", Language::Python);
    assert_eq!(found.len(), 1);
    assert_eq!(found[0].raw, "# real");
}

#[test]
fn an_unterminated_python_string_swallows_the_rest() {
    let found = comments("a = \"oops\nb = 1  # noqa\n", Language::Python);
    assert!(found.is_empty(), "{found:#?}");
}

#[test]
fn shell_needs_a_word_boundary_before_a_hash() {
    let source = "echo ${x#prefix}\nrm -f a#b   # real\n";
    let found = comments(source, Language::Shell);
    assert_eq!(found.len(), 1, "{found:#?}");
    assert_eq!(found[0].raw, "# real");
    assert_eq!(found[0].line, 2);
}

#[test]
fn shell_single_quotes_ignore_backslashes() {
    let found = comments("echo '\\' # real\n", Language::Shell);
    assert_eq!(found.len(), 1, "{found:#?}");
    assert_eq!(found[0].raw, "# real");
}

#[test]
fn yaml_comments_and_scalars_are_distinguished() {
    let found = comments("key: value#notacomment # real\n", Language::Yaml);
    assert_eq!(found.len(), 1);
    assert_eq!(found[0].raw, "# real");
}

#[test]
fn toml_triple_quoted_strings_hide_hashes() {
    let found = comments("a = \"\"\"\n# not\n\"\"\"  # real\n", Language::Toml);
    assert_eq!(found.len(), 1);
    assert_eq!(found[0].raw, "# real");
}

#[test]
fn escaped_hashes_outside_strings_are_skipped() {
    let found = comments("echo \\# not a comment  # real\n", Language::Shell);
    assert_eq!(found.len(), 1, "{found:#?}");
    assert_eq!(found[0].raw, "# real");
}

#[test]
fn line_comments_in_c_style_languages_carry_spans() {
    let found = comments(
        "const a = 1; // eslint-disable-line\n",
        Language::JavaScript,
    );
    assert_eq!(found.len(), 1);
    assert_eq!(found[0].raw, "// eslint-disable-line");
    assert_eq!(found[0].text, " eslint-disable-line");
    assert_eq!((found[0].line, found[0].column), (1, 14));
    assert_eq!(found[0].end_column, 36);
}

#[test]
fn multi_line_block_comments_span_lines_and_columns() {
    let source = "  /* one\n     two */ const a = 1;\n";
    let found = comments(source, Language::TypeScript);
    assert_eq!(found.len(), 1);
    let comment = &found[0];
    assert_eq!(comment.kind, CommentKind::Block);
    assert_eq!(comment.raw, "/* one\n     two */");
    assert_eq!(comment.text, " one\n     two ");
    assert_eq!((comment.line, comment.column), (1, 3));
    assert_eq!((comment.end_line, comment.end_column), (2, 12));
    assert!(comment.leading);
}

#[test]
fn an_unterminated_block_comment_ends_at_eof() {
    let found = comments("/* forever\nand ever\n", Language::JavaScript);
    assert_eq!(found.len(), 1);
    assert_eq!(found[0].end_line, 3);
    assert!(found[0].raw.ends_with("and ever\n"));
}

#[test]
fn javascript_strings_and_templates_are_not_comments() {
    let source =
        "const a = \"// no\";\nconst b = '/* no */';\nconst c = `// no ${x}`;\n// real\n";
    let found = comments(source, Language::JavaScript);
    assert_eq!(found.len(), 1, "{found:#?}");
    assert_eq!(found[0].raw, "// real");
    assert_eq!(found[0].line, 4);
}

#[test]
fn rust_block_comments_nest() {
    let source = "/* outer /* inner */ still outer */\nlet a = 1; // real\n";
    let found = comments(source, Language::Rust);
    assert_eq!(found.len(), 2);
    assert_eq!(found[0].raw, "/* outer /* inner */ still outer */");
    assert_eq!(found[1].raw, "// real");
}

#[test]
fn javascript_block_comments_do_not_nest() {
    let source = "/* outer /* inner */\n// real\n";
    let found = comments(source, Language::JavaScript);
    assert_eq!(found.len(), 2);
    assert_eq!(found[0].raw, "/* outer /* inner */");
}

#[test]
fn rust_raw_strings_and_lifetimes_do_not_confuse_the_scanner() {
    let source = "let a = r#\"// no\"#;\nlet b = br#\"/* no */\"#;\nlet c = r\"// no\";\nfn f<'a>(x: &'a str) -> char { '/' }\nlet d = '\\'';\nlet raw = 1; // real\n";
    let found = comments(source, Language::Rust);
    assert_eq!(found.len(), 1, "{found:#?}");
    assert_eq!(found[0].raw, "// real");
    assert_eq!(found[0].line, 6);
}

#[test]
fn an_unterminated_rust_raw_string_swallows_the_rest() {
    let found = comments("let a = r#\"oops\n// no\n", Language::Rust);
    assert!(found.is_empty(), "{found:#?}");
}

#[test]
fn rust_attributes_are_extracted_with_spans() {
    let source = "#![allow(dead_code)]\n\n#[allow(clippy::all, unused)]\nfn f() {}\n";
    let extracted = extract(source, Language::Rust);
    assert!(extracted.comments.is_empty());
    assert_eq!(extracted.attributes.len(), 2);

    let inner = &extracted.attributes[0];
    assert!(inner.inner);
    assert_eq!(inner.raw, "#![allow(dead_code)]");
    assert_eq!(inner.text, "allow(dead_code)");
    assert_eq!((inner.line, inner.column), (1, 1));
    assert_eq!((inner.end_line, inner.end_column), (1, 21));

    let outer = &extracted.attributes[1];
    assert!(!outer.inner);
    assert_eq!(outer.text, "allow(clippy::all, unused)");
    assert_eq!(outer.line, 3);
}

#[test]
fn attributes_survive_nested_brackets_and_strings() {
    let source = "#[doc = \"has ] bracket\"]\n#[cfg_attr(test, allow(a[0]))]\nfn f() {}\n";
    let extracted = extract(source, Language::Rust);
    assert_eq!(extracted.attributes.len(), 2);
    assert_eq!(extracted.attributes[0].text, "doc = \"has ] bracket\"");
    assert_eq!(extracted.attributes[1].text, "cfg_attr(test, allow(a[0]))");
}

#[test]
fn a_bare_hash_in_rust_is_not_an_attribute() {
    let extracted = extract("let a = 1; # oops\n", Language::Rust);
    assert!(extracted.attributes.is_empty());
    assert!(extracted.comments.is_empty());
}

#[test]
fn an_unterminated_attribute_ends_at_eof() {
    let extracted = extract("#[allow(dead_code)\n", Language::Rust);
    assert_eq!(extracted.attributes.len(), 1);
    assert_eq!(extracted.attributes[0].raw, "#[allow(dead_code)\n");
}

#[test]
fn crlf_line_endings_do_not_leak_into_comment_text() {
    let found = comments("x = 1  # noqa\r\ny = 2\r\n", Language::Python);
    assert_eq!(found[0].raw, "# noqa");
}

#[test]
fn unknown_languages_yield_nothing() {
    assert_eq!(extract("# noqa\n", Language::Unknown), Extracted::default());
}

#[test]
fn extraction_keeps_source_order_and_sound_spans() {
    let source = "let a = 1; /* one\n  two */ let b = '/'; // tail\r\n#[derive(Debug)]\n// last";
    for language in [Language::Rust, Language::JavaScript, Language::TypeScript] {
        let found = extract(source, language);
        for pair in found.comments.windows(2) {
            assert!((pair[0].line, pair[0].column) < (pair[1].line, pair[1].column));
        }
        for comment in &found.comments {
            assert!(1 <= comment.line && comment.line <= comment.end_line && comment.column >= 1);
            if comment.kind == CommentKind::Line {
                assert_eq!(comment.end_line, comment.line);
                assert!(!comment.raw.contains('\n') && !comment.raw.ends_with('\r'));
                assert_eq!(comment.end_column, comment.column + comment.raw.chars().count() as u32);
            }
        }
        assert_eq!(found.comments.len(), 3);
        assert_eq!(found.attributes.is_empty(), language != Language::Rust);
    }
    let python = extract("# a\nx = '#'  # b\n", Language::Python);
    assert_eq!(python.comments.len(), 2);
    assert!(python.attributes.is_empty());
    let unknown = extract("# a\n// b\n/* c */", Language::Unknown);
    assert!(unknown.comments.is_empty() && unknown.attributes.is_empty());
}
