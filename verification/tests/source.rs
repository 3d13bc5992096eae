use notignored::source::{Language, SourceFile, display_path};

#[test]
fn extensions_map_to_languages() {
    let cases = [
        ("a.py", Language::Python),
        ("a.PYI", Language::Python),
        ("a.rs", Language::Rust),
        ("a.mjs", Language::JavaScript),
        ("a.tsx", Language::TypeScript),
        ("a.bash", Language::Shell),
        ("a.yaml", Language::Yaml),
        ("a.toml", Language::Toml),
        ("a.md", Language::Unknown),
        ("Makefile", Language::Unknown),
    ];
    for (name, expected) in cases {
        assert_eq!(Language::from_path(name), expected, "{name}");
    }
    assert!(Language::Python.is_scannable());
    assert!(!Language::Unknown.is_scannable());
}

#[test]
fn report_paths_are_slash_separated_without_a_dot_prefix() {
    assert_eq!(display_path("./src/app.py"), "src/app.py");
    assert_eq!(display_path("src\\app.py"), "src/app.py");
    assert_eq!(display_path("src/app.py"), "src/app.py");
}

#[test]
fn a_source_file_extracts_its_comments_once() {
    let file = SourceFile::new("a.py", "x = 1  # noqa\n".to_string());
    assert_eq!(file.language(), Language::Python);
    assert_eq!(file.comments().len(), 1);
    assert!(file.attributes().is_empty());
    assert_eq!(file.display_path(), "a.py");
    assert_eq!(file.path(), "a.py");
    assert_eq!(file.source(), "x = 1  # noqa\n");
    assert_eq!(file.line_count(), 1);
}

#[test]
fn line_count_handles_empty_and_unterminated_files() {
    assert_eq!(SourceFile::new("a.py", String::new()).line_count(), 0);
    assert_eq!(SourceFile::new("a.py", "a\nb".to_string()).line_count(), 2);
    assert_eq!(
        SourceFile::new("a.py", "a\nb\n".to_string()).line_count(),
        2
    );
}

#[test]
fn any_ordinary_source_fits_a_scan() {
    assert!(SourceFile::fits("a.py", "x = 1  # noqa\n"));
    assert!(SourceFile::fits("notes.txt", "anything at all"));
    assert!(SourceFile::fits("src/lib.rs", ""));
}
