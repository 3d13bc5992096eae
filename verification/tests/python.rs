use notignored::comments::{self, Comment, CommentKind};
use notignored::source::Language;
use notignored::tools::python::{rules_and_reason, segments, split_rules, strip_keyword};

fn only_comment(source: &str) -> Comment {
    let mut found = comments::extract(source, Language::Python).comments;
    assert_eq!(found.len(), 1, "expected one comment in {source:?}");
    found.remove(0)
}

#[test]
fn a_run_stops_where_the_next_tools_directive_begins() {
    let comment = only_comment("x = 1  # type: ignore  # noqa: F401\n");
    assert_eq!(comment.kind, CommentKind::Line);
    let found = segments(&comment);
    assert_eq!(found.len(), 2);
    assert_eq!(found[0].column, 8);
    assert_eq!(found[0].raw, "# type: ignore");
    assert_eq!(found[0].after_hash, " type: ignore");
    assert_eq!(found[1].column, 24);
    assert_eq!(found[1].raw, "# noqa: F401");
}

#[test]
fn each_run_keeps_the_prose_that_is_only_prose() {
    let comment = only_comment(
        "x = 1  # type: ignore[arg-type]  # no stub  # noqa: F401  # side effects\n",
    );
    let found = segments(&comment);
    assert_eq!(found.len(), 4);
    assert_eq!(found[0].raw, "# type: ignore[arg-type]  # no stub");
    // The run that is pure prose still ends at the next directive.
    assert_eq!(found[1].raw, "# no stub");
    assert_eq!(found[2].raw, "# noqa: F401  # side effects");
    assert_eq!(found[3].raw, "# side effects");
}

#[test]
fn a_lone_directive_runs_to_the_end_of_the_comment() {
    let comment = only_comment("x = 1  # noqa: E501  # long wrapped URL\n");
    let found = segments(&comment);
    assert_eq!(found[0].raw, "# noqa: E501  # long wrapped URL");
}

#[test]
fn every_tools_grammar_counts_as_a_boundary() {
    for directive in [
        "noqa: E501",
        "ruff: noqa",
        "type: ignore",
        "mypy: ignore-errors",
        "mypy: disable-error-code=misc",
        "pyright: ignore",
        "ty: ignore",
    ] {
        let source = format!("x = 1  # noqa: F401  # {directive}\n");
        let comment = only_comment(&source);
        assert_eq!(
            segments(&comment)[0].raw,
            "# noqa: F401",
            "`# {directive}` should have bounded the run before it"
        );
    }
    // Prose, and a mode switch the crate does not report, are not boundaries.
    for prose in ["just a comment", "pyright: basic"] {
        let source = format!("x = 1  # noqa: F401  # {prose}\n");
        let comment = only_comment(&source);
        assert_eq!(
            segments(&comment)[0].raw,
            format!("# noqa: F401  # {prose}")
        );
    }
}

#[test]
fn a_keyword_needs_a_word_boundary_after_it() {
    assert_eq!(strip_keyword("ignore", "ignore").as_deref(), Some(""));
    assert_eq!(strip_keyword("ignore[a]", "ignore").as_deref(), Some("[a]"));
    assert_eq!(strip_keyword("ignore  # why", "ignore").as_deref(), Some("  # why"));
    assert_eq!(strip_keyword("ignore-file", "ignore").as_deref(), None);
    assert_eq!(strip_keyword("ignored", "ignore").as_deref(), None);
    assert_eq!(strip_keyword("ignore_all", "ignore").as_deref(), None);
    assert_eq!(strip_keyword("IGNORE", "ignore").as_deref(), None);
}

#[test]
fn bracketed_rules_split_on_commas_and_whitespace() {
    assert_eq!(rules_and_reason("[arg-type]").0, vec!["arg-type"]);
    assert_eq!(
        rules_and_reason("[arg-type, index]").0,
        vec!["arg-type", "index"]
    );
    assert_eq!(
        rules_and_reason("[arg-type,index]").0,
        vec!["arg-type", "index"]
    );
    assert_eq!(rules_and_reason("[reportAny]").0, vec!["reportAny"]);
}

#[test]
fn a_missing_or_empty_bracket_list_is_a_blanket_suppression() {
    assert!(rules_and_reason("").0.is_empty());
    assert!(rules_and_reason("[]").0.is_empty());
    assert!(rules_and_reason("[arg-type").0.is_empty());
}

#[test]
fn an_unterminated_bracket_list_swallows_its_reason_too() {
    // There is no directive boundary left to find, so claiming the rest of
    // the line as a justification would invent one.
    assert_eq!(rules_and_reason("[arg-type  # why").1, None);
}

#[test]
fn only_a_hash_opens_a_reason() {
    assert_eq!(
        rules_and_reason("[arg-type]  # upstream stub is wrong").1,
        Some("upstream stub is wrong".to_string())
    );
    assert_eq!(
        rules_and_reason("  # spaced   out ").1,
        Some("spaced out".into())
    );
    assert_eq!(rules_and_reason("[arg-type] because reasons").1, None);
    assert_eq!(rules_and_reason("[arg-type]  #   ").1, None);
}

#[test]
fn quoted_rule_lists_keep_only_the_names() {
    assert_eq!(
        split_rules("\"arg-type, index\""),
        vec!["arg-type", "index"]
    );
    assert_eq!(split_rules(""), Vec::<String>::new());
}
