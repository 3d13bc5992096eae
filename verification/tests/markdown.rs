use notignored::cli::markdown::{MarkdownOptions, MARKER, render_markdown};
use notignored::cli::snippet::{SourceLines, language_tag};
use notignored::model::{Change, IgnoreDirective, Report, ReportError, Scope, Suppressed, Tool};

fn directive(line: u32, reason: Option<&str>) -> IgnoreDirective {
    IgnoreDirective {
        tool: Tool::Ruff,
        scope: Scope::Line,
        rules: vec!["E501".into()],
        reason: reason.map(str::to_string),
        path: "src/app.py".into(),
        line,
        end_line: line,
        column: 20,
        raw: "# noqa: E501".into(),
        suppressed: Suppressed {
            start_line: line,
            end_line: Some(line),
        },
        change: None,
    }
}

/// A directive whose `suppressed` range is `start..=end`, for the span rules
/// — the record, not the directive's own line, is what a snippet shows.
fn spanning(scope: Scope, start: u32, end: Option<u32>) -> IgnoreDirective {
    IgnoreDirective {
        scope,
        suppressed: Suppressed {
            start_line: start,
            end_line: end,
        },
        ..directive(start, Some("why"))
    }
}

/// The provenance footer [`options`] renders, which every body below closes
/// with. The rules that decide its form are driven end to end in
/// `tests/e2e/markdown.rs`; here it is only the tail every other assertion
/// has to reach past.
const STAMP: &str = "---\n\n<sub>Suppressions as of [`0123456`](https://github.com/acme/widgets/commit/0123456789abcdef0123456789abcdef01234567).</sub>\n";

fn options() -> MarkdownOptions {
    MarkdownOptions {
        repo: Some("acme/widgets".into()),
        sha: Some("0123456789abcdef0123456789abcdef01234567".into()),
        ..MarkdownOptions::default()
    }
}

fn render(report: &Report, options: &MarkdownOptions) -> String {
    render_markdown(report, options, &SourceLines::new())
}

#[test]
fn an_empty_report_renders_the_marker_and_an_all_clear() {
    let rendered = render(&Report::new(), &options());
    assert_eq!(
        rendered,
        format!(
            "{MARKER}\n\n### notignored\n\nNo lint or type-check suppressions found.\n\n{STAMP}"
        )
    );
}

#[test]
fn an_entry_carries_the_tool_rules_reason_and_permalink() {
    let mut report = Report::new();
    report.ignores.push(directive(12, Some("long wrapped URL")));
    let rendered = render(&report, &options());
    assert!(rendered.starts_with(&format!("{MARKER}\n")), "{rendered}");
    assert!(
        rendered.contains("### notignored: 1 suppression\n"),
        "{rendered}"
    );
    assert!(
        rendered.contains(
            "- **ruff E501** — _long wrapped URL_ — [src/app.py:12](https://github.com/acme/widgets/blob/0123456789abcdef0123456789abcdef01234567/src/app.py#L12)\n"
        ),
        "{rendered}"
    );
}

/// A classified report is rendered as `path`, `line`, `column` order leaves
/// it: `added` first, then the requested number of rewritten justifications.
fn classified(added: usize, edited: usize) -> Report {
    let mut report = Report::new();
    let mut line = 0;
    for _ in 0..added {
        line += 1;
        report.ignores.push(IgnoreDirective {
            change: Some(Change::Added),
            ..directive(line, Some("why"))
        });
    }
    for _ in 0..edited {
        line += 1;
        report.ignores.push(IgnoreDirective {
            change: Some(Change::JustificationEdited),
            ..directive(line, Some("why"))
        });
    }
    report
}

/// The first thing a reader reads, in each of the four shapes a report can
/// arrive in. The fourth is the one this distinction exists for: a change
/// that rewrote justifications and added nothing must not announce additions.
#[test]
fn the_heading_counts_what_the_report_can_actually_say() {
    for (report, expected) in [
        (classified(2, 0), "### notignored: 2 suppressions added\n"),
        (classified(1, 0), "### notignored: 1 suppression added\n"),
        (
            classified(2, 1),
            "### notignored: 2 suppressions added, 1 justification edited\n",
        ),
        (classified(0, 1), "### notignored: 1 justification edited\n"),
        (
            classified(0, 3),
            "### notignored: 3 justifications edited\n",
        ),
    ] {
        let rendered = render(&report, &options());
        assert!(
            rendered.contains(expected),
            "{expected:?} not in:\n{rendered}"
        );
    }

    // An unclassified report — no `--diff` — counts suppressions and says
    // nothing about a change it has no base to compare against.
    let mut unclassified = Report::new();
    unclassified.ignores.push(directive(1, Some("why")));
    unclassified.ignores.push(directive(2, Some("why")));
    assert!(
        render(&unclassified, &options()).contains("### notignored: 2 suppressions\n"),
        "an unclassified heading changed"
    );
}

/// The entry says which kind it is where the eye lands, and an added entry
/// is the line it always was.
#[test]
fn only_a_rewritten_justification_marks_its_entry() {
    let mut report = Report::new();
    report.ignores.push(IgnoreDirective {
        change: Some(Change::JustificationEdited),
        ..directive(12, Some("long wrapped URL"))
    });
    report.ignores.push(IgnoreDirective {
        change: Some(Change::Added),
        ..directive(13, Some("long wrapped URL"))
    });
    let rendered = render(&report, &options());
    assert!(
        rendered.contains(
            "- **ruff E501** _(justification edited)_ — _long wrapped URL_ — [src/app.py:12]"
        ),
        "{rendered}"
    );
    assert!(
        rendered.contains("- **ruff E501** — _long wrapped URL_ — [src/app.py:13]"),
        "an added entry gained a marker:\n{rendered}"
    );
}

/// Nothing found is nothing to count by kind, whatever the run was: the
/// all-clear body is the one it always was.
#[test]
fn an_empty_classified_report_still_renders_the_all_clear() {
    assert_eq!(
        render(&classified(0, 0), &options()),
        render(&Report::new(), &options())
    );
}

#[test]
fn a_directive_without_a_reason_says_so() {
    let mut report = Report::new();
    report.ignores.push(directive(12, None));
    assert!(
        render(&report, &options()).contains("— _no reason given_ —"),
        "the missing-reason wording changed"
    );
}

#[test]
fn a_blanket_directive_names_every_rule_without_breaking_the_bold_span() {
    let mut report = Report::new();
    let mut blanket = directive(1, None);
    blanket.rules.clear();
    report.ignores.push(blanket);
    let rendered = render(&report, &options());
    assert!(rendered.contains("- **ruff (all rules)** —"), "{rendered}");
}

#[test]
fn several_rules_are_listed_together() {
    let mut report = Report::new();
    let mut several = directive(3, None);
    several.rules = vec!["E501".into(), "F401".into()];
    report.ignores.push(several);
    assert!(render(&report, &options()).contains("**ruff E501, F401**"));
}

#[test]
fn without_a_repo_and_sha_the_location_is_plain_text() {
    let mut report = Report::new();
    report.ignores.push(directive(12, Some("why")));
    let rendered = render(&report, &MarkdownOptions::default());
    assert!(rendered.contains("— `src/app.py:12`\n"), "{rendered}");
    assert!(!rendered.contains("https://"), "{rendered}");

    // Half the pair is not enough to build a link that resolves.
    let half = MarkdownOptions {
        repo: Some("acme/widgets".into()),
        ..MarkdownOptions::default()
    };
    assert!(render(&report, &half).contains("— `src/app.py:12`\n"));
}

#[test]
fn a_reason_cannot_re_flow_the_rest_of_the_comment() {
    let mut report = Report::new();
    report
        .ignores
        .push(directive(12, Some("*not* a `code` <span> [link]")));
    let rendered = render(&report, &options());
    assert!(
        rendered.contains("_\\*not\\* a \\`code\\` \\<span> \\[link\\]_"),
        "{rendered}"
    );
}

#[test]
fn a_path_with_unusual_bytes_still_builds_a_resolvable_permalink() {
    let mut report = Report::new();
    let mut spaced = directive(4, None);
    spaced.path = "src/my app/a b.py".into();
    report.ignores.push(spaced);
    assert!(
        render(&report, &options()).contains("/src/my%20app/a%20b.py#L4)"),
        "{}",
        render(&report, &options())
    );
}

/// Every entry that is listed carries its snippet, collapsed, and the whole
/// block is spelled out here because its exact shape is what makes GitHub
/// render markdown inside the `<details>` rather than as literal text.
#[test]
fn every_listed_entry_carries_a_collapsed_snippet_of_what_it_suppresses() {
    let source =
        SourceLines::new().with("src/app.py", "one\ntwo\nthree\nfour\nfive\nsix\nseven\n");
    let mut report = Report::new();
    report.ignores.push(directive(4, Some("why")));
    let rendered = render_markdown(&report, &options(), &source);
    assert!(
        rendered.ends_with(&format!(
            "{}{STAMP}",
            "  <details>\n  <summary>suppressed code</summary>\n\n  ```python\n    2 | two\n    3 | three\n  > 4 | four\n    5 | five\n    6 | six\n  ```\n\n  </details>\n\n"
        )),
        "{rendered}"
    );
}

/// A single suppressed line is unreadable alone — the reader cannot see
/// what it sits in — so it is shown with two lines either side, and marked
/// so the context around it cannot be mistaken for what is silenced.
#[test]
fn a_single_suppressed_line_is_shown_with_two_lines_of_context_either_side() {
    let source =
        SourceLines::new().with("src/app.py", "one\ntwo\nthree\nfour\nfive\nsix\nseven\n");
    let mut report = Report::new();
    report.ignores.push(spanning(Scope::Line, 4, Some(4)));
    let rendered = render_markdown(&report, &options(), &source);
    assert!(
        rendered.contains("  ```python\n    2 | two\n    3 | three\n  > 4 | four\n    5 | five\n    6 | six\n  ```\n"),
        "{rendered}"
    );
    // Context is context: it must not read as one more suppression.
    assert_eq!(rendered.matches("\n  > ").count(), 1, "{rendered}");
    assert!(!rendered.contains("seven"), "{rendered}");
}

/// The window is clamped to the file rather than padded: a directive on the
/// first or last line has less than two lines on one side, and the marker
/// stays on the suppressed line wherever it lands.
#[test]
fn a_single_line_span_at_a_file_edge_is_clamped_to_it() {
    let source =
        SourceLines::new().with("src/app.py", "one\ntwo\nthree\nfour\nfive\nsix\nseven\n");
    for (start, expected) in [
        (
            1,
            "  > 1 | one\n    2 | two\n    3 | three\n",
        ),
        (
            2,
            "    1 | one\n  > 2 | two\n    3 | three\n    4 | four\n",
        ),
        (
            7,
            "    5 | five\n    6 | six\n  > 7 | seven\n",
        ),
    ] {
        let mut report = Report::new();
        report
            .ignores
            .push(spanning(Scope::Line, start, Some(start)));
        let rendered = render_markdown(&report, &options(), &source);
        assert!(
            rendered.contains(&format!("  ```python\n{expected}  ```\n")),
            "line {start} rendered:\n{rendered}"
        );
    }
}

/// The cap, at the two counts that decide it.
#[test]
fn the_body_lists_at_most_max_entries_and_counts_the_rest() {
    for (count, listed, overflow) in [
        (20, 20, None),
        (21, 20, Some("_… and 1 more not shown (21 total)._\n")),
        (25, 20, Some("_… and 5 more not shown (25 total)._\n")),
    ] {
        let mut report = Report::new();
        for line in 1..=count {
            report.ignores.push(directive(line, Some("why")));
        }
        let rendered = render_markdown(&report, &options(), &SourceLines::new());
        assert_eq!(
            rendered.matches("- **ruff E501**").count(),
            listed,
            "{count} findings listed the wrong number of entries:\n{rendered}"
        );
        assert!(
            rendered.contains(&format!("### notignored: {count} suppressions\n")),
            "the heading must still name the total:\n{rendered}"
        );
        match overflow {
            Some(line) => assert!(
                rendered.ends_with(&format!("{line}\n{STAMP}")),
                "{rendered}"
            ),
            None => assert!(!rendered.contains("not shown"), "{rendered}"),
        }
    }
}

/// The cap is the caller's to set, and a body under it is unchanged by it.
#[test]
fn max_entries_is_configurable() {
    let mut report = Report::new();
    for line in 1..=3 {
        report.ignores.push(directive(line, Some("why")));
    }
    let capped = MarkdownOptions {
        max_entries: 2,
        ..options()
    };
    let rendered = render_markdown(&report, &capped, &SourceLines::new());
    assert_eq!(rendered.matches("- **ruff E501**").count(), 2, "{rendered}");
    assert!(
        rendered.ends_with(&format!("_… and 1 more not shown (3 total)._\n\n{STAMP}")),
        "{rendered}"
    );

    let roomy = MarkdownOptions {
        max_entries: 50,
        ..options()
    };
    let rendered = render_markdown(&report, &roomy, &SourceLines::new());
    assert_eq!(rendered.matches("- **ruff E501**").count(), 3, "{rendered}");
    assert!(!rendered.contains("not shown"), "{rendered}");
}

/// What a snippet shows is the record's `suppressed` span, which is what
/// each scope means: the directive's own line, the line below it, or the
/// whole delimited region. A one-line span carries its context and its
/// marker whichever scope produced it; a block is shown bare.
#[test]
fn each_scope_shows_the_span_it_suppresses() {
    let source =
        SourceLines::new().with("src/app.py", "one\ntwo\nthree\nfour\nfive\nsix\nseven\n");
    for (directive, expected) in [
        (
            spanning(Scope::Line, 4, Some(4)),
            "    2 | two\n    3 | three\n  > 4 | four\n    5 | five\n    6 | six\n",
        ),
        (
            spanning(Scope::NextLine, 5, Some(5)),
            "    3 | three\n    4 | four\n  > 5 | five\n    6 | six\n    7 | seven\n",
        ),
        (
            spanning(Scope::Block, 3, Some(5)),
            "  3 | three\n  4 | four\n  5 | five\n",
        ),
        // An unterminated block runs to end-of-file.
        (
            spanning(Scope::Block, 5, None),
            "  5 | five\n  6 | six\n  7 | seven\n",
        ),
    ] {
        let scope = directive.scope;
        let mut report = Report::new();
        report.ignores.push(directive);
        let rendered = render_markdown(&report, &options(), &source);
        assert!(
            rendered.contains(&format!("  ```python\n{expected}  ```\n")),
            "{scope:?} rendered:\n{rendered}"
        );
        assert!(!rendered.contains("whole file"), "{scope:?}: {rendered}");
    }
}

/// `file` scope silences code the record's span does not single out, so the
/// snippet shows the top of the file and says what it is standing in for.
#[test]
fn a_file_scope_directive_shows_the_top_of_the_file_and_says_so() {
    let short = SourceLines::new().with("src/app.py", "one\ntwo\nthree\n");
    let mut report = Report::new();
    report.ignores.push(spanning(Scope::File, 1, None));
    let rendered = render_markdown(&report, &options(), &short);
    assert!(
        rendered.contains("  _the whole file is suppressed._\n"),
        "{rendered}"
    );
    assert!(
        rendered.contains("  ```python\n  1 | one\n  2 | two\n  3 | three\n  ```\n"),
        "{rendered}"
    );

    // A directive can sit anywhere in the file and still cover all of it.
    let long: String = (1..=14).map(|n| format!("line {n}\n")).collect();
    let mut report = Report::new();
    report.ignores.push(spanning(Scope::File, 6, None));
    let rendered = render_markdown(
        &report,
        &options(),
        &SourceLines::new().with("src/app.py", &long),
    );
    assert!(
        rendered
            .contains("  _the whole file is suppressed; showing its first 10 of 14 lines._\n"),
        "{rendered}"
    );
    assert!(rendered.contains("   1 | line 1\n"), "{rendered}");
    assert!(rendered.contains("  10 | line 10\n"), "{rendered}");
    assert!(!rendered.contains("line 11"), "{rendered}");
}

/// A span longer than the snippet allows is cut, never re-centred: the first
/// lines of what is silenced are the ones a reader needs.
#[test]
fn a_span_longer_than_ten_lines_is_truncated_with_a_note() {
    let text: String = (1..=30).map(|n| format!("line {n}\n")).collect();
    let source = SourceLines::new().with("src/app.py", &text);
    let mut report = Report::new();
    report.ignores.push(spanning(Scope::Block, 5, Some(28)));
    let rendered = render_markdown(&report, &options(), &source);
    assert!(
        rendered.contains("  _showing the first 10 of 24 suppressed lines._\n"),
        "{rendered}"
    );
    assert!(rendered.contains("   5 | line 5\n"), "{rendered}");
    assert!(rendered.contains("  14 | line 14\n"), "{rendered}");
    assert!(!rendered.contains("line 15"), "{rendered}");

    // Exactly ten is not truncated, so the note is about a real omission.
    let mut report = Report::new();
    report.ignores.push(spanning(Scope::Block, 5, Some(14)));
    let rendered = render_markdown(&report, &options(), &source);
    assert!(!rendered.contains("showing the first"), "{rendered}");
    assert!(rendered.contains("  14 | line 14\n"), "{rendered}");
}

/// A span the file cannot hold is clamped to it rather than dropped: the
/// lines that do exist are real source.
#[test]
fn a_span_running_past_the_end_of_the_file_stops_at_it() {
    let source = SourceLines::new().with("src/app.py", "one\ntwo\nthree\n");
    let mut report = Report::new();
    report.ignores.push(spanning(Scope::Block, 2, Some(9)));
    let rendered = render_markdown(&report, &options(), &source);
    assert!(
        rendered.contains("  ```python\n  2 | two\n  3 | three\n  ```\n"),
        "{rendered}"
    );
}

/// Every editor in this repo strips trailing whitespace on save, so a body
/// that emitted any could not survive as a checked-in golden.
#[test]
fn no_rendered_line_ends_in_whitespace() {
    let source = SourceLines::new().with("src/app.py", "one\n\nthree   \n\nfive\n");
    let mut report = Report::new();
    report.ignores.push(spanning(Scope::Block, 2, Some(3)));
    let rendered = render_markdown(&report, &options(), &source);
    for line in rendered.lines() {
        assert_eq!(line, line.trim_end(), "trailing space in {line:?}");
    }
    assert!(rendered.contains("  2 |\n  3 | three\n"), "{rendered}");
}

#[test]
fn line_numbers_are_padded_to_a_common_width() {
    let text: String = (1..=12).map(|n| format!("line {n}\n")).collect();
    let source = SourceLines::new().with("src/app.py", &text);
    let mut report = Report::new();
    report.ignores.push(spanning(Scope::Block, 8, Some(12)));
    let rendered = render_markdown(&report, &options(), &source);
    assert!(rendered.contains("   8 | line 8\n"), "{rendered}");
    assert!(rendered.contains("  12 | line 12\n"), "{rendered}");
}

#[test]
fn source_that_contains_a_fence_cannot_close_the_block_early() {
    let source = SourceLines::new().with(
        "src/app.py",
        "a\nDOC = \"\"\"```\nx = 1  # noqa\n```\"\"\"\nb\n",
    );
    let mut report = Report::new();
    report.ignores.push(spanning(Scope::Block, 2, Some(4)));
    let rendered = render_markdown(&report, &options(), &source);
    assert!(rendered.contains("  ````python\n"), "{rendered}");
    assert!(
        rendered.contains("  ````\n\n  </details>\n"),
        "the closing fence must be as long as the opening one:\n{rendered}"
    );
}

#[test]
fn a_file_that_cannot_be_read_renders_without_a_snippet() {
    let mut report = Report::new();
    report.ignores.push(directive(12, Some("why")));
    let rendered = render_markdown(&report, &options(), &SourceLines::new());
    assert!(!rendered.contains("<details>"), "{rendered}");
    assert!(rendered.contains("- **ruff E501**"), "{rendered}");
}

/// A record naming a line the file does not have would otherwise index past
/// the end of the source. An empty file has nothing to show either, whatever
/// the scope claims to cover.
#[test]
fn a_span_beyond_the_end_of_the_file_renders_without_a_snippet() {
    let source = SourceLines::new().with("src/app.py", "one\ntwo\n");
    let mut report = Report::new();
    report.ignores.push(directive(9, Some("why")));
    assert!(!render_markdown(&report, &options(), &source).contains("<details>"));

    let empty = SourceLines::new().with("src/app.py", "");
    let mut report = Report::new();
    report.ignores.push(spanning(Scope::File, 1, None));
    assert!(!render_markdown(&report, &options(), &empty).contains("<details>"));
}

#[test]
fn the_language_tag_follows_the_path() {
    for (path, tag) in [
        ("a.py", "python"),
        ("a.rs", "rust"),
        ("a.js", "javascript"),
        ("a.tsx", "typescript"),
        ("a.sh", "bash"),
        ("a.yml", "yaml"),
        ("a.toml", "toml"),
        ("Makefile", ""),
    ] {
        assert_eq!(language_tag(path), tag, "{path}");
    }
}

#[test]
fn files_that_could_not_be_scanned_are_named_in_the_body() {
    let mut report = Report::new();
    report.errors.push(ReportError {
        path: "broken.py".into(),
        message: "stream did not contain valid UTF-8".into(),
    });
    let rendered = render(&report, &options());
    assert!(
        rendered.contains("#### Could not be scanned\n"),
        "{rendered}"
    );
    assert!(
        rendered.contains("- `broken.py` — stream did not contain valid UTF-8\n"),
        "{rendered}"
    );
}

#[test]
fn render_markdown_writes_the_body_to_the_writer() {
    let mut report = Report::new();
    report.ignores.push(directive(12, Some("why")));
    let rendered = render_markdown(&report, &options(), &SourceLines::new());
    assert!(rendered.starts_with(MARKER), "{rendered}");
    assert!(rendered.contains("- **ruff E501**"), "{rendered}");
}
