use anstyle::{AnsiColor, Style};

use notignored::cli::render::{ChangeCounts, narrate_errors, render_human, render_human_colored};
use notignored::model::{Change, IgnoreDirective, Report, ReportError, Scope, Suppressed, Tool};

// The styles each field is painted in, as anstyle writes them.
const LOCATION: Style = AnsiColor::Cyan.on_default();
const TOOL: Style = AnsiColor::Magenta.on_default().bold();
const RULES: Style = AnsiColor::Yellow.on_default().bold();
const BLANKET: Style = AnsiColor::Red.on_default().bold();
const SCOPE: Style = AnsiColor::Blue.on_default();
const EDITED: Style = AnsiColor::Green.on_default();
const REASON: Style = Style::new().dimmed();
const FOUND: Style = AnsiColor::Yellow.on_default().bold();
const CLEAN: Style = AnsiColor::Green.on_default().bold();

fn directive(rules: &[&str], reason: Option<&str>, scope: Scope) -> IgnoreDirective {
    IgnoreDirective {
        tool: Tool::Ruff,
        scope,
        rules: rules.iter().map(|r| r.to_string()).collect(),
        reason: reason.map(str::to_string),
        path: "src/app.py".into(),
        line: 12,
        end_line: 12,
        column: 20,
        raw: "# noqa: E501  # long wrapped URL".into(),
        suppressed: match scope {
            Scope::File => Suppressed {
                start_line: 1,
                end_line: None,
            },
            _ => Suppressed {
                start_line: 12,
                end_line: Some(12),
            },
        },
        change: None,
    }
}

fn human(report: &Report) -> (String, String) {
    colored(report, false)
}

fn colored(report: &Report, color: bool) -> (String, String) {
    render_human_colored(report, color)
}

#[test]
fn a_coded_directive_renders_its_rules_and_reason() {
    let mut report = Report::new();
    report
        .ignores
        .push(directive(&["E501"], Some("long wrapped URL"), Scope::Line));
    let (out, err) = human(&report);
    assert_eq!(
        out,
        "src/app.py:12:20 ruff E501 (line) -- long wrapped URL\n"
    );
    assert_eq!(err, "notignored: 1 ignore in 1 file\n");
}

#[test]
fn a_blanket_directive_without_a_reason_renders_a_star() {
    let mut report = Report::new();
    report.ignores.push(directive(&[], None, Scope::File));
    let (out, _) = human(&report);
    assert_eq!(out, "src/app.py:12:20 ruff * (file)\n");
}

#[test]
fn several_rules_are_comma_joined() {
    let mut report = Report::new();
    report
        .ignores
        .push(directive(&["E501", "F401"], None, Scope::Line));
    let (out, _) = human(&report);
    assert!(out.contains("ruff E501,F401 (line)"), "{out}");
}

#[test]
fn an_empty_report_says_so_on_stderr_and_nothing_on_stdout() {
    let (out, err) = human(&Report::new());
    assert!(out.is_empty());
    assert_eq!(err, "notignored: 0 ignores in 0 files\n");
}

/// The same directive as a `--diff` run classified it.
fn classified(change: Change, rules: &[&str], reason: Option<&str>) -> IgnoreDirective {
    IgnoreDirective {
        change: Some(change),
        ..directive(rules, reason, Scope::Line)
    }
}

/// The token goes between the scope and the reason, so the line says what
/// kind of finding it is before it quotes the justification.
#[test]
fn a_rewritten_justification_is_named_on_the_line_after_its_scope() {
    let mut report = Report::new();
    report.ignores.push(classified(
        Change::JustificationEdited,
        &["E501"],
        Some("long wrapped URL"),
    ));
    let (out, err) = human(&report);
    assert_eq!(
        out,
        "src/app.py:12:20 ruff E501 (line) (justification edited) -- long wrapped URL\n"
    );
    assert_eq!(
        err,
        "notignored: 0 added, 1 justification edited in 1 file\n"
    );
}

/// Everything this node left alone: an added directive renders the line an
/// unclassified run renders, byte for byte.
#[test]
fn an_added_directive_renders_exactly_what_an_unclassified_one_does() {
    let mut added = Report::new();
    added.ignores.push(classified(
        Change::Added,
        &["E501"],
        Some("long wrapped URL"),
    ));
    let mut unclassified = Report::new();
    unclassified
        .ignores
        .push(directive(&["E501"], Some("long wrapped URL"), Scope::Line));
    assert_eq!(human(&added).0, human(&unclassified).0);
    // Only the summary differs, and only because it now has two answers.
    assert_eq!(
        human(&added).1,
        "notignored: 1 added, 0 justifications edited in 1 file\n"
    );
    assert_eq!(human(&unclassified).1, "notignored: 1 ignore in 1 file\n");
}

/// Both counts, always, with the noun pluralized on each side.
#[test]
fn a_classified_summary_names_both_counts_including_the_zero() {
    let mut report = Report::new();
    report
        .ignores
        .push(classified(Change::Added, &["E501"], Some("why")));
    report
        .ignores
        .push(classified(Change::Added, &["F401"], Some("why")));
    report
        .ignores
        .push(classified(Change::JustificationEdited, &["E501"], None));
    assert_eq!(
        human(&report).1,
        "notignored: 2 added, 1 justification edited in 1 file\n"
    );

    report
        .ignores
        .push(classified(Change::JustificationEdited, &["F401"], None));
    assert_eq!(
        human(&report).1,
        "notignored: 2 added, 2 justifications edited in 1 file\n"
    );
}

/// A `--diff` run that found nothing has nothing to divide, so it says what
/// it always said.
#[test]
fn a_report_with_no_findings_carries_no_classification_to_count() {
    assert_eq!(ChangeCounts::of(&Report::new()), None);
    assert_eq!(
        human(&Report::new()).1,
        "notignored: 0 ignores in 0 files\n"
    );

    let mut classified_report = Report::new();
    classified_report
        .ignores
        .push(classified(Change::Added, &["E501"], None));
    assert_eq!(
        ChangeCounts::of(&classified_report),
        Some(ChangeCounts {
            added: 1,
            justification_edited: 0
        })
    );
}

/// The marker is a role of its own, not the scope's colour with more words
/// in it, and each count of the summary is coloured by its own answer.
#[test]
fn the_edited_marker_and_both_counts_carry_their_own_colours() {
    let mut report = Report::new();
    report.ignores.push(classified(
        Change::JustificationEdited,
        &["E501"],
        Some("long wrapped URL"),
    ));
    let (out, err) = colored(&report, true);
    assert!(
        out.contains(&format!("{EDITED}(justification edited){EDITED:#}")),
        "{out:?}"
    );
    assert_ne!(
        EDITED.render().to_string(),
        SCOPE.render().to_string(),
        "the marker is indistinguishable from the scope beside it"
    );
    // Nothing added is the all-clear answer to half the question, and one
    // rewritten justification is the found answer to the other half.
    assert!(err.contains(&format!("{CLEAN}0 added{CLEAN:#}")), "{err:?}");
    assert!(
        err.contains(&format!("{FOUND}1 justification edited{FOUND:#}")),
        "{err:?}"
    );
}

#[test]
fn scan_errors_are_narrated_on_stderr() {
    let mut report = Report::new();
    report.errors.push(ReportError {
        path: "a.py".into(),
        message: "boom".into(),
    });
    let err = narrate_errors(&report);
    assert_eq!(err, "notignored: error: a.py: boom\n");
}

#[test]
fn the_summary_counts_distinct_files() {
    let mut report = Report::new();
    report.ignores.push(directive(&["E501"], None, Scope::Line));
    let mut second = directive(&["F401"], None, Scope::Line);
    second.path = "src/other.py".into();
    report.ignores.push(second);
    let (_, err) = human(&report);
    assert_eq!(err, "notignored: 2 ignores in 2 files\n");
}

/// Drop every SGR escape, leaving the text a terminal would show.
fn strip_ansi(text: &str) -> String {
    let mut plain = String::new();
    let mut rest = text;
    while let Some(start) = rest.find('\u{1b}') {
        plain.push_str(&rest[..start]);
        let after = &rest[start..];
        let end = after.find('m').expect("an SGR escape ends in `m`");
        rest = &after[end + 1..];
    }
    plain.push_str(rest);
    plain
}

/// Color is presentation only: the words, spacing, and order a reader sees
/// have to be the same whether or not the escapes are there, so a script
/// piping the output and a human watching it never disagree.
#[test]
fn coloring_adds_escapes_without_changing_a_single_character() {
    let mut report = Report::new();
    report
        .ignores
        .push(directive(&["E501"], Some("long wrapped URL"), Scope::Line));
    report.ignores.push(directive(&[], None, Scope::File));
    report.ignores.push(classified(
        Change::JustificationEdited,
        &["F401"],
        Some("re-exported on purpose"),
    ));

    let (plain_out, plain_err) = colored(&report, false);
    let (color_out, color_err) = colored(&report, true);
    assert_ne!(color_out, plain_out, "nothing was colorized: {color_out:?}");
    assert_eq!(strip_ansi(&color_out), plain_out);
    assert_eq!(strip_ansi(&color_err), plain_err);
}

/// Each field gets its own role, so a reader can pick the tool out of a
/// hundred lines without reading any of them.
#[test]
fn every_field_of_a_colored_line_carries_its_own_style() {
    let mut report = Report::new();
    report
        .ignores
        .push(directive(&["E501"], Some("long wrapped URL"), Scope::Line));
    let (out, _) = colored(&report, true);
    for (label, style, text) in [
        ("location", LOCATION, "src/app.py:12:20"),
        ("tool", TOOL, "ruff"),
        ("rules", RULES, "E501"),
        ("scope", SCOPE, "(line)"),
        ("reason", REASON, "-- long wrapped URL"),
    ] {
        assert!(
            out.contains(&format!("{style}{text}{style:#}")),
            "the {label} span is not styled as its role: {out:?}"
        );
    }
}

/// A directive that names no rules silences everything the tool has, so its
/// `*` is the one span on the line that gets the alarm colour.
#[test]
fn a_blanket_star_is_colored_apart_from_named_rules() {
    let mut report = Report::new();
    report.ignores.push(directive(&[], None, Scope::File));
    let (out, _) = colored(&report, true);
    assert!(out.contains(&format!("{BLANKET}*{BLANKET:#}")), "{out:?}");
    assert_ne!(
        BLANKET.render().to_string(),
        RULES.render().to_string(),
        "a blanket suppression is indistinguishable from a named one"
    );
}

/// The summary is the line a reader reads first, so its colour has to say
/// which of the two answers it is before the number is read.
#[test]
fn the_summary_count_is_green_when_clean_and_loud_when_not() {
    let (_, clean) = colored(&Report::new(), true);
    assert!(
        clean.contains(&format!("{CLEAN}0 ignores{CLEAN:#}")),
        "{clean:?}"
    );

    let mut report = Report::new();
    report.ignores.push(directive(&["E501"], None, Scope::Line));
    let (_, found) = colored(&report, true);
    assert!(
        found.contains(&format!("{FOUND}1 ignore{FOUND:#}")),
        "{found:?}"
    );
}

/// The pre-existing entry point is the plain-text one, unchanged.
#[test]
fn render_human_is_the_uncolored_rendering() {
    let mut report = Report::new();
    report
        .ignores
        .push(directive(&["E501"], Some("long wrapped URL"), Scope::Line));
    let (out, err) = render_human(&report);
    let (plain_out, plain_err) = colored(&report, false);
    assert_eq!(out, plain_out);
    assert_eq!(err, plain_err);
}
