use notignored::cli::args::Cli;
use notignored::cli::{
    ColorChoice, EXIT_ERROR, EXIT_FOUND, EXIT_OK, Format, exit_code, github_repo, github_sha, wants_plain,
};
use notignored::cli::markdown::{DEFAULT_MAX_ENTRIES, MarkdownOptions};
use notignored::model::{IgnoreDirective, Report, ReportError, Scope, Suppressed, Tool};

/// `always` is how a user forces color through a pipe, a pager, or into a
/// screenshot, so neither a redirected stdout nor `NO_COLOR` may veto it;
/// `never` is unconditional the other way.
#[test]
fn an_explicit_color_choice_overrides_the_terminal_and_no_color() {
    for is_tty in [true, false] {
        for no_color in [true, false] {
            assert!(ColorChoice::Always.resolve(is_tty, no_color));
            assert!(!ColorChoice::Never.resolve(is_tty, no_color));
        }
    }
}

#[test]
fn auto_colors_only_an_interactive_terminal_that_did_not_ask_for_plain() {
    assert!(ColorChoice::Auto.resolve(true, false));
    // Piped or redirected — the case every test and every `| grep` hits.
    assert!(!ColorChoice::Auto.resolve(false, false));
    // A terminal, but the NO_COLOR convention wins.
    assert!(!ColorChoice::Auto.resolve(true, true));
    assert!(!ColorChoice::Auto.resolve(false, true));
}

#[test]
fn a_repo_that_is_not_owner_slash_repo_is_rejected() {
    for bad in [
        "widgets",
        "acme/widgets/extra",
        "https://github.com/acme/widgets",
        "acme/../secrets",
        "/widgets",
        "acme/",
    ] {
        assert!(github_repo(bad).is_err(), "{bad} was accepted");
    }
    assert_eq!(github_repo("acme/widgets.rs"), Ok("acme/widgets.rs".into()));

    let error = github_repo("not-a-slug").unwrap_err();
    assert!(error.contains("owner/repo"), "{error}");
}

#[test]
fn a_sha_that_is_not_a_commit_id_is_rejected() {
    for bad in ["main", "abc", "", &"a".repeat(65), "0123456z"] {
        assert!(github_sha(bad).is_err(), "{bad} was accepted");
    }
    assert_eq!(github_sha("0123abc"), Ok("0123abc".into()));

    let error = github_sha("main").unwrap_err();
    assert!(error.contains("hex digits"), "{error}");
}

#[test]
fn report_errors_outrank_fail_if_found() {
    let mut report = Report::new();
    report.errors.push(ReportError {
        path: "a.py".into(),
        message: "boom".into(),
    });
    report.ignores.push(IgnoreDirective {
        tool: Tool::Ruff,
        scope: Scope::Line,
        rules: vec![],
        reason: None,
        path: "a.py".into(),
        line: 1,
        end_line: 1,
        column: 1,
        raw: "# noqa".into(),
        suppressed: Suppressed {
            start_line: 1,
            end_line: Some(1),
        },
        change: None,
    });
    assert_eq!(exit_code(&report, true), EXIT_ERROR);
    assert_eq!(exit_code(&report, false), EXIT_ERROR);

    report.errors.clear();
    assert_eq!(exit_code(&report, true), EXIT_FOUND);
    assert_eq!(exit_code(&report, false), EXIT_OK);
}

fn invocation() -> Cli {
    Cli {
        paths: vec![".".to_string()],
        format: Format::Human,
        color: ColorChoice::default(),
        tools: Vec::new(),
        fail_if_found: false,
        github_repo: None,
        github_sha: None,
        max_entries: DEFAULT_MAX_ENTRIES,
        diff: false,
        diff_base: None,
    }
}

#[test]
fn the_invocation_carries_its_flags_into_scan_and_render_options() {
    let mut cli = invocation();
    cli.tools = vec![Tool::Ruff, Tool::Mypy];
    cli.github_repo = Some("acme/widgets".into());
    cli.github_sha = Some("0123456789abcdef0123456789abcdef01234567".into());
    cli.max_entries = 5;
    assert_eq!(cli.scan_options().tools, vec![Tool::Ruff, Tool::Mypy]);
    assert_eq!(
        cli.markdown_options(),
        MarkdownOptions {
            repo: Some("acme/widgets".into()),
            sha: Some("0123456789abcdef0123456789abcdef01234567".into()),
            max_entries: 5,
        }
    );
    assert_eq!(invocation().markdown_options(), MarkdownOptions::default());
}

#[test]
fn color_is_resolved_against_the_terminal_and_the_environment() {
    let mut cli = invocation();
    assert!(cli.color_enabled(true, false));
    assert!(!cli.color_enabled(false, false));
    cli.color = ColorChoice::Always;
    assert!(cli.color_enabled(false, true));
    cli.color = ColorChoice::Never;
    assert!(!cli.color_enabled(true, false));
}

#[test]
fn plain_output_is_asked_for_by_no_color_or_a_dumb_terminal() {
    assert!(wants_plain(Some("1"), None));
    assert!(!wants_plain(Some(""), None));
    assert!(wants_plain(None, Some("dumb")));
    assert!(!wants_plain(None, Some("xterm-256color")));
    assert!(!wants_plain(None, None));
}
