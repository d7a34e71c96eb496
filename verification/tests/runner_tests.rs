use nit::runner::format_repo_name;
use nit::runner::render_error_line;
use nit::runner::render_result_line;
use nit::runner::ExecutionContext;
use nit::runner::GitCommand;
use nit::runner::UrlScheme;

#[test]
fn test_format_repo_name_short() {
    let result = format_repo_name("my-repo");
    assert_eq!(result, "[my-repo                 ]");
    assert_eq!(result.len(), 26); // [ + 24 + ]
}

#[test]
fn test_format_repo_name_exact_length() {
    let result = format_repo_name("exactly-twenty-four-chr");
    assert_eq!(result.len(), 26);
}

#[test]
fn test_format_repo_name_truncated() {
    let result = format_repo_name("this-is-a-very-long-repository-name");
    assert_eq!(result, "[this-is-a-very-long--...]");
    assert_eq!(result.len(), 26);
}

#[test]
fn runner_test_format_repo_name_short() {
    let result = format_repo_name("my-repo");
    assert_eq!(result, "[my-repo                 ]");
    assert_eq!(result.len(), 26); // [ + 24 + ]
}

#[test]
fn runner_test_format_repo_name_exact_length() {
    let result = format_repo_name("exactly-twenty-four-chr");
    assert_eq!(result.len(), 26);
}

#[test]
fn runner_test_format_repo_name_truncated() {
    let result = format_repo_name("this-is-a-very-long-repository-name");
    assert_eq!(result, "[this-is-a-very-long--...]");
    assert_eq!(result.len(), 26);
}

#[test]
fn format_repo_name_exactly_at_width_is_not_truncated() {
    // 24 characters fill the bracketed width without padding or truncation.
    let result = format_repo_name("exactly-twentyfour-chars");
    assert_eq!(result, "[exactly-twentyfour-chars]");
    assert_eq!(result.len(), 26);
}

#[test]
fn format_repo_name_empty_name_pads_fully() {
    let result = format_repo_name("");
    assert_eq!(result, "[                        ]");
    assert_eq!(result.len(), 26);
}

#[test]
fn execution_context_reports_its_configuration() {
    let ctx = ExecutionContext::new(true, Some(UrlScheme::Ssh), 8);
    assert!(ctx.is_dry_run());
    assert!(matches!(ctx.url_scheme(), Some(UrlScheme::Ssh)));
    assert_eq!(ctx.max_connections(), 8);

    let ctx = ExecutionContext::new(false, None, 0);
    assert!(!ctx.is_dry_run());
    assert!(ctx.url_scheme().is_none());
    assert_eq!(ctx.max_connections(), 0);
}

#[test]
fn command_string_without_scheme() {
    let cmd = GitCommand::new(
        String::from("/home/user/src/my-repo"),
        vec![String::from("pull"), String::from("--rebase")],
    );
    assert_eq!(
        cmd.command_string_with_scheme(None),
        "git -C /home/user/src/my-repo pull --rebase"
    );
}

#[test]
fn command_string_with_ssh_scheme() {
    let cmd = GitCommand::new(String::from("/r"), vec![String::from("fetch")]);
    assert_eq!(
        cmd.command_string_with_scheme(Some(UrlScheme::Ssh)),
        "git -c \"url.git@github.com:.insteadOf=https://github.com/\" -C /r fetch"
    );
}

#[test]
fn command_string_with_https_scheme() {
    let cmd = GitCommand::new(String::from("/r"), vec![String::from("status")]);
    assert_eq!(
        cmd.command_string_with_scheme(Some(UrlScheme::Https)),
        "git -c \"url.https://github.com/.insteadOf=git@github.com:\" -C /r status"
    );
}

#[test]
fn command_string_with_no_arguments_keeps_layout() {
    let cmd = GitCommand::new(String::from("/r"), Vec::new());
    assert_eq!(cmd.command_string_with_scheme(None), "git -C /r ");
}

#[test]
fn result_line_puts_body_after_label() {
    let line = render_result_line("my-repo", "Already up to date.");
    assert_eq!(line, "[my-repo                 ] Already up to date.");
}

#[test]
fn error_line_carries_the_error_marker() {
    let line = render_error_line("my-repo", "No such file or directory (os error 2)");
    assert_eq!(
        line,
        "[my-repo                 ] ERROR: No such file or directory (os error 2)"
    );
}
