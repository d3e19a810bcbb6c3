use nginxlint::{render, Finding, Severity};

#[test]
fn render_clean_config_reports_clean() {
    let out = render(&[], "test.conf");
    assert!(out.contains("clean"));
}

#[test]
fn render_counts_errors_and_warnings_separately() {
    let findings = vec![
        Finding {
            rule: "r1",
            severity: Severity::Error,
            line: 1,
            context: "ctx".into(),
            message: "msg".into(),
        },
        Finding {
            rule: "r2",
            severity: Severity::Warning,
            line: 2,
            context: "ctx".into(),
            message: "msg".into(),
        },
    ];
    let out = render(&findings, "test.conf");
    assert!(out.contains("1 error(s), 1 warning(s)"));
}
