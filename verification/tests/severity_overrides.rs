use yarnspinner::diagnostics::{override_severities, Diagnostic, DiagnosticSeverity};

fn diag(message: &str, code: Option<&str>, severity: DiagnosticSeverity) -> Diagnostic {
    let d = Diagnostic::from_message(message.to_string()).with_severity(severity);
    match code {
        Some(c) => d.with_code(c),
        None => d,
    }
}

#[test]
fn severity_overrides_change_and_suppress_by_code() {
    let diagnostics = vec![
        diag("a", Some("YS0001"), DiagnosticSeverity::Error),
        diag("b", Some("YS0002"), DiagnosticSeverity::Warning),
        diag("c", None, DiagnosticSeverity::Error),
        diag("d", Some("YS0003"), DiagnosticSeverity::Info),
    ];
    let overrides = vec![
        ("YS0001".to_string(), Some(DiagnosticSeverity::Warning)),
        ("YS0002".to_string(), None),
    ];
    let out = override_severities(diagnostics, &overrides);
    assert_eq!(out.len(), 3);
    assert_eq!(out[0].message, "a");
    assert_eq!(out[0].severity, DiagnosticSeverity::Warning);
    assert_eq!(out[1].message, "c");
    assert_eq!(out[1].severity, DiagnosticSeverity::Error);
    assert_eq!(out[2].message, "d");
    assert_eq!(out[2].severity, DiagnosticSeverity::Info);
}

#[test]
fn no_overrides_keep_every_diagnostic() {
    let diagnostics = vec![diag("a", Some("YS0001"), DiagnosticSeverity::Error)];
    let out = override_severities(diagnostics, &vec![]);
    assert_eq!(out.len(), 1);
    assert_eq!(out[0].severity, DiagnosticSeverity::Error);
}
