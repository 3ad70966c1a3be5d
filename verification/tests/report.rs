use pii_eval::model::ErrorSeverity;
use pii_eval::report::{severity_color, severity_label};

#[test]
fn severity_colors() {
    assert_eq!(severity_color(&ErrorSeverity::High), "\x1b[31m");
    assert_eq!(severity_color(&ErrorSeverity::Medium), "\x1b[33m");
    assert_eq!(severity_color(&ErrorSeverity::Low), "\x1b[2m");
}

#[test]
fn severity_labels() {
    assert_eq!(severity_label(&ErrorSeverity::High), "HIGH");
    assert_eq!(severity_label(&ErrorSeverity::Medium), "MEDIUM");
    assert_eq!(severity_label(&ErrorSeverity::Low), "LOW");
}
