use panache::notices::ConfigReports;

#[test]
fn config_error_is_shown_once_until_it_changes() {
    let mut reports = ConfigReports::new();
    assert!(reports.report_error("/p/panache.toml", "bad key"));
    assert!(!reports.report_error("/p/panache.toml", "bad key"));
    assert!(reports.report_error("/p/panache.toml", "other error"));
    assert!(!reports.report_error("/p/panache.toml", "other error"));
}

#[test]
fn config_error_is_shown_again_after_a_good_load() {
    let mut reports = ConfigReports::new();
    assert!(reports.report_error("/p/panache.toml", "bad key"));
    reports.loaded("/p/panache.toml");
    assert!(reports.report_error("/p/panache.toml", "bad key"));
}

#[test]
fn config_errors_are_tracked_per_file() {
    let mut reports = ConfigReports::new();
    assert!(reports.report_error("/a/panache.toml", "bad"));
    assert!(reports.report_error("/b/panache.toml", "bad"));
    reports.loaded("/a/panache.toml");
    assert!(!reports.report_error("/b/panache.toml", "bad"));
    assert!(reports.report_error("/a/panache.toml", "bad"));
}
