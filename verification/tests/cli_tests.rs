use panache::cli::{
    effective_parallelism, file_count_label, has_explicit_file_targets, normalize_input_paths,
    normalize_parse_path, parse_range, per_file_external_parallel, resolve_color,
    sanitize_path_for_filename, should_retry_remove, CheckKind, ColorMode,
};

#[test]
fn few_files_split_the_budget_to_saturate_it() {
    assert_eq!(per_file_external_parallel(8, 3), 3);
    assert_eq!(per_file_external_parallel(8, 2), 4);
}

#[test]
fn many_files_collapse_to_one_per_file() {
    assert_eq!(per_file_external_parallel(8, 8), 1);
    assert_eq!(per_file_external_parallel(8, 16), 1);
}

#[test]
fn per_file_share_never_drops_below_one() {
    assert_eq!(per_file_external_parallel(1, 4), 1);
    assert_eq!(per_file_external_parallel(0, 4), 1);
    assert_eq!(per_file_external_parallel(4, 0), 4);
}

#[test]
fn per_file_share_covers_the_budget() {
    for budget in 0..40usize {
        for workers in 0..12usize {
            let share = per_file_external_parallel(budget, workers);
            let w = workers.max(1);
            assert!(share >= 1);
            assert!(share * w >= budget);
            if share > 1 {
                assert!((share - 1) * w < budget);
            }
        }
    }
}

#[test]
fn auto_disables_color_when_term_is_dumb() {
    assert!(!resolve_color(ColorMode::Auto, false, false, Some("dumb"), true));
}

#[test]
fn auto_disables_color_when_term_is_unset() {
    assert!(!resolve_color(ColorMode::Auto, false, false, None, true));
}

#[test]
fn auto_enables_color_on_tty_with_real_term() {
    assert!(resolve_color(ColorMode::Auto, false, false, Some("xterm-256color"), true));
}

#[test]
fn auto_disables_color_when_not_a_tty() {
    assert!(!resolve_color(ColorMode::Auto, false, false, Some("xterm-256color"), false));
}

#[test]
fn always_overrides_dumb_term() {
    assert!(resolve_color(ColorMode::Always, false, false, Some("dumb"), false));
}

#[test]
fn no_color_flag_overrides_always() {
    assert!(!resolve_color(ColorMode::Always, true, false, Some("xterm-256color"), true));
}

#[test]
fn no_color_env_disables_auto_only() {
    assert!(!resolve_color(ColorMode::Auto, false, true, Some("xterm"), true));
    assert!(resolve_color(ColorMode::Always, false, true, Some("xterm"), true));
    assert!(!resolve_color(ColorMode::Never, false, false, Some("xterm"), true));
}

#[test]
fn worker_counts() {
    assert_eq!(effective_parallelism(4, 1, Some(8)), 1);
    assert_eq!(effective_parallelism(1, 10, Some(8)), 1);
    assert_eq!(effective_parallelism(4, 10, Some(8)), 4);
    assert_eq!(effective_parallelism(40, 10, Some(8)), 10);
    assert_eq!(effective_parallelism(0, 10, Some(8)), 8);
    assert_eq!(effective_parallelism(0, 3, Some(8)), 3);
    assert_eq!(effective_parallelism(0, 10, None), 1);
}

#[test]
fn parses_line_ranges() {
    assert_eq!(parse_range("5:10"), Ok((5, 10)));
    assert_eq!(parse_range("3:3"), Ok((3, 3)));
    assert_eq!(
        parse_range("5"),
        Err("Invalid range format '5'. Expected START:END (e.g., 5:10)".to_string())
    );
    assert_eq!(
        parse_range("1:2:3"),
        Err("Invalid range format '1:2:3'. Expected START:END (e.g., 5:10)".to_string())
    );
    assert_eq!(parse_range("a:3"), Err("Invalid start line 'a'".to_string()));
    assert_eq!(parse_range("3:"), Err("Invalid end line ''".to_string()));
    assert_eq!(
        parse_range("0:3"),
        Err("Line numbers must be 1-indexed (start from 1)".to_string())
    );
    assert_eq!(
        parse_range("9:3"),
        Err("Start line (9) must be less than or equal to end line (3)".to_string())
    );
    assert_eq!(parse_range("+2:+4"), Ok((2, 4)));
}

#[test]
fn stdin_sentinel_handling() {
    assert_eq!(normalize_input_paths(vec!["-".to_string()]), Ok(Vec::new()));
    assert_eq!(
        normalize_input_paths(vec!["a.md".to_string(), "b.md".to_string()]),
        Ok(vec!["a.md".to_string(), "b.md".to_string()])
    );
    assert_eq!(
        normalize_input_paths(vec!["-".to_string(), "a.md".to_string()]),
        Err("'-' (stdin) cannot be combined with file path arguments".to_string())
    );
    assert_eq!(normalize_input_paths(Vec::new()), Ok(Vec::new()));
    assert_eq!(normalize_parse_path(Some("-".to_string())), None);
    assert_eq!(normalize_parse_path(Some("doc.md".to_string())), Some("doc.md".to_string()));
    assert_eq!(normalize_parse_path(None), None);
}

#[test]
fn labels_and_file_names() {
    assert_eq!(file_count_label(1, "file", "files"), "1 file");
    assert_eq!(file_count_label(3, "file", "files"), "3 files");
    assert_eq!(file_count_label(0, "file", "files"), "0 files");
    assert_eq!(CheckKind::Losslessness.label(), "losslessness");
    assert_eq!(CheckKind::Idempotency.label(), "idempotency");
    assert_eq!(sanitize_path_for_filename("docs/a b.qmd"), "docs_a_b.qmd");
    assert_eq!(sanitize_path_for_filename("é-x_1"), "_-x_1");
}

#[test]
fn retry_and_targets() {
    assert!(should_retry_remove(true, true, 0));
    assert!(should_retry_remove(true, true, 4));
    assert!(!should_retry_remove(true, true, 5));
    assert!(!should_retry_remove(true, false, 0));
    assert!(!should_retry_remove(false, true, 0));
    assert!(has_explicit_file_targets(&vec![true, false]));
    assert!(!has_explicit_file_targets(&vec![true, true]));
    assert!(!has_explicit_file_targets(&Vec::new()));
}
