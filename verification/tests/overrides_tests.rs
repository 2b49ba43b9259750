use panache::overrides::{apply_format_overrides, FormatSettings, WrapMode};

fn cfg() -> FormatSettings {
    FormatSettings { line_width: 80, wrap: None, table_indent: 2, extension_overrides: Vec::new() }
}

fn opts(raw: &[&str]) -> Vec<String> {
    raw.iter().map(|s| s.to_string()).collect()
}

#[test]
fn extensions_dot_key_toggles_extension() {
    let mut c = cfg();
    assert!(c.extension_overrides.is_empty());
    apply_format_overrides(&mut c, &opts(&["extensions.east-asian-line-breaks=true"])).unwrap();
    assert_eq!(c.extension_overrides, vec![("east-asian-line-breaks".to_string(), true)]);
}

#[test]
fn extensions_dot_key_accepts_snake_case_alias() {
    let mut c = cfg();
    apply_format_overrides(&mut c, &opts(&["extensions.east_asian_line_breaks=true"])).unwrap();
    assert_eq!(c.extension_overrides, vec![("east_asian_line_breaks".to_string(), true)]);
}

#[test]
fn extensions_dot_key_rejects_non_boolean_value() {
    let mut c = cfg();
    let err = apply_format_overrides(&mut c, &opts(&["extensions.east-asian-line-breaks=maybe"]))
        .unwrap_err();
    assert!(err.contains("expected boolean"), "{err}");
    assert_eq!(
        err,
        "invalid value for `extensions.east-asian-line-breaks`: `maybe` (expected boolean: true/false)"
    );
}

#[test]
fn extensions_dot_key_requires_name() {
    let mut c = cfg();
    let err = apply_format_overrides(&mut c, &opts(&["extensions.=true"])).unwrap_err();
    assert!(err.contains("missing extension name"), "{err}");
}

#[test]
fn unknown_top_level_key_still_errors() {
    let mut c = cfg();
    let err = apply_format_overrides(&mut c, &opts(&["nope=1"])).unwrap_err();
    assert!(err.contains("unknown config key"), "{err}");
    assert_eq!(
        err,
        "unknown config key in --option: `nope` (supported: line-width, wrap, table-indent, extensions.<name>)"
    );
}

#[test]
fn table_indent_override_sets_value() {
    let mut c = cfg();
    assert_eq!(c.table_indent, 2);
    apply_format_overrides(&mut c, &opts(&["table-indent=0"])).unwrap();
    assert_eq!(c.table_indent, 0);
}

#[test]
fn table_indent_override_rejects_out_of_range_value() {
    let mut c = cfg();
    let err = apply_format_overrides(&mut c, &opts(&["table-indent=4"])).unwrap_err();
    assert!(err.contains("invalid value for `table-indent`"), "{err}");
    assert_eq!(err, "invalid value for `table-indent`: `4` (expected 0, 1, 2, or 3)");
}

#[test]
fn table_indent_override_rejects_non_integer_value() {
    let mut c = cfg();
    let err = apply_format_overrides(&mut c, &opts(&["table-indent=flush"])).unwrap_err();
    assert!(err.contains("invalid value for `table-indent`"), "{err}");
}

#[test]
fn line_width_and_wrap_overrides() {
    let mut c = cfg();
    apply_format_overrides(&mut c, &opts(&[" line-width = +72 ", "wrap=sentence"])).unwrap();
    assert_eq!(c.line_width, 72);
    assert_eq!(c.wrap, Some(WrapMode::Sentence));
    let err = apply_format_overrides(&mut c, &opts(&["line-width=0"])).unwrap_err();
    assert_eq!(err, "invalid value for `line-width`: 0 (expected positive integer)");
    let err = apply_format_overrides(&mut c, &opts(&["line-width=wide"])).unwrap_err();
    assert_eq!(err, "invalid value for `line-width`: `wide` (expected positive integer)");
    let err = apply_format_overrides(&mut c, &opts(&["wrap=Reflow"])).unwrap_err();
    assert_eq!(
        err,
        "invalid value for `wrap`: `Reflow` (expected one of: reflow, sentence, semantic, preserve)"
    );
    let err = apply_format_overrides(&mut c, &opts(&["width"])).unwrap_err();
    assert_eq!(err, "invalid --option `width`: expected key=value");
}

#[test]
fn first_error_stops_and_keeps_earlier_settings() {
    let mut c = cfg();
    let err = apply_format_overrides(
        &mut c,
        &opts(&["line-width=100", "extensions.a=on", "table-indent=9", "wrap=reflow"]),
    )
    .unwrap_err();
    assert_eq!(err, "invalid value for `table-indent`: `9` (expected 0, 1, 2, or 3)");
    assert_eq!(c.line_width, 100);
    assert_eq!(c.wrap, None);
    assert!(c.extension_overrides.is_empty());
}

#[test]
fn later_extension_values_win() {
    let mut c = cfg();
    apply_format_overrides(
        &mut c,
        &opts(&["extensions.a=YES", "extensions. b =0", "extensions.a=off"]),
    )
    .unwrap();
    assert_eq!(c.extension_overrides, vec![("a".to_string(), false), ("b".to_string(), false)]);
}
