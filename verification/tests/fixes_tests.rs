use panache::actions::FixEdit;
use panache::fixes::{
    apply_fixes, count_unsafe_fixes, try_apply_fixes, fix_summary, fix_will_apply, merge_missing_diagnostics,
    unsafe_fixes_hint, LintDiagnostic, LintFix,
};

fn edit(start: usize, end: usize, replacement: &str) -> FixEdit {
    FixEdit { start, end, replacement: replacement.to_string() }
}

fn diag(code: &str, start: usize, end: usize, fix: Option<(bool, Vec<FixEdit>)>) -> LintDiagnostic {
    LintDiagnostic {
        code: code.to_string(),
        start,
        end,
        fix: fix.map(|(safe, edits)| LintFix { safe, edits }),
    }
}

#[test]
fn safe_fixes_apply_in_start_order() {
    let input = "Hello  world.  Bye";
    let ds = vec![
        diag("double-space", 13, 15, Some((true, vec![edit(13, 15, " ")]))),
        diag("double-space", 5, 7, Some((true, vec![edit(5, 7, " ")]))),
        diag("heading", 0, 5, Some((false, vec![edit(0, 5, "HELLO")]))),
        diag("no-fix", 0, 1, None),
    ];
    assert_eq!(apply_fixes(input, &ds, false), "Hello world. Bye");
    assert_eq!(apply_fixes(input, &ds, true), "HELLO world. Bye");
}

#[test]
fn fixes_with_no_edits_keep_the_text() {
    let ds = vec![diag("x", 0, 1, None), diag("y", 0, 1, Some((false, vec![edit(0, 1, "z")])))];
    assert_eq!(apply_fixes("abc", &ds, false), "abc");
    assert_eq!(apply_fixes("", &Vec::new(), true), "");
}

#[test]
fn fix_edits_work_on_byte_offsets() {
    let input = "é  x";
    // 'é' is two bytes; the double space sits at bytes 2..4.
    let ds = vec![diag("double-space", 2, 4, Some((true, vec![edit(2, 4, " ")])))];
    assert_eq!(apply_fixes(input, &ds, false), "é x");
    let ds = vec![diag("insert", 4, 4, Some((true, vec![edit(4, 4, "!"), edit(0, 0, ">")])))];
    assert_eq!(apply_fixes(input, &ds, false), ">é  !x");
}

#[test]
fn unsafe_fix_counting_and_hint() {
    let ds = vec![
        diag("a", 0, 1, Some((false, vec![]))),
        diag("b", 0, 1, Some((true, vec![]))),
        diag("c", 0, 1, Some((false, vec![]))),
        diag("d", 0, 1, None),
    ];
    assert_eq!(count_unsafe_fixes(&ds), 2);
    assert!(!fix_will_apply(&ds[0], false));
    assert!(fix_will_apply(&ds[0], true));
    assert!(fix_will_apply(&ds[1], false));
    assert!(!fix_will_apply(&ds[3], true));
    assert_eq!(unsafe_fixes_hint(2), "2 unsafe fix(es) available; run with --unsafe-fixes to apply.");
}

#[test]
fn fix_summary_messages() {
    assert_eq!(fix_summary(0, 0, "a.md"), None);
    assert_eq!(fix_summary(0, 3, "a.md").unwrap(), "Found 3 issue(s) in a.md (no auto-fix available)");
    assert_eq!(fix_summary(2, 0, "a.md").unwrap(), "Fixed 2 issue(s) in a.md");
    assert_eq!(
        fix_summary(12, 1, "docs/b.qmd").unwrap(),
        "Fixed 12 issue(s) in docs/b.qmd (1 remaining; no auto-fix available)"
    );
}

#[test]
fn merging_skips_already_reported_diagnostics() {
    let mut ds = vec![diag("a", 0, 5, None), diag("b", 3, 4, None)];
    let extra = vec![
        diag("a", 0, 5, None),
        diag("a", 0, 6, None),
        diag("c", 3, 4, None),
        diag("c", 3, 4, None),
    ];
    merge_missing_diagnostics(&mut ds, extra);
    let got: Vec<(String, usize, usize)> = ds.iter().map(|d| (d.code.clone(), d.start, d.end)).collect();
    assert_eq!(
        got,
        vec![
            ("a".to_string(), 0, 5),
            ("b".to_string(), 3, 4),
            ("a".to_string(), 0, 6),
            ("c".to_string(), 3, 4),
        ]
    );
}

#[test]
fn checked_fixes_apply_or_refuse() {
    let input = "é  x";
    let ds = vec![diag("double-space", 2, 4, Some((true, vec![edit(2, 4, " ")])))];
    assert_eq!(try_apply_fixes(input, &ds, false), Some("é x".to_string()));
    // Overlapping edits cannot both apply.
    let ds = vec![diag("a", 0, 4, Some((true, vec![edit(0, 4, "A"), edit(2, 5, "B")])))];
    assert_eq!(try_apply_fixes(input, &ds, false), None);
    // An edit inside the two-byte 'é' is off a character boundary.
    let ds = vec![diag("b", 1, 2, Some((true, vec![edit(1, 2, "")])))];
    assert_eq!(try_apply_fixes(input, &ds, false), None);
    // Past the end of the text.
    let ds = vec![diag("c", 9, 9, Some((true, vec![edit(9, 9, "!")])))];
    assert_eq!(try_apply_fixes(input, &ds, false), None);
}
