use panache::actions::{
    fix_title, position_in_range, range_contains, request_in_frontmatter, select_fix_all_edits,
    should_offer_quickfix, FixEdit,
};
use panache::text::{Position, Range};

fn pos(line: u32, character: u32) -> Position {
    Position { line, character }
}

fn range(a: (u32, u32), b: (u32, u32)) -> Range {
    Range { start: pos(a.0, a.1), end: pos(b.0, b.1) }
}

fn edit(start: usize, end: usize, replacement: &str) -> FixEdit {
    FixEdit { start, end, replacement: replacement.to_string() }
}

fn triples(es: &[FixEdit]) -> Vec<(usize, usize, String)> {
    es.iter().map(|e| (e.start, e.end, e.replacement.clone())).collect()
}

#[test]
fn cursor_inside_diagnostic_offers_quickfix() {
    let diag = range((2, 4), (2, 10));
    assert!(should_offer_quickfix(range((2, 4), (2, 4)), diag));
    assert!(should_offer_quickfix(range((2, 10), (2, 10)), diag));
    assert!(!should_offer_quickfix(range((2, 11), (2, 11)), diag));
    assert!(!should_offer_quickfix(range((1, 5), (1, 5)), diag));
}

#[test]
fn selection_must_contain_diagnostic() {
    let diag = range((2, 4), (2, 10));
    assert!(should_offer_quickfix(range((1, 0), (3, 0)), diag));
    assert!(should_offer_quickfix(range((2, 4), (2, 10)), diag));
    assert!(!should_offer_quickfix(range((2, 5), (3, 0)), diag));
    assert!(!should_offer_quickfix(range((2, 0), (2, 9)), diag));
}

#[test]
fn positions_compare_by_line_then_column() {
    assert!(position_in_range(pos(1, 99), range((0, 5), (2, 0))));
    assert!(!position_in_range(pos(0, 4), range((0, 5), (2, 0))));
    assert!(range_contains(range((0, 0), (5, 0)), range((1, 3), (4, 8))));
    assert!(!range_contains(range((1, 4), (5, 0)), range((1, 3), (4, 8))));
}

#[test]
fn fix_all_sorts_and_drops_overlaps_and_repeats() {
    let es = vec![
        edit(10, 12, "b"),
        edit(0, 3, "a"),
        edit(2, 5, "overlaps a"),
        edit(10, 12, "b"),
        edit(20, 20, "x"),
        edit(20, 20, "x"),
        edit(20, 20, "y"),
    ];
    let kept = select_fix_all_edits(&es);
    assert_eq!(
        triples(&kept),
        vec![
            (0, 3, "a".to_string()),
            (10, 12, "b".to_string()),
            (20, 20, "x".to_string()),
            (20, 20, "y".to_string()),
        ]
    );
}

#[test]
fn fix_all_sort_is_stable_for_equal_ranges() {
    let es = vec![edit(4, 4, "second"), edit(1, 2, "first"), edit(4, 4, "third")];
    let kept = select_fix_all_edits(&es);
    assert_eq!(
        triples(&kept),
        vec![(1, 2, "first".to_string()), (4, 4, "second".to_string()), (4, 4, "third".to_string())]
    );
}

#[test]
fn fix_all_of_nothing_is_nothing() {
    assert!(select_fix_all_edits(&Vec::new()).is_empty());
}

#[test]
fn unsafe_fix_titles_are_labelled() {
    assert_eq!(fix_title("Remove trailing space", false), "Remove trailing space");
    assert_eq!(fix_title("Rewrite heading", true), "Rewrite heading (unsafe)");
}

#[test]
fn request_overlapping_frontmatter_is_detected() {
    let fm = Some((0, 20));
    assert!(request_in_frontmatter(Some(5), Some(5), fm));
    assert!(request_in_frontmatter(Some(19), None, fm));
    assert!(!request_in_frontmatter(Some(20), Some(25), fm));
    assert!(!request_in_frontmatter(None, Some(3), fm));
    assert!(!request_in_frontmatter(Some(3), Some(4), None));
    assert!(request_in_frontmatter(Some(25), Some(10), Some((25, 30))));
}
