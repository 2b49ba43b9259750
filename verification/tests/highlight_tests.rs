use panache::highlight::{highlight_spans, linked_spans, spans_to_ranges, text_edits_from_ranges};
use panache::text::{Position, Range};

#[test]
fn highlight_sorts_by_start_and_drops_repeats() {
    let spans = vec![(10, 14), (0, 4), (10, 14), (5, 8)];
    assert_eq!(highlight_spans(&spans), Some(vec![(0, 4), (5, 8), (10, 14)]));
}

#[test]
fn highlight_of_nothing_is_none() {
    assert_eq!(highlight_spans(&Vec::new()), None);
}

#[test]
fn highlight_sort_is_stable_by_start_only() {
    // Equal starts keep their collected order, so a repeat that is not
    // adjacent after sorting survives.
    let spans = vec![(0, 3), (0, 5), (0, 3)];
    assert_eq!(highlight_spans(&spans), Some(vec![(0, 3), (0, 5), (0, 3)]));
}

#[test]
fn linked_keeps_spans_with_identical_text() {
    // "[Foo] and [foo]\n\n[Foo]: /x" : the lowercase use differs in text.
    let content = "[Foo] and [foo]\n\n[Foo]: /x";
    let spans = vec![(1, 4), (11, 14), (18, 21)];
    assert_eq!(linked_spans(content, &spans, 2), Some(vec![(1, 4), (18, 21)]));
    // Anchored on the lowercase use, no partner remains.
    assert_eq!(linked_spans(content, &spans, 12), None);
}

#[test]
fn linked_cursor_at_span_end_counts() {
    let content = "ab ab";
    let spans = vec![(3, 5), (0, 2)];
    assert_eq!(linked_spans(content, &spans, 5), Some(vec![(0, 2), (3, 5)]));
}

#[test]
fn linked_none_without_covering_span() {
    let content = "ab ab";
    let spans = vec![(0, 2), (3, 5)];
    assert_eq!(linked_spans(content, &spans, 9), None);
    assert_eq!(linked_spans(content, &Vec::new(), 0), None);
}

#[test]
fn linked_none_when_anchor_splits_a_character() {
    // "é" takes two bytes; offset 1 is inside it.
    let content = "é é";
    let spans = vec![(0, 1), (3, 4)];
    assert_eq!(linked_spans(content, &spans, 0), None);
}

#[test]
fn linked_drops_repeated_spans() {
    let content = "xy xy";
    let spans = vec![(0, 2), (3, 5), (0, 2)];
    assert_eq!(linked_spans(content, &spans, 0), Some(vec![(0, 2), (3, 5)]));
}

fn pos(line: u32, character: u32) -> Position {
    Position { line, character }
}

#[test]
fn spans_map_to_line_and_utf16_column() {
    let content = "ab\ncé d\n";
    let ranges = spans_to_ranges(content, &vec![(0, 2), (3, 6), (7, 8)]);
    assert_eq!(
        ranges,
        vec![
            Range { start: pos(0, 0), end: pos(0, 2) },
            Range { start: pos(1, 0), end: pos(1, 2) },
            Range { start: pos(1, 3), end: pos(1, 4) },
        ]
    );
}

#[test]
fn rename_edits_replace_each_span() {
    let text = "[a] and [a]\n\n[a]: /x\n";
    let edits = text_edits_from_ranges(&vec![(1, 2), (9, 10), (14, 15)], text, "b");
    assert_eq!(edits.len(), 3);
    assert!(edits.iter().all(|e| e.new_text == "b"));
    assert_eq!(edits[0].range, Range { start: pos(0, 1), end: pos(0, 2) });
    assert_eq!(edits[1].range, Range { start: pos(0, 9), end: pos(0, 10) });
    assert_eq!(edits[2].range, Range { start: pos(2, 1), end: pos(2, 2) });
}
