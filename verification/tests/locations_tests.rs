use panache::locations::{add_locations, sort_and_dedup_locations, Location};
use panache::text::{Position, Range};

fn loc(uri: &str, sl: u32, sc: u32, el: u32, ec: u32) -> Location {
    Location {
        uri: uri.to_string(),
        range: Range { start: Position { line: sl, character: sc }, end: Position { line: el, character: ec } },
    }
}

fn keys(v: &[Location]) -> Vec<(String, u32, u32, u32, u32)> {
    v.iter()
        .map(|l| (l.uri.clone(), l.range.start.line, l.range.start.character, l.range.end.line, l.range.end.character))
        .collect()
}

#[test]
fn locations_sort_by_document_then_start_then_end() {
    let out = sort_and_dedup_locations(vec![
        loc("file:///b.md", 0, 0, 0, 3),
        loc("file:///a.md", 2, 4, 2, 9),
        loc("file:///a.md", 2, 4, 2, 6),
        loc("file:///a.md", 1, 9, 1, 10),
    ]);
    assert_eq!(
        keys(&out),
        vec![
            ("file:///a.md".to_string(), 1, 9, 1, 10),
            ("file:///a.md".to_string(), 2, 4, 2, 6),
            ("file:///a.md".to_string(), 2, 4, 2, 9),
            ("file:///b.md".to_string(), 0, 0, 0, 3),
        ]
    );
}

#[test]
fn repeated_locations_are_dropped() {
    let out = sort_and_dedup_locations(vec![
        loc("file:///a.md", 0, 1, 0, 4),
        loc("file:///a.md", 0, 1, 0, 4),
        loc("file:///b.md", 0, 1, 0, 4),
        loc("file:///a.md", 0, 1, 0, 4),
    ]);
    assert_eq!(out.len(), 2);
    assert_eq!(out[0].uri, "file:///a.md");
    assert_eq!(out[1].uri, "file:///b.md");
}

#[test]
fn no_locations_stay_empty() {
    assert!(sort_and_dedup_locations(Vec::new()).is_empty());
}

#[test]
fn spans_become_locations_in_one_document() {
    let mut out = vec![loc("file:///x.md", 0, 0, 0, 1)];
    add_locations(&mut out, "file:///a.md", "ab\ncd\n", &vec![(0, 2), (3, 5)]);
    assert_eq!(
        keys(&out),
        vec![
            ("file:///x.md".to_string(), 0, 0, 0, 1),
            ("file:///a.md".to_string(), 0, 0, 0, 2),
            ("file:///a.md".to_string(), 1, 0, 1, 2),
        ]
    );
}
