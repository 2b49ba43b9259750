use panache::syntax::{SyntaxKind as K, SyntaxTree, TreeBuilder};
use panache::text::{Position, Range};
use panache::workspace::{
    heading_outline_from_root, normalize_symbol_query, sort_and_dedup_symbols, symbols_for_document, SymbolRow,
};

/// A document whose blocks are headings (`#` count, title) and blank lines.
fn doc(headings: &[(&str, &str)]) -> (SyntaxTree, String) {
    let mut b = TreeBuilder::new();
    b.start_node(K::DOCUMENT);
    for (i, (hashes, title)) in headings.iter().enumerate() {
        if i > 0 {
            b.start_node(K::BLANK_LINE);
            b.token(K::NEWLINE, "\n");
            b.finish_node();
        }
        b.start_node(K::HEADING);
        b.start_node(K::ATX_HEADING_MARKER);
        b.token(K::TEXT, hashes);
        b.finish_node();
        b.token(K::WHITESPACE, " ");
        b.start_node(K::HEADING_CONTENT);
        b.token(K::TEXT, title);
        b.finish_node();
        b.token(K::NEWLINE, "\n");
        b.finish_node();
    }
    b.finish_node();
    let tree = b.finish();
    let text = tree.text(0);
    (tree, text)
}

#[test]
fn extracts_heading_symbols_with_container_names() {
    let (root, content) = doc(&[("#", "Top"), ("##", "Child"), ("###", "Grandchild"), ("##", "Sibling")]);
    assert_eq!(content, "# Top\n\n## Child\n\n### Grandchild\n\n## Sibling\n");
    let outline = heading_outline_from_root(&root);
    let symbols = symbols_for_document(&outline, "");

    assert_eq!(symbols.len(), 4);
    assert_eq!(outline[symbols[0].heading].title, "Top");
    let container = |i: usize| symbols[i].container.map(|c| outline[c].title.as_str());
    assert_eq!(container(0), None);
    assert_eq!(container(1), Some("Top"));
    assert_eq!(container(2), Some("Child"));
    assert_eq!(container(3), Some("Top"));
}

#[test]
fn filters_heading_symbols_by_query() {
    let (root, content) = doc(&[("#", "Intro"), ("##", "Methods"), ("##", "Results")]);
    assert_eq!(content, "# Intro\n\n## Methods\n\n## Results\n");
    let outline = heading_outline_from_root(&root);
    let symbols = symbols_for_document(&outline, "intro");

    assert_eq!(symbols.len(), 1);
    assert_eq!(outline[symbols[0].heading].title, "Intro");
}

#[test]
fn outline_records_levels_ranges_and_empty_titles() {
    let (root, content) = doc(&[("##", "  Spaced  "), ("#", " ")]);
    let outline = heading_outline_from_root(&root);
    assert_eq!(outline.len(), 2);
    assert_eq!((outline[0].title.as_str(), outline[0].level), ("Spaced", 2));
    assert_eq!((outline[1].title.as_str(), outline[1].level), ("(empty)", 1));
    assert_eq!(&content[outline[1].start..outline[1].end], "#  \n");
}

#[test]
fn filtered_symbols_keep_their_containers() {
    let (root, _) = doc(&[("#", "Guide"), ("##", "Install"), ("###", "Install on Linux")]);
    let outline = heading_outline_from_root(&root);
    let symbols = symbols_for_document(&outline, &normalize_symbol_query("  INSTALL "));
    let got: Vec<(usize, Option<usize>)> = symbols.iter().map(|s| (s.heading, s.container)).collect();
    assert_eq!(got, vec![(1, Some(0)), (2, Some(1))]);
}

#[test]
fn only_documents_have_outlines() {
    let mut b = TreeBuilder::new();
    b.start_node(K::PARAGRAPH);
    b.token(K::TEXT, "x");
    b.finish_node();
    assert!(heading_outline_from_root(&b.finish()).is_empty());
}

fn row(uri: &str, line: u32, col: u32, name: &str, container: Option<&str>) -> SymbolRow {
    SymbolRow {
        uri: uri.to_string(),
        range: Range {
            start: Position { line, character: col },
            end: Position { line, character: col + 5 },
        },
        name: name.to_string(),
        container: container.map(|c| c.to_string()),
    }
}

fn names(rows: &[SymbolRow]) -> Vec<(String, u32)> {
    rows.iter().map(|r| (format!("{}:{}", r.uri, r.name), r.range.start.line)).collect()
}

#[test]
fn workspace_symbols_sort_by_document_then_position() {
    let rows = vec![
        row("file:///b.md", 0, 0, "B", None),
        row("file:///a.md", 4, 0, "A2", Some("A1")),
        row("file:///a.md", 0, 0, "A1", None),
    ];
    let out = sort_and_dedup_symbols(rows);
    assert_eq!(
        names(&out),
        vec![
            ("file:///a.md:A1".to_string(), 0),
            ("file:///a.md:A2".to_string(), 4),
            ("file:///b.md:B".to_string(), 0),
        ]
    );
}

#[test]
fn workspace_symbols_drop_repeats_of_one_heading() {
    let rows = vec![
        row("file:///a.md", 2, 0, "Intro", None),
        row("file:///a.md", 2, 0, "Intro", Some("Doc")),
        row("file:///a.md", 2, 0, "Intro", None),
    ];
    let out = sort_and_dedup_symbols(rows);
    assert_eq!(out.len(), 1);
    assert_eq!(out[0].container, None);
}

#[test]
fn workspace_symbols_same_place_sort_by_name() {
    let rows = vec![
        row("file:///a.md", 1, 0, "Zeta", None),
        row("file:///a.md", 1, 0, "Alpha", None),
    ];
    let out = sort_and_dedup_symbols(rows);
    assert_eq!(out.len(), 2);
    assert_eq!(out[0].name, "Alpha");
    assert_eq!(out[1].name, "Zeta");
}

#[test]
fn workspace_symbols_empty_input_stays_empty() {
    assert!(sort_and_dedup_symbols(Vec::new()).is_empty());
}
