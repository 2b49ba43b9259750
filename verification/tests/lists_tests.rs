use panache::lists::{convert_to_compact, convert_to_loose, find_list_at_position};
use panache::syntax::{SyntaxKind as K, SyntaxTree, TreeBuilder};

/// A node with children, or a token with text.
enum T {
    N(K, Vec<T>),
    L(K, String),
}

use T::{L, N};

fn emit(b: &mut TreeBuilder, t: &T) {
    match t {
        N(k, kids) => {
            b.start_node(*k);
            for kid in kids {
                emit(b, kid);
            }
            b.finish_node();
        }
        L(k, text) => b.token(*k, text),
    }
}

fn doc(blocks: Vec<T>) -> (SyntaxTree, String) {
    let mut b = TreeBuilder::new();
    emit(&mut b, &N(K::DOCUMENT, blocks));
    let tree = b.finish();
    let text = tree.text(0);
    (tree, text)
}

/// `indent- text\n`, with an optional nested block after the line.
fn item(indent: &str, text: &str, nested: Option<T>) -> T {
    let mut kids = Vec::new();
    if !indent.is_empty() {
        kids.push(L(K::WHITESPACE, indent.to_string()));
    }
    kids.push(L(K::LIST_MARKER, "-".to_string()));
    kids.push(L(K::WHITESPACE, " ".to_string()));
    kids.push(N(K::PLAIN, vec![L(K::TEXT, text.to_string()), L(K::NEWLINE, "\n".to_string())]));
    if let Some(n) = nested {
        kids.push(n);
    }
    N(K::LIST_ITEM, kids)
}

fn blank() -> T {
    N(K::BLANK_LINE, vec![L(K::BLANK_LINE, "\n".to_string())])
}

fn first_list(tree: &SyntaxTree) -> usize {
    (0..tree.len()).find(|&i| tree.kind(i) == K::LIST).expect("Should find list")
}

fn item_count(tree: &SyntaxTree, list: usize) -> usize {
    (0..tree.len())
        .filter(|&i| tree.kind(i) == K::LIST_ITEM && tree.parent(i) == Some(list))
        .count()
}

#[test]
fn find_list_at_position_finds_innermost() {
    let inner = N(K::LIST, vec![item("  ", "Inner", None), item("  ", "Inner2", None)]);
    let (tree, input) = doc(vec![N(K::LIST, vec![item("", "Outer", Some(inner)), item("", "Outer2", None)])]);
    assert_eq!(input, "- Outer\n  - Inner\n  - Inner2\n- Outer2\n");

    // Offset inside "Inner" (should find inner list)
    let offset = input.find("Inner").unwrap();
    let list = find_list_at_position(&tree, offset).expect("Should find list");
    assert_eq!(tree.kind(list), K::LIST);
    // The inner list has 2 items
    assert_eq!(item_count(&tree, list), 2);
}

#[test]
fn convert_compact_to_loose() {
    let (tree, input) = doc(vec![N(
        K::LIST,
        vec![item("", "First", None), item("", "Second", None), item("", "Third", None)],
    )]);
    assert_eq!(input, "- First\n- Second\n- Third\n");
    let list_node = first_list(&tree);

    let edits = convert_to_loose(&tree, list_node, &input, false);

    // Should have 2 edits (after first and second items)
    assert_eq!(edits.len(), 2);

    // First edit should insert after "First\n"
    assert_eq!(edits[0].new_text, "\n");
    assert_eq!(edits[0].range.start.line, 1);

    // Second edit should insert after "Second\n"
    assert_eq!(edits[1].new_text, "\n");
    assert_eq!(edits[1].range.start.line, 2);
}

#[test]
fn convert_loose_to_compact() {
    let (tree, input) = doc(vec![N(
        K::LIST,
        vec![item("", "First", None), blank(), item("", "Second", None), blank(), item("", "Third", None)],
    )]);
    assert_eq!(input, "- First\n\n- Second\n\n- Third\n");
    let list_node = first_list(&tree);

    let edits = convert_to_compact(&tree, list_node, &input, false);

    // Should have 2 edits (remove 2 blank lines)
    assert_eq!(edits.len(), 2);

    // Each edit should remove one blank line
    for edit in &edits {
        assert_eq!(edit.new_text, "");
        assert!(edit.range.start != edit.range.end);
    }
}

#[test]
fn already_loose_returns_empty() {
    let (tree, input) = doc(vec![N(K::LIST, vec![item("", "First", None), blank(), item("", "Second", None)])]);
    assert_eq!(input, "- First\n\n- Second\n");
    let list_node = first_list(&tree);

    let edits = convert_to_loose(&tree, list_node, &input, true);
    assert_eq!(edits.len(), 0, "Should return no edits for already loose");
}

#[test]
fn already_compact_returns_empty() {
    let (tree, input) = doc(vec![N(K::LIST, vec![item("", "First", None), item("", "Second", None)])]);
    assert_eq!(input, "- First\n- Second\n");
    let list_node = first_list(&tree);

    let edits = convert_to_compact(&tree, list_node, &input, true);
    assert_eq!(edits.len(), 0, "Should return no edits for already compact");
}

#[test]
fn trailing_blank_line_after_last_item_stays() {
    let (tree, input) = doc(vec![N(
        K::LIST,
        vec![item("", "First", None), blank(), item("", "Second", None), blank()],
    )]);
    let list_node = first_list(&tree);
    let edits = convert_to_compact(&tree, list_node, &input, false);
    assert_eq!(edits.len(), 1);
    assert_eq!(edits[0].range.start.line, 1);
    assert_eq!(edits[0].range.end.line, 2);
}

#[test]
fn blank_line_token_between_items_is_removed() {
    let (tree, input) = doc(vec![N(
        K::LIST,
        vec![item("", "A", None), L(K::BLANK_LINE, "\n".to_string()), item("", "B", None)],
    )]);
    assert_eq!(input, "- A\n\n- B\n");
    let list_node = first_list(&tree);
    let edits = convert_to_compact(&tree, list_node, &input, false);
    assert_eq!(edits.len(), 1);
    assert_eq!(edits[0].range.start.line, 1);
}

#[test]
fn non_list_nodes_give_no_edits() {
    let (tree, input) = doc(vec![N(K::PARAGRAPH, vec![L(K::TEXT, "x".to_string())])]);
    assert!(convert_to_loose(&tree, 0, &input, false).is_empty());
    assert!(convert_to_compact(&tree, 0, &input, false).is_empty());
}

#[test]
fn no_list_at_offset_outside_lists() {
    let (tree, input) = doc(vec![N(K::PARAGRAPH, vec![L(K::TEXT, "plain".to_string())])]);
    assert_eq!(find_list_at_position(&tree, 2), None);
    assert_eq!(find_list_at_position(&tree, input.len()), None);
}
