use panache::headinglinks::{convert_to_explicit_heading_link, find_implicit_heading_link_at_position, shortcut_label};
use panache::syntax::{SyntaxKind as K, SyntaxTree, TreeBuilder};

/// A node with children, or a token with text.
enum T {
    N(K, Vec<T>),
    L(K, &'static str),
}

use T::{L, N};

fn emit(b: &mut TreeBuilder, t: &T) {
    match t {
        N(k, kids) => {
            b.start_node(*k);
            for kid in kids {
                emit(b, kid);
            }
            b.finish_node();
        }
        L(k, text) => b.token(*k, text),
    }
}

fn parse(blocks: Vec<T>) -> (SyntaxTree, String) {
    let mut b = TreeBuilder::new();
    emit(&mut b, &N(K::DOCUMENT, blocks));
    let tree = b.finish();
    let text = tree.text(0);
    (tree, text)
}

fn heading(title: &'static str) -> T {
    N(
        K::HEADING,
        vec![
            N(K::ATX_HEADING_MARKER, vec![L(K::TEXT, "#")]),
            L(K::WHITESPACE, " "),
            N(K::HEADING_CONTENT, vec![L(K::TEXT, title)]),
            L(K::NEWLINE, "\n"),
        ],
    )
}

fn blank() -> T {
    N(K::BLANK_LINE, vec![L(K::BLANK_LINE, "\n")])
}

fn shortcut(label: &'static str) -> T {
    N(K::UNRESOLVED_REFERENCE, vec![L(K::TEXT, "["), L(K::TEXT, label), L(K::TEXT, "]")])
}

#[test]
fn find_implicit_heading_link_at_cursor() {
    let (tree, input) = parse(vec![
        heading("Heading"),
        blank(),
        N(K::PARAGRAPH, vec![L(K::TEXT, "See "), shortcut("heading"), L(K::TEXT, ".\n")]),
    ]);
    assert_eq!(input, "# Heading\n\nSee [heading].\n");
    let offset = input.find("heading]").expect("link label") + 1;
    let node = find_implicit_heading_link_at_position(&tree, offset);
    assert!(node.is_some());
}

#[test]
fn convert_to_explicit_heading_link_uses_pandoc_slug() {
    let (tree, input) = parse(vec![
        heading("Unordered Lists"),
        blank(),
        N(K::PARAGRAPH, vec![shortcut("unordered lists"), L(K::NEWLINE, "\n")]),
    ]);
    assert_eq!(input, "# Unordered Lists\n\n[unordered lists]\n");
    let offset = input.find("unordered").expect("link label");
    let link_node = find_implicit_heading_link_at_position(&tree, offset).expect("link node");

    let edits = convert_to_explicit_heading_link(&tree, link_node, &input);
    assert_eq!(edits.len(), 1);
    assert_eq!(edits[0].new_text, "[unordered lists](#unordered-lists)");
    assert_eq!(edits[0].range.start.line, 2);
    assert_eq!(edits[0].range.start.character, 0);
    assert_eq!(edits[0].range.end.character, 17);
}

#[test]
fn repeated_heading_slugs_are_numbered() {
    let (tree, input) = parse(vec![
        heading("Intro"),
        blank(),
        heading("Intro!"),
        blank(),
        N(K::PARAGRAPH, vec![shortcut("intro!"), L(K::NEWLINE, "\n")]),
    ]);
    let offset = input.rfind("intro!").unwrap();
    let link = find_implicit_heading_link_at_position(&tree, offset).unwrap();
    let edits = convert_to_explicit_heading_link(&tree, link, &input);
    assert_eq!(edits.len(), 1);
    assert_eq!(edits[0].new_text, "[intro!](#intro-1)");
}

#[test]
fn links_with_destinations_are_not_shortcuts() {
    let (tree, input) = parse(vec![
        heading("Intro"),
        N(
            K::PARAGRAPH,
            vec![N(
                K::LINK,
                vec![
                    L(K::LINK_START, "["),
                    N(K::LINK_TEXT, vec![L(K::TEXT, "intro")]),
                    L(K::LINK_TEXT_END, "]"),
                    L(K::LINK_DEST_START, "("),
                    N(K::LINK_DEST, vec![L(K::TEXT, "x.md")]),
                    L(K::LINK_DEST_END, ")"),
                ],
            )],
        ),
    ]);
    let offset = input.find("intro").unwrap();
    assert_eq!(find_implicit_heading_link_at_position(&tree, offset), None);
    let link = (0..tree.len()).find(|&i| tree.kind(i) == K::LINK).unwrap();
    assert_eq!(shortcut_label(&tree, link), None);
    assert!(convert_to_explicit_heading_link(&tree, link, &input).is_empty());
}

#[test]
fn shortcut_without_matching_heading_gives_no_edit() {
    let (tree, input) = parse(vec![heading("Intro"), N(K::PARAGRAPH, vec![shortcut("other")])]);
    let link = (0..tree.len()).find(|&i| tree.kind(i) == K::UNRESOLVED_REFERENCE).unwrap();
    assert_eq!(shortcut_label(&tree, link), Some("other".to_string()));
    assert!(convert_to_explicit_heading_link(&tree, link, &input).is_empty());
}
