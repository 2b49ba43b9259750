use panache::footnotes::{
    can_convert_to_inline, convert_to_inline, convert_to_reference,
    find_footnote_reference_at_position, find_inline_footnote_at_position, generate_footnote_id,
};
use panache::metadata::find_yaml_metadata_node;
use panache::syntax::{SyntaxKind as K, SyntaxTree, TreeBuilder};
use panache::text::{offset_to_position, Position};

/// A syntax tree written out: a node with children, or a token with text.
enum T {
    N(K, Vec<T>),
    L(K, &'static str),
}

fn emit(b: &mut TreeBuilder, t: &T) {
    match t {
        T::N(k, kids) => {
            b.start_node(*k);
            for kid in kids {
                emit(b, kid);
            }
            b.finish_node();
        }
        T::L(k, text) => b.token(*k, text),
    }
}

fn build(root: T) -> SyntaxTree {
    let mut b = TreeBuilder::new();
    emit(&mut b, &root);
    b.finish()
}

fn first_of_kind(tree: &SyntaxTree, k: K) -> Option<usize> {
    (0..tree.len()).find(|&i| tree.kind(i) == k && !tree.is_token(i))
}

use T::{L, N};

fn footnote_ref(id: &'static str) -> T {
    N(K::FOOTNOTE_REFERENCE, vec![L(K::TEXT, "[^"), L(K::TEXT, id), L(K::TEXT, "]")])
}

fn blank() -> T {
    N(K::BLANK_LINE, vec![L(K::NEWLINE, "\n")])
}

fn simple_def(marker: &'static str, content: &'static str, newline: bool) -> T {
    let mut para = vec![L(K::TEXT, content)];
    if newline {
        para.push(L(K::NEWLINE, "\n"));
    }
    N(K::FOOTNOTE_DEFINITION, vec![L(K::FOOTNOTE_REFERENCE, marker), N(K::PARAGRAPH, para)])
}

/// `Text [^1] <rest>\n\n[^1]: <content>`
fn reference_doc(rest: &'static str, content: &'static str) -> SyntaxTree {
    build(N(
        K::DOCUMENT,
        vec![
            N(
                K::PARAGRAPH,
                vec![
                    L(K::TEXT, "Text "),
                    footnote_ref("1"),
                    L(K::TEXT, rest),
                    L(K::NEWLINE, "\n"),
                ],
            ),
            blank(),
            simple_def("[^1]: ", content, false),
        ],
    ))
}

#[test]
fn can_convert_simple_footnote() {
    let input = "Text [^1] more.\n\n[^1]: Simple footnote.";
    let tree = reference_doc(" more.", "Simple footnote.");
    assert_eq!(tree.text(0), input);
    let ref_node = first_of_kind(&tree, K::FOOTNOTE_REFERENCE).unwrap();
    assert!(can_convert_to_inline(&tree, ref_node));
}

#[test]
fn cannot_convert_complex_footnote() {
    let input = "Text [^1] more.\n\n[^1]: First para.\n\n    Second para.";
    let tree = build(N(
        K::DOCUMENT,
        vec![
            N(
                K::PARAGRAPH,
                vec![L(K::TEXT, "Text "), footnote_ref("1"), L(K::TEXT, " more."), L(K::NEWLINE, "\n")],
            ),
            blank(),
            N(
                K::FOOTNOTE_DEFINITION,
                vec![
                    L(K::FOOTNOTE_REFERENCE, "[^1]: "),
                    N(K::PARAGRAPH, vec![L(K::TEXT, "First para."), L(K::NEWLINE, "\n")]),
                    blank(),
                    L(K::WHITESPACE, "    "),
                    N(K::PARAGRAPH, vec![L(K::TEXT, "Second para.")]),
                ],
            ),
        ],
    ));
    assert_eq!(tree.text(0), input);
    let ref_node = first_of_kind(&tree, K::FOOTNOTE_REFERENCE).unwrap();
    assert!(!can_convert_to_inline(&tree, ref_node));
}

#[test]
fn find_footnote_reference_at_cursor() {
    let input = "Text [^1] more text.\n\n[^1]: Footnote content.";
    let tree = reference_doc(" more text.", "Footnote content.");
    assert_eq!(tree.text(0), input);
    let offset = input.find("[^1]").unwrap() + 2;
    let node = find_footnote_reference_at_position(&tree, offset).expect("Should find reference");
    assert_eq!(tree.kind(node), K::FOOTNOTE_REFERENCE);
    assert_eq!(find_footnote_reference_at_position(&tree, 0), None);
}

#[test]
fn test_convert_reference_to_inline() {
    let input = "Text [^1] more.\n\n[^1]: Simple note.";
    let tree = reference_doc(" more.", "Simple note.");
    assert_eq!(tree.text(0), input);
    let ref_node = first_of_kind(&tree, K::FOOTNOTE_REFERENCE).unwrap();
    let edits = convert_to_inline(&tree, ref_node, input);
    assert_eq!(edits.len(), 2);
    assert_eq!(edits[0].new_text, "^[Simple note.]");
    assert_eq!(edits[0].range.start, Position { line: 0, character: 5 });
    assert_eq!(edits[0].range.end, Position { line: 0, character: 9 });
    assert_eq!(edits[1].new_text, "");
    assert_eq!(edits[1].range.start, Position { line: 2, character: 0 });
}

#[test]
fn reference_to_inline_keeps_complex_definition() {
    let input = "Text [^1] more.\n\n[^1]: First para.\n\n    Second para.";
    let tree = build(N(
        K::DOCUMENT,
        vec![
            N(
                K::PARAGRAPH,
                vec![L(K::TEXT, "Text "), footnote_ref("1"), L(K::TEXT, " more."), L(K::NEWLINE, "\n")],
            ),
            blank(),
            N(
                K::FOOTNOTE_DEFINITION,
                vec![
                    L(K::FOOTNOTE_REFERENCE, "[^1]: "),
                    N(K::PARAGRAPH, vec![L(K::TEXT, "First para."), L(K::NEWLINE, "\n")]),
                    blank(),
                    L(K::WHITESPACE, "    "),
                    N(K::PARAGRAPH, vec![L(K::TEXT, "Second para.")]),
                ],
            ),
        ],
    ));
    let ref_node = first_of_kind(&tree, K::FOOTNOTE_REFERENCE).unwrap();
    assert!(convert_to_inline(&tree, ref_node, input).is_empty());
}

#[test]
fn test_generate_footnote_id() {
    let input = "[^1]: First.\n[^2]: Second.\n[^5]: Fifth.";
    let tree = build(N(
        K::DOCUMENT,
        vec![
            simple_def("[^1]: ", "First.", true),
            simple_def("[^2]: ", "Second.", true),
            simple_def("[^5]: ", "Fifth.", false),
        ],
    ));
    assert_eq!(tree.text(0), input);
    let id = generate_footnote_id(&tree);
    assert_eq!(id, "6");
}

#[test]
fn test_generate_footnote_id_no_existing() {
    let tree = build(N(K::DOCUMENT, vec![N(K::PARAGRAPH, vec![L(K::TEXT, "Just text.")])]));
    assert_eq!(tree.text(0), "Just text.");
    let id = generate_footnote_id(&tree);
    assert_eq!(id, "1");
}

#[test]
fn generated_footnote_id_skips_non_numeric_ids() {
    let tree = build(N(
        K::DOCUMENT,
        vec![simple_def("[^note]: ", "Words.", true), simple_def("[^12]: ", "Twelve.", false)],
    ));
    assert_eq!(generate_footnote_id(&tree), "13");
}

fn inline_doc(note: &'static str, rest: &'static str, existing: bool) -> SyntaxTree {
    let mut kids = vec![N(
        K::PARAGRAPH,
        vec![
            L(K::TEXT, "Text"),
            N(
                K::INLINE_FOOTNOTE,
                vec![
                    L(K::INLINE_FOOTNOTE_START, "^["),
                    L(K::TEXT, note),
                    L(K::INLINE_FOOTNOTE_END, "]"),
                ],
            ),
            L(K::TEXT, rest),
        ],
    )];
    if existing {
        if let N(_, para) = &mut kids[0] {
            para.push(L(K::NEWLINE, "\n"));
        }
        kids.push(blank());
        kids.push(simple_def("[^1]: ", "Existing.", false));
    }
    build(N(K::DOCUMENT, kids))
}

#[test]
fn find_inline_footnote_at_cursor() {
    let input = "Text^[Inline note] more text.";
    let tree = inline_doc("Inline note", " more text.", false);
    assert_eq!(tree.text(0), input);
    let offset = input.find("Inline").unwrap();
    let node = find_inline_footnote_at_position(&tree, offset).expect("Should find inline");
    assert_eq!(tree.kind(node), K::INLINE_FOOTNOTE);
}

#[test]
fn test_convert_inline_to_reference() {
    let input = "Text^[Inline note] more.";
    let tree = inline_doc("Inline note", " more.", false);
    assert_eq!(tree.text(0), input);
    let inline_node = first_of_kind(&tree, K::INLINE_FOOTNOTE).unwrap();
    let edits = convert_to_reference(&tree, inline_node, input);
    assert_eq!(edits.len(), 2);
    assert_eq!(edits[0].new_text, "[^1]");
    assert_eq!(edits[1].new_text, "\n\n[^1]: Inline note\n");
    assert_eq!(edits[1].range.start, offset_to_position(input, input.len()));
}

#[test]
fn test_convert_inline_to_reference_with_existing() {
    let input = "Text^[New note] more.\n\n[^1]: Existing.";
    let tree = inline_doc("New note", " more.", true);
    assert_eq!(tree.text(0), input);
    let inline_node = first_of_kind(&tree, K::INLINE_FOOTNOTE).unwrap();
    let edits = convert_to_reference(&tree, inline_node, input);
    assert_eq!(edits.len(), 2);
    assert!(edits[0].new_text.contains("[^2]"));
    assert!(edits[1].new_text.contains("[^2]: New note"));
    assert_eq!(edits[1].new_text, "\n[^2]: New note\n");
}

#[test]
fn test_find_yaml_metadata() {
    let input = "---\ntitle: Test\n---\n\nContent";
    let tree = build(N(
        K::DOCUMENT,
        vec![
            N(
                K::YAML_METADATA,
                vec![
                    L(K::YAML_METADATA_DELIM, "---"),
                    L(K::NEWLINE, "\n"),
                    L(K::YAML_METADATA_CONTENT, "title: Test\n"),
                    L(K::YAML_METADATA_DELIM, "---"),
                    L(K::NEWLINE, "\n"),
                ],
            ),
            blank(),
            N(K::PARAGRAPH, vec![L(K::TEXT, "Content")]),
        ],
    ));
    assert_eq!(tree.text(0), input);
    let yaml_node = find_yaml_metadata_node(&tree);
    assert!(yaml_node.is_some());
    assert_eq!(tree.kind(yaml_node.unwrap()), K::YAML_METADATA);
}

#[test]
fn test_no_yaml_metadata() {
    let input = "# Heading\n\nContent";
    let tree = build(N(
        K::DOCUMENT,
        vec![
            N(
                K::HEADING,
                vec![
                    L(K::ATX_HEADING_MARKER, "#"),
                    L(K::WHITESPACE, " "),
                    N(K::HEADING_CONTENT, vec![L(K::TEXT, "Heading")]),
                    L(K::NEWLINE, "\n"),
                ],
            ),
            blank(),
            N(K::PARAGRAPH, vec![L(K::TEXT, "Content")]),
        ],
    ));
    assert_eq!(tree.text(0), input);
    let yaml_node = find_yaml_metadata_node(&tree);
    assert!(yaml_node.is_none());
}

#[test]
fn offsets_map_to_utf16_positions() {
    assert_eq!(offset_to_position("ab\ncd", 4), Position { line: 1, character: 1 });
    // `é` is two bytes and one UTF-16 unit; an offset inside it rounds up.
    assert_eq!(offset_to_position("é x", 1), Position { line: 0, character: 1 });
    assert_eq!(offset_to_position("é x", 3), Position { line: 0, character: 2 });
    // Past the end: the end of the text.
    assert_eq!(offset_to_position("ab", 10), Position { line: 0, character: 2 });
}
