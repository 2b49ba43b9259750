use panache::folding::{build_folding_ranges, get_heading_level, FoldRange};
use panache::syntax::{SyntaxKind as K, SyntaxTree, TreeBuilder};

/// A block of a document: a node with children, or a token with text.
enum T {
    N(K, Vec<T>),
    L(K, String),
}

use T::{L, N};

fn emit(b: &mut TreeBuilder, t: &T) {
    match t {
        N(k, kids) => {
            b.start_node(*k);
            for kid in kids {
                emit(b, kid);
            }
            b.finish_node();
        }
        L(k, text) => b.token(*k, text),
    }
}

/// A parsed document: the root holds the document node, which holds the
/// blocks. Returns the tree and its text.
fn doc(blocks: Vec<T>) -> (SyntaxTree, String) {
    let mut b = TreeBuilder::new();
    emit(&mut b, &N(K::ROOT, vec![N(K::DOCUMENT, blocks)]));
    let tree = b.finish();
    let text = tree.text(0);
    (tree, text)
}

fn heading(hashes: &str, title: &str) -> T {
    N(
        K::HEADING,
        vec![
            N(K::ATX_HEADING_MARKER, vec![L(K::TEXT, hashes.to_string())]),
            L(K::WHITESPACE, " ".to_string()),
            N(K::HEADING_CONTENT, vec![L(K::TEXT, title.to_string())]),
            L(K::NEWLINE, "\n".to_string()),
        ],
    )
}

fn setext(title: &str, underline: &str) -> T {
    N(
        K::HEADING,
        vec![
            N(K::HEADING_CONTENT, vec![L(K::TEXT, title.to_string())]),
            L(K::NEWLINE, "\n".to_string()),
            N(K::SETEXT_HEADING_UNDERLINE, vec![L(K::TEXT, underline.to_string())]),
            L(K::NEWLINE, "\n".to_string()),
        ],
    )
}

fn para(lines: &[&str]) -> T {
    let mut kids = Vec::new();
    for line in lines {
        kids.push(L(K::TEXT, line.to_string()));
        kids.push(L(K::NEWLINE, "\n".to_string()));
    }
    N(K::PARAGRAPH, kids)
}

fn blank() -> T {
    N(K::BLANK_LINE, vec![L(K::NEWLINE, "\n".to_string())])
}

fn fenced(kind: K, lines: &[&str]) -> T {
    let mut kids = Vec::new();
    for line in lines {
        kids.push(L(K::TEXT, line.to_string()));
        kids.push(L(K::NEWLINE, "\n".to_string()));
    }
    N(kind, kids)
}

fn lines(ranges: &[FoldRange]) -> Vec<(u32, u32)> {
    ranges.iter().map(|r| (r.start_line, r.end_line)).collect()
}

fn hierarchy() -> (SyntaxTree, String) {
    doc(vec![
        heading("#", "Heading 1"),
        blank(),
        para(&["Some content under h1."]),
        blank(),
        heading("##", "Heading 2"),
        blank(),
        para(&["Content under h2."]),
        blank(),
        heading("###", "Heading 3"),
        blank(),
        para(&["More content."]),
        blank(),
        heading("##", "Another H2"),
        blank(),
        para(&["Final content."]),
    ])
}

#[test]
fn test_heading_hierarchy_folding() {
    let (tree, content) = hierarchy();
    assert!(content.starts_with("# Heading 1\n\nSome content under h1.\n"));
    let ranges = build_folding_ranges(&tree, &content);
    assert!(!ranges.is_empty(), "Should have folding ranges");
    assert_eq!(lines(&ranges), vec![(0, 14), (4, 11), (8, 11), (12, 14)]);
}

#[test]
fn test_code_block_folding() {
    let (tree, content) = doc(vec![
        heading("#", "Test"),
        blank(),
        fenced(
            K::CODE_BLOCK,
            &["```python", "def hello():", "    print(\"Hello, world!\")", "    return True", "```"],
        ),
        blank(),
        para(&["More text."]),
    ]);
    let ranges = build_folding_ranges(&tree, &content);
    assert!(!ranges.is_empty(), "Should have code block fold");
    assert_eq!(lines(&ranges), vec![(2, 6), (0, 8)]);
}

#[test]
fn test_fenced_div_folding() {
    let (tree, content) = doc(vec![
        heading("#", "Test"),
        blank(),
        fenced(K::FENCED_DIV, &["::: {.callout-note}", "This is a note.", "It has multiple lines.", ":::"]),
        blank(),
        para(&["Text after."]),
    ]);
    let ranges = build_folding_ranges(&tree, &content);
    assert!(!ranges.is_empty(), "Should have folding ranges");
    assert_eq!(lines(&ranges), vec![(2, 5), (0, 7)]);
}

#[test]
fn test_yaml_frontmatter_folding() {
    let (tree, content) = doc(vec![
        fenced(
            K::YAML_METADATA,
            &["---", "title: \"My Document\"", "author: \"Test Author\"", "date: 2024-01-01", "---"],
        ),
        blank(),
        heading("#", "Heading"),
        blank(),
        para(&["Content here."]),
    ]);
    let ranges = build_folding_ranges(&tree, &content);
    assert!(ranges.len() >= 2, "Should have at least 2 folds (frontmatter + heading)");
    assert_eq!(lines(&ranges), vec![(0, 4), (6, 8)]);
}

#[test]
fn test_nested_structures() {
    let (tree, content) = doc(vec![
        heading("#", "Main Heading"),
        blank(),
        para(&["Some intro text."]),
        blank(),
        fenced(K::CODE_BLOCK, &["```rust", "fn main() {", "    println!(\"nested\");", "}", "```"]),
        blank(),
        heading("##", "Subheading"),
        blank(),
        para(&["More content."]),
    ]);
    let ranges = build_folding_ranges(&tree, &content);
    assert!(ranges.len() >= 3, "Should have at least 3 folds");
    assert_eq!(lines(&ranges), vec![(4, 8), (0, 12), (10, 12)]);
}

#[test]
fn test_empty_document() {
    let (tree, content) = doc(vec![]);
    assert_eq!(content, "");
    let ranges = build_folding_ranges(&tree, &content);
    assert!(ranges.is_empty(), "Empty document should have no folds");
}

#[test]
fn test_single_heading_no_content() {
    let (tree, content) = doc(vec![heading("#", "Heading")]);
    assert_eq!(content, "# Heading\n");
    let ranges = build_folding_ranges(&tree, &content);
    assert!(ranges.is_empty(), "Single heading with no content should have no folds");
}

#[test]
fn test_no_foldable_content() {
    let (tree, content) = doc(vec![
        para(&["Just a paragraph."]),
        blank(),
        para(&["Another paragraph."]),
        blank(),
        para(&["And one more."]),
    ]);
    let ranges = build_folding_ranges(&tree, &content);
    assert!(ranges.is_empty(), "Plain paragraphs should have no folds");
}

#[test]
fn single_line_code_block_does_not_fold() {
    let (tree, content) = doc(vec![fenced(K::CODE_BLOCK, &["`x`"]), para(&["after"])]);
    assert!(build_folding_ranges(&tree, &content).is_empty());
}

#[test]
fn document_must_sit_under_the_root() {
    let mut b = TreeBuilder::new();
    emit(&mut b, &N(K::DOCUMENT, vec![heading("#", "A"), blank(), para(&["text"])]));
    let tree = b.finish();
    let content = tree.text(0);
    assert!(build_folding_ranges(&tree, &content).is_empty());
}

#[test]
fn heading_levels_come_from_markers() {
    let (tree, _) = doc(vec![heading("###", "Three"), setext("One", "==="), setext("Two", "---")]);
    let heads: Vec<usize> = (0..tree.len())
        .filter(|&i| tree.kind(i) == K::HEADING && !tree.is_token(i))
        .collect();
    let levels: Vec<usize> = heads.iter().map(|&h| get_heading_level(&tree, h)).collect();
    assert_eq!(levels, vec![3, 1, 2]);
    let para_node = {
        let (t, _) = doc(vec![para(&["x"])]);
        let p = (0..t.len()).find(|&i| t.kind(i) == K::PARAGRAPH).unwrap();
        get_heading_level(&t, p)
    };
    assert_eq!(para_node, 1);
}

#[test]
fn setext_sections_end_at_same_level() {
    let (tree, content) = doc(vec![
        setext("Top", "==="),
        para(&["a"]),
        setext("Sub", "---"),
        para(&["b"]),
        setext("Next", "==="),
        para(&["c"]),
    ]);
    let ranges = build_folding_ranges(&tree, &content);
    assert_eq!(lines(&ranges), vec![(0, 5), (3, 5), (6, 8)]);
}
