use panache::docsymbols::{document_symbols, DocSymbol, DocSymbolKind};
use panache::syntax::{SyntaxKind as K, SyntaxTree, TreeBuilder};

/// A node with children, or a token with text.
enum T {
    N(K, Vec<T>),
    L(K, String),
}

use T::{L, N};

fn emit(b: &mut TreeBuilder, t: &T) {
    match t {
        N(k, kids) => {
            b.start_node(*k);
            for kid in kids {
                emit(b, kid);
            }
            b.finish_node();
        }
        L(k, text) => b.token(*k, text),
    }
}

fn doc(blocks: Vec<T>) -> (SyntaxTree, String) {
    let mut b = TreeBuilder::new();
    emit(&mut b, &N(K::DOCUMENT, blocks));
    let tree = b.finish();
    let text = tree.text(0);
    (tree, text)
}

fn l(k: K, s: &str) -> T {
    L(k, s.to_string())
}

fn heading(hashes: &str, title: &str) -> T {
    let mut kids = vec![N(K::ATX_HEADING_MARKER, vec![l(K::TEXT, hashes)]), l(K::WHITESPACE, " ")];
    kids.push(N(K::HEADING_CONTENT, if title.is_empty() { vec![] } else { vec![l(K::TEXT, title)] }));
    kids.push(l(K::NEWLINE, "\n"));
    N(K::HEADING, kids)
}

fn blank() -> T {
    N(K::BLANK_LINE, vec![l(K::BLANK_LINE, "\n")])
}

fn table(caption: Option<&str>) -> T {
    let mut kids = vec![l(K::TEXT, "| col1 | col2 |\n|------|------|\n| a    | b    |\n")];
    if let Some(c) = caption {
        kids.push(N(K::TABLE_CAPTION, vec![l(K::TEXT, ": "), l(K::TEXT, c), l(K::NEWLINE, "\n")]));
    }
    N(K::TABLE, kids)
}

fn image(alt: &str) -> T {
    N(
        K::IMAGE_LINK,
        vec![
            l(K::IMAGE_LINK_START, "!["),
            N(K::IMAGE_ALT, if alt.is_empty() { vec![] } else { vec![l(K::TEXT, alt)] }),
            l(K::LINK_TEXT_END, "]"),
            l(K::LINK_DEST_START, "("),
            N(K::LINK_DEST, vec![l(K::TEXT, "image.png")]),
            l(K::LINK_DEST_END, ")"),
        ],
    )
}

fn figure(alt: &str) -> T {
    N(K::FIGURE, vec![image(alt), l(K::NEWLINE, "\n")])
}

fn para(text: &str) -> T {
    N(K::PARAGRAPH, vec![l(K::TEXT, text), l(K::NEWLINE, "\n")])
}

/// The indices of the symbols whose parent is `p`.
fn children(s: &[DocSymbol], p: Option<usize>) -> Vec<usize> {
    (0..s.len()).filter(|&i| s[i].parent == p).collect()
}

#[test]
fn test_heading_hierarchy() {
    let (tree, content) = doc(vec![
        heading("#", "H1"),
        blank(),
        heading("##", "H2"),
        blank(),
        heading("###", "H3"),
        blank(),
        heading("##", "H2 Again"),
        blank(),
        heading("#", "H1 Again"),
    ]);
    assert_eq!(content, "# H1\n\n## H2\n\n### H3\n\n## H2 Again\n\n# H1 Again\n");
    let symbols = document_symbols(&tree, None);

    let roots = children(&symbols, None);
    assert_eq!(roots.len(), 2); // Two H1 headings
    let h1_first = roots[0];
    assert_eq!(symbols[h1_first].name, "H1");
    assert_eq!(symbols[h1_first].kind, DocSymbolKind::Namespace);
    let h1_kids = children(&symbols, Some(h1_first));
    assert_eq!(h1_kids.len(), 2); // Two H2 children
    assert_eq!(symbols[h1_kids[0]].name, "H2");
    let h2_kids = children(&symbols, Some(h1_kids[0]));
    assert_eq!(h2_kids.len(), 1);
    assert_eq!(symbols[h2_kids[0]].name, "H3");
    assert_eq!(symbols[h1_kids[1]].name, "H2 Again");
    assert_eq!(symbols[roots[1]].name, "H1 Again");
}

#[test]
fn test_table_under_heading() {
    let (tree, _) = doc(vec![heading("#", "Heading"), blank(), table(None)]);
    let symbols = document_symbols(&tree, None);
    let roots = children(&symbols, None);
    assert_eq!(roots.len(), 1);
    assert_eq!(symbols[roots[0]].name, "Heading");
    let kids = children(&symbols, Some(roots[0]));
    assert_eq!(kids.len(), 1);
    assert_eq!(symbols[kids[0]].name, "Table");
    assert_eq!(symbols[kids[0]].kind, DocSymbolKind::Array);
}

#[test]
fn test_table_with_caption() {
    let (tree, _) = doc(vec![heading("#", "Heading"), blank(), table(Some("Results"))]);
    let symbols = document_symbols(&tree, None);
    let roots = children(&symbols, None);
    assert_eq!(roots.len(), 1);
    let kids = children(&symbols, Some(roots[0]));
    assert_eq!(kids.len(), 1);
    assert!(symbols[kids[0]].name.starts_with("Table:"));
}

#[test]
fn test_figure() {
    let (tree, _) = doc(vec![heading("#", "Heading"), blank(), figure("Figure caption")]);
    let symbols = document_symbols(&tree, None);
    let roots = children(&symbols, None);
    assert_eq!(roots.len(), 1);
    let kids = children(&symbols, Some(roots[0]));
    assert_eq!(kids.len(), 1);
    assert_eq!(symbols[kids[0]].name, "Figure: Figure caption");
    assert_eq!(symbols[kids[0]].kind, DocSymbolKind::Object);
}

#[test]
fn test_figure_without_alt() {
    let (tree, _) = doc(vec![heading("#", "Heading"), blank(), figure("")]);
    let symbols = document_symbols(&tree, None);
    let roots = children(&symbols, None);
    assert_eq!(roots.len(), 1);
    let kids = children(&symbols, Some(roots[0]));
    assert_eq!(kids.len(), 1);
    assert_eq!(symbols[kids[0]].name, "Figure");
}

#[test]
fn test_empty_heading() {
    let (tree, _) = doc(vec![heading("#", ""), blank(), heading("##", "Subtitle")]);
    let symbols = document_symbols(&tree, None);
    let roots = children(&symbols, None);
    assert_eq!(roots.len(), 1);
    assert_eq!(symbols[roots[0]].name, "(empty)");
    let kids = children(&symbols, Some(roots[0]));
    assert_eq!(kids.len(), 1);
    assert_eq!(symbols[kids[0]].name, "Subtitle");
}

#[test]
fn test_no_headings() {
    let (tree, _) = doc(vec![table(None), blank(), N(K::PARAGRAPH, vec![image("Figure")])]);
    let symbols = document_symbols(&tree, None);
    // Tables and figures at root level when no headings
    let roots = children(&symbols, None);
    assert_eq!(roots.len(), 2);
    assert_eq!(symbols[roots[0]].name, "Table");
    assert_eq!(symbols[roots[1]].name, "Figure: Figure");
}

#[test]
fn test_mixed_document() {
    let (tree, _) = doc(vec![
        heading("#", "Introduction"),
        blank(),
        para("Some text here."),
        blank(),
        table(None),
        blank(),
        heading("##", "Methods"),
        blank(),
        figure("Method diagram"),
        blank(),
        heading("###", "Subsection"),
        blank(),
        para("Another table:"),
        blank(),
        table(Some("Data")),
    ]);
    let symbols = document_symbols(&tree, None);
    let roots = children(&symbols, None);
    assert_eq!(roots.len(), 1); // One H1
    assert_eq!(symbols[roots[0]].name, "Introduction");
    let h1_kids = children(&symbols, Some(roots[0]));
    assert!(h1_kids.len() >= 2);
    let h2 = *h1_kids.iter().find(|&&i| symbols[i].name == "Methods").unwrap();
    let h2_kids = children(&symbols, Some(h2));
    assert!(h2_kids.iter().any(|&i| symbols[i].name.starts_with("Figure:")));
    assert!(h2_kids.iter().any(|&i| symbols[i].name == "Subsection"));
}

#[test]
fn test_yaml_frontmatter_symbol_uses_parsed_summary_detail() {
    let (tree, _) = doc(vec![
        N(K::YAML_METADATA, vec![l(K::YAML_METADATA_DELIM, "---\n"), l(K::YAML_METADATA_CONTENT, "title: Test\n"), l(K::YAML_METADATA_DELIM, "---\n")]),
        blank(),
        heading("#", "H1"),
    ]);
    let symbols = document_symbols(&tree, Some((0, 20, "frontmatter", Some("Root BlockMap"))));
    let yaml_symbol = symbols.iter().find(|s| s.name == "YAML Frontmatter").expect("yaml frontmatter symbol");
    let detail = yaml_symbol.detail.as_ref().expect("yaml symbol detail");
    assert!(detail.contains("Root"));
    assert!(detail.contains("BlockMap"));
    assert_eq!(detail, "frontmatter (Root BlockMap)");
    assert_eq!(yaml_symbol.parent, None);
}

#[test]
fn test_yaml_frontmatter_symbol_shows_invalid_yaml_detail() {
    let (tree, _) = doc(vec![blank(), heading("#", "H1")]);
    let symbols = document_symbols(&tree, Some((0, 18, "frontmatter", None)));
    let yaml_symbol = symbols.iter().find(|s| s.name == "YAML Frontmatter").expect("yaml frontmatter symbol");
    let detail = yaml_symbol.detail.as_ref().expect("yaml symbol detail");
    assert!(detail.contains("invalid YAML"));
}

#[test]
fn test_container_headings_are_not_section_symbols() {
    // Headings inside a list item, a definition list or a block quote are
    // not blocks of the document.
    let (tree, _) = doc(vec![
        heading("#", "Top"),
        blank(),
        N(K::LIST, vec![N(K::LIST_ITEM, vec![l(K::LIST_MARKER, "-"), l(K::WHITESPACE, " "), heading("#", "Item Heading")])]),
        blank(),
        N(
            K::DEFINITION_LIST,
            vec![N(
                K::DEFINITION_ITEM,
                vec![
                    N(K::TERM, vec![l(K::TEXT, "Term"), l(K::NEWLINE, "\n")]),
                    N(
                        K::DEFINITION,
                        vec![l(K::DEFINITION_MARKER, ":"), l(K::WHITESPACE, " "), heading("#", "Definition Heading")],
                    ),
                ],
            )],
        ),
        blank(),
        N(K::BLOCK_QUOTE, vec![l(K::BLOCK_QUOTE_MARKER, ">"), l(K::WHITESPACE, " "), heading("#", "Quote Heading")]),
        blank(),
        heading("##", "Child"),
    ]);
    let symbols = document_symbols(&tree, None);
    let roots = children(&symbols, None);
    assert_eq!(roots.len(), 1);
    assert_eq!(symbols[roots[0]].name, "Top");
    let kids = children(&symbols, Some(roots[0]));
    assert_eq!(kids.len(), 1);
    assert_eq!(symbols[kids[0]].name, "Child");
}

#[test]
fn symbols_outside_a_document_root_are_none() {
    let mut b = TreeBuilder::new();
    b.start_node(K::PARAGRAPH);
    b.token(K::TEXT, "x");
    b.finish_node();
    let tree = b.finish();
    assert!(document_symbols(&tree, Some((0, 1, "f", None))).is_empty());
}
