use panache::helpers::{
    find_definition_at_offset,
    extract_chunk_label_key, extract_citation_key, extract_crossref_key, extract_definition_label,
    extract_reference_label,
    find_definition_node, find_implicit_header_definition_node, implicit_header_id,
    is_offset_in_yaml_frontmatter, is_yaml_frontmatter_valid, normalize_heading_text, YamlRegion,
};
use panache::locate::{covering_element, find_node_at_offset};
use panache::syntax::{ancestors, SyntaxKind as K, SyntaxTree, TreeBuilder};
use panache::text::normalize_label;

/// A syntax tree written out: a node with children, or a token with text.
enum T {
    N(K, Vec<T>),
    L(K, &'static str),
}

fn emit(b: &mut TreeBuilder, t: &T) {
    match t {
        T::N(k, kids) => {
            b.start_node(*k);
            for kid in kids {
                emit(b, kid);
            }
            b.finish_node();
        }
        T::L(k, text) => b.token(*k, text),
    }
}

fn build(root: T) -> SyntaxTree {
    let mut b = TreeBuilder::new();
    emit(&mut b, &root);
    b.finish()
}

fn text_of(tree: &SyntaxTree) -> String {
    tree.text(0)
}

fn first_of_kind(tree: &SyntaxTree, k: K) -> Option<usize> {
    (0..tree.len()).find(|&i| tree.kind(i) == k && !tree.is_token(i))
}

use T::{L, N};

/// `[text][ref]`
fn link_ref_doc(label: &'static str) -> T {
    N(
        K::LINK,
        vec![
            L(K::LINK_START, "["),
            N(K::LINK_TEXT, vec![L(K::TEXT, "text")]),
            L(K::LINK_TEXT_END, "]"),
            N(
                K::LINK_REF,
                vec![L(K::LINK_START, "["), L(K::TEXT, label), L(K::LINK_TEXT_END, "]")],
            ),
        ],
    )
}

/// `[label]: url`
fn ref_def(label: &'static str, url: &'static str) -> T {
    N(
        K::REFERENCE_DEFINITION,
        vec![
            N(
                K::LINK,
                vec![
                    L(K::LINK_START, "["),
                    N(K::LINK_TEXT, vec![L(K::TEXT, label)]),
                    L(K::LINK_TEXT_END, "]"),
                ],
            ),
            L(K::TEXT, ":"),
            L(K::WHITESPACE, " "),
            N(K::LINK_DEST, vec![L(K::TEXT, url)]),
        ],
    )
}

/// `[^id]`
fn footnote_ref(id: &'static str) -> T {
    N(
        K::FOOTNOTE_REFERENCE,
        vec![L(K::TEXT, "[^"), L(K::TEXT, id), L(K::TEXT, "]")],
    )
}

fn blank() -> T {
    N(K::BLANK_LINE, vec![L(K::NEWLINE, "\n")])
}

fn heading(content: &'static str) -> T {
    N(
        K::HEADING,
        vec![
            L(K::ATX_HEADING_MARKER, "#"),
            L(K::WHITESPACE, " "),
            N(K::HEADING_CONTENT, vec![L(K::TEXT, content)]),
            L(K::NEWLINE, "\n"),
        ],
    )
}

#[test]
fn test_normalize_label() {
    assert_eq!(normalize_label("Foo"), "foo");
    assert_eq!(normalize_label("foo bar"), "foo bar");
    assert_eq!(normalize_label("foo  bar"), "foo bar");
    assert_eq!(normalize_label(" foo bar "), "foo bar");
}

#[test]
fn test_extract_reference_label_from_link_ref() {
    let root = build(N(K::DOCUMENT, vec![N(K::PARAGRAPH, vec![link_ref_doc("ref")])]));
    assert_eq!(text_of(&root), "[text][ref]");
    let link_ref = first_of_kind(&root, K::LINK_REF).expect("Should find LinkRef");
    let (label, is_footnote) =
        extract_reference_label(&root, link_ref).expect("Should extract label");
    assert_eq!(label, "ref");
    assert!(!is_footnote);
}

#[test]
fn test_extract_reference_label_from_footnote() {
    let root = build(N(K::DOCUMENT, vec![N(K::PARAGRAPH, vec![footnote_ref("1")])]));
    assert_eq!(text_of(&root), "[^1]");
    let footnote_ref =
        first_of_kind(&root, K::FOOTNOTE_REFERENCE).expect("Should find FootnoteReference");
    let (label, is_footnote) =
        extract_reference_label(&root, footnote_ref).expect("Should extract label");
    assert_eq!(label, "1");
    assert!(is_footnote);
}

#[test]
fn test_extract_definition_label_from_reference() {
    let root = build(N(K::DOCUMENT, vec![ref_def("ref", "/url")]));
    assert_eq!(text_of(&root), "[ref]: /url");
    let def = first_of_kind(&root, K::REFERENCE_DEFINITION).expect("Should find ReferenceDefinition");
    let label = extract_definition_label(&root, def).expect("Should extract label");
    assert_eq!(label, "ref");
}

#[test]
fn test_extract_definition_label_from_footnote() {
    let root = build(N(
        K::DOCUMENT,
        vec![N(
            K::FOOTNOTE_DEFINITION,
            vec![
                L(K::FOOTNOTE_REFERENCE, "[^1]: "),
                N(K::PARAGRAPH, vec![L(K::TEXT, "content")]),
            ],
        )],
    ));
    assert_eq!(text_of(&root), "[^1]: content");
    let def = first_of_kind(&root, K::FOOTNOTE_DEFINITION).expect("Should find FootnoteDefinition");
    let label = extract_definition_label(&root, def).expect("Should extract label");
    assert_eq!(label, "1");
}

fn reference_doc(use_label: &'static str) -> SyntaxTree {
    build(N(
        K::DOCUMENT,
        vec![
            N(K::PARAGRAPH, vec![link_ref_doc(use_label), L(K::NEWLINE, "\n")]),
            blank(),
            ref_def("ref", "/url"),
        ],
    ))
}

#[test]
fn test_find_definition_node_reference() {
    let root = reference_doc("ref");
    assert_eq!(text_of(&root), "[text][ref]\n\n[ref]: /url");
    let def = find_definition_node(&root, 0, "ref", false);
    assert!(def.is_some());
    assert_eq!(root.kind(def.unwrap()), K::REFERENCE_DEFINITION);
}

#[test]
fn test_find_definition_node_case_insensitive() {
    let root = reference_doc("REF");
    assert_eq!(text_of(&root), "[text][REF]\n\n[ref]: /url");
    let def = find_definition_node(&root, 0, "ref", false);
    assert!(def.is_some());
}

#[test]
fn test_find_definition_node_footnote() {
    let root = build(N(
        K::DOCUMENT,
        vec![
            N(
                K::PARAGRAPH,
                vec![L(K::TEXT, "Text"), footnote_ref("1"), L(K::NEWLINE, "\n")],
            ),
            blank(),
            N(
                K::FOOTNOTE_DEFINITION,
                vec![
                    L(K::FOOTNOTE_REFERENCE, "[^1]: "),
                    N(K::PARAGRAPH, vec![L(K::TEXT, "content")]),
                ],
            ),
        ],
    ));
    assert_eq!(text_of(&root), "Text[^1]\n\n[^1]: content");
    let def = find_definition_node(&root, 0, "1", true);
    assert!(def.is_some());
    assert_eq!(root.kind(def.unwrap()), K::FOOTNOTE_DEFINITION);
}

#[test]
fn test_find_definition_node_not_found() {
    let root = build(N(K::DOCUMENT, vec![N(K::PARAGRAPH, vec![link_ref_doc("ref")])]));
    let def = find_definition_node(&root, 0, "ref", false);
    assert!(def.is_none());
}

#[test]
fn test_find_implicit_header_definition_node() {
    let root = build(N(
        K::DOCUMENT,
        vec![
            heading("Implicit Header"),
            blank(),
            N(
                K::PARAGRAPH,
                vec![
                    L(K::TEXT, "See "),
                    L(K::ESCAPED_CHAR, "\\@"),
                    L(K::TEXT, "ref(implicit-header)."),
                    L(K::NEWLINE, "\n"),
                ],
            ),
        ],
    ));
    assert_eq!(text_of(&root), "# Implicit Header\n\nSee \\@ref(implicit-header).\n");
    let def = find_implicit_header_definition_node(&root, 0, "implicit-header");
    assert!(def.is_some());
    assert_eq!(root.kind(def.unwrap()), K::HEADING);
}

#[test]
fn test_find_implicit_header_definition_node_duplicates() {
    let root = build(N(
        K::DOCUMENT,
        vec![heading("Implicit Header"), blank(), heading("Implicit Header")],
    ));
    assert_eq!(text_of(&root), "# Implicit Header\n\n# Implicit Header\n");
    let def = find_implicit_header_definition_node(&root, 0, "implicit-header-1");
    assert!(def.is_some());
    assert_eq!(root.kind(def.unwrap()), K::HEADING);
    let first = find_implicit_header_definition_node(&root, 0, "implicit-header");
    assert!(first.unwrap() < def.unwrap());
}

fn citation_doc() -> SyntaxTree {
    build(N(
        K::DOCUMENT,
        vec![N(
            K::PARAGRAPH,
            vec![
                L(K::TEXT, "Text "),
                N(
                    K::CITATION,
                    vec![L(K::CITATION_MARKER, "@"), L(K::CITATION_KEY, "woodward1952")],
                ),
                L(K::TEXT, " more text"),
            ],
        )],
    ))
}

#[test]
fn test_extract_citation_key_from_citation() {
    let root = citation_doc();
    assert_eq!(text_of(&root), "Text @woodward1952 more text");
    let citation = first_of_kind(&root, K::CITATION).expect("Should find CITATION");
    let key = extract_citation_key(&root, citation).expect("Should extract citation key");
    assert_eq!(key, "woodward1952");
}

#[test]
fn test_extract_citation_key_walks_up_tree() {
    let root = citation_doc();
    let citation = first_of_kind(&root, K::CITATION).expect("Should find CITATION node");
    let key = extract_citation_key(&root, citation).expect("Should extract citation key");
    assert_eq!(key, "woodward1952");
    // From the key token, the walk goes up to the citation.
    let key_token = citation + 2;
    assert_eq!(root.kind(key_token), K::CITATION_KEY);
    assert_eq!(extract_citation_key(&root, key_token).as_deref(), Some("woodward1952"));
    // Outside any citation there is no key.
    assert_eq!(extract_citation_key(&root, 0), None);
}

#[test]
fn crossref_key_is_read_from_its_node() {
    let root = build(N(
        K::DOCUMENT,
        vec![N(
            K::PARAGRAPH,
            vec![
                L(K::TEXT, "See "),
                N(K::CROSSREF, vec![L(K::CROSSREF_MARKER, "@"), L(K::CROSSREF_KEY, "fig-plot")]),
            ],
        )],
    ));
    let c = first_of_kind(&root, K::CROSSREF).unwrap();
    assert_eq!(extract_crossref_key(&root, c).as_deref(), Some("fig-plot"));
    assert_eq!(extract_crossref_key(&root, 1), None);
}

#[test]
fn heading_text_normalises_and_slugs() {
    assert_eq!(normalize_heading_text("  Unordered   Lists "), "unordered lists");
    assert_eq!(implicit_header_id("unordered lists"), "unordered-lists");
    assert_eq!(implicit_header_id("1. Intro, again!"), "intro-again");
}

#[test]
fn yaml_frontmatter_region_queries() {
    let regions = vec![
        YamlRegion { is_frontmatter: false, start: 50, end: 60, valid: false },
        YamlRegion { is_frontmatter: true, start: 0, end: 20, valid: true },
    ];
    assert!(is_offset_in_yaml_frontmatter(&regions, 0));
    assert!(is_offset_in_yaml_frontmatter(&regions, 19));
    assert!(!is_offset_in_yaml_frontmatter(&regions, 20));
    assert!(!is_offset_in_yaml_frontmatter(&regions, 55));
    assert!(is_yaml_frontmatter_valid(&regions));
    let invalid = vec![YamlRegion { is_frontmatter: true, start: 0, end: 20, valid: false }];
    assert!(!is_yaml_frontmatter_valid(&invalid));
    assert!(is_yaml_frontmatter_valid(&Vec::new()));
}

#[test]
fn ancestors_lists_enclosing_kinds_innermost_first() {
    let root = citation_doc();
    let key_token = first_of_kind(&root, K::CITATION).unwrap() + 2;
    assert_eq!(ancestors(&root, key_token), vec![K::CITATION, K::PARAGRAPH, K::DOCUMENT]);
    assert!(ancestors(&root, 0).is_empty());
}

fn footnote_doc() -> SyntaxTree {
    build(N(
        K::DOCUMENT,
        vec![
            N(K::PARAGRAPH, vec![L(K::TEXT, "Text"), footnote_ref("1"), L(K::NEWLINE, "\n")]),
            blank(),
            N(
                K::FOOTNOTE_DEFINITION,
                vec![
                    L(K::FOOTNOTE_REFERENCE, "[^1]: "),
                    N(K::PARAGRAPH, vec![L(K::TEXT, "content")]),
                ],
            ),
        ],
    ))
}

fn slice(text: &str, range: (usize, usize)) -> &str {
    &text[range.0..range.1]
}

#[test]
fn test_find_node_at_offset() {
    let root = build(N(K::DOCUMENT, vec![N(K::PARAGRAPH, vec![link_ref_doc("ref")])]));
    assert_eq!(text_of(&root), "[text][ref]");

    // Offset 0: at "["
    let node = find_node_at_offset(&root, 0);
    assert!(!root.is_token(node));

    // Offset 7: at "r" in "ref"
    let node = find_node_at_offset(&root, 7);
    assert_eq!(root.kind(node), K::LINK_REF);
}

#[test]
fn covering_prefers_the_element_ending_at_the_offset() {
    let root = build(N(K::DOCUMENT, vec![N(K::PARAGRAPH, vec![link_ref_doc("ref")])]));
    // Offset 6 lies between "]" (ending there) and the "[" of the reference.
    let c = covering_element(&root, 6);
    assert!(root.is_token(c));
    assert_eq!(root.token_text(c), "]");
    assert_eq!(root.kind(find_node_at_offset(&root, 6)), K::LINK);
    // At the very end, the last token ends there.
    assert_eq!(root.kind(find_node_at_offset(&root, 11)), K::LINK_REF);
    // Offset 1 lies between "[" and the link text: the "[" ends there.
    assert_eq!(root.kind(find_node_at_offset(&root, 1)), K::LINK);
    // Offset 2 lies inside the link text.
    assert_eq!(root.kind(find_node_at_offset(&root, 2)), K::LINK_TEXT);
}

#[test]
fn test_find_definition_at_offset_reference_link() {
    let root = reference_doc("ref");
    let input = text_of(&root);
    assert_eq!(input, "[text][ref]\n\n[ref]: /url");

    // Offset 7: at "r" in [ref]
    let range = find_definition_at_offset(&root, 7);
    assert!(range.is_some());

    let def_text = slice(&input, range.unwrap());
    assert!(def_text.contains("[ref]: /url"));
}

#[test]
fn test_find_definition_at_offset_footnote() {
    let root = footnote_doc();
    let input = text_of(&root);
    assert_eq!(input, "Text[^1]\n\n[^1]: content");

    // Offset 5: at "[^1]"
    let range = find_definition_at_offset(&root, 5);
    assert!(range.is_some());

    let def_text = slice(&input, range.unwrap());
    assert!(def_text.contains("[^1]:"));
}

#[test]
fn test_find_definition_at_offset_not_on_reference() {
    let root = build(N(K::DOCUMENT, vec![N(K::PARAGRAPH, vec![L(K::TEXT, "Just some text")])]));
    assert_eq!(text_of(&root), "Just some text");
    let range = find_definition_at_offset(&root, 0);
    assert!(range.is_none());
}

#[test]
fn test_find_definition_at_offset_reference_not_found() {
    let root = build(N(K::DOCUMENT, vec![N(K::PARAGRAPH, vec![link_ref_doc("ref")])]));
    assert_eq!(text_of(&root), "[text][ref]");
    // Even though we're on a reference, there's no definition
    let range = find_definition_at_offset(&root, 7);
    assert!(range.is_none());
}

#[test]
fn test_find_definition_whitespace_normalization() {
    let root = build(N(
        K::DOCUMENT,
        vec![
            N(K::PARAGRAPH, vec![link_ref_doc("foo  bar"), L(K::NEWLINE, "\n")]),
            blank(),
            ref_def("foo bar", "/url"),
        ],
    ));
    assert_eq!(text_of(&root), "[text][foo  bar]\n\n[foo bar]: /url");

    // Offset 7: at "foo  bar" reference
    let range = find_definition_at_offset(&root, 7);
    assert!(range.is_some());
}

#[test]
fn definition_is_found_from_the_link_text_too() {
    let root = reference_doc("ref");
    // Offset 2 lies in the link text; the enclosing link carries the reference.
    let input = text_of(&root);
    let range = find_definition_at_offset(&root, 2).expect("definition");
    assert_eq!(slice(&input, range), "[ref]: /url");
}

/// ```` ```{r} ```` / `#| label: fig-plot` / `plot(1:10)` / ```` ``` ````
fn chunk_doc(key: &'static str) -> SyntaxTree {
    build(N(
        K::DOCUMENT,
        vec![N(
            K::CODE_BLOCK,
            vec![
                L(K::CODE_FENCE_OPEN, "```"),
                L(K::CODE_INFO, "{r}"),
                L(K::NEWLINE, "\n"),
                N(
                    K::CHUNK_OPTIONS,
                    vec![N(
                        K::CHUNK_OPTION,
                        vec![
                            L(K::CHUNK_OPTION_PREFIX, "#| "),
                            L(K::CHUNK_OPTION_KEY, key),
                            L(K::TEXT, ": "),
                            L(K::CHUNK_OPTION_VALUE, "fig-plot"),
                            L(K::NEWLINE, "\n"),
                        ],
                    )],
                ),
                L(K::CODE_CONTENT, "plot(1:10)\n"),
                L(K::CODE_FENCE_CLOSE, "```"),
            ],
        )],
    ))
}

#[test]
fn chunk_label_key_from_label_option_value() {
    let tree = chunk_doc("label");
    let value = (0..tree.len()).find(|&i| tree.kind(i) == K::CHUNK_OPTION_VALUE).unwrap();
    assert_eq!(extract_chunk_label_key(&tree, value), Some("fig-plot".to_string()));
    let option = first_of_kind(&tree, K::CHUNK_OPTION).unwrap();
    assert_eq!(extract_chunk_label_key(&tree, option), Some("fig-plot".to_string()));
    // The key matches without regard to ASCII case.
    let upper = chunk_doc("LABEL");
    assert_eq!(extract_chunk_label_key(&upper, option), Some("fig-plot".to_string()));
}

#[test]
fn chunk_label_key_needs_a_label_option() {
    let tree = chunk_doc("fig-cap");
    let value = (0..tree.len()).find(|&i| tree.kind(i) == K::CHUNK_OPTION_VALUE).unwrap();
    assert_eq!(extract_chunk_label_key(&tree, value), None);
    let code = (0..tree.len()).find(|&i| tree.kind(i) == K::CODE_CONTENT).unwrap();
    assert_eq!(extract_chunk_label_key(&tree, code), None);
}
