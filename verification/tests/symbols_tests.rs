use panache::symbols::{collect_reference_link_ranges, resolve_symbol_target_at_offset, SymbolTarget};
use panache::syntax::{SyntaxKind as K, SyntaxTree, TreeBuilder};

/// A node with children, or a token with text.
enum T {
    N(K, Vec<T>),
    L(K, &'static str),
}

use T::{L, N};

fn emit(b: &mut TreeBuilder, t: &T) {
    match t {
        N(k, kids) => {
            b.start_node(*k);
            for kid in kids {
                emit(b, kid);
            }
            b.finish_node();
        }
        L(k, text) => b.token(*k, text),
    }
}

fn parse(root: T) -> (SyntaxTree, String) {
    let mut b = TreeBuilder::new();
    emit(&mut b, &root);
    let tree = b.finish();
    let text = tree.text(0);
    (tree, text)
}

#[test]
fn resolves_citation_target() {
    let (root, input) = parse(N(
        K::DOCUMENT,
        vec![N(
            K::PARAGRAPH,
            vec![
                L(K::TEXT, "See "),
                N(K::CITATION, vec![L(K::CITATION_MARKER, "@"), L(K::CITATION_KEY, "doe2020")]),
                L(K::TEXT, "."),
            ],
        )],
    ));
    assert_eq!(input, "See @doe2020.");
    let offset = input.find("doe2020").unwrap();
    let target = resolve_symbol_target_at_offset(&root, offset);
    assert_eq!(target, Some(SymbolTarget::Citation("doe2020".to_string())));
}

#[test]
fn resolves_bookdown_crossref_with_hyphen() {
    let (root, input) = parse(N(
        K::DOCUMENT,
        vec![
            N(
                K::HEADING,
                vec![
                    N(K::ATX_HEADING_MARKER, vec![L(K::TEXT, "#")]),
                    L(K::WHITESPACE, " "),
                    N(K::HEADING_CONTENT, vec![L(K::TEXT, "Heading 2")]),
                    L(K::NEWLINE, "\n"),
                ],
            ),
            N(K::BLANK_LINE, vec![L(K::BLANK_LINE, "\n")]),
            N(
                K::PARAGRAPH,
                vec![
                    L(K::TEXT, "See "),
                    N(
                        K::CROSSREF,
                        vec![L(K::CROSSREF_MARKER, "\\@ref("), L(K::CROSSREF_KEY, "heading-2"), L(K::TEXT, ")")],
                    ),
                    L(K::TEXT, ".\n"),
                ],
            ),
        ],
    ));
    assert_eq!(input, "# Heading 2\n\nSee \\@ref(heading-2).\n");
    let offset = input.find("heading-2").unwrap();
    let target = resolve_symbol_target_at_offset(&root, offset);
    assert_eq!(target, Some(SymbolTarget::Crossref("heading-2".to_string())));
}

#[test]
fn resolves_heading_link_target() {
    let (root, input) = parse(N(
        K::DOCUMENT,
        vec![
            N(
                K::HEADING,
                vec![
                    N(K::ATX_HEADING_MARKER, vec![L(K::TEXT, "#")]),
                    L(K::WHITESPACE, " "),
                    N(K::HEADING_CONTENT, vec![L(K::TEXT, "Heading")]),
                    L(K::WHITESPACE, " "),
                    N(K::ATTRIBUTE, vec![L(K::TEXT, "{#heading}")]),
                    L(K::NEWLINE, "\n"),
                ],
            ),
            N(K::BLANK_LINE, vec![L(K::BLANK_LINE, "\n")]),
            N(
                K::PARAGRAPH,
                vec![
                    L(K::TEXT, "See "),
                    N(
                        K::LINK,
                        vec![
                            L(K::LINK_START, "["),
                            N(K::LINK_TEXT, vec![L(K::TEXT, "text")]),
                            L(K::LINK_TEXT_END, "]"),
                            L(K::LINK_DEST_START, "("),
                            N(K::LINK_DEST, vec![L(K::TEXT, "#heading")]),
                            L(K::LINK_DEST_END, ")"),
                        ],
                    ),
                    L(K::TEXT, ".\n"),
                ],
            ),
        ],
    ));
    assert_eq!(input, "# Heading {#heading}\n\nSee [text](#heading).\n");
    let offset = input.rfind("#heading").unwrap() + 1;
    let target = resolve_symbol_target_at_offset(&root, offset);
    assert_eq!(target, Some(SymbolTarget::HeadingLink("heading".to_string())));
}

#[test]
fn resolves_chunk_label_target_from_hashpipe_label_value() {
    let (root, input) = parse(N(
        K::DOCUMENT,
        vec![N(
            K::CODE_BLOCK,
            vec![
                L(K::CODE_FENCE_OPEN, "```"),
                L(K::CODE_INFO, "{r}"),
                L(K::NEWLINE, "\n"),
                N(
                    K::CHUNK_OPTIONS,
                    vec![N(
                        K::CHUNK_OPTION,
                        vec![
                            L(K::CHUNK_OPTION_PREFIX, "#| "),
                            L(K::CHUNK_OPTION_KEY, "label"),
                            L(K::TEXT, ": "),
                            L(K::CHUNK_OPTION_VALUE, "fig-plot"),
                            L(K::NEWLINE, "\n"),
                        ],
                    )],
                ),
                L(K::CODE_CONTENT, "plot(1:10)\n"),
                L(K::CODE_FENCE_CLOSE, "```"),
                L(K::NEWLINE, "\n"),
            ],
        )],
    ));
    assert_eq!(input, "```{r}\n#| label: fig-plot\nplot(1:10)\n```\n");
    let offset = input.find("fig-plot").unwrap();
    let target = resolve_symbol_target_at_offset(&root, offset);
    assert_eq!(target, Some(SymbolTarget::ChunkLabel("fig-plot".to_string())));
}

#[test]
fn resolves_reference_and_nothing_in_plain_text() {
    let (root, input) = parse(N(
        K::DOCUMENT,
        vec![N(
            K::PARAGRAPH,
            vec![
                L(K::TEXT, "See "),
                N(
                    K::LINK,
                    vec![
                        L(K::LINK_START, "["),
                        N(K::LINK_TEXT, vec![L(K::TEXT, "text")]),
                        L(K::LINK_TEXT_END, "]"),
                        N(K::LINK_REF, vec![L(K::LINK_START, "["), L(K::TEXT, "My Ref"), L(K::LINK_TEXT_END, "]")]),
                    ],
                ),
                L(K::TEXT, " done."),
            ],
        )],
    ));
    let offset = input.find("My Ref").unwrap();
    assert_eq!(
        resolve_symbol_target_at_offset(&root, offset),
        Some(SymbolTarget::Reference { label: "my ref".to_string(), is_footnote: false })
    );
    let plain = input.find("done").unwrap();
    assert_eq!(resolve_symbol_target_at_offset(&root, plain), None);
}

#[test]
fn reference_link_ranges_cover_definition_and_full_references() {
    let (root, input) = parse(N(
        K::DOCUMENT,
        vec![
            N(
                K::PARAGRAPH,
                vec![
                    N(
                        K::LINK,
                        vec![
                            L(K::LINK_START, "["),
                            N(K::LINK_TEXT, vec![L(K::TEXT, "text")]),
                            L(K::LINK_TEXT_END, "]"),
                            N(K::LINK_REF, vec![L(K::LINK_START, "["), L(K::TEXT, "My Ref"), L(K::LINK_TEXT_END, "]")]),
                        ],
                    ),
                    L(K::TEXT, " and "),
                    N(
                        K::IMAGE_LINK,
                        vec![
                            L(K::IMAGE_LINK_START, "!["),
                            N(K::IMAGE_ALT, vec![L(K::TEXT, "alt")]),
                            L(K::LINK_TEXT_END, "]"),
                            N(K::LINK_REF, vec![L(K::LINK_START, "["), L(K::TEXT, "my ref"), L(K::LINK_TEXT_END, "]")]),
                        ],
                    ),
                    L(K::TEXT, " and "),
                    N(
                        K::LINK,
                        vec![
                            L(K::LINK_START, "["),
                            N(K::LINK_TEXT, vec![L(K::TEXT, "x")]),
                            L(K::LINK_TEXT_END, "]"),
                            N(K::LINK_REF, vec![L(K::LINK_START, "["), L(K::TEXT, "other"), L(K::LINK_TEXT_END, "]")]),
                        ],
                    ),
                    L(K::NEWLINE, "\n"),
                ],
            ),
            N(K::BLANK_LINE, vec![L(K::BLANK_LINE, "\n")]),
            N(
                K::REFERENCE_DEFINITION,
                vec![
                    N(
                        K::LINK,
                        vec![
                            L(K::LINK_START, "["),
                            N(K::LINK_TEXT, vec![L(K::TEXT, "My Ref")]),
                            L(K::LINK_TEXT_END, "]"),
                        ],
                    ),
                    L(K::TEXT, ": /x\n"),
                ],
            ),
        ],
    ));
    assert_eq!(input, "[text][My Ref] and ![alt][my ref] and [x][other]\n\n[My Ref]: /x\n");
    let spans = collect_reference_link_ranges(&root, "my  REF");
    let texts: Vec<&str> = spans.iter().map(|&(a, b)| &input[a..b]).collect();
    assert_eq!(texts, vec!["My Ref", "my ref", "My Ref"]);
    assert_eq!(spans[2].0, input.rfind("My Ref").unwrap());
    assert!(collect_reference_link_ranges(&root, "  ").is_empty());
    assert!(collect_reference_link_ranges(&root, "missing").is_empty());
}

#[test]
fn resolves_example_label_target() {
    let (root, input) = parse(N(
        K::DOCUMENT,
        vec![
            N(
                K::LIST,
                vec![N(
                    K::LIST_ITEM,
                    vec![
                        L(K::LIST_MARKER, "(@good)"),
                        L(K::WHITESPACE, " "),
                        N(K::PLAIN, vec![L(K::TEXT, "First example."), L(K::NEWLINE, "\n")]),
                    ],
                )],
            ),
            N(K::BLANK_LINE, vec![L(K::BLANK_LINE, "\n")]),
            N(
                K::PARAGRAPH,
                vec![
                    L(K::TEXT, "As "),
                    N(
                        K::EXAMPLE_LABEL,
                        vec![L(K::TEXT, "(@"), L(K::EXAMPLE_LABEL_KEY, "good"), L(K::TEXT, ")")],
                    ),
                    L(K::TEXT, " shows.\n"),
                ],
            ),
        ],
    ));
    assert_eq!(input, "(@good) First example.\n\nAs (@good) shows.\n");
    let offset = input.rfind("good").unwrap();
    let target = resolve_symbol_target_at_offset(&root, offset);
    assert_eq!(target, Some(SymbolTarget::ExampleLabel("good".to_string())));
}

fn heading_with_attribute(attr: &'static str) -> T {
    N(
        K::HEADING,
        vec![
            N(K::ATX_HEADING_MARKER, vec![L(K::TEXT, "#")]),
            L(K::WHITESPACE, " "),
            N(K::HEADING_CONTENT, vec![L(K::TEXT, "Heading")]),
            L(K::WHITESPACE, " "),
            N(K::ATTRIBUTE, vec![L(K::TEXT, attr)]),
            L(K::NEWLINE, "\n"),
        ],
    )
}

#[test]
fn resolves_heading_id_target_in_heading_attribute() {
    let (root, input) = parse(N(K::DOCUMENT, vec![heading_with_attribute("{#sec-intro .unnumbered}")]));
    let offset = input.find("sec-intro").unwrap();
    let target = resolve_symbol_target_at_offset(&root, offset);
    assert_eq!(target, Some(SymbolTarget::HeadingId("sec-intro".to_string())));
    let (root, input) = parse(N(K::DOCUMENT, vec![heading_with_attribute("{.unnumbered}")]));
    let offset = input.find("unnumbered").unwrap();
    assert_eq!(resolve_symbol_target_at_offset(&root, offset), None);
}

#[test]
fn resolves_attribute_id_outside_heading_as_crossref() {
    let (root, input) = parse(N(
        K::DOCUMENT,
        vec![N(
            K::PARAGRAPH,
            vec![
                N(
                    K::BRACKETED_SPAN,
                    vec![L(K::TEXT, "["), N(K::SPAN_CONTENT, vec![L(K::TEXT, "x")]), L(K::TEXT, "]")],
                ),
                N(K::ATTRIBUTE, vec![L(K::TEXT, "{#fig-a}")]),
                L(K::NEWLINE, "\n"),
            ],
        )],
    ));
    let offset = input.find("fig-a").unwrap();
    let target = resolve_symbol_target_at_offset(&root, offset);
    assert_eq!(target, Some(SymbolTarget::Crossref("fig-a".to_string())));
}

#[test]
fn resolves_reference_definition_label_as_reference() {
    let (root, input) = parse(N(
        K::DOCUMENT,
        vec![N(
            K::REFERENCE_DEFINITION,
            vec![
                N(
                    K::LINK,
                    vec![
                        L(K::LINK_START, "["),
                        N(K::LINK_TEXT, vec![L(K::TEXT, "Site")]),
                        L(K::LINK_TEXT_END, "]"),
                    ],
                ),
                L(K::TEXT, ": https://example.com"),
                L(K::NEWLINE, "\n"),
            ],
        )],
    ));
    let offset = input.find("Site").unwrap();
    let target = resolve_symbol_target_at_offset(&root, offset);
    assert_eq!(target, Some(SymbolTarget::Reference { label: "site".to_string(), is_footnote: false }));
    let offset = input.find("example").unwrap();
    assert_eq!(resolve_symbol_target_at_offset(&root, offset), None);
}
