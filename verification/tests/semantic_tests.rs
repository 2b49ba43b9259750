use panache::completion::{citation_query_prefix, has_extension, matches_query};
use panache::diagnostics::{
    project_closure, split_related, split_workspace_items, ProjectGraph,
    RELATED_REPORT_CHUNK_SIZE, WORKSPACE_REPORT_CHUNK_SIZE,
};
use panache::semantic::{collect_tokens, encode, token_type_for, SemanticToken};
use panache::shortcode::{shortcode_token_value_span, shortcode_tokens, token_is_named};
use panache::syntax::{SyntaxKind as K, TreeBuilder};

/// Absolute `(line, start, length, type)` of each encoded token.
fn decode(data: &[SemanticToken]) -> Vec<(u32, u32, u32, u32)> {
    let mut out = Vec::new();
    let (mut line, mut start) = (0u32, 0u32);
    for tok in data {
        if tok.delta_line == 0 {
            start += tok.delta_start;
        } else {
            line += tok.delta_line;
            start = tok.delta_start;
        }
        out.push((line, start, tok.length, tok.token_type));
    }
    out
}

#[test]
fn encodes_relative_deltas_single_line() {
    let content = "see [@a] and [@bb] here\n";
    let data = encode(content, vec![(6, 7, 0), (15, 17, 0)]);
    assert_eq!(decode(&data), vec![(0, 6, 1, 0), (0, 15, 2, 0)]);
    assert_eq!(data[1].delta_start, 9);
}

#[test]
fn utf16_length_and_offsets() {
    let content = "é [@kä] x\n";
    let start = content.find("kä").unwrap();
    let data = encode(content, vec![(start, start + "kä".len(), 0)]);
    assert_eq!(decode(&data), vec![(0, 4, 2, 0)]);
}

#[test]
fn skips_cross_line_token() {
    let text = "ab\ncd\n";
    let data = encode(text, vec![(1, 4, 0)]);
    assert!(data.is_empty(), "cross-line token should be skipped");
}

#[test]
fn crlf_line_deltas() {
    let content = "[@a]\r\n[@b]\r\n";
    let data = encode(content, vec![(2, 3, 0), (8, 9, 0)]);
    assert_eq!(decode(&data), vec![(0, 2, 1, 0), (1, 2, 1, 0)]);
    assert_eq!(data[1].delta_line, 1);
    assert_eq!(data[1].delta_start, 2);
}

#[test]
fn empty_tokens_are_skipped() {
    let data = encode("abc", vec![(1, 1, 3)]);
    assert!(data.is_empty());
}

#[test]
fn token_types_cover_the_legend() {
    assert_eq!(token_type_for(K::CITATION_KEY), Some(0));
    assert_eq!(token_type_for(K::CROSSREF_KEY), Some(1));
    assert_eq!(token_type_for(K::SHORTCODE), Some(2));
    assert_eq!(token_type_for(K::DIV_INFO), Some(3));
    assert_eq!(token_type_for(K::INLINE_MATH_MARKER), Some(4));
    assert_eq!(token_type_for(K::DISPLAY_MATH_MARKER), Some(4));
    assert_eq!(token_type_for(K::FOOTNOTE_REFERENCE), Some(5));
    assert_eq!(token_type_for(K::SPAN_ATTRIBUTES), Some(6));
    assert_eq!(token_type_for(K::PARAGRAPH), None);
}

#[test]
fn collects_tokens_in_tree_order() {
    let mut b = TreeBuilder::new();
    b.start_node(K::DOCUMENT);
    b.start_node(K::PARAGRAPH);
    b.token(K::TEXT, "see ");
    b.start_node(K::CITATION);
    b.token(K::CITATION_MARKER, "[@");
    b.token(K::CITATION_KEY, "a");
    b.token(K::CITATION_MARKER, "]");
    b.finish_node();
    b.token(K::TEXT, " and ");
    b.start_node(K::INLINE_MATH);
    b.token(K::INLINE_MATH_MARKER, "$");
    b.token(K::MATH_CONTENT, "x");
    b.token(K::INLINE_MATH_MARKER, "$");
    b.finish_node();
    b.finish_node();
    b.finish_node();
    let tree = b.finish();
    let toks = collect_tokens(&tree);
    assert_eq!(toks, vec![(6, 7, 0), (13, 14, 4), (15, 16, 4)]);
    let data = encode(&tree.text(0), toks);
    assert_eq!(decode(&data), vec![(0, 6, 1, 0), (0, 13, 1, 4), (0, 15, 1, 4)]);
}

#[test]
fn shortcode_arguments_are_tokenized() {
    let content = " include \"a b.qmd\" key='x y' ";
    let toks = shortcode_tokens(content);
    assert_eq!(toks, vec![(1, 8), (9, 18), (19, 28)]);
    assert_eq!(&content[9..18], "\"a b.qmd\"");
    assert!(!token_is_named(content, toks[1]));
    assert!(token_is_named(content, toks[2]));
    assert_eq!(shortcode_token_value_span(content, toks[0]), Some((1, 8)));
    assert_eq!(shortcode_token_value_span(content, toks[1]), Some((10, 17)));
    assert_eq!(shortcode_token_value_span(content, toks[2]), Some((24, 27)));
    assert_eq!(shortcode_token_value_span(content, (0, 99)), None);
}

#[test]
fn shortcode_value_edge_cases() {
    assert_eq!(shortcode_token_value_span("\"\"", (0, 2)), None);
    assert_eq!(shortcode_token_value_span("''", (0, 2)), None);
    assert_eq!(shortcode_token_value_span("\"x\"", (0, 3)), Some((1, 2)));
    assert_eq!(shortcode_token_value_span("\"", (0, 1)), None);
    assert_eq!(shortcode_token_value_span("k=", (0, 2)), None);
    assert_eq!(shortcode_token_value_span("é", (0, 2)), None);
    assert_eq!(shortcode_tokens("a 'unterminated b"), vec![(0, 1), (2, 17)]);
    assert!(shortcode_tokens("   ").is_empty());
    assert!(!token_is_named("é=", (1, 3)));
}

#[test]
fn citation_query_prefix_basic_ascii() {
    assert_eq!(
        citation_query_prefix("see @smith", "see @smith".len()),
        Some("smith".to_string())
    );
}

#[test]
fn citation_query_prefix_no_at_sign() {
    assert_eq!(citation_query_prefix("see smith", "see smith".len()), None);
}

#[test]
fn citation_query_prefix_does_not_panic_inside_multibyte() {
    let text = "あああ";
    assert_eq!(citation_query_prefix(text, text.len()), None);
}

#[test]
fn citation_query_prefix_finds_query_after_multibyte() {
    let text = "ああ@fig";
    assert_eq!(citation_query_prefix(text, text.len()), Some("fig".to_string()));
}

#[test]
fn completion_matching() {
    assert!(matches_query("Smith2020", "smi"));
    assert!(matches_query("anything", ""));
    assert!(!matches_query("sm", "smith"));
    assert!(has_extension("photo.PNG", &["png", "jpg"]));
    assert!(!has_extension("notes", &["png"]));
    assert!(!has_extension("a.png.txt", &["png"]));
}

#[test]
fn closure_follows_edges_both_ways() {
    let mut g = ProjectGraph::new(6);
    g.add_dependency(0, 1);
    g.add_dependency(2, 1);
    g.add_dependency(3, 4);
    g.add_dependency(2, 5);
    assert_eq!(g.dependencies(2), vec![1, 5]);
    assert_eq!(g.dependents(1), vec![0, 2]);
    assert_eq!(project_closure(&g, 0), vec![1, 2, 5]);
    assert_eq!(project_closure(&g, 3), vec![4]);
    assert_eq!(project_closure(&g, 5), vec![0, 1, 2]);
    let lone = ProjectGraph::new(2);
    assert!(project_closure(&lone, 1).is_empty());
}

#[test]
fn closure_excludes_root_on_cycles() {
    let mut g = ProjectGraph::new(3);
    g.add_dependency(0, 1);
    g.add_dependency(1, 0);
    g.add_dependency(1, 2);
    assert_eq!(project_closure(&g, 0), vec![1, 2]);
}

#[test]
fn workspace_no_token_keeps_everything_in_response() {
    let items: Vec<usize> = (0..WORKSPACE_REPORT_CHUNK_SIZE + 5).collect();
    let (first, progress) = split_workspace_items(false, items.clone());
    assert!(progress.is_empty());
    assert_eq!(first, items);
}

#[test]
fn workspace_single_chunk_emits_no_progress() {
    let items: Vec<usize> = (0..WORKSPACE_REPORT_CHUNK_SIZE).collect();
    let (first, progress) = split_workspace_items(true, items.clone());
    assert!(progress.is_empty());
    assert_eq!(first, items);
}

#[test]
fn workspace_multi_chunk_preserves_every_report() {
    let total = WORKSPACE_REPORT_CHUNK_SIZE * 2 + 3;
    let items: Vec<usize> = (0..total).collect();
    let (first, progress) = split_workspace_items(true, items.clone());
    assert_eq!(first.len(), WORKSPACE_REPORT_CHUNK_SIZE);
    assert_eq!(progress.len(), 2);
    assert_eq!(progress[0].len(), WORKSPACE_REPORT_CHUNK_SIZE);
    assert_eq!(progress[1].len(), 3);
    let mut seen = first.clone();
    for chunk in &progress {
        seen.extend(chunk.iter().copied());
    }
    assert_eq!(seen, items);
}

#[test]
fn related_none_stays_none() {
    let (response, progress) = split_related::<usize>(true, None);
    assert!(response.is_none());
    assert!(progress.is_empty());
}

#[test]
fn related_no_token_keeps_whole_map() {
    let entries: Vec<usize> = (0..RELATED_REPORT_CHUNK_SIZE + 5).collect();
    let (response, progress) = split_related(false, Some(entries.clone()));
    assert!(progress.is_empty());
    assert_eq!(response, Some(entries));
}

#[test]
fn related_single_chunk_emits_no_progress() {
    let entries: Vec<usize> = (0..RELATED_REPORT_CHUNK_SIZE).collect();
    let (response, progress) = split_related(true, Some(entries));
    assert_eq!(response.unwrap().len(), RELATED_REPORT_CHUNK_SIZE);
    assert!(progress.is_empty());
    let (response, progress) = split_related::<usize>(true, Some(Vec::new()));
    assert!(response.is_none());
    assert!(progress.is_empty());
}

#[test]
fn related_multi_chunk_preserves_every_entry() {
    let total = RELATED_REPORT_CHUNK_SIZE * 2 + 3;
    let entries: Vec<usize> = (0..total).collect();
    let (response, progress) = split_related(true, Some(entries.clone()));
    let response = response.unwrap();
    assert_eq!(response.len(), RELATED_REPORT_CHUNK_SIZE);
    assert_eq!(progress.len(), 2);
    let mut seen = response.clone();
    for chunk in &progress {
        assert!(chunk.len() <= RELATED_REPORT_CHUNK_SIZE, "no chunk exceeds the size");
        seen.extend(chunk.iter().copied());
    }
    assert_eq!(seen, entries);
}

#[test]
fn legend_names_each_token_type_index() {
    let names = panache::semantic::legend_token_types();
    assert_eq!(names, vec!["citation", "crossref", "shortcode", "div", "math", "footnote", "attribute"]);
    let idx = |k| panache::semantic::token_type_for(k).unwrap() as usize;
    assert_eq!(names[idx(panache::syntax::SyntaxKind::CITATION_KEY)], "citation");
    assert_eq!(names[idx(panache::syntax::SyntaxKind::DISPLAY_MATH_MARKER)], "math");
    assert_eq!(names[idx(panache::syntax::SyntaxKind::SPAN_ATTRIBUTES)], "attribute");
}

#[test]
fn maps_quarto_constructs_to_types() {
    // `@fig-1` is a crossref in Quarto; citation, shortcode, footnote, span
    // attributes, div info and math are all present.
    let mut b = TreeBuilder::new();
    b.start_node(K::DOCUMENT);
    b.start_node(K::PARAGRAPH);
    b.start_node(K::CITATION);
    b.token(K::CITATION_MARKER, "[@");
    b.token(K::CITATION_KEY, "key");
    b.token(K::CITATION_MARKER, "]");
    b.finish_node();
    b.token(K::TEXT, " ");
    b.start_node(K::CROSSREF);
    b.token(K::CROSSREF_MARKER, "@");
    b.token(K::CROSSREF_KEY, "fig-1");
    b.finish_node();
    b.token(K::TEXT, " ");
    b.start_node(K::INLINE_MATH);
    b.token(K::INLINE_MATH_MARKER, "$");
    b.token(K::MATH_CONTENT, "a");
    b.token(K::INLINE_MATH_MARKER, "$");
    b.finish_node();
    b.token(K::TEXT, " ");
    b.start_node(K::DISPLAY_MATH);
    b.token(K::DISPLAY_MATH_MARKER, "$$");
    b.token(K::MATH_CONTENT, "b");
    b.token(K::DISPLAY_MATH_MARKER, "$$");
    b.finish_node();
    b.token(K::TEXT, " ");
    b.start_node(K::SHORTCODE);
    b.token(K::SHORTCODE_MARKER_OPEN, "{{<");
    b.token(K::SHORTCODE_CONTENT, " x ");
    b.token(K::SHORTCODE_MARKER_CLOSE, ">}}");
    b.finish_node();
    b.token(K::TEXT, " ");
    b.token(K::FOOTNOTE_REFERENCE, "[^1]");
    b.token(K::NEWLINE, "\n");
    b.finish_node();
    b.start_node(K::BLANK_LINE);
    b.token(K::BLANK_LINE, "\n");
    b.finish_node();
    b.start_node(K::PARAGRAPH);
    b.start_node(K::BRACKETED_SPAN);
    b.token(K::TEXT, "[");
    b.start_node(K::SPAN_CONTENT);
    b.token(K::TEXT, "s");
    b.finish_node();
    b.token(K::TEXT, "]");
    b.token(K::SPAN_ATTRIBUTES, "{.cls}");
    b.finish_node();
    b.token(K::NEWLINE, "\n");
    b.finish_node();
    b.start_node(K::BLANK_LINE);
    b.token(K::BLANK_LINE, "\n");
    b.finish_node();
    b.start_node(K::FENCED_DIV);
    b.token(K::DIV_FENCE_OPEN, ":::");
    b.token(K::WHITESPACE, " ");
    b.token(K::DIV_INFO, "{.note}");
    b.token(K::NEWLINE, "\n");
    b.start_node(K::PARAGRAPH);
    b.token(K::TEXT, "hi");
    b.token(K::NEWLINE, "\n");
    b.finish_node();
    b.token(K::DIV_FENCE_CLOSE, ":::");
    b.token(K::NEWLINE, "\n");
    b.finish_node();
    b.start_node(K::BLANK_LINE);
    b.token(K::BLANK_LINE, "\n");
    b.finish_node();
    b.start_node(K::FOOTNOTE_DEFINITION);
    b.token(K::TEXT, "[^1]: note");
    b.token(K::NEWLINE, "\n");
    b.finish_node();
    b.finish_node();
    let tree = b.finish();
    assert_eq!(
        tree.text(0),
        "[@key] @fig-1 $a$ $$b$$ {{< x >}} [^1]\n\n[s]{.cls}\n\n::: {.note}\nhi\n:::\n\n[^1]: note\n"
    );
    let types: std::collections::BTreeSet<u32> = collect_tokens(&tree).into_iter().map(|(_, _, t)| t).collect();
    assert_eq!(types, (0..=6).collect());
}
