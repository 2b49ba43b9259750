use panache::navigation::{
    document_reference_spans, document_rename_edits, document_symbol_spans, find_definition,
    is_explicit_heading_anchor_at_offset, SymbolIndex,
};
use panache::symbols::SymbolTarget;
use panache::syntax::{SyntaxKind as K, SyntaxTree, TreeBuilder};

type Entries = Vec<(String, Vec<(usize, usize)>)>;

fn entry(label: &str, spans: &[(usize, usize)]) -> (String, Vec<(usize, usize)>) {
    (label.to_string(), spans.to_vec())
}

fn empty_index() -> SymbolIndex {
    let e = || -> Entries { Vec::new() };
    SymbolIndex {
        crossref_usages: e(),
        crossref_declarations: e(),
        chunk_label_values: e(),
        heading_references: e(),
        heading_declarations: e(),
        heading_renames: e(),
        implicit_heading_inserts: e(),
        citation_usages: e(),
        footnote_renames: e(),
        footnote_definitions: e(),
        reference_definitions: e(),
        heading_explicit_definitions: e(),
        heading_implicit_definitions: e(),
        heading_labels: e(),
        example_label_usages: e(),
        example_label_definitions: e(),
        heading_sequence: Vec::new(),
    }
}

fn keys(ks: &[&str]) -> Vec<String> {
    ks.iter().map(|k| k.to_string()).collect()
}

#[test]
fn citation_references_use_normalised_key() {
    let mut idx = empty_index();
    idx.citation_usages = vec![entry("other", &[(0, 3)]), entry("smith 2020", &[(5, 15), (30, 40)])];
    let t = SymbolTarget::Citation("Smith   2020".to_string());
    assert_eq!(document_reference_spans(&idx, &t, &vec![], true), vec![(5, 15), (30, 40)]);
    let t = SymbolTarget::Citation("nobody".to_string());
    assert_eq!(document_reference_spans(&idx, &t, &vec![], true), vec![]);
}

#[test]
fn crossref_references_per_key_with_and_without_declarations() {
    let mut idx = empty_index();
    idx.crossref_usages = vec![entry("fig-a", &[(10, 15)]), entry("a", &[(50, 51)])];
    idx.crossref_declarations = vec![entry("fig-a", &[(100, 105)])];
    idx.chunk_label_values = vec![entry("fig-a", &[(200, 205)])];
    let t = SymbolTarget::Crossref("fig-a".to_string());
    let ks = keys(&["fig-a", "a"]);
    assert_eq!(document_reference_spans(&idx, &t, &ks, false), vec![(10, 15), (50, 51)]);
    assert_eq!(document_reference_spans(&idx, &t, &ks, true), vec![(10, 15), (100, 105), (50, 51)]);
    let t = SymbolTarget::ChunkLabel("fig-a".to_string());
    assert_eq!(document_reference_spans(&idx, &t, &ks, true), vec![(10, 15), (200, 205), (50, 51)]);
}

#[test]
fn heading_references_add_declarations_last() {
    let mut idx = empty_index();
    idx.heading_references = vec![entry("intro", &[(20, 25)])];
    idx.heading_declarations = vec![entry("intro", &[(0, 7)])];
    let t = SymbolTarget::HeadingLink("intro".to_string());
    assert_eq!(document_reference_spans(&idx, &t, &vec![], false), vec![(20, 25)]);
    assert_eq!(document_reference_spans(&idx, &t, &vec![], true), vec![(20, 25), (0, 7)]);
}

#[test]
fn footnote_references_without_declarations_skip_definition_spans() {
    let mut idx = empty_index();
    idx.footnote_renames = vec![entry("note", &[(4, 8), (40, 44), (60, 64)])];
    idx.footnote_definitions = vec![entry("note", &[(38, 80)])];
    let t = SymbolTarget::Reference { label: "Note".to_string(), is_footnote: true };
    assert_eq!(document_reference_spans(&idx, &t, &vec![], true), vec![(4, 8), (40, 44), (60, 64)]);
    assert_eq!(document_reference_spans(&idx, &t, &vec![], false), vec![(4, 8)]);
}

#[test]
fn link_references_list_definitions_either_way() {
    let mut idx = empty_index();
    idx.reference_definitions = vec![entry("site", &[(30, 34)])];
    let t = SymbolTarget::Reference { label: "SITE".to_string(), is_footnote: false };
    assert_eq!(document_reference_spans(&idx, &t, &vec![], false), vec![(30, 34)]);
    assert_eq!(document_reference_spans(&idx, &t, &vec![], true), vec![(30, 34)]);
}

#[test]
fn crossref_rename_rewrites_all_kinds_and_inserts_anchor() {
    let text = "# Intro\n\nSee @sec-intro.\n";
    let mut idx = empty_index();
    idx.crossref_usages = vec![entry("sec-intro", &[(14, 23)])];
    idx.implicit_heading_inserts = vec![entry("sec-intro", &[(7, 7)])];
    let t = SymbolTarget::Crossref("sec-intro".to_string());
    let ks = keys(&["sec-intro"]);
    let edits = document_rename_edits(&idx, &t, &ks, text, "sec-start", true);
    assert_eq!(edits.len(), 2);
    assert_eq!(edits[0].new_text, "sec-start");
    assert_eq!((edits[0].range.start.line, edits[0].range.start.character), (2, 5));
    assert_eq!((edits[0].range.end.line, edits[0].range.end.character), (2, 14));
    assert_eq!(edits[1].new_text, " {#sec-start}");
    assert_eq!((edits[1].range.start.line, edits[1].range.start.character), (0, 7));
    let edits = document_rename_edits(&idx, &t, &ks, text, "sec-start", false);
    assert_eq!(edits.len(), 1);
}

#[test]
fn rename_of_link_reference_makes_no_edits() {
    let mut idx = empty_index();
    idx.reference_definitions = vec![entry("site", &[(0, 4)])];
    let t = SymbolTarget::Reference { label: "site".to_string(), is_footnote: false };
    assert!(document_rename_edits(&idx, &t, &vec![], "[site]: x\n", "web", true).is_empty());
}

#[test]
fn heading_rename_uses_normalised_label() {
    let mut idx = empty_index();
    idx.heading_renames = vec![entry("intro", &[(2, 7), (12, 17)])];
    let t = SymbolTarget::HeadingLink("Intro".to_string());
    let edits = document_rename_edits(&idx, &t, &vec![], "# Intro\n[a](#intro)\n", "start", false);
    assert_eq!(edits.len(), 2);
    assert!(edits.iter().all(|e| e.new_text == "start"));
}

#[test]
fn definition_of_crossref_takes_first_document_and_key_with_an_answer() {
    let mut a = empty_index();
    a.crossref_usages = vec![entry("fig-x", &[(1, 2)])];
    let mut b = empty_index();
    b.heading_implicit_definitions = vec![entry("x", &[(7, 9)])];
    b.crossref_declarations = vec![entry("fig-x", &[(40, 45), (60, 65)])];
    let docs = vec![a, b];
    let t = SymbolTarget::Crossref("fig-x".to_string());
    let ks = keys(&["fig-x", "x"]);
    assert_eq!(find_definition(&docs, &t, &ks, false, true, true), Some((1, (40, 45))));
    let ks = keys(&["x", "fig-x"]);
    assert_eq!(find_definition(&docs, &t, &ks, false, true, true), Some((1, (7, 9))));
    assert_eq!(find_definition(&docs, &t, &ks, false, false, true), Some((1, (40, 45))));
}

#[test]
fn definition_of_heading_link_prefers_explicit_then_implicit_then_label() {
    let mut a = empty_index();
    a.heading_labels = vec![entry("intro", &[(3, 8)])];
    a.heading_implicit_definitions = vec![entry("intro", &[(0, 8)])];
    let mut b = empty_index();
    b.heading_explicit_definitions = vec![entry("intro", &[(20, 30)])];
    let docs = vec![a, b];
    let t = SymbolTarget::HeadingLink("intro".to_string());
    assert_eq!(find_definition(&docs, &t, &vec![], true, true, true), Some((1, (20, 30))));
    assert_eq!(find_definition(&docs, &t, &vec![], false, true, true), Some((0, (3, 8))));
    assert_eq!(find_definition(&docs, &t, &vec![], false, false, true), None);
    let mut c = empty_index();
    c.heading_labels = vec![entry("intro", &[(3, 8)])];
    c.heading_implicit_definitions = vec![entry("intro", &[(0, 8)])];
    let docs = vec![c];
    assert_eq!(find_definition(&docs, &t, &vec![], true, true, true), Some((0, (0, 8))));
}

#[test]
fn definition_of_references_and_citations() {
    let mut a = empty_index();
    a.footnote_definitions = vec![entry("n1", &[(50, 60)])];
    a.reference_definitions = vec![entry("n1", &[(70, 80)])];
    let docs = vec![a];
    let t = SymbolTarget::Reference { label: "n1".to_string(), is_footnote: true };
    assert_eq!(find_definition(&docs, &t, &vec![], false, false, true), Some((0, (50, 60))));
    let t = SymbolTarget::Reference { label: "n1".to_string(), is_footnote: false };
    assert_eq!(find_definition(&docs, &t, &vec![], false, false, true), Some((0, (70, 80))));
    let t = SymbolTarget::Citation("n1".to_string());
    assert_eq!(find_definition(&docs, &t, &vec![], true, true, true), None);
}

enum T {
    N(K, Vec<T>),
    L(K, &'static str),
}

fn emit(b: &mut TreeBuilder, t: &T) {
    match t {
        T::N(k, kids) => {
            b.start_node(*k);
            for kid in kids {
                emit(b, kid);
            }
            b.finish_node();
        }
        T::L(k, text) => b.token(*k, text),
    }
}

fn link_tree(dest: &'static str) -> SyntaxTree {
    let mut b = TreeBuilder::new();
    emit(
        &mut b,
        &T::N(
            K::DOCUMENT,
            vec![T::N(
                K::PARAGRAPH,
                vec![
                    T::L(K::TEXT, "See "),
                    T::N(
                        K::LINK,
                        vec![
                            T::L(K::LINK_START, "["),
                            T::N(K::LINK_TEXT, vec![T::L(K::TEXT, "text")]),
                            T::L(K::LINK_TEXT_END, "]"),
                            T::L(K::LINK_DEST_START, "("),
                            T::N(K::LINK_DEST, vec![T::L(K::TEXT, dest)]),
                            T::L(K::LINK_DEST_END, ")"),
                        ],
                    ),
                    T::L(K::NEWLINE, "\n"),
                ],
            )],
        ),
    );
    b.finish()
}

#[test]
fn explicit_heading_anchor_only_in_links_to_hash_ids() {
    let tree = link_tree("#intro");
    assert!(is_explicit_heading_anchor_at_offset(&tree, 6));
    assert!(!is_explicit_heading_anchor_at_offset(&tree, 1));
    let tree = link_tree("page.html");
    assert!(!is_explicit_heading_anchor_at_offset(&tree, 6));
}

#[test]
fn example_labels_list_definitions_only_with_declarations_and_are_not_renamed() {
    let mut idx = empty_index();
    idx.example_label_usages = vec![entry("good", &[(28, 32)])];
    idx.example_label_definitions = vec![entry("good", &[(2, 6)])];
    let t = SymbolTarget::ExampleLabel("good".to_string());
    assert_eq!(document_reference_spans(&idx, &t, &vec![], false), vec![]);
    assert_eq!(document_reference_spans(&idx, &t, &vec![], true), vec![(2, 6)]);
    assert!(document_rename_edits(&idx, &t, &vec![], "(@good) x\n", "best", true).is_empty());
    let docs = vec![idx];
    assert_eq!(find_definition(&docs, &t, &vec![], false, false, true), Some((0, (2, 6))));
    assert_eq!(find_definition(&docs, &t, &vec![], false, false, false), None);
}

#[test]
fn heading_ids_go_to_explicit_headings_and_rename_like_links() {
    let mut a = empty_index();
    a.heading_implicit_definitions = vec![entry("intro", &[(0, 8)])];
    let mut b = empty_index();
    b.heading_explicit_definitions = vec![entry("intro", &[(10, 20)])];
    b.heading_references = vec![entry("intro", &[(30, 35)])];
    b.heading_declarations = vec![entry("intro", &[(11, 16)])];
    b.heading_renames = vec![entry("intro", &[(11, 16), (30, 35)])];
    let t = SymbolTarget::HeadingId("intro".to_string());
    assert_eq!(document_reference_spans(&b, &t, &vec![], true), vec![(30, 35), (11, 16)]);
    let text = "# Intro {#intro}\n\n[x](#intro)\n";
    assert_eq!(document_rename_edits(&b, &t, &vec![], text, "start", true).len(), 2);
    let docs = vec![a, b];
    assert_eq!(find_definition(&docs, &t, &vec![], false, true, true), Some((1, (10, 20))));
}

#[test]
fn symbol_spans_gather_every_occurrence_kind() {
    let tree = link_tree("#intro");
    let mut idx = empty_index();
    idx.crossref_usages = vec![entry("fig-a", &[(1, 2)])];
    idx.crossref_declarations = vec![entry("fig-a", &[(3, 4)])];
    idx.chunk_label_values = vec![entry("fig-a", &[(5, 6)])];
    idx.example_label_usages = vec![entry("ex", &[(7, 8)])];
    idx.example_label_definitions = vec![entry("ex", &[(9, 10)])];
    let t = SymbolTarget::ChunkLabel("fig-a".to_string());
    assert_eq!(document_symbol_spans(&idx, &t, &keys(&["fig-a"]), &tree), vec![(1, 2), (3, 4), (5, 6)]);
    let t = SymbolTarget::ExampleLabel("ex".to_string());
    assert_eq!(document_symbol_spans(&idx, &t, &vec![], &tree), vec![(7, 8), (9, 10)]);
    let t = SymbolTarget::Reference { label: "nothing".to_string(), is_footnote: false };
    assert_eq!(document_symbol_spans(&idx, &t, &vec![], &tree), vec![]);
}
