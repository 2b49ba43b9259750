use panache::hover::{hover_markdown, hovered_link_target, target_hover, HoverDocument};
use panache::navigation::SymbolIndex;
use panache::preview::HeadingMark;
use panache::symbols::SymbolTarget;
use panache::syntax::{SyntaxKind as K, SyntaxTree, TreeBuilder};

type Entries = Vec<(String, Vec<(usize, usize)>)>;

fn entry(label: &str, spans: &[(usize, usize)]) -> (String, Vec<(usize, usize)>) {
    (label.to_string(), spans.to_vec())
}

fn empty_index() -> SymbolIndex {
    let e = || -> Entries { Vec::new() };
    SymbolIndex {
        crossref_usages: e(),
        crossref_declarations: e(),
        chunk_label_values: e(),
        heading_references: e(),
        heading_declarations: e(),
        heading_renames: e(),
        implicit_heading_inserts: e(),
        citation_usages: e(),
        footnote_renames: e(),
        footnote_definitions: e(),
        reference_definitions: e(),
        heading_explicit_definitions: e(),
        heading_implicit_definitions: e(),
        heading_labels: e(),
        example_label_usages: e(),
        example_label_definitions: e(),
        heading_sequence: Vec::new(),
    }
}

fn heading(b: &mut TreeBuilder, title: &str) {
    b.start_node(K::HEADING);
    b.start_node(K::ATX_HEADING_MARKER);
    b.token(K::TEXT, "#");
    b.finish_node();
    b.token(K::WHITESPACE, " ");
    b.start_node(K::HEADING_CONTENT);
    b.token(K::TEXT, title);
    b.finish_node();
    b.token(K::NEWLINE, "\n");
    b.finish_node();
}

fn blank(b: &mut TreeBuilder) {
    b.start_node(K::BLANK_LINE);
    b.token(K::BLANK_LINE, "\n");
    b.finish_node();
}

fn para(b: &mut TreeBuilder, text: &str) {
    b.start_node(K::PARAGRAPH);
    b.token(K::TEXT, text);
    b.token(K::NEWLINE, "\n");
    b.finish_node();
}

/// `# Intro\n\nWelcome.\n\nSee [x](#intro) and [^1].\n\n[^1]: A note.\n`
fn main_doc() -> SyntaxTree {
    let mut b = TreeBuilder::new();
    b.start_node(K::DOCUMENT);
    heading(&mut b, "Intro");
    blank(&mut b);
    para(&mut b, "Welcome.");
    blank(&mut b);
    b.start_node(K::PARAGRAPH);
    b.token(K::TEXT, "See ");
    b.start_node(K::LINK);
    b.token(K::LINK_START, "[");
    b.start_node(K::LINK_TEXT);
    b.token(K::TEXT, "x");
    b.finish_node();
    b.token(K::LINK_TEXT_END, "]");
    b.token(K::LINK_DEST_START, "(");
    b.start_node(K::LINK_DEST);
    b.token(K::TEXT, "#intro");
    b.finish_node();
    b.token(K::LINK_DEST_END, ")");
    b.finish_node();
    b.token(K::TEXT, " and ");
    b.start_node(K::FOOTNOTE_REFERENCE);
    b.token(K::TEXT, "[^");
    b.token(K::TEXT, "1");
    b.token(K::TEXT, "]");
    b.finish_node();
    b.token(K::TEXT, ".");
    b.token(K::NEWLINE, "\n");
    b.finish_node();
    blank(&mut b);
    b.start_node(K::FOOTNOTE_DEFINITION);
    b.token(K::FOOTNOTE_REFERENCE, "[^1]: ");
    para(&mut b, "A note.");
    b.finish_node();
    b.finish_node();
    b.finish()
}

fn main_index(text: &str) -> SymbolIndex {
    let mut idx = empty_index();
    idx.heading_implicit_definitions = vec![entry("intro", &[(0, 8)])];
    idx.heading_sequence = vec![HeadingMark { start: 0, end: 8, level: 1 }];
    let def = text.find("[^1]: ").unwrap();
    idx.footnote_definitions = vec![entry("1", &[(def, text.len())])];
    idx
}

fn docs() -> (Vec<HoverDocument>, String) {
    let tree = main_doc();
    let text = tree.text(0);
    assert_eq!(text, "# Intro\n\nWelcome.\n\nSee [x](#intro) and [^1].\n\n[^1]: A note.\n");
    let index = main_index(&text);
    (vec![HoverDocument { tree, index }], text)
}

#[test]
fn heading_link_hover_shows_section() {
    let (docs, text) = docs();
    let off = text.find("intro)").unwrap() + 2;
    assert_eq!(
        hover_markdown(&docs, 0, off, &vec![], None),
        Some("**Section:** Intro\n\nWelcome.".to_string())
    );
    assert_eq!(hovered_link_target(&docs[0].tree, off), Some("#intro".to_string()));
}

#[test]
fn footnote_hover_shows_trimmed_content() {
    let (docs, text) = docs();
    let off = text.find("[^1]").unwrap() + 2;
    assert_eq!(hover_markdown(&docs, 0, off, &vec![], None), Some("A note.".to_string()));
}

#[test]
fn linked_preview_is_used_when_no_symbol_hovers() {
    let (docs, text) = docs();
    let off = text.find("Welcome").unwrap() + 2;
    assert_eq!(hover_markdown(&docs, 0, off, &vec![], None), None);
    assert_eq!(
        hover_markdown(&docs, 0, off, &vec![], Some("**Linked document:** `a.md`".to_string())),
        Some("**Linked document:** `a.md`".to_string())
    );
}

#[test]
fn reference_hover_follows_definition_to_heading() {
    let mut b = TreeBuilder::new();
    b.start_node(K::DOCUMENT);
    b.start_node(K::REFERENCE_DEFINITION);
    b.start_node(K::LINK);
    b.token(K::LINK_START, "[");
    b.start_node(K::LINK_TEXT);
    b.token(K::TEXT, "sec");
    b.finish_node();
    b.token(K::LINK_TEXT_END, "]");
    b.finish_node();
    b.token(K::TEXT, ":");
    b.token(K::WHITESPACE, " ");
    b.start_node(K::LINK_DEST);
    b.token(K::TEXT, "#intro");
    b.finish_node();
    b.token(K::NEWLINE, "\n");
    b.finish_node();
    b.finish_node();
    let refs = HoverDocument { tree: b.finish(), index: empty_index() };
    let (mut all, _) = docs();
    all.insert(0, refs);
    let t = SymbolTarget::Reference { label: "SEC".to_string(), is_footnote: false };
    assert_eq!(target_hover(&all, &t, &vec![]), Some("**Section:** Intro\n\nWelcome.".to_string()));
    let t = SymbolTarget::Reference { label: "other".to_string(), is_footnote: false };
    assert_eq!(target_hover(&all, &t, &vec![]), None);
}

#[test]
fn crossref_hover_prefers_equation_then_section() {
    let mut b = TreeBuilder::new();
    b.start_node(K::DOCUMENT);
    b.start_node(K::PARAGRAPH);
    b.start_node(K::DISPLAY_MATH);
    b.token(K::DISPLAY_MATH_MARKER, "$$");
    b.token(K::MATH_CONTENT, " a ");
    b.token(K::DISPLAY_MATH_MARKER, "$$");
    b.token(K::WHITESPACE, " ");
    b.token(K::ATTRIBUTE, "{#eq-a}");
    b.finish_node();
    b.token(K::NEWLINE, "\n");
    b.finish_node();
    b.finish_node();
    let tree = b.finish();
    let text = tree.text(0);
    let a = text.find("{#eq-a}").unwrap();
    let mut idx = empty_index();
    idx.crossref_declarations = vec![entry("eq-a", &[(a, a + 7)])];
    let mut all = vec![HoverDocument { tree, index: idx }];
    let (mut rest, _) = docs();
    all.append(&mut rest);
    let t = SymbolTarget::Crossref("eq-a".to_string());
    assert_eq!(
        target_hover(&all, &t, &vec!["eq-a".to_string()]),
        Some("**Equation:** `eq-a`\n\n```tex\n a\n```".to_string())
    );
    let t = SymbolTarget::Crossref("intro".to_string());
    assert_eq!(target_hover(&all, &t, &vec!["intro".to_string()]), Some("**Section:** Intro\n\nWelcome.".to_string()));
}
