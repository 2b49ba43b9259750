use panache::preview::{
    build_locator_unified, crop_preview, crop_preview_lines, display_math_for_declaration,
    format_bibliography_entry, heading_label_from_destination, is_markdown_family_extension,
    linked_doc_preview_markdown, section_hover_markdown, equation_hover_markdown,
    normalize_preview_text, section_end_offset, HeadingMark, HOVER_EQUATION_PREVIEW_MAX_LINES,
    HOVER_PREVIEW_MAX_CHARS,
};
use panache::syntax::{SyntaxKind as K, SyntaxTree, TreeBuilder};

fn fields(pairs: &[(&str, &str)]) -> Vec<(String, String)> {
    pairs.iter().map(|(k, v)| (k.to_string(), v.to_string())).collect()
}

#[test]
fn preview_text_collapses_whitespace() {
    assert_eq!(normalize_preview_text("  Some\n  text\there  "), "Some text here");
    assert_eq!(normalize_preview_text(" \n "), "");
}

#[test]
fn preview_is_cropped_with_ellipsis() {
    assert_eq!(crop_preview("abcdef", 3), "abc...");
    assert_eq!(crop_preview("abc", 3), "abc");
    assert_eq!(crop_preview("héllo wörld", 5), "héllo...");
    assert_eq!(crop_preview("", 0), "");
    let long: String = "x".repeat(200);
    assert_eq!(crop_preview(&long, HOVER_PREVIEW_MAX_CHARS).chars().count(), 183);
}

#[test]
fn equation_preview_keeps_the_first_lines() {
    let text = "a\nb\nc\nd\ne\nf\ng";
    assert_eq!(crop_preview_lines(text, HOVER_EQUATION_PREVIEW_MAX_LINES), "a\nb\nc\nd\ne\nf\n...");
    assert_eq!(crop_preview_lines("a\r\nb\r\nc", 2), "a\nb\n...");
    assert_eq!(crop_preview_lines("a\nb\n", 2), "a\nb\n");
    assert_eq!(crop_preview_lines("x = 1", 6), "x = 1");
}

#[test]
fn heading_labels_from_destinations() {
    assert_eq!(heading_label_from_destination("#Intro"), Some("intro".to_string()));
    assert_eq!(heading_label_from_destination("  #My  Section \"title\""), Some("my".to_string()));
    assert_eq!(heading_label_from_destination("<#a b>"), Some("a b".to_string()));
    assert_eq!(heading_label_from_destination("page.html#x"), None);
    assert_eq!(heading_label_from_destination("#"), None);
    assert_eq!(heading_label_from_destination("<#open"), None);
}

#[test]
fn section_ends_at_next_heading_of_same_or_higher_level() {
    let hs = vec![
        HeadingMark { start: 0, end: 10, level: 1 },
        HeadingMark { start: 20, end: 30, level: 2 },
        HeadingMark { start: 40, end: 50, level: 3 },
        HeadingMark { start: 60, end: 70, level: 2 },
    ];
    assert_eq!(section_end_offset(&hs, 0, 10, 100), 100);
    assert_eq!(section_end_offset(&hs, 20, 30, 100), 60);
    assert_eq!(section_end_offset(&hs, 40, 50, 100), 60);
    assert_eq!(section_end_offset(&hs, 60, 70, 100), 100);
    assert_eq!(section_end_offset(&hs, 5, 6, 100), 100);
}

#[test]
fn markdown_family_extensions() {
    for ext in ["md", "qmd", "Rmd", "markdown"] {
        assert!(is_markdown_family_extension(ext));
    }
    for ext in ["rmd", "MD", "txt", ""] {
        assert!(!is_markdown_family_extension(ext));
    }
}

fn math_doc() -> SyntaxTree {
    // $$ a $$ {#eq-a}\n\ntext\n\n$$ b $$\n {#eq-b}
    let mut b = TreeBuilder::new();
    b.start_node(K::DOCUMENT);
    b.start_node(K::PARAGRAPH);
    b.start_node(K::DISPLAY_MATH);
    b.token(K::DISPLAY_MATH_MARKER, "$$");
    b.token(K::MATH_CONTENT, " a ");
    b.token(K::DISPLAY_MATH_MARKER, "$$");
    b.token(K::WHITESPACE, " ");
    b.token(K::ATTRIBUTE, "{#eq-a}");
    b.finish_node();
    b.token(K::NEWLINE, "\n");
    b.finish_node();
    b.start_node(K::PARAGRAPH);
    b.token(K::TEXT, "text\n");
    b.finish_node();
    b.start_node(K::PARAGRAPH);
    b.start_node(K::DISPLAY_MATH);
    b.token(K::DISPLAY_MATH_MARKER, "$$");
    b.token(K::MATH_CONTENT, " b ");
    b.token(K::DISPLAY_MATH_MARKER, "$$");
    b.finish_node();
    b.token(K::NEWLINE, "\n");
    b.token(K::ATTRIBUTE, " {#eq-b}");
    b.finish_node();
    b.finish_node();
    b.finish()
}

#[test]
fn equation_declaration_finds_its_display_math() {
    let tree = math_doc();
    let text = tree.text(0);
    let a = text.find("{#eq-a}").unwrap();
    let m = display_math_for_declaration(&tree, a, a + 7).expect("math holding the label");
    assert!(tree.text(m).contains(" a "));
    let b = text.find("{#eq-b}").unwrap();
    let m = display_math_for_declaration(&tree, b, b + 7).expect("math just before the label");
    assert!(tree.text(m).contains(" b "));
    // Far away from any math.
    assert!(display_math_for_declaration(&tree, text.len() + 40, text.len() + 41).is_none());
    let t = text.find("text").unwrap();
    assert!(display_math_for_declaration(&tree, t + 30, t + 31).is_none());
}

#[test]
fn bibliography_entry_summary() {
    let f = fields(&[
        ("author", "Doe, Jane"),
        ("year", "2020"),
        ("title", "A Study"),
        ("journal", "J. Things"),
        ("volume", "3"),
        ("number", "2"),
        ("pages", "1-10"),
    ]);
    assert_eq!(format_bibliography_entry(&f), "Doe, Jane (2020). *A Study*. J. Things, 3(2), 1-10");
    assert_eq!(build_locator_unified(&f), "3(2), 1-10");
}

#[test]
fn bibliography_entry_fallbacks() {
    let f = fields(&[("editor", "Ed"), ("issued", "1999"), ("booktitle", "Book"), ("publisher", "Pub")]);
    assert_eq!(format_bibliography_entry(&f), "Ed (1999). *Book*. Pub");
    let f = fields(&[("date", "2001"), ("container-title", "C"), ("issue", "4"), ("page", "7")]);
    assert_eq!(format_bibliography_entry(&f), "2001. C, 4, 7");
    let f = fields(&[("journal", "Only")]);
    assert_eq!(format_bibliography_entry(&f), ". Only");
    assert_eq!(format_bibliography_entry(&fields(&[])), "");
    let f = fields(&[("title", "T"), ("pages", "9")]);
    assert_eq!(format_bibliography_entry(&f), "*T*, 9");
    assert_eq!(build_locator_unified(&fields(&[("volume", "5")])), "5");
}

#[test]
fn present_but_empty_field_is_not_replaced() {
    let f = fields(&[("author", ""), ("editor", "Ed"), ("title", "T")]);
    assert_eq!(format_bibliography_entry(&f), "*T*");
}

/// A document of headings (`#` count, title) and paragraphs, as blocks.
fn linked_doc(blocks: &[(&str, &str)]) -> SyntaxTree {
    let mut b = TreeBuilder::new();
    b.start_node(K::DOCUMENT);
    for (kind, text) in blocks {
        if kind.starts_with('#') {
            b.start_node(K::HEADING);
            b.start_node(K::ATX_HEADING_MARKER);
            b.token(K::TEXT, kind);
            b.finish_node();
            b.token(K::WHITESPACE, " ");
            b.start_node(K::HEADING_CONTENT);
            b.token(K::TEXT, text);
            b.finish_node();
            b.token(K::NEWLINE, "\n");
            b.finish_node();
        } else if *kind == "blank" {
            b.start_node(K::BLANK_LINE);
            b.token(K::BLANK_LINE, "\n");
            b.finish_node();
        } else {
            b.start_node(K::PARAGRAPH);
            b.token(K::TEXT, text);
            b.token(K::NEWLINE, "\n");
            b.finish_node();
        }
    }
    b.finish_node();
    b.finish()
}

#[test]
fn linked_document_preview_has_name_title_and_snippet() {
    let tree = linked_doc(&[("#", "Guide"), ("blank", ""), ("p", "First   paragraph\there.")]);
    assert_eq!(
        linked_doc_preview_markdown(&tree, Some("guide.qmd")),
        Some("**Linked document:** `guide.qmd`\n\n**Title:** Guide\n\nFirst paragraph here.".to_string())
    );
}

#[test]
fn linked_document_preview_without_heading_or_name() {
    let tree = linked_doc(&[("p", "Only text")]);
    assert_eq!(
        linked_doc_preview_markdown(&tree, None),
        Some("**Linked document:** `document`\n\nOnly text".to_string())
    );
}

#[test]
fn linked_document_preview_title_only_and_empty() {
    let tree = linked_doc(&[("##", "Notes"), ("blank", "")]);
    assert_eq!(
        linked_doc_preview_markdown(&tree, Some("n.md")),
        Some("**Linked document:** `n.md`\n\n**Title:** Notes".to_string())
    );
    let empty = linked_doc(&[("blank", "")]);
    assert_eq!(linked_doc_preview_markdown(&empty, Some("e.md")), None);
}

#[test]
fn linked_document_preview_crops_long_snippets() {
    let long = "x".repeat(200);
    let tree = linked_doc(&[("p", long.as_str())]);
    let md = linked_doc_preview_markdown(&tree, Some("l.md")).unwrap();
    assert!(md.ends_with(&format!("{}...", "x".repeat(HOVER_PREVIEW_MAX_CHARS))));
}

/// The byte range of the `n`th block of kind `k` under the root.
fn block_range(tree: &SyntaxTree, k: K, n: usize) -> (usize, usize) {
    let i = (1..tree.len())
        .filter(|&i| tree.parent(i) == Some(0) && tree.kind(i) == k && !tree.is_token(i))
        .nth(n)
        .unwrap();
    (tree.start(i), tree.end(i))
}

#[test]
fn section_hover_shows_title_and_first_block() {
    let tree = linked_doc(&[
        ("#", "Intro"),
        ("blank", ""),
        ("p", "Welcome  to\tthe guide."),
        ("##", "Next"),
        ("p", "Later text."),
    ]);
    let (hs, he) = block_range(&tree, K::HEADING, 0);
    let text_len = tree.text(0).len();
    assert_eq!(
        section_hover_markdown(&tree, hs, he, text_len),
        Some("**Section:** Intro\n\nWelcome to the guide.".to_string())
    );
}

#[test]
fn section_hover_stops_at_section_end() {
    let tree = linked_doc(&[("#", "Empty"), ("blank", ""), ("#", "Other"), ("p", "Other text.")]);
    let (hs, he) = block_range(&tree, K::HEADING, 0);
    let (next, _) = block_range(&tree, K::HEADING, 1);
    assert_eq!(section_hover_markdown(&tree, hs, he, next), Some("**Section:** Empty".to_string()));
    // A range that is no heading block gives no hover.
    assert_eq!(section_hover_markdown(&tree, hs + 1, he, next), None);
}

#[test]
fn equation_hover_shows_tex_block() {
    let tree = math_doc();
    let text = tree.text(0);
    let b = text.find("{#eq-b}").unwrap();
    let a = text.find("{#eq-a}").unwrap();
    // The declarations sort by start: `eq-a` comes first.
    assert_eq!(
        equation_hover_markdown(&tree, "eq", &vec![(b, b + 7), (a, a + 7)]),
        Some("**Equation:** `eq`\n\n```tex\n a\n```".to_string())
    );
    assert_eq!(
        equation_hover_markdown(&tree, "eq-b", &vec![(b, b + 7)]),
        Some("**Equation:** `eq-b`\n\n```tex\n b\n```".to_string())
    );
    assert_eq!(equation_hover_markdown(&tree, "eq-x", &Vec::new()), None);
}

#[test]
fn equation_hover_crops_long_math() {
    let mut b = TreeBuilder::new();
    b.start_node(K::DOCUMENT);
    b.start_node(K::DISPLAY_MATH);
    b.token(K::DISPLAY_MATH_MARKER, "$$");
    b.token(K::MATH_CONTENT, "\n1\n2\n3\n4\n5\n6\n7\n\n");
    b.token(K::DISPLAY_MATH_MARKER, "$$");
    b.token(K::ATTRIBUTE, "{#eq-l}");
    b.finish_node();
    b.finish_node();
    let tree = b.finish();
    let text = tree.text(0);
    let l = text.find("{#eq-l}").unwrap();
    assert_eq!(
        equation_hover_markdown(&tree, "eq-l", &vec![(l, l + 7)]),
        Some("**Equation:** `eq-l`\n\n```tex\n1\n2\n3\n4\n5\n6\n...\n```".to_string())
    );
}
