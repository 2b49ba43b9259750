use panache::doclinks::{document_link_candidates, reference_targets, LinkKind};
use panache::syntax::{SyntaxKind as K, SyntaxTree, TreeBuilder};

enum T {
    N(K, Vec<T>),
    L(K, &'static str),
}

use T::{L, N};

fn emit(b: &mut TreeBuilder, t: &T) {
    match t {
        N(k, kids) => {
            b.start_node(*k);
            for kid in kids {
                emit(b, kid);
            }
            b.finish_node();
        }
        L(k, text) => b.token(*k, text),
    }
}

fn doc(blocks: Vec<T>) -> (SyntaxTree, String) {
    let mut b = TreeBuilder::new();
    emit(&mut b, &N(K::DOCUMENT, blocks));
    let tree = b.finish();
    let text = tree.text(0);
    (tree, text)
}

fn inline_link(text: &'static str, dest: &'static str) -> T {
    N(
        K::LINK,
        vec![
            L(K::LINK_START, "["),
            N(K::LINK_TEXT, vec![L(K::TEXT, text)]),
            L(K::LINK_TEXT_END, "]"),
            L(K::LINK_DEST_START, "("),
            N(K::LINK_DEST, vec![L(K::TEXT, dest)]),
            L(K::LINK_DEST_END, ")"),
        ],
    )
}

fn ref_link(text: &'static str, label: &'static str) -> T {
    N(
        K::LINK,
        vec![
            L(K::LINK_START, "["),
            N(K::LINK_TEXT, vec![L(K::TEXT, text)]),
            L(K::LINK_TEXT_END, "]"),
            N(K::LINK_REF, vec![L(K::LINK_START, "["), L(K::TEXT, label), L(K::LINK_TEXT_END, "]")]),
        ],
    )
}

fn collapsed_ref(text: &'static str) -> T {
    N(
        K::LINK,
        vec![
            L(K::LINK_START, "["),
            N(K::LINK_TEXT, vec![L(K::TEXT, text)]),
            L(K::LINK_TEXT_END, "]"),
            N(K::LINK_REF, vec![L(K::LINK_START, "["), L(K::LINK_TEXT_END, "]")]),
        ],
    )
}

fn shortcut(text: &'static str) -> T {
    N(
        K::LINK,
        vec![L(K::LINK_START, "["), N(K::LINK_TEXT, vec![L(K::TEXT, text)]), L(K::LINK_TEXT_END, "]")],
    )
}

fn image(alt: &'static str, dest: &'static str) -> T {
    N(
        K::IMAGE_LINK,
        vec![
            L(K::IMAGE_LINK_START, "!["),
            N(K::IMAGE_ALT, vec![L(K::TEXT, alt)]),
            L(K::LINK_TEXT_END, "]"),
            L(K::LINK_DEST_START, "("),
            N(K::LINK_DEST, vec![L(K::TEXT, dest)]),
            L(K::LINK_DEST_END, ")"),
        ],
    )
}

fn ref_def(label: &'static str, dest: &'static str) -> T {
    N(
        K::REFERENCE_DEFINITION,
        vec![
            N(
                K::LINK,
                vec![L(K::LINK_START, "["), N(K::LINK_TEXT, vec![L(K::TEXT, label)]), L(K::LINK_TEXT_END, "]")],
            ),
            L(K::TEXT, ":"),
            L(K::WHITESPACE, " "),
            N(K::LINK_DEST, vec![L(K::TEXT, dest)]),
            L(K::NEWLINE, "\n"),
        ],
    )
}

fn view(text: &str, tree: &SyntaxTree) -> Vec<(LinkKind, String, String)> {
    document_link_candidates(tree)
        .into_iter()
        .map(|c| (c.kind, text[c.start..c.end].to_string(), c.target))
        .collect()
}

#[test]
fn links_images_and_autolinks_in_document_order() {
    let (tree, text) = doc(vec![N(
        K::PARAGRAPH,
        vec![
            inline_link("a", "docs/a.md \"Title\""),
            L(K::TEXT, " "),
            image("pic", "<img/my pic.png>"),
            L(K::TEXT, " "),
            N(K::AUTO_LINK, vec![L(K::TEXT, "<https://example.com>")]),
            L(K::NEWLINE, "\n"),
        ],
    )]);
    assert_eq!(
        view(&text, &tree),
        vec![
            (LinkKind::Link, "docs/a.md \"Title\"".to_string(), "docs/a.md".to_string()),
            (LinkKind::Image, "<img/my pic.png>".to_string(), "img/my pic.png".to_string()),
            (LinkKind::Link, "<https://example.com>".to_string(), "https://example.com".to_string()),
        ]
    );
}

#[test]
fn reference_uses_are_keyed_by_normalised_label() {
    let (tree, text) = doc(vec![N(
        K::PARAGRAPH,
        vec![
            ref_link("text", "My  Ref"),
            L(K::TEXT, " "),
            collapsed_ref("Other"),
            L(K::TEXT, " "),
            shortcut("Short Cut"),
            L(K::NEWLINE, "\n"),
        ],
    )]);
    assert_eq!(
        view(&text, &tree),
        vec![
            (LinkKind::Reference, "[My  Ref]".to_string(), "my ref".to_string()),
            (LinkKind::Reference, "[]".to_string(), "other".to_string()),
            (LinkKind::Reference, "Short Cut".to_string(), "short cut".to_string()),
        ]
    );
}

#[test]
fn definitions_provide_first_targets() {
    let (tree, _) = doc(vec![
        ref_def("Ref", "https://a.example \"A\""),
        ref_def("ref", "https://b.example"),
        ref_def("empty", "   "),
        ref_def("  ", "x"),
        ref_def("Two Words", "<docs/two words.md>"),
    ]);
    let targets = reference_targets(&tree);
    assert_eq!(
        targets,
        vec![
            ("ref".to_string(), "https://a.example".to_string()),
            ("two words".to_string(), "docs/two words.md".to_string()),
        ]
    );
}
