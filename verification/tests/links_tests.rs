use panache::links::{
    can_convert_to_inline, can_convert_to_reference, convert_to_inline, convert_to_reference,
    count_label_uses, extract_first_destination_token, find_definition, find_link_at_position,
    generate_label, looks_like_email, looks_like_uri_scheme, slugify, split_fragment,
    split_url_and_title, strip_title_delimiters, url_host,
};
use panache::syntax::{SyntaxKind as K, SyntaxTree, TreeBuilder};

/// A syntax tree written out: a node with children, or a token with text.
enum T {
    N(K, Vec<T>),
    L(K, &'static str),
}

fn emit(b: &mut TreeBuilder, t: &T) {
    match t {
        T::N(k, kids) => {
            b.start_node(*k);
            for kid in kids {
                emit(b, kid);
            }
            b.finish_node();
        }
        T::L(k, text) => b.token(*k, text),
    }
}

fn build(root: T) -> SyntaxTree {
    let mut b = TreeBuilder::new();
    emit(&mut b, &root);
    b.finish()
}

use T::{L, N};

/// `[text](dest)`
fn inline_link(text: &'static str, dest: &'static str) -> T {
    N(
        K::LINK,
        vec![
            L(K::LINK_START, "["),
            N(K::LINK_TEXT, vec![L(K::TEXT, text)]),
            L(K::LINK_TEXT_END, "]"),
            L(K::LINK_DEST_START, "("),
            N(K::LINK_DEST, vec![L(K::TEXT, dest)]),
            L(K::LINK_DEST_END, ")"),
        ],
    )
}

/// `[text][label]`
fn reference_link(text: &'static str, label: &'static str) -> T {
    N(
        K::LINK,
        vec![
            L(K::LINK_START, "["),
            N(K::LINK_TEXT, vec![L(K::TEXT, text)]),
            L(K::LINK_TEXT_END, "]"),
            N(
                K::LINK_REF,
                vec![L(K::LINK_START, "["), L(K::TEXT, label), L(K::LINK_TEXT_END, "]")],
            ),
        ],
    )
}

/// `[label]: dest` and a line feed.
fn definition(label: &'static str, dest: &'static str) -> T {
    N(
        K::REFERENCE_DEFINITION,
        vec![
            N(
                K::LINK,
                vec![
                    L(K::LINK_START, "["),
                    N(K::LINK_TEXT, vec![L(K::TEXT, label)]),
                    L(K::LINK_TEXT_END, "]"),
                ],
            ),
            L(K::TEXT, ":"),
            L(K::WHITESPACE, " "),
            N(K::LINK_DEST, vec![L(K::TEXT, dest)]),
            L(K::NEWLINE, "\n"),
        ],
    )
}

fn blank() -> T {
    N(K::BLANK_LINE, vec![L(K::NEWLINE, "\n")])
}

fn link_at(tree: &SyntaxTree, offset: usize) -> usize {
    find_link_at_position(tree, offset).expect("Link at cursor")
}

#[test]
fn extracts_first_destination_token_before_title() {
    let token = extract_first_destination_token(r#"https://example.com \"Title\""#);
    assert_eq!(token, "https://example.com");
}

#[test]
fn extracts_bracketed_destination_token() {
    let token = extract_first_destination_token("<docs/with spaces.md>");
    assert_eq!(token, "docs/with spaces.md");
}

#[test]
fn destination_token_edge_cases() {
    assert_eq!(extract_first_destination_token("   "), "");
    assert_eq!(extract_first_destination_token("  a.md  "), "a.md");
    // An unclosed `<` is kept as part of the first word.
    assert_eq!(extract_first_destination_token("<a b"), "<a");
}

#[test]
fn detects_schemes_without_windows_drive_letters() {
    assert!(looks_like_uri_scheme("https://example.com"));
    assert!(looks_like_uri_scheme("mailto:user@example.com"));
    assert!(!looks_like_uri_scheme(r"C:\\docs\\chapter.md"));
}

#[test]
fn uri_scheme_needs_a_letter_first() {
    assert!(!looks_like_uri_scheme("1http://x"));
    assert!(!looks_like_uri_scheme(":x"));
    assert!(!looks_like_uri_scheme("no-colon"));
    assert!(looks_like_uri_scheme("svn+ssh://host"));
    assert!(!looks_like_uri_scheme("C:/docs"));
    assert!(looks_like_uri_scheme("x:y"));
}

#[test]
fn detects_email_addresses() {
    assert!(looks_like_email("user@example.com"));
    assert!(!looks_like_email("mailto:user@example.com"));
    assert!(!looks_like_email("example.com"));
}

#[test]
fn splits_fragment_from_path() {
    let (path, fragment) = split_fragment("child.qmd#sec");
    assert_eq!(path, "child.qmd");
    assert_eq!(fragment.as_deref(), Some("sec"));
}

#[test]
fn empty_fragment_counts_as_none() {
    let (path, fragment) = split_fragment("child.qmd#");
    assert_eq!(path, "child.qmd");
    assert_eq!(fragment, None);
    let (path, fragment) = split_fragment("plain.md");
    assert_eq!(path, "plain.md");
    assert_eq!(fragment, None);
}

#[test]
fn splits_url_and_title() {
    assert_eq!(
        split_url_and_title(" https://example.com/ \"Docs\" "),
        Some(("https://example.com/".to_string(), Some("Docs".to_string())))
    );
    assert_eq!(
        split_url_and_title("u 'single'"),
        Some(("u".to_string(), Some("single".to_string())))
    );
    assert_eq!(split_url_and_title("u (paren)"), Some(("u".to_string(), Some("paren".to_string()))));
    assert_eq!(split_url_and_title("u"), Some(("u".to_string(), None)));
    assert_eq!(split_url_and_title("   "), None);
    assert_eq!(strip_title_delimiters("\"x'"), "\"x'");
    assert_eq!(strip_title_delimiters("\""), "\"");
}

#[test]
fn slugs_and_hosts() {
    assert_eq!(slugify("The Docs!"), "the-docs");
    assert_eq!(slugify("--a  b--"), "a-b");
    assert_eq!(slugify("!!!"), "");
    assert_eq!(url_host("https://example.com/path/x"), "example.com");
    assert_eq!(url_host("example.org/a"), "example.org");
}

#[test]
fn generated_labels_avoid_existing_ones() {
    let none: Vec<String> = Vec::new();
    assert_eq!(generate_label("The Docs", "https://x.org/", &none), "the-docs");
    assert_eq!(generate_label("", "https://x.org/a", &none), "x-org");
    assert_eq!(generate_label("", "", &none), "link");
    let taken = vec!["docs".to_string(), "docs-2".to_string()];
    assert_eq!(generate_label("Docs", "https://b.example/", &taken), "docs-3");
}

#[test]
fn finds_inline_link_at_cursor() {
    let input = "See [a](https://example.com/) here.\n";
    let tree = build(N(
        K::DOCUMENT,
        vec![N(
            K::PARAGRAPH,
            vec![
                L(K::TEXT, "See "),
                inline_link("a", "https://example.com/"),
                L(K::TEXT, " here."),
                L(K::NEWLINE, "\n"),
            ],
        )],
    ));
    assert_eq!(tree.text(0), input);
    let offset = input.find("[a]").unwrap() + 1;
    let link = link_at(&tree, offset);
    assert!(can_convert_to_reference(&tree, link));
    assert!(!can_convert_to_inline(&tree, link));
}

fn reference_doc() -> (SyntaxTree, &'static str) {
    let input = "[a][site]\n\n[site]: https://example.com/\n";
    let tree = build(N(
        K::DOCUMENT,
        vec![
            N(K::PARAGRAPH, vec![reference_link("a", "site"), L(K::NEWLINE, "\n")]),
            blank(),
            definition("site", "https://example.com/"),
        ],
    ));
    assert_eq!(tree.text(0), input);
    (tree, input)
}

#[test]
fn finds_reference_link_at_cursor() {
    let (tree, input) = reference_doc();
    let offset = input.find("[a]").unwrap() + 1;
    let link = link_at(&tree, offset);
    assert!(can_convert_to_inline(&tree, link));
    assert!(!can_convert_to_reference(&tree, link));
    let def = find_definition(&tree, "SITE").expect("definition");
    assert_eq!(tree.kind(def), K::REFERENCE_DEFINITION);
    assert_eq!(count_label_uses(&tree, "site"), 1);
    assert_eq!(find_definition(&tree, "other"), None);
}

fn single_link_doc(text: &'static str, dest: &'static str, input: &'static str) -> SyntaxTree {
    let before = &input[..input.find('[').unwrap()];
    let after_start = input.find(')').unwrap() + 1;
    let after = &input[after_start..input.len() - 1];
    let before: &'static str = before;
    let after: &'static str = after;
    let tree = build(N(
        K::DOCUMENT,
        vec![N(
            K::PARAGRAPH,
            vec![L(K::TEXT, before), inline_link(text, dest), L(K::TEXT, after), L(K::NEWLINE, "\n")],
        )],
    ));
    assert_eq!(tree.text(0), input);
    tree
}

#[test]
fn inline_to_reference_creates_new_def() {
    let input = "See [the docs](https://example.com/) for details.\n";
    let tree = single_link_doc("the docs", "https://example.com/", input);
    let offset = input.find("[the docs]").unwrap() + 2;
    let link = link_at(&tree, offset);
    let edits = convert_to_reference(&tree, link, input);
    assert_eq!(edits.len(), 2);
    assert_eq!(edits[0].new_text, "[the docs][the-docs]");
    assert!(edits[1].new_text.contains("[the-docs]: https://example.com/\n"));
}

#[test]
fn inline_to_reference_reuses_matching_def() {
    let input = "See [the docs](https://example.com/) and [more](https://example.com/).\n\n[home]: https://example.com/\n";
    let tree = build(N(
        K::DOCUMENT,
        vec![
            N(
                K::PARAGRAPH,
                vec![
                    L(K::TEXT, "See "),
                    inline_link("the docs", "https://example.com/"),
                    L(K::TEXT, " and "),
                    inline_link("more", "https://example.com/"),
                    L(K::TEXT, "."),
                    L(K::NEWLINE, "\n"),
                ],
            ),
            blank(),
            definition("home", "https://example.com/"),
        ],
    ));
    assert_eq!(tree.text(0), input);
    let offset = input.find("[the docs]").unwrap() + 2;
    let link = link_at(&tree, offset);
    let edits = convert_to_reference(&tree, link, input);
    assert_eq!(edits.len(), 1, "reused existing def — no new def needed");
    assert_eq!(edits[0].new_text, "[the docs][home]");
}

#[test]
fn inline_to_reference_preserves_title() {
    let input = "See [docs](https://example.com/ \"Docs\") here.\n";
    let tree = single_link_doc("docs", "https://example.com/ \"Docs\"", input);
    let offset = input.find("[docs]").unwrap() + 2;
    let link = link_at(&tree, offset);
    let edits = convert_to_reference(&tree, link, input);
    assert_eq!(edits.len(), 2);
    assert!(edits[1].new_text.contains("[docs]: https://example.com/ \"Docs\""));
}

#[test]
fn inline_to_reference_disambiguates_colliding_slug() {
    let input = "Read [Docs](https://a.example/) and [docs](https://b.example/).\n";
    let tree = build(N(
        K::DOCUMENT,
        vec![N(
            K::PARAGRAPH,
            vec![
                L(K::TEXT, "Read "),
                inline_link("Docs", "https://a.example/"),
                L(K::TEXT, " and "),
                inline_link("docs", "https://b.example/"),
                L(K::TEXT, "."),
                L(K::NEWLINE, "\n"),
            ],
        )],
    ));
    assert_eq!(tree.text(0), input);
    let first = link_at(&tree, input.find("[Docs]").unwrap() + 2);
    let edits1 = convert_to_reference(&tree, first, input);
    assert_eq!(edits1[0].new_text, "[Docs][docs]");

    let after_first =
        "Read [Docs][docs] and [docs](https://b.example/).\n\n[docs]: https://a.example/\n";
    let tree2 = build(N(
        K::DOCUMENT,
        vec![
            N(
                K::PARAGRAPH,
                vec![
                    L(K::TEXT, "Read "),
                    reference_link("Docs", "docs"),
                    L(K::TEXT, " and "),
                    inline_link("docs", "https://b.example/"),
                    L(K::TEXT, "."),
                    L(K::NEWLINE, "\n"),
                ],
            ),
            blank(),
            definition("docs", "https://a.example/"),
        ],
    ));
    assert_eq!(tree2.text(0), after_first);
    let second = link_at(&tree2, after_first.find("[docs](").unwrap() + 2);
    let edits2 = convert_to_reference(&tree2, second, after_first);
    assert_eq!(edits2[0].new_text, "[docs][docs-2]");
    assert_eq!(edits2.len(), 2);
    assert_eq!(edits2[1].new_text, "\n[docs-2]: https://b.example/\n");
}

#[test]
fn reference_to_inline_deletes_orphan_def() {
    let input = "[docs][d]\n\n[d]: https://example.com/\n";
    let tree = build(N(
        K::DOCUMENT,
        vec![
            N(K::PARAGRAPH, vec![reference_link("docs", "d"), L(K::NEWLINE, "\n")]),
            blank(),
            definition("d", "https://example.com/"),
        ],
    ));
    assert_eq!(tree.text(0), input);
    let offset = input.find("[docs]").unwrap() + 2;
    let link = link_at(&tree, offset);
    let edits = convert_to_inline(&tree, link, input);
    assert_eq!(edits.len(), 2);
    assert_eq!(edits[0].new_text, "[docs](https://example.com/)");
    assert_eq!(edits[1].new_text, "");
}

#[test]
fn reference_to_inline_keeps_shared_def() {
    let input = "[a][d] and [b][d]\n\n[d]: https://example.com/\n";
    let tree = build(N(
        K::DOCUMENT,
        vec![
            N(
                K::PARAGRAPH,
                vec![
                    reference_link("a", "d"),
                    L(K::TEXT, " and "),
                    reference_link("b", "d"),
                    L(K::NEWLINE, "\n"),
                ],
            ),
            blank(),
            definition("d", "https://example.com/"),
        ],
    ));
    assert_eq!(tree.text(0), input);
    let offset = input.find("[a]").unwrap() + 1;
    let link = link_at(&tree, offset);
    let edits = convert_to_inline(&tree, link, input);
    assert_eq!(edits.len(), 1, "shared def stays in place");
    assert_eq!(edits[0].new_text, "[a](https://example.com/)");
    assert_eq!(count_label_uses(&tree, "D"), 2);
}

#[test]
fn reference_to_inline_preserves_title() {
    let input = "[a][d]\n\n[d]: https://example.com/ \"Title\"\n";
    let tree = build(N(
        K::DOCUMENT,
        vec![
            N(K::PARAGRAPH, vec![reference_link("a", "d"), L(K::NEWLINE, "\n")]),
            blank(),
            definition("d", "https://example.com/ \"Title\""),
        ],
    ));
    assert_eq!(tree.text(0), input);
    let offset = input.find("[a]").unwrap() + 1;
    let link = link_at(&tree, offset);
    let edits = convert_to_inline(&tree, link, input);
    assert_eq!(edits[0].new_text, "[a](https://example.com/ \"Title\")");
}

#[test]
fn reference_without_definition_is_left_alone() {
    let input = "[a][missing]\n";
    let tree = build(N(
        K::DOCUMENT,
        vec![N(K::PARAGRAPH, vec![reference_link("a", "missing"), L(K::NEWLINE, "\n")])],
    ));
    assert_eq!(tree.text(0), input);
    let link = link_at(&tree, 1);
    assert!(!can_convert_to_inline(&tree, link));
    assert!(convert_to_inline(&tree, link, input).is_empty());
    assert!(convert_to_reference(&tree, link, input).is_empty());
}

use panache::fileuri::file_path_of_uri;
use panache::uri::{
    capitalize_drive_letter, file_uri_from_absolute_path, percent_encode_path, resolve_link_target,
    with_fragment, LinkTarget,
};

#[test]
fn appends_fragment_to_uri() {
    let with = with_fragment("file:///workspace/doc.qmd", "section title").expect("uri with fragment");
    assert_eq!(with, "file:///workspace/doc.qmd#section%20title");
    assert_eq!(with_fragment("file:///a b", "x"), None);
}

#[test]
fn percent_encodes_spaces() {
    assert_eq!(
        file_uri_from_absolute_path("/tmp/my notes/a b.qmd", false).as_deref(),
        Some("file:///tmp/my%20notes/a%20b.qmd")
    );
    assert_eq!(
        file_uri_from_absolute_path("/tmp/panache/doc.qmd", false).as_deref(),
        Some("file:///tmp/panache/doc.qmd")
    );
    assert_eq!(percent_encode_path("a~b_c-d.e/é"), "a~b_c-d.e/%C3%A9");
}

#[test]
fn windows_paths_become_file_uris() {
    assert_eq!(capitalize_drive_letter("c:/x"), "C:/x");
    assert_eq!(capitalize_drive_letter("/x"), "/x");
    assert_eq!(
        file_uri_from_absolute_path("c:\\docs\\a b.md", true).as_deref(),
        Some("file:///C%3A/docs/a%20b.md")
    );
}

#[test]
fn resolves_same_document_anchor() {
    let doc = "file:///tmp/doc.qmd";
    assert_eq!(
        resolve_link_target("#sec-a", Some(doc), true),
        Some(LinkTarget::Uri("file:///tmp/doc.qmd#sec-a".to_string()))
    );
    assert_eq!(resolve_link_target("#sec-a", None, true), None);
}

#[test]
fn resolves_uris_and_emails() {
    assert_eq!(
        resolve_link_target(" https://example.com/x ", None, false),
        Some(LinkTarget::Uri("https://example.com/x".to_string()))
    );
    assert_eq!(
        resolve_link_target("user@example.com", None, false),
        Some(LinkTarget::Uri("mailto:user@example.com".to_string()))
    );
    assert_eq!(resolve_link_target("   ", None, true), None);
}

#[test]
fn resolves_relative_file_anchor_target() {
    assert_eq!(
        resolve_link_target("notes/child.md#sec-b", None, true),
        Some(LinkTarget::File {
            path: "notes/child.md".to_string(),
            fragment: Some("sec-b".to_string())
        })
    );
    assert_eq!(
        resolve_link_target("notes/child.md", None, true),
        Some(LinkTarget::File { path: "notes/child.md".to_string(), fragment: None })
    );
    assert_eq!(resolve_link_target("notes/child.md", None, false), None);
}

#[test]
fn file_uri_path_is_decoded() {
    assert_eq!(file_path_of_uri("file:///home/a%20b/x.md", false), Some("/home/a b/x.md".to_string()));
    assert_eq!(file_path_of_uri("file:///tmp/test.qmd", false), Some("/tmp/test.qmd".to_string()));
}

#[test]
fn file_uri_with_empty_path_names_no_file() {
    assert_eq!(file_path_of_uri("file://", false), None);
    assert_eq!(file_path_of_uri("file://host", true), None);
}

#[test]
fn file_uri_that_does_not_parse_names_no_file() {
    assert_eq!(file_path_of_uri("file:///a%zz", false), None);
}

#[test]
fn file_uri_on_windows_drops_leading_slash_or_prefixes_host() {
    assert_eq!(file_path_of_uri("file:///c:/Users/x.md", true), Some("c:/Users/x.md".to_string()));
    assert_eq!(file_path_of_uri("file://server/share/x.md", true), Some("server:/share/x.md".to_string()));
    assert_eq!(file_path_of_uri("file://server/share/x.md", false), Some("/share/x.md".to_string()));
}

#[test]
fn round_trips_absolute_unix_path() {
    let path = "/tmp/panache/doc.qmd";
    let uri = file_uri_from_absolute_path(path, false).expect("uri");
    assert_eq!(uri, "file:///tmp/panache/doc.qmd");
    let back = file_path_of_uri(&uri, false).expect("path");
    assert_eq!(back, path);
}

#[test]
fn resolves_relative_file_target() {
    let temp_dir = tempfile::TempDir::new().expect("temp dir");
    let dir = temp_dir.path().to_str().expect("utf-8 temp dir").to_string();
    let path = format!("{}/doc.qmd", dir);
    let uri = file_uri_from_absolute_path(&path, false).expect("doc uri");
    let target = resolve_link_target("notes/child.md", Some(&uri), true).expect("file target");
    let resolved = match target {
        LinkTarget::File { path: rel, fragment: None } => {
            let joined = std::path::Path::new(&dir).join(rel);
            file_uri_from_absolute_path(joined.to_str().unwrap(), false).expect("file uri")
        }
        other => panic!("unexpected target {:?}", other),
    };
    let expected_path = std::path::Path::new(&dir).join("notes").join("child.md");
    let expected = file_uri_from_absolute_path(expected_path.to_str().unwrap(), false).expect("expected uri");
    assert_eq!(resolved, expected);
}
