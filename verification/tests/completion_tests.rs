use panache::completion::{
    collect_completion_labels, link_dest_context, shortcode_arg_context, shortcode_arg_in_content,
    LabelCandidate, ShortcodeKind,
};
use panache::paths::{
    entry_listed, link_dest_path_request, order_entries, path_completion_items, shortcode_path_request,
    split_path_prefix, FileFilter, PathBase, PathEntry,
};
use panache::syntax::{SyntaxKind as K, SyntaxTree, TreeBuilder};

enum T {
    N(K, Vec<T>),
    L(K, &'static str),
}

use T::{L, N};

fn emit(b: &mut TreeBuilder, t: &T) {
    match t {
        N(k, kids) => {
            b.start_node(*k);
            for kid in kids {
                emit(b, kid);
            }
            b.finish_node();
        }
        L(k, text) => b.token(*k, text),
    }
}

fn para(kids: Vec<T>) -> (SyntaxTree, String) {
    let mut b = TreeBuilder::new();
    emit(&mut b, &N(K::DOCUMENT, vec![N(K::PARAGRAPH, kids)]));
    let tree = b.finish();
    let text = tree.text(0);
    (tree, text)
}

fn shortcode(content: &'static str) -> T {
    N(
        K::SHORTCODE,
        vec![
            L(K::SHORTCODE_MARKER_OPEN, "{{<"),
            N(K::SHORTCODE_CONTENT, vec![L(K::TEXT, content)]),
            L(K::SHORTCODE_MARKER_CLOSE, ">}}"),
        ],
    )
}

fn link(text: &'static str, dest: &'static str) -> T {
    N(
        K::LINK,
        vec![
            L(K::LINK_START, "["),
            N(K::LINK_TEXT, vec![L(K::TEXT, text)]),
            L(K::LINK_TEXT_END, "]"),
            L(K::LINK_DEST_START, "("),
            N(K::LINK_DEST, vec![L(K::TEXT, dest)]),
            L(K::LINK_DEST_END, ")"),
        ],
    )
}

fn image(alt: &'static str, dest: &'static str) -> T {
    N(
        K::IMAGE_LINK,
        vec![
            L(K::IMAGE_LINK_START, "!["),
            N(K::IMAGE_ALT, vec![L(K::TEXT, alt)]),
            L(K::LINK_TEXT_END, "]"),
            L(K::LINK_DEST_START, "("),
            N(K::LINK_DEST, vec![L(K::TEXT, dest)]),
            L(K::LINK_DEST_END, ")"),
        ],
    )
}

fn arg(content: &str, rel: usize) -> Option<(ShortcodeKind, String)> {
    shortcode_arg_in_content(content, rel).map(|c| (c.kind, c.prefix))
}

#[test]
fn shortcode_path_argument_prefix() {
    let content = " include chap ";
    assert_eq!(arg(content, 13), Some((ShortcodeKind::Include, "chap".to_string())));
    assert_eq!(arg(content, 11), Some((ShortcodeKind::Include, "ch".to_string())));
    assert_eq!(arg(content, 9), Some((ShortcodeKind::Include, String::new())));
}

#[test]
fn shortcode_cursor_after_name_starts_the_path() {
    assert_eq!(arg(" include  ", 9), Some((ShortcodeKind::Include, String::new())));
    assert_eq!(arg(" video ", 7), Some((ShortcodeKind::Video, String::new())));
}

#[test]
fn shortcode_name_and_later_arguments_are_not_paths() {
    assert_eq!(arg(" include chap ", 3), None);
    assert_eq!(arg(" include a b", 12), None);
    assert_eq!(arg(" video src=clip.mp4", 15), None);
    assert_eq!(arg(" meta title", 11), None);
    assert_eq!(arg("   ", 1), None);
}

#[test]
fn shortcode_quoted_path_and_exclusions() {
    let quoted = " include \"my file.qmd\" ";
    assert_eq!(arg(quoted, 13), Some((ShortcodeKind::Include, "my ".to_string())));
    assert_eq!(arg(" include http://x", 17), None);
    assert_eq!(arg(" embed nb.ipynb#cell", 20), None);
    assert_eq!(arg(" embed nb.ipynb", 15), Some((ShortcodeKind::Embed, "nb.ipynb".to_string())));
    assert_eq!(arg(" placeholder img/", 17), Some((ShortcodeKind::Placeholder, "img/".to_string())));
}

#[test]
fn shortcode_context_in_a_document() {
    let (tree, text) = para(vec![L(K::TEXT, "See "), shortcode(" include chap "), L(K::TEXT, " now")]);
    assert_eq!(text, "See {{< include chap >}} now");
    let offset = text.find("chap").unwrap() + 4;
    let ctx = shortcode_arg_context(&tree, &text, offset).expect("context");
    assert_eq!(ctx.kind, ShortcodeKind::Include);
    assert_eq!(ctx.prefix, "chap");
    assert!(shortcode_arg_context(&tree, &text, 1).is_none());
    assert!(shortcode_arg_context(&tree, &text, text.len()).is_none());
}

#[test]
fn link_destination_prefix() {
    let (tree, text) = para(vec![L(K::TEXT, "A "), link("a", "img/photo.png"), L(K::TEXT, " b")]);
    assert_eq!(text, "A [a](img/photo.png) b");
    let offset = text.find("photo").unwrap() + 2;
    let ctx = link_dest_context(&tree, &text, offset).expect("context");
    assert!(!ctx.is_image);
    assert_eq!(ctx.prefix, "img/ph");
    // In the link text there is no destination context.
    assert!(link_dest_context(&tree, &text, 3).is_none());
    assert!(link_dest_context(&tree, &text, 0).is_none());
}

#[test]
fn image_destination_and_title_cut_off() {
    let (tree, text) = para(vec![image("alt", "pics/cat.png \"Cat\"")]);
    let offset = text.find("cat").unwrap() + 1;
    let ctx = link_dest_context(&tree, &text, offset).expect("context");
    assert!(ctx.is_image);
    assert_eq!(ctx.prefix, "pics/c");
    let in_title = text.find("Cat").unwrap();
    assert!(link_dest_context(&tree, &text, in_title).is_none());
}

#[test]
fn link_path_queries() {
    let (tree, text) = para(vec![link("a", "docs/x")]);
    let ctx = link_dest_context(&tree, &text, text.len() - 1).unwrap();
    let q = link_dest_path_request(&ctx).expect("query");
    assert_eq!(q.base, PathBase::DocumentDir);
    assert_eq!(q.prefix, "docs/x");
    assert_eq!(q.filter, FileFilter::Any);
    for dest in ["/abs", "#anchor", "<x", "https://e"] {
        let (tree, text) = para(vec![link("a", dest)]);
        let ctx = link_dest_context(&tree, &text, text.len() - 1).unwrap();
        assert!(link_dest_path_request(&ctx).is_none(), "{dest}");
    }
    let (tree, text) = para(vec![image("a", "p")]);
    let ctx = link_dest_context(&tree, &text, text.len() - 1).unwrap();
    assert_eq!(link_dest_path_request(&ctx).unwrap().filter, FileFilter::Media);
}

#[test]
fn shortcode_path_queries() {
    let ctx = shortcode_arg_in_content(" include /part/ch", 17).unwrap();
    let q = shortcode_path_request(&ctx);
    assert_eq!(q.base, PathBase::WorkspaceRoot);
    assert_eq!(q.prefix, "part/ch");
    assert_eq!(q.filter, FileFilter::Shortcode(ShortcodeKind::Include));
    let ctx = shortcode_arg_in_content(" include ch", 11).unwrap();
    let q = shortcode_path_request(&ctx);
    assert_eq!(q.base, PathBase::DocumentDir);
    assert_eq!(q.prefix, "ch");
}

#[test]
fn file_filters_by_extension() {
    assert!(FileFilter::Any.accepts("notes.txt"));
    assert!(FileFilter::Media.accepts("a.PNG"));
    assert!(FileFilter::Media.accepts("clip.mp4"));
    assert!(!FileFilter::Media.accepts("a.qmd"));
    assert!(FileFilter::Shortcode(ShortcodeKind::Include).accepts("script.R"));
    assert!(!FileFilter::Shortcode(ShortcodeKind::Embed).accepts("a.md"));
    assert!(FileFilter::Shortcode(ShortcodeKind::Embed).accepts("a.ipynb"));
    assert!(FileFilter::Shortcode(ShortcodeKind::Video).accepts("a.webm"));
    assert!(FileFilter::Shortcode(ShortcodeKind::Placeholder).accepts("a.svg"));
    assert!(ShortcodeKind::from_name("include") == Some(ShortcodeKind::Include));
    assert!(ShortcodeKind::from_name("Include").is_none());
}

#[test]
fn typed_path_splits_at_last_slash() {
    assert_eq!(split_path_prefix("a/b/c"), ("a/b".to_string(), "c".to_string()));
    assert_eq!(split_path_prefix("name"), (String::new(), "name".to_string()));
    assert_eq!(split_path_prefix("dir/"), ("dir".to_string(), String::new()));
    assert_eq!(split_path_prefix("/x"), (String::new(), "x".to_string()));
}

#[test]
fn listed_entries_match_prefix_and_hide_dotfiles() {
    assert!(entry_listed("Chapter1.qmd", "ch"));
    assert!(!entry_listed("intro.qmd", "ch"));
    assert!(!entry_listed(".hidden", ""));
    assert!(entry_listed(".hidden", ".h"));
    assert!(entry_listed("anything", ""));
}

#[test]
fn entries_list_directories_first_sorted_ignoring_case() {
    let dirs = vec!["b".to_string(), "A".to_string(), "c".to_string()];
    let files = vec!["z.md".to_string(), "B.md".to_string(), "a.md".to_string(), "b.md".to_string()];
    let entries = order_entries(dirs, files);
    let got: Vec<(String, bool)> = entries.iter().map(|e| (e.name.clone(), e.is_dir)).collect();
    assert_eq!(
        got,
        vec![
            ("A".to_string(), true),
            ("b".to_string(), true),
            ("c".to_string(), true),
            ("a.md".to_string(), false),
            ("B.md".to_string(), false),
            ("b.md".to_string(), false),
            ("z.md".to_string(), false),
        ]
    );
}

#[test]
fn completion_edits_replace_the_typed_name() {
    let text = "see [x](docs/ch";
    let entries = vec![
        PathEntry { name: "chapters".to_string(), is_dir: true },
        PathEntry { name: "ch1.qmd".to_string(), is_dir: false },
    ];
    let (range, edits) = path_completion_items(&entries, 2, text.len(), text);
    assert_eq!((range.start.line, range.start.character), (0, 13));
    assert_eq!((range.end.line, range.end.character), (0, 15));
    assert_eq!(edits, vec!["chapters/".to_string(), "ch1.qmd".to_string()]);
}

#[test]
fn completion_edits_are_capped() {
    let entries: Vec<PathEntry> =
        (0..300).map(|i| PathEntry { name: format!("f{i}"), is_dir: false }).collect();
    let (_, edits) = path_completion_items(&entries, 0, 0, "");
    assert_eq!(edits.len(), 250);
    assert_eq!(edits[249], "f249");
}

#[test]
fn citation_labels_dedup_before_filtering() {
    let cands = vec![
        LabelCandidate::Citation("Smith2020".to_string()),
        LabelCandidate::Citation("smith2020".to_string()),
        LabelCandidate::Citation("jones".to_string()),
        LabelCandidate::Inline("smith2021".to_string(), "Smith2021".to_string()),
        LabelCandidate::Inline("jones".to_string(), "Jones-dup".to_string()),
        LabelCandidate::Crossref(String::new()),
        LabelCandidate::Crossref("sec-smith".to_string()),
        LabelCandidate::Crossref("SMITH2020".to_string()),
    ];
    assert_eq!(
        collect_completion_labels(&cands, "sm"),
        vec!["Smith2020".to_string(), "Smith2021".to_string()]
    );
    assert_eq!(
        collect_completion_labels(&cands, ""),
        vec!["Smith2020".to_string(), "jones".to_string(), "Smith2021".to_string(), "sec-smith".to_string()]
    );
}
