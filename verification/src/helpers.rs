//! Reference, definition, citation and heading lookups on the syntax tree,
//! shared by the navigation features (hover, go-to-definition, references,
//! rename).

use vstd::prelude::*;
use crate::locate::{find_node_at_offset, node_at_offset};
use crate::syntax::{
    child_token_text, children_of, first_child_node, kids, lemma_kids, nearest_of_kind, wf,
    ElementView, SyntaxKind, SyntaxTree,
};
use crate::text::{
    ascii_lower, char_ascii_lower,
    decimal, pandoc_slug, pandoc_slugify, usize_to_decimal, vec_eq,
    before_first, chars_of, contains_seq, normalize_label, normalized_label, starts_with,
    str_eq, string_from_chars, trim_start_repeated, vec_contains, vec_find_char, vec_slice,
    vec_starts_with, vec_trim_start_repeated,
};

verus! {

/// `[`, `^`: the opening of a footnote reference.
pub open spec fn caret_open() -> Seq<char> {
    seq!['[', '^']
}

/// What [`extract_reference_label`] yields for element `n`.
pub open spec fn reference_label_of(es: Seq<ElementView>, n: int) -> Option<(Seq<char>, bool)> {
    if es[n].kind == SyntaxKind::LINK_REF {
        Some(
            (
                normalized_label(child_token_text(es, n, SyntaxKind::TEXT, es[n].subtree_end)),
                false,
            ),
        )
    } else if es[n].kind == SyntaxKind::FOOTNOTE_REFERENCE {
        let ks = children_of(es, n, SyntaxKind::TEXT, true);
        if ks.len() >= 2 && es[ks[0]].text == caret_open() {
            Some((normalized_label(es[ks[1]].text), true))
        } else {
            None
        }
    } else {
        None
    }
}

/// What [`extract_definition_label`] yields for element `n`.
pub open spec fn definition_label_of(es: Seq<ElementView>, n: int) -> Option<Seq<char>> {
    if es[n].kind == SyntaxKind::REFERENCE_DEFINITION {
        let links = children_of(es, n, SyntaxKind::LINK, false);
        if links.len() == 0 {
            None
        } else {
            let texts = children_of(es, links[0], SyntaxKind::LINK_TEXT, false);
            if texts.len() == 0 {
                None
            } else {
                Some(
                    normalized_label(
                        child_token_text(es, texts[0], SyntaxKind::TEXT, es[texts[0]].subtree_end),
                    ),
                )
            }
        }
    } else if es[n].kind == SyntaxKind::FOOTNOTE_DEFINITION {
        let toks = children_of(es, n, SyntaxKind::FOOTNOTE_REFERENCE, true);
        if toks.len() == 0 {
            None
        } else {
            let t = es[toks[0]].text;
            if starts_with(t, caret_open()) && contains_seq(t, seq![']', ':']) {
                Some(normalized_label(before_first(trim_start_repeated(t, caret_open()), ']')))
            } else {
                None
            }
        }
    } else {
        None
    }
}

fn caret_open_chars() -> (v: Vec<char>)
    ensures
        v@ == caret_open(),
{
    let mut v = Vec::new();
    v.push('[');
    v.push('^');
    assert(v@ =~= caret_open());
    v
}

/// Extract the reference label of a link reference (`LINK_REF`) or a
/// footnote reference (`FOOTNOTE_REFERENCE`), normalised, with whether it
/// is a footnote.
pub fn extract_reference_label(tree: &SyntaxTree, node: usize) -> (r: Option<(String, bool)>)
    requires
        node < tree@.len(),
    ensures
        r matches Some((l, f)) ==> reference_label_of(tree@, node as int) == Some((l@, f)),
        r is None ==> reference_label_of(tree@, node as int) is None,
{
    let k = tree.kind(node);
    if k == SyntaxKind::LINK_REF {
        let text = tree.child_tokens_text(node, SyntaxKind::TEXT);
        Some((normalize_label(text.as_str()), false))
    } else if k == SyntaxKind::FOOTNOTE_REFERENCE {
        let ks = tree.children_of_kind(node, SyntaxKind::TEXT, true);
        proof {
            assert(ks@.len() == children_of(tree@, node as int, SyntaxKind::TEXT, true).len());
        }
        if ks.len() >= 2 {
            let first = chars_of(tree.token_text(ks[0]));
            let open = caret_open_chars();
            proof {
                assert(ks@.map_values(|j: usize| j as int)[0] == ks@[0] as int);
                assert(ks@.map_values(|j: usize| j as int)[1] == ks@[1] as int);
            }
            if first.len() == 2 && first[0] == '[' && first[1] == '^' {
                assert(first@ =~= caret_open());
                Some((normalize_label(tree.token_text(ks[1])), true))
            } else {
                assert(first@ != caret_open()) by {
                    if first@ == caret_open() {
                        assert(first@[0] == open@[0]);
                    }
                }
                None
            }
        } else {
            None
        }
    } else {
        None
    }
}


/// Extract the normalised label of a definition node: a link reference
/// definition (`[label]: url`, label taken from its link text) or a
/// footnote definition (`[^id]: ...`, id taken from its marker token).
pub fn extract_definition_label(tree: &SyntaxTree, node: usize) -> (r: Option<String>)
    requires
        node < tree@.len(),
    ensures
        r matches Some(l) ==> definition_label_of(tree@, node as int) == Some(l@),
        r is None ==> definition_label_of(tree@, node as int) is None,
{
    let k = tree.kind(node);
    if k == SyntaxKind::REFERENCE_DEFINITION {
        let links = tree.children_of_kind(node, SyntaxKind::LINK, false);
        proof {
            assert(links@.len() == children_of(tree@, node as int, SyntaxKind::LINK, false).len());
        }
        if links.len() == 0 {
            return None;
        }
        let link = links[0];
        proof {
            assert(links@.map_values(|j: usize| j as int)[0] == links@[0] as int);
        }
        let texts = tree.children_of_kind(link, SyntaxKind::LINK_TEXT, false);
        proof {
            assert(texts@.len() == children_of(tree@, link as int, SyntaxKind::LINK_TEXT, false).len());
        }
        if texts.len() == 0 {
            return None;
        }
        proof {
            assert(texts@.map_values(|j: usize| j as int)[0] == texts@[0] as int);
        }
        let text = tree.child_tokens_text(texts[0], SyntaxKind::TEXT);
        Some(normalize_label(text.as_str()))
    } else if k == SyntaxKind::FOOTNOTE_DEFINITION {
        let toks = tree.children_of_kind(node, SyntaxKind::FOOTNOTE_REFERENCE, true);
        proof {
            assert(toks@.len() == children_of(tree@, node as int, SyntaxKind::FOOTNOTE_REFERENCE, true).len());
        }
        if toks.len() == 0 {
            return None;
        }
        proof {
            assert(toks@.map_values(|j: usize| j as int)[0] == toks@[0] as int);
        }
        let t = chars_of(tree.token_text(toks[0]));
        let open = caret_open_chars();
        let mut marker: Vec<char> = Vec::new();
        marker.push(']');
        marker.push(':');
        assert(marker@ =~= seq![']', ':']);
        if vec_starts_with(&t, &open) && vec_contains(&t, &marker) {
            let trimmed = vec_trim_start_repeated(&t, &open);
            let id = match vec_find_char(&trimmed, ']') {
                Some(i) => vec_slice(&trimmed, 0, i),
                None => vec_slice(&trimmed, 0, trimmed.len()),
            };
            proof {
                assert(trimmed@.subrange(0, trimmed@.len() as int) =~= trimmed@);
            }
            let id_str = string_from_chars(&id);
            Some(normalize_label(id_str.as_str()))
        } else {
            None
        }
    } else {
        None
    }
}

/// The first element in `[lo, hi)` that is a definition of the given kind
/// whose label is `label`.
pub open spec fn is_definition_for(es: Seq<ElementView>, j: int, label: Seq<char>, is_footnote: bool) -> bool {
    &&& es[j].kind == if is_footnote {
        SyntaxKind::FOOTNOTE_DEFINITION
    } else {
        SyntaxKind::REFERENCE_DEFINITION
    }
    &&& definition_label_of(es, j) == Some(label)
}

/// Find the first definition node below (or at) `root` whose extracted
/// label equals `label`: a footnote definition when `is_footnote`, a link
/// reference definition otherwise.
pub fn find_definition_node(tree: &SyntaxTree, root: usize, label: &str, is_footnote: bool) -> (r:
    Option<usize>)
    requires
        root < tree@.len(),
    ensures
        r matches Some(j) ==> {
            &&& root <= j < tree@[root as int].subtree_end
            &&& is_definition_for(tree@, j as int, label@, is_footnote)
            &&& forall|i: int|
                root <= i < j ==> !is_definition_for(tree@, i, label@, is_footnote)
        },
        r is None ==> forall|i: int|
            root <= i < tree@[root as int].subtree_end ==> !is_definition_for(
                tree@,
                i,
                label@,
                is_footnote,
            ),
{
    let target = if is_footnote {
        SyntaxKind::FOOTNOTE_DEFINITION
    } else {
        SyntaxKind::REFERENCE_DEFINITION
    };
    let hi = tree.subtree_end(root);
    let mut j = root;
    while j < hi
        invariant
            root <= j <= hi,
            hi == tree@[root as int].subtree_end,
            hi <= tree@.len(),
            target == if is_footnote {
                SyntaxKind::FOOTNOTE_DEFINITION
            } else {
                SyntaxKind::REFERENCE_DEFINITION
            },
            forall|i: int| root <= i < j ==> !is_definition_for(tree@, i, label@, is_footnote),
        decreases hi - j,
    {
        if tree.kind(j) == target {
            match extract_definition_label(tree, j) {
                Some(l) => {
                    if str_eq(l.as_str(), label) {
                        return Some(j);
                    }
                },
                None => {},
            }
        }
        j = j + 1;
    }
    None
}


/// The text of the first direct token child of `n` with kind `k`.
pub open spec fn first_child_token_text(es: Seq<ElementView>, n: int, k: SyntaxKind) -> Option<
    Seq<char>,
> {
    let ks = children_of(es, n, k, true);
    if ks.len() == 0 {
        None
    } else {
        Some(es[ks[0]].text)
    }
}

/// The text of the first direct token child of `n` with kind `k`.
pub fn first_child_token(tree: &SyntaxTree, n: usize, k: SyntaxKind) -> (r: Option<String>)
    requires
        n < tree@.len(),
    ensures
        r matches Some(t) ==> first_child_token_text(tree@, n as int, k) == Some(t@),
        r is None ==> first_child_token_text(tree@, n as int, k) is None,
{
    let ks = tree.children_of_kind(n, k, true);
    proof {
        assert(ks@.len() == children_of(tree@, n as int, k, true).len());
    }
    if ks.len() == 0 {
        None
    } else {
        proof {
            assert(ks@.map_values(|j: usize| j as int)[0] == ks@[0] as int);
        }
        Some(tree.token_text(ks[0]).to_owned())
    }
}

/// The first key of the nearest citation at or above `n`.
pub open spec fn citation_key_of(es: Seq<ElementView>, n: int) -> Option<Seq<char>> {
    match nearest_of_kind(es, n, SyntaxKind::CITATION) {
        Some(c) => first_child_token_text(es, c, SyntaxKind::CITATION_KEY),
        None => None,
    }
}

/// The first key of the nearest cross-reference at or above `n`.
pub open spec fn crossref_key_of(es: Seq<ElementView>, n: int) -> Option<Seq<char>> {
    match nearest_of_kind(es, n, SyntaxKind::CROSSREF) {
        Some(c) => first_child_token_text(es, c, SyntaxKind::CROSSREF_KEY),
        None => None,
    }
}

/// The citation key under the cursor: the first key of the citation that
/// is `node` itself or its nearest citation ancestor.
pub fn extract_citation_key(tree: &SyntaxTree, node: usize) -> (r: Option<String>)
    requires
        node < tree@.len(),
    ensures
        r matches Some(k) ==> citation_key_of(tree@, node as int) == Some(k@),
        r is None ==> citation_key_of(tree@, node as int) is None,
{
    match tree.nearest_ancestor_of_kind(node, SyntaxKind::CITATION) {
        Some(c) => first_child_token(tree, c, SyntaxKind::CITATION_KEY),
        None => None,
    }
}

/// The cross-reference key under the cursor: the first key of the
/// cross-reference that is `node` itself or its nearest such ancestor.
pub fn extract_crossref_key(tree: &SyntaxTree, node: usize) -> (r: Option<String>)
    requires
        node < tree@.len(),
    ensures
        r matches Some(k) ==> crossref_key_of(tree@, node as int) == Some(k@),
        r is None ==> crossref_key_of(tree@, node as int) is None,
{
    match tree.nearest_ancestor_of_kind(node, SyntaxKind::CROSSREF) {
        Some(c) => first_child_token(tree, c, SyntaxKind::CROSSREF_KEY),
        None => None,
    }
}

/// `str::eq_ignore_ascii_case`.
pub open spec fn eq_ignore_ascii_case(a: Seq<char>, b: Seq<char>) -> bool {
    a.len() == b.len() && forall|i: int| 0 <= i < a.len() ==> ascii_lower(a[i]) == ascii_lower(b[i])
}


/// Whether `a` and `b` are equal up to ASCII case.
pub fn vec_eq_ignore_ascii_case(a: &Vec<char>, b: &Vec<char>) -> (r: bool)
    ensures
        r == eq_ignore_ascii_case(a@, b@),
{
    if a.len() != b.len() {
        return false;
    }
    let mut i: usize = 0;
    while i < a.len()
        invariant
            a.len() == b.len(),
            i <= a.len(),
            forall|j: int| 0 <= j < i ==> ascii_lower(a@[j]) == ascii_lower(b@[j]),
        decreases a.len() - i,
    {
        if char_ascii_lower(a[i]) != char_ascii_lower(b[i]) {
            return false;
        }
        i = i + 1;
    }
    true
}

/// `l`, `a`, `b`, `e`, `l`.
pub open spec fn label_word() -> Seq<char> {
    seq!['l', 'a', 'b', 'e', 'l']
}

/// The value of a chunk option `j` whose key is `label` (any ASCII case).
pub open spec fn chunk_label_value(es: Seq<ElementView>, j: int) -> Option<Seq<char>> {
    if es[j].kind == SyntaxKind::CHUNK_OPTION {
        match (
            first_child_token_text(es, j, SyntaxKind::CHUNK_OPTION_KEY),
            first_child_token_text(es, j, SyntaxKind::CHUNK_OPTION_VALUE),
        ) {
            (Some(key), Some(value)) => if eq_ignore_ascii_case(key, label_word()) {
                Some(value)
            } else {
                None
            },
            _ => None,
        }
    } else {
        None
    }
}

/// The label value of the nearest chunk `label` option at or above `n`.
pub open spec fn chunk_label_key_of(es: Seq<ElementView>, n: int) -> Option<Seq<char>>
    decreases n,
{
    if n < 0 || n >= es.len() {
        None
    } else if chunk_label_value(es, n) is Some {
        chunk_label_value(es, n)
    } else if n == 0 || es[n].parent >= n || es[n].parent < 0 {
        None
    } else {
        chunk_label_key_of(es, es[n].parent)
    }
}

fn label_word_chars() -> (v: Vec<char>)
    ensures
        v@ == label_word(),
{
    let mut v = Vec::new();
    v.push('l');
    v.push('a');
    v.push('b');
    v.push('e');
    v.push('l');
    assert(v@ =~= label_word());
    v
}

/// The value of chunk option `j` when it is a `label` option.
pub fn chunk_label(tree: &SyntaxTree, j: usize) -> (r: Option<String>)
    requires
        j < tree@.len(),
    ensures
        r matches Some(v) ==> chunk_label_value(tree@, j as int) == Some(v@),
        r is None ==> chunk_label_value(tree@, j as int) is None,
{
    if tree.kind(j) != SyntaxKind::CHUNK_OPTION {
        return None;
    }
    let key = first_child_token(tree, j, SyntaxKind::CHUNK_OPTION_KEY);
    let value = first_child_token(tree, j, SyntaxKind::CHUNK_OPTION_VALUE);
    match (key, value) {
        (Some(key), Some(value)) => {
            let kc = chars_of(key.as_str());
            let lw = label_word_chars();
            if vec_eq_ignore_ascii_case(&kc, &lw) {
                Some(value)
            } else {
                None
            }
        },
        _ => None,
    }
}

/// The chunk label under the cursor: the value of the nearest `label`
/// chunk option at or above `node`.
pub fn extract_chunk_label_key(tree: &SyntaxTree, node: usize) -> (r: Option<String>)
    requires
        node < tree@.len(),
    ensures
        r matches Some(k) ==> chunk_label_key_of(tree@, node as int) == Some(k@),
        r is None ==> chunk_label_key_of(tree@, node as int) is None,
{
    let _ = tree.len();
    let mut cur = node;
    loop
        invariant
            cur < tree@.len(),
            wf(tree@),
            chunk_label_key_of(tree@, node as int) == chunk_label_key_of(tree@, cur as int),
        decreases cur,
    {
        match chunk_label(tree, cur) {
            Some(v) => {
                return Some(v);
            },
            None => {},
        }
        match tree.parent(cur) {
            Some(p) => {
                cur = p;
            },
            None => {
                return None;
            },
        }
    }
}

/// One parsed YAML region of a document: its byte range in the host
/// document, whether it is the front matter, and whether it parsed.
pub struct YamlRegion {
    pub is_frontmatter: bool,
    pub start: usize,
    pub end: usize,
    pub valid: bool,
}

/// Index of the first front-matter region.
pub open spec fn first_frontmatter(regions: Seq<YamlRegion>) -> Option<int> {
    if exists|i: int| 0 <= i < regions.len() && regions[i].is_frontmatter {
        Some(
            choose|i: int|
                0 <= i < regions.len() && regions[i].is_frontmatter && forall|j: int|
                    0 <= j < i ==> !regions[j].is_frontmatter,
        )
    } else {
        None
    }
}

fn find_frontmatter(regions: &Vec<YamlRegion>) -> (r: Option<usize>)
    ensures
        r matches Some(i) ==> first_frontmatter(regions@) == Some(i as int) && i < regions@.len(),
        r is None ==> first_frontmatter(regions@) is None,
{
    let mut i: usize = 0;
    while i < regions.len()
        invariant
            i <= regions.len(),
            forall|j: int| 0 <= j < i ==> !regions@[j].is_frontmatter,
        decreases regions.len() - i,
    {
        if regions[i].is_frontmatter {
            proof {
                let w = choose|w: int|
                    0 <= w < regions@.len() && regions@[w].is_frontmatter && forall|j: int|
                        0 <= j < w ==> !regions@[j].is_frontmatter;
                assert(w == i) by {
                    if w > i {
                        assert(regions@[i as int].is_frontmatter);
                    }
                }
            }
            return Some(i);
        }
        i = i + 1;
    }
    None
}

/// Whether `offset` lies inside the document's front matter (the first
/// front-matter region), `start <= offset < end`.
pub fn is_offset_in_yaml_frontmatter(regions: &Vec<YamlRegion>, offset: usize) -> (b: bool)
    ensures
        b == match first_frontmatter(regions@) {
            Some(i) => regions@[i].start <= offset < regions@[i].end,
            None => false,
        },
{
    match find_frontmatter(regions) {
        Some(i) => regions[i].start <= offset && offset < regions[i].end,
        None => false,
    }
}

/// The document's front matter parsed; true when there is none.
pub open spec fn frontmatter_valid(regions: Seq<YamlRegion>) -> bool {
    match first_frontmatter(regions) {
        Some(i) => regions[i].valid,
        None => true,
    }
}

/// Whether the document's front matter parsed; true when there is none.
pub fn is_yaml_frontmatter_valid(regions: &Vec<YamlRegion>) -> (b: bool)
    ensures
        b == frontmatter_valid(regions@),
{
    match find_frontmatter(regions) {
        Some(i) => regions[i].valid,
        None => true,
    }
}


/// The concatenated texts of the tokens of kind `k` with index in `[lo, hi)`.
pub open spec fn tokens_text_of_kind(es: Seq<ElementView>, lo: int, hi: int, k: SyntaxKind) -> Seq<
    char,
>
    decreases hi - lo,
{
    if hi <= lo {
        seq![]
    } else if es[hi - 1].is_token && es[hi - 1].kind == k {
        tokens_text_of_kind(es, lo, hi - 1, k) + es[hi - 1].text
    } else {
        tokens_text_of_kind(es, lo, hi - 1, k)
    }
}

/// The base identifier of heading `h`: the pandoc slug of its normalised
/// content text; `None` when `h` is no heading, has no content, or the text
/// or slug is empty.
pub open spec fn heading_base(es: Seq<ElementView>, h: int) -> Option<Seq<char>> {
    if es[h].kind != SyntaxKind::HEADING {
        None
    } else {
        let cs = children_of(es, h, SyntaxKind::HEADING_CONTENT, false);
        if cs.len() == 0 {
            None
        } else {
            let raw = tokens_text_of_kind(es, cs[0], es[cs[0]].subtree_end, SyntaxKind::TEXT);
            let cleaned = normalized_label(raw);
            if cleaned.len() == 0 {
                None
            } else if pandoc_slug(cleaned).len() == 0 {
                None
            } else {
                Some(pandoc_slug(cleaned))
            }
        }
    }
}

/// Headings with index in `[lo, h)` whose base identifier is `b`.
pub open spec fn prior_count(es: Seq<ElementView>, lo: int, h: int, b: Seq<char>) -> nat
    decreases h - lo,
{
    if h <= lo {
        0
    } else {
        prior_count(es, lo, h - 1, b) + if heading_base(es, h - 1) == Some(b) {
            1nat
        } else {
            0nat
        }
    }
}

/// The implicit identifier of heading `h` when headings are numbered from
/// `lo`: its base, suffixed `-n` when `n` earlier headings share the base.
pub open spec fn heading_id(es: Seq<ElementView>, lo: int, h: int) -> Option<Seq<char>> {
    match heading_base(es, h) {
        None => None,
        Some(b) => {
            let c = prior_count(es, lo, h, b);
            Some(
                if c == 0 {
                    b
                } else {
                    b + seq!['-'] + decimal(c)
                },
            )
        },
    }
}

/// Heading `h` carries the implicit identifier `target` (normalised).
pub open spec fn is_implicit_header_for(es: Seq<ElementView>, lo: int, h: int, target: Seq<char>) -> bool {
    match heading_id(es, lo, h) {
        Some(id) => normalized_label(id) == target,
        None => false,
    }
}

proof fn lemma_prior_count_bound(es: Seq<ElementView>, lo: int, h: int, b: Seq<char>)
    requires
        lo <= h,
    ensures
        prior_count(es, lo, h, b) <= h - lo,
    decreases h - lo,
{
    if h > lo {
        lemma_prior_count_bound(es, lo, h - 1, b);
    }
}

/// Normalise a heading's text for matching: as a label (whitespace
/// collapsed, lowercased).
pub fn normalize_heading_text(text: &str) -> (r: String)
    ensures
        r@ == normalized_label(text@),
{
    normalize_label(text)
}

/// The implicit identifier Pandoc gives a heading with text `text`.
pub fn implicit_header_id(text: &str) -> (r: String)
    ensures
        r@ == pandoc_slug(text@),
{
    string_from_chars(&pandoc_slugify(text))
}

/// The base identifier of heading `h`.
pub fn heading_base_of(tree: &SyntaxTree, h: usize) -> (r: Option<Vec<char>>)
    requires
        h < tree@.len(),
    ensures
        r matches Some(b) ==> heading_base(tree@, h as int) == Some(b@),
        r is None ==> heading_base(tree@, h as int) is None,
{
    if tree.kind(h) != SyntaxKind::HEADING {
        return None;
    }
    let cs = tree.children_of_kind(h, SyntaxKind::HEADING_CONTENT, false);
    proof {
        assert(cs@.len() == children_of(tree@, h as int, SyntaxKind::HEADING_CONTENT, false).len());
    }
    if cs.len() == 0 {
        return None;
    }
    proof {
        assert(cs@.map_values(|j: usize| j as int)[0] == cs@[0] as int);
    }
    let c = cs[0];
    let hi = tree.subtree_end(c);
    let mut raw = String::new();
    let mut j = c;
    while j < hi
        invariant
            c <= j <= hi <= tree@.len(),
            hi == tree@[c as int].subtree_end,
            raw@ == tokens_text_of_kind(tree@, c as int, j as int, SyntaxKind::TEXT),
        decreases hi - j,
    {
        if tree.is_token(j) && tree.kind(j) == SyntaxKind::TEXT {
            raw.append(tree.token_text(j));
        }
        j = j + 1;
    }
    let cleaned = normalize_heading_text(raw.as_str());
    let cleaned_chars = chars_of(cleaned.as_str());
    if cleaned_chars.len() == 0 {
        return None;
    }
    let base = chars_of(implicit_header_id(cleaned.as_str()).as_str());
    if base.len() == 0 {
        return None;
    }
    Some(base)
}

fn find_seen(seen: &Vec<(Vec<char>, usize)>, b: &Vec<char>) -> (r: Option<usize>)
    ensures
        r matches Some(k) ==> k < seen@.len() && seen@[k as int].0@ == b@,
        r is None ==> forall|k: int| 0 <= k < seen@.len() ==> seen@[k].0@ != b@,
{
    let mut k: usize = 0;
    while k < seen.len()
        invariant
            k <= seen.len(),
            forall|i: int| 0 <= i < k ==> seen@[i].0@ != b@,
        decreases seen.len() - k,
    {
        if vec_eq(&seen[k].0, b) {
            return Some(k);
        }
        k = k + 1;
    }
    None
}

/// Find the heading below (or at) `root` whose implicit identifier matches
/// `label` (both normalised). Identifiers are pandoc slugs of the heading
/// text, numbered `-1`, `-2`, ... for repeated slugs in document order.
pub fn find_implicit_header_definition_node(tree: &SyntaxTree, root: usize, label: &str) -> (r:
    Option<usize>)
    requires
        root < tree@.len(),
    ensures
        r matches Some(h) ==> {
            &&& root <= h < tree@[root as int].subtree_end
            &&& is_implicit_header_for(tree@, root as int, h as int, normalized_label(label@))
            &&& forall|i: int|
                root <= i < h ==> !is_implicit_header_for(
                    tree@,
                    root as int,
                    i,
                    normalized_label(label@),
                )
        },
        r is None ==> forall|i: int|
            root <= i < tree@[root as int].subtree_end ==> !is_implicit_header_for(
                tree@,
                root as int,
                i,
                normalized_label(label@),
            ),
{
    let target = normalize_label(label);
    let hi = tree.subtree_end(root);
    let mut seen: Vec<(Vec<char>, usize)> = Vec::new();
    let mut j = root;
    while j < hi
        invariant
            root <= j <= hi <= tree@.len(),
            hi == tree@[root as int].subtree_end,
            target@ == normalized_label(label@),
            forall|k1: int, k2: int|
                0 <= k1 < k2 < seen@.len() ==> #[trigger] seen@[k1].0@ != #[trigger] seen@[k2].0@,
            forall|k: int|
                0 <= k < seen@.len() ==> #[trigger] seen@[k].1 == prior_count(
                    tree@,
                    root as int,
                    j as int,
                    seen@[k].0@,
                ),
            forall|b: Seq<char>|
                (forall|k: int| 0 <= k < seen@.len() ==> seen@[k].0@ != b) ==> #[trigger] prior_count(
                    tree@,
                    root as int,
                    j as int,
                    b,
                ) == 0,
            forall|i: int|
                root <= i < j ==> !is_implicit_header_for(
                    tree@,
                    root as int,
                    i,
                    normalized_label(label@),
                ),
        decreases hi - j,
    {
        let ghost jj = j as int;
        match heading_base_of(tree, j) {
            None => {
                assert forall|b: Seq<char>|
                    #[trigger] prior_count(tree@, root as int, jj + 1, b) == prior_count(
                        tree@,
                        root as int,
                        jj,
                        b,
                    ) by {}
                j = j + 1;
            },
            Some(base) => {
                let found = find_seen(&seen, &base);
                let count: usize = match found {
                    Some(k) => seen[k].1,
                    None => 0,
                };
                proof {
                    lemma_prior_count_bound(tree@, root as int, jj, base@);
                }
                let id = if count == 0 {
                    vec_slice(&base, 0, base.len())
                } else {
                    let mut v = vec_slice(&base, 0, base.len());
                    v.push('-');
                    let d = usize_to_decimal(count);
                    let mut t: usize = 0;
                    while t < d.len()
                        invariant
                            t <= d.len(),
                            v@ == base@ + seq!['-'] + d@.take(t as int),
                        decreases d.len() - t,
                    {
                        v.push(d[t]);
                        t = t + 1;
                        assert(v@ =~= base@ + seq!['-'] + d@.take(t as int));
                    }
                    assert(d@.take(d.len() as int) =~= d@);
                    v
                };
                proof {
                    assert(base@.subrange(0, base@.len() as int) =~= base@);
                    assert(heading_id(tree@, root as int, jj) == Some(id@));
                }
                let id_str = string_from_chars(&id);
                let id_norm = normalize_label(id_str.as_str());
                if str_eq(id_norm.as_str(), target.as_str()) {
                    return Some(j);
                }
                let ghost old_seen = seen@;
                match found {
                    Some(k) => {
                        let entry = (vec_slice(&base, 0, base.len()), count + 1);
                        seen.set(k, entry);
                        proof {
                            assert(seen@[k as int].0@ == base@);
                            assert(prior_count(tree@, root as int, jj + 1, base@) == prior_count(
                                tree@,
                                root as int,
                                jj,
                                base@,
                            ) + 1);
                            assert forall|q: int|
                                0 <= q < seen@.len() implies #[trigger] seen@[q].1 == prior_count(
                                    tree@,
                                    root as int,
                                    jj + 1,
                                    seen@[q].0@,
                                ) by {
                                if q != k {
                                    assert(seen@[q] == old_seen[q]);
                                    if q < k {
                                        assert(old_seen[q].0@ != old_seen[k as int].0@);
                                    } else {
                                        assert(old_seen[k as int].0@ != old_seen[q].0@);
                                    }
                                }
                            }
                            assert forall|k1: int, k2: int|
                                0 <= k1 < k2 < seen@.len() implies #[trigger] seen@[k1].0@
                                != #[trigger] seen@[k2].0@ by {
                                assert(old_seen[k1].0@ != old_seen[k2].0@);
                                assert(seen@[k1].0@ == old_seen[k1].0@);
                                assert(seen@[k2].0@ == old_seen[k2].0@);
                            }
                            assert forall|b: Seq<char>|
                                (forall|q: int| 0 <= q < seen@.len() ==> seen@[q].0@ != b)
                                    implies #[trigger] prior_count(tree@, root as int, jj + 1, b) == 0 by {
                                assert forall|q: int| 0 <= q < old_seen.len() implies old_seen[q].0@
                                    != b by {
                                    if q != k {
                                        assert(seen@[q] == old_seen[q]);
                                    } else {
                                        assert(seen@[q].0@ == base@);
                                    }
                                }
                                assert(seen@[k as int].0@ == base@);
                                assert(b != base@);
                                assert(prior_count(tree@, root as int, jj, b) == 0);
                            }
                        }
                    },
                    None => {
                        let entry = (vec_slice(&base, 0, base.len()), 1usize);
                        seen.push(entry);
                        proof {
                            assert(prior_count(tree@, root as int, jj, base@) == 0);
                            assert(prior_count(tree@, root as int, jj + 1, base@) == 1);
                            assert forall|q: int|
                                0 <= q < seen@.len() implies #[trigger] seen@[q].1 == prior_count(
                                    tree@,
                                    root as int,
                                    jj + 1,
                                    seen@[q].0@,
                                ) by {
                                if q < old_seen.len() {
                                    assert(seen@[q] == old_seen[q]);
                                    assert(old_seen[q].0@ != base@);
                                }
                            }
                            assert forall|k1: int, k2: int|
                                0 <= k1 < k2 < seen@.len() implies #[trigger] seen@[k1].0@
                                != #[trigger] seen@[k2].0@ by {
                                assert(seen@[k1] == old_seen[k1]);
                                if k2 < old_seen.len() {
                                    assert(seen@[k2] == old_seen[k2]);
                                    assert(old_seen[k1].0@ != old_seen[k2].0@);
                                } else {
                                    assert(old_seen[k1].0@ != base@);
                                }
                            }
                            assert forall|b: Seq<char>|
                                (forall|q: int| 0 <= q < seen@.len() ==> seen@[q].0@ != b)
                                    implies #[trigger] prior_count(tree@, root as int, jj + 1, b) == 0 by {
                                assert forall|q: int| 0 <= q < old_seen.len() implies old_seen[q].0@
                                    != b by {
                                    assert(seen@[q] == old_seen[q]);
                                }
                                assert(seen@[old_seen.len() as int].0@ == base@);
                                assert(b != base@);
                                assert(prior_count(tree@, root as int, jj, b) == 0);
                            }
                        }
                    },
                }
                j = j + 1;
            },
        }
    }
    None
}

/// The first definition for `label` of the given kind with index in
/// `[i, hi)`.
pub open spec fn first_definition_from(es: Seq<ElementView>, label: Seq<char>, is_footnote: bool, i: int, hi: int) -> Option<int>
    decreases hi - i,
{
    if i >= hi {
        None
    } else if is_definition_for(es, i, label, is_footnote) {
        Some(i)
    } else {
        first_definition_from(es, label, is_footnote, i + 1, hi)
    }
}

/// A scan result `j` (`hi` for none found) that no earlier index beats is
/// the first definition.
proof fn lemma_first_definition_from(es: Seq<ElementView>, label: Seq<char>, is_footnote: bool, i: int, hi: int, j: int)
    requires
        i <= j <= hi,
        forall|m: int| i <= m < j ==> !is_definition_for(es, m, label, is_footnote),
        j < hi ==> is_definition_for(es, j, label, is_footnote),
    ensures
        first_definition_from(es, label, is_footnote, i, hi) == if j < hi {
            Some(j)
        } else {
            None::<int>
        },
    decreases j - i,
{
    if i < j {
        lemma_first_definition_from(es, label, is_footnote, i + 1, hi, j);
    }
}

/// The reference label that node `n` itself offers: its own reference
/// label, or, for a link or image, that of its first reference child.
pub open spec fn offered_label(es: Seq<ElementView>, n: int) -> Option<(Seq<char>, bool)> {
    match reference_label_of(es, n) {
        Some(x) => Some(x),
        None => if es[n].kind == SyntaxKind::LINK || es[n].kind == SyntaxKind::IMAGE_LINK {
            match first_child_node(es, n, SyntaxKind::LINK_REF) {
                Some(r) => reference_label_of(es, r),
                None => None,
            }
        } else {
            None
        },
    }
}

/// The first label offered by `n` or one of its ancestors, innermost first.
pub open spec fn reference_above(es: Seq<ElementView>, n: int) -> Option<(Seq<char>, bool)>
    decreases n,
{
    if n < 0 || n >= es.len() {
        None
    } else {
        match offered_label(es, n) {
            Some(x) => Some(x),
            None => if n == 0 || es[n].parent >= n || es[n].parent < 0 {
                None
            } else {
                reference_above(es, es[n].parent)
            },
        }
    }
}

/// The label offered by node `n` (see [`offered_label`]).
fn offered_label_of(tree: &SyntaxTree, n: usize) -> (r: Option<(String, bool)>)
    requires
        n < tree@.len(),
    ensures
        r matches Some((l, f)) ==> offered_label(tree@, n as int) == Some((l@, f)),
        r is None ==> offered_label(tree@, n as int) is None,
{
    match extract_reference_label(tree, n) {
        Some(x) => Some(x),
        None => {
            let k = tree.kind(n);
            if k == SyntaxKind::LINK || k == SyntaxKind::IMAGE_LINK {
                match tree.first_child_node_of(n, SyntaxKind::LINK_REF) {
                    Some(r) => extract_reference_label(tree, r),
                    None => None,
                }
            } else {
                None
            }
        },
    }
}

/// The byte range of the definition that the reference at `offset`
/// points to: from the node at `offset` up through its ancestors, the
/// first reference label found is looked up among all definitions of its
/// kind (the first match wins). None when no reference encloses the
/// offset or nothing defines its label.
pub fn find_definition_at_offset(tree: &SyntaxTree, offset: usize) -> (r: Option<(usize, usize)>)
    requires
        offset <= tree@[0].end,
    ensures
        r == match reference_above(tree@, node_at_offset(tree@, offset as int)) {
            None => None,
            Some((label, is_footnote)) => match first_definition_from(
                tree@,
                label,
                is_footnote,
                0,
                tree@[0].subtree_end,
            ) {
                Some(j) => Some((tree@[j].start as usize, tree@[j].end as usize)),
                None => None,
            },
        },
{
    let _ = tree.len();
    let mut node = find_node_at_offset(tree, offset);
    let ghost start = node as int;
    loop
        invariant
            node < tree@.len(),
            wf(tree@),
            start == node_at_offset(tree@, offset as int),
            reference_above(tree@, start) == reference_above(tree@, node as int),
        decreases node,
    {
        match offered_label_of(tree, node) {
            Some((label, is_footnote)) => {
                proof {
                    assert(reference_above(tree@, node as int) == Some((label@, is_footnote)));
                    assert(reference_above(tree@, node_at_offset(tree@, offset as int)) == Some(
                        (label@, is_footnote),
                    ));
                }
                let found = find_definition_node(tree, 0, label.as_str(), is_footnote);
                match found {
                    Some(j) => {
                        let res = (tree.start(j), tree.end(j));
                        proof {
                            lemma_first_definition_from(tree@, label@, is_footnote, 0, tree@[0].subtree_end, j as int);
                        }
                        return Some(res);
                    },
                    None => {
                        proof {
                            lemma_first_definition_from(tree@, label@, is_footnote, 0, tree@[0].subtree_end, tree@[0].subtree_end);
                        }
                        return None;
                    },
                }
            },
            None => {},
        }
        match tree.parent(node) {
            Some(p) => {
                proof {
                    assert(0 <= tree@[node as int].parent < node);
                }
                node = p;
            },
            None => {
                return None;
            },
        }
    }
}

} // verus!
