//! Hover text for the symbol under the cursor, over the indexed documents
//! of a project: a heading link shows the section it points at, a link
//! reference whose definition points at a heading anchor shows that
//! section, a cross-reference shows its equation or its section; failing
//! those, a linked document's preview (worked out by the caller, which
//! reads the file) or a footnote's content.

use vstd::prelude::*;
use crate::footnotes::{footnote_def_content, text_without};
use crate::helpers::{extract_reference_label, reference_label_of};
use crate::links::{
    def_destination, definition_destination, destination_token, extract_first_destination_token,
    find_definition, link_definition,
};
use crate::locate::{find_node_at_offset, node_at_offset};
use crate::navigation::{append_lookup, first_lookup, first_span, key_views, lookup, SymbolIndex};
use crate::preview::{
    equation_hover_markdown, equation_hover_spec, heading_label_from_destination, heading_label_spec,
    section_end_offset, section_end_spec, section_hover_markdown, section_hover_spec,
};
use crate::symbols::{resolve_symbol_target_at_offset, target_at, target_view, SymbolTarget, TargetView};
use crate::syntax::{child_token_text, element_text, first_child_node, ElementView, SyntaxKind, SyntaxTree};
use crate::text::{chars_of, normalize_label, normalized_label, push_chars, trim_ws, vec_trim};

verus! {

/// One document of the project: its syntax tree and its symbol index.
pub struct HoverDocument {
    pub tree: SyntaxTree,
    pub index: SymbolIndex,
}

/// The first of the first `n` spans with the least start.
pub open spec fn min_start_prefix(s: Seq<(usize, usize)>, n: int) -> Option<(usize, usize)>
    decreases n,
{
    if n <= 0 {
        None
    } else {
        match min_start_prefix(s, n - 1) {
            None => Some(s[n - 1]),
            Some(m) => if s[n - 1].0 < m.0 {
                Some(s[n - 1])
            } else {
                Some(m)
            },
        }
    }
}

/// The range of the heading `label` names: of its explicit then implicit
/// definitions, the first one that starts earliest.
pub open spec fn first_heading_range(idx: SymbolIndex, label: Seq<char>) -> Option<(usize, usize)> {
    let all = lookup(idx.heading_explicit_definitions@, label) + lookup(idx.heading_implicit_definitions@, label);
    min_start_prefix(all, all.len() as int)
}

fn first_heading_range_of(idx: &SymbolIndex, label: &str) -> (r: Option<(usize, usize)>)
    ensures
        r == first_heading_range(*idx, label@),
{
    let mut all: Vec<(usize, usize)> = Vec::new();
    append_lookup(&mut all, &idx.heading_explicit_definitions, label);
    append_lookup(&mut all, &idx.heading_implicit_definitions, label);
    let mut best: Option<(usize, usize)> = None;
    let mut i: usize = 0;
    while i < all.len()
        invariant
            i <= all@.len(),
            best == min_start_prefix(all@, i as int),
        decreases all.len() - i,
    {
        let c = all[i];
        match best {
            None => {
                best = Some(c);
            },
            Some(m) => {
                if c.0 < m.0 {
                    best = Some(c);
                }
            },
        }
        i = i + 1;
    }
    best
}

/// The section hover of heading `label` in one document (see
/// [`section_hover_spec`]), its section ending at the next heading of the
/// same or a higher level in the index's heading sequence.
pub open spec fn doc_section_hover(es: Seq<ElementView>, idx: SymbolIndex, label: Seq<char>) -> Option<Seq<char>> {
    match first_heading_range(idx, label) {
        None => None,
        Some(r) => section_hover_spec(
            es,
            r.0 as int,
            r.1 as int,
            section_end_spec(idx.heading_sequence@, r.0 as int, r.1 as int, es[0].end),
        ),
    }
}

fn doc_section_hover_of(doc: &HoverDocument, label: &str) -> (r: Option<String>)
    ensures
        match r {
            Some(m) => doc_section_hover(doc.tree@, doc.index, label@) == Some(m@),
            None => doc_section_hover(doc.tree@, doc.index, label@) is None,
        },
{
    match first_heading_range_of(&doc.index, label) {
        None => None,
        Some(r) => {
            let _ = doc.tree.len();
            let text_len = doc.tree.end(0);
            let section_end = section_end_offset(&doc.index.heading_sequence, r.0, r.1, text_len);
            section_hover_markdown(&doc.tree, r.0, r.1, section_end)
        },
    }
}

/// The first section hover of `label`, from the `i`-th document on.
pub open spec fn first_section(docs: Seq<HoverDocument>, label: Seq<char>, i: int) -> Option<Seq<char>>
    decreases docs.len() - i,
{
    if i < 0 || i >= docs.len() {
        None
    } else {
        match doc_section_hover(docs[i].tree@, docs[i].index, label) {
            Some(m) => Some(m),
            None => first_section(docs, label, i + 1),
        }
    }
}

fn first_section_of(docs: &Vec<HoverDocument>, label: &str) -> (r: Option<String>)
    ensures
        match r {
            Some(m) => first_section(docs@, label@, 0) == Some(m@),
            None => first_section(docs@, label@, 0) is None,
        },
{
    let mut i: usize = 0;
    while i < docs.len()
        invariant
            i <= docs@.len(),
            first_section(docs@, label@, 0) == first_section(docs@, label@, i as int),
        decreases docs.len() - i,
    {
        let h = doc_section_hover_of(&docs[i], label);
        if h.is_some() {
            return h;
        }
        i = i + 1;
    }
    None
}

/// The heading that the reference definition of `label` points at: its
/// URL read as an anchor (see [`heading_label_spec`]).
pub open spec fn refdef_heading(es: Seq<ElementView>, label: Seq<char>) -> Option<Seq<char>> {
    match link_definition(es, label) {
        Some(d) => match def_destination(es, d) {
            Some((u, _)) => heading_label_spec(u),
            None => None,
        },
        None => None,
    }
}

fn refdef_heading_of(tree: &SyntaxTree, label: &str) -> (r: Option<String>)
    ensures
        match r {
            Some(h) => refdef_heading(tree@, label@) == Some(h@),
            None => refdef_heading(tree@, label@) is None,
        },
{
    match find_definition(tree, label) {
        Some(d) => match definition_destination(tree, d) {
            Some((u, _)) => heading_label_from_destination(u.as_str()),
            None => None,
        },
        None => None,
    }
}

/// The hover of link reference `label`: from the `i`-th document on, the
/// first whose definition of it points at a heading that some document
/// has a section hover for.
pub open spec fn reference_hover(docs: Seq<HoverDocument>, label: Seq<char>, i: int) -> Option<Seq<char>>
    decreases docs.len() - i,
{
    if i < 0 || i >= docs.len() {
        None
    } else {
        match refdef_heading(docs[i].tree@, label) {
            Some(h) => match first_section(docs, h, 0) {
                Some(m) => Some(m),
                None => reference_hover(docs, label, i + 1),
            },
            None => reference_hover(docs, label, i + 1),
        }
    }
}

fn reference_hover_of(docs: &Vec<HoverDocument>, label: &str) -> (r: Option<String>)
    ensures
        match r {
            Some(m) => reference_hover(docs@, label@, 0) == Some(m@),
            None => reference_hover(docs@, label@, 0) is None,
        },
{
    let mut i: usize = 0;
    while i < docs.len()
        invariant
            i <= docs@.len(),
            reference_hover(docs@, label@, 0) == reference_hover(docs@, label@, i as int),
        decreases docs.len() - i,
    {
        match refdef_heading_of(&docs[i].tree, label) {
            Some(h) => {
                let m = first_section_of(docs, h.as_str());
                if m.is_some() {
                    return m;
                }
            },
            None => {},
        }
        i = i + 1;
    }
    None
}

/// The declarations of the first `n` keys, key by key.
pub open spec fn keyed_declarations(idx: SymbolIndex, keys: Seq<Seq<char>>, n: int) -> Seq<(usize, usize)>
    decreases n,
{
    if n <= 0 {
        seq![]
    } else {
        keyed_declarations(idx, keys, n - 1) + lookup(idx.crossref_declarations@, keys[n - 1])
    }
}

fn keyed_declarations_of(idx: &SymbolIndex, keys: &Vec<String>) -> (r: Vec<(usize, usize)>)
    ensures
        r@ == keyed_declarations(*idx, key_views(keys@), keys@.len() as int),
{
    let ghost kv = key_views(keys@);
    let mut out: Vec<(usize, usize)> = Vec::new();
    let mut i: usize = 0;
    while i < keys.len()
        invariant
            i <= keys@.len(),
            kv == key_views(keys@),
            out@ == keyed_declarations(*idx, kv, i as int),
        decreases keys.len() - i,
    {
        assert(kv[i as int] == keys@[i as int]@);
        append_lookup(&mut out, &idx.crossref_declarations, keys[i].as_str());
        i = i + 1;
    }
    out
}

/// The hover of cross-reference `label` with search keys `keys`: from the
/// `i`-th document on, the first with an equation hover (over the
/// declarations of the keys) or else a section hover for the label.
pub open spec fn crossref_hover(docs: Seq<HoverDocument>, label: Seq<char>, keys: Seq<Seq<char>>, i: int) -> Option<
    Seq<char>,
>
    decreases docs.len() - i,
{
    if i < 0 || i >= docs.len() {
        None
    } else {
        let es = docs[i].tree@;
        let idx = docs[i].index;
        match equation_hover_spec(es, label, keyed_declarations(idx, keys, keys.len() as int)) {
            Some(m) => Some(m),
            None => match doc_section_hover(es, idx, label) {
                Some(m) => Some(m),
                None => crossref_hover(docs, label, keys, i + 1),
            },
        }
    }
}

fn crossref_hover_of(docs: &Vec<HoverDocument>, label: &str, keys: &Vec<String>) -> (r: Option<String>)
    ensures
        match r {
            Some(m) => crossref_hover(docs@, label@, key_views(keys@), 0) == Some(m@),
            None => crossref_hover(docs@, label@, key_views(keys@), 0) is None,
        },
{
    let ghost kv = key_views(keys@);
    let mut i: usize = 0;
    while i < docs.len()
        invariant
            i <= docs@.len(),
            kv == key_views(keys@),
            crossref_hover(docs@, label@, kv, 0) == crossref_hover(docs@, label@, kv, i as int),
        decreases docs.len() - i,
    {
        let doc = &docs[i];
        let decls = keyed_declarations_of(&doc.index, keys);
        let e = equation_hover_markdown(&doc.tree, label, &decls);
        if e.is_some() {
            return e;
        }
        let s = doc_section_hover_of(doc, label);
        if s.is_some() {
            return s;
        }
        i = i + 1;
    }
    None
}

/// The hover that the symbol `t` gives: a heading link its section, a link
/// reference the section its definition points at, a cross-reference its
/// equation or section; nothing for other symbols.
pub open spec fn target_hover_spec(docs: Seq<HoverDocument>, t: TargetView, keys: Seq<Seq<char>>) -> Option<Seq<char>> {
    match t {
        TargetView::HeadingLink(l) => first_section(docs, l, 0),
        TargetView::Reference(l, false) => reference_hover(docs, l, 0),
        TargetView::Crossref(l) => crossref_hover(docs, l, keys, 0),
        _ => None,
    }
}

/// The hover of the symbol `target` (see [`target_hover_spec`]).
pub fn target_hover(docs: &Vec<HoverDocument>, target: &SymbolTarget, keys: &Vec<String>) -> (r: Option<String>)
    ensures
        match r {
            Some(m) => target_hover_spec(docs@, target_view(*target), key_views(keys@)) == Some(m@),
            None => target_hover_spec(docs@, target_view(*target), key_views(keys@)) is None,
        },
{
    match target {
        SymbolTarget::HeadingLink(l) => first_section_of(docs, l.as_str()),
        SymbolTarget::Reference { label, is_footnote } => {
            if *is_footnote {
                None
            } else {
                reference_hover_of(docs, label.as_str())
            }
        },
        SymbolTarget::Crossref(l) => crossref_hover_of(docs, l.as_str(), keys),
        _ => None,
    }
}

/// The first footnote definition node, from index `i` on, spanning
/// `s..e`.
pub open spec fn footnote_node_from(es: Seq<ElementView>, s: int, e: int, i: int) -> Option<int>
    decreases es.len() - i,
{
    if i < 0 || i >= es.len() {
        None
    } else if !es[i].is_token && es[i].kind == SyntaxKind::FOOTNOTE_DEFINITION && es[i].start == s
        && es[i].end == e {
        Some(i)
    } else {
        footnote_node_from(es, s, e, i + 1)
    }
}

/// The footnote hover of `label` in one document: the trimmed content of
/// the footnote definition at the first definition span the index gives.
pub open spec fn doc_footnote_hover(es: Seq<ElementView>, idx: SymbolIndex, label: Seq<char>) -> Option<Seq<char>> {
    match first_span(lookup(idx.footnote_definitions@, label)) {
        None => None,
        Some(r) => match footnote_node_from(es, r.0 as int, r.1 as int, 0) {
            Some(j) => Some(trim_ws(footnote_def_content(es, j))),
            None => None,
        },
    }
}

fn doc_footnote_hover_of(doc: &HoverDocument, label: &str) -> (r: Option<String>)
    ensures
        match r {
            Some(m) => doc_footnote_hover(doc.tree@, doc.index, label@) == Some(m@),
            None => doc_footnote_hover(doc.tree@, doc.index, label@) is None,
        },
{
    let r = match first_lookup(&doc.index.footnote_definitions, label) {
        None => {
            return None;
        },
        Some(r) => r,
    };
    let tree = &doc.tree;
    let len = tree.len();
    let mut i: usize = 0;
    while i < len
        invariant
            i <= len == tree@.len(),
            tree@ == doc.tree@,
            first_span(lookup(doc.index.footnote_definitions@, label@)) == Some(r),
            footnote_node_from(tree@, r.0 as int, r.1 as int, 0) == footnote_node_from(
                tree@,
                r.0 as int,
                r.1 as int,
                i as int,
            ),
        decreases len - i,
    {
        if !tree.is_token(i) && tree.kind(i) == SyntaxKind::FOOTNOTE_DEFINITION && tree.start(i) == r.0
            && tree.end(i) == r.1 {
            assert(footnote_node_from(tree@, r.0 as int, r.1 as int, i as int) == Some(i as int));
            let content = text_without(tree, i, SyntaxKind::FOOTNOTE_REFERENCE, SyntaxKind::FOOTNOTE_REFERENCE);
            assert(content@ == footnote_def_content(tree@, i as int));
            let trimmed = vec_trim(&chars_of(content.as_str()));
            let mut out = String::new();
            push_chars(&mut out, &trimmed);
            assert(out@ =~= trimmed@);
            assert(out@ == trim_ws(footnote_def_content(tree@, i as int)));
            return Some(out);
        }
        i = i + 1;
    }
    None
}

/// The first footnote hover of `label`, from the `i`-th document on.
pub open spec fn footnote_hover(docs: Seq<HoverDocument>, label: Seq<char>, i: int) -> Option<Seq<char>>
    decreases docs.len() - i,
{
    if i < 0 || i >= docs.len() {
        None
    } else {
        match doc_footnote_hover(docs[i].tree@, docs[i].index, label) {
            Some(m) => Some(m),
            None => footnote_hover(docs, label, i + 1),
        }
    }
}

fn footnote_hover_of(docs: &Vec<HoverDocument>, label: &str) -> (r: Option<String>)
    ensures
        match r {
            Some(m) => footnote_hover(docs@, label@, 0) == Some(m@),
            None => footnote_hover(docs@, label@, 0) is None,
        },
{
    let mut i: usize = 0;
    while i < docs.len()
        invariant
            i <= docs@.len(),
            footnote_hover(docs@, label@, 0) == footnote_hover(docs@, label@, i as int),
        decreases docs.len() - i,
    {
        let h = doc_footnote_hover_of(&docs[i], label);
        if h.is_some() {
            return h;
        }
        i = i + 1;
    }
    None
}

/// The label of the first footnote reference at or above node `n`.
pub open spec fn footnote_label_from(es: Seq<ElementView>, n: int) -> Option<Seq<char>>
    decreases n,
{
    if n < 0 || n >= es.len() {
        None
    } else if (match reference_label_of(es, n) {
        Some((_, f)) => f,
        None => false,
    }) {
        match reference_label_of(es, n) {
            Some((l, _)) => Some(l),
            None => None,
        }
    } else if n == 0 || es[n].parent >= n || es[n].parent < 0 {
        None
    } else {
        footnote_label_from(es, es[n].parent)
    }
}

fn footnote_label_at(tree: &SyntaxTree, offset: usize) -> (r: Option<String>)
    requires
        offset <= tree@[0].end,
    ensures
        match r {
            Some(l) => footnote_label_from(tree@, node_at_offset(tree@, offset as int)) == Some(l@),
            None => footnote_label_from(tree@, node_at_offset(tree@, offset as int)) is None,
        },
{
    let start = find_node_at_offset(tree, offset);
    let mut n = start;
    loop
        invariant
            n < tree@.len(),
            start as int == node_at_offset(tree@, offset as int),
            footnote_label_from(tree@, start as int) == footnote_label_from(tree@, n as int),
        decreases n,
    {
        match extract_reference_label(tree, n) {
            Some((l, true)) => {
                return Some(l);
            },
            _ => {},
        }
        match tree.parent(n) {
            Some(p) => {
                n = p;
            },
            None => {
                return None;
            },
        }
    }
}

/// The link target under the cursor, for a linked-document preview: from
/// node `n` up, the first link's destination token (none when empty), or,
/// without a destination, `[ref]:` and its normalised reference label, or
/// its normalised text (none when empty).
pub open spec fn link_target_from(es: Seq<ElementView>, n: int) -> Option<Seq<char>>
    decreases n,
{
    if n < 0 || n >= es.len() {
        None
    } else if !es[n].is_token && es[n].kind == SyntaxKind::LINK && (first_child_node(
        es,
        n,
        SyntaxKind::LINK_DEST,
    ) is Some || first_child_node(es, n, SyntaxKind::LINK_REF) is Some || first_child_node(
        es,
        n,
        SyntaxKind::LINK_TEXT,
    ) is Some) {
        match first_child_node(es, n, SyntaxKind::LINK_DEST) {
            Some(d) => {
                let raw = destination_token(element_text(es, d));
                if raw.len() > 0 {
                    Some(raw)
                } else {
                    None
                }
            },
            None => {
                let l = match first_child_node(es, n, SyntaxKind::LINK_REF) {
                    Some(r) => normalized_label(child_token_text(es, r, SyntaxKind::TEXT, es[r].subtree_end)),
                    None => normalized_label(element_text(es, first_child_node(es, n, SyntaxKind::LINK_TEXT)->0)),
                };
                if l.len() > 0 {
                    Some("[ref]:"@ + l)
                } else {
                    None
                }
            },
        }
    } else if n == 0 || es[n].parent >= n || es[n].parent < 0 {
        None
    } else {
        link_target_from(es, es[n].parent)
    }
}

fn ref_target(label: &str) -> (r: Option<String>)
    ensures
        match r {
            Some(s) => normalized_label(label@).len() > 0 && s@ == "[ref]:"@ + normalized_label(label@),
            None => normalized_label(label@).len() == 0,
        },
{
    let norm = normalize_label(label);
    let cs = chars_of(norm.as_str());
    if cs.len() == 0 {
        return None;
    }
    let mut s = String::new();
    let prefix = chars_of("[ref]:");
    proof {
        reveal_strlit("[ref]:");
    }
    push_chars(&mut s, &prefix);
    push_chars(&mut s, &cs);
    Some(s)
}

/// The link target under the cursor at `offset` (see
/// [`link_target_from`]); `offset` lies within the text.
pub fn hovered_link_target(tree: &SyntaxTree, offset: usize) -> (r: Option<String>)
    requires
        offset <= tree@[0].end,
    ensures
        match r {
            Some(t) => link_target_from(tree@, node_at_offset(tree@, offset as int)) == Some(t@),
            None => link_target_from(tree@, node_at_offset(tree@, offset as int)) is None,
        },
{
    let start = find_node_at_offset(tree, offset);
    let mut n = start;
    loop
        invariant
            n < tree@.len(),
            start as int == node_at_offset(tree@, offset as int),
            link_target_from(tree@, start as int) == link_target_from(tree@, n as int),
        decreases n,
    {
        if !tree.is_token(n) && tree.kind(n) == SyntaxKind::LINK {
            match tree.first_child_node_of(n, SyntaxKind::LINK_DEST) {
                Some(d) => {
                    let raw = extract_first_destination_token(tree.text(d).as_str());
                    if chars_of(raw.as_str()).len() > 0 {
                        return Some(raw);
                    } else {
                        return None;
                    }
                },
                None => {},
            }
            match tree.first_child_node_of(n, SyntaxKind::LINK_REF) {
                Some(r) => {
                    let text = tree.child_tokens_text(r, SyntaxKind::TEXT);
                    return ref_target(text.as_str());
                },
                None => {},
            }
            match tree.first_child_node_of(n, SyntaxKind::LINK_TEXT) {
                Some(t) => {
                    return ref_target(tree.text(t).as_str());
                },
                None => {},
            }
        }
        match tree.parent(n) {
            Some(p) => {
                n = p;
            },
            None => {
                return None;
            },
        }
    }
}

/// The hover at `offset` in document `current` of `docs`: the hover of the
/// symbol there (see [`target_hover_spec`]); else `linked_preview`, the
/// preview of the document the link under the cursor points at (worked out
/// by the caller from [`hovered_link_target`]); else the content of the
/// footnote referenced there.
pub open spec fn hover_spec(
    docs: Seq<HoverDocument>,
    current: int,
    offset: int,
    keys: Seq<Seq<char>>,
    linked_preview: Option<Seq<char>>,
) -> Option<Seq<char>> {
    let es = docs[current].tree@;
    let n = node_at_offset(es, offset);
    let from_target = match target_at(es, n) {
        Some(t) => target_hover_spec(docs, t, keys),
        None => None,
    };
    if from_target is Some {
        from_target
    } else if linked_preview is Some {
        linked_preview
    } else {
        match footnote_label_from(es, n) {
            Some(l) => footnote_hover(docs, l, 0),
            None => None,
        }
    }
}

/// The hover at `offset` in document `current` (see [`hover_spec`]).
pub fn hover_markdown(
    docs: &Vec<HoverDocument>,
    current: usize,
    offset: usize,
    keys: &Vec<String>,
    linked_preview: Option<String>,
) -> (r: Option<String>)
    requires
        current < docs@.len(),
        offset <= docs@[current as int].tree@[0].end,
    ensures
        match r {
            Some(m) => hover_spec(
                docs@,
                current as int,
                offset as int,
                key_views(keys@),
                match linked_preview {
                    Some(p) => Some(p@),
                    None => None,
                },
            ) == Some(m@),
            None => hover_spec(
                docs@,
                current as int,
                offset as int,
                key_views(keys@),
                match linked_preview {
                    Some(p) => Some(p@),
                    None => None,
                },
            ) is None,
        },
{
    let tree = &docs[current].tree;
    match resolve_symbol_target_at_offset(tree, offset) {
        Some(t) => {
            let h = target_hover(docs, &t, keys);
            if h.is_some() {
                return h;
            }
        },
        None => {},
    }
    if linked_preview.is_some() {
        return linked_preview;
    }
    match footnote_label_at(tree, offset) {
        Some(l) => footnote_hover_of(docs, l.as_str()),
        None => None,
    }
}

} // verus!
