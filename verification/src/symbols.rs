//! The symbol under the cursor. At the offset itself: the label of a
//! reference or footnote definition, or an example label (`(@label)`).
//! Otherwise, walking up from the node at the offset, the first node that
//! is (or lies in) a citation, a cross-reference, a chunk label option, an
//! attribute with an identifier (`{#id}`: a heading id on a heading, else a
//! cross-reference), a link to a heading anchor (`[text](#id)`), or a
//! reference-link label or footnote reference.

use vstd::prelude::*;
use crate::helpers::{
    first_child_token, first_child_token_text,
    chunk_label_key_of, citation_key_of, crossref_key_of, definition_label_of,
    extract_chunk_label_key, extract_citation_key, extract_crossref_key, extract_definition_label,
    extract_reference_label, reference_label_of,
};
use crate::locate::{find_node_at_offset, node_at_offset};
use crate::syntax::{children_of, element_text, first_child_node, nearest_of_kind, ElementView, SyntaxKind, SyntaxTree};
use crate::text::{chars_of, is_whitespace, is_ws, normalize_label, normalized_label, str_eq, string_from_chars, trim_ws, vec_slice, vec_trim};

verus! {

/// A symbol that rename, references and definition lookups work on.
#[derive(Debug, PartialEq, Eq)]
pub enum SymbolTarget {
    Citation(String),
    Crossref(String),
    ChunkLabel(String),
    ExampleLabel(String),
    HeadingLink(String),
    HeadingId(String),
    Reference { label: String, is_footnote: bool },
}

/// The view of a symbol target.
pub enum TargetView {
    Citation(Seq<char>),
    Crossref(Seq<char>),
    ChunkLabel(Seq<char>),
    ExampleLabel(Seq<char>),
    HeadingLink(Seq<char>),
    HeadingId(Seq<char>),
    Reference(Seq<char>, bool),
}

/// The view of a symbol target.
pub open spec fn target_view(t: SymbolTarget) -> TargetView {
    match t {
        SymbolTarget::Citation(k) => TargetView::Citation(k@),
        SymbolTarget::Crossref(k) => TargetView::Crossref(k@),
        SymbolTarget::ChunkLabel(k) => TargetView::ChunkLabel(k@),
        SymbolTarget::ExampleLabel(k) => TargetView::ExampleLabel(k@),
        SymbolTarget::HeadingLink(k) => TargetView::HeadingLink(k@),
        SymbolTarget::HeadingId(k) => TargetView::HeadingId(k@),
        SymbolTarget::Reference { label, is_footnote } => TargetView::Reference(label@, is_footnote),
    }
}

/// The anchor a link node points at: for a `LINK` node whose destination
/// is `#` and a non-empty id (after trimming), that id.
pub open spec fn heading_link_of(es: Seq<ElementView>, n: int) -> Option<Seq<char>> {
    if es[n].is_token || es[n].kind != SyntaxKind::LINK {
        None
    } else {
        match first_child_node(es, n, SyntaxKind::LINK_DEST) {
            Some(d) => {
                let t = trim_ws(element_text(es, d));
                if t.len() > 1 && t[0] == '#' {
                    Some(t.drop_first())
                } else {
                    None
                }
            },
            None => None,
        }
    }
}

/// Where the identifier of an attribute text ends: the first whitespace
/// or `}` from `i` on.
pub open spec fn id_end(t: Seq<char>, i: int) -> int
    decreases t.len() - i,
{
    if i < 0 || i >= t.len() || is_ws(t[i]) || t[i] == '}' {
        i
    } else {
        id_end(t, i + 1)
    }
}

/// The identifier of an attribute text that opens with `{#`: the
/// characters after it up to whitespace or `}`, when there are any.
pub open spec fn attribute_id(t: Seq<char>) -> Option<Seq<char>> {
    if t.len() >= 3 && t[0] == '{' && t[1] == '#' && id_end(t, 2) > 2 {
        Some(t.subrange(2, id_end(t, 2)))
    } else {
        None
    }
}

/// For an attribute node with an identifier: the identifier, and whether
/// the attribute belongs to a heading.
pub open spec fn attribute_key_of(es: Seq<ElementView>, n: int) -> Option<(Seq<char>, bool)> {
    if es[n].is_token || es[n].kind != SyntaxKind::ATTRIBUTE {
        None
    } else {
        match attribute_id(trim_ws(element_text(es, n))) {
            Some(id) => Some((id, n > 0 && es[es[n].parent].kind == SyntaxKind::HEADING)),
            None => None,
        }
    }
}

/// The key of the example label (`(@key)`) at or above `n`.
pub open spec fn example_key_of(es: Seq<ElementView>, n: int) -> Option<Seq<char>> {
    match nearest_of_kind(es, n, SyntaxKind::EXAMPLE_LABEL) {
        Some(c) => first_child_token_text(es, c, SyntaxKind::EXAMPLE_LABEL_KEY),
        None => None,
    }
}

/// The definition whose label lies at node `n`: a footnote definition
/// whose own label token is there (`n` is the definition itself), or a
/// reference definition whose label link (`[label]`) holds `n`.
pub open spec fn definition_target_of(es: Seq<ElementView>, n: int) -> Option<(Seq<char>, bool)> {
    if !es[n].is_token && es[n].kind == SyntaxKind::FOOTNOTE_DEFINITION {
        match definition_label_of(es, n) {
            Some(l) => Some((l, true)),
            None => None,
        }
    } else {
        match nearest_of_kind(es, n, SyntaxKind::LINK) {
            Some(p) => if 0 < p && es[es[p].parent].kind == SyntaxKind::REFERENCE_DEFINITION {
                match definition_label_of(es, es[p].parent) {
                    Some(l) => Some((l, false)),
                    None => None,
                }
            } else {
                None
            },
            None => None,
        }
    }
}

/// The target found at node `n`, or, failing that, at its ancestors.
pub open spec fn target_from(es: Seq<ElementView>, n: int) -> Option<TargetView>
    decreases n,
{
    if n < 0 || n >= es.len() {
        None
    } else if citation_key_of(es, n) is Some {
        Some(TargetView::Citation(citation_key_of(es, n)->0))
    } else if crossref_key_of(es, n) is Some {
        Some(TargetView::Crossref(crossref_key_of(es, n)->0))
    } else if chunk_label_key_of(es, n) is Some {
        Some(TargetView::ChunkLabel(chunk_label_key_of(es, n)->0))
    } else if attribute_key_of(es, n) is Some {
        let (id, in_heading) = attribute_key_of(es, n)->0;
        if in_heading {
            Some(TargetView::HeadingId(id))
        } else {
            Some(TargetView::Crossref(id))
        }
    } else if heading_link_of(es, n) is Some {
        Some(TargetView::HeadingLink(heading_link_of(es, n)->0))
    } else if reference_label_of(es, n) is Some {
        let (label, is_footnote) = reference_label_of(es, n)->0;
        Some(TargetView::Reference(label, is_footnote))
    } else if n == 0 || es[n].parent >= n || es[n].parent < 0 {
        None
    } else {
        target_from(es, es[n].parent)
    }
}

/// The target at node `n`: a definition label there, else an example
/// label there, else what the walk up from `n` finds.
pub open spec fn target_at(es: Seq<ElementView>, n: int) -> Option<TargetView> {
    match definition_target_of(es, n) {
        Some((l, f)) => Some(TargetView::Reference(l, f)),
        None => match example_key_of(es, n) {
            Some(k) => Some(TargetView::ExampleLabel(k)),
            None => target_from(es, n),
        },
    }
}

fn attribute_id_of(t: &Vec<char>) -> (r: Option<Vec<char>>)
    ensures
        r matches Some(v) ==> attribute_id(t@) == Some(v@),
        r is None ==> attribute_id(t@) is None,
{
    if t.len() < 3 || t[0] != '{' || t[1] != '#' {
        return None;
    }
    let mut j: usize = 2;
    while j < t.len() && !is_whitespace(t[j]) && t[j] != '}'
        invariant
            2 <= j <= t@.len(),
            id_end(t@, 2) == id_end(t@, j as int),
        decreases t.len() - j,
    {
        j = j + 1;
    }
    if j == 2 {
        None
    } else {
        Some(vec_slice(t, 2, j))
    }
}

fn attribute_key_at(tree: &SyntaxTree, n: usize) -> (r: Option<(String, bool)>)
    requires
        n < tree@.len(),
    ensures
        r matches Some((k, h)) ==> attribute_key_of(tree@, n as int) == Some((k@, h)),
        r is None ==> attribute_key_of(tree@, n as int) is None,
{
    if tree.is_token(n) || tree.kind(n) != SyntaxKind::ATTRIBUTE {
        return None;
    }
    let t = vec_trim(&chars_of(tree.text(n).as_str()));
    match attribute_id_of(&t) {
        Some(id) => {
            let in_heading = match tree.parent(n) {
                Some(p) => tree.kind(p) == SyntaxKind::HEADING,
                None => false,
            };
            Some((string_from_chars(&id), in_heading))
        },
        None => None,
    }
}

fn example_key_at(tree: &SyntaxTree, n: usize) -> (r: Option<String>)
    requires
        n < tree@.len(),
    ensures
        r matches Some(k) ==> example_key_of(tree@, n as int) == Some(k@),
        r is None ==> example_key_of(tree@, n as int) is None,
{
    match tree.nearest_ancestor_of_kind(n, SyntaxKind::EXAMPLE_LABEL) {
        Some(c) => first_child_token(tree, c, SyntaxKind::EXAMPLE_LABEL_KEY),
        None => None,
    }
}

fn definition_target_at(tree: &SyntaxTree, n: usize) -> (r: Option<(String, bool)>)
    requires
        n < tree@.len(),
    ensures
        r matches Some((l, f)) ==> definition_target_of(tree@, n as int) == Some((l@, f)),
        r is None ==> definition_target_of(tree@, n as int) is None,
{
    if !tree.is_token(n) && tree.kind(n) == SyntaxKind::FOOTNOTE_DEFINITION {
        return match extract_definition_label(tree, n) {
            Some(l) => Some((l, true)),
            None => None,
        };
    }
    match tree.nearest_ancestor_of_kind(n, SyntaxKind::LINK) {
        Some(p) => {
            if p == 0 {
                return None;
            }
            let d = match tree.parent(p) {
                Some(d) => d,
                None => {
                    return None;
                },
            };
            if tree.kind(d) != SyntaxKind::REFERENCE_DEFINITION {
                return None;
            }
            match extract_definition_label(tree, d) {
                Some(l) => Some((l, false)),
                None => None,
            }
        },
        None => None,
    }
}

pub(crate) fn heading_link_at(tree: &SyntaxTree, n: usize) -> (r: Option<String>)
    requires
        n < tree@.len(),
    ensures
        match r {
            Some(k) => heading_link_of(tree@, n as int) == Some(k@),
            None => heading_link_of(tree@, n as int) is None,
        },
{
    if tree.is_token(n) || tree.kind(n) != SyntaxKind::LINK {
        return None;
    }
    match tree.first_child_node_of(n, SyntaxKind::LINK_DEST) {
        Some(d) => {
            let t = vec_trim(&chars_of(tree.text(d).as_str()));
            if t.len() > 1 && t[0] == '#' {
                let rest = vec_slice(&t, 1, t.len());
                assert(rest@ =~= t@.drop_first());
                Some(string_from_chars(&rest))
            } else {
                None
            }
        },
        None => None,
    }
}

/// The symbol at `offset` (see [`target_at`]), for the node at that
/// offset; `offset` lies within the text.
pub fn resolve_symbol_target_at_offset(tree: &SyntaxTree, offset: usize) -> (r: Option<SymbolTarget>)
    requires
        offset <= tree@[0].end,
    ensures
        match r {
            Some(t) => target_at(tree@, node_at_offset(tree@, offset as int)) == Some(target_view(t)),
            None => target_at(tree@, node_at_offset(tree@, offset as int)) is None,
        },
{
    let start = find_node_at_offset(tree, offset);
    if let Some((label, is_footnote)) = definition_target_at(tree, start) {
        return Some(SymbolTarget::Reference { label, is_footnote });
    }
    if let Some(k) = example_key_at(tree, start) {
        return Some(SymbolTarget::ExampleLabel(k));
    }
    let mut n = start;
    loop
        invariant
            n < tree@.len(),
            start as int == node_at_offset(tree@, offset as int),
            target_at(tree@, start as int) == target_from(tree@, start as int),
            target_from(tree@, start as int) == target_from(tree@, n as int),
        decreases n,
    {
        if let Some(k) = extract_citation_key(tree, n) {
            return Some(SymbolTarget::Citation(k));
        }
        if let Some(k) = extract_crossref_key(tree, n) {
            return Some(SymbolTarget::Crossref(k));
        }
        if let Some(k) = extract_chunk_label_key(tree, n) {
            return Some(SymbolTarget::ChunkLabel(k));
        }
        if let Some((id, in_heading)) = attribute_key_at(tree, n) {
            if in_heading {
                return Some(SymbolTarget::HeadingId(id));
            } else {
                return Some(SymbolTarget::Crossref(id));
            }
        }
        if let Some(k) = heading_link_at(tree, n) {
            return Some(SymbolTarget::HeadingLink(k));
        }
        if let Some((label, is_footnote)) = extract_reference_label(tree, n) {
            return Some(SymbolTarget::Reference { label, is_footnote });
        }
        match tree.parent(n) {
            Some(p) => {
                n = p;
            },
            None => {
                return None;
            },
        }
    }
}

/// The span of a reference label's value: from its first `TEXT` child to
/// the end of its last.
pub open spec fn label_value_span(es: Seq<ElementView>, r: int) -> Option<(usize, usize)> {
    let ks = children_of(es, r, SyntaxKind::TEXT, true);
    if ks.len() == 0 {
        None
    } else {
        Some((es[ks[0]].start as usize, es[ks.last()].end as usize))
    }
}

/// The label-value span that node `n` contributes for the normalised
/// label `norm`: a reference definition's link text, or the reference
/// label of a link or image written with one (`[text][label]`).
pub open spec fn reference_span_at(es: Seq<ElementView>, n: int, norm: Seq<char>) -> Option<(usize, usize)> {
    if es[n].is_token {
        None
    } else if es[n].kind == SyntaxKind::REFERENCE_DEFINITION {
        if definition_label_of(es, n) == Some(norm) {
            let links = children_of(es, n, SyntaxKind::LINK, false);
            let texts = children_of(es, links[0], SyntaxKind::LINK_TEXT, false);
            Some((es[texts[0]].start as usize, es[texts[0]].end as usize))
        } else {
            None
        }
    } else if es[n].kind == SyntaxKind::LINK || es[n].kind == SyntaxKind::IMAGE_LINK {
        match first_child_node(es, n, SyntaxKind::LINK_REF) {
            Some(r) => if reference_label_of(es, r) matches Some((l, _)) && l == norm {
                label_value_span(es, r)
            } else {
                None
            },
            None => None,
        }
    } else {
        None
    }
}

/// The spans of the elements with index below `hi`, in document order.
pub open spec fn reference_spans_below(es: Seq<ElementView>, norm: Seq<char>, hi: int) -> Seq<(usize, usize)>
    decreases hi,
{
    if hi <= 0 {
        seq![]
    } else {
        let prev = reference_spans_below(es, norm, hi - 1);
        match reference_span_at(es, hi - 1, norm) {
            Some(sp) => prev.push(sp),
            None => prev,
        }
    }
}

fn reference_span_of(tree: &SyntaxTree, n: usize, norm: &str) -> (r: Option<(usize, usize)>)
    requires
        n < tree@.len(),
    ensures
        r == reference_span_at(tree@, n as int, norm@),
{
    if tree.is_token(n) {
        return None;
    }
    let k = tree.kind(n);
    if k == SyntaxKind::REFERENCE_DEFINITION {
        match extract_definition_label(tree, n) {
            Some(l) => {
                if !str_eq(l.as_str(), norm) {
                    return None;
                }
                let links = tree.children_of_kind(n, SyntaxKind::LINK, false);
                proof {
                    assert(links@.len() == children_of(tree@, n as int, SyntaxKind::LINK, false).len());
                    assert(links@.map_values(|j: usize| j as int)[0] == links@[0] as int);
                }
                let texts = tree.children_of_kind(links[0], SyntaxKind::LINK_TEXT, false);
                proof {
                    assert(texts@.len() == children_of(tree@, links@[0] as int, SyntaxKind::LINK_TEXT, false).len());
                    assert(texts@.map_values(|j: usize| j as int)[0] == texts@[0] as int);
                }
                Some((tree.start(texts[0]), tree.end(texts[0])))
            },
            None => None,
        }
    } else if k == SyntaxKind::LINK || k == SyntaxKind::IMAGE_LINK {
        match tree.first_child_node_of(n, SyntaxKind::LINK_REF) {
            Some(r) => match extract_reference_label(tree, r) {
                Some((l, _)) => {
                    if !str_eq(l.as_str(), norm) {
                        return None;
                    }
                    let ks = tree.children_of_kind(r, SyntaxKind::TEXT, true);
                    let ghost sk = children_of(tree@, r as int, SyntaxKind::TEXT, true);
                    proof {
                        assert(ks@.len() == sk.len());
                    }
                    if ks.len() == 0 {
                        None
                    } else {
                        proof {
                            assert(ks@.map_values(|j: usize| j as int)[0] == ks@[0] as int);
                            assert(ks@.map_values(|j: usize| j as int)[ks@.len() - 1] == ks@[ks@.len() - 1] as int);
                        }
                        Some((tree.start(ks[0]), tree.end(ks[ks.len() - 1])))
                    }
                },
                None => None,
            },
            None => None,
        }
    } else {
        None
    }
}

/// The label-value spans of a link reference `label` (normalised): each
/// reference definition with that label, and each link or image that
/// names it as reference label, in document order; none for an empty
/// label. Shortcut and collapsed forms are not among them: those resolve
/// as heading links.
pub fn collect_reference_link_ranges(tree: &SyntaxTree, label: &str) -> (r: Vec<(usize, usize)>)
    ensures
        normalized_label(label@).len() == 0 ==> r@.len() == 0,
        normalized_label(label@).len() > 0 ==> r@ == reference_spans_below(
            tree@,
            normalized_label(label@),
            tree@.len() as int,
        ),
{
    let norm = normalize_label(label);
    let mut out: Vec<(usize, usize)> = Vec::new();
    if chars_of(norm.as_str()).len() == 0 {
        return out;
    }
    let len = tree.len();
    let mut n: usize = 0;
    while n < len
        invariant
            n <= len == tree@.len(),
            norm@ == normalized_label(label@),
            out@ == reference_spans_below(tree@, norm@, n as int),
        decreases len - n,
    {
        match reference_span_of(tree, n, norm.as_str()) {
            Some(sp) => out.push(sp),
            None => {},
        }
        n = n + 1;
    }
    out
}

} // verus!
