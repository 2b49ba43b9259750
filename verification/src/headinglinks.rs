//! Implicit heading links: a shortcut link `[label]` whose label names a
//! heading, and the edit that makes it an explicit link to the heading's
//! identifier, `[label](#id)`.
//!
//! A shortcut link is a `LINK` node with link text and neither a
//! destination nor a reference label, or an unresolved reference written
//! `[label]` (not an image, no second bracketed label). A heading's
//! identifier is its implicit one: the pandoc slug of its text, numbered
//! `-1`, `-2`, ... for repeats in document order.

use vstd::prelude::*;
use crate::helpers::{heading_base, heading_base_of, heading_id, prior_count, tokens_text_of_kind};
use crate::syntax::{
    children_of, element_text, first_child_node, nearest_of_kind, token_at_offset, ElementView,
    SyntaxKind, SyntaxTree,
};
use crate::text::{
    chars_of, contains_seq, decimal, normalize_label, normalized_label, offset_to_position,
    position_of, positions_fit, string_from_chars, usize_to_decimal, vec_contains, vec_eq, vec_slice,
    Range, TextEdit,
};

verus! {

/// The normalised label of a shortcut link node `n`, when it is one and
/// the label is not empty.
pub open spec fn shortcut_label_spec(es: Seq<ElementView>, n: int) -> Option<Seq<char>> {
    if es[n].is_token {
        None
    } else if es[n].kind == SyntaxKind::LINK {
        if first_child_node(es, n, SyntaxKind::LINK_DEST) is Some || first_child_node(
            es,
            n,
            SyntaxKind::LINK_REF,
        ) is Some {
            None
        } else {
            match first_child_node(es, n, SyntaxKind::LINK_TEXT) {
                Some(t) => {
                    let l = normalized_label(element_text(es, t));
                    if l.len() > 0 {
                        Some(l)
                    } else {
                        None
                    }
                },
                None => None,
            }
        }
    } else if es[n].kind == SyntaxKind::UNRESOLVED_REFERENCE {
        let t = element_text(es, n);
        if t.len() >= 2 && t[0] == '[' && t.last() == ']' && !contains_seq(t, seq![']', '[']) {
            let l = normalized_label(t.subrange(1, t.len() - 1));
            if l.len() > 0 {
                Some(l)
            } else {
                None
            }
        } else {
            None
        }
    } else {
        None
    }
}

/// The shortcut label of node `n` (see [`shortcut_label_spec`]).
pub fn shortcut_label(tree: &SyntaxTree, n: usize) -> (r: Option<String>)
    requires
        n < tree@.len(),
    ensures
        match r {
            Some(l) => shortcut_label_spec(tree@, n as int) == Some(l@),
            None => shortcut_label_spec(tree@, n as int) is None,
        },
{
    if tree.is_token(n) {
        return None;
    }
    let k = tree.kind(n);
    if k == SyntaxKind::LINK {
        if tree.first_child_node_of(n, SyntaxKind::LINK_DEST).is_some() || tree.first_child_node_of(
            n,
            SyntaxKind::LINK_REF,
        ).is_some() {
            return None;
        }
        match tree.first_child_node_of(n, SyntaxKind::LINK_TEXT) {
            Some(t) => {
                let l = normalize_label(tree.text(t).as_str());
                if chars_of(l.as_str()).len() > 0 {
                    Some(l)
                } else {
                    None
                }
            },
            None => None,
        }
    } else if k == SyntaxKind::UNRESOLVED_REFERENCE {
        let t = chars_of(tree.text(n).as_str());
        let mut sep: Vec<char> = Vec::new();
        sep.push(']');
        sep.push('[');
        assert(sep@ =~= seq![']', '[']);
        if t.len() >= 2 && t[0] == '[' && t[t.len() - 1] == ']' && !vec_contains(&t, &sep) {
            let inner = string_from_chars(&vec_slice(&t, 1, t.len() - 1));
            let l = normalize_label(inner.as_str());
            if chars_of(l.as_str()).len() > 0 {
                Some(l)
            } else {
                None
            }
        } else {
            None
        }
    } else {
        None
    }
}

/// The nearest of `n` and its ancestors that is a shortcut link.
pub open spec fn shortcut_from(es: Seq<ElementView>, n: int) -> Option<int>
    decreases n,
{
    if n < 0 || n >= es.len() {
        None
    } else if shortcut_label_spec(es, n) is Some {
        Some(n)
    } else if n == 0 || es[n].parent >= n || es[n].parent < 0 {
        None
    } else {
        shortcut_from(es, es[n].parent)
    }
}

/// The shortcut link around the right-biased token at `offset`, looking
/// from the token's parent up; `offset` lies within the text.
pub fn find_implicit_heading_link_at_position(tree: &SyntaxTree, offset: usize) -> (r: Option<usize>)
    requires
        offset <= tree@[0].end,
    ensures
        r == match token_at_offset(tree@, offset as int) {
            Some(t) => match shortcut_from(tree@, tree@[t].parent) {
                Some(n) => Some(n as usize),
                None => None::<usize>,
            },
            None => None,
        },
{
    let t = match tree.token_at_offset(offset) {
        Some(t) => t,
        None => {
            return None;
        },
    };
    let start = tree.parent_of_token(t);
    let mut n = start;
    loop
        invariant
            n < tree@.len(),
            start as int == tree@[t as int].parent,
            t < tree@.len(),
            token_at_offset(tree@, offset as int) == Some(t as int),
            shortcut_from(tree@, start as int) == shortcut_from(tree@, n as int),
        decreases n,
    {
        if shortcut_label(tree, n).is_some() {
            return Some(n);
        }
        match tree.parent(n) {
            Some(p) => {
                n = p;
            },
            None => {
                return None;
            },
        }
    }
}

/// The normalised text of heading `h`'s content, when `h` is a heading
/// with content.
pub open spec fn heading_clean(es: Seq<ElementView>, h: int) -> Option<Seq<char>> {
    if es[h].is_token || es[h].kind != SyntaxKind::HEADING {
        None
    } else {
        let cs = children_of(es, h, SyntaxKind::HEADING_CONTENT, false);
        if cs.len() == 0 {
            None
        } else {
            Some(normalized_label(tokens_text_of_kind(es, cs[0], es[cs[0]].subtree_end, SyntaxKind::TEXT)))
        }
    }
}

/// Heading `h` has an identifier and its text, normalised, is `label`.
pub open spec fn heading_named(es: Seq<ElementView>, h: int, label: Seq<char>) -> bool {
    heading_base(es, h) is Some && heading_clean(es, h) == Some(label)
}

fn heading_clean_of(tree: &SyntaxTree, h: usize) -> (r: Option<String>)
    requires
        h < tree@.len(),
    ensures
        match r {
            Some(c) => heading_clean(tree@, h as int) == Some(c@),
            None => heading_clean(tree@, h as int) is None,
        },
{
    if tree.is_token(h) || tree.kind(h) != SyntaxKind::HEADING {
        return None;
    }
    let cs = tree.children_of_kind(h, SyntaxKind::HEADING_CONTENT, false);
    proof {
        assert(cs@.len() == children_of(tree@, h as int, SyntaxKind::HEADING_CONTENT, false).len());
    }
    if cs.len() == 0 {
        return None;
    }
    proof {
        assert(cs@.map_values(|j: usize| j as int)[0] == cs@[0] as int);
    }
    let c = cs[0];
    let hi = tree.subtree_end(c);
    let mut raw = String::new();
    let mut j = c;
    while j < hi
        invariant
            c <= j <= hi <= tree@.len(),
            hi == tree@[c as int].subtree_end,
            raw@ == tokens_text_of_kind(tree@, c as int, j as int, SyntaxKind::TEXT),
        decreases hi - j,
    {
        if tree.is_token(j) && tree.kind(j) == SyntaxKind::TEXT {
            raw.append(tree.token_text(j));
        }
        j = j + 1;
    }
    Some(normalize_label(raw.as_str()))
}

/// The implicit identifier of heading `h`, numbering from the root.
fn heading_id_of(tree: &SyntaxTree, h: usize) -> (r: Option<Vec<char>>)
    requires
        h < tree@.len(),
    ensures
        match r {
            Some(id) => heading_id(tree@, 0, h as int) == Some(id@),
            None => heading_id(tree@, 0, h as int) is None,
        },
{
    let base = match heading_base_of(tree, h) {
        Some(b) => b,
        None => {
            return None;
        },
    };
    let mut count: usize = 0;
    let mut i: usize = 0;
    while i < h
        invariant
            i <= h < tree@.len(),
            heading_base(tree@, h as int) == Some(base@),
            count == prior_count(tree@, 0, i as int, base@),
            count <= i,
        decreases h - i,
    {
        match heading_base_of(tree, i) {
            Some(b) => {
                if vec_eq(&b, &base) {
                    count = count + 1;
                }
            },
            None => {},
        }
        i = i + 1;
    }
    if count == 0 {
        Some(base)
    } else {
        let mut v = vec_slice(&base, 0, base.len());
        assert(v@ =~= base@);
        v.push('-');
        let d = usize_to_decimal(count);
        let mut t: usize = 0;
        while t < d.len()
            invariant
                t <= d.len(),
                v@ == base@ + seq!['-'] + d@.take(t as int),
            decreases d.len() - t,
        {
            v.push(d[t]);
            t = t + 1;
            assert(v@ =~= base@ + seq!['-'] + d@.take(t as int));
        }
        assert(d@.take(d.len() as int) =~= d@);
        Some(v)
    }
}

/// The first heading, in document order, whose text names `label`.
pub open spec fn first_named_heading(es: Seq<ElementView>, label: Seq<char>, hi: int) -> Option<int>
    decreases hi,
{
    if hi <= 0 {
        None
    } else {
        match first_named_heading(es, label, hi - 1) {
            Some(h) => Some(h),
            None => if heading_named(es, hi - 1, label) {
                Some(hi - 1)
            } else {
                None
            },
        }
    }
}

/// The edit that makes shortcut link `link` explicit: its text followed
/// by `(#id)`, `id` the identifier of the first heading that its label
/// names; none when `link` is no shortcut link, no heading is named, or
/// the link's text is not `[...]`.
pub open spec fn explicit_link_spec(es: Seq<ElementView>, text: Seq<char>, link: int) -> Option<(Range, Seq<char>)> {
    match shortcut_label_spec(es, link) {
        None => None,
        Some(label) => match first_named_heading(es, label, es.len() as int) {
            None => None,
            Some(h) => {
                let raw = element_text(es, link);
                if raw.len() > 0 && raw[0] == '[' && raw.last() == ']' {
                    Some(
                        (
                            Range {
                                start: position_of(text, es[link].start),
                                end: position_of(text, es[link].end),
                            },
                            raw + "(#"@ + heading_id(es, 0, h)->0 + ")"@,
                        ),
                    )
                } else {
                    None
                }
            },
        },
    }
}

/// The edits that turn an implicit heading link into an explicit one (see
/// [`explicit_link_spec`]): one edit, or none.
pub fn convert_to_explicit_heading_link(tree: &SyntaxTree, link: usize, text: &str) -> (edits: Vec<TextEdit>)
    requires
        link < tree@.len(),
        positions_fit(text@),
    ensures
        match explicit_link_spec(tree@, text@, link as int) {
            Some((range, new_text)) => edits@.len() == 1 && edits@[0].range == range
                && edits@[0].new_text@ == new_text,
            None => edits@.len() == 0,
        },
{
    let mut edits: Vec<TextEdit> = Vec::new();
    let label = match shortcut_label(tree, link) {
        Some(l) => l,
        None => {
            return edits;
        },
    };
    let len = tree.len();
    let mut h: usize = 0;
    while h < len
        invariant
            h <= len == tree@.len(),
            shortcut_label_spec(tree@, link as int) == Some(label@),
            first_named_heading(tree@, label@, h as int) is None,
        ensures
            h <= len,
            first_named_heading(tree@, label@, h as int) is None,
            h < len ==> heading_named(tree@, h as int, label@),
        decreases len - h,
    {
        let named = match heading_base_of(tree, h) {
            Some(_) => match heading_clean_of(tree, h) {
                Some(c) => vec_eq(&chars_of(c.as_str()), &chars_of(label.as_str())),
                None => false,
            },
            None => false,
        };
        if named {
            break;
        }
        h = h + 1;
    }
    if h == len {
        return edits;
    }
    proof {
        assert(first_named_heading(tree@, label@, h + 1) == Some(h as int));
        lemma_first_named_stays(tree@, label@, h as int, tree@.len() as int);
    }
    let id = match heading_id_of(tree, h) {
        Some(id) => id,
        None => {
            return edits;
        },
    };
    let raw = chars_of(tree.text(link).as_str());
    if !(raw.len() > 0 && raw[0] == '[' && raw[raw.len() - 1] == ']') {
        return edits;
    }
    let mut out = vec_slice(&raw, 0, raw.len());
    assert(out@ =~= raw@);
    out.push('(');
    out.push('#');
    let ghost head = out@;
    let mut t: usize = 0;
    while t < id.len()
        invariant
            t <= id@.len(),
            out@ == head + id@.take(t as int),
        decreases id.len() - t,
    {
        out.push(id[t]);
        t = t + 1;
        assert(id@.take(t as int) =~= id@.take(t - 1).push(id@[t - 1]));
    }
    assert(id@.take(t as int) =~= id@);
    out.push(')');
    assert(out@ =~= raw@ + "(#"@ + id@ + ")"@) by {
        reveal_strlit("(#");
        reveal_strlit(")");
    }
    let start = offset_to_position(text, tree.start(link));
    let end = offset_to_position(text, tree.end(link));
    edits.push(TextEdit { range: Range { start, end }, new_text: string_from_chars(&out) });
    edits
}

proof fn lemma_first_named_stays(es: Seq<ElementView>, label: Seq<char>, h: int, hi: int)
    requires
        0 <= h < hi,
        first_named_heading(es, label, h + 1) == Some(h),
    ensures
        first_named_heading(es, label, hi) == Some(h),
    decreases hi - h,
{
    if hi > h + 1 {
        lemma_first_named_stays(es, label, h, hi - 1);
    }
}

} // verus!
