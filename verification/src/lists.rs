//! List refactorings: finding the innermost list at an offset, and the
//! edits that make a compact list loose (a blank line after every item but
//! the last) or a loose list compact (the blank lines between items
//! removed).
//!
//! The items of a list are its `LIST_ITEM` child nodes. Whether a list is
//! loose or compact is the list's own property, handed in by the caller.

use vstd::prelude::*;
use crate::locate::{child_elements, child_list};
use crate::syntax::{ElementView, SyntaxKind, SyntaxTree, children_of, nearest_of_kind, token_at_offset};
use crate::text::{Position, Range, TextEdit, offset_to_position, position_of, positions_fit};

verus! {

/// The innermost list around the right-biased token at `offset`.
pub open spec fn list_at(es: Seq<ElementView>, offset: int) -> Option<int> {
    match token_at_offset(es, offset) {
        Some(t) => nearest_of_kind(es, es[t].parent, SyntaxKind::LIST),
        None => None,
    }
}

/// The innermost `LIST` node enclosing the token at `offset` (see
/// [`list_at`]); `offset` lies within the text.
pub fn find_list_at_position(tree: &SyntaxTree, offset: usize) -> (r: Option<usize>)
    requires
        offset <= tree@[0].end,
    ensures
        r matches Some(l) ==> list_at(tree@, offset as int) == Some(l as int) && l < tree@.len(),
        r is None ==> list_at(tree@, offset as int) is None,
{
    match tree.token_at_offset(offset) {
        Some(t) => {
            let p = tree.parent_of_token(t);
            tree.nearest_ancestor_of_kind(p, SyntaxKind::LIST)
        },
        None => None,
    }
}

/// The LSP range of element `n`.
pub open spec fn element_range(es: Seq<ElementView>, text: Seq<char>, n: int) -> Range {
    Range { start: position_of(text, es[n].start), end: position_of(text, es[n].end) }
}

/// The edits that make a compact list loose: an inserted newline at the
/// end of every item but the last; none when `list` is not a `LIST` node
/// or the list is already loose.
pub fn convert_to_loose(tree: &SyntaxTree, list: usize, text: &str, loose: bool) -> (edits: Vec<
    TextEdit,
>)
    requires
        list < tree@.len(),
        positions_fit(text@),
    ensures
        ({
            let items = children_of(tree@, list as int, SyntaxKind::LIST_ITEM, false);
            if tree@[list as int].kind != SyntaxKind::LIST || loose || items.len() == 0 {
                edits@.len() == 0
            } else {
                &&& edits@.len() == items.len() - 1
                &&& forall|i: int|
                    0 <= i < edits@.len() ==> {
                        let p = position_of(text@, tree@[items[i]].end);
                        &&& (#[trigger] edits@[i]).range == Range { start: p, end: p }
                        &&& edits@[i].new_text@ == "\n"@
                    }
            }
        }),
{
    let mut edits: Vec<TextEdit> = Vec::new();
    if tree.kind(list) != SyntaxKind::LIST || loose {
        return edits;
    }
    let items = tree.children_of_kind(list, SyntaxKind::LIST_ITEM, false);
    let ghost spec_items = children_of(tree@, list as int, SyntaxKind::LIST_ITEM, false);
    proof {
        assert(items@.len() == spec_items.len());
        assert forall|a: int| 0 <= a < items@.len() implies spec_items[a] == items@[a] as int by {
            assert(items@.map_values(|j: usize| j as int)[a] == items@[a] as int);
        }
    }
    if items.len() == 0 {
        return edits;
    }
    let mut i: usize = 0;
    while i + 1 < items.len()
        invariant
            i < items@.len(),
            items@.len() == spec_items.len(),
            positions_fit(text@),
            forall|a: int| 0 <= a < items@.len() ==> spec_items[a] == items@[a] as int,
            forall|a: int| 0 <= a < items@.len() ==> #[trigger] items@[a] < tree@.len(),
            edits@.len() == i,
            forall|a: int|
                0 <= a < i ==> {
                    let p = position_of(text@, tree@[spec_items[a]].end);
                    &&& (#[trigger] edits@[a]).range == Range { start: p, end: p }
                    &&& edits@[a].new_text@ == "\n"@
                },
        decreases items.len() - i,
    {
        let end = tree.end(items[i]);
        let p: Position = offset_to_position(text, end);
        edits.push(TextEdit { range: Range { start: p, end: p }, new_text: "\n".to_string() });
        i = i + 1;
    }
    edits
}

/// Looking on from position `j` of the children `cs`, the first node that
/// is not a blank line is a list item.
pub open spec fn item_follows_nodes(es: Seq<ElementView>, cs: Seq<int>, j: int) -> bool
    decreases cs.len() - j,
{
    if j < 0 || j >= cs.len() {
        false
    } else if !es[cs[j]].is_token && es[cs[j]].kind != SyntaxKind::BLANK_LINE {
        es[cs[j]].kind == SyntaxKind::LIST_ITEM
    } else {
        item_follows_nodes(es, cs, j + 1)
    }
}

/// Looking on from position `j` of the children `cs`, the first element
/// (node or token) that is not a blank line is a list item node.
pub open spec fn item_follows_elements(es: Seq<ElementView>, cs: Seq<int>, j: int) -> bool
    decreases cs.len() - j,
{
    if j < 0 || j >= cs.len() {
        false
    } else if es[cs[j]].kind != SyntaxKind::BLANK_LINE {
        !es[cs[j]].is_token && es[cs[j]].kind == SyntaxKind::LIST_ITEM
    } else {
        item_follows_elements(es, cs, j + 1)
    }
}

/// The blank lines removed from position `j` of the list's children `cs`
/// on, `after_item` telling whether a list item came before: a blank-line
/// node when the next non-blank node is an item, a blank-line token when
/// the next non-blank element is an item.
pub open spec fn blank_removals(es: Seq<ElementView>, cs: Seq<int>, j: int, after_item: bool) -> Seq<
    int,
>
    decreases cs.len() - j,
{
    if j < 0 || j >= cs.len() {
        seq![]
    } else {
        let c = cs[j];
        if !es[c].is_token && es[c].kind == SyntaxKind::LIST_ITEM {
            blank_removals(es, cs, j + 1, true)
        } else if es[c].kind == SyntaxKind::BLANK_LINE && after_item && (if es[c].is_token {
            item_follows_elements(es, cs, j + 1)
        } else {
            item_follows_nodes(es, cs, j + 1)
        }) {
            seq![c] + blank_removals(es, cs, j + 1, after_item)
        } else {
            blank_removals(es, cs, j + 1, after_item)
        }
    }
}

/// The blank lines between the items of list `n`.
pub open spec fn compact_removals(es: Seq<ElementView>, n: int) -> Seq<int> {
    blank_removals(es, child_elements(es, n, es[n].subtree_end), 0, false)
}

fn item_follows(tree: &SyntaxTree, cs: &Vec<usize>, j: usize, nodes_only: bool) -> (b: bool)
    requires
        forall|a: int| 0 <= a < cs@.len() ==> #[trigger] cs@[a] < tree@.len(),
        j <= cs@.len(),
    ensures
        b == if nodes_only {
            item_follows_nodes(tree@, cs@.map_values(|x: usize| x as int), j as int)
        } else {
            item_follows_elements(tree@, cs@.map_values(|x: usize| x as int), j as int)
        },
{
    let ghost sc = cs@.map_values(|x: usize| x as int);
    let mut k = j;
    while k < cs.len()
        invariant
            j <= k <= cs@.len(),
            sc == cs@.map_values(|x: usize| x as int),
            forall|a: int| 0 <= a < cs@.len() ==> #[trigger] cs@[a] < tree@.len(),
            nodes_only ==> item_follows_nodes(tree@, sc, j as int) == item_follows_nodes(
                tree@,
                sc,
                k as int,
            ),
            !nodes_only ==> item_follows_elements(tree@, sc, j as int) == item_follows_elements(
                tree@,
                sc,
                k as int,
            ),
        decreases cs.len() - k,
    {
        let c = cs[k];
        assert(sc[k as int] == c as int);
        let kind = tree.kind(c);
        let tok = tree.is_token(c);
        if nodes_only {
            if !tok && kind != SyntaxKind::BLANK_LINE {
                return kind == SyntaxKind::LIST_ITEM;
            }
        } else {
            if kind != SyntaxKind::BLANK_LINE {
                return !tok && kind == SyntaxKind::LIST_ITEM;
            }
        }
        k = k + 1;
    }
    false
}

/// The edits that make a loose list compact: each blank line between two
/// items removed (see [`compact_removals`]); none when `list` is not a
/// `LIST` node or the list is already compact.
pub fn convert_to_compact(tree: &SyntaxTree, list: usize, text: &str, compact: bool) -> (edits: Vec<
    TextEdit,
>)
    requires
        list < tree@.len(),
        positions_fit(text@),
    ensures
        tree@[list as int].kind != SyntaxKind::LIST || compact ==> edits@.len() == 0,
        tree@[list as int].kind == SyntaxKind::LIST && !compact ==> {
            let rm = compact_removals(tree@, list as int);
            &&& edits@.len() == rm.len()
            &&& forall|i: int|
                0 <= i < edits@.len() ==> (#[trigger] edits@[i]).range == element_range(
                    tree@,
                    text@,
                    rm[i],
                ) && edits@[i].new_text@ == Seq::<char>::empty()
        },
{
    let mut edits: Vec<TextEdit> = Vec::new();
    if tree.kind(list) != SyntaxKind::LIST || compact {
        return edits;
    }
    let cs = child_list(tree, list);
    let ghost sc = cs@.map_values(|x: usize| x as int);
    let ghost rm = compact_removals(tree@, list as int);
    let ghost mut done: Seq<int> = seq![];
    let mut after_item = false;
    let mut j: usize = 0;
    while j < cs.len()
        invariant
            j <= cs@.len(),
            sc == cs@.map_values(|x: usize| x as int),
            sc == child_elements(tree@, list as int, tree@[list as int].subtree_end),
            rm == compact_removals(tree@, list as int),
            forall|a: int| 0 <= a < cs@.len() ==> list < #[trigger] cs@[a] < tree@.len(),
            positions_fit(text@),
            done + blank_removals(tree@, sc, j as int, after_item) == rm,
            edits@.len() == done.len(),
            forall|i: int|
                0 <= i < edits@.len() ==> (#[trigger] edits@[i]).range == element_range(
                    tree@,
                    text@,
                    done[i],
                ) && edits@[i].new_text@ == Seq::<char>::empty(),
        decreases cs.len() - j,
    {
        let c = cs[j];
        assert(sc[j as int] == c as int);
        let kind = tree.kind(c);
        let tok = tree.is_token(c);
        if !tok && kind == SyntaxKind::LIST_ITEM {
            after_item = true;
        } else if kind == SyntaxKind::BLANK_LINE && after_item && item_follows(tree, &cs, j + 1, !tok) {
            let start: Position = offset_to_position(text, tree.start(c));
            let end: Position = offset_to_position(text, tree.end(c));
            edits.push(TextEdit { range: Range { start, end }, new_text: String::new() });
            proof {
                assert(done.push(c as int) + blank_removals(tree@, sc, j + 1, after_item) =~= done
                    + (seq![c as int] + blank_removals(tree@, sc, j + 1, after_item)));
                done = done.push(c as int);
            }
        }
        j = j + 1;
    }
    proof {
        assert(done + Seq::<int>::empty() =~= done);
    }
    edits
}

} // verus!
