//! Document metadata: locating the YAML front matter in the syntax tree.

use vstd::prelude::*;
use crate::footnotes::is_node_of;
use crate::syntax::{ElementView, SyntaxKind, SyntaxTree};

verus! {

/// The first node with index below `hi` whose kind is `k`.
pub open spec fn first_node_below(es: Seq<ElementView>, k: SyntaxKind, hi: int) -> Option<int>
    decreases hi,
{
    if hi <= 0 {
        None
    } else {
        match first_node_below(es, k, hi - 1) {
            Some(j) => Some(j),
            None => if is_node_of(es, hi - 1, k) {
                Some(hi - 1)
            } else {
                None
            },
        }
    }
}

/// The first YAML metadata node of the tree, in document order.
pub fn find_yaml_metadata_node(tree: &SyntaxTree) -> (r: Option<usize>)
    ensures
        r matches Some(j) ==> first_node_below(tree@, SyntaxKind::YAML_METADATA, tree@.len() as int)
            == Some(j as int) && j < tree@.len(),
        r is None ==> first_node_below(tree@, SyntaxKind::YAML_METADATA, tree@.len() as int) is None,
{
    let len = tree.len();
    let mut found: Option<usize> = None;
    let mut j: usize = 0;
    while j < len
        invariant
            j <= len == tree@.len(),
            found matches Some(d) ==> first_node_below(tree@, SyntaxKind::YAML_METADATA, j as int)
                == Some(d as int) && d < len,
            found is None ==> first_node_below(tree@, SyntaxKind::YAML_METADATA, j as int) is None,
        decreases len - j,
    {
        if found.is_none() && tree.kind(j) == SyntaxKind::YAML_METADATA && !tree.is_token(j) {
            found = Some(j);
        }
        j = j + 1;
    }
    found
}

} // verus!
