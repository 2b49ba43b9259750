//! Locating elements by offset: the covering element of an empty range
//! (the deepest element whose range holds the offset, preferring the
//! element that ends there) and the node at an offset.

use vstd::prelude::*;
use crate::syntax::{ElementView, SyntaxTree};

verus! {

/// All direct children (nodes and tokens) of `n` with index below `hi`,
/// ascending.
pub open spec fn child_elements(es: Seq<ElementView>, n: int, hi: int) -> Seq<int>
    decreases hi - n,
{
    if hi <= n + 1 {
        seq![]
    } else if es[hi - 1].parent == n {
        child_elements(es, n, hi - 1).push(hi - 1)
    } else {
        child_elements(es, n, hi - 1)
    }
}

/// Element `c` holds offset `o` strictly inside its range.
pub open spec fn straddles(es: Seq<ElementView>, c: int, o: int) -> bool {
    es[c].start < o < es[c].end
}

/// The first of `cs` that holds `o` strictly inside.
pub open spec fn first_straddling(es: Seq<ElementView>, cs: Seq<int>, o: int) -> Option<int>
    decreases cs.len(),
{
    if cs.len() == 0 {
        None
    } else if straddles(es, cs[0], o) {
        Some(cs[0])
    } else {
        first_straddling(es, cs.drop_first(), o)
    }
}

/// How many of `cs` end at or before `o`.
pub open spec fn count_ending_by(es: Seq<ElementView>, cs: Seq<int>, o: int) -> nat
    decreases cs.len(),
{
    if cs.len() == 0 {
        0
    } else {
        count_ending_by(es, cs.drop_last(), o) + if es[cs.last()].end <= o {
            1nat
        } else {
            0nat
        }
    }
}

/// The child of node `n` that covers the empty range at `o`: the child
/// holding `o` strictly inside; otherwise, of the children ending at or
/// before `o`, the last one (the first child when there are none), when
/// its range holds `o`.
pub open spec fn cover_step(es: Seq<ElementView>, n: int, o: int) -> Option<int> {
    let cs = child_elements(es, n, es[n].subtree_end);
    match first_straddling(es, cs, o) {
        Some(c) => Some(c),
        None => {
            let m = count_ending_by(es, cs, o);
            let idx = if m == 0 {
                0
            } else {
                m - 1
            };
            if idx < cs.len() && es[cs[idx]].start <= o <= es[cs[idx]].end {
                Some(cs[idx])
            } else {
                None
            }
        },
    }
}

/// The deepest element covering the empty range at `o`, descending from
/// `n`: a token, or a node none of whose children covers it.
pub open spec fn covering(es: Seq<ElementView>, n: int, o: int) -> int
    decreases es.len() - n,
{
    if n < 0 || n >= es.len() || es[n].is_token {
        n
    } else {
        match cover_step(es, n, o) {
            Some(c) => if n < c < es.len() {
                covering(es, c, o)
            } else {
                n
            },
            None => n,
        }
    }
}

/// The node at offset `o` (`find_node_at_offset`): the covering element,
/// or its parent when that is a token.
pub open spec fn node_at_offset(es: Seq<ElementView>, o: int) -> int {
    let c = covering(es, 0, o);
    if es[c].is_token {
        es[c].parent
    } else {
        c
    }
}

/// The children of node `n`, all kinds, in order.
pub(crate) fn child_list(tree: &SyntaxTree, n: usize) -> (cs: Vec<usize>)
    requires
        n < tree@.len(),
    ensures
        cs@.map_values(|j: usize| j as int) == child_elements(tree@, n as int, tree@[n as int].subtree_end),
        forall|a: int| 0 <= a < cs@.len() ==> n < #[trigger] cs@[a] < tree@.len(),
{
    let hi = tree.subtree_end(n);
    let mut cs: Vec<usize> = Vec::new();
    let mut j = n + 1;
    while j < hi
        invariant
            n < j <= hi <= tree@.len(),
            hi == tree@[n as int].subtree_end,
            cs@.map_values(|j: usize| j as int) == child_elements(tree@, n as int, j as int),
            forall|a: int| 0 <= a < cs@.len() ==> n < #[trigger] cs@[a] < j,
        decreases hi - j,
    {
        if tree.parent(j) matches Some(p) && p == n {
            cs.push(j);
            assert(cs@.map_values(|j: usize| j as int) =~= child_elements(tree@, n as int, j as int).push(
                j as int,
            ));
        }
        j = j + 1;
    }
    cs
}

/// One descent step of the covering lookup (see [`cover_step`]).
fn cover_step_of(tree: &SyntaxTree, n: usize, o: usize) -> (r: Option<usize>)
    requires
        n < tree@.len(),
    ensures
        r matches Some(c) ==> cover_step(tree@, n as int, o as int) == Some(c as int) && n < c < tree@.len(),
        r is None ==> cover_step(tree@, n as int, o as int) is None,
{
    let cs = child_list(tree, n);
    let ghost spec_cs = child_elements(tree@, n as int, tree@[n as int].subtree_end);
    proof {
        assert(spec_cs.skip(0) =~= spec_cs);
        assert forall|a: int| 0 <= a < cs@.len() implies spec_cs[a] == cs@[a] as int by {
            assert(cs@.map_values(|j: usize| j as int)[a] == cs@[a] as int);
        }
    }
    let mut k: usize = 0;
    while k < cs.len()
        invariant
            k <= cs@.len() == spec_cs.len(),
            n < tree@.len(),
            spec_cs == child_elements(tree@, n as int, tree@[n as int].subtree_end),
            forall|a: int| 0 <= a < cs@.len() ==> n < #[trigger] cs@[a] < tree@.len(),
            forall|a: int| 0 <= a < cs@.len() ==> spec_cs[a] == cs@[a] as int,
            first_straddling(tree@, spec_cs, o as int) == first_straddling(tree@, spec_cs.skip(k as int), o as int),
        decreases cs.len() - k,
    {
        assert(spec_cs.skip(k as int).drop_first() =~= spec_cs.skip(k + 1));
        let c = cs[k];
        assert(spec_cs.skip(k as int)[0] == c as int);
        if tree.start(c) < o && o < tree.end(c) {
            proof {
                assert(straddles(tree@, c as int, o as int));
                assert(spec_cs.skip(k as int).len() > 0);
                assert(first_straddling(tree@, spec_cs.skip(k as int), o as int) == Some(c as int));
            }
            return Some(c);
        }
        k = k + 1;
    }
    assert(spec_cs.skip(k as int) =~= Seq::<int>::empty());
    let mut m: usize = 0;
    let mut q: usize = 0;
    while q < cs.len()
        invariant
            q <= cs@.len() == spec_cs.len(),
            n < tree@.len(),
            spec_cs == child_elements(tree@, n as int, tree@[n as int].subtree_end),
            first_straddling(tree@, spec_cs, o as int) is None,
            forall|a: int| 0 <= a < cs@.len() ==> n < #[trigger] cs@[a] < tree@.len(),
            forall|a: int| 0 <= a < cs@.len() ==> spec_cs[a] == cs@[a] as int,
            m == count_ending_by(tree@, spec_cs.take(q as int), o as int),
            m <= q,
        decreases cs.len() - q,
    {
        assert(spec_cs.take(q + 1).drop_last() =~= spec_cs.take(q as int));
        if tree.end(cs[q]) <= o {
            m = m + 1;
        }
        q = q + 1;
    }
    assert(spec_cs.take(q as int) =~= spec_cs);
    assert(spec_cs.skip(k as int) =~= Seq::<int>::empty());
    let idx = if m == 0 {
        0
    } else {
        m - 1
    };
    if idx < cs.len() && tree.start(cs[idx]) <= o && o <= tree.end(cs[idx]) {
        Some(cs[idx])
    } else {
        None
    }
}

/// The deepest element covering the empty range at `offset` (see
/// [`covering`]); `offset` lies within the text.
pub fn covering_element(tree: &SyntaxTree, offset: usize) -> (r: usize)
    requires
        offset <= tree@[0].end,
    ensures
        r as int == covering(tree@, 0, offset as int),
        r < tree@.len(),
{
    let _ = tree.len();
    let mut n: usize = 0;
    loop
        invariant
            n < tree@.len(),
            covering(tree@, n as int, offset as int) == covering(tree@, 0, offset as int),
        decreases tree@.len() - n,
    {
        if tree.is_token(n) {
            return n;
        }
        match cover_step_of(tree, n, offset) {
            Some(c) => {
                n = c;
            },
            None => {
                return n;
            },
        }
    }
}

/// The node at `offset` (see [`node_at_offset`]); `offset` lies within the
/// text.
pub fn find_node_at_offset(tree: &SyntaxTree, offset: usize) -> (r: usize)
    requires
        offset <= tree@[0].end,
    ensures
        r as int == node_at_offset(tree@, offset as int),
        r < tree@.len(),
        !tree@[r as int].is_token,
{
    let c = covering_element(tree, offset);
    if tree.is_token(c) {
        tree.parent_of_token(c)
    } else {
        c
    }
}

} // verus!
