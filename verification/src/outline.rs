//! The document-symbol outline: headings nest under the nearest earlier
//! heading of a lower level, and tables and figures sit under the nearest
//! earlier heading; what has no such heading is top level.

use vstd::prelude::*;

verus! {

/// One outline entry, in document order.
#[derive(Clone, Copy, Debug, PartialEq, Eq, Structural)]
pub enum OutlineEntry {
    /// A heading of the given level.
    Heading(usize),
    /// A table or figure.
    Item,
}

/// Entry `j` can hold entry `i`: `j` is a heading, and `i` is an item or a
/// heading of a higher level.
pub open spec fn can_hold(es: Seq<OutlineEntry>, j: int, i: int) -> bool {
    match es[j] {
        OutlineEntry::Heading(lj) => match es[i] {
            OutlineEntry::Heading(li) => lj < li,
            OutlineEntry::Item => true,
        },
        OutlineEntry::Item => false,
    }
}

/// The last entry at index `k` or below that can hold entry `i`.
pub open spec fn holder_from(es: Seq<OutlineEntry>, i: int, k: int) -> Option<int>
    decreases k + 1,
{
    if k < 0 {
        None
    } else if can_hold(es, k, i) {
        Some(k)
    } else {
        holder_from(es, i, k - 1)
    }
}

/// The parent of entry `i`: the last earlier entry that can hold it.
pub open spec fn parent_spec(es: Seq<OutlineEntry>, i: int) -> Option<int> {
    holder_from(es, i, i - 1)
}

/// The level of entry `j` (0 for an item).
pub open spec fn level_of(es: Seq<OutlineEntry>, j: int) -> int {
    match es[j] {
        OutlineEntry::Heading(l) => l as int,
        OutlineEntry::Item => 0,
    }
}

/// Heading `j` is still open after the first `i` entries: every heading
/// between it and `i` has a higher level.
pub open spec fn is_open(es: Seq<OutlineEntry>, i: int, j: int) -> bool {
    &&& 0 <= j < i
    &&& es[j] is Heading
    &&& forall|m: int| j < m < i && #[trigger] es[m] is Heading ==> level_of(es, m) > level_of(es, j)
}

proof fn lemma_holder_from(es: Seq<OutlineEntry>, i: int, k: int)
    requires
        k < es.len(),
        0 <= i < es.len(),
    ensures
        match holder_from(es, i, k) {
            Some(p) => 0 <= p <= k && can_hold(es, p, i) && forall|m: int| p < m <= k ==> !can_hold(es, m, i),
            None => forall|m: int| 0 <= m <= k ==> !can_hold(es, m, i),
        },
    decreases k + 1,
{
    if k >= 0 && !can_hold(es, k, i) {
        lemma_holder_from(es, i, k - 1);
    }
}

/// Whether the top of `stack` is a heading of level `level` or deeper.
fn top_reaches(entries: &Vec<OutlineEntry>, stack: &Vec<usize>, level: usize) -> (b: bool)
    requires
        forall|q: int| 0 <= q < stack@.len() ==> #[trigger] stack@[q] < entries@.len(),
    ensures
        b == (stack@.len() > 0 && entries@[stack@.last() as int] is Heading && level_of(
            entries@,
            stack@.last() as int,
        ) >= level),
{
    if stack.len() == 0 {
        return false;
    }
    match entries[stack[stack.len() - 1]] {
        OutlineEntry::Heading(top) => top >= level,
        OutlineEntry::Item => false,
    }
}

/// The parent of each entry (see [`parent_spec`]), found with one stack
/// of open headings.
pub fn outline_parents(entries: &Vec<OutlineEntry>) -> (parents: Vec<Option<usize>>)
    ensures
        parents@.len() == entries@.len(),
        forall|i: int|
            0 <= i < entries@.len() ==> match #[trigger] parents@[i] {
                Some(p) => parent_spec(entries@, i) == Some(p as int),
                None => parent_spec(entries@, i) is None,
            },
{
    let ghost es = entries@;
    let mut parents: Vec<Option<usize>> = Vec::new();
    let mut stack: Vec<usize> = Vec::new();
    let mut i: usize = 0;
    while i < entries.len()
        invariant
            es == entries@,
            i <= es.len(),
            parents@.len() == i,
            forall|q: int|
                0 <= q < i ==> match #[trigger] parents@[q] {
                    Some(p) => parent_spec(es, q) == Some(p as int),
                    None => parent_spec(es, q) is None,
                },
            forall|q: int| 0 <= q < stack@.len() ==> is_open(es, i as int, #[trigger] stack@[q] as int),
            forall|a: int, b: int| 0 <= a < b < stack@.len() ==> #[trigger] stack@[a] < #[trigger] stack@[b],
            forall|j: int| #[trigger] is_open(es, i as int, j) ==> exists|q: int| 0 <= q < stack@.len() && #[trigger] stack@[q] == j,
        decreases es.len() - i,
    {
        match entries[i] {
            OutlineEntry::Heading(level) => {
                let ghost before = stack@;
                while top_reaches(entries, &stack, level)
                    invariant
                        es == entries@,
                        i < es.len(),
                        es[i as int] == OutlineEntry::Heading(level),
                        stack@.len() <= before.len(),
                        stack@ == before.take(stack@.len() as int),
                        forall|q: int|
                            stack@.len() <= q < before.len() ==> level_of(es, #[trigger] before[q] as int)
                                >= level,
                        forall|q: int| 0 <= q < before.len() ==> is_open(es, i as int, #[trigger] before[q] as int),
                        stack@.len() < before.len() ==> level_of(es, before[stack@.len() as int] as int) >= level,
                        forall|a: int, b: int|
                            0 <= a < b < before.len() ==> #[trigger] before[a] < #[trigger] before[b],
                        forall|q: int| 0 <= q < stack@.len() ==> #[trigger] stack@[q] < es.len(),
                    decreases stack.len(),
                {
                    stack.pop();
                }
                let ghost kept = stack@;
                let parent = if stack.len() > 0 {
                    Some(stack[stack.len() - 1])
                } else {
                    None
                };
                proof {
                    lemma_holder_from(es, i as int, i - 1);
                    if kept.len() > 0 {
                        let t = kept.last() as int;
                        assert(kept.last() == before[kept.len() - 1]);
                        assert(is_open(es, i as int, t));
                        assert(level_of(es, t) < level);
                        assert(can_hold(es, t, i as int));
                        match holder_from(es, i as int, i - 1) {
                            Some(p) => {
                                if p != t {
                                    if p < t {
                                    } else {
                                        assert(is_open(es, i as int, p)) by {
                                            assert forall|m: int|
                                                p < m < i && #[trigger] es[m] is Heading implies level_of(
                                                es,
                                                m,
                                            ) > level_of(es, p) by {
                                                assert(!can_hold(es, m, i as int));
                                            }
                                        }
                                        let q = choose|q: int| 0 <= q < before.len() && before[q] == p;
                                        if q < kept.len() {
                                            assert(before[q] <= before[kept.len() - 1]);
                                        }
                                    }
                                }
                            },
                            None => {},
                        }
                    } else {
                        match holder_from(es, i as int, i - 1) {
                            Some(p) => {
                                assert(is_open(es, i as int, p)) by {
                                    assert forall|m: int|
                                        p < m < i && #[trigger] es[m] is Heading implies level_of(es, m)
                                        > level_of(es, p) by {
                                        assert(!can_hold(es, m, i as int));
                                    }
                                }
                                let q = choose|q: int| 0 <= q < before.len() && before[q] == p;
                            },
                            None => {},
                        }
                    }
                }
                let ghost prev_parents = parents@;
                parents.push(parent);
                stack.push(i);
                proof {
                    assert forall|q: int| 0 <= q < stack@.len() implies is_open(
                        es,
                        i + 1,
                        #[trigger] stack@[q] as int,
                    ) by {
                        if q < kept.len() {
                            assert(stack@[q] == before[q]);
                            assert(level_of(es, before[q] as int) < level) by {
                                if level_of(es, before[q] as int) >= level {
                                    assert(before[q] <= before[kept.len() - 1]);
                                }
                            }
                        }
                    }
                    assert forall|j: int| #[trigger] is_open(es, i + 1, j) implies exists|q: int|
                        0 <= q < stack@.len() && #[trigger] stack@[q] == j by {
                        if j == i {
                            assert(stack@[kept.len() as int] == i);
                        } else {
                            assert(is_open(es, i as int, j));
                            let q = choose|q: int| 0 <= q < before.len() && before[q] == j;
                            if q >= kept.len() {
                                assert(level_of(es, j) >= level);
                            }
                            assert(stack@[q] == j);
                        }
                    }
                    assert forall|q: int| 0 <= q < i + 1 implies match #[trigger] parents@[q] {
                        Some(p) => parent_spec(es, q) == Some(p as int),
                        None => parent_spec(es, q) is None,
                    } by {
                        if q < i {
                            assert(parents@[q] == prev_parents[q]);
                        }
                    }
                }
            },
            OutlineEntry::Item => {
                let parent = if stack.len() > 0 {
                    Some(stack[stack.len() - 1])
                } else {
                    None
                };
                proof {
                    lemma_holder_from(es, i as int, i - 1);
                    match holder_from(es, i as int, i - 1) {
                        Some(p) => {
                            assert(is_open(es, i as int, p)) by {
                                assert forall|m: int| p < m < i && #[trigger] es[m] is Heading implies level_of(
                                    es,
                                    m,
                                ) > level_of(es, p) by {
                                    assert(can_hold(es, m, i as int));
                                }
                            }
                            let q = choose|q: int| 0 <= q < stack@.len() && stack@[q] == p;
                            let t = stack@[stack@.len() - 1] as int;
                            assert(is_open(es, i as int, t));
                            assert(can_hold(es, t, i as int));
                            if q < stack@.len() - 1 {
                                assert(stack@[q] < stack@[stack@.len() - 1]);
                            }
                        },
                        None => {
                            if stack@.len() > 0 {
                                let t = stack@[stack@.len() - 1] as int;
                                assert(is_open(es, i as int, t));
                                assert(can_hold(es, t, i as int));
                            }
                        },
                    }
                }
                let ghost prev_parents = parents@;
                parents.push(parent);
                proof {
                    assert forall|q: int| 0 <= q < stack@.len() implies is_open(
                        es,
                        i + 1,
                        #[trigger] stack@[q] as int,
                    ) by {
                        assert(is_open(es, i as int, stack@[q] as int));
                    }
                    assert forall|j: int| #[trigger] is_open(es, i + 1, j) implies exists|q: int|
                        0 <= q < stack@.len() && #[trigger] stack@[q] == j by {
                        assert(is_open(es, i as int, j));
                    }
                    assert forall|q: int| 0 <= q < i + 1 implies match #[trigger] parents@[q] {
                        Some(p) => parent_spec(es, q) == Some(p as int),
                        None => parent_spec(es, q) is None,
                    } by {
                        if q < i {
                            assert(parents@[q] == prev_parents[q]);
                        }
                    }
                }
            },
        }
        i = i + 1;
    }
    parents
}

/// A parent is an earlier heading that can hold its child (a lower level
/// for a heading child), and no entry between them could hold the child;
/// an entry without a parent has no earlier entry that could hold it.
pub proof fn lemma_parent_is_nearest_holder(es: Seq<OutlineEntry>, i: int)
    requires
        0 <= i < es.len(),
    ensures
        match parent_spec(es, i) {
            Some(p) => {
                &&& 0 <= p < i
                &&& es[p] is Heading
                &&& (es[i] is Heading ==> level_of(es, p) < level_of(es, i))
                &&& forall|m: int| p < m < i ==> !can_hold(es, m, i)
            },
            None => forall|m: int| 0 <= m < i ==> !can_hold(es, m, i),
        },
{
    lemma_holder_from(es, i, i - 1);
}

} // verus!
