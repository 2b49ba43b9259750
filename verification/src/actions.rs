//! Decisions of the code-action request: which lint fixes are offered for
//! the requested range, which of the safe fixes make up the aggregate
//! "fix all" edit, and whether the request lies in the YAML frontmatter.

use vstd::prelude::*;
use crate::text::{Position, Range, chars_of, position_le, push_chars, str_eq};

verus! {

/// The request range contains `inner`.
pub open spec fn range_contains_spec(outer: Range, inner: Range) -> bool {
    position_le(outer.start, inner.start) && position_le(inner.end, outer.end)
}

/// `position` lies in `range`, both ends included.
pub open spec fn position_in_range_spec(position: Position, range: Range) -> bool {
    position_le(range.start, position) && position_le(position, range.end)
}

/// `p` comes no later than `q`.
fn position_leq(p: Position, q: Position) -> (b: bool)
    ensures
        b == position_le(p, q),
{
    p.line < q.line || (p.line == q.line && p.character <= q.character)
}

/// Whether `outer` contains `inner`.
pub fn range_contains(outer: Range, inner: Range) -> (b: bool)
    ensures
        b == range_contains_spec(outer, inner),
{
    position_leq(outer.start, inner.start) && position_leq(inner.end, outer.end)
}

/// Whether `position` lies in `range`.
pub fn position_in_range(position: Position, range: Range) -> (b: bool)
    ensures
        b == position_in_range_spec(position, range),
{
    position_leq(range.start, position) && position_leq(position, range.end)
}

/// Whether a quick fix for a diagnostic at `diagnostic` is offered for a
/// request over `request`: a bare cursor must lie in the diagnostic, a
/// selection must contain it.
pub fn should_offer_quickfix(request: Range, diagnostic: Range) -> (b: bool)
    ensures
        b == if request.start == request.end {
            position_in_range_spec(request.start, diagnostic)
        } else {
            range_contains_spec(request, diagnostic)
        },
{
    if request.start.line == request.end.line && request.start.character == request.end.character {
        return position_in_range(request.start, diagnostic);
    }
    range_contains(request, diagnostic)
}

/// Whether a request from byte `start` to byte `end` touches the YAML
/// frontmatter spanning `frontmatter` (start and end bytes). A missing end
/// stands for one byte past the start, and the request is at least that
/// long; without a start the request is never in the frontmatter.
pub fn request_in_frontmatter(start: Option<usize>, end: Option<usize>, frontmatter: Option<(usize, usize)>) -> (b: bool)
    ensures
        b == match (start, frontmatter) {
            (Some(s), Some((fs, fe))) => {
                let one_past = if s == usize::MAX {
                    s as int
                } else {
                    s + 1
                };
                let e = match end {
                    Some(e) => if e >= one_past {
                        e as int
                    } else {
                        one_past
                    },
                    None => one_past,
                };
                fs < e && s < fe
            },
            _ => false,
        },
{
    let s = match start {
        Some(s) => s,
        None => {
            return false;
        },
    };
    let one_past = if s == usize::MAX {
        s
    } else {
        s + 1
    };
    let e = match end {
        Some(e) => if e >= one_past {
            e
        } else {
            one_past
        },
        None => one_past,
    };
    match frontmatter {
        Some((fs, fe)) => fs < e && s < fe,
        None => false,
    }
}

/// One edit of a safe lint fix: replace bytes `start..end` by
/// `replacement`.
pub struct FixEdit {
    pub start: usize,
    pub end: usize,
    pub replacement: String,
}

/// Edit `a` sorts no later than edit `b`: by start, then by end.
pub open spec fn key_le(es: Seq<FixEdit>, a: usize, b: usize) -> bool {
    es[a as int].start < es[b as int].start || (es[a as int].start == es[b as int].start
        && es[a as int].end <= es[b as int].end)
}

/// `order` with index `i` inserted after the last index whose edit sorts
/// no later than edit `i` (a stable insertion).
pub open spec fn insert_index(es: Seq<FixEdit>, order: Seq<usize>, i: usize) -> Seq<usize>
    decreases order.len(),
{
    if order.len() == 0 {
        seq![i]
    } else if key_le(es, order.last(), i) {
        order.push(i)
    } else {
        insert_index(es, order.drop_last(), i).push(order.last())
    }
}

/// The indices of the first `n` edits in stable sorted order.
pub open spec fn sorted_order(es: Seq<FixEdit>, n: int) -> Seq<usize>
    decreases n,
{
    if n <= 0 {
        seq![]
    } else {
        insert_index(es, sorted_order(es, n - 1), (n - 1) as usize)
    }
}

/// Two edits are the same edit.
pub open spec fn same_edit(a: FixEdit, b: FixEdit) -> bool {
    a.start == b.start && a.end == b.end && a.replacement@ == b.replacement@
}

/// The indices kept, in order, when walking `order` and dropping each edit
/// that starts before the last kept edit ends or repeats it.
pub open spec fn kept_indices(es: Seq<FixEdit>, order: Seq<usize>) -> Seq<usize>
    decreases order.len(),
{
    if order.len() == 0 {
        seq![]
    } else {
        let k = kept_indices(es, order.drop_last());
        let e = es[order.last() as int];
        if k.len() > 0 && (e.start < es[k.last() as int].end || same_edit(e, es[k.last() as int])) {
            k
        } else {
            k.push(order.last())
        }
    }
}

/// The edits of the aggregate "fix all" action chosen from `es`.
pub open spec fn fix_all_spec(es: Seq<FixEdit>) -> Seq<usize> {
    kept_indices(es, sorted_order(es, es.len() as int))
}

/// Inserting at the position found from the end is the stable insertion.
proof fn lemma_insert_at(es: Seq<FixEdit>, order: Seq<usize>, i: usize, p: int)
    requires
        0 <= p <= order.len(),
        p == 0 || key_le(es, order[p - 1], i),
        forall|q: int| p <= q < order.len() ==> !key_le(es, #[trigger] order[q], i),
    ensures
        insert_index(es, order, i) == order.insert(p, i),
    decreases order.len(),
{
    if order.len() == 0 {
        assert(order.insert(p, i) =~= seq![i]);
    } else if p == order.len() {
        assert(order.insert(p, i) =~= order.push(i));
    } else {
        let d = order.drop_last();
        assert(!key_le(es, order[order.len() - 1], i));
        assert forall|q: int| p <= q < d.len() implies !key_le(es, #[trigger] d[q], i) by {
            assert(d[q] == order[q]);
        }
        lemma_insert_at(es, d, i, p);
        assert(d.insert(p, i).push(order.last()) =~= order.insert(p, i));
    }
}

/// The indices of `es` in stable order by start and end.
fn stable_order(es: &Vec<FixEdit>) -> (order: Vec<usize>)
    ensures
        order@ == sorted_order(es@, es@.len() as int),
        forall|q: int| 0 <= q < order@.len() ==> order@[q] < es@.len(),
{
    let mut order: Vec<usize> = Vec::new();
    let mut i: usize = 0;
    while i < es.len()
        invariant
            i <= es@.len(),
            order@ == sorted_order(es@, i as int),
            order@.len() == i,
            forall|q: int| 0 <= q < order@.len() ==> order@[q] < i,
        decreases es.len() - i,
    {
        let mut p: usize = order.len();
        while p > 0
            invariant
                p <= order@.len() == i,
                i < es@.len(),
                forall|q: int| 0 <= q < order@.len() ==> order@[q] < i,
                forall|q: int| p <= q < order@.len() ==> !key_le(es@, #[trigger] order@[q], i),
            ensures
                p <= order@.len(),
                p == 0 || key_le(es@, order@[p - 1], i),
                forall|q: int| p <= q < order@.len() ==> !key_le(es@, #[trigger] order@[q], i),
            decreases p,
        {
            let prev = order[p - 1];
            if es[prev].start < es[i].start || (es[prev].start == es[i].start && es[prev].end
                <= es[i].end) {
                break;
            }
            p = p - 1;
        }
        let ghost before = order@;
        proof {
            lemma_insert_at(es@, order@, i, p as int);
        }
        order.insert(p, i);
        proof {
            assert forall|q: int| 0 <= q < order@.len() implies order@[q] < i + 1 by {
                if q < p {
                    assert(order@[q] == before[q]);
                } else if q > p {
                    assert(order@[q] == before[q - 1]);
                }
            }
        }
        i = i + 1;
    }
    order
}

/// The edits of the aggregate "fix all" action: the safe fix edits in
/// stable order by start and end, each dropped when it starts before the
/// previous kept edit ends or repeats that edit.
pub fn select_fix_all_edits(es: &Vec<FixEdit>) -> (kept: Vec<FixEdit>)
    ensures
        kept@.len() == fix_all_spec(es@).len(),
        forall|q: int|
            0 <= q < kept@.len() ==> same_edit(#[trigger] kept@[q], es@[fix_all_spec(es@)[q] as int]),
{
    let order = stable_order(es);
    let mut keep: Vec<usize> = Vec::new();
    let mut kept: Vec<FixEdit> = Vec::new();
    let mut j: usize = 0;
    while j < order.len()
        invariant
            j <= order@.len(),
            order@ == sorted_order(es@, es@.len() as int),
            forall|q: int| 0 <= q < order@.len() ==> order@[q] < es@.len(),
            keep@ == kept_indices(es@, order@.take(j as int)),
            kept@.len() == keep@.len(),
            forall|q: int| 0 <= q < keep@.len() ==> keep@[q] < es@.len(),
            forall|q: int|
                0 <= q < kept@.len() ==> same_edit(#[trigger] kept@[q], es@[keep@[q] as int]),
        decreases order.len() - j,
    {
        let idx = order[j];
        proof {
            assert(order@.take(j + 1).drop_last() =~= order@.take(j as int));
        }
        let drop = if keep.len() > 0 {
            let last = keep[keep.len() - 1];
            es[idx].start < es[last].end || (es[idx].start == es[last].start && es[idx].end
                == es[last].end && str_eq(es[idx].replacement.as_str(), es[last].replacement.as_str()))
        } else {
            false
        };
        if !drop {
            keep.push(idx);
            let e = FixEdit {
                start: es[idx].start,
                end: es[idx].end,
                replacement: es[idx].replacement.clone(),
            };
            kept.push(e);
        }
        j = j + 1;
    }
    assert(order@.take(j as int) =~= order@);
    kept
}

/// Adjacent indices of `order` are in order by start and end.
pub open spec fn is_sorted_order(es: Seq<FixEdit>, order: Seq<usize>) -> bool {
    forall|q: int| 0 < q < order.len() ==> key_le(es, order[q - 1], #[trigger] order[q])
}

proof fn lemma_insert_index_facts(es: Seq<FixEdit>, order: Seq<usize>, i: usize)
    ensures
        insert_index(es, order, i).len() == order.len() + 1,
        insert_index(es, order, i).contains(i),
        forall|x: usize| order.contains(x) ==> insert_index(es, order, i).contains(x),
        forall|x: usize| #[trigger] insert_index(es, order, i).contains(x) ==> x == i || order.contains(x),
        is_sorted_order(es, order) ==> is_sorted_order(es, insert_index(es, order, i)),
        order.len() > 0 ==> (insert_index(es, order, i).last() == i || insert_index(es, order, i).last()
            == order.last()),
    decreases order.len(),
{
    let r = insert_index(es, order, i);
    if order.len() == 0 {
        assert(r[0] == i);
        assert forall|x: usize| #[trigger] r.contains(x) implies x == i || order.contains(x) by {
            let k = choose|k: int| 0 <= k < r.len() && r[k] == x;
        }
    } else if key_le(es, order.last(), i) {
        assert(r[order.len() as int] == i);
        assert forall|x: usize| order.contains(x) implies r.contains(x) by {
            let k = choose|k: int| 0 <= k < order.len() && order[k] == x;
            assert(r[k] == x);
        }
        assert forall|x: usize| #[trigger] r.contains(x) implies x == i || order.contains(x) by {
            let k = choose|k: int| 0 <= k < r.len() && r[k] == x;
            if k < order.len() {
                assert(order[k] == x);
            }
        }
    } else {
        let d = order.drop_last();
        let m = insert_index(es, d, i);
        lemma_insert_index_facts(es, d, i);
        assert(r == m.push(order.last()));
        assert(m.contains(i));
        let ki = choose|k: int| 0 <= k < m.len() && m[k] == i;
        assert(r[ki] == i);
        assert forall|x: usize| order.contains(x) implies r.contains(x) by {
            let k = choose|k: int| 0 <= k < order.len() && order[k] == x;
            if k == order.len() - 1 {
                assert(r[r.len() - 1] == x);
            } else {
                assert(d[k] == x);
                assert(d.contains(x));
                let j = choose|j: int| 0 <= j < m.len() && m[j] == x;
                assert(r[j] == x);
            }
        }
        assert forall|x: usize| #[trigger] r.contains(x) implies x == i || order.contains(x) by {
            let k = choose|k: int| 0 <= k < r.len() && r[k] == x;
            if k == r.len() - 1 {
                assert(order[order.len() - 1] == x);
            } else {
                assert(m[k] == x);
                assert(m.contains(x));
                if x != i {
                    let j = choose|j: int| 0 <= j < d.len() && d[j] == x;
                    assert(order[j] == x);
                }
            }
        }
        if is_sorted_order(es, order) {
            assert(is_sorted_order(es, d)) by {
                assert forall|q: int| 0 < q < d.len() implies key_le(es, d[q - 1], #[trigger] d[q]) by {
                    assert(d[q - 1] == order[q - 1] && d[q] == order[q]);
                }
            }
            assert forall|q: int| 0 < q < r.len() implies key_le(es, r[q - 1], #[trigger] r[q]) by {
                if q < r.len() - 1 {
                    assert(r[q - 1] == m[q - 1] && r[q] == m[q]);
                } else {
                    assert(r[q - 1] == m.last());
                    if d.len() > 0 {
                        assert(key_le(es, order[order.len() - 2], order[order.len() - 1]));
                    }
                }
            }
        }
    }
}

/// The stable order lists every index of the first `n` edits exactly once,
/// in order by start and end.
pub proof fn lemma_sorted_order_is_sorted_permutation(es: Seq<FixEdit>, n: int)
    requires
        0 <= n,
    ensures
        sorted_order(es, n).len() == n,
        forall|x: usize| x < n ==> sorted_order(es, n).contains(x),
        forall|x: usize| #[trigger] sorted_order(es, n).contains(x) ==> x < n,
        is_sorted_order(es, sorted_order(es, n)),
    decreases n,
{
    if n > 0 {
        let prev = sorted_order(es, n - 1);
        let so = sorted_order(es, n);
        lemma_sorted_order_is_sorted_permutation(es, n - 1);
        lemma_insert_index_facts(es, prev, (n - 1) as usize);
        assert(so == insert_index(es, prev, (n - 1) as usize));
        assert forall|x: usize| x < n implies so.contains(x) by {
            if x < n - 1 {
                assert(prev.contains(x));
            }
        }
        assert forall|x: usize| #[trigger] so.contains(x) implies x < n by {
            if x != (n - 1) as usize {
                assert(prev.contains(x));
            }
        }
    }
}

/// Kept fix-all edits never overlap: each starts no earlier than the
/// previous one ends.
pub proof fn lemma_fix_all_edits_disjoint(es: Seq<FixEdit>, order: Seq<usize>)
    ensures
        forall|q: int|
            0 < q < kept_indices(es, order).len() ==> es[kept_indices(es, order)[q - 1] as int].end
                <= es[#[trigger] kept_indices(es, order)[q] as int].start,
    decreases order.len(),
{
    if order.len() > 0 {
        let k = kept_indices(es, order.drop_last());
        lemma_fix_all_edits_disjoint(es, order.drop_last());
        let r = kept_indices(es, order);
        assert forall|q: int| 0 < q < r.len() implies es[r[q - 1] as int].end <= es[#[trigger] r[q] as int].start by {
            if q < k.len() {
                assert(r[q - 1] == k[q - 1] && r[q] == k[q]);
            }
        }
    }
}

/// The title of a lint fix action: its message, labelled when the fix is
/// unsafe.
pub fn fix_title(message: &str, is_unsafe: bool) -> (t: String)
    ensures
        t@ == if is_unsafe {
            message@ + " (unsafe)"@
        } else {
            message@
        },
{
    let mut t = String::new();
    push_chars(&mut t, &chars_of(message));
    if is_unsafe {
        push_chars(&mut t, &chars_of(" (unsafe)"));
    }
    t
}

} // verus!
