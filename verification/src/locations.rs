//! Result locations of reference and definition lookups: sorted by
//! document, then range start, then range end, with repeats of one
//! document range dropped.

use vstd::prelude::*;
use crate::highlight::{span_range, spans_to_ranges};
use crate::text::{Range, positions_fit, str_eq};
use crate::workspace::{
    component_ordered, lemma_chars_component, lemma_then_ordered, order_chars, order_int, order_num,
    order_str, lex,
};

verus! {

/// A location: a document and a range in it.
pub struct Location {
    pub uri: String,
    pub range: Range,
}

/// The order of locations: by document, then range start, then range end
/// (line, then column).
pub open spec fn order_locations(a: Location, b: Location) -> int {
    lex(
        order_chars(a.uri@, b.uri@),
        lex(
            order_int(a.range.start.line as int, b.range.start.line as int),
            lex(
                order_int(a.range.start.character as int, b.range.start.character as int),
                lex(
                    order_int(a.range.end.line as int, b.range.end.line as int),
                    order_int(a.range.end.character as int, b.range.end.character as int),
                ),
            ),
        ),
    )
}

/// `locs` with `l` inserted after the last location that does not sort
/// after it (a stable insertion).
pub open spec fn insert_location(locs: Seq<Location>, l: Location) -> Seq<Location>
    decreases locs.len(),
{
    if locs.len() == 0 {
        seq![l]
    } else if order_locations(locs.last(), l) <= 0 {
        locs.push(l)
    } else {
        insert_location(locs.drop_last(), l).push(locs.last())
    }
}

/// The first `n` locations in stable sorted order.
pub open spec fn sort_locations(locs: Seq<Location>, n: int) -> Seq<Location>
    decreases n,
{
    if n <= 0 {
        seq![]
    } else {
        insert_location(sort_locations(locs, n - 1), locs[n - 1])
    }
}

/// Two locations name the same document range.
pub open spec fn same_location(a: Location, b: Location) -> bool {
    a.uri@ == b.uri@ && a.range == b.range
}

/// `locs` without each location that names the same document range as the
/// location kept before it.
pub open spec fn dedup_locations(locs: Seq<Location>) -> Seq<Location>
    decreases locs.len(),
{
    if locs.len() == 0 {
        seq![]
    } else {
        let prev = dedup_locations(locs.drop_last());
        if prev.len() > 0 && same_location(prev.last(), locs.last()) {
            prev
        } else {
            prev.push(locs.last())
        }
    }
}

fn order_location(a: &Location, b: &Location) -> (c: i8)
    ensures
        c as int == order_locations(*a, *b),
{
    let u = order_str(a.uri.as_str(), b.uri.as_str());
    if u != 0 {
        return u;
    }
    let c = order_num(a.range.start.line, b.range.start.line);
    if c != 0 {
        return c;
    }
    let c = order_num(a.range.start.character, b.range.start.character);
    if c != 0 {
        return c;
    }
    let c = order_num(a.range.end.line, b.range.end.line);
    if c != 0 {
        return c;
    }
    order_num(a.range.end.character, b.range.end.character)
}

proof fn lemma_insert_location_at(locs: Seq<Location>, l: Location, p: int)
    requires
        0 <= p <= locs.len(),
        p == 0 || order_locations(locs[p - 1], l) <= 0,
        forall|q: int| p <= q < locs.len() ==> order_locations(#[trigger] locs[q], l) > 0,
    ensures
        insert_location(locs, l) == locs.insert(p, l),
    decreases locs.len(),
{
    if locs.len() == 0 {
        assert(locs.insert(p, l) =~= seq![l]);
    } else if p == locs.len() {
        assert(locs.insert(p, l) =~= locs.push(l));
    } else {
        let d = locs.drop_last();
        assert(order_locations(locs[locs.len() - 1], l) > 0);
        assert forall|q: int| p <= q < d.len() implies order_locations(#[trigger] d[q], l) > 0 by {
            assert(d[q] == locs[q]);
        }
        lemma_insert_location_at(d, l, p);
        assert(d.insert(p, l).push(locs.last()) =~= locs.insert(p, l));
    }
}

/// The locations sorted (stably, see [`order_locations`]) with repeats of
/// one document range dropped (see [`dedup_locations`]).
pub fn sort_and_dedup_locations(locs: Vec<Location>) -> (out: Vec<Location>)
    ensures
        out@ == dedup_locations(sort_locations(locs@, locs@.len() as int)),
{
    let ghost input = locs@;
    let n = locs.len();
    let mut rest = locs;
    let mut reversed: Vec<Location> = Vec::new();
    while rest.len() > 0
        invariant
            reversed@.len() + rest@.len() == input.len(),
            input.len() == n,
            forall|k: int| 0 <= k < rest@.len() ==> rest@[k] == input[k],
            forall|k: int| 0 <= k < reversed@.len() ==> reversed@[k] == input[input.len() - 1 - k],
        decreases rest.len(),
    {
        let l = rest.pop().unwrap();
        reversed.push(l);
    }
    let mut sorted: Vec<Location> = Vec::new();
    let mut i: usize = 0;
    while reversed.len() > 0
        invariant
            i + reversed@.len() == input.len(),
            input.len() == n,
            forall|k: int| 0 <= k < reversed@.len() ==> reversed@[k] == input[input.len() - 1 - k],
            sorted@ == sort_locations(input, i as int),
        decreases reversed.len(),
    {
        let l = reversed.pop().unwrap();
        assert(l == input[i as int]);
        let mut p: usize = sorted.len();
        while p > 0
            invariant
                p <= sorted@.len(),
                forall|q: int| p <= q < sorted@.len() ==> order_locations(#[trigger] sorted@[q], l) > 0,
            ensures
                p <= sorted@.len(),
                p == 0 || order_locations(sorted@[p - 1], l) <= 0,
                forall|q: int| p <= q < sorted@.len() ==> order_locations(#[trigger] sorted@[q], l) > 0,
            decreases p,
        {
            if order_location(&sorted[p - 1], &l) <= 0 {
                break;
            }
            p = p - 1;
        }
        proof {
            lemma_insert_location_at(sorted@, l, p as int);
        }
        sorted.insert(p, l);
        i = i + 1;
    }
    let ghost all = sorted@;
    let mut rev_sorted: Vec<Location> = Vec::new();
    let m = sorted.len();
    while sorted.len() > 0
        invariant
            rev_sorted@.len() + sorted@.len() == all.len(),
            all.len() == m,
            forall|k: int| 0 <= k < sorted@.len() ==> sorted@[k] == all[k],
            forall|k: int| 0 <= k < rev_sorted@.len() ==> rev_sorted@[k] == all[all.len() - 1 - k],
        decreases sorted.len(),
    {
        let l = sorted.pop().unwrap();
        rev_sorted.push(l);
    }
    let mut out: Vec<Location> = Vec::new();
    let mut j: usize = 0;
    while rev_sorted.len() > 0
        invariant
            j + rev_sorted@.len() == all.len(),
            all.len() == m,
            forall|k: int| 0 <= k < rev_sorted@.len() ==> rev_sorted@[k] == all[all.len() - 1 - k],
            out@ == dedup_locations(all.take(j as int)),
        decreases rev_sorted.len(),
    {
        let l = rev_sorted.pop().unwrap();
        proof {
            assert(l == all[j as int]);
            assert(all.take(j + 1).drop_last() =~= all.take(j as int));
            assert(all.take(j + 1).last() == all[j as int]);
        }
        let dup = if out.len() > 0 {
            let last = &out[out.len() - 1];
            last.range == l.range && str_eq(last.uri.as_str(), l.uri.as_str())
        } else {
            false
        };
        if !dup {
            out.push(l);
        }
        j = j + 1;
    }
    assert(all.take(j as int) =~= all);
    out
}

/// The order of locations is a total preorder.
proof fn lemma_locations_ordered(a: Location, b: Location, c: Location)
    ensures
        component_ordered(
            order_locations(a, b),
            order_locations(b, c),
            order_locations(a, c),
            order_locations(b, a),
        ),
{
    lemma_chars_component(a.uri@, b.uri@, c.uri@);
    let (ai, bi, ci) = (a.range, b.range, c.range);
    let e_ab = order_int(ai.end.character as int, bi.end.character as int);
    let e_bc = order_int(bi.end.character as int, ci.end.character as int);
    let e_ac = order_int(ai.end.character as int, ci.end.character as int);
    let e_ba = order_int(bi.end.character as int, ai.end.character as int);
    let e1_ab = lex(order_int(ai.end.line as int, bi.end.line as int), e_ab);
    let e1_bc = lex(order_int(bi.end.line as int, ci.end.line as int), e_bc);
    let e1_ac = lex(order_int(ai.end.line as int, ci.end.line as int), e_ac);
    let e1_ba = lex(order_int(bi.end.line as int, ai.end.line as int), e_ba);
    lemma_then_ordered(
        order_int(ai.end.line as int, bi.end.line as int),
        order_int(bi.end.line as int, ci.end.line as int),
        order_int(ai.end.line as int, ci.end.line as int),
        order_int(bi.end.line as int, ai.end.line as int),
        e_ab,
        e_bc,
        e_ac,
        e_ba,
    );
    let s2_ab = lex(order_int(ai.start.character as int, bi.start.character as int), e1_ab);
    let s2_bc = lex(order_int(bi.start.character as int, ci.start.character as int), e1_bc);
    let s2_ac = lex(order_int(ai.start.character as int, ci.start.character as int), e1_ac);
    let s2_ba = lex(order_int(bi.start.character as int, ai.start.character as int), e1_ba);
    lemma_then_ordered(
        order_int(ai.start.character as int, bi.start.character as int),
        order_int(bi.start.character as int, ci.start.character as int),
        order_int(ai.start.character as int, ci.start.character as int),
        order_int(bi.start.character as int, ai.start.character as int),
        e1_ab,
        e1_bc,
        e1_ac,
        e1_ba,
    );
    let s1_ab = lex(order_int(ai.start.line as int, bi.start.line as int), s2_ab);
    let s1_bc = lex(order_int(bi.start.line as int, ci.start.line as int), s2_bc);
    let s1_ac = lex(order_int(ai.start.line as int, ci.start.line as int), s2_ac);
    let s1_ba = lex(order_int(bi.start.line as int, ai.start.line as int), s2_ba);
    lemma_then_ordered(
        order_int(ai.start.line as int, bi.start.line as int),
        order_int(bi.start.line as int, ci.start.line as int),
        order_int(ai.start.line as int, ci.start.line as int),
        order_int(bi.start.line as int, ai.start.line as int),
        s2_ab,
        s2_bc,
        s2_ac,
        s2_ba,
    );
    lemma_then_ordered(
        order_chars(a.uri@, b.uri@),
        order_chars(b.uri@, c.uri@),
        order_chars(a.uri@, c.uri@),
        order_chars(b.uri@, a.uri@),
        s1_ab,
        s1_bc,
        s1_ac,
        s1_ba,
    );
}

/// Locations are in order, pairwise.
pub open spec fn locations_sorted(locs: Seq<Location>) -> bool {
    forall|i: int, j: int|
        0 <= i < j < locs.len() ==> order_locations(#[trigger] locs[i], #[trigger] locs[j]) <= 0
}

proof fn lemma_insert_location_sorted(locs: Seq<Location>, l: Location)
    ensures
        forall|x: Location| #[trigger] insert_location(locs, l).contains(x) ==> x == l || locs.contains(x),
        locations_sorted(locs) ==> locations_sorted(insert_location(locs, l)),
    decreases locs.len(),
{
    let out = insert_location(locs, l);
    if locs.len() == 0 {
        assert forall|x: Location| #[trigger] out.contains(x) implies x == l || locs.contains(x) by {
            assert(out[0] == l);
        }
    } else if order_locations(locs.last(), l) <= 0 {
        assert forall|x: Location| #[trigger] out.contains(x) implies x == l || locs.contains(x) by {
            vstd::seq_lib::lemma_seq_contains_after_push(locs, l, x);
        }
        if locations_sorted(locs) {
            assert forall|i: int, j: int| 0 <= i < j < out.len() implies order_locations(
                #[trigger] out[i],
                #[trigger] out[j],
            ) <= 0 by {
                if j == locs.len() && i < locs.len() - 1 {
                    lemma_locations_ordered(locs[i], locs[locs.len() - 1], l);
                    assert(order_locations(locs[i], locs[locs.len() - 1]) <= 0);
                }
            }
        }
    } else {
        let d = locs.drop_last();
        lemma_insert_location_sorted(d, l);
        let mid = insert_location(d, l);
        let last = locs.last();
        assert forall|x: Location| #[trigger] out.contains(x) implies x == l || locs.contains(x) by {
            vstd::seq_lib::lemma_seq_contains_after_push(mid, last, x);
            if mid.contains(x) && x != l {
                let k = choose|k: int| 0 <= k < d.len() && d[k] == x;
                assert(locs[k] == x);
            } else if x != l {
                assert(locs[locs.len() - 1] == x);
            }
        }
        if locations_sorted(locs) {
            assert(locations_sorted(d)) by {
                assert forall|i: int, j: int| 0 <= i < j < d.len() implies order_locations(
                    #[trigger] d[i],
                    #[trigger] d[j],
                ) <= 0 by {
                    assert(d[i] == locs[i] && d[j] == locs[j]);
                }
            }
            assert forall|i: int, j: int| 0 <= i < j < out.len() implies order_locations(
                #[trigger] out[i],
                #[trigger] out[j],
            ) <= 0 by {
                if j == mid.len() {
                    let x = mid[i];
                    assert(mid.contains(x));
                    if x == l {
                        lemma_locations_ordered(last, l, l);
                    } else {
                        let k = choose|k: int| 0 <= k < d.len() && d[k] == x;
                        assert(locs[k] == x);
                        assert(order_locations(locs[k], locs[locs.len() - 1]) <= 0);
                    }
                } else {
                    assert(out[i] == mid[i] && out[j] == mid[j]);
                }
            }
        }
    }
}

proof fn lemma_sort_locations_sorted(locs: Seq<Location>, n: int)
    requires
        0 <= n <= locs.len(),
    ensures
        locations_sorted(sort_locations(locs, n)),
        forall|x: Location| #[trigger] sort_locations(locs, n).contains(x) ==> exists|k: int|
            0 <= k < n && locs[k] == x,
    decreases n,
{
    if n > 0 {
        lemma_sort_locations_sorted(locs, n - 1);
        let prev = sort_locations(locs, n - 1);
        lemma_insert_location_sorted(prev, locs[n - 1]);
        assert forall|x: Location| #[trigger] sort_locations(locs, n).contains(x) implies exists|k: int|
            0 <= k < n && locs[k] == x by {
            if x != locs[n - 1] {
                assert(prev.contains(x));
            }
        }
    }
}

proof fn lemma_dedup_locations_sorted(locs: Seq<Location>)
    ensures
        forall|x: Location| #[trigger] dedup_locations(locs).contains(x) ==> locs.contains(x),
        locations_sorted(locs) ==> locations_sorted(dedup_locations(locs)),
        forall|i: int|
            0 < i < dedup_locations(locs).len() ==> !same_location(
                dedup_locations(locs)[i - 1],
                #[trigger] dedup_locations(locs)[i],
            ),
    decreases locs.len(),
{
    if locs.len() > 0 {
        let d = locs.drop_last();
        lemma_dedup_locations_sorted(d);
        let prev = dedup_locations(d);
        let out = dedup_locations(locs);
        assert forall|x: Location| #[trigger] out.contains(x) implies locs.contains(x) by {
            vstd::seq_lib::lemma_seq_contains_after_push(prev, locs.last(), x);
            if prev.contains(x) {
                let k = choose|k: int| 0 <= k < d.len() && d[k] == x;
                assert(locs[k] == x);
            } else {
                assert(locs[locs.len() - 1] == x);
            }
        }
        if locations_sorted(locs) {
            assert(locations_sorted(d)) by {
                assert forall|i: int, j: int| 0 <= i < j < d.len() implies order_locations(
                    #[trigger] d[i],
                    #[trigger] d[j],
                ) <= 0 by {
                    assert(d[i] == locs[i] && d[j] == locs[j]);
                }
            }
            if !(prev.len() > 0 && same_location(prev.last(), locs.last())) {
                assert forall|i: int, j: int| 0 <= i < j < out.len() implies order_locations(
                    #[trigger] out[i],
                    #[trigger] out[j],
                ) <= 0 by {
                    if j == prev.len() {
                        let x = prev[i];
                        assert(prev.contains(x));
                        let k = choose|k: int| 0 <= k < d.len() && d[k] == x;
                        assert(locs[k] == x);
                        assert(order_locations(locs[k], locs[locs.len() - 1]) <= 0);
                    } else {
                        assert(out[i] == prev[i] && out[j] == prev[j]);
                    }
                }
            }
        }
        if !(prev.len() > 0 && same_location(prev.last(), locs.last())) {
            assert forall|i: int| 0 < i < out.len() implies !same_location(
                out[i - 1],
                #[trigger] out[i],
            ) by {
                if i < prev.len() {
                    assert(out[i - 1] == prev[i - 1] && out[i] == prev[i]);
                } else {
                    assert(out[i - 1] == prev.last());
                }
            }
        }
    }
}

/// Result locations come out in order (by document, range start, range
/// end), each one of the collected locations, and no location repeats the
/// document range of the one before it.
pub proof fn lemma_locations_sorted_without_repeats(locs: Seq<Location>)
    ensures
        locations_sorted(dedup_locations(sort_locations(locs, locs.len() as int))),
        forall|i: int|
            0 <= i < dedup_locations(sort_locations(locs, locs.len() as int)).len() ==> locs.contains(
                #[trigger] dedup_locations(sort_locations(locs, locs.len() as int))[i],
            ),
        forall|i: int|
            0 < i < dedup_locations(sort_locations(locs, locs.len() as int)).len() ==> !same_location(
                dedup_locations(sort_locations(locs, locs.len() as int))[i - 1],
                #[trigger] dedup_locations(sort_locations(locs, locs.len() as int))[i],
            ),
{
    let sorted = sort_locations(locs, locs.len() as int);
    lemma_sort_locations_sorted(locs, locs.len() as int);
    lemma_dedup_locations_sorted(sorted);
    let out = dedup_locations(sorted);
    assert forall|i: int| 0 <= i < out.len() implies locs.contains(#[trigger] out[i]) by {
        assert(out.contains(out[i]));
        assert(sorted.contains(out[i]));
        let k = choose|k: int| 0 <= k < locs.len() && locs[k] == out[i];
    }
}

proof fn lemma_order_chars_eq(a: Seq<char>, b: Seq<char>)
    ensures
        order_chars(a, b) == 0 ==> a =~= b,
    decreases a.len(),
{
    if a.len() > 0 && b.len() > 0 && (a[0] as u32) == (b[0] as u32) {
        lemma_order_chars_eq(a.drop_first(), b.drop_first());
        if order_chars(a, b) == 0 {
            vstd::utf8::char_u32_cast(a[0], a[0] as u32);
            vstd::utf8::char_u32_cast(b[0], b[0] as u32);
            assert(a[0] == b[0]);
            assert forall|i: int| 0 <= i < a.len() implies a[i] == b[i] by {
                if i > 0 {
                    assert(a[i] == a.drop_first()[i - 1]);
                    assert(b[i] == b.drop_first()[i - 1]);
                }
            }
        }
    }
}

/// Two locations that compare equal name the same document range.
proof fn lemma_order_zero_same(a: Location, b: Location)
    ensures
        order_locations(a, b) == 0 ==> same_location(a, b),
{
    lemma_order_chars_eq(a.uri@, b.uri@);
}

/// The answer of a reference lookup is in strictly increasing order: each
/// location sorts before the next (by document, then range start, then
/// range end), so none is listed twice.
pub proof fn lemma_locations_strictly_ordered(locs: Seq<Location>)
    ensures
        forall|i: int|
            0 < i < dedup_locations(sort_locations(locs, locs.len() as int)).len() ==> order_locations(
                dedup_locations(sort_locations(locs, locs.len() as int))[i - 1],
                #[trigger] dedup_locations(sort_locations(locs, locs.len() as int))[i],
            ) < 0,
{
    lemma_locations_sorted_without_repeats(locs);
    let out = dedup_locations(sort_locations(locs, locs.len() as int));
    assert forall|i: int| 0 < i < out.len() implies order_locations(out[i - 1], #[trigger] out[i]) < 0 by {
        lemma_order_zero_same(out[i - 1], out[i]);
        assert(order_locations(out[i - 1], out[i]) <= 0);
    }
}

/// The answer of a reference lookup: the locations sorted and without
/// repeats (see [`sort_and_dedup_locations`]), or none when there are none.
pub fn references_answer(locs: Vec<Location>) -> (r: Option<Vec<Location>>)
    ensures
        dedup_locations(sort_locations(locs@, locs@.len() as int)).len() == 0 ==> r is None,
        dedup_locations(sort_locations(locs@, locs@.len() as int)).len() > 0 ==> (r matches Some(v) && v@
            == dedup_locations(sort_locations(locs@, locs@.len() as int))),
{
    let out = sort_and_dedup_locations(locs);
    if out.len() == 0 {
        None
    } else {
        Some(out)
    }
}

/// Appends a location in document `uri` for each byte span of `text`.
pub fn add_locations(out: &mut Vec<Location>, uri: &str, text: &str, spans: &Vec<(usize, usize)>)
    requires
        positions_fit(text@),
    ensures
        final(out)@.len() == old(out)@.len() + spans@.len(),
        forall|i: int| 0 <= i < old(out)@.len() ==> #[trigger] final(out)@[i] == old(out)@[i],
        forall|i: int|
            0 <= i < spans@.len() ==> (#[trigger] final(out)@[old(out)@.len() + i]).uri@ == uri@
                && final(out)@[old(out)@.len() + i].range == span_range(text@, spans@[i]),
{
    let ranges = spans_to_ranges(text, spans);
    let ghost before = out@;
    let mut i: usize = 0;
    while i < ranges.len()
        invariant
            i <= ranges@.len(),
            ranges@.len() == spans@.len(),
            forall|j: int| 0 <= j < ranges@.len() ==> #[trigger] ranges@[j] == span_range(text@, spans@[j]),
            out@.len() == before.len() + i,
            forall|j: int| 0 <= j < before.len() ==> #[trigger] out@[j] == before[j],
            forall|j: int|
                0 <= j < i ==> (#[trigger] out@[before.len() + j]).uri@ == uri@ && out@[before.len()
                    + j].range == span_range(text@, spans@[j]),
        decreases ranges.len() - i,
    {
        out.push(Location { uri: uri.to_string(), range: ranges[i] });
        i = i + 1;
    }
}

} // verus!
