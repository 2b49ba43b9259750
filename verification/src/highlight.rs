//! Same-document symbol spans: the set highlighted for the symbol under
//! the cursor, and the set edited together with it (linked editing), where
//! every span must hold the same source text as the span under the cursor.
//!
//! A span is a pair of byte offsets `(start, end)` into the document.

use vstd::prelude::*;
use crate::text::{
    Position, Range, TextEdit, byte_slice, chars_of, offset_to_position, position_of, positions_fit,
    slice_bytes, utf8_len, vec_eq,
};

verus! {

/// Span `r` contains offset `off`, its end included.
pub open spec fn covers(r: (usize, usize), off: int) -> bool {
    r.0 <= off <= r.1
}

/// The index of the first span that contains `off`.
pub open spec fn first_covering(spans: Seq<(usize, usize)>, off: int) -> Option<int>
    decreases spans.len(),
{
    if spans.len() == 0 {
        None
    } else {
        match first_covering(spans.drop_last(), off) {
            Some(i) => Some(i),
            None => if covers(spans.last(), off) {
                Some(spans.len() - 1)
            } else {
                None
            },
        }
    }
}

/// The spans whose source text is `text`, in order.
pub open spec fn with_text(content: Seq<char>, spans: Seq<(usize, usize)>, text: Seq<char>) -> Seq<
    (usize, usize),
>
    decreases spans.len(),
{
    if spans.len() == 0 {
        seq![]
    } else {
        let rest = with_text(content, spans.drop_last(), text);
        if byte_slice(content, spans.last().0 as int, spans.last().1 as int) == Some(text) {
            rest.push(spans.last())
        } else {
            rest
        }
    }
}

/// `spans` with `r` inserted after the last span that starts no later
/// (a stable insertion by start).
pub open spec fn insert_span(spans: Seq<(usize, usize)>, r: (usize, usize)) -> Seq<(usize, usize)>
    decreases spans.len(),
{
    if spans.len() == 0 {
        seq![r]
    } else if spans.last().0 <= r.0 {
        spans.push(r)
    } else {
        insert_span(spans.drop_last(), r).push(spans.last())
    }
}

/// The first `n` spans in stable order by start.
pub open spec fn sort_spans(spans: Seq<(usize, usize)>, n: int) -> Seq<(usize, usize)>
    decreases n,
{
    if n <= 0 {
        seq![]
    } else {
        insert_span(sort_spans(spans, n - 1), spans[n - 1])
    }
}

/// `spans` without each span equal to the one before it.
pub open spec fn dedup_spans(spans: Seq<(usize, usize)>) -> Seq<(usize, usize)>
    decreases spans.len(),
{
    if spans.len() == 0 {
        seq![]
    } else {
        let prev = dedup_spans(spans.drop_last());
        if prev.len() > 0 && prev.last() == spans.last() {
            prev
        } else {
            prev.push(spans.last())
        }
    }
}

/// The highlighted spans: sorted by start, repeats dropped; none when
/// there is no span.
pub open spec fn highlight_spec(spans: Seq<(usize, usize)>) -> Option<Seq<(usize, usize)>> {
    let s = dedup_spans(sort_spans(spans, spans.len() as int));
    if s.len() == 0 {
        None
    } else {
        Some(s)
    }
}

/// The linked-editing spans: the first span containing `off` is the
/// anchor; the spans with the anchor's source text, sorted by start,
/// repeats dropped. None when no span contains `off`, the anchor is not a
/// slice of the text, or fewer than two spans remain.
pub open spec fn linked_spec(content: Seq<char>, spans: Seq<(usize, usize)>, off: int) -> Option<
    Seq<(usize, usize)>,
> {
    match first_covering(spans, off) {
        None => None,
        Some(a) => match byte_slice(content, spans[a].0 as int, spans[a].1 as int) {
            None => None,
            Some(text) => {
                let kept = with_text(content, spans, text);
                let s = dedup_spans(sort_spans(kept, kept.len() as int));
                if s.len() < 2 {
                    None
                } else {
                    Some(s)
                }
            },
        },
    }
}

proof fn lemma_insert_span_at(spans: Seq<(usize, usize)>, r: (usize, usize), p: int)
    requires
        0 <= p <= spans.len(),
        p == 0 || spans[p - 1].0 <= r.0,
        forall|q: int| p <= q < spans.len() ==> (#[trigger] spans[q]).0 > r.0,
    ensures
        insert_span(spans, r) == spans.insert(p, r),
    decreases spans.len(),
{
    if spans.len() == 0 {
        assert(spans.insert(p, r) =~= seq![r]);
    } else if p == spans.len() {
        assert(spans.insert(p, r) =~= spans.push(r));
    } else {
        let d = spans.drop_last();
        assert(spans[spans.len() - 1].0 > r.0);
        assert forall|q: int| p <= q < d.len() implies (#[trigger] d[q]).0 > r.0 by {
            assert(d[q] == spans[q]);
        }
        lemma_insert_span_at(d, r, p);
        assert(d.insert(p, r).push(spans.last()) =~= spans.insert(p, r));
    }
}

/// Spans are in order by start, pairwise.
pub open spec fn sorted_by_start(s: Seq<(usize, usize)>) -> bool {
    forall|i: int, j: int| 0 <= i < j < s.len() ==> (#[trigger] s[i]).0 <= (#[trigger] s[j]).0
}

proof fn lemma_insert_span_facts(s: Seq<(usize, usize)>, r: (usize, usize))
    ensures
        forall|x: (usize, usize)| #[trigger] insert_span(s, r).contains(x) ==> x == r || s.contains(x),
        sorted_by_start(s) ==> sorted_by_start(insert_span(s, r)),
    decreases s.len(),
{
    let out = insert_span(s, r);
    if s.len() == 0 {
        assert forall|x: (usize, usize)| #[trigger] out.contains(x) implies x == r || s.contains(x) by {
            assert(out[0] == r);
        }
    } else if s.last().0 <= r.0 {
        assert forall|x: (usize, usize)| #[trigger] out.contains(x) implies x == r || s.contains(x) by {
            vstd::seq_lib::lemma_seq_contains_after_push(s, r, x);
        }
        if sorted_by_start(s) {
            assert forall|i: int, j: int| 0 <= i < j < out.len() implies (#[trigger] out[i]).0 <= (
            #[trigger] out[j]).0 by {
                if j == s.len() {
                    assert(s[i].0 <= s[s.len() - 1].0 || i == s.len() - 1);
                }
            }
        }
    } else {
        let d = s.drop_last();
        lemma_insert_span_facts(d, r);
        let mid = insert_span(d, r);
        assert forall|x: (usize, usize)| #[trigger] out.contains(x) implies x == r || s.contains(x) by {
            vstd::seq_lib::lemma_seq_contains_after_push(mid, s.last(), x);
            if mid.contains(x) && x != r {
                let k = choose|k: int| 0 <= k < d.len() && d[k] == x;
                assert(s[k] == x);
            } else if x != r {
                assert(s[s.len() - 1] == x);
            }
        }
        if sorted_by_start(s) {
            assert(sorted_by_start(d)) by {
                assert forall|i: int, j: int| 0 <= i < j < d.len() implies (#[trigger] d[i]).0 <= (
                #[trigger] d[j]).0 by {
                    assert(d[i] == s[i] && d[j] == s[j]);
                }
            }
            assert forall|i: int, j: int| 0 <= i < j < out.len() implies (#[trigger] out[i]).0 <= (
            #[trigger] out[j]).0 by {
                if j == mid.len() {
                    let x = mid[i];
                    assert(mid.contains(x));
                    if x != r {
                        let k = choose|k: int| 0 <= k < d.len() && d[k] == x;
                        assert(s[k] == x);
                        assert(s[k].0 <= s[s.len() - 1].0);
                    }
                } else {
                    assert(out[i] == mid[i] && out[j] == mid[j]);
                }
            }
        }
    }
}

proof fn lemma_sort_spans_facts(spans: Seq<(usize, usize)>, n: int)
    requires
        0 <= n <= spans.len(),
    ensures
        sorted_by_start(sort_spans(spans, n)),
        sort_spans(spans, n).len() == n,
        forall|x: (usize, usize)| #[trigger] sort_spans(spans, n).contains(x) ==> exists|k: int|
            0 <= k < n && spans[k] == x,
    decreases n,
{
    if n > 0 {
        lemma_sort_spans_facts(spans, n - 1);
        let prev = sort_spans(spans, n - 1);
        lemma_insert_span_facts(prev, spans[n - 1]);
        lemma_insert_span_len(prev, spans[n - 1]);
        assert forall|x: (usize, usize)| #[trigger] sort_spans(spans, n).contains(x) implies exists|k: int|
            0 <= k < n && spans[k] == x by {
            if x != spans[n - 1] {
                assert(prev.contains(x));
            }
        }
    }
}

proof fn lemma_insert_span_len(s: Seq<(usize, usize)>, r: (usize, usize))
    ensures
        insert_span(s, r).len() == s.len() + 1,
    decreases s.len(),
{
    if s.len() > 0 && s.last().0 > r.0 {
        lemma_insert_span_len(s.drop_last(), r);
    }
}

proof fn lemma_dedup_facts(s: Seq<(usize, usize)>)
    ensures
        forall|x: (usize, usize)| #[trigger] dedup_spans(s).contains(x) ==> s.contains(x),
        sorted_by_start(s) ==> sorted_by_start(dedup_spans(s)),
        forall|i: int| 0 < i < dedup_spans(s).len() ==> dedup_spans(s)[i - 1] != #[trigger] dedup_spans(s)[i],
    decreases s.len(),
{
    if s.len() > 0 {
        let d = s.drop_last();
        lemma_dedup_facts(d);
        let prev = dedup_spans(d);
        let out = dedup_spans(s);
        assert forall|x: (usize, usize)| #[trigger] out.contains(x) implies s.contains(x) by {
            vstd::seq_lib::lemma_seq_contains_after_push(prev, s.last(), x);
            if prev.contains(x) {
                let k = choose|k: int| 0 <= k < d.len() && d[k] == x;
                assert(s[k] == x);
            } else {
                assert(s[s.len() - 1] == x);
            }
        }
        if sorted_by_start(s) {
            assert(sorted_by_start(d)) by {
                assert forall|i: int, j: int| 0 <= i < j < d.len() implies (#[trigger] d[i]).0 <= (
                #[trigger] d[j]).0 by {
                    assert(d[i] == s[i] && d[j] == s[j]);
                }
            }
            if !(prev.len() > 0 && prev.last() == s.last()) {
                assert forall|i: int, j: int| 0 <= i < j < out.len() implies (#[trigger] out[i]).0 <= (
                #[trigger] out[j]).0 by {
                    if j == prev.len() {
                        let x = prev[i];
                        assert(prev.contains(x));
                        let k = choose|k: int| 0 <= k < d.len() && d[k] == x;
                        assert(s[k] == x);
                        assert(s[k].0 <= s[s.len() - 1].0);
                    } else {
                        assert(out[i] == prev[i] && out[j] == prev[j]);
                    }
                }
            }
        }
        if !(prev.len() > 0 && prev.last() == s.last()) {
            assert forall|i: int| 0 < i < out.len() implies out[i - 1] != #[trigger] out[i] by {
                if i < prev.len() {
                    assert(out[i - 1] == prev[i - 1] && out[i] == prev[i]);
                } else {
                    assert(out[i - 1] == prev.last());
                }
            }
        }
    }
}

proof fn lemma_with_text_facts(content: Seq<char>, spans: Seq<(usize, usize)>, text: Seq<char>)
    ensures
        forall|x: (usize, usize)| #[trigger] with_text(content, spans, text).contains(x) ==> spans.contains(x)
            && byte_slice(content, x.0 as int, x.1 as int) == Some(text),
    decreases spans.len(),
{
    if spans.len() > 0 {
        let d = spans.drop_last();
        lemma_with_text_facts(content, d, text);
        let rest = with_text(content, d, text);
        assert forall|x: (usize, usize)| #[trigger] with_text(content, spans, text).contains(x) implies spans.contains(x)
            && byte_slice(content, x.0 as int, x.1 as int) == Some(text) by {
            vstd::seq_lib::lemma_seq_contains_after_push(rest, spans.last(), x);
            if rest.contains(x) {
                let k = choose|k: int| 0 <= k < d.len() && d[k] == x;
                assert(spans[k] == x);
            } else {
                assert(spans[spans.len() - 1] == x);
            }
        }
    }
}

/// The highlighted spans are sorted by start, each is one of the
/// collected spans, and no span directly repeats the one before it.
pub proof fn lemma_highlight_sorted_members(spans: Seq<(usize, usize)>)
    requires
        highlight_spec(spans) is Some,
    ensures
        sorted_by_start(highlight_spec(spans)->0),
        forall|i: int|
            0 <= i < highlight_spec(spans)->0.len() ==> spans.contains(
                #[trigger] highlight_spec(spans)->0[i],
            ),
        forall|i: int|
            0 < i < highlight_spec(spans)->0.len() ==> highlight_spec(spans)->0[i - 1]
                != #[trigger] highlight_spec(spans)->0[i],
{
    let sorted = sort_spans(spans, spans.len() as int);
    lemma_sort_spans_facts(spans, spans.len() as int);
    lemma_dedup_facts(sorted);
    let out = dedup_spans(sorted);
    assert forall|i: int| 0 <= i < out.len() implies spans.contains(#[trigger] out[i]) by {
        assert(out.contains(out[i]));
        assert(sorted.contains(out[i]));
        let k = choose|k: int| 0 <= k < spans.len() && spans[k] == out[i];
    }
}

/// Every span of a linked-editing set holds the same source text as the
/// first span under the cursor; the set has at least two spans, is sorted
/// by start, and each of its spans is one of the collected spans.
pub proof fn lemma_linked_spans_share_text(content: Seq<char>, spans: Seq<(usize, usize)>, off: int)
    requires
        linked_spec(content, spans, off) is Some,
    ensures
        first_covering(spans, off) is Some,
        linked_spec(content, spans, off)->0.len() >= 2,
        sorted_by_start(linked_spec(content, spans, off)->0),
        forall|i: int|
            0 <= i < linked_spec(content, spans, off)->0.len() ==> spans.contains(
                #[trigger] linked_spec(content, spans, off)->0[i],
            ) && byte_slice(
                content,
                linked_spec(content, spans, off)->0[i].0 as int,
                linked_spec(content, spans, off)->0[i].1 as int,
            ) == byte_slice(
                content,
                spans[first_covering(spans, off)->0].0 as int,
                spans[first_covering(spans, off)->0].1 as int,
            ),
{
    let a = first_covering(spans, off)->0;
    let text = byte_slice(content, spans[a].0 as int, spans[a].1 as int)->0;
    let kept = with_text(content, spans, text);
    let sorted = sort_spans(kept, kept.len() as int);
    lemma_with_text_facts(content, spans, text);
    lemma_sort_spans_facts(kept, kept.len() as int);
    lemma_dedup_facts(sorted);
    let out = dedup_spans(sorted);
    assert forall|i: int| 0 <= i < out.len() implies spans.contains(#[trigger] out[i])
        && byte_slice(content, out[i].0 as int, out[i].1 as int) == Some(text) by {
        assert(out.contains(out[i]));
        assert(sorted.contains(out[i]));
        let k = choose|k: int| 0 <= k < kept.len() && kept[k] == out[i];
        assert(kept.contains(out[i]));
    }
}

/// The spans in stable order by start.
pub(crate) fn sort_by_start(spans: &Vec<(usize, usize)>) -> (out: Vec<(usize, usize)>)
    ensures
        out@ == sort_spans(spans@, spans@.len() as int),
{
    let mut out: Vec<(usize, usize)> = Vec::new();
    let mut i: usize = 0;
    while i < spans.len()
        invariant
            i <= spans@.len(),
            out@ == sort_spans(spans@, i as int),
        decreases spans.len() - i,
    {
        let r = spans[i];
        let mut p: usize = out.len();
        while p > 0
            invariant
                p <= out@.len(),
                forall|q: int| p <= q < out@.len() ==> (#[trigger] out@[q]).0 > r.0,
            ensures
                p <= out@.len(),
                p == 0 || out@[p - 1].0 <= r.0,
                forall|q: int| p <= q < out@.len() ==> (#[trigger] out@[q]).0 > r.0,
            decreases p,
        {
            if out[p - 1].0 <= r.0 {
                break;
            }
            p = p - 1;
        }
        proof {
            lemma_insert_span_at(out@, r, p as int);
        }
        out.insert(p, r);
        i = i + 1;
    }
    out
}

/// The spans without each span equal to the one before it.
pub(crate) fn dedup_adjacent(spans: &Vec<(usize, usize)>) -> (out: Vec<(usize, usize)>)
    ensures
        out@ == dedup_spans(spans@),
{
    let mut out: Vec<(usize, usize)> = Vec::new();
    let mut i: usize = 0;
    while i < spans.len()
        invariant
            i <= spans@.len(),
            out@ == dedup_spans(spans@.take(i as int)),
        decreases spans.len() - i,
    {
        proof {
            assert(spans@.take(i + 1).drop_last() =~= spans@.take(i as int));
            assert(spans@.take(i + 1).last() == spans@[i as int]);
        }
        let r = spans[i];
        if out.len() == 0 || out[out.len() - 1].0 != r.0 || out[out.len() - 1].1 != r.1 {
            out.push(r);
        }
        i = i + 1;
    }
    assert(spans@.take(i as int) =~= spans@);
    out
}

/// The spans highlighted for a symbol (see [`highlight_spec`]).
pub fn highlight_spans(spans: &Vec<(usize, usize)>) -> (r: Option<Vec<(usize, usize)>>)
    ensures
        match r {
            Some(v) => highlight_spec(spans@) == Some(v@),
            None => highlight_spec(spans@) is None,
        },
{
    let sorted = sort_by_start(spans);
    let out = dedup_adjacent(&sorted);
    if out.len() == 0 {
        None
    } else {
        Some(out)
    }
}

/// The spans edited together with the span under offset `off` (see
/// [`linked_spec`]).
pub fn linked_spans(content: &str, spans: &Vec<(usize, usize)>, off: usize) -> (r: Option<
    Vec<(usize, usize)>,
>)
    requires
        utf8_len(content@) <= usize::MAX,
    ensures
        match r {
            Some(v) => linked_spec(content@, spans@, off as int) == Some(v@),
            None => linked_spec(content@, spans@, off as int) is None,
        },
{
    let mut a: usize = 0;
    while a < spans.len() && !(spans[a].0 <= off && off <= spans[a].1)
        invariant
            a <= spans@.len(),
            first_covering(spans@.take(a as int), off as int) is None,
        decreases spans.len() - a,
    {
        proof {
            assert(spans@.take(a + 1).drop_last() =~= spans@.take(a as int));
            assert(spans@.take(a + 1).last() == spans@[a as int]);
        }
        a = a + 1;
    }
    proof {
        lemma_first_covering_prefix(spans@, a as int, off as int);
    }
    if a == spans.len() {
        return None;
    }
    let cs = chars_of(content);
    let anchor = match slice_bytes(&cs, spans[a].0, spans[a].1) {
        Some(t) => t,
        None => {
            return None;
        },
    };
    let ghost text = anchor@;
    let mut kept: Vec<(usize, usize)> = Vec::new();
    let mut i: usize = 0;
    while i < spans.len()
        invariant
            i <= spans@.len(),
            cs@ == content@,
            utf8_len(cs@) <= usize::MAX,
            anchor@ == text,
            kept@ == with_text(content@, spans@.take(i as int), text),
        decreases spans.len() - i,
    {
        proof {
            assert(spans@.take(i + 1).drop_last() =~= spans@.take(i as int));
            assert(spans@.take(i + 1).last() == spans@[i as int]);
        }
        let same = match slice_bytes(&cs, spans[i].0, spans[i].1) {
            Some(t) => vec_eq(&t, &anchor),
            None => false,
        };
        if same {
            kept.push(spans[i]);
        }
        i = i + 1;
    }
    assert(spans@.take(i as int) =~= spans@);
    let sorted = sort_by_start(&kept);
    let out = dedup_adjacent(&sorted);
    if out.len() < 2 {
        None
    } else {
        Some(out)
    }
}

/// The first covering span of a prefix that has one is the first of the
/// whole list; when the scan stopped at a covering span it is the first.
proof fn lemma_first_covering_prefix(spans: Seq<(usize, usize)>, a: int, off: int)
    requires
        0 <= a <= spans.len(),
        first_covering(spans.take(a), off) is None,
        a < spans.len() ==> covers(spans[a], off),
    ensures
        first_covering(spans, off) == if a < spans.len() {
            Some(a)
        } else {
            None::<int>
        },
    decreases spans.len() - a,
{
    if a == spans.len() {
        assert(spans.take(a) =~= spans);
    } else {
        lemma_first_covering_extend(spans, spans.len() as int, a, off);
        assert(spans.take(spans.len() as int) =~= spans);
    }
}

proof fn lemma_first_covering_extend(spans: Seq<(usize, usize)>, n: int, a: int, off: int)
    requires
        0 <= a < n <= spans.len(),
        first_covering(spans.take(a), off) is None,
        covers(spans[a], off),
    ensures
        first_covering(spans.take(n), off) == Some(a),
    decreases n,
{
    if n == a + 1 {
        assert(spans.take(n).drop_last() =~= spans.take(a));
        assert(spans.take(n).last() == spans[a]);
    } else {
        lemma_first_covering_extend(spans, n - 1, a, off);
        assert(spans.take(n).drop_last() =~= spans.take(n - 1));
    }
}

/// The LSP range of a span.
pub open spec fn span_range(content: Seq<char>, r: (usize, usize)) -> Range {
    Range { start: position_of(content, r.0 as int), end: position_of(content, r.1 as int) }
}

/// The LSP ranges of spans, in order.
pub fn spans_to_ranges(content: &str, spans: &Vec<(usize, usize)>) -> (out: Vec<Range>)
    requires
        positions_fit(content@),
    ensures
        out@.len() == spans@.len(),
        forall|i: int| 0 <= i < out@.len() ==> #[trigger] out@[i] == span_range(content@, spans@[i]),
{
    let mut out: Vec<Range> = Vec::new();
    let mut i: usize = 0;
    while i < spans.len()
        invariant
            i <= spans@.len(),
            positions_fit(content@),
            out@.len() == i,
            forall|j: int| 0 <= j < i ==> #[trigger] out@[j] == span_range(content@, spans@[j]),
        decreases spans.len() - i,
    {
        let start: Position = offset_to_position(content, spans[i].0);
        let end: Position = offset_to_position(content, spans[i].1);
        out.push(Range { start, end });
        i = i + 1;
    }
    out
}

/// One edit per span, each replacing the span's range by `new_text`.
pub fn text_edits_from_ranges(spans: &Vec<(usize, usize)>, text: &str, new_text: &str) -> (out: Vec<
    TextEdit,
>)
    requires
        positions_fit(text@),
    ensures
        out@.len() == spans@.len(),
        forall|i: int|
            0 <= i < out@.len() ==> (#[trigger] out@[i]).range == span_range(text@, spans@[i])
                && out@[i].new_text@ == new_text@,
{
    let ranges = spans_to_ranges(text, spans);
    let mut out: Vec<TextEdit> = Vec::new();
    let mut i: usize = 0;
    while i < ranges.len()
        invariant
            i <= ranges@.len(),
            ranges@.len() == spans@.len(),
            forall|j: int| 0 <= j < ranges@.len() ==> #[trigger] ranges@[j] == span_range(text@, spans@[j]),
            out@.len() == i,
            forall|j: int|
                0 <= j < i ==> (#[trigger] out@[j]).range == span_range(text@, spans@[j])
                    && out@[j].new_text@ == new_text@,
        decreases ranges.len() - i,
    {
        out.push(TextEdit { range: ranges[i], new_text: new_text.to_string() });
        i = i + 1;
    }
    out
}

} // verus!
