//! Workspace symbols: the heading outline of a document and the symbols it
//! contributes to a workspace query, each with the title of the heading
//! that contains it.

use vstd::prelude::*;
use crate::folding::{get_heading_level, heading_level_spec};
use crate::outline::{outline_parents, parent_spec, OutlineEntry};
use crate::syntax::{element_text, first_child_node, ElementView, SyntaxKind, SyntaxTree};
use crate::text::{
    chars_of, contains_seq, spec_to_lowercase, str_to_lowercase, string_from_chars, trim_ws,
    vec_contains, vec_trim,
};

verus! {

/// A heading of the outline: its title, level and byte range.
pub struct OutlineHeading {
    pub title: String,
    pub level: usize,
    pub start: usize,
    pub end: usize,
}

/// The view of an outline heading.
pub struct HeadingView {
    pub title: Seq<char>,
    pub level: nat,
    pub start: int,
    pub end: int,
}

/// The title of heading `h`: the trimmed text of its content, `(empty)`
/// when that is empty.
pub open spec fn heading_title(es: Seq<ElementView>, h: int) -> Seq<char> {
    let t = match first_child_node(es, h, SyntaxKind::HEADING_CONTENT) {
        Some(c) => trim_ws(element_text(es, c)),
        None => seq![],
    };
    if t.len() == 0 {
        "(empty)"@
    } else {
        t
    }
}

/// The headings among the children of the root with index below `hi`
/// (levels of zero left out), in order.
pub open spec fn outline_below(es: Seq<ElementView>, hi: int) -> Seq<HeadingView>
    decreases hi,
{
    if hi <= 1 {
        seq![]
    } else {
        let prev = outline_below(es, hi - 1);
        let h = hi - 1;
        if es[h].parent == 0 && !es[h].is_token && es[h].kind == SyntaxKind::HEADING && heading_level_spec(
            es,
            h,
        ) != 0 {
            prev.push(
                HeadingView {
                    title: heading_title(es, h),
                    level: heading_level_spec(es, h),
                    start: es[h].start,
                    end: es[h].end,
                },
            )
        } else {
            prev
        }
    }
}

/// The outline of a document: nothing unless the root is a document, else
/// its top-level headings (see [`outline_below`]).
pub open spec fn outline_spec(es: Seq<ElementView>) -> Seq<HeadingView> {
    if es[0].kind != SyntaxKind::DOCUMENT {
        seq![]
    } else {
        outline_below(es, es[0].subtree_end)
    }
}

/// The view of an outline.
pub open spec fn outline_views(v: Seq<OutlineHeading>) -> Seq<HeadingView> {
    v.map_values(|h: OutlineHeading| HeadingView { title: h.title@, level: h.level as nat, start: h.start as int, end: h.end as int })
}

/// The title of heading `h` (see [`heading_title`]).
pub(crate) fn heading_title_of(tree: &SyntaxTree, h: usize) -> (title: String)
    requires
        h < tree@.len(),
    ensures
        title@ == heading_title(tree@, h as int),
{
    let t = match tree.first_child_node_of(h, SyntaxKind::HEADING_CONTENT) {
        Some(c) => vec_trim(&chars_of(tree.text(c).as_str())),
        None => Vec::new(),
    };
    if t.len() == 0 {
        string_from_chars(&chars_of("(empty)"))
    } else {
        string_from_chars(&t)
    }
}

/// The heading outline of a document (see [`outline_spec`]).
pub fn heading_outline_from_root(tree: &SyntaxTree) -> (out: Vec<OutlineHeading>)
    ensures
        outline_views(out@) == outline_spec(tree@),
{
    let _ = tree.len();
    let mut out: Vec<OutlineHeading> = Vec::new();
    if tree.kind(0) != SyntaxKind::DOCUMENT {
        return out;
    }
    let hi = tree.subtree_end(0);
    let mut j: usize = 1;
    while j < hi
        invariant
            1 <= j <= hi == tree@[0].subtree_end,
            hi <= tree@.len(),
            tree@[0].kind == SyntaxKind::DOCUMENT,
            outline_views(out@) == outline_below(tree@, j as int),
        decreases hi - j,
    {
        if tree.parent(j) matches Some(p) && p == 0 && !tree.is_token(j) && tree.kind(j) == SyntaxKind::HEADING {
            let level = get_heading_level(tree, j);
            if level != 0 {
                let title = heading_title_of(tree, j);
                let ghost before = out@;
                out.push(OutlineHeading { title, level, start: tree.start(j), end: tree.end(j) });
                assert(outline_views(out@) =~= outline_views(before).push(
                    HeadingView {
                        title: heading_title(tree@, j as int),
                        level: heading_level_spec(tree@, j as int),
                        start: tree@[j as int].start,
                        end: tree@[j as int].end,
                    },
                ));
            }
        }
        j = j + 1;
    }
    out
}

/// The outline as outline entries (headings of the given levels).
pub open spec fn as_entries(hs: Seq<HeadingView>) -> Seq<OutlineEntry> {
    hs.map_values(|h: HeadingView| OutlineEntry::Heading(h.level as usize))
}

/// Heading `i` matches the (lowercase) query: the query is empty or the
/// lowercased title contains it.
pub open spec fn matches_symbol_query(h: HeadingView, query: Seq<char>) -> bool {
    query.len() == 0 || contains_seq(spec_to_lowercase(h.title), query)
}

/// The symbols among the first `n` headings: each matching heading's
/// index and the index of the heading containing it (see
/// [`crate::outline::parent_spec`]).
pub open spec fn symbols_spec(hs: Seq<HeadingView>, query: Seq<char>, n: int) -> Seq<(int, Option<int>)>
    decreases n,
{
    if n <= 0 {
        seq![]
    } else {
        let prev = symbols_spec(hs, query, n - 1);
        if matches_symbol_query(hs[n - 1], query) {
            prev.push((n - 1, parent_spec(as_entries(hs), n - 1)))
        } else {
            prev
        }
    }
}

/// One workspace symbol of a document: the heading and the heading that
/// contains it, by index into the outline.
pub struct SymbolEntry {
    pub heading: usize,
    pub container: Option<usize>,
}

/// The symbols a document's outline contributes to the query `query`
/// (already trimmed and lowercased), in outline order (see
/// [`symbols_spec`]).
pub fn symbols_for_document(outline: &Vec<OutlineHeading>, query: &str) -> (out: Vec<SymbolEntry>)
    ensures
        out@.map_values(|e: SymbolEntry| (e.heading as int, match e.container {
            Some(c) => Some(c as int),
            None => None::<int>,
        })) == symbols_spec(outline_views(outline@), query@, outline@.len() as int),
{
    let ghost hs = outline_views(outline@);
    let mut entries: Vec<OutlineEntry> = Vec::new();
    let mut i: usize = 0;
    while i < outline.len()
        invariant
            i <= outline@.len(),
            hs == outline_views(outline@),
            entries@ == as_entries(hs).take(i as int),
        decreases outline.len() - i,
    {
        entries.push(OutlineEntry::Heading(outline[i].level));
        i = i + 1;
        assert(entries@ =~= as_entries(hs).take(i as int));
    }
    assert(as_entries(hs).take(i as int) =~= as_entries(hs));
    let parents = outline_parents(&entries);
    let q = chars_of(query);
    let mut out: Vec<SymbolEntry> = Vec::new();
    let mut k: usize = 0;
    while k < outline.len()
        invariant
            k <= outline@.len() == parents@.len() == entries@.len(),
            hs == outline_views(outline@),
            entries@ == as_entries(hs),
            q@ == query@,
            forall|m: int|
                0 <= m < entries@.len() ==> match #[trigger] parents@[m] {
                    Some(p) => parent_spec(entries@, m) == Some(p as int),
                    None => parent_spec(entries@, m) is None,
                },
            out@.map_values(|e: SymbolEntry| (e.heading as int, match e.container {
                Some(c) => Some(c as int),
                None => None::<int>,
            })) == symbols_spec(hs, query@, k as int),
        decreases outline.len() - k,
    {
        let title = chars_of(str_to_lowercase(outline[k].title.as_str()).as_str());
        let matched = q.len() == 0 || vec_contains(&title, &q);
        if matched {
            let ghost before = out@;
            let parent = parents[k];
            out.push(SymbolEntry { heading: k, container: parent });
            assert(out@.map_values(|e: SymbolEntry| (e.heading as int, match e.container {
                Some(c) => Some(c as int),
                None => None::<int>,
            })) =~= symbols_spec(hs, query@, k as int).push((k as int, parent_spec(as_entries(hs), k as int))));
        }
        k = k + 1;
    }
    out
}

/// The query of a workspace-symbol request as matched: trimmed and
/// lowercased.
pub fn normalize_symbol_query(raw: &str) -> (q: String)
    ensures
        q@ == spec_to_lowercase(trim_ws(raw@)),
{
    let t = string_from_chars(&vec_trim(&chars_of(raw)));
    str_to_lowercase(t.as_str())
}

/// A workspace symbol row: the document, the heading's range, its name
/// and the name of the heading containing it.
#[derive(Debug)]
pub struct SymbolRow {
    pub uri: String,
    pub range: crate::text::Range,
    pub name: String,
    pub container: Option<String>,
}

/// Three-way comparison of character sequences, character by character:
/// negative, zero or positive.
pub open spec fn order_chars(a: Seq<char>, b: Seq<char>) -> int
    decreases a.len(),
{
    if a.len() == 0 && b.len() == 0 {
        0
    } else if a.len() == 0 {
        -1
    } else if b.len() == 0 {
        1
    } else if (a[0] as u32) < (b[0] as u32) {
        -1
    } else if (a[0] as u32) > (b[0] as u32) {
        1
    } else {
        order_chars(a.drop_first(), b.drop_first())
    }
}

/// Three-way comparison of integers.
pub open spec fn order_int(a: int, b: int) -> int {
    if a < b {
        -1
    } else if a > b {
        1
    } else {
        0
    }
}

/// The first nonzero of two comparisons.
pub open spec fn lex(first: int, second: int) -> int {
    if first != 0 {
        first
    } else {
        second
    }
}

/// Three-way comparison of optional names: none first.
pub open spec fn order_opt(a: Option<String>, b: Option<String>) -> int {
    match (a, b) {
        (None, None) => 0,
        (None, Some(_)) => -1,
        (Some(_), None) => 1,
        (Some(x), Some(y)) => order_chars(x@, y@),
    }
}

/// The order of workspace symbols: by document, then range start, range
/// end (line, then column), then name, then container.
pub open spec fn order_rows(a: SymbolRow, b: SymbolRow) -> int {
    lex(
        order_chars(a.uri@, b.uri@),
        lex(
            order_int(a.range.start.line as int, b.range.start.line as int),
            lex(
                order_int(a.range.start.character as int, b.range.start.character as int),
                lex(
                    order_int(a.range.end.line as int, b.range.end.line as int),
                    lex(
                        order_int(a.range.end.character as int, b.range.end.character as int),
                        lex(order_chars(a.name@, b.name@), order_opt(a.container, b.container)),
                    ),
                ),
            ),
        ),
    )
}

/// `rows` with `r` inserted after the last row that does not sort after
/// it (a stable insertion).
pub open spec fn insert_row(rows: Seq<SymbolRow>, r: SymbolRow) -> Seq<SymbolRow>
    decreases rows.len(),
{
    if rows.len() == 0 {
        seq![r]
    } else if order_rows(rows.last(), r) <= 0 {
        rows.push(r)
    } else {
        insert_row(rows.drop_last(), r).push(rows.last())
    }
}

/// The first `n` rows in stable sorted order.
pub open spec fn sort_rows(rows: Seq<SymbolRow>, n: int) -> Seq<SymbolRow>
    decreases n,
{
    if n <= 0 {
        seq![]
    } else {
        insert_row(sort_rows(rows, n - 1), rows[n - 1])
    }
}

/// Two rows name the same symbol: same name, document and range.
pub open spec fn same_symbol(a: SymbolRow, b: SymbolRow) -> bool {
    a.name@ == b.name@ && a.uri@ == b.uri@ && a.range == b.range
}

/// `rows` without each row that names the same symbol as the row kept
/// before it.
pub open spec fn dedup_rows(rows: Seq<SymbolRow>) -> Seq<SymbolRow>
    decreases rows.len(),
{
    if rows.len() == 0 {
        seq![]
    } else {
        let prev = dedup_rows(rows.drop_last());
        if prev.len() > 0 && same_symbol(prev.last(), rows.last()) {
            prev
        } else {
            prev.push(rows.last())
        }
    }
}

pub(crate) fn order_str(a: &str, b: &str) -> (c: i8)
    ensures
        c as int == order_chars(a@, b@),
{
    let x = chars_of(a);
    let y = chars_of(b);
    let mut i: usize = 0;
    assert(x@.skip(0) =~= x@);
    assert(y@.skip(0) =~= y@);
    while i < x.len() && i < y.len() && (x[i] as u32) == (y[i] as u32)
        invariant
            i <= x@.len(),
            i <= y@.len(),
            order_chars(x@, y@) == order_chars(x@.skip(i as int), y@.skip(i as int)),
        decreases x.len() - i,
    {
        assert(x@.skip(i as int).drop_first() =~= x@.skip(i + 1));
        assert(y@.skip(i as int).drop_first() =~= y@.skip(i + 1));
        i = i + 1;
    }
    if i == x.len() && i == y.len() {
        0
    } else if i == x.len() {
        -1
    } else if i == y.len() {
        1
    } else {
        assert(x@.skip(i as int)[0] == x@[i as int]);
        assert(y@.skip(i as int)[0] == y@[i as int]);
        if (x[i] as u32) < (y[i] as u32) {
            -1
        } else {
            1
        }
    }
}

pub(crate) fn order_num(a: u32, b: u32) -> (c: i8)
    ensures
        c as int == order_int(a as int, b as int),
{
    if a < b {
        -1
    } else if a > b {
        1
    } else {
        0
    }
}

fn order_row(a: &SymbolRow, b: &SymbolRow) -> (c: i8)
    ensures
        c as int == order_rows(*a, *b),
{
    let u = order_str(a.uri.as_str(), b.uri.as_str());
    if u != 0 {
        return u;
    }
    let c = order_num(a.range.start.line, b.range.start.line);
    if c != 0 {
        return c;
    }
    let c = order_num(a.range.start.character, b.range.start.character);
    if c != 0 {
        return c;
    }
    let c = order_num(a.range.end.line, b.range.end.line);
    if c != 0 {
        return c;
    }
    let c = order_num(a.range.end.character, b.range.end.character);
    if c != 0 {
        return c;
    }
    let c = order_str(a.name.as_str(), b.name.as_str());
    if c != 0 {
        return c;
    }
    match (&a.container, &b.container) {
        (None, None) => 0,
        (None, Some(_)) => -1,
        (Some(_), None) => 1,
        (Some(x), Some(y)) => order_str(x.as_str(), y.as_str()),
    }
}

proof fn lemma_insert_row_at(rows: Seq<SymbolRow>, r: SymbolRow, p: int)
    requires
        0 <= p <= rows.len(),
        p == 0 || order_rows(rows[p - 1], r) <= 0,
        forall|q: int| p <= q < rows.len() ==> order_rows(#[trigger] rows[q], r) > 0,
    ensures
        insert_row(rows, r) == rows.insert(p, r),
    decreases rows.len(),
{
    if rows.len() == 0 {
        assert(rows.insert(p, r) =~= seq![r]);
    } else if p == rows.len() {
        assert(rows.insert(p, r) =~= rows.push(r));
    } else {
        let d = rows.drop_last();
        assert(order_rows(rows[rows.len() - 1], r) > 0);
        assert forall|q: int| p <= q < d.len() implies order_rows(#[trigger] d[q], r) > 0 by {
            assert(d[q] == rows[q]);
        }
        lemma_insert_row_at(d, r, p);
        assert(d.insert(p, r).push(rows.last()) =~= rows.insert(p, r));
    }
}

/// The workspace symbols sorted (stably, see [`order_rows`]) with repeats
/// of the same symbol dropped (see [`dedup_rows`]).
pub fn sort_and_dedup_symbols(rows: Vec<SymbolRow>) -> (out: Vec<SymbolRow>)
    ensures
        out@ == dedup_rows(sort_rows(rows@, rows@.len() as int)),
{
    let ghost input = rows@;
    let n = rows.len();
    let mut rest = rows;
    let mut reversed: Vec<SymbolRow> = Vec::new();
    while rest.len() > 0
        invariant
            reversed@.len() + rest@.len() == input.len(),
            input.len() == n,
            forall|k: int| 0 <= k < rest@.len() ==> rest@[k] == input[k],
            forall|k: int| 0 <= k < reversed@.len() ==> reversed@[k] == input[input.len() - 1 - k],
        decreases rest.len(),
    {
        let r = rest.pop().unwrap();
        reversed.push(r);
    }
    let mut sorted: Vec<SymbolRow> = Vec::new();
    let mut i: usize = 0;
    while reversed.len() > 0
        invariant
            i + reversed@.len() == input.len(),
            input.len() == n,
            forall|k: int| 0 <= k < reversed@.len() ==> reversed@[k] == input[input.len() - 1 - k],
            sorted@ == sort_rows(input, i as int),
        decreases reversed.len(),
    {
        let r = reversed.pop().unwrap();
        assert(r == input[i as int]);
        let mut p: usize = sorted.len();
        while p > 0
            invariant
                p <= sorted@.len(),
                forall|q: int| p <= q < sorted@.len() ==> order_rows(#[trigger] sorted@[q], r) > 0,
            ensures
                p <= sorted@.len(),
                p == 0 || order_rows(sorted@[p - 1], r) <= 0,
                forall|q: int| p <= q < sorted@.len() ==> order_rows(#[trigger] sorted@[q], r) > 0,
            decreases p,
        {
            if order_row(&sorted[p - 1], &r) <= 0 {
                break;
            }
            p = p - 1;
        }
        proof {
            lemma_insert_row_at(sorted@, r, p as int);
        }
        sorted.insert(p, r);
        i = i + 1;
    }
    let ghost all = sorted@;
    let mut rev_sorted: Vec<SymbolRow> = Vec::new();
    let m = sorted.len();
    while sorted.len() > 0
        invariant
            rev_sorted@.len() + sorted@.len() == all.len(),
            all.len() == m,
            forall|k: int| 0 <= k < sorted@.len() ==> sorted@[k] == all[k],
            forall|k: int| 0 <= k < rev_sorted@.len() ==> rev_sorted@[k] == all[all.len() - 1 - k],
        decreases sorted.len(),
    {
        let r = sorted.pop().unwrap();
        rev_sorted.push(r);
    }
    let mut out: Vec<SymbolRow> = Vec::new();
    let mut j: usize = 0;
    while rev_sorted.len() > 0
        invariant
            j + rev_sorted@.len() == all.len(),
            all.len() == m,
            forall|k: int| 0 <= k < rev_sorted@.len() ==> rev_sorted@[k] == all[all.len() - 1 - k],
            out@ == dedup_rows(all.take(j as int)),
        decreases rev_sorted.len(),
    {
        let r = rev_sorted.pop().unwrap();
        proof {
            assert(r == all[j as int]);
            assert(all.take(j + 1).drop_last() =~= all.take(j as int));
            assert(all.take(j + 1).last() == all[j as int]);
        }
        let dup = if out.len() > 0 {
            let last = &out[out.len() - 1];
            last.range == r.range && crate::text::str_eq(last.name.as_str(), r.name.as_str())
                && crate::text::str_eq(last.uri.as_str(), r.uri.as_str())
        } else {
            false
        };
        if !dup {
            out.push(r);
        }
        j = j + 1;
    }
    assert(all.take(j as int) =~= all);
    out
}

proof fn lemma_order_chars_flip(a: Seq<char>, b: Seq<char>)
    ensures
        order_chars(a, b) == -order_chars(b, a),
    decreases a.len(),
{
    if a.len() > 0 && b.len() > 0 && (a[0] as u32) == (b[0] as u32) {
        lemma_order_chars_flip(a.drop_first(), b.drop_first());
    }
}

/// Sequences that compare equal compare alike with every third sequence.
proof fn lemma_order_chars_zero(a: Seq<char>, b: Seq<char>, c: Seq<char>)
    ensures
        order_chars(a, b) == 0 ==> order_chars(a, c) == order_chars(b, c) && order_chars(c, a)
            == order_chars(c, b),
    decreases a.len(),
{
    if a.len() > 0 && b.len() > 0 && c.len() > 0 && (a[0] as u32) == (b[0] as u32) {
        lemma_order_chars_zero(a.drop_first(), b.drop_first(), c.drop_first());
    }
}

proof fn lemma_order_chars_trans(a: Seq<char>, b: Seq<char>, c: Seq<char>)
    requires
        order_chars(a, b) <= 0,
        order_chars(b, c) <= 0,
    ensures
        order_chars(a, c) <= 0,
    decreases a.len(),
{
    if a.len() > 0 && b.len() > 0 && c.len() > 0 && (a[0] as u32) == (b[0] as u32) && (b[0]
        as u32) == (c[0] as u32) {
        lemma_order_chars_trans(a.drop_first(), b.drop_first(), c.drop_first());
    }
}

/// A three-way comparison `x` over a component behaves like a total order
/// on the component's values of rows `a`, `b`, `c`.
pub open spec fn component_ordered(x_ab: int, x_bc: int, x_ac: int, x_ba: int) -> bool {
    &&& x_ab <= 0 && x_bc <= 0 ==> x_ac <= 0
    &&& x_ab == 0 ==> x_ac == x_bc
    &&& x_bc == 0 ==> x_ac == x_ab
    &&& x_ab < 0 && x_bc <= 0 ==> x_ac < 0
    &&& x_ab <= 0 && x_bc < 0 ==> x_ac < 0
    &&& x_ba == -x_ab
}

pub(crate) proof fn lemma_chars_component(a: Seq<char>, b: Seq<char>, c: Seq<char>)
    ensures
        component_ordered(
            order_chars(a, b),
            order_chars(b, c),
            order_chars(a, c),
            order_chars(b, a),
        ),
{
    lemma_order_chars_flip(a, b);
    lemma_order_chars_zero(a, b, c);
    lemma_order_chars_zero(b, c, a);
    lemma_order_chars_zero(a, c, b);
    if order_chars(a, b) <= 0 && order_chars(b, c) <= 0 {
        lemma_order_chars_trans(a, b, c);
    }
}

proof fn lemma_opt_component(a: Option<String>, b: Option<String>, c: Option<String>)
    ensures
        component_ordered(order_opt(a, b), order_opt(b, c), order_opt(a, c), order_opt(b, a)),
{
    match (a, b, c) {
        (Some(x), Some(y), Some(z)) => lemma_chars_component(x@, y@, z@),
        (Some(x), Some(y), None) => lemma_order_chars_flip(x@, y@),
        (None, Some(y), Some(z)) => lemma_order_chars_flip(y@, z@),
        (Some(x), None, Some(z)) => lemma_order_chars_flip(x@, z@),
        _ => {},
    }
}

pub(crate) proof fn lemma_then_ordered(
    x_ab: int,
    x_bc: int,
    x_ac: int,
    x_ba: int,
    r_ab: int,
    r_bc: int,
    r_ac: int,
    r_ba: int,
)
    requires
        component_ordered(x_ab, x_bc, x_ac, x_ba),
        component_ordered(r_ab, r_bc, r_ac, r_ba),
    ensures
        component_ordered(
            lex(x_ab, r_ab),
            lex(x_bc, r_bc),
            lex(x_ac, r_ac),
            lex(x_ba, r_ba),
        ),
{
}

/// The order of workspace symbols is a total preorder: transitive, and
/// reversing the arguments reverses the sign.
proof fn lemma_rows_ordered(a: SymbolRow, b: SymbolRow, c: SymbolRow)
    ensures
        component_ordered(order_rows(a, b), order_rows(b, c), order_rows(a, c), order_rows(b, a)),
{
    lemma_chars_component(a.uri@, b.uri@, c.uri@);
    lemma_chars_component(a.name@, b.name@, c.name@);
    lemma_opt_component(a.container, b.container, c.container);
    let (ai, bi, ci) = (a.range, b.range, c.range);
    lemma_then_ordered(
        order_chars(a.name@, b.name@),
        order_chars(b.name@, c.name@),
        order_chars(a.name@, c.name@),
        order_chars(b.name@, a.name@),
        order_opt(a.container, b.container),
        order_opt(b.container, c.container),
        order_opt(a.container, c.container),
        order_opt(b.container, a.container),
    );
    let n_ab = lex(order_chars(a.name@, b.name@), order_opt(a.container, b.container));
    let n_bc = lex(order_chars(b.name@, c.name@), order_opt(b.container, c.container));
    let n_ac = lex(order_chars(a.name@, c.name@), order_opt(a.container, c.container));
    let n_ba = lex(order_chars(b.name@, a.name@), order_opt(b.container, a.container));
    let e2_ab = lex(order_int(ai.end.character as int, bi.end.character as int), n_ab);
    let e2_bc = lex(order_int(bi.end.character as int, ci.end.character as int), n_bc);
    let e2_ac = lex(order_int(ai.end.character as int, ci.end.character as int), n_ac);
    let e2_ba = lex(order_int(bi.end.character as int, ai.end.character as int), n_ba);
    lemma_then_ordered(
        order_int(ai.end.character as int, bi.end.character as int),
        order_int(bi.end.character as int, ci.end.character as int),
        order_int(ai.end.character as int, ci.end.character as int),
        order_int(bi.end.character as int, ai.end.character as int),
        n_ab,
        n_bc,
        n_ac,
        n_ba,
    );
    let e1_ab = lex(order_int(ai.end.line as int, bi.end.line as int), e2_ab);
    let e1_bc = lex(order_int(bi.end.line as int, ci.end.line as int), e2_bc);
    let e1_ac = lex(order_int(ai.end.line as int, ci.end.line as int), e2_ac);
    let e1_ba = lex(order_int(bi.end.line as int, ai.end.line as int), e2_ba);
    lemma_then_ordered(
        order_int(ai.end.line as int, bi.end.line as int),
        order_int(bi.end.line as int, ci.end.line as int),
        order_int(ai.end.line as int, ci.end.line as int),
        order_int(bi.end.line as int, ai.end.line as int),
        e2_ab,
        e2_bc,
        e2_ac,
        e2_ba,
    );
    let s2_ab = lex(order_int(ai.start.character as int, bi.start.character as int), e1_ab);
    let s2_bc = lex(order_int(bi.start.character as int, ci.start.character as int), e1_bc);
    let s2_ac = lex(order_int(ai.start.character as int, ci.start.character as int), e1_ac);
    let s2_ba = lex(order_int(bi.start.character as int, ai.start.character as int), e1_ba);
    lemma_then_ordered(
        order_int(ai.start.character as int, bi.start.character as int),
        order_int(bi.start.character as int, ci.start.character as int),
        order_int(ai.start.character as int, ci.start.character as int),
        order_int(bi.start.character as int, ai.start.character as int),
        e1_ab,
        e1_bc,
        e1_ac,
        e1_ba,
    );
    let s1_ab = lex(order_int(ai.start.line as int, bi.start.line as int), s2_ab);
    let s1_bc = lex(order_int(bi.start.line as int, ci.start.line as int), s2_bc);
    let s1_ac = lex(order_int(ai.start.line as int, ci.start.line as int), s2_ac);
    let s1_ba = lex(order_int(bi.start.line as int, ai.start.line as int), s2_ba);
    lemma_then_ordered(
        order_int(ai.start.line as int, bi.start.line as int),
        order_int(bi.start.line as int, ci.start.line as int),
        order_int(ai.start.line as int, ci.start.line as int),
        order_int(bi.start.line as int, ai.start.line as int),
        s2_ab,
        s2_bc,
        s2_ac,
        s2_ba,
    );
    lemma_then_ordered(
        order_chars(a.uri@, b.uri@),
        order_chars(b.uri@, c.uri@),
        order_chars(a.uri@, c.uri@),
        order_chars(b.uri@, a.uri@),
        s1_ab,
        s1_bc,
        s1_ac,
        s1_ba,
    );
}

/// Rows are in order, pairwise.
pub open spec fn rows_sorted(rows: Seq<SymbolRow>) -> bool {
    forall|i: int, j: int|
        0 <= i < j < rows.len() ==> order_rows(#[trigger] rows[i], #[trigger] rows[j]) <= 0
}

proof fn lemma_insert_row_sorted(rows: Seq<SymbolRow>, r: SymbolRow)
    ensures
        forall|x: SymbolRow| #[trigger] insert_row(rows, r).contains(x) ==> x == r || rows.contains(x),
        insert_row(rows, r).len() == rows.len() + 1,
        rows_sorted(rows) ==> rows_sorted(insert_row(rows, r)),
    decreases rows.len(),
{
    let out = insert_row(rows, r);
    if rows.len() == 0 {
        assert forall|x: SymbolRow| #[trigger] out.contains(x) implies x == r || rows.contains(x) by {
            assert(out[0] == r);
        }
    } else if order_rows(rows.last(), r) <= 0 {
        assert forall|x: SymbolRow| #[trigger] out.contains(x) implies x == r || rows.contains(x) by {
            vstd::seq_lib::lemma_seq_contains_after_push(rows, r, x);
        }
        if rows_sorted(rows) {
            assert forall|i: int, j: int| 0 <= i < j < out.len() implies order_rows(
                #[trigger] out[i],
                #[trigger] out[j],
            ) <= 0 by {
                if j == rows.len() && i < rows.len() - 1 {
                    lemma_rows_ordered(rows[i], rows[rows.len() - 1], r);
                    assert(order_rows(rows[i], rows[rows.len() - 1]) <= 0);
                }
            }
        }
    } else {
        let d = rows.drop_last();
        lemma_insert_row_sorted(d, r);
        let mid = insert_row(d, r);
        let last = rows.last();
        assert forall|x: SymbolRow| #[trigger] out.contains(x) implies x == r || rows.contains(x) by {
            vstd::seq_lib::lemma_seq_contains_after_push(mid, last, x);
            if mid.contains(x) && x != r {
                let k = choose|k: int| 0 <= k < d.len() && d[k] == x;
                assert(rows[k] == x);
            } else if x != r {
                assert(rows[rows.len() - 1] == x);
            }
        }
        if rows_sorted(rows) {
            assert(rows_sorted(d)) by {
                assert forall|i: int, j: int| 0 <= i < j < d.len() implies order_rows(
                    #[trigger] d[i],
                    #[trigger] d[j],
                ) <= 0 by {
                    assert(d[i] == rows[i] && d[j] == rows[j]);
                }
            }
            assert forall|i: int, j: int| 0 <= i < j < out.len() implies order_rows(
                #[trigger] out[i],
                #[trigger] out[j],
            ) <= 0 by {
                if j == mid.len() {
                    let x = mid[i];
                    assert(mid.contains(x));
                    if x == r {
                        lemma_rows_ordered(last, r, r);
                    } else {
                        let k = choose|k: int| 0 <= k < d.len() && d[k] == x;
                        assert(rows[k] == x);
                        assert(order_rows(rows[k], rows[rows.len() - 1]) <= 0);
                    }
                } else {
                    assert(out[i] == mid[i] && out[j] == mid[j]);
                }
            }
        }
    }
}

proof fn lemma_sort_rows_sorted(rows: Seq<SymbolRow>, n: int)
    requires
        0 <= n <= rows.len(),
    ensures
        rows_sorted(sort_rows(rows, n)),
        sort_rows(rows, n).len() == n,
        forall|x: SymbolRow| #[trigger] sort_rows(rows, n).contains(x) ==> exists|k: int|
            0 <= k < n && rows[k] == x,
    decreases n,
{
    if n > 0 {
        lemma_sort_rows_sorted(rows, n - 1);
        let prev = sort_rows(rows, n - 1);
        lemma_insert_row_sorted(prev, rows[n - 1]);
        assert forall|x: SymbolRow| #[trigger] sort_rows(rows, n).contains(x) implies exists|k: int|
            0 <= k < n && rows[k] == x by {
            if x != rows[n - 1] {
                assert(prev.contains(x));
            }
        }
    }
}

proof fn lemma_dedup_rows_sorted(rows: Seq<SymbolRow>)
    ensures
        forall|x: SymbolRow| #[trigger] dedup_rows(rows).contains(x) ==> rows.contains(x),
        rows_sorted(rows) ==> rows_sorted(dedup_rows(rows)),
        forall|i: int|
            0 < i < dedup_rows(rows).len() ==> !same_symbol(
                dedup_rows(rows)[i - 1],
                #[trigger] dedup_rows(rows)[i],
            ),
    decreases rows.len(),
{
    if rows.len() > 0 {
        let d = rows.drop_last();
        lemma_dedup_rows_sorted(d);
        let prev = dedup_rows(d);
        let out = dedup_rows(rows);
        assert forall|x: SymbolRow| #[trigger] out.contains(x) implies rows.contains(x) by {
            vstd::seq_lib::lemma_seq_contains_after_push(prev, rows.last(), x);
            if prev.contains(x) {
                let k = choose|k: int| 0 <= k < d.len() && d[k] == x;
                assert(rows[k] == x);
            } else {
                assert(rows[rows.len() - 1] == x);
            }
        }
        if rows_sorted(rows) {
            assert(rows_sorted(d)) by {
                assert forall|i: int, j: int| 0 <= i < j < d.len() implies order_rows(
                    #[trigger] d[i],
                    #[trigger] d[j],
                ) <= 0 by {
                    assert(d[i] == rows[i] && d[j] == rows[j]);
                }
            }
            if !(prev.len() > 0 && same_symbol(prev.last(), rows.last())) {
                assert forall|i: int, j: int| 0 <= i < j < out.len() implies order_rows(
                    #[trigger] out[i],
                    #[trigger] out[j],
                ) <= 0 by {
                    if j == prev.len() {
                        let x = prev[i];
                        assert(prev.contains(x));
                        let k = choose|k: int| 0 <= k < d.len() && d[k] == x;
                        assert(rows[k] == x);
                        assert(order_rows(rows[k], rows[rows.len() - 1]) <= 0);
                    } else {
                        assert(out[i] == prev[i] && out[j] == prev[j]);
                    }
                }
            }
        }
        if !(prev.len() > 0 && same_symbol(prev.last(), rows.last())) {
            assert forall|i: int| 0 < i < out.len() implies !same_symbol(
                out[i - 1],
                #[trigger] out[i],
            ) by {
                if i < prev.len() {
                    assert(out[i - 1] == prev[i - 1] && out[i] == prev[i]);
                } else {
                    assert(out[i - 1] == prev.last());
                }
            }
        }
    }
}

/// Workspace symbols come out in order (by document, range, name and
/// container), each one of the collected rows, and no row names the same
/// symbol as the row before it.
pub proof fn lemma_symbols_sorted_without_repeats(rows: Seq<SymbolRow>)
    ensures
        rows_sorted(dedup_rows(sort_rows(rows, rows.len() as int))),
        forall|i: int|
            0 <= i < dedup_rows(sort_rows(rows, rows.len() as int)).len() ==> rows.contains(
                #[trigger] dedup_rows(sort_rows(rows, rows.len() as int))[i],
            ),
        forall|i: int|
            0 < i < dedup_rows(sort_rows(rows, rows.len() as int)).len() ==> !same_symbol(
                dedup_rows(sort_rows(rows, rows.len() as int))[i - 1],
                #[trigger] dedup_rows(sort_rows(rows, rows.len() as int))[i],
            ),
{
    let sorted = sort_rows(rows, rows.len() as int);
    lemma_sort_rows_sorted(rows, rows.len() as int);
    lemma_dedup_rows_sorted(sorted);
    let out = dedup_rows(sorted);
    assert forall|i: int| 0 <= i < out.len() implies rows.contains(#[trigger] out[i]) by {
        assert(out.contains(out[i]));
        assert(sorted.contains(out[i]));
        let k = choose|k: int| 0 <= k < rows.len() && rows[k] == out[i];
    }
}

} // verus!
