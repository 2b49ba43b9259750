//! Folding ranges: code blocks, fenced divs and YAML metadata that span
//! several lines, and heading sections, which run to the next heading of
//! the same or a higher level (or to the end of the document).

use vstd::prelude::*;
use crate::syntax::{ElementView, SyntaxKind, SyntaxTree, element_text, first_child_node};
use crate::text::{chars_of, offset_to_position, position_of, positions_fit, str_byte_len, utf8_len};

verus! {

/// A foldable line span.
#[derive(Clone, Copy, Debug, PartialEq, Eq, Structural)]
pub struct FoldRange {
    pub start_line: u32,
    pub end_line: u32,
}

/// How often `c` occurs in `s`.
pub open spec fn count_char(s: Seq<char>, c: char) -> nat
    decreases s.len(),
{
    if s.len() == 0 {
        0
    } else {
        count_char(s.drop_last(), c) + if s.last() == c {
            1nat
        } else {
            0nat
        }
    }
}

/// Whether `j` is a heading-level marker node (an ATX marker or a setext
/// underline) that is a direct child of `h`.
pub open spec fn is_level_marker(es: Seq<ElementView>, h: int, j: int) -> bool {
    es[j].parent == h && !es[j].is_token && (es[j].kind == SyntaxKind::ATX_HEADING_MARKER || es[j].kind
        == SyntaxKind::SETEXT_HEADING_UNDERLINE)
}

/// The first level marker child of `h` at index `lo` or later.
pub open spec fn level_marker_from(es: Seq<ElementView>, h: int, lo: int) -> Option<int>
    decreases es[h].subtree_end - lo,
{
    if lo >= es[h].subtree_end || lo < 0 {
        None
    } else if is_level_marker(es, h, lo) {
        Some(lo)
    } else {
        level_marker_from(es, h, lo + 1)
    }
}

/// The level of heading `h`: the number of `#` in its ATX marker, 1 for a
/// setext underline holding `=` and 2 for any other, and 1 without a
/// marker.
pub open spec fn heading_level_spec(es: Seq<ElementView>, h: int) -> nat {
    match level_marker_from(es, h, h + 1) {
        Some(m) => if es[m].kind == SyntaxKind::ATX_HEADING_MARKER {
            count_char(element_text(es, m), '#')
        } else if element_text(es, m).contains('=') {
            1
        } else {
            2
        },
        None => 1,
    }
}

/// The child nodes of `d` with index below `hi`, ascending.
pub open spec fn child_nodes(es: Seq<ElementView>, d: int, hi: int) -> Seq<int>
    decreases hi - d,
{
    if hi <= d + 1 {
        seq![]
    } else if es[hi - 1].parent == d && !es[hi - 1].is_token {
        child_nodes(es, d, hi - 1).push(hi - 1)
    } else {
        child_nodes(es, d, hi - 1)
    }
}

/// The fold of the span from byte `start` to byte `end` (exclusive): from
/// the line of `start` to the line of the last byte, when those differ.
pub open spec fn span_fold(text: Seq<char>, start: int, end: int) -> Option<FoldRange> {
    let s = position_of(text, start);
    let e = position_of(
        text,
        if end >= 1 {
            end - 1
        } else {
            0
        },
    );
    if s.line < e.line {
        Some(FoldRange { start_line: s.line, end_line: e.line })
    } else {
        None
    }
}

/// Whether a block of kind `k` folds as a whole.
pub open spec fn is_block_fold_kind(k: SyntaxKind) -> bool {
    k == SyntaxKind::CODE_BLOCK || k == SyntaxKind::FENCED_DIV || k == SyntaxKind::YAML_METADATA
}

/// The folds of the code blocks, fenced divs and YAML metadata among the
/// blocks `bs`, in order.
pub open spec fn block_folds(es: Seq<ElementView>, text: Seq<char>, bs: Seq<int>) -> Seq<FoldRange>
    decreases bs.len(),
{
    if bs.len() == 0 {
        seq![]
    } else {
        let prev = block_folds(es, text, bs.drop_last());
        let b = bs.last();
        if is_block_fold_kind(es[b].kind) {
            match span_fold(text, es[b].start, es[b].end) {
                Some(f) => prev.push(f),
                None => prev,
            }
        } else {
            prev
        }
    }
}

/// The level and start byte of each heading among the blocks `bs`.
pub open spec fn heading_marks(es: Seq<ElementView>, bs: Seq<int>) -> Seq<(nat, int)>
    decreases bs.len(),
{
    if bs.len() == 0 {
        seq![]
    } else {
        let prev = heading_marks(es, bs.drop_last());
        let b = bs.last();
        if es[b].kind == SyntaxKind::HEADING {
            prev.push((heading_level_spec(es, b), es[b].start))
        } else {
            prev
        }
    }
}

/// Where the section of heading `i` ends: the start of the first later
/// heading (from index `j` on) of the same or a higher level, or `len`.
pub open spec fn section_end_from(hs: Seq<(nat, int)>, i: int, j: int, len: int) -> int
    decreases hs.len() - j,
{
    if j >= hs.len() || j < 0 {
        len
    } else if hs[j].0 <= hs[i].0 {
        hs[j].1
    } else {
        section_end_from(hs, i, j + 1, len)
    }
}

/// The folds of the first `n` heading sections.
pub open spec fn heading_folds(text: Seq<char>, hs: Seq<(nat, int)>, n: int) -> Seq<FoldRange>
    decreases n,
{
    if n <= 0 {
        seq![]
    } else {
        let prev = heading_folds(text, hs, n - 1);
        let start = hs[n - 1].1;
        let end = section_end_from(hs, n - 1, n, utf8_len(text) as int);
        if end > start {
            match span_fold(text, start, end) {
                Some(f) => prev.push(f),
                None => prev,
            }
        } else {
            prev
        }
    }
}

/// The folding ranges of a document: none without a document node under
/// the root; otherwise the block folds in order, then the heading folds in
/// order.
pub open spec fn folding_spec(es: Seq<ElementView>, text: Seq<char>) -> Seq<FoldRange> {
    match first_child_node(es, 0, SyntaxKind::DOCUMENT) {
        None => seq![],
        Some(d) => {
            let bs = child_nodes(es, d, es[d].subtree_end);
            let hs = heading_marks(es, bs);
            block_folds(es, text, bs) + heading_folds(text, hs, hs.len() as int)
        },
    }
}

/// The level of heading `h` (see [`heading_level_spec`]).
pub fn get_heading_level(tree: &SyntaxTree, h: usize) -> (level: usize)
    requires
        h < tree@.len(),
    ensures
        level == heading_level_spec(tree@, h as int),
{
    let hi = tree.subtree_end(h);
    let mut j = h + 1;
    while j < hi
        invariant
            h < j <= hi,
            hi == tree@[h as int].subtree_end,
            hi <= tree@.len(),
            level_marker_from(tree@, h as int, h + 1) == level_marker_from(tree@, h as int, j as int),
        decreases hi - j,
    {
        let k = tree.kind(j);
        if tree.parent(j) matches Some(p) && p == h && !tree.is_token(j) && (k == SyntaxKind::ATX_HEADING_MARKER || k
            == SyntaxKind::SETEXT_HEADING_UNDERLINE) {
            let text = chars_of(tree.text(j).as_str());
            if k == SyntaxKind::ATX_HEADING_MARKER {
                return count_of(&text, '#');
            } else if has_char(&text, '=') {
                return 1;
            } else {
                return 2;
            }
        }
        j = j + 1;
    }
    1
}

/// Whether `c` occurs in `v`.
fn has_char(v: &Vec<char>, c: char) -> (b: bool)
    ensures
        b == v@.contains(c),
{
    let mut i: usize = 0;
    while i < v.len()
        invariant
            i <= v@.len(),
            forall|m: int| 0 <= m < i ==> v@[m] != c,
        decreases v.len() - i,
    {
        if v[i] == c {
            proof {
                assert(v@[i as int] == c);
            }
            return true;
        }
        i = i + 1;
    }
    false
}

/// How often `c` occurs in `v`.
fn count_of(v: &Vec<char>, c: char) -> (n: usize)
    ensures
        n == count_char(v@, c),
{
    let mut n: usize = 0;
    let mut i: usize = 0;
    while i < v.len()
        invariant
            i <= v@.len(),
            n == count_char(v@.take(i as int), c),
            n <= i,
        decreases v.len() - i,
    {
        assert(v@.take(i + 1).drop_last() =~= v@.take(i as int));
        if v[i] == c {
            n = n + 1;
        }
        i = i + 1;
    }
    assert(v@.take(i as int) =~= v@);
    n
}

/// The fold of the span `start..end` (see [`span_fold`]).
fn fold_span(text: &str, start: usize, end: usize) -> (r: Option<FoldRange>)
    requires
        positions_fit(text@),
    ensures
        r == span_fold(text@, start as int, end as int),
{
    let s = offset_to_position(text, start);
    let last = if end >= 1 {
        end - 1
    } else {
        0
    };
    let e = offset_to_position(text, last);
    if s.line < e.line {
        Some(FoldRange { start_line: s.line, end_line: e.line })
    } else {
        None
    }
}

/// The folding ranges of the document under `tree`'s root (see
/// [`folding_spec`]).
pub fn build_folding_ranges(tree: &SyntaxTree, content: &str) -> (ranges: Vec<FoldRange>)
    requires
        positions_fit(content@),
    ensures
        ranges@ == folding_spec(tree@, content@),
{
    if tree.len() == 0 {
        return Vec::new();
    }
    let d = match tree.first_child_node_of(0, SyntaxKind::DOCUMENT) {
        Some(d) => d,
        None => {
            return Vec::new();
        },
    };
    let hi = tree.subtree_end(d);
    let mut ranges: Vec<FoldRange> = Vec::new();
    let mut levels: Vec<usize> = Vec::new();
    let mut starts: Vec<usize> = Vec::new();
    let ghost mut hs: Seq<(nat, int)> = seq![];
    let mut j = d + 1;
    while j < hi
        invariant
            d < j <= hi,
            hi == tree@[d as int].subtree_end,
            hi <= tree@.len(),
            positions_fit(content@),
            ranges@ == block_folds(tree@, content@, child_nodes(tree@, d as int, j as int)),
            hs == heading_marks(tree@, child_nodes(tree@, d as int, j as int)),
            levels@.len() == hs.len() == starts@.len(),
            forall|q: int| 0 <= q < hs.len() ==> hs[q] == (levels@[q] as nat, starts@[q] as int),
        decreases hi - j,
    {
        let ghost bs = child_nodes(tree@, d as int, j as int);
        proof {
            assert(child_nodes(tree@, d as int, j + 1) == if tree@[j as int].parent == d
                && !tree@[j as int].is_token {
                bs.push(j as int)
            } else {
                bs
            });
        }
        if tree.parent(j) matches Some(p) && p == d && !tree.is_token(j) {
            proof {
                assert(bs.push(j as int).drop_last() =~= bs);
            }
            let k = tree.kind(j);
            if k == SyntaxKind::CODE_BLOCK || k == SyntaxKind::FENCED_DIV || k == SyntaxKind::YAML_METADATA {
                match fold_span(content, tree.start(j), tree.end(j)) {
                    Some(f) => ranges.push(f),
                    None => {},
                }
            } else if k == SyntaxKind::HEADING {
                let level = get_heading_level(tree, j);
                levels.push(level);
                starts.push(tree.start(j));
                proof {
                    hs = hs.push((level as nat, tree@[j as int].start));
                }
            }
        }
        j = j + 1;
    }
    let text_len = str_byte_len(content);
    let n = levels.len();
    let mut i: usize = 0;
    let ghost blocks = ranges@;
    while i < n
        invariant
            i <= n == levels@.len() == starts@.len() == hs.len(),
            positions_fit(content@),
            text_len == utf8_len(content@),
            forall|q: int| 0 <= q < hs.len() ==> hs[q] == (levels@[q] as nat, starts@[q] as int),
            ranges@ == blocks + heading_folds(content@, hs, i as int),
        decreases n - i,
    {
        let mut end = text_len;
        let mut m = i + 1;
        while m < n
            invariant_except_break
                end == text_len,
            invariant
                i < n == levels@.len() == starts@.len() == hs.len(),
                i + 1 <= m <= n,
                forall|q: int| 0 <= q < hs.len() ==> hs[q] == (levels@[q] as nat, starts@[q] as int),
                text_len == utf8_len(content@),
                section_end_from(hs, i as int, i + 1, text_len as int) == section_end_from(
                    hs,
                    i as int,
                    m as int,
                    text_len as int,
                ),
            ensures
                end as int == section_end_from(hs, i as int, i + 1, text_len as int),
            decreases n - m,
        {
            if levels[m] <= levels[i] {
                end = starts[m];
                break;
            }
            m = m + 1;
        }
        if end > starts[i] {
            match fold_span(content, starts[i], end) {
                Some(f) => ranges.push(f),
                None => {},
            }
        }
        proof {
            assert(blocks + heading_folds(content@, hs, i + 1) =~= ranges@);
        }
        i = i + 1;
    }
    proof {
        assert(hs =~= heading_marks(tree@, child_nodes(tree@, d as int, hi as int)));
    }
    ranges
}

/// Every fold spans at least two lines.
pub proof fn lemma_folds_span_lines(es: Seq<ElementView>, text: Seq<char>)
    ensures
        forall|q: int|
            0 <= q < folding_spec(es, text).len() ==> #[trigger] folding_spec(es, text)[q].start_line
                < folding_spec(es, text)[q].end_line,
{
    if let Some(d) = first_child_node(es, 0, SyntaxKind::DOCUMENT) {
        let bs = child_nodes(es, d, es[d].subtree_end);
        let hs = heading_marks(es, bs);
        lemma_block_folds_span_lines(es, text, bs);
        lemma_heading_folds_span_lines(text, hs, hs.len() as int);
        let a = block_folds(es, text, bs);
        let b = heading_folds(text, hs, hs.len() as int);
        assert forall|q: int| 0 <= q < (a + b).len() implies #[trigger] (a + b)[q].start_line < (a
            + b)[q].end_line by {
            if q < a.len() {
                assert((a + b)[q] == a[q]);
            } else {
                assert((a + b)[q] == b[q - a.len()]);
            }
        }
    }
}

proof fn lemma_block_folds_span_lines(es: Seq<ElementView>, text: Seq<char>, bs: Seq<int>)
    ensures
        forall|q: int|
            0 <= q < block_folds(es, text, bs).len() ==> #[trigger] block_folds(es, text, bs)[q].start_line
                < block_folds(es, text, bs)[q].end_line,
    decreases bs.len(),
{
    if bs.len() > 0 {
        let prev = block_folds(es, text, bs.drop_last());
        let r = block_folds(es, text, bs);
        lemma_block_folds_span_lines(es, text, bs.drop_last());
        assert forall|q: int| 0 <= q < r.len() implies #[trigger] r[q].start_line < r[q].end_line by {
            if q < prev.len() {
                assert(r[q] == prev[q]);
            }
        }
    }
}

proof fn lemma_heading_folds_span_lines(text: Seq<char>, hs: Seq<(nat, int)>, n: int)
    ensures
        forall|q: int|
            0 <= q < heading_folds(text, hs, n).len() ==> #[trigger] heading_folds(text, hs, n)[q].start_line
                < heading_folds(text, hs, n)[q].end_line,
    decreases n,
{
    if n > 0 {
        let prev = heading_folds(text, hs, n - 1);
        let r = heading_folds(text, hs, n);
        lemma_heading_folds_span_lines(text, hs, n - 1);
        assert forall|q: int| 0 <= q < r.len() implies #[trigger] r[q].start_line < r[q].end_line by {
            if q < prev.len() {
                assert(r[q] == prev[q]);
            }
        }
    }
}

} // verus!
