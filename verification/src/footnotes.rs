//! Footnote conversions for code actions: a reference footnote
//! (`[^id]` with a `[^id]: ...` definition) becomes an inline footnote
//! (`^[...]`) and the other way round.

use vstd::prelude::*;
use vstd::string::StringSliceAdditionalSpecFns;
use crate::helpers::caret_open;
use crate::syntax::{children_of, nearest_of_kind, token_at_offset, ElementView, SyntaxKind, SyntaxTree};
use crate::text::{
    byte_is_newline, push_char, str_byte_len, utf8_len,
    before_first, chars_of, decimal, offset_to_position, parse_u32, parse_u32_spec, position_of,
    positions_fit, push_chars, str_eq, trim_start_repeated, trim_ws, usize_to_decimal, vec_find_char,
    is_digit, lemma_decimal_value, unsigned_digits,
    vec_slice, vec_trim, vec_trim_start_repeated, Position, Range, TextEdit,
};

verus! {

/// Element `j` is a node (not a token) of kind `k`.
pub open spec fn is_node_of(es: Seq<ElementView>, j: int, k: SyntaxKind) -> bool {
    es[j].kind == k && !es[j].is_token
}

/// A direct marker token of node `n` at index `j`: a token child of kind
/// `a` or `b`.
pub open spec fn direct_marker(es: Seq<ElementView>, n: int, j: int, a: SyntaxKind, b: SyntaxKind) -> bool {
    es[j].is_token && es[j].parent == n && (es[j].kind == a || es[j].kind == b)
}

proof fn lemma_text_after_opener(es: Seq<ElementView>, n: int, hi: int, a: SyntaxKind, b: SyntaxKind)
    requires
        0 <= n,
        n + 2 <= hi,
        !es[n].is_token,
        direct_marker(es, n, n + 1, a, b),
        forall|j: int| n + 1 < j < hi ==> !#[trigger] direct_marker(es, n, j, a, b),
    ensures
        crate::syntax::text_between(es, n, hi) == es[n + 1].text + text_without_markers(es, n, hi, a, b),
    decreases hi,
{
    if hi == n + 2 {
        assert(crate::syntax::text_between(es, n, n) =~= Seq::<char>::empty());
        assert(crate::syntax::text_between(es, n, n + 1) =~= Seq::<char>::empty());
        assert(text_without_markers(es, n, n + 1, a, b) =~= Seq::<char>::empty());
        assert(crate::syntax::text_between(es, n, n + 2) =~= es[n + 1].text);
    } else {
        lemma_text_after_opener(es, n, hi - 1, a, b);
        assert(!direct_marker(es, n, hi - 1, a, b));
        if es[hi - 1].is_token {
            assert(crate::syntax::text_between(es, n, hi) =~= crate::syntax::text_between(es, n, hi - 1)
                + es[hi - 1].text);
            assert(text_without_markers(es, n, hi, a, b) =~= text_without_markers(es, n, hi - 1, a, b)
                + es[hi - 1].text);
        }
    }
}

/// Converting an inline footnote carries its text over unchanged: when the
/// footnote's first element is its `^[` opener and its last its `]`
/// closer (and it has no other marker children), its text is the opener,
/// then the content that the new definition gets, then the closer; so
/// emphasis, links, code and citations inside the note are kept.
pub proof fn lemma_inline_content_is_whole_text(es: Seq<ElementView>, n: int)
    requires
        0 <= n,
        !es[n].is_token,
        n + 2 < es[n].subtree_end,
        direct_marker(es, n, n + 1, SyntaxKind::INLINE_FOOTNOTE_START, SyntaxKind::INLINE_FOOTNOTE_END),
        direct_marker(
            es,
            n,
            es[n].subtree_end - 1,
            SyntaxKind::INLINE_FOOTNOTE_START,
            SyntaxKind::INLINE_FOOTNOTE_END,
        ),
        forall|j: int|
            n + 1 < j < es[n].subtree_end - 1 ==> !#[trigger] direct_marker(
                es,
                n,
                j,
                SyntaxKind::INLINE_FOOTNOTE_START,
                SyntaxKind::INLINE_FOOTNOTE_END,
            ),
    ensures
        crate::syntax::element_text(es, n) == es[n + 1].text + inline_footnote_content(es, n)
            + es[es[n].subtree_end - 1].text,
{
    let e = es[n].subtree_end;
    let a = SyntaxKind::INLINE_FOOTNOTE_START;
    let b = SyntaxKind::INLINE_FOOTNOTE_END;
    lemma_text_after_opener(es, n, e - 1, a, b);
    assert(crate::syntax::text_between(es, n, e) == crate::syntax::text_between(es, n, e - 1) + es[e - 1].text);
    assert(text_without_markers(es, n, e, a, b) == text_without_markers(es, n, e - 1, a, b));
    assert(crate::syntax::element_text(es, n) =~= es[n + 1].text + inline_footnote_content(es, n)
        + es[e - 1].text);
}

/// The id of a footnote reference node: its second text token, when the
/// first one is the `[^` opener; empty otherwise.
pub open spec fn footnote_ref_id(es: Seq<ElementView>, n: int) -> Seq<char> {
    let ks = children_of(es, n, SyntaxKind::TEXT, true);
    if ks.len() >= 2 && es[ks[0]].text == caret_open() {
        es[ks[1]].text
    } else {
        seq![]
    }
}

/// The id of a footnote definition node: the text of its `[^id]: ` marker
/// between the opener and the first `]`; empty without a marker.
pub open spec fn footnote_def_id(es: Seq<ElementView>, n: int) -> Seq<char> {
    let ts = children_of(es, n, SyntaxKind::FOOTNOTE_REFERENCE, true);
    if ts.len() == 0 {
        seq![]
    } else {
        before_first(trim_start_repeated(es[ts[0]].text, caret_open()), ']')
    }
}

/// Child nodes of `n` below index `hi` that are blocks (not blank lines).
pub open spec fn block_kids(es: Seq<ElementView>, n: int, hi: int) -> Seq<int>
    decreases hi - n,
{
    if hi <= n + 1 {
        seq![]
    } else if es[hi - 1].parent == n && !es[hi - 1].is_token && es[hi - 1].kind
        != SyntaxKind::BLANK_LINE {
        block_kids(es, n, hi - 1).push(hi - 1)
    } else {
        block_kids(es, n, hi - 1)
    }
}

/// A footnote definition is simple when its content is a single paragraph.
pub open spec fn footnote_def_is_simple(es: Seq<ElementView>, n: int) -> bool {
    let bs = block_kids(es, n, es[n].subtree_end);
    bs.len() == 1 && es[bs[0]].kind == SyntaxKind::PARAGRAPH
}

/// Texts of the tokens in `(n, hi)`, leaving out the direct token children
/// of `n` with kind `a` or `b` (the markers of a footnote).
pub open spec fn text_without_markers(
    es: Seq<ElementView>,
    n: int,
    hi: int,
    a: SyntaxKind,
    b: SyntaxKind,
) -> Seq<char>
    decreases hi - n,
{
    if hi <= n + 1 {
        seq![]
    } else if es[hi - 1].is_token && !(es[hi - 1].parent == n && (es[hi - 1].kind == a
        || es[hi - 1].kind == b)) {
        text_without_markers(es, n, hi - 1, a, b) + es[hi - 1].text
    } else {
        text_without_markers(es, n, hi - 1, a, b)
    }
}

/// The content of a footnote definition: its text without the marker.
pub open spec fn footnote_def_content(es: Seq<ElementView>, n: int) -> Seq<char> {
    text_without_markers(
        es,
        n,
        es[n].subtree_end,
        SyntaxKind::FOOTNOTE_REFERENCE,
        SyntaxKind::FOOTNOTE_REFERENCE,
    )
}

/// The content of an inline footnote: its text without `^[` and `]`.
pub open spec fn inline_footnote_content(es: Seq<ElementView>, n: int) -> Seq<char> {
    text_without_markers(
        es,
        n,
        es[n].subtree_end,
        SyntaxKind::INLINE_FOOTNOTE_START,
        SyntaxKind::INLINE_FOOTNOTE_END,
    )
}

/// The first footnote definition node of the tree whose id is `id`.
pub open spec fn first_def_with_id(es: Seq<ElementView>, id: Seq<char>) -> Option<int> {
    if exists|j: int|
        0 <= j < es.len() && is_node_of(es, j, SyntaxKind::FOOTNOTE_DEFINITION) && footnote_def_id(
            es,
            j,
        ) == id {
        Some(
            choose|j: int|
                0 <= j < es.len() && is_node_of(es, j, SyntaxKind::FOOTNOTE_DEFINITION)
                    && footnote_def_id(es, j) == id && forall|i: int|
                    0 <= i < j ==> !(is_node_of(es, i, SyntaxKind::FOOTNOTE_DEFINITION)
                        && footnote_def_id(es, i) == id),
        )
    } else {
        None
    }
}

fn caret_chars() -> (v: Vec<char>)
    ensures
        v@ == caret_open(),
{
    let mut v = Vec::new();
    v.push('[');
    v.push('^');
    assert(v@ =~= caret_open());
    v
}

/// The id of footnote reference node `n`.
pub fn footnote_reference_id(tree: &SyntaxTree, n: usize) -> (r: String)
    requires
        n < tree@.len(),
    ensures
        r@ == footnote_ref_id(tree@, n as int),
{
    let ks = tree.children_of_kind(n, SyntaxKind::TEXT, true);
    proof {
        assert(ks@.len() == children_of(tree@, n as int, SyntaxKind::TEXT, true).len());
    }
    if ks.len() >= 2 {
        proof {
            assert(ks@.map_values(|j: usize| j as int)[0] == ks@[0] as int);
            assert(ks@.map_values(|j: usize| j as int)[1] == ks@[1] as int);
        }
        let first = chars_of(tree.token_text(ks[0]));
        if first.len() == 2 && first[0] == '[' && first[1] == '^' {
            assert(first@ =~= caret_open());
            return tree.token_text(ks[1]).to_owned();
        }
        assert(first@ != caret_open()) by {
            if first@ == caret_open() {
                assert(first@[0] == '[' && first@[1] == '^');
            }
        }
    }
    String::new()
}

/// The id of footnote definition node `n`.
pub fn footnote_definition_id(tree: &SyntaxTree, n: usize) -> (r: String)
    requires
        n < tree@.len(),
    ensures
        r@ == footnote_def_id(tree@, n as int),
{
    let ts = tree.children_of_kind(n, SyntaxKind::FOOTNOTE_REFERENCE, true);
    proof {
        assert(ts@.len() == children_of(tree@, n as int, SyntaxKind::FOOTNOTE_REFERENCE, true).len());
    }
    if ts.len() == 0 {
        return String::new();
    }
    proof {
        assert(ts@.map_values(|j: usize| j as int)[0] == ts@[0] as int);
    }
    let t = chars_of(tree.token_text(ts[0]));
    let open = caret_chars();
    let trimmed = vec_trim_start_repeated(&t, &open);
    let id = match vec_find_char(&trimmed, ']') {
        Some(i) => vec_slice(&trimmed, 0, i),
        None => vec_slice(&trimmed, 0, trimmed.len()),
    };
    assert(trimmed@.subrange(0, trimmed@.len() as int) =~= trimmed@);
    let mut r = String::new();
    push_chars(&mut r, &id);
    r
}

/// Whether footnote definition node `n` holds a single paragraph.
pub fn footnote_definition_is_simple(tree: &SyntaxTree, n: usize) -> (b: bool)
    requires
        n < tree@.len(),
    ensures
        b == footnote_def_is_simple(tree@, n as int),
{
    let hi = tree.subtree_end(n);
    let mut count: usize = 0;
    let mut first: usize = 0;
    let mut j = n + 1;
    while j < hi
        invariant
            n < j <= hi <= tree@.len(),
            hi == tree@[n as int].subtree_end,
            count == block_kids(tree@, n as int, j as int).len(),
            count > 0 ==> first == block_kids(tree@, n as int, j as int)[0] && first < tree@.len(),
            count <= j,
        decreases hi - j,
    {
        let ghost before = block_kids(tree@, n as int, j as int);
        if tree.parent(j) == Some(n) && !tree.is_token(j) && tree.kind(j) != SyntaxKind::BLANK_LINE {
            if count == 0 {
                first = j;
            }
            count = count + 1;
            assert(block_kids(tree@, n as int, j + 1) == before.push(j as int));
        }
        j = j + 1;
    }
    count == 1 && tree.kind(first) == SyntaxKind::PARAGRAPH
}

/// Texts of the tokens below `n`, leaving out its direct marker tokens of
/// kind `a` or `b`.
pub(crate) fn text_without(tree: &SyntaxTree, n: usize, a: SyntaxKind, b: SyntaxKind) -> (r: String)
    requires
        n < tree@.len(),
    ensures
        r@ == text_without_markers(tree@, n as int, tree@[n as int].subtree_end, a, b),
{
    let hi = tree.subtree_end(n);
    let mut r = String::new();
    let mut j = n + 1;
    while j < hi
        invariant
            n < j <= hi <= tree@.len(),
            hi == tree@[n as int].subtree_end,
            r@ == text_without_markers(tree@, n as int, j as int, a, b),
        decreases hi - j,
    {
        if tree.is_token(j) {
            let k = tree.kind(j);
            let is_marker = tree.parent(j) == Some(n) && (k == a || k == b);
            if !is_marker {
                let cs = chars_of(tree.token_text(j));
                push_chars(&mut r, &cs);
            }
        }
        j = j + 1;
    }
    r
}

/// The first footnote definition node of the tree whose id is `id`.
fn find_definition_with_id(tree: &SyntaxTree, id: &str) -> (r: Option<usize>)
    ensures
        r matches Some(j) ==> first_def_with_id(tree@, id@) == Some(j as int) && j < tree@.len(),
        r is None ==> first_def_with_id(tree@, id@) is None,
{
    let len = tree.len();
    let mut j: usize = 0;
    while j < len
        invariant
            j <= len == tree@.len(),
            forall|i: int|
                0 <= i < j ==> !(is_node_of(tree@, i, SyntaxKind::FOOTNOTE_DEFINITION)
                    && footnote_def_id(tree@, i) == id@),
        decreases len - j,
    {
        if tree.kind(j) == SyntaxKind::FOOTNOTE_DEFINITION && !tree.is_token(j) {
            let d = footnote_definition_id(tree, j);
            if str_eq(d.as_str(), id) {
                proof {
                    let w = choose|w: int|
                        0 <= w < tree@.len() && is_node_of(
                            tree@,
                            w,
                            SyntaxKind::FOOTNOTE_DEFINITION,
                        ) && footnote_def_id(tree@, w) == id@ && forall|i: int|
                            0 <= i < w ==> !(is_node_of(tree@, i, SyntaxKind::FOOTNOTE_DEFINITION)
                                && footnote_def_id(tree@, i) == id@);
                    assert(w == j) by {
                        if w > j {
                            assert(is_node_of(tree@, j as int, SyntaxKind::FOOTNOTE_DEFINITION));
                        }
                    }
                }
                return Some(j);
            }
        }
        j = j + 1;
    }
    None
}

/// Whether `reference_node` is a footnote reference whose definition exists
/// and is simple (a single paragraph), so that it can become an inline
/// footnote.
pub fn can_convert_to_inline(tree: &SyntaxTree, reference_node: usize) -> (b: bool)
    requires
        reference_node < tree@.len(),
    ensures
        b == (is_node_of(tree@, reference_node as int, SyntaxKind::FOOTNOTE_REFERENCE) && match first_def_with_id(
            tree@,
            footnote_ref_id(tree@, reference_node as int),
        ) {
            Some(d) => footnote_def_is_simple(tree@, d),
            None => false,
        }),
{
    if tree.kind(reference_node) != SyntaxKind::FOOTNOTE_REFERENCE || tree.is_token(reference_node) {
        return false;
    }
    let id = footnote_reference_id(tree, reference_node);
    match find_definition_with_id(tree, id.as_str()) {
        Some(d) => footnote_definition_is_simple(tree, d),
        None => false,
    }
}


/// The largest number among the footnote definition ids (those that parse
/// as `u32`) of the elements with index below `hi`; 0 when there is none.
pub open spec fn max_def_number(es: Seq<ElementView>, hi: int) -> nat
    decreases hi,
{
    if hi <= 0 {
        0
    } else {
        let m = max_def_number(es, hi - 1);
        if is_node_of(es, hi - 1, SyntaxKind::FOOTNOTE_DEFINITION) && parse_u32_spec(
            footnote_def_id(es, hi - 1),
        ) is Some {
            let v = parse_u32_spec(footnote_def_id(es, hi - 1))->0 as nat;
            if v > m {
                v
            } else {
                m
            }
        } else {
            m
        }
    }
}

/// The id [`generate_footnote_id`] yields: one more than the largest
/// numeric footnote definition id.
pub open spec fn next_footnote_id(es: Seq<ElementView>) -> Seq<char> {
    decimal(max_def_number(es, es.len() as int) + 1)
}

proof fn lemma_max_def_number_bound(es: Seq<ElementView>, hi: int, j: int)
    requires
        0 <= j < hi,
        is_node_of(es, j, SyntaxKind::FOOTNOTE_DEFINITION),
        parse_u32_spec(footnote_def_id(es, j)) is Some,
    ensures
        parse_u32_spec(footnote_def_id(es, j))->0 <= max_def_number(es, hi),
    decreases hi,
{
    if j < hi - 1 {
        lemma_max_def_number_bound(es, hi - 1, j);
    }
}

proof fn lemma_parse_decimal(m: nat)
    requires
        m <= u32::MAX,
    ensures
        parse_u32_spec(decimal(m)) == Some(m as u32),
{
    lemma_decimal_value(m);
    assert(is_digit(decimal(m)[0]));
    assert(unsigned_digits(decimal(m)) == decimal(m));
}

/// A generated footnote id is fresh: no footnote definition of the tree
/// has it as its id.
pub proof fn lemma_generated_footnote_id_fresh(es: Seq<ElementView>)
    requires
        max_def_number(es, es.len() as int) < u32::MAX,
    ensures
        forall|j: int|
            0 <= j < es.len() && is_node_of(es, j, SyntaxKind::FOOTNOTE_DEFINITION) ==> footnote_def_id(
                es,
                j,
            ) != next_footnote_id(es),
{
    let m = max_def_number(es, es.len() as int);
    assert forall|j: int|
        0 <= j < es.len() && is_node_of(es, j, SyntaxKind::FOOTNOTE_DEFINITION) implies footnote_def_id(
        es,
        j,
    ) != next_footnote_id(es) by {
        if footnote_def_id(es, j) == next_footnote_id(es) {
            lemma_parse_decimal(m + 1);
            lemma_max_def_number_bound(es, es.len() as int, j);
        }
    }
}

/// Generate a new footnote id: one more than the largest numeric id among
/// the footnote definitions of the tree (`1` when there is none).
pub fn generate_footnote_id(tree: &SyntaxTree) -> (r: String)
    requires
        max_def_number(tree@, tree@.len() as int) < u32::MAX,
    ensures
        r@ == next_footnote_id(tree@),
{
    let len = tree.len();
    let mut max_id: u32 = 0;
    let mut j: usize = 0;
    while j < len
        invariant
            j <= len == tree@.len(),
            max_id == max_def_number(tree@, j as int),
            max_def_number(tree@, tree@.len() as int) < u32::MAX,
        decreases len - j,
    {
        if tree.kind(j) == SyntaxKind::FOOTNOTE_DEFINITION && !tree.is_token(j) {
            let id = footnote_definition_id(tree, j);
            match parse_u32(id.as_str()) {
                Some(v) => {
                    if v > max_id {
                        max_id = v;
                    }
                },
                None => {},
            }
        }
        j = j + 1;
    }
    let d = usize_to_decimal((max_id + 1) as usize);
    let mut r = String::new();
    push_chars(&mut r, &d);
    r
}

/// The range of element `n` as an LSP range over `text`.
pub open spec fn element_range(es: Seq<ElementView>, text: Seq<char>, n: int) -> Range {
    Range { start: position_of(text, es[n].start), end: position_of(text, es[n].end) }
}

/// End of a definition extended over the line feed right after it.
pub open spec fn extended_end(text: &str, end: int) -> int {
    if end < utf8_len(text@) && text.spec_bytes()[end] == 10 {
        end + 1
    } else {
        end
    }
}

/// The edits [`convert_to_inline`] produces for reference `r` and its
/// definition `d`.
pub open spec fn inline_edit_texts(es: Seq<ElementView>, d: int) -> Seq<char> {
    seq!['^', '['] + trim_ws(footnote_def_content(es, d)) + seq![']']
}

/// Convert a reference footnote to inline style. When `reference_node` is
/// a footnote reference whose definition exists and is simple, the edits
/// are: replace `[^id]` by `^[content]` (the definition's trimmed content),
/// then delete the definition together with the line feed that follows it.
/// Otherwise there are no edits.
pub fn convert_to_inline(tree: &SyntaxTree, reference_node: usize, text: &str) -> (edits: Vec<TextEdit>)
    requires
        reference_node < tree@.len(),
        positions_fit(text@),
    ensures
        !can_convert_spec(tree@, reference_node as int) ==> edits@.len() == 0,
        can_convert_spec(tree@, reference_node as int) ==> {
            let d = first_def_with_id(tree@, footnote_ref_id(tree@, reference_node as int))->0;
            &&& edits@.len() == 2
            &&& edits@[0].range == element_range(tree@, text@, reference_node as int)
            &&& edits@[0].new_text@ == inline_edit_texts(tree@, d)
            &&& edits@[1].range == (Range {
                start: position_of(text@, tree@[d].start),
                end: position_of(text@, extended_end(text, tree@[d].end)),
            })
            &&& edits@[1].new_text@ == Seq::<char>::empty()
        },
{
    let mut edits: Vec<TextEdit> = Vec::new();
    if tree.kind(reference_node) != SyntaxKind::FOOTNOTE_REFERENCE || tree.is_token(reference_node) {
        return edits;
    }
    let id = footnote_reference_id(tree, reference_node);
    let d = match find_definition_with_id(tree, id.as_str()) {
        Some(d) => d,
        None => {
            return edits;
        },
    };
    if !footnote_definition_is_simple(tree, d) {
        return edits;
    }
    let content = text_without(
        tree,
        d,
        SyntaxKind::FOOTNOTE_REFERENCE,
        SyntaxKind::FOOTNOTE_REFERENCE,
    );
    let content_chars = chars_of(content.as_str());
    let trimmed = vec_trim(&content_chars);
    let mut new_text = String::new();
    push_char(&mut new_text, '^');
    push_char(&mut new_text, '[');
    push_chars(&mut new_text, &trimmed);
    push_char(&mut new_text, ']');
    assert(new_text@ =~= inline_edit_texts(tree@, d as int));
    let ref_start = offset_to_position(text, tree.start(reference_node));
    let ref_end = offset_to_position(text, tree.end(reference_node));
    edits.push(TextEdit { range: Range { start: ref_start, end: ref_end }, new_text });
    let def_start = tree.start(d);
    let def_end = tree.end(d);
    let ext = if byte_is_newline(text, def_end) {
        proof {
            lemma_utf8_bound_text(text);
        }
        def_end + 1
    } else {
        def_end
    };
    edits.push(
        TextEdit {
            range: Range {
                start: offset_to_position(text, def_start),
                end: offset_to_position(text, ext),
            },
            new_text: String::new(),
        },
    );
    edits
}

proof fn lemma_utf8_bound_text(text: &str)
    requires
        positions_fit(text@),
    ensures
        utf8_len(text@) <= usize::MAX,
{
}

/// A footnote reference node whose definition exists and is simple.
pub open spec fn can_convert_spec(es: Seq<ElementView>, r: int) -> bool {
    is_node_of(es, r, SyntaxKind::FOOTNOTE_REFERENCE) && match first_def_with_id(
        es,
        footnote_ref_id(es, r),
    ) {
        Some(d) => footnote_def_is_simple(es, d),
        None => false,
    }
}


/// The last footnote definition node with index below `hi`.
pub open spec fn last_def_below(es: Seq<ElementView>, hi: int) -> Option<int>
    decreases hi,
{
    if hi <= 0 {
        None
    } else if is_node_of(es, hi - 1, SyntaxKind::FOOTNOTE_DEFINITION) {
        Some(hi - 1)
    } else {
        last_def_below(es, hi - 1)
    }
}

/// Where [`convert_to_reference`] inserts the new definition: after the
/// last footnote definition, or at the end of the text.
pub open spec fn insertion_position(es: Seq<ElementView>, text: Seq<char>) -> Position {
    match last_def_below(es, es.len() as int) {
        Some(d) => position_of(text, es[d].end),
        None => position_of(text, utf8_len(text) as int),
    }
}

/// The line feeds before the inserted definition: one after an existing
/// definition, two (a blank line) at the end of the document.
pub open spec fn insertion_prefix(es: Seq<ElementView>) -> Seq<char> {
    match last_def_below(es, es.len() as int) {
        Some(d) => seq!['\n'],
        None => seq!['\n', '\n'],
    }
}

/// The last footnote definition node of the tree.
fn find_last_definition(tree: &SyntaxTree) -> (r: Option<usize>)
    ensures
        r matches Some(d) ==> last_def_below(tree@, tree@.len() as int) == Some(d as int) && d
            < tree@.len(),
        r is None ==> last_def_below(tree@, tree@.len() as int) is None,
{
    let len = tree.len();
    let mut last: Option<usize> = None;
    let mut j: usize = 0;
    while j < len
        invariant
            j <= len == tree@.len(),
            last matches Some(d) ==> last_def_below(tree@, j as int) == Some(d as int) && d < len,
            last is None ==> last_def_below(tree@, j as int) is None,
        decreases len - j,
    {
        if tree.kind(j) == SyntaxKind::FOOTNOTE_DEFINITION && !tree.is_token(j) {
            last = Some(j);
        }
        j = j + 1;
    }
    last
}

/// `"\n"` (or `"\n\n"` when `blank_line`), then `[^id]: content` and a
/// line feed.
fn definition_line(blank_line: bool, id: &Vec<char>, content: &Vec<char>) -> (r: String)
    ensures
        r@ == (if blank_line {
            seq!['\n', '\n']
        } else {
            seq!['\n']
        }) + seq!['[', '^'] + id@ + seq![']', ':', ' '] + content@ + seq!['\n'],
{
    let mut second = String::new();
    push_char(&mut second, '\n');
    if blank_line {
        push_char(&mut second, '\n');
    }
    push_char(&mut second, '[');
    push_char(&mut second, '^');
    push_chars(&mut second, id);
    push_char(&mut second, ']');
    push_char(&mut second, ':');
    push_char(&mut second, ' ');
    push_chars(&mut second, content);
    push_char(&mut second, '\n');
    assert(second@ =~= (if blank_line {
        seq!['\n', '\n']
    } else {
        seq!['\n']
    }) + seq!['[', '^'] + id@ + seq![']', ':', ' '] + content@ + seq!['\n']);
    second
}

/// `[^id]`.
fn bracketed_id(id: &Vec<char>) -> (r: String)
    ensures
        r@ == seq!['[', '^'] + id@ + seq![']'],
{
    let mut first = String::new();
    push_char(&mut first, '[');
    push_char(&mut first, '^');
    push_chars(&mut first, id);
    push_char(&mut first, ']');
    assert(first@ =~= seq!['[', '^'] + id@ + seq![']']);
    first
}

/// Convert an inline footnote to reference style. When `inline_node` is an
/// inline footnote, the edits are: replace `^[content]` by `[^id]` with a
/// freshly generated id, then insert `[^id]: content` on a new line after
/// the last footnote definition (or, separated by a blank line, at the end
/// of the document when there is none). Otherwise there are no edits.
pub fn convert_to_reference(tree: &SyntaxTree, inline_node: usize, text: &str) -> (edits: Vec<
    TextEdit,
>)
    requires
        inline_node < tree@.len(),
        positions_fit(text@),
        max_def_number(tree@, tree@.len() as int) < u32::MAX,
    ensures
        !is_node_of(tree@, inline_node as int, SyntaxKind::INLINE_FOOTNOTE) ==> edits@.len() == 0,
        is_node_of(tree@, inline_node as int, SyntaxKind::INLINE_FOOTNOTE) ==> {
            &&& edits@.len() == 2
            &&& edits@[0].range == element_range(tree@, text@, inline_node as int)
            &&& edits@[0].new_text@ == seq!['[', '^'] + next_footnote_id(tree@) + seq![']']
            &&& edits@[1].range == (Range {
                start: insertion_position(tree@, text@),
                end: insertion_position(tree@, text@),
            })
            &&& edits@[1].new_text@ == insertion_prefix(tree@) + seq!['[', '^'] + next_footnote_id(
                tree@,
            ) + seq![']', ':', ' '] + inline_footnote_content(tree@, inline_node as int) + seq![
                '\n',
            ]
        },
{
    let mut edits: Vec<TextEdit> = Vec::new();
    if tree.kind(inline_node) != SyntaxKind::INLINE_FOOTNOTE || tree.is_token(inline_node) {
        return edits;
    }
    let content = text_without(
        tree,
        inline_node,
        SyntaxKind::INLINE_FOOTNOTE_START,
        SyntaxKind::INLINE_FOOTNOTE_END,
    );
    let id = generate_footnote_id(tree);
    let id_chars = chars_of(id.as_str());
    let first = bracketed_id(&id_chars);
    let start = offset_to_position(text, tree.start(inline_node));
    let end = offset_to_position(text, tree.end(inline_node));
    edits.push(TextEdit { range: Range { start, end }, new_text: first });
    let last = find_last_definition(tree);
    let content_chars = chars_of(content.as_str());
    let (insert_at, second) = match last {
        Some(d) => (
            offset_to_position(text, tree.end(d)),
            definition_line(false, &id_chars, &content_chars),
        ),
        None => {
            proof {
                lemma_utf8_bound_text(text);
            }
            (
                offset_to_position(text, str_byte_len(text)),
                definition_line(true, &id_chars, &content_chars),
            )
        },
    };
    edits.push(TextEdit { range: Range { start: insert_at, end: insert_at }, new_text: second });
    edits
}

/// The innermost footnote reference node around the token at `offset`.
pub fn find_footnote_reference_at_position(tree: &SyntaxTree, offset: usize) -> (r: Option<usize>)
    ensures
        match token_at_offset(tree@, offset as int) {
            Some(t) => match r {
                Some(n) => n < tree@.len() && nearest_of_kind(tree@, tree@[t].parent, SyntaxKind::FOOTNOTE_REFERENCE)
                    == Some(n as int),
                None => nearest_of_kind(tree@, tree@[t].parent, SyntaxKind::FOOTNOTE_REFERENCE) is None,
            },
            None => r is None,
        },
{
    match tree.token_at_offset(offset) {
        Some(t) => {
            let p = tree.parent_of_token(t);
            tree.nearest_ancestor_of_kind(p, SyntaxKind::FOOTNOTE_REFERENCE)
        },
        None => None,
    }
}

/// The innermost inline footnote node around the token at `offset`.
pub fn find_inline_footnote_at_position(tree: &SyntaxTree, offset: usize) -> (r: Option<usize>)
    ensures
        match token_at_offset(tree@, offset as int) {
            Some(t) => match r {
                Some(n) => n < tree@.len() && nearest_of_kind(tree@, tree@[t].parent, SyntaxKind::INLINE_FOOTNOTE)
                    == Some(n as int),
                None => nearest_of_kind(tree@, tree@[t].parent, SyntaxKind::INLINE_FOOTNOTE) is None,
            },
            None => r is None,
        },
{
    match tree.token_at_offset(offset) {
        Some(t) => {
            let p = tree.parent_of_token(t);
            tree.nearest_ancestor_of_kind(p, SyntaxKind::INLINE_FOOTNOTE)
        },
        None => None,
    }
}

} // verus!
