//! References and rename within one indexed document. A document's symbol
//! index answers, for a label, the byte spans of each kind of occurrence;
//! from those answers, the symbol under the cursor and the search keys of a
//! cross-reference, these functions decide which spans a reference lookup
//! lists, which spans a rename rewrites, and to what, and where a
//! definition lookup goes.

use vstd::prelude::*;
use crate::highlight::{span_range, spans_to_ranges};
use crate::locate::{find_node_at_offset, node_at_offset};
use crate::preview::HeadingMark;
use crate::symbols::{
    collect_reference_link_ranges, heading_link_at, heading_link_of, reference_spans_below, target_view, SymbolTarget,
    TargetView,
};
use crate::syntax::{ElementView, SyntaxKind, SyntaxTree};
use crate::text::{normalize_label, normalized_label, positions_fit, push_chars, chars_of, str_eq, TextEdit};

verus! {

/// What a document's symbol index answers: for each kind of occurrence, a
/// list of labels, each with the byte spans that occur under it. A lookup
/// takes the first entry with the label, and no spans where there is none.
pub struct SymbolIndex {
    pub crossref_usages: Vec<(String, Vec<(usize, usize)>)>,
    pub crossref_declarations: Vec<(String, Vec<(usize, usize)>)>,
    pub chunk_label_values: Vec<(String, Vec<(usize, usize)>)>,
    pub heading_references: Vec<(String, Vec<(usize, usize)>)>,
    pub heading_declarations: Vec<(String, Vec<(usize, usize)>)>,
    pub heading_renames: Vec<(String, Vec<(usize, usize)>)>,
    pub implicit_heading_inserts: Vec<(String, Vec<(usize, usize)>)>,
    pub citation_usages: Vec<(String, Vec<(usize, usize)>)>,
    pub footnote_renames: Vec<(String, Vec<(usize, usize)>)>,
    pub footnote_definitions: Vec<(String, Vec<(usize, usize)>)>,
    pub reference_definitions: Vec<(String, Vec<(usize, usize)>)>,
    pub heading_explicit_definitions: Vec<(String, Vec<(usize, usize)>)>,
    pub heading_implicit_definitions: Vec<(String, Vec<(usize, usize)>)>,
    pub heading_labels: Vec<(String, Vec<(usize, usize)>)>,
    pub example_label_usages: Vec<(String, Vec<(usize, usize)>)>,
    pub example_label_definitions: Vec<(String, Vec<(usize, usize)>)>,
    /// Every heading in document order, with its range and level.
    pub heading_sequence: Vec<HeadingMark>,
}

/// The spans under `key` in the entries from `i` on: those of the first
/// entry with that label, or none.
pub open spec fn lookup_from(v: Seq<(String, Vec<(usize, usize)>)>, key: Seq<char>, i: int) -> Seq<(usize, usize)>
    decreases v.len() - i,
{
    if i < 0 || i >= v.len() {
        seq![]
    } else if v[i].0@ == key {
        v[i].1@
    } else {
        lookup_from(v, key, i + 1)
    }
}

/// The spans under `key`: those of the first entry with that label.
pub open spec fn lookup(v: Seq<(String, Vec<(usize, usize)>)>, key: Seq<char>) -> Seq<(usize, usize)> {
    lookup_from(v, key, 0)
}

fn append_spans(out: &mut Vec<(usize, usize)>, src: &Vec<(usize, usize)>)
    ensures
        final(out)@ == old(out)@ + src@,
{
    let ghost before = out@;
    let mut j: usize = 0;
    while j < src.len()
        invariant
            j <= src@.len(),
            out@ == before + src@.subrange(0, j as int),
        decreases src.len() - j,
    {
        out.push(src[j]);
        j = j + 1;
        assert(src@.subrange(0, j as int) == src@.subrange(0, j - 1) + seq![src@[j - 1]]);
    }
    assert(src@.subrange(0, src@.len() as int) == src@);
}

/// Appends the spans under `key` in `v` to `out`.
pub(crate) fn append_lookup(out: &mut Vec<(usize, usize)>, v: &Vec<(String, Vec<(usize, usize)>)>, key: &str)
    ensures
        final(out)@ == old(out)@ + lookup(v@, key@),
{
    let ghost before = out@;
    let mut i: usize = 0;
    while i < v.len()
        invariant
            i <= v@.len(),
            lookup(v@, key@) == lookup_from(v@, key@, i as int),
            out@ == before,
            before == old(out)@,
        decreases v.len() - i,
    {
        if str_eq(v[i].0.as_str(), key) {
            assert(v@[i as int].0@ == key@);
            assert(lookup_from(v@, key@, i as int) == v@[i as int].1@);
            append_spans(out, &v[i].1);
            return;
        }
        i = i + 1;
    }
}

/// Which occurrences of a cross-reference search key a request takes.
pub enum KeyPart {
    /// Usages, and with declarations the cross-reference declarations.
    CrossrefReferences,
    /// Usages, and with declarations the chunk-label values.
    ChunkReferences,
    /// Usages, chunk-label values and cross-reference declarations.
    CrossrefRename,
    /// Chunk-label values and usages.
    ChunkRename,
    /// Usages, cross-reference declarations and chunk-label values.
    AllOccurrences,
}

/// The spans that one search key contributes.
pub open spec fn per_key(idx: SymbolIndex, part: KeyPart, k: Seq<char>, include_declaration: bool) -> Seq<(usize, usize)> {
    let usages = lookup(idx.crossref_usages@, k);
    let decls = lookup(idx.crossref_declarations@, k);
    let chunks = lookup(idx.chunk_label_values@, k);
    match part {
        KeyPart::CrossrefReferences => if include_declaration { usages + decls } else { usages },
        KeyPart::ChunkReferences => if include_declaration { usages + chunks } else { usages },
        KeyPart::CrossrefRename => usages + chunks + decls,
        KeyPart::ChunkRename => chunks + usages,
        KeyPart::AllOccurrences => usages + decls + chunks,
    }
}

/// The spans of the first `n` search keys, key by key.
pub open spec fn keyed(idx: SymbolIndex, part: KeyPart, keys: Seq<String>, include_declaration: bool, n: int) -> Seq<(usize, usize)>
    decreases n,
{
    if n <= 0 {
        seq![]
    } else {
        keyed(idx, part, keys, include_declaration, n - 1) + per_key(idx, part, keys[n - 1]@, include_declaration)
    }
}

fn keyed_spans(index: &SymbolIndex, part: KeyPart, keys: &Vec<String>, include_declaration: bool) -> (r: Vec<(usize, usize)>)
    ensures
        r@ == keyed(*index, part, keys@, include_declaration, keys@.len() as int),
{
    let mut out: Vec<(usize, usize)> = Vec::new();
    let mut i: usize = 0;
    while i < keys.len()
        invariant
            i <= keys@.len(),
            out@ == keyed(*index, part, keys@, include_declaration, i as int),
        decreases keys.len() - i,
    {
        let k = keys[i].as_str();
        let ghost prev = out@;
        match part {
            KeyPart::CrossrefReferences => {
                append_lookup(&mut out, &index.crossref_usages, k);
                if include_declaration {
                    append_lookup(&mut out, &index.crossref_declarations, k);
                }
            },
            KeyPart::ChunkReferences => {
                append_lookup(&mut out, &index.crossref_usages, k);
                if include_declaration {
                    append_lookup(&mut out, &index.chunk_label_values, k);
                }
            },
            KeyPart::CrossrefRename => {
                append_lookup(&mut out, &index.crossref_usages, k);
                append_lookup(&mut out, &index.chunk_label_values, k);
                append_lookup(&mut out, &index.crossref_declarations, k);
            },
            KeyPart::ChunkRename => {
                append_lookup(&mut out, &index.chunk_label_values, k);
                append_lookup(&mut out, &index.crossref_usages, k);
            },
            KeyPart::AllOccurrences => {
                append_lookup(&mut out, &index.crossref_usages, k);
                append_lookup(&mut out, &index.crossref_declarations, k);
                append_lookup(&mut out, &index.chunk_label_values, k);
            },
        }
        proof {
            let pk = per_key(*index, part, keys@[i as int]@, include_declaration);
            assert(out@ == prev + pk);
        }
        i = i + 1;
    }
    out
}

/// Whether span `r` lies within one of `defs`.
pub open spec fn inside_some(defs: Seq<(usize, usize)>, r: (usize, usize)) -> bool {
    exists|j: int| 0 <= j < defs.len() && defs[j].0 <= r.0 && r.1 <= defs[j].1
}

/// The first `n` of `rs` that lie within none of `defs`, in order.
pub open spec fn keep_outside(rs: Seq<(usize, usize)>, defs: Seq<(usize, usize)>, n: int) -> Seq<(usize, usize)>
    decreases n,
{
    if n <= 0 {
        seq![]
    } else if inside_some(defs, rs[n - 1]) {
        keep_outside(rs, defs, n - 1)
    } else {
        keep_outside(rs, defs, n - 1).push(rs[n - 1])
    }
}

fn is_inside_some(defs: &Vec<(usize, usize)>, r: (usize, usize)) -> (b: bool)
    ensures
        b == inside_some(defs@, r),
{
    let mut j: usize = 0;
    while j < defs.len()
        invariant
            j <= defs@.len(),
            forall|k: int| 0 <= k < j ==> !(defs@[k].0 <= r.0 && r.1 <= defs@[k].1),
        decreases defs.len() - j,
    {
        if defs[j].0 <= r.0 && r.1 <= defs[j].1 {
            return true;
        }
        j = j + 1;
    }
    false
}

fn spans_outside(rs: &Vec<(usize, usize)>, defs: &Vec<(usize, usize)>) -> (r: Vec<(usize, usize)>)
    ensures
        r@ == keep_outside(rs@, defs@, rs@.len() as int),
{
    let mut out: Vec<(usize, usize)> = Vec::new();
    let mut i: usize = 0;
    while i < rs.len()
        invariant
            i <= rs@.len(),
            out@ == keep_outside(rs@, defs@, i as int),
        decreases rs.len() - i,
    {
        if !is_inside_some(defs, rs[i]) {
            out.push(rs[i]);
        }
        i = i + 1;
    }
    out
}

/// The spans that a reference lookup lists in one document for the
/// symbol `t`; `keys` are the search keys of a cross-reference or chunk
/// label. A citation lists its usages; a cross-reference or chunk label
/// the usages of each key, and with declarations the declarations (of
/// cross-references, or chunk-label values); an example label, only with
/// declarations, its definitions; a heading link or heading id the links to
/// the heading, and with declarations the heading's own; a footnote its
/// references and definitions, but without declarations only the spans
/// that lie within no definition; a link reference the definitions under
/// its label. Labels of citations and references are normalised first.
pub open spec fn reference_spans_spec(
    idx: SymbolIndex,
    t: TargetView,
    keys: Seq<String>,
    include_declaration: bool,
) -> Seq<(usize, usize)> {
    match t {
        TargetView::Citation(k) => lookup(idx.citation_usages@, normalized_label(k)),
        TargetView::Crossref(_) => keyed(idx, KeyPart::CrossrefReferences, keys, include_declaration, keys.len() as int),
        TargetView::ChunkLabel(_) => keyed(idx, KeyPart::ChunkReferences, keys, include_declaration, keys.len() as int),
        TargetView::ExampleLabel(l) => if include_declaration {
            lookup(idx.example_label_definitions@, l)
        } else {
            seq![]
        },
        TargetView::HeadingLink(l) | TargetView::HeadingId(l) => if include_declaration {
            lookup(idx.heading_references@, l) + lookup(idx.heading_declarations@, l)
        } else {
            lookup(idx.heading_references@, l)
        },
        TargetView::Reference(l, is_footnote) => {
            let norm = normalized_label(l);
            if is_footnote {
                let rs = lookup(idx.footnote_renames@, norm);
                if include_declaration {
                    rs
                } else {
                    keep_outside(rs, lookup(idx.footnote_definitions@, norm), rs.len() as int)
                }
            } else {
                lookup(idx.reference_definitions@, norm)
            }
        },
    }
}

proof fn lemma_keep_outside(rs: Seq<(usize, usize)>, defs: Seq<(usize, usize)>, n: int)
    requires
        0 <= n <= rs.len(),
    ensures
        forall|i: int| 0 <= i < keep_outside(rs, defs, n).len() ==> {
            let x = #[trigger] keep_outside(rs, defs, n)[i];
            rs.subrange(0, n).contains(x) && !inside_some(defs, x)
        },
    decreases n,
{
    if n > 0 {
        lemma_keep_outside(rs, defs, n - 1);
        let prev = keep_outside(rs, defs, n - 1);
        assert forall|i: int| 0 <= i < keep_outside(rs, defs, n).len() implies {
            let x = #[trigger] keep_outside(rs, defs, n)[i];
            rs.subrange(0, n).contains(x) && !inside_some(defs, x)
        } by {
            let x = keep_outside(rs, defs, n)[i];
            if i < prev.len() {
                assert(x == prev[i]);
                let sub = rs.subrange(0, n - 1);
                let k = choose|k: int| 0 <= k < sub.len() && sub[k] == x;
                assert(rs.subrange(0, n)[k] == x);
            } else {
                assert(rs.subrange(0, n)[n - 1] == x);
            }
        }
    }
}

proof fn lemma_keyed_among(idx: SymbolIndex, part: KeyPart, keys: Seq<String>, n: int)
    requires
        0 <= n <= keys.len(),
        part == KeyPart::CrossrefReferences || part == KeyPart::ChunkReferences,
    ensures
        forall|i: int| 0 <= i < keyed(idx, part, keys, false, n).len() ==>
            keyed(idx, part, keys, true, n).contains(#[trigger] keyed(idx, part, keys, false, n)[i]),
    decreases n,
{
    if n > 0 {
        lemma_keyed_among(idx, part, keys, n - 1);
        let a = keyed(idx, part, keys, false, n - 1);
        let b = keyed(idx, part, keys, true, n - 1);
        let pa = per_key(idx, part, keys[n - 1]@, false);
        let pb = per_key(idx, part, keys[n - 1]@, true);
        assert(pb.subrange(0, pa.len() as int) == pa);
        assert forall|i: int| 0 <= i < keyed(idx, part, keys, false, n).len() implies
            keyed(idx, part, keys, true, n).contains(#[trigger] keyed(idx, part, keys, false, n)[i]) by {
            let x = keyed(idx, part, keys, false, n)[i];
            if i < a.len() {
                assert(x == a[i]);
                let k = choose|k: int| 0 <= k < b.len() && b[k] == x;
                assert((b + pb)[k] == x);
            } else {
                assert(x == pa[i - a.len()]);
                assert((b + pb)[b.len() + (i - a.len())] == x);
            }
        }
    }
}

/// A reference lookup without declarations lists no span that it would
/// not list with them, and for a footnote none of them lies within a
/// footnote definition.
pub proof fn lemma_references_without_declarations(
    idx: SymbolIndex,
    t: TargetView,
    keys: Seq<String>,
)
    ensures
        forall|i: int| 0 <= i < reference_spans_spec(idx, t, keys, false).len() ==>
            reference_spans_spec(idx, t, keys, true).contains(
                #[trigger] reference_spans_spec(idx, t, keys, false)[i],
            ),
        t matches TargetView::Reference(l, true) ==> forall|i: int|
            0 <= i < reference_spans_spec(idx, t, keys, false).len() ==> !inside_some(
                lookup(idx.footnote_definitions@, normalized_label(l)),
                #[trigger] reference_spans_spec(idx, t, keys, false)[i],
            ),
{
    let without = reference_spans_spec(idx, t, keys, false);
    let with = reference_spans_spec(idx, t, keys, true);
    match t {
        TargetView::Crossref(_) => {
            lemma_keyed_among(idx, KeyPart::CrossrefReferences, keys, keys.len() as int);
        },
        TargetView::ChunkLabel(_) => {
            lemma_keyed_among(idx, KeyPart::ChunkReferences, keys, keys.len() as int);
        },
        TargetView::HeadingLink(l) => {
            assert forall|i: int| 0 <= i < without.len() implies with.contains(#[trigger] without[i]) by {
                assert(with[i] == without[i]);
            }
        },
        TargetView::Reference(l, true) => {
            let norm = normalized_label(l);
            let rs = lookup(idx.footnote_renames@, norm);
            lemma_keep_outside(rs, lookup(idx.footnote_definitions@, norm), rs.len() as int);
            assert(rs.subrange(0, rs.len() as int) == rs);
        },
        _ => {
            assert forall|i: int| 0 <= i < without.len() implies with.contains(#[trigger] without[i]) by {
                assert(with[i] == without[i]);
            }
        },
    }
}

/// The spans that a reference lookup lists in this document (see
/// [`reference_spans_spec`]).
pub fn document_reference_spans(
    index: &SymbolIndex,
    target: &SymbolTarget,
    keys: &Vec<String>,
    include_declaration: bool,
) -> (r: Vec<(usize, usize)>)
    ensures
        r@ == reference_spans_spec(*index, target_view(*target), keys@, include_declaration),
{
    let mut out: Vec<(usize, usize)> = Vec::new();
    match target {
        SymbolTarget::Citation(k) => {
            let norm = normalize_label(k.as_str());
            append_lookup(&mut out, &index.citation_usages, norm.as_str());
        },
        SymbolTarget::Crossref(_) => {
            out = keyed_spans(index, KeyPart::CrossrefReferences, keys, include_declaration);
        },
        SymbolTarget::ChunkLabel(_) => {
            out = keyed_spans(index, KeyPart::ChunkReferences, keys, include_declaration);
        },
        SymbolTarget::ExampleLabel(l) => {
            if include_declaration {
                append_lookup(&mut out, &index.example_label_definitions, l.as_str());
            }
        },
        SymbolTarget::HeadingLink(l) | SymbolTarget::HeadingId(l) => {
            append_lookup(&mut out, &index.heading_references, l.as_str());
            if include_declaration {
                append_lookup(&mut out, &index.heading_declarations, l.as_str());
            }
        },
        SymbolTarget::Reference { label, is_footnote } => {
            let norm = normalize_label(label.as_str());
            if *is_footnote {
                let mut rs: Vec<(usize, usize)> = Vec::new();
                append_lookup(&mut rs, &index.footnote_renames, norm.as_str());
                if include_declaration {
                    out = rs;
                } else {
                    let mut defs: Vec<(usize, usize)> = Vec::new();
                    append_lookup(&mut defs, &index.footnote_definitions, norm.as_str());
                    out = spans_outside(&rs, &defs);
                }
            } else {
                append_lookup(&mut out, &index.reference_definitions, norm.as_str());
            }
        },
    }
    out
}

/// Every span of the symbol `t` in this document, for highlighting and
/// linked editing: a citation's usages; per search key of a cross-reference
/// or chunk label its usages, declarations and chunk-label values; an
/// example label's usages and definitions; a heading's rename spans; a
/// footnote's references and definitions; and, walked from the tree `es`
/// since the index holds no usages of them, the label spans of a link
/// reference (see [`reference_spans_below`]; none for an empty label).
pub open spec fn symbol_spans_spec(
    idx: SymbolIndex,
    t: TargetView,
    keys: Seq<String>,
    es: Seq<ElementView>,
) -> Seq<(usize, usize)> {
    match t {
        TargetView::Citation(k) => lookup(idx.citation_usages@, k),
        TargetView::Crossref(_) | TargetView::ChunkLabel(_) => keyed(
            idx,
            KeyPart::AllOccurrences,
            keys,
            false,
            keys.len() as int,
        ),
        TargetView::ExampleLabel(l) => lookup(idx.example_label_usages@, l) + lookup(idx.example_label_definitions@, l),
        TargetView::HeadingLink(l) | TargetView::HeadingId(l) => lookup(idx.heading_renames@, l),
        TargetView::Reference(l, true) => lookup(idx.footnote_renames@, l),
        TargetView::Reference(l, false) => if normalized_label(l).len() == 0 {
            seq![]
        } else {
            reference_spans_below(es, normalized_label(l), es.len() as int)
        },
    }
}

/// Every span of the symbol `target` in the document of tree `tree` (see
/// [`symbol_spans_spec`]).
pub fn document_symbol_spans(
    index: &SymbolIndex,
    target: &SymbolTarget,
    keys: &Vec<String>,
    tree: &SyntaxTree,
) -> (r: Vec<(usize, usize)>)
    ensures
        r@ == symbol_spans_spec(*index, target_view(*target), keys@, tree@),
{
    let mut out: Vec<(usize, usize)> = Vec::new();
    match target {
        SymbolTarget::Citation(k) => {
            append_lookup(&mut out, &index.citation_usages, k.as_str());
        },
        SymbolTarget::Crossref(_) | SymbolTarget::ChunkLabel(_) => {
            out = keyed_spans(index, KeyPart::AllOccurrences, keys, false);
        },
        SymbolTarget::ExampleLabel(l) => {
            append_lookup(&mut out, &index.example_label_usages, l.as_str());
            append_lookup(&mut out, &index.example_label_definitions, l.as_str());
        },
        SymbolTarget::HeadingLink(l) | SymbolTarget::HeadingId(l) => {
            append_lookup(&mut out, &index.heading_renames, l.as_str());
        },
        SymbolTarget::Reference { label, is_footnote } => {
            if *is_footnote {
                append_lookup(&mut out, &index.footnote_renames, label.as_str());
            } else {
                out = collect_reference_link_ranges(tree, label.as_str());
            }
        },
    }
    out
}

/// The spans that a rename rewrites to the new name in one document: for
/// a cross-reference, per search key its usages, chunk-label values and
/// declarations; for a chunk label, per key its values and usages; for a
/// heading link or heading id, the heading's rename spans; for a citation,
/// its usages (labels normalised); an example label, link reference or
/// footnote is not renamed.
pub open spec fn rename_spans_spec(idx: SymbolIndex, t: TargetView, keys: Seq<String>) -> Seq<(usize, usize)> {
    match t {
        TargetView::Crossref(_) => keyed(idx, KeyPart::CrossrefRename, keys, false, keys.len() as int),
        TargetView::ChunkLabel(_) => keyed(idx, KeyPart::ChunkRename, keys, false, keys.len() as int),
        TargetView::HeadingLink(l) | TargetView::HeadingId(l) => lookup(idx.heading_renames@, normalized_label(l)),
        TargetView::Citation(k) => lookup(idx.citation_usages@, normalized_label(k)),
        TargetView::ExampleLabel(_) | TargetView::Reference(..) => seq![],
    }
}

/// Rename and reference lookups match citation keys, heading labels and
/// reference labels up to ASCII case and whitespace: two spellings with the
/// same normalised form rename the same spans and list the same
/// references; and a citation rename rewrites exactly the usage spans that
/// the index holds under the normalised key.
pub proof fn lemma_lookups_ignore_spelling(
    idx: SymbolIndex,
    k1: Seq<char>,
    k2: Seq<char>,
    keys: Seq<String>,
    include_declaration: bool,
    is_footnote: bool,
)
    ensures
        rename_spans_spec(idx, TargetView::Citation(k1), keys) == lookup(
            idx.citation_usages@,
            normalized_label(k1),
        ),
        reference_spans_spec(idx, TargetView::Citation(k1), keys, include_declaration) == lookup(
            idx.citation_usages@,
            normalized_label(k1),
        ),
        normalized_label(k1) == normalized_label(k2) ==> {
            &&& rename_spans_spec(idx, TargetView::Citation(k1), keys) == rename_spans_spec(
                idx,
                TargetView::Citation(k2),
                keys,
            )
            &&& rename_spans_spec(idx, TargetView::HeadingLink(k1), keys) == rename_spans_spec(
                idx,
                TargetView::HeadingLink(k2),
                keys,
            )
            &&& rename_spans_spec(idx, TargetView::HeadingId(k1), keys) == rename_spans_spec(
                idx,
                TargetView::HeadingId(k2),
                keys,
            )
            &&& reference_spans_spec(idx, TargetView::Citation(k1), keys, include_declaration)
                == reference_spans_spec(idx, TargetView::Citation(k2), keys, include_declaration)
            &&& reference_spans_spec(
                idx,
                TargetView::Reference(k1, is_footnote),
                keys,
                include_declaration,
            ) == reference_spans_spec(
                idx,
                TargetView::Reference(k2, is_footnote),
                keys,
                include_declaration,
            )
        },
{
}

/// The spans where renaming a cross-reference inserts an explicit anchor
/// on a heading that had only an implicit one (bookdown references only).
pub open spec fn anchor_spans_spec(idx: SymbolIndex, t: TargetView, bookdown: bool) -> Seq<(usize, usize)> {
    match t {
        TargetView::Crossref(k) => if bookdown {
            lookup(idx.implicit_heading_inserts@, normalized_label(k))
        } else {
            seq![]
        },
        _ => seq![],
    }
}

/// The text of an inserted anchor: ` {#name}`.
pub open spec fn anchor_text(name: Seq<char>) -> Seq<char> {
    seq![' ', '{', '#'] + name + seq!['}']
}

fn anchor_string(name: &str) -> (r: String)
    ensures
        r@ == anchor_text(name@),
{
    let mut s = String::new();
    let head = chars_of(" {#");
    let tail = chars_of("}");
    proof {
        reveal_strlit(" {#");
        reveal_strlit("}");
    }
    push_chars(&mut s, &head);
    push_chars(&mut s, &chars_of(name));
    push_chars(&mut s, &tail);
    s
}

fn push_edits(out: &mut Vec<TextEdit>, text: &str, spans: &Vec<(usize, usize)>, new_text: &str)
    requires
        positions_fit(text@),
    ensures
        final(out)@.len() == old(out)@.len() + spans@.len(),
        forall|i: int| 0 <= i < old(out)@.len() ==> #[trigger] final(out)@[i] == old(out)@[i],
        forall|i: int|
            0 <= i < spans@.len() ==> (#[trigger] final(out)@[old(out)@.len() + i]).range == span_range(
                text@,
                spans@[i],
            ) && final(out)@[old(out)@.len() + i].new_text@ == new_text@,
{
    let ranges = spans_to_ranges(text, spans);
    let ghost before = out@;
    let mut i: usize = 0;
    while i < ranges.len()
        invariant
            i <= ranges@.len(),
            ranges@.len() == spans@.len(),
            forall|j: int| 0 <= j < ranges@.len() ==> #[trigger] ranges@[j] == span_range(text@, spans@[j]),
            out@.len() == before.len() + i,
            forall|j: int| 0 <= j < before.len() ==> #[trigger] out@[j] == before[j],
            forall|j: int|
                0 <= j < i ==> (#[trigger] out@[before.len() + j]).range == span_range(text@, spans@[j])
                    && out@[before.len() + j].new_text@ == new_text@,
        decreases ranges.len() - i,
    {
        out.push(TextEdit { range: ranges[i], new_text: new_text.to_string() });
        i = i + 1;
    }
}

/// The edits that renaming the symbol `target` to `new_name` makes in one
/// document of text `text`: each span of [`rename_spans_spec`] replaced by
/// the new name, then each span of [`anchor_spans_spec`] replaced by
/// [`anchor_text`] of it; `keys` are the search keys of a cross-reference
/// or chunk label.
pub fn document_rename_edits(
    index: &SymbolIndex,
    target: &SymbolTarget,
    keys: &Vec<String>,
    text: &str,
    new_name: &str,
    bookdown: bool,
) -> (r: Vec<TextEdit>)
    requires
        positions_fit(text@),
    ensures
        ({
            let rs = rename_spans_spec(*index, target_view(*target), keys@);
            let an = anchor_spans_spec(*index, target_view(*target), bookdown);
            &&& r@.len() == rs.len() + an.len()
            &&& forall|i: int|
                0 <= i < rs.len() ==> (#[trigger] r@[i]).range == span_range(text@, rs[i])
                    && r@[i].new_text@ == new_name@
            &&& forall|i: int|
                0 <= i < an.len() ==> (#[trigger] r@[rs.len() + i]).range == span_range(text@, an[i])
                    && r@[rs.len() + i].new_text@ == anchor_text(new_name@)
        }),
{
    let mut spans: Vec<(usize, usize)> = Vec::new();
    let mut anchors: Vec<(usize, usize)> = Vec::new();
    match target {
        SymbolTarget::Crossref(k) => {
            spans = keyed_spans(index, KeyPart::CrossrefRename, keys, false);
            if bookdown {
                let norm = normalize_label(k.as_str());
                append_lookup(&mut anchors, &index.implicit_heading_inserts, norm.as_str());
            }
        },
        SymbolTarget::ChunkLabel(_) => {
            spans = keyed_spans(index, KeyPart::ChunkRename, keys, false);
        },
        SymbolTarget::HeadingLink(l) | SymbolTarget::HeadingId(l) => {
            let norm = normalize_label(l.as_str());
            append_lookup(&mut spans, &index.heading_renames, norm.as_str());
        },
        SymbolTarget::Citation(k) => {
            let norm = normalize_label(k.as_str());
            append_lookup(&mut spans, &index.citation_usages, norm.as_str());
        },
        SymbolTarget::ExampleLabel(_) | SymbolTarget::Reference { .. } => {},
    }
    assert(spans@ == rename_spans_spec(*index, target_view(*target), keys@));
    assert(anchors@ == anchor_spans_spec(*index, target_view(*target), bookdown));
    let mut out: Vec<TextEdit> = Vec::new();
    let ghost empty = out@;
    push_edits(&mut out, text, &spans, new_name);
    let anchor = anchor_string(new_name);
    let ghost mid = out@;
    push_edits(&mut out, text, &anchors, anchor.as_str());
    assert forall|i: int| 0 <= i < anchors@.len() implies (#[trigger] out@[spans@.len() + i]).range
        == span_range(text@, anchors@[i]) && out@[spans@.len() + i].new_text@ == anchor_text(new_name@) by {
        assert(out@[mid.len() + i] == out@[spans@.len() + i]);
    }
    assert forall|i: int| 0 <= i < spans@.len() implies (#[trigger] out@[i]).range == span_range(text@, spans@[i])
        && out@[i].new_text@ == new_name@ by {
        assert(out@[i] == mid[i]);
        assert(mid[empty.len() + i] == mid[i]);
    }
    out
}

/// The first of `s`, if any.
pub open spec fn first_span(s: Seq<(usize, usize)>) -> Option<(usize, usize)> {
    if s.len() > 0 {
        Some(s[0])
    } else {
        None
    }
}

pub(crate) fn first_lookup(v: &Vec<(String, Vec<(usize, usize)>)>, key: &str) -> (r: Option<(usize, usize)>)
    ensures
        r == first_span(lookup(v@, key@)),
{
    let mut found: Vec<(usize, usize)> = Vec::new();
    append_lookup(&mut found, v, key);
    assert(found@ == lookup(v@, key@));
    if found.len() > 0 {
        Some(found[0])
    } else {
        None
    }
}

/// What a definition lookup asks of one document for one key.
#[derive(Clone, Copy)]
pub enum DefinitionQuery {
    /// The heading with that explicit identifier.
    ExplicitHeading,
    /// The heading with that implicit identifier.
    ImplicitHeading,
    /// The heading with that text as label.
    HeadingLabel,
    /// The cross-reference declaration, or else (with implicit heading
    /// references) the heading with that implicit identifier.
    Crossref,
    /// The chunk with that label.
    ChunkLabel,
    /// The footnote definition.
    Footnote,
    /// The link reference definition.
    LinkReference,
    /// The example list item with that label.
    ExampleLabel,
}

/// The span that one document answers for one key.
pub open spec fn key_hit(idx: SymbolIndex, q: DefinitionQuery, k: Seq<char>, implicit_headings: bool) -> Option<(usize, usize)> {
    match q {
        DefinitionQuery::ExplicitHeading => first_span(lookup(idx.heading_explicit_definitions@, k)),
        DefinitionQuery::ImplicitHeading => first_span(lookup(idx.heading_implicit_definitions@, k)),
        DefinitionQuery::HeadingLabel => first_span(lookup(idx.heading_labels@, k)),
        DefinitionQuery::Crossref => match first_span(lookup(idx.crossref_declarations@, k)) {
            Some(sp) => Some(sp),
            None => if implicit_headings {
                first_span(lookup(idx.heading_implicit_definitions@, k))
            } else {
                None
            },
        },
        DefinitionQuery::ChunkLabel => first_span(lookup(idx.chunk_label_values@, k)),
        DefinitionQuery::Footnote => first_span(lookup(idx.footnote_definitions@, k)),
        DefinitionQuery::LinkReference => first_span(lookup(idx.reference_definitions@, k)),
        DefinitionQuery::ExampleLabel => first_span(lookup(idx.example_label_definitions@, k)),
    }
}

/// The labels of a list of keys.
pub open spec fn key_views(keys: Seq<String>) -> Seq<Seq<char>> {
    keys.map_values(|s: String| s@)
}

/// The answer of one document for the first key, from the `i`-th on, that
/// it answers.
pub open spec fn keys_hit(
    idx: SymbolIndex,
    q: DefinitionQuery,
    keys: Seq<Seq<char>>,
    implicit_headings: bool,
    i: int,
) -> Option<(usize, usize)>
    decreases keys.len() - i,
{
    if i < 0 || i >= keys.len() {
        None
    } else {
        match key_hit(idx, q, keys[i], implicit_headings) {
            Some(sp) => Some(sp),
            None => keys_hit(idx, q, keys, implicit_headings, i + 1),
        }
    }
}

/// The first document, from the `d`-th on, that answers, with its answer.
pub open spec fn docs_hit(
    docs: Seq<SymbolIndex>,
    q: DefinitionQuery,
    keys: Seq<Seq<char>>,
    implicit_headings: bool,
    d: int,
) -> Option<(usize, (usize, usize))>
    decreases docs.len() - d,
{
    if d < 0 || d >= docs.len() {
        None
    } else {
        match keys_hit(docs[d], q, keys, implicit_headings, 0) {
            Some(sp) => Some((d as usize, sp)),
            None => docs_hit(docs, q, keys, implicit_headings, d + 1),
        }
    }
}

/// A definition lookup answers from the first document that has an
/// answer: the document it names is one of `docs`, no earlier one (from
/// `d` on) answers, and the span is that document's own answer.
pub proof fn lemma_docs_hit_first(
    docs: Seq<SymbolIndex>,
    q: DefinitionQuery,
    keys: Seq<Seq<char>>,
    implicit_headings: bool,
    d: int,
)
    requires
        0 <= d,
        docs.len() <= usize::MAX,
    ensures
        docs_hit(docs, q, keys, implicit_headings, d) matches Some((j, sp)) ==> {
            &&& d <= j < docs.len()
            &&& keys_hit(docs[j as int], q, keys, implicit_headings, 0) == Some(sp)
            &&& forall|e: int| d <= e < j ==> #[trigger] keys_hit(docs[e], q, keys, implicit_headings, 0) is None
        },
        docs_hit(docs, q, keys, implicit_headings, d) is None ==> forall|e: int|
            d <= e < docs.len() ==> #[trigger] keys_hit(docs[e], q, keys, implicit_headings, 0) is None,
    decreases docs.len() - d,
{
    if d < docs.len() {
        lemma_docs_hit_first(docs, q, keys, implicit_headings, d + 1);
        if keys_hit(docs[d], q, keys, implicit_headings, 0) is Some {
            assert((d as usize) as int == d);
        }
    }
}

fn key_hit_of(idx: &SymbolIndex, q: DefinitionQuery, k: &str, implicit_headings: bool) -> (r: Option<(usize, usize)>)
    ensures
        r == key_hit(*idx, q, k@, implicit_headings),
{
    match q {
        DefinitionQuery::ExplicitHeading => first_lookup(&idx.heading_explicit_definitions, k),
        DefinitionQuery::ImplicitHeading => first_lookup(&idx.heading_implicit_definitions, k),
        DefinitionQuery::HeadingLabel => first_lookup(&idx.heading_labels, k),
        DefinitionQuery::Crossref => match first_lookup(&idx.crossref_declarations, k) {
            Some(sp) => Some(sp),
            None => if implicit_headings {
                first_lookup(&idx.heading_implicit_definitions, k)
            } else {
                None
            },
        },
        DefinitionQuery::ChunkLabel => first_lookup(&idx.chunk_label_values, k),
        DefinitionQuery::Footnote => first_lookup(&idx.footnote_definitions, k),
        DefinitionQuery::LinkReference => first_lookup(&idx.reference_definitions, k),
        DefinitionQuery::ExampleLabel => first_lookup(&idx.example_label_definitions, k),
    }
}

fn keys_hit_of(idx: &SymbolIndex, q: DefinitionQuery, keys: &Vec<String>, implicit_headings: bool) -> (r: Option<(usize, usize)>)
    ensures
        r == keys_hit(*idx, q, key_views(keys@), implicit_headings, 0),
{
    let ghost kv = key_views(keys@);
    let mut i: usize = 0;
    while i < keys.len()
        invariant
            i <= keys@.len(),
            kv == key_views(keys@),
            kv.len() == keys@.len(),
            keys_hit(*idx, q, kv, implicit_headings, 0) == keys_hit(*idx, q, kv, implicit_headings, i as int),
        decreases keys.len() - i,
    {
        assert(kv[i as int] == keys@[i as int]@);
        let h = key_hit_of(idx, q, keys[i].as_str(), implicit_headings);
        if h.is_some() {
            return h;
        }
        i = i + 1;
    }
    None
}

fn docs_hit_of(docs: &Vec<SymbolIndex>, q: DefinitionQuery, keys: &Vec<String>, implicit_headings: bool) -> (r: Option<(usize, (usize, usize))>)
    ensures
        r == docs_hit(docs@, q, key_views(keys@), implicit_headings, 0),
{
    let ghost kv = key_views(keys@);
    let mut d: usize = 0;
    while d < docs.len()
        invariant
            d <= docs@.len(),
            kv == key_views(keys@),
            docs_hit(docs@, q, kv, implicit_headings, 0) == docs_hit(docs@, q, kv, implicit_headings, d as int),
        decreases docs.len() - d,
    {
        match keys_hit_of(&docs[d], q, keys, implicit_headings) {
            Some(sp) => {
                return Some((d, sp));
            },
            None => {},
        }
        d = d + 1;
    }
    None
}

fn single_key(label: &str) -> (r: Vec<String>)
    ensures
        key_views(r@) == seq![label@],
{
    let mut v: Vec<String> = Vec::new();
    v.push(label.to_string());
    assert(key_views(v@) =~= seq![label@]);
    v
}

/// Where the definition of the symbol `t` is, as the index of the first
/// document of `docs` that has it and its span there; `keys` are the
/// search keys of a cross-reference or chunk label. A heading link, where
/// the link names an explicit anchor, goes to the first heading with that
/// explicit identifier; failing that, and only with implicit heading
/// references, to the first with that implicit identifier (explicit
/// anchors only), then to the first with that label. A cross-reference
/// goes, key by key, to a declaration or (implicit heading references) a
/// heading's implicit identifier; a chunk label to a chunk label; a
/// heading id to the heading with that explicit identifier; an example
/// label, with example lists on, to its example item; a footnote or link
/// reference to its definition. Citations are resolved elsewhere, from the
/// bibliography.
pub open spec fn definition_spec(
    docs: Seq<SymbolIndex>,
    t: TargetView,
    keys: Seq<Seq<char>>,
    explicit_anchor: bool,
    implicit_headings: bool,
    example_lists: bool,
) -> Option<(usize, (usize, usize))> {
    match t {
        TargetView::HeadingId(l) => docs_hit(docs, DefinitionQuery::ExplicitHeading, seq![l], implicit_headings, 0),
        TargetView::ExampleLabel(l) => if example_lists {
            docs_hit(docs, DefinitionQuery::ExampleLabel, seq![l], implicit_headings, 0)
        } else {
            None
        },
        TargetView::HeadingLink(l) => {
            let e = if explicit_anchor {
                docs_hit(docs, DefinitionQuery::ExplicitHeading, seq![l], implicit_headings, 0)
            } else {
                None
            };
            if e is Some {
                e
            } else if !implicit_headings {
                None
            } else {
                let i = if explicit_anchor {
                    docs_hit(docs, DefinitionQuery::ImplicitHeading, seq![l], implicit_headings, 0)
                } else {
                    None
                };
                if i is Some {
                    i
                } else {
                    docs_hit(docs, DefinitionQuery::HeadingLabel, seq![l], implicit_headings, 0)
                }
            }
        },
        TargetView::Crossref(_) => docs_hit(docs, DefinitionQuery::Crossref, keys, implicit_headings, 0),
        TargetView::ChunkLabel(_) => docs_hit(docs, DefinitionQuery::ChunkLabel, keys, implicit_headings, 0),
        TargetView::Reference(l, true) => docs_hit(docs, DefinitionQuery::Footnote, seq![l], implicit_headings, 0),
        TargetView::Reference(l, false) => docs_hit(docs, DefinitionQuery::LinkReference, seq![l], implicit_headings, 0),
        TargetView::Citation(_) => None,
    }
}

/// The definition of the symbol `target` among the indexed documents (see
/// [`definition_spec`]).
pub fn find_definition(
    docs: &Vec<SymbolIndex>,
    target: &SymbolTarget,
    keys: &Vec<String>,
    explicit_anchor: bool,
    implicit_headings: bool,
    example_lists: bool,
) -> (r: Option<(usize, (usize, usize))>)
    ensures
        r == definition_spec(
            docs@,
            target_view(*target),
            key_views(keys@),
            explicit_anchor,
            implicit_headings,
            example_lists,
        ),
{
    match target {
        SymbolTarget::HeadingId(l) => {
            let one = single_key(l.as_str());
            docs_hit_of(docs, DefinitionQuery::ExplicitHeading, &one, implicit_headings)
        },
        SymbolTarget::ExampleLabel(l) => {
            if !example_lists {
                return None;
            }
            let one = single_key(l.as_str());
            docs_hit_of(docs, DefinitionQuery::ExampleLabel, &one, implicit_headings)
        },
        SymbolTarget::HeadingLink(l) => {
            let one = single_key(l.as_str());
            if explicit_anchor {
                let e = docs_hit_of(docs, DefinitionQuery::ExplicitHeading, &one, implicit_headings);
                if e.is_some() {
                    return e;
                }
            }
            if !implicit_headings {
                return None;
            }
            if explicit_anchor {
                let i = docs_hit_of(docs, DefinitionQuery::ImplicitHeading, &one, implicit_headings);
                if i.is_some() {
                    return i;
                }
            }
            docs_hit_of(docs, DefinitionQuery::HeadingLabel, &one, implicit_headings)
        },
        SymbolTarget::Crossref(_) => docs_hit_of(docs, DefinitionQuery::Crossref, keys, implicit_headings),
        SymbolTarget::ChunkLabel(_) => docs_hit_of(docs, DefinitionQuery::ChunkLabel, keys, implicit_headings),
        SymbolTarget::Reference { label, is_footnote } => {
            let one = single_key(label.as_str());
            if *is_footnote {
                docs_hit_of(docs, DefinitionQuery::Footnote, &one, implicit_headings)
            } else {
                docs_hit_of(docs, DefinitionQuery::LinkReference, &one, implicit_headings)
            }
        },
        SymbolTarget::Citation(_) => None,
    }
}

/// Whether the link around node `n` (the nearest ancestor that is a link)
/// names a heading anchor (`#id`).
pub open spec fn explicit_anchor_from(es: Seq<ElementView>, n: int) -> bool
    decreases n,
{
    if n < 0 || n >= es.len() {
        false
    } else if !es[n].is_token && es[n].kind == SyntaxKind::LINK {
        heading_link_of(es, n) is Some
    } else if n == 0 || es[n].parent >= n || es[n].parent < 0 {
        false
    } else {
        explicit_anchor_from(es, es[n].parent)
    }
}

/// Whether the cursor at `offset` is in a link to a heading anchor
/// (`[text](#id)`); `offset` lies within the text.
pub fn is_explicit_heading_anchor_at_offset(tree: &SyntaxTree, offset: usize) -> (b: bool)
    requires
        offset <= tree@[0].end,
    ensures
        b == explicit_anchor_from(tree@, node_at_offset(tree@, offset as int)),
{
    let start = find_node_at_offset(tree, offset);
    let mut n = start;
    loop
        invariant
            n < tree@.len(),
            start as int == node_at_offset(tree@, offset as int),
            explicit_anchor_from(tree@, start as int) == explicit_anchor_from(tree@, n as int),
        decreases n,
    {
        if !tree.is_token(n) && tree.kind(n) == SyntaxKind::LINK {
            return heading_link_at(tree, n).is_some();
        }
        match tree.parent(n) {
            Some(p) => {
                n = p;
            },
            None => {
                return false;
            },
        }
    }
}

} // verus!
