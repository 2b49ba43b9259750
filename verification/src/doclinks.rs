//! Document links: the link destinations, reference uses, image sources
//! and autolinks of a document, each with the range it covers and the raw
//! target to resolve, and the reference targets its definitions provide.

use vstd::prelude::*;
use crate::links::{destination_token, extract_first_destination_token, link_text_content, ref_label};
use crate::syntax::{element_text, first_child_node, ElementView, SyntaxKind, SyntaxTree};
use crate::text::{chars_of, normalize_label, normalized_label, string_from_chars, vec_slice};

verus! {

/// What a document link stands for.
#[derive(Clone, Copy, Debug, PartialEq, Eq, Structural)]
pub enum LinkKind {
    /// An inline link destination or an autolink.
    Link,
    /// A reference link, by its normalised label.
    Reference,
    /// An image source.
    Image,
}

/// A document link before its target is resolved.
pub struct LinkCandidate {
    pub kind: LinkKind,
    pub start: usize,
    pub end: usize,
    /// The raw target, or for a reference the normalised label.
    pub target: String,
}

/// The mathematical view of a candidate.
pub struct CandidateView {
    pub kind: LinkKind,
    pub start: int,
    pub end: int,
    pub target: Seq<char>,
}

/// The target of an autolink: its text without the surrounding `<` `>`.
pub open spec fn autolink_target(t: Seq<char>) -> Seq<char> {
    if t.len() >= 2 && t[0] == '<' && t.last() == '>' {
        t.subrange(1, t.len() - 1)
    } else {
        t
    }
}

/// The candidate for the destination child of `j`, if any.
pub open spec fn dest_candidate(es: Seq<ElementView>, j: int, kind: LinkKind) -> Seq<CandidateView> {
    match first_child_node(es, j, SyntaxKind::LINK_DEST) {
        Some(d) => seq![
            CandidateView {
                kind,
                start: es[d].start,
                end: es[d].end,
                target: destination_token(element_text(es, d)),
            },
        ],
        None => seq![],
    }
}

/// The reference candidate of link `j`: its reference part, labelled by
/// the reference's label or, when that is empty, by the link text; for a
/// link with neither destination nor reference, its text.
pub open spec fn reference_candidate(es: Seq<ElementView>, j: int) -> Seq<CandidateView> {
    match first_child_node(es, j, SyntaxKind::LINK_REF) {
        Some(r) => {
            let label = if ref_label(es, r).len() == 0 {
                link_text_content(es, j)
            } else {
                ref_label(es, r)
            };
            seq![
                CandidateView {
                    kind: LinkKind::Reference,
                    start: es[r].start,
                    end: es[r].end,
                    target: normalized_label(label),
                },
            ]
        },
        None => if first_child_node(es, j, SyntaxKind::LINK_DEST) is None {
            match first_child_node(es, j, SyntaxKind::LINK_TEXT) {
                Some(t) => seq![
                    CandidateView {
                        kind: LinkKind::Reference,
                        start: es[t].start,
                        end: es[t].end,
                        target: normalized_label(element_text(es, t)),
                    },
                ],
                None => seq![],
            }
        } else {
            seq![]
        },
    }
}

/// The candidates of element `j` alone.
pub open spec fn candidates_of(es: Seq<ElementView>, j: int) -> Seq<CandidateView> {
    if es[j].is_token {
        seq![]
    } else if es[j].kind == SyntaxKind::LINK {
        dest_candidate(es, j, LinkKind::Link) + reference_candidate(es, j)
    } else if es[j].kind == SyntaxKind::IMAGE_LINK {
        dest_candidate(es, j, LinkKind::Image)
    } else if es[j].kind == SyntaxKind::AUTO_LINK {
        seq![
            CandidateView {
                kind: LinkKind::Link,
                start: es[j].start,
                end: es[j].end,
                target: autolink_target(element_text(es, j)),
            },
        ]
    } else {
        seq![]
    }
}

/// The candidates of the elements with index below `hi`, in document
/// order.
pub open spec fn candidates_below(es: Seq<ElementView>, hi: int) -> Seq<CandidateView>
    decreases hi,
{
    if hi <= 0 {
        seq![]
    } else {
        candidates_below(es, hi - 1) + candidates_of(es, hi - 1)
    }
}

/// The view of a list of candidates.
pub open spec fn candidate_views(v: Seq<LinkCandidate>) -> Seq<CandidateView> {
    v.map_values(|c: LinkCandidate| CandidateView { kind: c.kind, start: c.start as int, end: c.end as int, target: c.target@ })
}

fn push_candidate(out: &mut Vec<LinkCandidate>, kind: LinkKind, start: usize, end: usize, target: String)
    ensures
        candidate_views(final(out)@) == candidate_views(old(out)@).push(
            CandidateView { kind, start: start as int, end: end as int, target: target@ },
        ),
{
    let ghost before = out@;
    out.push(LinkCandidate { kind, start, end, target });
    assert(candidate_views(out@) =~= candidate_views(before).push(
        CandidateView { kind, start: start as int, end: end as int, target: target@ },
    ));
}

/// The destination candidate of `j` (see [`dest_candidate`]).
fn push_dest(tree: &SyntaxTree, j: usize, kind: LinkKind, out: &mut Vec<LinkCandidate>)
    requires
        j < tree@.len(),
    ensures
        candidate_views(final(out)@) == candidate_views(old(out)@) + dest_candidate(tree@, j as int, kind),
{
    match tree.first_child_node_of(j, SyntaxKind::LINK_DEST) {
        Some(d) => {
            let raw = tree.text(d);
            let target = extract_first_destination_token(raw.as_str());
            push_candidate(out, kind, tree.start(d), tree.end(d), target);
        },
        None => {
            assert(candidate_views(old(out)@) + Seq::<CandidateView>::empty() =~= candidate_views(old(out)@));
        },
    }
}

/// The reference candidate of link `j` (see [`reference_candidate`]).
fn push_reference(tree: &SyntaxTree, j: usize, out: &mut Vec<LinkCandidate>)
    requires
        j < tree@.len(),
    ensures
        candidate_views(final(out)@) == candidate_views(old(out)@) + reference_candidate(tree@, j as int),
{
    match tree.first_child_node_of(j, SyntaxKind::LINK_REF) {
        Some(r) => {
            let own = tree.child_tokens_text(r, SyntaxKind::TEXT);
            let label = if chars_of(own.as_str()).len() == 0 {
                match tree.first_child_node_of(j, SyntaxKind::LINK_TEXT) {
                    Some(t) => tree.text(t),
                    None => String::new(),
                }
            } else {
                own
            };
            push_candidate(out, LinkKind::Reference, tree.start(r), tree.end(r), normalize_label(label.as_str()));
        },
        None => {
            let has_dest = tree.first_child_node_of(j, SyntaxKind::LINK_DEST).is_some();
            if !has_dest {
                match tree.first_child_node_of(j, SyntaxKind::LINK_TEXT) {
                    Some(t) => {
                        let text = tree.text(t);
                        push_candidate(out, LinkKind::Reference, tree.start(t), tree.end(t), normalize_label(text.as_str()));
                        return;
                    },
                    None => {},
                }
            }
            assert(candidate_views(old(out)@) + Seq::<CandidateView>::empty() =~= candidate_views(old(out)@));
        },
    }
}

/// The target of an autolink (see [`autolink_target`]).
fn autolink_target_of(text: &str) -> (r: String)
    ensures
        r@ == autolink_target(text@),
{
    let cs = chars_of(text);
    if cs.len() >= 2 && cs[0] == '<' && cs[cs.len() - 1] == '>' {
        string_from_chars(&vec_slice(&cs, 1, cs.len() - 1))
    } else {
        string_from_chars(&cs)
    }
}

/// The link candidates of the document, in document order (see
/// [`candidates_below`]).
pub fn document_link_candidates(tree: &SyntaxTree) -> (out: Vec<LinkCandidate>)
    ensures
        candidate_views(out@) == candidates_below(tree@, tree@.len() as int),
{
    let n = tree.len();
    let mut out: Vec<LinkCandidate> = Vec::new();
    let mut j: usize = 0;
    while j < n
        invariant
            j <= n == tree@.len(),
            candidate_views(out@) == candidates_below(tree@, j as int),
        decreases n - j,
    {
        if !tree.is_token(j) {
            let k = tree.kind(j);
            if k == SyntaxKind::LINK {
                push_dest(tree, j, LinkKind::Link, &mut out);
                push_reference(tree, j, &mut out);
                assert(candidate_views(out@) =~= candidates_below(tree@, j as int) + candidates_of(tree@, j as int));
            } else if k == SyntaxKind::IMAGE_LINK {
                push_dest(tree, j, LinkKind::Image, &mut out);
            } else if k == SyntaxKind::AUTO_LINK {
                let t = autolink_target_of(tree.text(j).as_str());
                push_candidate(&mut out, LinkKind::Link, tree.start(j), tree.end(j), t);
            } else {
                assert(candidates_of(tree@, j as int) =~= Seq::<CandidateView>::empty());
                assert(candidate_views(out@) =~= candidates_below(tree@, j as int) + candidates_of(tree@, j as int));
            }
        } else {
            assert(candidate_views(out@) =~= candidates_below(tree@, j as int) + candidates_of(tree@, j as int));
        }
        j = j + 1;
    }
    out
}

/// The label of reference definition `d` (see [`crate::links::def_label`]).
pub open spec fn definition_key(es: Seq<ElementView>, d: int) -> Seq<char> {
    normalized_label(crate::links::def_label(es, d))
}

/// Whether `targets` already has an entry for `label`.
pub open spec fn has_label(targets: Seq<(Seq<char>, Seq<char>)>, label: Seq<char>) -> bool {
    exists|k: int| 0 <= k < targets.len() && (#[trigger] targets[k]).0 == label
}

/// The reference targets the definitions with index below `hi` provide:
/// for each reference definition in order, its normalised label and the
/// first token of its destination, unless the label is empty or already
/// taken, or the definition has no destination or an empty first token.
pub open spec fn targets_below(es: Seq<ElementView>, hi: int) -> Seq<(Seq<char>, Seq<char>)>
    decreases hi,
{
    if hi <= 0 {
        seq![]
    } else {
        let prev = targets_below(es, hi - 1);
        let d = hi - 1;
        if !es[d].is_token && es[d].kind == SyntaxKind::REFERENCE_DEFINITION {
            let label = definition_key(es, d);
            if label.len() == 0 || has_label(prev, label) {
                prev
            } else {
                match first_child_node(es, d, SyntaxKind::LINK_DEST) {
                    None => prev,
                    Some(x) => {
                        let raw = destination_token(element_text(es, x));
                        if raw.len() == 0 {
                            prev
                        } else {
                            prev.push((label, raw))
                        }
                    },
                }
            }
        } else {
            prev
        }
    }
}

/// The view of a list of targets.
pub open spec fn target_views(v: Seq<(String, String)>) -> Seq<(Seq<char>, Seq<char>)> {
    v.map_values(|t: (String, String)| (t.0@, t.1@))
}

fn has_label_exec(targets: &Vec<(String, String)>, label: &str) -> (b: bool)
    ensures
        b == has_label(target_views(targets@), label@),
{
    let ghost tv = target_views(targets@);
    let mut i: usize = 0;
    while i < targets.len()
        invariant
            i <= targets@.len(),
            tv == target_views(targets@),
            forall|k: int| 0 <= k < i ==> tv[k].0 != label@,
        decreases targets.len() - i,
    {
        if crate::text::str_eq(targets[i].0.as_str(), label) {
            proof {
                assert(tv[i as int].0 == label@);
            }
            return true;
        }
        i = i + 1;
    }
    false
}

/// The reference targets of the document's definitions (see
/// [`targets_below`]): normalised label and raw target, in document order.
pub fn reference_targets(tree: &SyntaxTree) -> (out: Vec<(String, String)>)
    ensures
        target_views(out@) == targets_below(tree@, tree@.len() as int),
{
    let n = tree.len();
    let mut out: Vec<(String, String)> = Vec::new();
    let mut j: usize = 0;
    while j < n
        invariant
            j <= n == tree@.len(),
            target_views(out@) == targets_below(tree@, j as int),
        decreases n - j,
    {
        if !tree.is_token(j) && tree.kind(j) == SyntaxKind::REFERENCE_DEFINITION {
            let label = normalize_label(crate::links::definition_label(tree, j).as_str());
            if chars_of(label.as_str()).len() > 0 && !has_label_exec(&out, label.as_str()) {
                match tree.first_child_node_of(j, SyntaxKind::LINK_DEST) {
                    Some(x) => {
                        let raw = extract_first_destination_token(tree.text(x).as_str());
                        if chars_of(raw.as_str()).len() > 0 {
                            let ghost before = out@;
                            out.push((label, raw));
                            assert(target_views(out@) =~= target_views(before).push((label@, raw@)));
                        }
                    },
                    None => {},
                }
            }
        }
        j = j + 1;
    }
    out
}

} // verus!
