//! Semantic tokens: additive highlighting for the Pandoc and Quarto
//! constructs that ordinary Markdown grammars miss (citations,
//! cross-references, shortcodes, div and span attributes, math markers,
//! footnote references), encoded in the LSP relative-delta format.

use vstd::prelude::*;
use crate::syntax::{ElementView, SyntaxKind, SyntaxTree};
use crate::text::{
    lemma_position_monotone, lemma_position_zero, offset_to_position, position_le, position_of,
    positions_fit, Position,
};

verus! {

/// One encoded semantic token: its line and start column relative to the
/// previous token (the column only when on the same line), its length in
/// UTF-16 units, its legend index and its modifiers.
#[derive(Clone, Copy, Debug, PartialEq, Eq, Structural)]
pub struct SemanticToken {
    pub delta_line: u32,
    pub delta_start: u32,
    pub length: u32,
    pub token_type: u32,
    pub token_modifiers_bitset: u32,
}

/// The legend index of a syntax kind, or none for kinds that get no token:
/// citation keys 0, cross-reference keys 1, shortcodes 2, div info 3, math
/// markers 4, footnote references 5, span attributes 6.
pub open spec fn token_type_spec(kind: SyntaxKind) -> Option<u32> {
    match kind {
        SyntaxKind::CITATION_KEY => Some(0),
        SyntaxKind::CROSSREF_KEY => Some(1),
        SyntaxKind::SHORTCODE => Some(2),
        SyntaxKind::DIV_INFO => Some(3),
        SyntaxKind::INLINE_MATH_MARKER => Some(4),
        SyntaxKind::DISPLAY_MATH_MARKER => Some(4),
        SyntaxKind::FOOTNOTE_REFERENCE => Some(5),
        SyntaxKind::SPAN_ATTRIBUTES => Some(6),
        _ => None,
    }
}

/// Map a syntax kind to its legend index (see [`token_type_spec`]).
pub fn token_type_for(kind: SyntaxKind) -> (r: Option<u32>)
    ensures
        r == token_type_spec(kind),
{
    match kind {
        SyntaxKind::CITATION_KEY => Some(0),
        SyntaxKind::CROSSREF_KEY => Some(1),
        SyntaxKind::SHORTCODE => Some(2),
        SyntaxKind::DIV_INFO => Some(3),
        SyntaxKind::INLINE_MATH_MARKER => Some(4),
        SyntaxKind::DISPLAY_MATH_MARKER => Some(4),
        SyntaxKind::FOOTNOTE_REFERENCE => Some(5),
        SyntaxKind::SPAN_ATTRIBUTES => Some(6),
        _ => None,
    }
}

/// The names of the legend's token types, by index.
pub open spec fn legend_spec() -> Seq<Seq<char>> {
    seq![
        "citation"@,
        "crossref"@,
        "shortcode"@,
        "div"@,
        "math"@,
        "footnote"@,
        "attribute"@,
    ]
}

/// The legend's token type names (see [`legend_spec`]); each index that
/// [`token_type_for`] gives names one of them.
pub fn legend_token_types() -> (names: Vec<String>)
    ensures
        names@.len() == legend_spec().len(),
        forall|i: int| 0 <= i < names@.len() ==> #[trigger] names@[i]@ == legend_spec()[i],
        forall|k: SyntaxKind| #[trigger] token_type_spec(k) matches Some(t) ==> t < names@.len(),
{
    let mut names: Vec<String> = Vec::new();
    names.push("citation".to_string());
    names.push("crossref".to_string());
    names.push("shortcode".to_string());
    names.push("div".to_string());
    names.push("math".to_string());
    names.push("footnote".to_string());
    names.push("attribute".to_string());
    names
}

/// The `(start, end, type)` of every element with index below `hi` whose
/// kind gets a token, in tree order.
pub open spec fn tokens_below(es: Seq<ElementView>, hi: int) -> Seq<(usize, usize, u32)>
    decreases hi,
{
    if hi <= 0 {
        seq![]
    } else {
        let p = tokens_below(es, hi - 1);
        match token_type_spec(es[hi - 1].kind) {
            Some(t) => p.push((es[hi - 1].start as usize, es[hi - 1].end as usize, t)),
            None => p,
        }
    }
}

/// Offsets are non-decreasing along `toks`.
pub open spec fn sorted_by_start(toks: Seq<(usize, usize, u32)>) -> bool {
    forall|i: int, j: int| 0 <= i <= j < toks.len() ==> toks[i].0 <= toks[j].0
}

/// Every node and token of the tree whose kind gets a token, with its
/// range and legend index, in tree (pre-)order.
pub fn collect_tokens(tree: &SyntaxTree) -> (r: Vec<(usize, usize, u32)>)
    ensures
        r@ == tokens_below(tree@, tree@.len() as int),
{
    let len = tree.len();
    let mut out: Vec<(usize, usize, u32)> = Vec::new();
    let mut j: usize = 0;
    while j < len
        invariant
            j <= len == tree@.len(),
            out@ == tokens_below(tree@, j as int),
        decreases len - j,
    {
        match token_type_for(tree.kind(j)) {
            Some(t) => {
                out.push((tree.start(j), tree.end(j), t));
            },
            None => {},
        }
        j = j + 1;
    }
    out
}

/// The encoder after the tokens `toks`: the tokens emitted so far and the
/// position (line, column) of the last emitted one, `(0, 0)` before any.
/// A token that spans lines or is empty in UTF-16 units is skipped.
pub open spec fn encode_state(text: Seq<char>, toks: Seq<(usize, usize, u32)>) -> (
    Seq<SemanticToken>,
    u32,
    u32,
)
    decreases toks.len(),
{
    if toks.len() == 0 {
        (seq![], 0, 0)
    } else {
        let (out, pl, ps) = encode_state(text, toks.drop_last());
        let t = toks.last();
        let s = position_of(text, t.0 as int);
        let e = position_of(text, t.1 as int);
        if s.line != e.line || e.character <= s.character {
            (out, pl, ps)
        } else {
            let dl = s.line - pl;
            let ds = if dl == 0 {
                s.character - ps
            } else {
                s.character as int
            };
            (
                out.push(
                    SemanticToken {
                        delta_line: dl as u32,
                        delta_start: ds as u32,
                        length: (e.character - s.character) as u32,
                        token_type: t.2,
                        token_modifiers_bitset: 0,
                    },
                ),
                s.line,
                s.character,
            )
        }
    }
}

/// The relative-delta encoding of `toks` over `text`.
pub open spec fn encoded(text: Seq<char>, toks: Seq<(usize, usize, u32)>) -> Seq<SemanticToken> {
    encode_state(text, toks).0
}

/// One step of the encoder: the state after the first `i + 1` tokens in
/// terms of the state after the first `i`.
proof fn lemma_encode_step(text: Seq<char>, toks: Seq<(usize, usize, u32)>, i: int)
    requires
        0 <= i < toks.len(),
    ensures
        ({
            let (out, pl, ps) = encode_state(text, toks.take(i));
            let s = position_of(text, toks[i].0 as int);
            let e = position_of(text, toks[i].1 as int);
            encode_state(text, toks.take(i + 1)) == if s.line != e.line || e.character
                <= s.character {
                (out, pl, ps)
            } else {
                let dl = s.line - pl;
                let ds = if dl == 0 {
                    s.character - ps
                } else {
                    s.character as int
                };
                (
                    out.push(
                        SemanticToken {
                            delta_line: dl as u32,
                            delta_start: ds as u32,
                            length: (e.character - s.character) as u32,
                            token_type: toks[i].2,
                            token_modifiers_bitset: 0,
                        },
                    ),
                    s.line,
                    s.character,
                )
            }
        }),
{
    assert(toks.take(i + 1).drop_last() =~= toks.take(i));
    assert(toks.take(i + 1).last() == toks[i]);
}

/// Encode `(start, end, type)` tokens, sorted by start offset, into the
/// LSP relative-delta format (see [`encode_state`]). Read back with running
/// sums, the result gives the absolute line, column, length and type of
/// exactly the tokens that lie on one line and are not empty, in order.
pub fn encode(text: &str, tokens: Vec<(usize, usize, u32)>) -> (data: Vec<SemanticToken>)
    requires
        positions_fit(text@),
        sorted_by_start(tokens@),
    ensures
        data@ == encoded(text@, tokens@),
        decode_state(data@).0 == emitted(text@, tokens@),
{
    proof {
        lemma_decode_encoded(text@, tokens@);
    }
    let mut data: Vec<SemanticToken> = Vec::new();
    let mut prev_line: u32 = 0;
    let mut prev_start: u32 = 0;
    let mut i: usize = 0;
    let ghost mut prev_off: int = 0;
    proof {
        lemma_position_zero(text@);
        assert(tokens@.take(0) =~= Seq::<(usize, usize, u32)>::empty());
    }
    while i < tokens.len()
        invariant
            i <= tokens@.len(),
            positions_fit(text@),
            sorted_by_start(tokens@),
            encode_state(text@, tokens@.take(i as int)) == (data@, prev_line, prev_start),
            position_of(text@, prev_off).line == prev_line,
            position_of(text@, prev_off).character == prev_start,
            forall|j: int| i <= j < tokens@.len() ==> prev_off <= tokens@[j].0,
        decreases tokens.len() - i,
    {
        let (s_off, e_off, token_type) = tokens[i];
        let start = offset_to_position(text, s_off);
        let end = offset_to_position(text, e_off);
        proof {
            lemma_encode_step(text@, tokens@, i as int);
            lemma_position_monotone(text@, prev_off, s_off as int);
        }
        if start.line != end.line || end.character <= start.character {
            i = i + 1;
            proof {
                assert forall|j: int| i <= j < tokens@.len() implies prev_off <= tokens@[j].0 by {}
            }
        } else {
            let length = end.character - start.character;
            let delta_line = start.line - prev_line;
            let delta_start = if delta_line == 0 {
                start.character - prev_start
            } else {
                start.character
            };
            data.push(
                SemanticToken {
                    delta_line,
                    delta_start,
                    length,
                    token_type,
                    token_modifiers_bitset: 0,
                },
            );
            prev_line = start.line;
            prev_start = start.character;
            proof {
                prev_off = s_off as int;
                assert forall|j: int| i + 1 <= j < tokens@.len() implies prev_off <= tokens@[j].0 by {
                    assert(tokens@[i as int].0 <= tokens@[j].0);
                }
            }
            i = i + 1;
        }
    }
    proof {
        assert(tokens@.take(tokens@.len() as int) =~= tokens@);
    }
    data
}

/// The last position the encoder emitted stands at offset 0 or at the
/// start offset of one of the tokens it has seen.
proof fn lemma_encode_state_origin(text: Seq<char>, toks: Seq<(usize, usize, u32)>)
    ensures
        exists|off: int|
            #![trigger position_of(text, off)]
            {
                &&& (off == 0 || exists|k: int| 0 <= k < toks.len() && toks[k].0 == off)
                &&& position_of(text, off).line == encode_state(text, toks).1
                &&& position_of(text, off).character == encode_state(text, toks).2
            },
    decreases toks.len(),
{
    if toks.len() == 0 {
        lemma_position_zero(text);
        assert(position_of(text, 0).line == 0);
    } else {
        let p = toks.drop_last();
        lemma_encode_state_origin(text, p);
        let t = toks.last();
        let s = position_of(text, t.0 as int);
        let e = position_of(text, t.1 as int);
        if s.line != e.line || e.character <= s.character {
            let off = choose|off: int|
                #![trigger position_of(text, off)]
                {
                    &&& (off == 0 || exists|k: int| 0 <= k < p.len() && p[k].0 == off)
                    &&& position_of(text, off).line == encode_state(text, p).1
                    &&& position_of(text, off).character == encode_state(text, p).2
                };
            if off != 0 {
                let k = choose|k: int| 0 <= k < p.len() && p[k].0 == off;
                assert(toks[k] == p[k]);
            }
            assert(position_of(text, off).line == encode_state(text, toks).1);
        } else {
            assert(toks[toks.len() - 1].0 == t.0);
            assert(position_of(text, t.0 as int).line == encode_state(text, toks).1);
        }
    }
}

/// The decoder's state after `data`: the absolute (line, column, length,
/// type) of every token so far, and the current line and column.
pub open spec fn decode_state(data: Seq<SemanticToken>) -> (Seq<(int, int, u32, u32)>, int, int)
    decreases data.len(),
{
    if data.len() == 0 {
        (seq![], 0, 0)
    } else {
        let (out, l, c) = decode_state(data.drop_last());
        let t = data.last();
        let (nl, nc) = if t.delta_line == 0 {
            (l, c + t.delta_start)
        } else {
            (l + t.delta_line, t.delta_start as int)
        };
        (out.push((nl, nc, t.length, t.token_type)), nl, nc)
    }
}

/// The absolute (line, column, length, type) of every token of `toks`
/// that is encoded (on one line, not empty), in order.
pub open spec fn emitted(text: Seq<char>, toks: Seq<(usize, usize, u32)>) -> Seq<(int, int, u32, u32)>
    decreases toks.len(),
{
    if toks.len() == 0 {
        seq![]
    } else {
        let p = emitted(text, toks.drop_last());
        let t = toks.last();
        let s = position_of(text, t.0 as int);
        let e = position_of(text, t.1 as int);
        if s.line != e.line || e.character <= s.character {
            p
        } else {
            p.push((s.line as int, s.character as int, (e.character - s.character) as u32, t.2))
        }
    }
}

/// Decoding undoes encoding: read back with running sums, the encoded
/// deltas give the absolute line and column of every encoded token, with
/// its length and type.
pub proof fn lemma_decode_encoded(text: Seq<char>, toks: Seq<(usize, usize, u32)>)
    requires
        positions_fit(text),
        sorted_by_start(toks),
    ensures
        decode_state(encoded(text, toks)).0 == emitted(text, toks),
        decode_state(encoded(text, toks)).1 == encode_state(text, toks).1,
        decode_state(encoded(text, toks)).2 == encode_state(text, toks).2,
    decreases toks.len(),
{
    if toks.len() > 0 {
        let p = toks.drop_last();
        assert(sorted_by_start(p)) by {
            assert forall|i: int, j: int| 0 <= i <= j < p.len() implies p[i].0 <= p[j].0 by {
                assert(p[i] == toks[i] && p[j] == toks[j]);
            }
        }
        lemma_decode_encoded(text, p);
        let t = toks.last();
        let s = position_of(text, t.0 as int);
        let e = position_of(text, t.1 as int);
        if !(s.line != e.line || e.character <= s.character) {
            lemma_encode_state_origin(text, p);
            let off = choose|off: int|
                #![trigger position_of(text, off)]
                {
                    &&& (off == 0 || exists|k: int| 0 <= k < p.len() && p[k].0 == off)
                    &&& position_of(text, off).line == encode_state(text, p).1
                    &&& position_of(text, off).character == encode_state(text, p).2
                };
            if off != 0 {
                let k = choose|k: int| 0 <= k < p.len() && p[k].0 == off;
                assert(toks[k].0 <= toks[toks.len() - 1].0);
            }
            lemma_position_monotone(text, off, t.0 as int);
            let data = encoded(text, toks);
            assert(data.drop_last() == encoded(text, p));
        }
    }
}

} // verus!
