//! The argument list of a Quarto shortcode (`{{< name arg key=value >}}`):
//! its tokens and their values, as byte ranges relative to the shortcode's
//! content text.

use vstd::prelude::*;
use crate::text::{
    byte_slice, char_len_utf8, chars_of, first_index_of, is_whitespace, is_ws,
    lemma_byte_slice_len, lemma_utf8_len_bounded, slice_bytes, str_byte_len, utf8_len, utf8_width,
    vec_find_char,
};

verus! {

/// The scanner after the characters of `s`: the tokens closed so far, the
/// start of the open token, whether a quoted run is open and its quote.
pub open spec fn scan_state(s: Seq<char>) -> (Seq<(usize, usize)>, Option<usize>, bool, char)
    decreases s.len(),
{
    if s.len() == 0 {
        (seq![], None, false, '\0')
    } else {
        let (out, st, in_quotes, q) = scan_state(s.drop_last());
        let c = s.last();
        let idx = utf8_len(s.drop_last()) as usize;
        if in_quotes {
            if c == q {
                (out, st, false, q)
            } else {
                (out, st, true, q)
            }
        } else if c == '"' || c == '\'' {
            (
                out,
                if st is None {
                    Some(idx)
                } else {
                    st
                },
                true,
                c,
            )
        } else if is_ws(c) {
            match st {
                Some(x) => (out.push((x, idx)), None, false, q),
                None => (out, st, false, q),
            }
        } else {
            (
                out,
                if st is None {
                    Some(idx)
                } else {
                    st
                },
                false,
                q,
            )
        }
    }
}

/// The tokens of a shortcode's content: runs separated by whitespace, a
/// quoted run (quotes included) never split, as byte ranges.
pub open spec fn shortcode_tokens_spec(s: Seq<char>) -> Seq<(usize, usize)> {
    let (out, st, _, _) = scan_state(s);
    match st {
        Some(x) => out.push((x, utf8_len(s) as usize)),
        None => out,
    }
}

/// The scanner's tokens are ordered, non-empty byte ranges inside the text
/// read so far, and an open token starts after them.
proof fn lemma_scan_ordered(s: Seq<char>)
    requires
        utf8_len(s) <= usize::MAX,
    ensures
        ({
            let (out, st, in_quotes, _q) = scan_state(s);
            &&& forall|k: int| 0 <= k < out.len() ==> (#[trigger] out[k]).0 < out[k].1 <= utf8_len(s)
            &&& forall|k: int| 0 <= k < out.len() - 1 ==> (#[trigger] out[k]).1 < out[k + 1].0
            &&& st matches Some(x) ==> x < utf8_len(s) && (out.len() > 0 ==> out.last().1 < x)
            &&& out.len() > 0 ==> out.last().1 < utf8_len(s)
            &&& in_quotes ==> st is Some
        }),
    decreases s.len(),
{
    if s.len() > 0 {
        let p = s.drop_last();
        lemma_utf8_len_bounded(s, s.len() - 1);
        assert(s.take(s.len() - 1) =~= p);
        lemma_scan_ordered(p);
        let (out, st, in_quotes, q) = scan_state(p);
        let c = s.last();
        let idx = utf8_len(p);
        assert(utf8_len(s) == idx + utf8_width(c));
        let (out2, st2, iq2, q2) = scan_state(s);
        if !in_quotes && !(c == '"' || c == '\'') && is_ws(c) && st is Some {
            assert(out2 == out.push((st->0, idx as usize)));
            assert forall|k: int| 0 <= k < out2.len() - 1 implies (#[trigger] out2[k]).1 < out2[k
                + 1].0 by {
                if k < out.len() - 1 {
                    assert(out2[k] == out[k] && out2[k + 1] == out[k + 1]);
                } else {
                    assert(out2[k] == out.last());
                }
            }
            assert forall|k: int| 0 <= k < out2.len() implies (#[trigger] out2[k]).0 < out2[k].1
                <= utf8_len(s) by {
                if k < out.len() {
                    assert(out2[k] == out[k]);
                }
            }
        }
    }
}

/// The tokens of a shortcode's content are non-empty byte ranges inside
/// it, in order, with a gap between each token and the next.
pub proof fn lemma_shortcode_tokens_ordered(s: Seq<char>)
    requires
        utf8_len(s) <= usize::MAX,
    ensures
        forall|k: int|
            0 <= k < shortcode_tokens_spec(s).len() ==> (#[trigger] shortcode_tokens_spec(s)[k]).0
                < shortcode_tokens_spec(s)[k].1 <= utf8_len(s),
        forall|k: int|
            0 <= k < shortcode_tokens_spec(s).len() - 1 ==> (#[trigger] shortcode_tokens_spec(
                s,
            )[k]).1 < shortcode_tokens_spec(s)[k + 1].0,
{
    lemma_scan_ordered(s);
    let (out, st, _iq, _q) = scan_state(s);
    let r = shortcode_tokens_spec(s);
    if st is Some {
        assert(r == out.push((st->0, utf8_len(s) as usize)));
        assert forall|k: int| 0 <= k < r.len() - 1 implies (#[trigger] r[k]).1 < r[k + 1].0 by {
            if k < out.len() - 1 {
                assert(r[k] == out[k] && r[k + 1] == out[k + 1]);
            } else {
                assert(r[k] == out.last());
            }
        }
        assert forall|k: int| 0 <= k < r.len() implies (#[trigger] r[k]).0 < r[k].1 <= utf8_len(s) by {
            if k < out.len() {
                assert(r[k] == out[k]);
            }
        }
    }
}

/// The byte offset of the `j`th character of `s`.
pub open spec fn char_offset(s: Seq<char>, j: int) -> int {
    utf8_len(s.take(j)) as int
}

/// Offset `x` is where a non-whitespace character of `s` starts.
pub open spec fn starts_word_char(s: Seq<char>, x: int) -> bool {
    exists|j: int| 0 <= j < s.len() && #[trigger] char_offset(s, j) == x && !is_ws(s[j])
}

/// Offset `x` is where some character of `s` starts.
pub open spec fn starts_char(s: Seq<char>, x: int) -> bool {
    exists|j: int| 0 <= j < s.len() && #[trigger] char_offset(s, j) == x
}

/// Offset `x` lies in one of the ranges `out`.
pub open spec fn covered(out: Seq<(usize, usize)>, x: int) -> bool {
    exists|k: int| 0 <= k < out.len() && (#[trigger] out[k]).0 <= x < out[k].1
}

proof fn lemma_offsets_extend(s: Seq<char>)
    requires
        s.len() > 0,
    ensures
        forall|j: int| 0 <= j < s.len() - 1 ==> #[trigger] char_offset(s, j) == char_offset(s.drop_last(), j),
        forall|j: int| 0 <= j < s.len() - 1 ==> #[trigger] char_offset(s.drop_last(), j) < utf8_len(s.drop_last()),
        char_offset(s, s.len() - 1) == utf8_len(s.drop_last()),
{
    let p = s.drop_last();
    assert forall|j: int| 0 <= j < s.len() - 1 implies #[trigger] char_offset(s, j) == char_offset(p, j) by {
        assert(s.take(j) =~= p.take(j));
    }
    assert forall|j: int| 0 <= j < s.len() - 1 implies #[trigger] char_offset(p, j) < utf8_len(p) by {
        crate::text::lemma_utf8_prefix_strict(p, j, p.len() as int);
        assert(p.take(p.len() as int) =~= p);
    }
    assert(s.take(s.len() - 1) =~= p);
}

/// What the scanner has seen: every non-whitespace character lies in a
/// closed token or after the open token's start; closed tokens start at a
/// non-whitespace character and end where a character starts; an open
/// token starts at a non-whitespace character.
proof fn lemma_scan_covers(s: Seq<char>)
    requires
        utf8_len(s) <= usize::MAX,
    ensures
        ({
            let (out, st, _iq, _q) = scan_state(s);
            &&& forall|j: int|
                0 <= j < s.len() && !is_ws(s[j]) ==> covered(out, #[trigger] char_offset(s, j)) || (
                st matches Some(x) && x <= char_offset(s, j))
            &&& forall|k: int| 0 <= k < out.len() ==> starts_word_char(s, (#[trigger] out[k]).0 as int)
            &&& forall|k: int| 0 <= k < out.len() ==> starts_char(s, (#[trigger] out[k]).1 as int)
            &&& st matches Some(x) ==> starts_word_char(s, x as int)
        }),
    decreases s.len(),
{
    if s.len() > 0 {
        let p = s.drop_last();
        lemma_utf8_len_bounded(s, s.len() - 1);
        assert(s.take(s.len() - 1) =~= p);
        lemma_scan_covers(p);
        lemma_scan_ordered(p);
        lemma_offsets_extend(s);
        let (out, st, iq, q) = scan_state(p);
        let (out2, st2, iq2, q2) = scan_state(s);
        let c = s.last();
        let last = s.len() - 1;
        assert(s[last] == c);
        let idx = utf8_len(p) as int;
        assert(char_offset(s, last) == idx);
        // Old witnesses carry over.
        assert forall|x: int| starts_word_char(p, x) implies starts_word_char(s, x) by {
            let j = choose|j: int| 0 <= j < p.len() && #[trigger] char_offset(p, j) == x && !is_ws(p[j]);
            assert(char_offset(s, j) == x);
            assert(s[j] == p[j]);
        }
        assert forall|x: int| starts_char(p, x) implies starts_char(s, x) by {
            let j = choose|j: int| 0 <= j < p.len() && #[trigger] char_offset(p, j) == x;
            assert(char_offset(s, j) == x);
        }
        assert forall|x: int| covered(out, x) implies covered(out2, x) by {
            let k = choose|k: int| 0 <= k < out.len() && (#[trigger] out[k]).0 <= x < out[k].1;
            if out2 != out {
                assert(out2 == out.push((st->0, idx as usize)));
                assert(out2[k] == out[k]);
            }
        }
        if !iq && !(c == '"' || c == '\'') && is_ws(c) && st is Some {
            let x = st->0;
            assert(out2 == out.push((x, idx as usize)));
            assert(out2[out.len() as int] == (x, idx as usize));
            assert forall|j: int|
                0 <= j < s.len() && !is_ws(s[j]) implies covered(out2, #[trigger] char_offset(s, j)) || (
            st2 matches Some(y) && y <= char_offset(s, j)) by {
                if j < last {
                    assert(s[j] == p[j]);
                    assert(char_offset(s, j) == char_offset(p, j));
                    if !covered(out, char_offset(p, j)) {
                        assert(x <= char_offset(p, j) < idx);
                        assert(out2[out.len() as int].0 <= char_offset(s, j) < out2[out.len() as int].1);
                    }
                }
            }
            assert forall|k: int| 0 <= k < out2.len() implies starts_word_char(s, (#[trigger] out2[k]).0 as int) by {
                if k < out.len() {
                    assert(out2[k] == out[k]);
                }
            }
            assert forall|k: int| 0 <= k < out2.len() implies starts_char(s, (#[trigger] out2[k]).1 as int) by {
                if k < out.len() {
                    assert(out2[k] == out[k]);
                } else {
                    assert(char_offset(s, last) == idx);
                }
            }
        } else {
            assert(out2 == out);
            if st2 is Some && st is None {
                assert(st2 == Some(idx as usize));
                assert(!is_ws(c));
                assert(starts_word_char(s, idx));
            }
            assert forall|j: int|
                0 <= j < s.len() && !is_ws(s[j]) implies covered(out2, #[trigger] char_offset(s, j)) || (
            st2 matches Some(y) && y <= char_offset(s, j)) by {
                if j < last {
                    assert(s[j] == p[j]);
                    assert(char_offset(s, j) == char_offset(p, j));
                }
            }
        }
    }
}

/// Every non-whitespace character of a shortcode's content lies in one of
/// its tokens; each token starts at a non-whitespace character and ends
/// where a character starts or at the end of the content.
pub proof fn lemma_shortcode_tokens_cover(s: Seq<char>)
    requires
        utf8_len(s) <= usize::MAX,
    ensures
        forall|j: int|
            0 <= j < s.len() && !is_ws(s[j]) ==> covered(shortcode_tokens_spec(s), #[trigger] char_offset(s, j)),
        forall|k: int|
            0 <= k < shortcode_tokens_spec(s).len() ==> starts_word_char(
                s,
                (#[trigger] shortcode_tokens_spec(s)[k]).0 as int,
            ),
        forall|k: int|
            0 <= k < shortcode_tokens_spec(s).len() ==> starts_char(s, (#[trigger] shortcode_tokens_spec(s)[k]).1 as int)
                || shortcode_tokens_spec(s)[k].1 == utf8_len(s),
{
    lemma_scan_covers(s);
    let (out, st, _iq, _q) = scan_state(s);
    let r = shortcode_tokens_spec(s);
    if st is Some {
        let x = st->0;
        assert(r == out.push((x, utf8_len(s) as usize)));
        assert forall|j: int| 0 <= j < s.len() && !is_ws(s[j]) implies covered(r, #[trigger] char_offset(s, j)) by {
            crate::text::lemma_utf8_prefix_strict(s, j, s.len() as int);
            assert(s.take(s.len() as int) =~= s);
            if covered(out, char_offset(s, j)) {
                let k = choose|k: int| 0 <= k < out.len() && (#[trigger] out[k]).0 <= char_offset(s, j) < out[k].1;
                assert(r[k] == out[k]);
            } else {
                assert(r[out.len() as int] == (x, utf8_len(s) as usize));
            }
        }
        assert forall|k: int| 0 <= k < r.len() implies starts_word_char(s, (#[trigger] r[k]).0 as int) by {
            if k < out.len() {
                assert(r[k] == out[k]);
            }
        }
        assert forall|k: int| 0 <= k < r.len() implies starts_char(s, (#[trigger] r[k]).1 as int) || r[k].1
            == utf8_len(s) by {
            if k < out.len() {
                assert(r[k] == out[k]);
            }
        }
    }
}

/// Character `j` of `s` is read while a quoted run is open: a quote before
/// it has opened and not yet closed (a closing quote is read inside).
pub open spec fn quoted_at(s: Seq<char>, j: int) -> bool {
    scan_state(s.take(j)).2
}

proof fn lemma_scan_covers_quoted(s: Seq<char>)
    requires
        utf8_len(s) <= usize::MAX,
    ensures
        ({
            let (out, st, _iq, _q) = scan_state(s);
            forall|j: int|
                0 <= j < s.len() && quoted_at(s, j) ==> covered(out, #[trigger] char_offset(s, j)) || (
                st matches Some(x) && x <= char_offset(s, j))
        }),
    decreases s.len(),
{
    if s.len() > 0 {
        let p = s.drop_last();
        lemma_utf8_len_bounded(s, s.len() - 1);
        assert(s.take(s.len() - 1) =~= p);
        lemma_scan_covers_quoted(p);
        lemma_scan_ordered(p);
        lemma_offsets_extend(s);
        let (out, st, iq, q) = scan_state(p);
        let (out2, st2, iq2, q2) = scan_state(s);
        let c = s.last();
        let last = s.len() - 1;
        let idx = utf8_len(p) as int;
        assert(char_offset(s, last) == idx);
        let closes = !iq && !(c == '"' || c == '\'') && is_ws(c) && st is Some;
        assert forall|j: int|
            0 <= j < s.len() && quoted_at(s, j) implies covered(out2, #[trigger] char_offset(s, j)) || (
        st2 matches Some(y) && y <= char_offset(s, j)) by {
            if j < last {
                assert(s.take(j) =~= p.take(j));
                assert(quoted_at(p, j));
                assert(char_offset(s, j) == char_offset(p, j));
                let o = char_offset(p, j);
                if covered(out, o) {
                    let k = choose|k: int| 0 <= k < out.len() && (#[trigger] out[k]).0 <= o < out[k].1;
                    if closes {
                        assert(out2 == out.push((st->0, idx as usize)));
                        assert(out2[k] == out[k]);
                    } else {
                        assert(out2 == out);
                    }
                } else {
                    if closes {
                        assert(out2 == out.push((st->0, idx as usize)));
                        assert(out2[out.len() as int].0 <= o < out2[out.len() as int].1);
                    } else {
                        assert(st2 == st);
                    }
                }
            } else {
                assert(s.take(last) =~= p);
                assert(iq);
            }
        }
    }
}

/// Every character read inside a quoted run (whitespace too) lies in one
/// of the shortcode's tokens: a quoted run is never split.
pub proof fn lemma_shortcode_tokens_cover_quoted(s: Seq<char>)
    requires
        utf8_len(s) <= usize::MAX,
    ensures
        forall|j: int|
            0 <= j < s.len() && quoted_at(s, j) ==> covered(shortcode_tokens_spec(s), #[trigger] char_offset(s, j)),
{
    lemma_scan_covers_quoted(s);
    let (out, st, _iq, _q) = scan_state(s);
    let r = shortcode_tokens_spec(s);
    assert forall|j: int| 0 <= j < s.len() && quoted_at(s, j) implies covered(r, #[trigger] char_offset(s, j)) by {
        crate::text::lemma_utf8_prefix_strict(s, j, s.len() as int);
        assert(s.take(s.len() as int) =~= s);
        let o = char_offset(s, j);
        if covered(out, o) {
            let k = choose|k: int| 0 <= k < out.len() && (#[trigger] out[k]).0 <= o < out[k].1;
            if st is Some {
                assert(r == out.push((st->0, utf8_len(s) as usize)));
                assert(r[k] == out[k]);
            }
        } else {
            assert(r == out.push((st->0, utf8_len(s) as usize)));
            assert(r[out.len() as int] == (st->0, utf8_len(s) as usize));
        }
    }
}

/// Tokenize a shortcode's content into byte ranges (see
/// [`shortcode_tokens_spec`]).
pub fn shortcode_tokens(content: &str) -> (r: Vec<(usize, usize)>)
    requires
        utf8_len(content@) <= usize::MAX,
    ensures
        r@ == shortcode_tokens_spec(content@),
{
    let cs = chars_of(content);
    let mut out: Vec<(usize, usize)> = Vec::new();
    let mut start: Option<usize> = None;
    let mut in_quotes = false;
    let mut quote_char = '\0';
    let mut idx: usize = 0;
    let mut i: usize = 0;
    proof {
        assert(cs@.take(0) =~= Seq::<char>::empty());
    }
    while i < cs.len()
        invariant
            i <= cs@.len(),
            cs@ == content@,
            utf8_len(content@) <= usize::MAX,
            idx == utf8_len(cs@.take(i as int)),
            scan_state(cs@.take(i as int)) == (out@, start, in_quotes, quote_char),
        decreases cs.len() - i,
    {
        let ch = cs[i];
        proof {
            assert(cs@.take(i + 1).drop_last() =~= cs@.take(i as int));
            assert(cs@.take(i + 1).last() == ch);
            lemma_utf8_len_bounded(cs@, i + 1);
            assert(utf8_len(cs@.take(i + 1)) == utf8_len(cs@.take(i as int)) + utf8_width(ch));
        }
        if in_quotes {
            if ch == quote_char {
                in_quotes = false;
            }
        } else if ch == '"' || ch == '\'' {
            if start.is_none() {
                start = Some(idx);
            }
            in_quotes = true;
            quote_char = ch;
        } else if is_whitespace(ch) {
            match start {
                Some(s) => {
                    out.push((s, idx));
                    start = None;
                },
                None => {},
            }
        } else {
            if start.is_none() {
                start = Some(idx);
            }
        }
        idx = idx + char_len_utf8(ch);
        i = i + 1;
    }
    proof {
        assert(cs@.take(cs@.len() as int) =~= cs@);
    }
    match start {
        Some(s) => {
            out.push((s, str_byte_len(content)));
        },
        None => {},
    }
    out
}

/// Whether a token is a named argument: its text (when its range lies on
/// character boundaries) holds a `=`.
pub open spec fn token_is_named_spec(s: Seq<char>, token: (usize, usize)) -> bool {
    match byte_slice(s, token.0 as int, token.1 as int) {
        Some(raw) => raw.contains('='),
        None => false,
    }
}

/// Whether a token has the `key=value` shape of a named argument.
pub fn token_is_named(content: &str, token: (usize, usize)) -> (b: bool)
    requires
        utf8_len(content@) <= usize::MAX,
    ensures
        b == token_is_named_spec(content@, token),
{
    let cs = chars_of(content);
    match slice_bytes(&cs, token.0, token.1) {
        Some(raw) => {
            let r = vec_find_char(&raw, '=');
            proof {
                if let Some(k) = r {
                    assert(raw@[k as int] == '=');
                }
            }
            r.is_some()
        },
        None => false,
    }
}

/// The value span of a token: after its `key=` prefix, if any, and inside
/// matching surrounding quotes; none when the token's range is not on
/// character boundaries, when the first or last character of the value is
/// not a single byte, or when the value left would be empty.
pub open spec fn value_span_spec(s: Seq<char>, token: (usize, usize)) -> Option<(usize, usize)> {
    let (a, b) = token;
    match byte_slice(s, a as int, b as int) {
        None => None,
        Some(raw) => {
            let v0 = match first_index_of(raw, '=') {
                Some(k) => a + utf8_len(raw.take(k)) + 1,
                None => a as int,
            };
            let e0 = if b >= 1 {
                b - 1
            } else {
                0
            };
            match (byte_slice(s, v0, v0 + 1), byte_slice(s, e0, b as int)) {
                (Some(sc), Some(ec)) => if (sc == seq!['"'] && ec == seq!['"']) || (sc == seq!['\'']
                    && ec == seq!['\'']) {
                    if b - 1 <= v0 + 1 {
                        None
                    } else {
                        Some(((v0 + 1) as usize, (b - 1) as usize))
                    }
                } else if b <= v0 {
                    None
                } else {
                    Some((v0 as usize, b))
                },
                _ => None,
            }
        },
    }
}

/// Reduce a token's range to the range of its value (see
/// [`value_span_spec`]).
#[verifier::spinoff_prover]
#[verifier::rlimit(60)]
pub fn shortcode_token_value_span(content: &str, token: (usize, usize)) -> (r: Option<
    (usize, usize),
>)
    requires
        utf8_len(content@) < usize::MAX,
    ensures
        r == value_span_spec(content@, token),
{
    let cs = chars_of(content);
    let (a, b) = token;
    let raw = match slice_bytes(&cs, a, b) {
        Some(raw) => raw,
        None => {
            return None;
        },
    };
    proof {
        lemma_byte_slice_len(content@, a as int, b as int);
    }
    let v0 = match vec_find_char(&raw, '=') {
        Some(k) => {
            let pre = crate::text::vec_slice(&raw, 0, k);
            assert(pre@ =~= raw@.take(k as int));
            proof {
                assert(raw@ =~= raw@.take(k as int) + raw@.skip(k as int));
                crate::text::lemma_utf8_len_concat(raw@.take(k as int), raw@.skip(k as int));
                assert(raw@.skip(k as int)[0] == '=');
                crate::text::lemma_utf8_len_first(raw@.skip(k as int));
            }
            proof {
                lemma_utf8_len_bounded(raw@, k as int);
            }
            let w = crate::text::utf8_len_of(&pre);
            a + w + 1
        },
        None => a,
    };
    let e0 = if b >= 1 {
        b - 1
    } else {
        0
    };
    let sc = match slice_bytes(&cs, v0, v0 + 1) {
        Some(x) => x,
        None => {
            return None;
        },
    };
    let ec = match slice_bytes(&cs, e0, b) {
        Some(x) => x,
        None => {
            return None;
        },
    };
    let dq = (sc.len() == 1 && sc[0] == '"') && (ec.len() == 1 && ec[0] == '"');
    let sq = (sc.len() == 1 && sc[0] == '\'') && (ec.len() == 1 && ec[0] == '\'');
    proof {
        assert(dq == (sc@ == seq!['"'] && ec@ == seq!['"'])) by {
            if sc@ == seq!['"'] {
                assert(sc@[0] == '"');
            }
            if ec@ == seq!['"'] {
                assert(ec@[0] == '"');
            }
            if dq {
                assert(sc@ =~= seq!['"']);
                assert(ec@ =~= seq!['"']);
            }
        }
        assert(sq == (sc@ == seq!['\''] && ec@ == seq!['\''])) by {
            if sc@ == seq!['\''] {
                assert(sc@[0] == '\'');
            }
            if ec@ == seq!['\''] {
                assert(ec@[0] == '\'');
            }
            if sq {
                assert(sc@ =~= seq!['\'']);
                assert(ec@ =~= seq!['\'']);
            }
        }
    }
    if dq || sq {
        if b - 1 <= v0 + 1 {
            return None;
        }
        Some((v0 + 1, b - 1))
    } else if b <= v0 {
        None
    } else {
        Some((v0, b))
    }
}

} // verus!
