//! Link destinations and link conversions.
//!
//! The destination helpers pick apart what stands between the parentheses
//! of a link (`url "title"`, `<path with spaces>`, `file#fragment`); the
//! conversions turn an inline link (`[text](url)`) into reference style
//! (`[text][label]` plus a `[label]: url` definition) and back.

use vstd::prelude::*;
use vstd::relations::injective_on;
use vstd::string::StringExecFns;
use crate::footnotes::{element_range, extended_end, is_node_of};
use crate::syntax::{
    child_token_text, element_text, first_child_node, nearest_of_kind, token_at_offset, ElementView,
    SyntaxKind, SyntaxTree,
};
use vstd::set_lib::{lemma_int_range, lemma_len_subset, lemma_map_size, set_int_range};
use crate::text::{
    is_digit, lemma_decimal_value,
    all_ascii, ascii_lower, char_ascii_lower, collapse_ws, decimal, digits_value, is_ascii_char,
    is_ws, is_whitespace, first_index_of, before_first, lemma_collapse_single_word, normalize_label,
    normalized_label, occurs_at, push_char, push_chars, str_eq, trim_ws, chars_of,
    string_from_chars, usize_to_decimal, vec_find_char, vec_slice, vec_trim, vec_occurs_at,
    byte_is_newline, offset_to_position, position_of, positions_fit, str_byte_len, utf8_len,
    Position, Range, TextEdit,
};

verus! {

/// `c` is an ASCII letter.
pub open spec fn is_ascii_alpha(c: char) -> bool {
    ('a' <= c <= 'z') || ('A' <= c <= 'Z')
}

/// `c` is an ASCII letter or digit.
pub open spec fn is_ascii_alnum(c: char) -> bool {
    is_ascii_alpha(c) || ('0' <= c <= '9')
}

/// The leading characters of `s` up to its first whitespace character.
pub open spec fn first_word(s: Seq<char>) -> Seq<char>
    decreases s.len(),
{
    if s.len() == 0 || is_ws(s[0]) {
        seq![]
    } else {
        seq![s[0]] + first_word(s.drop_first())
    }
}

proof fn lemma_first_word_prefix(s: Seq<char>, i: int)
    requires
        0 <= i <= s.len(),
        forall|j: int| 0 <= j < i ==> !is_ws(#[trigger] s[j]),
    ensures
        first_word(s) == s.take(i) + first_word(s.skip(i)),
    decreases i,
{
    if i > 0 {
        let d = s.drop_first();
        assert forall|j: int| 0 <= j < i - 1 implies !is_ws(#[trigger] d[j]) by {
            assert(d[j] == s[j + 1]);
        }
        lemma_first_word_prefix(d, i - 1);
        assert(d.skip(i - 1) =~= s.skip(i));
        assert(s.take(i) =~= seq![s[0]] + d.take(i - 1));
    } else {
        assert(s.take(0) =~= Seq::<char>::empty());
        assert(s.skip(0) =~= s);
    }
}

/// The index of the first whitespace character of `s` (its length when
/// there is none); what comes before it is the first word.
fn first_ws_index(s: &Vec<char>) -> (i: usize)
    ensures
        i <= s@.len(),
        first_word(s@) == s@.take(i as int),
{
    let mut i: usize = 0;
    while i < s.len() && !is_whitespace(s[i])
        invariant
            i <= s@.len(),
            forall|j: int| 0 <= j < i ==> !is_ws(#[trigger] s@[j]),
        decreases s.len() - i,
    {
        i = i + 1;
    }
    proof {
        lemma_first_word_prefix(s@, i as int);
        assert(first_word(s@.skip(i as int)) =~= Seq::<char>::empty());
        assert(s@.take(i as int) + Seq::<char>::empty() =~= s@.take(i as int));
    }
    i
}

/// The first token of a link destination: the trimmed destination's
/// content between `<` and the first `>` when it starts with `<` and has
/// one, else its first whitespace-delimited word (empty when it is blank).
pub open spec fn destination_token(raw: Seq<char>) -> Seq<char> {
    let t = trim_ws(raw);
    if t.len() > 0 && t[0] == '<' && first_index_of(t.drop_first(), '>') is Some {
        t.drop_first().take(first_index_of(t.drop_first(), '>')->0)
    } else {
        first_word(t)
    }
}

/// The first token of a raw link destination, dropping any title:
/// `https://example.com "Title"` gives `https://example.com`, and
/// `<docs/with spaces.md>` gives `docs/with spaces.md`.
pub fn extract_first_destination_token(raw_dest: &str) -> (r: String)
    ensures
        r@ == destination_token(raw_dest@),
{
    let cs = chars_of(raw_dest);
    let t = vec_trim(&cs);
    if t.len() > 0 && t[0] == '<' {
        let rest = vec_slice(&t, 1, t.len());
        assert(rest@ =~= t@.drop_first());
        match vec_find_char(&rest, '>') {
            Some(e) => {
                let inner = vec_slice(&rest, 0, e);
                assert(inner@ =~= rest@.take(e as int));
                return string_from_chars(&inner);
            },
            None => {},
        }
    }
    let i = first_ws_index(&t);
    let word = vec_slice(&t, 0, i);
    assert(word@ =~= t@.take(i as int));
    string_from_chars(&word)
}

/// A link target split at its first `#` into the path and the fragment;
/// an empty fragment counts as none.
pub open spec fn fragment_split(t: Seq<char>) -> (Seq<char>, Option<Seq<char>>) {
    match first_index_of(t, '#') {
        Some(i) => (
            t.take(i),
            if i + 1 < t.len() {
                Some(t.skip(i + 1))
            } else {
                None
            },
        ),
        None => (t, None),
    }
}

/// Split a link target into its path and its fragment:
/// `child.qmd#sec` gives `child.qmd` and `sec`.
pub fn split_fragment(target: &str) -> (r: (String, Option<String>))
    ensures
        r.0@ == fragment_split(target@).0,
        r.1 matches Some(f) ==> fragment_split(target@).1 == Some(f@),
        r.1 is None ==> fragment_split(target@).1 is None,
{
    let cs = chars_of(target);
    match vec_find_char(&cs, '#') {
        Some(i) => {
            let path = vec_slice(&cs, 0, i);
            assert(path@ =~= cs@.take(i as int));
            assert(i < cs.len());
            if i + 1 < cs.len() {
                let frag = vec_slice(&cs, i + 1, cs.len());
                assert(frag@ =~= cs@.skip(i + 1));
                (string_from_chars(&path), Some(string_from_chars(&frag)))
            } else {
                (string_from_chars(&path), None)
            }
        },
        None => (string_from_chars(&cs), None),
    }
}

/// An email address rather than a URI: it has an `@` and no `:`.
pub open spec fn looks_like_email_spec(s: Seq<char>) -> bool {
    s.contains('@') && !s.contains(':')
}

/// Whether a link target looks like a bare email address.
pub fn looks_like_email(text: &str) -> (b: bool)
    ensures
        b == looks_like_email_spec(text@),
{
    let cs = chars_of(text);
    let at = vec_find_char(&cs, '@');
    let colon = vec_find_char(&cs, ':');
    proof {
        if let Some(i) = at {
            assert(cs@[i as int] == '@');
        }
        if let Some(i) = colon {
            assert(cs@[i as int] == ':');
        }
    }
    at.is_some() && colon.is_none()
}

/// A character allowed after the first one of a URI scheme.
pub open spec fn is_scheme_char(c: char) -> bool {
    is_ascii_alnum(c) || c == '+' || c == '-' || c == '.'
}

/// `s` starts with a URI scheme and a colon (`https:`, `mailto:`): a
/// letter followed by letters, digits, `+`, `-` or `.`. A single letter
/// followed by `:/` or `:\` is a Windows drive, not a scheme.
pub open spec fn looks_like_uri_scheme_spec(s: Seq<char>) -> bool {
    match first_index_of(s, ':') {
        None => false,
        Some(i) => {
            &&& !(i == 1 && s.len() > 2 && (s[2] == '/' || s[2] == '\\'))
            &&& i > 0
            &&& is_ascii_alpha(s[0])
            &&& forall|j: int| 1 <= j < i ==> is_scheme_char(#[trigger] s[j])
        },
    }
}

/// Whether a link target starts with a URI scheme (see
/// [`looks_like_uri_scheme_spec`]).
pub fn looks_like_uri_scheme(text: &str) -> (b: bool)
    ensures
        b == looks_like_uri_scheme_spec(text@),
{
    let cs = chars_of(text);
    let colon = match vec_find_char(&cs, ':') {
        Some(i) => i,
        None => {
            return false;
        },
    };
    if colon == 1 && cs.len() > 2 && (cs[2] == '/' || cs[2] == '\\') {
        return false;
    }
    if colon == 0 {
        return false;
    }
    let c0 = cs[0];
    if !(('a' <= c0 && c0 <= 'z') || ('A' <= c0 && c0 <= 'Z')) {
        return false;
    }
    let mut j: usize = 1;
    while j < colon
        invariant
            1 <= j <= colon < cs@.len(),
            cs@ == text@,
            first_index_of(cs@, ':') == Some(colon as int),
            !(colon == 1 && cs@.len() > 2 && (cs@[2] == '/' || cs@[2] == '\\')),
            is_ascii_alpha(cs@[0]),
            forall|k: int| 1 <= k < j ==> is_scheme_char(#[trigger] cs@[k]),
        decreases colon - j,
    {
        let c = cs[j];
        let ok = ('a' <= c && c <= 'z') || ('A' <= c && c <= 'Z') || ('0' <= c && c <= '9') || c
            == '+' || c == '-' || c == '.';
        if !ok {
            assert(!is_scheme_char(cs@[j as int]));
            return false;
        }
        j = j + 1;
    }
    true
}

/// The slug of `s` before trailing dashes are dropped: ASCII letters and
/// digits lowercased, every run of other characters after the first kept
/// character turned into one `-`.
pub open spec fn slug_raw(s: Seq<char>) -> Seq<char>
    decreases s.len(),
{
    if s.len() == 0 {
        seq![]
    } else {
        let acc = slug_raw(s.drop_last());
        let c = s.last();
        if is_ascii_alnum(c) {
            acc.push(ascii_lower(c))
        } else if acc.len() > 0 && acc.last() != '-' {
            acc.push('-')
        } else {
            acc
        }
    }
}

/// `s` without its trailing dashes.
pub open spec fn trim_trailing_dashes(s: Seq<char>) -> Seq<char>
    decreases s.len(),
{
    if s.len() > 0 && s.last() == '-' {
        trim_trailing_dashes(s.drop_last())
    } else {
        s
    }
}

/// The label slug of `s`: lowercase ASCII letters and digits, single
/// dashes between runs of them.
pub open spec fn link_slug(s: Seq<char>) -> Seq<char> {
    trim_trailing_dashes(slug_raw(s))
}

/// Slug of a link's text for a generated reference label.
pub fn slugify(input: &str) -> (r: String)
    ensures
        r@ == link_slug(input@),
{
    let cs = chars_of(input);
    let mut out: Vec<char> = Vec::new();
    let mut prev_dash = false;
    let mut i: usize = 0;
    while i < cs.len()
        invariant
            i <= cs.len(),
            cs@ == input@,
            out@ == slug_raw(cs@.take(i as int)),
            prev_dash == (out@.len() > 0 && out@.last() == '-'),
        decreases cs.len() - i,
    {
        let c = cs[i];
        assert(cs@.take(i + 1).drop_last() =~= cs@.take(i as int));
        if ('a' <= c && c <= 'z') || ('A' <= c && c <= 'Z') || ('0' <= c && c <= '9') {
            let l = char_ascii_lower(c);
            out.push(l);
            prev_dash = false;
        } else if !prev_dash && out.len() > 0 {
            out.push('-');
            prev_dash = true;
        }
        i = i + 1;
    }
    assert(cs@.take(cs.len() as int) =~= cs@);
    let mut n = out.len();
    assert(out@.take(n as int) =~= out@);
    while n > 0 && out[n - 1] == '-'
        invariant
            n <= out@.len(),
            trim_trailing_dashes(out@.take(n as int)) == link_slug(input@),
        decreases n,
    {
        assert(out@.take(n as int).drop_last() =~= out@.take(n - 1));
        n = n - 1;
    }
    assert(trim_trailing_dashes(out@.take(n as int)) == out@.take(n as int));
    let kept = vec_slice(&out, 0, n);
    assert(kept@ =~= out@.take(n as int));
    string_from_chars(&kept)
}

/// The index of the first occurrence of `p` in `s`.
#[verifier::opaque]
pub open spec fn first_occurrence(s: Seq<char>, p: Seq<char>) -> Option<int> {
    if exists|i: int| occurs_at(s, p, i) {
        Some(choose|i: int| occurs_at(s, p, i) && forall|j: int| 0 <= j < i ==> !occurs_at(s, p, j))
    } else {
        None
    }
}

/// The index of the first occurrence of `p` in `s`.
fn vec_find_seq(s: &Vec<char>, p: &Vec<char>) -> (r: Option<usize>)
    ensures
        r matches Some(i) ==> first_occurrence(s@, p@) == Some(i as int),
        r matches Some(i) ==> i + p@.len() <= s@.len(),
        r is None ==> first_occurrence(s@, p@) is None,
{
    reveal(first_occurrence);
    if p.len() > s.len() {
        assert forall|j: int| !occurs_at(s@, p@, j) by {}
        return None;
    }
    let last = s.len() - p.len();
    let mut i: usize = 0;
    loop
        invariant
            i <= last == s@.len() - p@.len(),
            forall|j: int| 0 <= j < i ==> !occurs_at(s@, p@, j),
        ensures
            forall|j: int| 0 <= j <= last ==> !occurs_at(s@, p@, j),
        decreases last - i,
    {
        if vec_occurs_at(s, p, i) {
            proof {
                reveal(first_occurrence);
                assert(occurs_at(s@, p@, i as int) && forall|j: int|
                    0 <= j < i ==> !occurs_at(s@, p@, j));
                let w = choose|w: int|
                    occurs_at(s@, p@, w) && forall|j: int| 0 <= j < w ==> !occurs_at(s@, p@, j);
                assert(w == i) by {
                    if w > i {
                        assert(occurs_at(s@, p@, i as int));
                    }
                }
                assert(first_occurrence(s@, p@) == Some(i as int));
            }
            return Some(i);
        }
        if i == last {
            break;
        }
        i = i + 1;
    }
    assert forall|j: int| !occurs_at(s@, p@, j) by {
        if 0 <= j <= last {
        }
    }
    None
}

/// `://`, between a URL's scheme and its authority.
pub open spec fn scheme_separator() -> Seq<char> {
    seq![':', '/', '/']
}

/// The host part of a URL: after the first `://` (or from the start when
/// there is none) up to the first `/`.
pub open spec fn host_of(url: Seq<char>) -> Seq<char> {
    let after = match first_occurrence(url, scheme_separator()) {
        Some(i) => url.skip(i + 3),
        None => url,
    };
    before_first(after, '/')
}

/// What follows the first `sep` in `cs`, or all of `cs`.
fn after_scheme(cs: &Vec<char>, sep: &Vec<char>) -> (a: Vec<char>)
    ensures
        a@ == match first_occurrence(cs@, sep@) {
            Some(i) => cs@.skip(i + sep@.len()),
            None => cs@,
        },
{
    match vec_find_seq(cs, sep) {
        Some(i) => {
            let n = cs.len();
            let a = vec_slice(cs, i + sep.len(), n);
            assert(a@ =~= cs@.skip(i + sep@.len()));
            a
        },
        None => vec_slice(cs, 0, cs.len()),
    }
}

/// The host part of a URL (see [`host_of`]).
pub fn url_host(url: &str) -> (r: String)
    ensures
        r@ == host_of(url@),
{
    let cs = chars_of(url);
    let mut sep: Vec<char> = Vec::new();
    sep.push(':');
    sep.push('/');
    sep.push('/');
    assert(sep@ =~= scheme_separator());
    let after = after_scheme(&cs, &sep);
    match vec_find_char(&after, '/') {
        Some(j) => {
            let h = vec_slice(&after, 0, j);
            assert(h@ =~= after@.take(j as int));
            string_from_chars(&h)
        },
        None => string_from_chars(&after),
    }
}

/// A link title without its delimiters: `"…"`, `'…'` or `(…)`.
pub open spec fn strip_title(raw: Seq<char>) -> Seq<char> {
    if raw.len() >= 2 && ((raw[0] == '"' && raw.last() == '"') || (raw[0] == '\'' && raw.last()
        == '\'') || (raw[0] == '(' && raw.last() == ')')) {
        raw.subrange(1, raw.len() - 1)
    } else {
        raw
    }
}

/// Strip the delimiters of a link title (see [`strip_title`]).
pub fn strip_title_delimiters(raw: &str) -> (r: String)
    ensures
        r@ == strip_title(raw@),
{
    let cs = chars_of(raw);
    let n = cs.len();
    if n >= 2 {
        let open = cs[0];
        let close = cs[n - 1];
        if (open == '"' && close == '"') || (open == '\'' && close == '\'') || (open == '('
            && close == ')') {
            let inner = vec_slice(&cs, 1, n - 1);
            return string_from_chars(&inner);
        }
    }
    string_from_chars(&cs)
}

/// A link destination body split into the URL (its first word) and the
/// optional title (the trimmed rest, without delimiters); none when the
/// URL would be empty.
pub open spec fn url_and_title(body: Seq<char>) -> Option<(Seq<char>, Option<Seq<char>>)> {
    let t = trim_ws(body);
    let url = first_word(t);
    if url.len() == 0 {
        None
    } else {
        let rest = trim_ws(t.skip(url.len() as int));
        Some(
            (
                url,
                if rest.len() == 0 {
                    None
                } else {
                    Some(strip_title(rest))
                },
            ),
        )
    }
}

/// Split a link destination body into the URL and the optional title
/// (see [`url_and_title`]).
pub fn split_url_and_title(body: &str) -> (r: Option<(String, Option<String>)>)
    ensures
        match r {
            Some((u, t)) => url_and_title(body@) == Some(
                (
                    u@,
                    match t {
                        Some(x) => Some(x@),
                        None => None,
                    },
                ),
            ),
            None => url_and_title(body@) is None,
        },
{
    let cs = chars_of(body);
    let t = vec_trim(&cs);
    let e = first_ws_index(&t);
    if e == 0 {
        return None;
    }
    let url = vec_slice(&t, 0, e);
    assert(url@ =~= t@.take(e as int));
    let rest_raw = vec_slice(&t, e, t.len());
    assert(rest_raw@ =~= t@.skip(e as int));
    let rest = vec_trim(&rest_raw);
    let title = if rest.len() == 0 {
        None
    } else {
        let rs = string_from_chars(&rest);
        Some(strip_title_delimiters(rs.as_str()))
    };
    Some((string_from_chars(&url), title))
}

/// A character of a generated label: a lowercase ASCII letter, an ASCII
/// digit or `-`.
pub open spec fn is_slug_char(c: char) -> bool {
    ('a' <= c <= 'z') || ('0' <= c <= '9') || c == '-'
}

/// Every character of `s` is a label character.
pub open spec fn slug_chars_only(s: Seq<char>) -> bool {
    forall|i: int| 0 <= i < s.len() ==> is_slug_char(#[trigger] s[i])
}

proof fn lemma_slug_raw_chars(s: Seq<char>)
    ensures
        slug_chars_only(slug_raw(s)),
    decreases s.len(),
{
    if s.len() > 0 {
        lemma_slug_raw_chars(s.drop_last());
        let acc = slug_raw(s.drop_last());
        let c = s.last();
        if is_ascii_alnum(c) {
            if 'A' <= c <= 'Z' {
                assert((c as u8) as nat == c as nat);
                assert(((c as u8) + 32) as char as nat == c as nat + 32);
            }
            let out = acc.push(ascii_lower(c));
            assert forall|i: int| 0 <= i < out.len() implies is_slug_char(#[trigger] out[i]) by {
                if i < acc.len() {
                    assert(out[i] == acc[i]);
                }
            }
        } else if acc.len() > 0 && acc.last() != '-' {
            let out = acc.push('-');
            assert forall|i: int| 0 <= i < out.len() implies is_slug_char(#[trigger] out[i]) by {
                if i < acc.len() {
                    assert(out[i] == acc[i]);
                }
            }
        }
    }
}

proof fn lemma_trim_dashes_chars(s: Seq<char>)
    requires
        slug_chars_only(s),
    ensures
        slug_chars_only(trim_trailing_dashes(s)),
    decreases s.len(),
{
    if s.len() > 0 && s.last() == '-' {
        let d = s.drop_last();
        assert forall|i: int| 0 <= i < d.len() implies is_slug_char(#[trigger] d[i]) by {
            assert(d[i] == s[i]);
        }
        lemma_trim_dashes_chars(d);
    }
}

/// The base of a generated reference label: the slug of the link text,
/// else the slug of the URL's host, else `link`.
pub open spec fn label_base(text: Seq<char>, url: Seq<char>) -> Seq<char> {
    if link_slug(text).len() > 0 {
        link_slug(text)
    } else if link_slug(host_of(url)).len() > 0 {
        link_slug(host_of(url))
    } else {
        seq!['l', 'i', 'n', 'k']
    }
}

/// `base-n`.
pub open spec fn numbered_label(base: Seq<char>, n: nat) -> Seq<char> {
    base + seq!['-'] + decimal(n)
}

/// Label `l` collides with one of the (normalised) labels in `existing`.
pub open spec fn label_in_use(existing: Seq<Seq<char>>, l: Seq<char>) -> bool {
    existing.contains(normalized_label(l))
}

/// The views of a vector of strings.
pub open spec fn string_views(v: Seq<String>) -> Seq<Seq<char>> {
    v.map_values(|s: String| s@)
}

proof fn lemma_numbered_slug(base: Seq<char>, n: nat)
    requires
        slug_chars_only(base),
    ensures
        slug_chars_only(numbered_label(base, n)),
        numbered_label(base, n).len() >= 1,
{
    lemma_decimal_value(n);
    let x = numbered_label(base, n);
    assert forall|i: int| 0 <= i < x.len() implies is_slug_char(#[trigger] x[i]) by {
        if i < base.len() {
            assert(x[i] == base[i]);
        } else if i == base.len() {
            assert(x[i] == '-');
        } else {
            assert(x[i] == decimal(n)[i - base.len() - 1]);
            assert(is_digit(decimal(n)[i - base.len() - 1]));
        }
    }
}

/// A non-empty string of label characters is its own normalised form.
proof fn lemma_slug_normal_form(x: Seq<char>)
    requires
        x.len() >= 1,
        slug_chars_only(x),
    ensures
        !x.contains(' '),
        collapse_ws(x) == x,
        all_ascii(x),
        x.map_values(|c: char| ascii_lower(c)) == x,
{
    assert forall|i: int| 0 <= i < x.len() implies !is_ws(#[trigger] x[i]) by {
        assert(is_slug_char(x[i]));
    }
    lemma_collapse_single_word(x);
    assert forall|i: int| 0 <= i < x.len() implies is_ascii_char(#[trigger] x[i]) by {
        assert(is_slug_char(x[i]));
    }
    assert(x.map_values(|c: char| ascii_lower(c)) =~= x) by {
        assert forall|i: int| 0 <= i < x.len() implies ascii_lower(x[i]) == x[i] by {
            assert(is_slug_char(x[i]));
        }
    }
    assert(!x.contains(' ')) by {
        if x.contains(' ') {
            let i = choose|i: int| 0 <= i < x.len() && x[i] == ' ';
            assert(is_slug_char(x[i]));
        }
    }
}

proof fn lemma_numbered_injective(base: Seq<char>, a: nat, b: nat)
    requires
        numbered_label(base, a) == numbered_label(base, b),
    ensures
        a == b,
{
    let k = base.len() + 1;
    assert(numbered_label(base, a).skip(k as int) =~= decimal(a));
    assert(numbered_label(base, b).skip(k as int) =~= decimal(b));
    lemma_decimal_value(a);
    lemma_decimal_value(b);
}

/// There are more numbered labels `base-2`, ..., `base-(len+2)` than
/// entries in `existing`, so one of them is not among them.
proof fn lemma_some_number_free(ex: Seq<Seq<char>>, base: Seq<char>)
    ensures
        exists|m: nat| 2 <= m < ex.len() + 3 && !ex.contains(#[trigger] numbered_label(base, m)),
{
    if forall|m: nat| 2 <= m < ex.len() + 3 ==> ex.contains(#[trigger] numbered_label(base, m)) {
        let hi = ex.len() + 3;
        let dom = set_int_range(2, hi as int);
        lemma_int_range(2, hi as int);
        let f = |m: int| numbered_label(base, m as nat);
        assert(injective_on(f, dom)) by {
            assert forall|a: int, b: int|
                dom.contains(a) && dom.contains(b) && #[trigger] f(a) == #[trigger] f(b) implies a
                == b by {
                lemma_numbered_injective(base, a as nat, b as nat);
            }
        }
        let img = dom.map(f);
        lemma_map_size(dom, img, f);
        let all = ex.to_set();
        assert(img.subset_of(all)) by {
            assert forall|x: Seq<char>| img.contains(x) implies all.contains(x) by {
                let m = choose|m: int| dom.contains(m) && f(m) == x;
                assert(ex.contains(numbered_label(base, m as nat)));
            }
        }
        ex.lemma_cardinality_of_set();
        vstd::seq_lib::seq_to_set_is_finite(ex);
        lemma_len_subset(img, all);
        assert(false);
    }
}

/// Whether one of the strings of `v` equals `s`.
fn contains_string(v: &Vec<String>, s: &str) -> (b: bool)
    ensures
        b == string_views(v@).contains(s@),
{
    let mut i: usize = 0;
    while i < v.len()
        invariant
            i <= v@.len(),
            forall|j: int| 0 <= j < i ==> v@[j]@ != s@,
        decreases v.len() - i,
    {
        if str_eq(v[i].as_str(), s) {
            assert(string_views(v@)[i as int] == s@);
            return true;
        }
        i = i + 1;
    }
    assert(!string_views(v@).contains(s@)) by {
        if string_views(v@).contains(s@) {
            let j = choose|j: int| 0 <= j < string_views(v@).len() && string_views(v@)[j] == s@;
            assert(v@[j]@ == s@);
        }
    }
    false
}

/// The string `base-n`.
fn numbered_string(base: &Vec<char>, n: usize) -> (r: String)
    ensures
        r@ == numbered_label(base@, n as nat),
{
    let mut r = String::new();
    push_chars(&mut r, base);
    push_char(&mut r, '-');
    let d = usize_to_decimal(n);
    push_chars(&mut r, &d);
    assert(r@ =~= numbered_label(base@, n as nat));
    r
}

/// The base label for a link: the slug of its text, of its URL's host,
/// or `link`.
fn base_label(text: &str, url: &str) -> (r: Vec<char>)
    ensures
        r@ == label_base(text@, url@),
        r@.len() >= 1,
        slug_chars_only(r@),
{
    proof {
        lemma_slug_raw_chars(text@);
        lemma_trim_dashes_chars(slug_raw(text@));
        lemma_slug_raw_chars(host_of(url@));
        lemma_trim_dashes_chars(slug_raw(host_of(url@)));
    }
    let a = chars_of(slugify(text).as_str());
    if a.len() > 0 {
        return a;
    }
    let h = url_host(url);
    let b = chars_of(slugify(h.as_str()).as_str());
    if b.len() > 0 {
        return b;
    }
    let mut l: Vec<char> = Vec::new();
    l.push('l');
    l.push('i');
    l.push('n');
    l.push('k');
    assert(l@ =~= seq!['l', 'i', 'n', 'k']);
    l
}

/// The least `n >= 2` for which `base-n` is not in use.
pub open spec fn least_free_number(existing: Seq<Seq<char>>, base: Seq<char>) -> nat {
    choose|n: nat|
        {
            &&& n >= 2
            &&& !label_in_use(existing, numbered_label(base, n))
            &&& forall|m: nat|
                2 <= m < n ==> label_in_use(existing, #[trigger] numbered_label(base, m))
        }
}

/// The label [`generate_label`] yields: the base label (see [`label_base`])
/// when it is free, else `base-n` for the least `n >= 2` that is free.
pub open spec fn generated_label(text: Seq<char>, url: Seq<char>, existing: Seq<Seq<char>>) -> Seq<
    char,
> {
    let base = label_base(text, url);
    if !label_in_use(existing, base) {
        base
    } else {
        numbered_label(base, least_free_number(existing, base))
    }
}

/// Generate a reference label for a link that none of the `existing`
/// (normalised) labels collides with (see [`generated_label`]). When the
/// base label is taken, the least free number exists and lies below
/// `existing.len() + 3`.
pub fn generate_label(text: &str, url: &str, existing: &Vec<String>) -> (r: String)
    requires
        existing@.len() + 3 <= usize::MAX,
    ensures
        r@ == generated_label(text@, url@, string_views(existing@)),
        !label_in_use(string_views(existing@), r@),
        label_in_use(string_views(existing@), label_base(text@, url@)) ==> ({
            let ex = string_views(existing@);
            let b = label_base(text@, url@);
            let k = least_free_number(ex, b);
            &&& 2 <= k < existing@.len() + 3
            &&& !label_in_use(ex, numbered_label(b, k))
            &&& forall|m: nat| 2 <= m < k ==> label_in_use(ex, #[trigger] numbered_label(b, m))
        }),
{
    let base = base_label(text, url);
    let base_s = string_from_chars(&base);
    let norm = normalize_label(base_s.as_str());
    if !contains_string(existing, norm.as_str()) {
        return base_s;
    }
    let ghost ex = string_views(existing@);
    let mut n: usize = 2;
    loop
        invariant
            2 <= n <= existing@.len() + 2,
            existing@.len() + 3 <= usize::MAX,
            ex == string_views(existing@),
            ex.len() == existing@.len(),
            base@ == label_base(text@, url@),
            base@.len() >= 1,
            slug_chars_only(base@),
            label_in_use(ex, base@),
            forall|m: nat|
                2 <= m < n ==> label_in_use(ex, #[trigger] numbered_label(base@, m)),
            forall|m: nat|
                2 <= m < n ==> ex.contains(#[trigger] numbered_label(base@, m)),
        decreases existing@.len() + 2 - n,
    {
        let cand = numbered_string(&base, n);
        let cand_norm = normalize_label(cand.as_str());
        proof {
            lemma_numbered_slug(base@, n as nat);
            lemma_slug_normal_form(cand@);
            assert(cand_norm@ == cand@);
        }
        if !contains_string(existing, cand_norm.as_str()) {
            proof {
                let ghost b = base@;
                assert(!label_in_use(ex, numbered_label(b, n as nat)));
                let k = least_free_number(ex, b);
                assert(k == n) by {
                    if k < n {
                        assert(label_in_use(ex, numbered_label(b, k)));
                    } else if k > n {
                        assert(label_in_use(ex, numbered_label(b, n as nat)));
                    }
                }
            }
            return cand;
        }
        proof {
            if n == existing@.len() + 2 {
                lemma_some_number_free(ex, base@);
                let m = choose|m: nat|
                    2 <= m < ex.len() + 3 && !ex.contains(#[trigger] numbered_label(base@, m));
                if m < n {
                    assert(ex.contains(numbered_label(base@, m)));
                }
                assert(ex.contains(numbered_label(base@, m)));
            }
        }
        n = n + 1;
    }
}

/// The label of a `LINK_REF` node: the text of its text tokens.
pub open spec fn ref_label(es: Seq<ElementView>, r: int) -> Seq<char> {
    child_token_text(es, r, SyntaxKind::TEXT, es[r].subtree_end)
}

/// The visible text of link `l`: the text of its `LINK_TEXT` child, empty
/// without one.
pub open spec fn link_text_content(es: Seq<ElementView>, l: int) -> Seq<char> {
    match first_child_node(es, l, SyntaxKind::LINK_TEXT) {
        Some(t) => element_text(es, t),
        None => seq![],
    }
}

/// The label of a reference definition `d`: the text tokens of the text
/// of its link (`[label]`), empty without one.
pub open spec fn def_label(es: Seq<ElementView>, d: int) -> Seq<char> {
    match first_child_node(es, d, SyntaxKind::LINK) {
        Some(l) => match first_child_node(es, l, SyntaxKind::LINK_TEXT) {
            Some(t) => child_token_text(es, t, SyntaxKind::TEXT, es[t].subtree_end),
            None => seq![],
        },
        None => seq![],
    }
}

/// The URL and optional title of reference definition `d`, read from its
/// `LINK_DEST` child; none without one or when the URL is empty.
pub open spec fn def_destination(es: Seq<ElementView>, d: int) -> Option<
    (Seq<char>, Option<Seq<char>>),
> {
    match first_child_node(es, d, SyntaxKind::LINK_DEST) {
        Some(x) => url_and_title(element_text(es, x)),
        None => None,
    }
}

/// Element `j` is a reference definition whose normalised label is
/// `target`.
pub open spec fn is_link_def_for(es: Seq<ElementView>, j: int, target: Seq<char>) -> bool {
    is_node_of(es, j, SyntaxKind::REFERENCE_DEFINITION) && normalized_label(def_label(es, j))
        == target
}

/// The first reference definition with index below `hi` whose normalised
/// label is `target`.
pub open spec fn first_link_def_below(es: Seq<ElementView>, target: Seq<char>, hi: int) -> Option<
    int,
>
    decreases hi,
{
    if hi <= 0 {
        None
    } else {
        match first_link_def_below(es, target, hi - 1) {
            Some(j) => Some(j),
            None => if is_link_def_for(es, hi - 1, target) {
                Some(hi - 1)
            } else {
                None
            },
        }
    }
}

/// The definition that label `label` refers to: the first reference
/// definition of the tree whose normalised label equals the normalised
/// `label`.
pub open spec fn link_definition(es: Seq<ElementView>, label: Seq<char>) -> Option<int> {
    first_link_def_below(es, normalized_label(label), es.len() as int)
}

proof fn lemma_first_link_def_below(es: Seq<ElementView>, label: Seq<char>, hi: int)
    requires
        hi <= es.len(),
    ensures
        first_link_def_below(es, normalized_label(label), hi) matches Some(d) ==> {
            &&& 0 <= d < hi
            &&& es[d].kind == SyntaxKind::REFERENCE_DEFINITION && !es[d].is_token
            &&& normalized_label(def_label(es, d)) == normalized_label(label)
            &&& forall|j: int|
                0 <= j < d ==> !(es[j].kind == SyntaxKind::REFERENCE_DEFINITION && !es[j].is_token
                    && normalized_label(#[trigger] def_label(es, j)) == normalized_label(label))
        },
        first_link_def_below(es, normalized_label(label), hi) is None ==> forall|j: int|
            0 <= j < hi ==> !(es[j].kind == SyntaxKind::REFERENCE_DEFINITION && !es[j].is_token
                && normalized_label(#[trigger] def_label(es, j)) == normalized_label(label)),
    decreases hi,
{
    if hi > 0 {
        lemma_first_link_def_below(es, label, hi - 1);
    }
}

/// A reference finds its definition up to ASCII case and whitespace: the
/// definition found is the first reference definition whose label
/// normalises like the reference's; there is none only when no definition's
/// label does; so every definition is found by a reference spelled like its
/// own label, whatever its case.
pub proof fn lemma_link_definition_by_normalised_label(es: Seq<ElementView>, label: Seq<char>)
    ensures
        link_definition(es, label) matches Some(d) ==> {
            &&& 0 <= d < es.len()
            &&& es[d].kind == SyntaxKind::REFERENCE_DEFINITION && !es[d].is_token
            &&& normalized_label(def_label(es, d)) == normalized_label(label)
            &&& forall|j: int|
                0 <= j < d ==> !(es[j].kind == SyntaxKind::REFERENCE_DEFINITION && !es[j].is_token
                    && normalized_label(#[trigger] def_label(es, j)) == normalized_label(label))
        },
        link_definition(es, label) is None ==> forall|j: int|
            0 <= j < es.len() ==> !(es[j].kind == SyntaxKind::REFERENCE_DEFINITION && !es[j].is_token
                && normalized_label(#[trigger] def_label(es, j)) == normalized_label(label)),
        forall|j: int|
            0 <= j < es.len() && es[j].kind == SyntaxKind::REFERENCE_DEFINITION && !es[j].is_token
                && label == #[trigger] def_label(es, j) ==> link_definition(es, label) is Some,
{
    lemma_first_link_def_below(es, label, es.len() as int);
}

/// The label of the definition of `d`, extracted from the tree.
pub fn definition_label(tree: &SyntaxTree, d: usize) -> (r: String)
    requires
        d < tree@.len(),
    ensures
        r@ == def_label(tree@, d as int),
{
    match tree.first_child_node_of(d, SyntaxKind::LINK) {
        Some(l) => match tree.first_child_node_of(l, SyntaxKind::LINK_TEXT) {
            Some(t) => tree.child_tokens_text(t, SyntaxKind::TEXT),
            None => String::new(),
        },
        None => String::new(),
    }
}

/// The URL and title of definition `d`, extracted from the tree.
pub(crate) fn definition_destination(tree: &SyntaxTree, d: usize) -> (r: Option<(String, Option<String>)>)
    requires
        d < tree@.len(),
    ensures
        match r {
            Some((u, t)) => def_destination(tree@, d as int) == Some(
                (
                    u@,
                    match t {
                        Some(x) => Some(x@),
                        None => None,
                    },
                ),
            ),
            None => def_destination(tree@, d as int) is None,
        },
{
    match tree.first_child_node_of(d, SyntaxKind::LINK_DEST) {
        Some(x) => {
            let body = tree.text(x);
            split_url_and_title(body.as_str())
        },
        None => None,
    }
}

/// Find the reference definition that `label` refers to (see
/// [`link_definition`]).
pub fn find_definition(tree: &SyntaxTree, label: &str) -> (r: Option<usize>)
    ensures
        r matches Some(d) ==> link_definition(tree@, label@) == Some(d as int) && d < tree@.len(),
        r is None ==> link_definition(tree@, label@) is None,
{
    let target = normalize_label(label);
    let len = tree.len();
    let mut found: Option<usize> = None;
    let mut j: usize = 0;
    while j < len
        invariant
            j <= len == tree@.len(),
            target@ == normalized_label(label@),
            found matches Some(d) ==> first_link_def_below(tree@, target@, j as int) == Some(
                d as int,
            ) && d < len,
            found is None ==> first_link_def_below(tree@, target@, j as int) is None,
        decreases len - j,
    {
        if found.is_none() && tree.kind(j) == SyntaxKind::REFERENCE_DEFINITION && !tree.is_token(j) {
            let l = definition_label(tree, j);
            let nl = normalize_label(l.as_str());
            if str_eq(nl.as_str(), target.as_str()) {
                found = Some(j);
            }
        }
        j = j + 1;
    }
    found
}

/// Element `j` is a link or an image link whose reference label
/// normalises to `target`.
pub open spec fn uses_label(es: Seq<ElementView>, j: int, target: Seq<char>) -> bool {
    &&& (es[j].kind == SyntaxKind::LINK || es[j].kind == SyntaxKind::IMAGE_LINK)
    &&& !es[j].is_token
    &&& match first_child_node(es, j, SyntaxKind::LINK_REF) {
        Some(r) => normalized_label(ref_label(es, r)) == target,
        None => false,
    }
}

/// How many elements with index below `hi` use label `target`.
pub open spec fn label_uses_below(es: Seq<ElementView>, hi: int, target: Seq<char>) -> nat
    decreases hi,
{
    if hi <= 0 {
        0
    } else {
        label_uses_below(es, hi - 1, target) + if uses_label(es, hi - 1, target) {
            1nat
        } else {
            0nat
        }
    }
}

proof fn lemma_label_uses_bounded(es: Seq<ElementView>, hi: int, target: Seq<char>)
    requires
        hi >= 0,
    ensures
        label_uses_below(es, hi, target) <= hi,
    decreases hi,
{
    if hi > 0 {
        lemma_label_uses_bounded(es, hi - 1, target);
    }
}

/// Count the links and image links of the tree whose reference label
/// normalises to the normalised `label`.
pub fn count_label_uses(tree: &SyntaxTree, label: &str) -> (n: usize)
    ensures
        n == label_uses_below(tree@, tree@.len() as int, normalized_label(label@)),
{
    let target = normalize_label(label);
    let len = tree.len();
    let mut count: usize = 0;
    let mut j: usize = 0;
    while j < len
        invariant
            j <= len == tree@.len(),
            target@ == normalized_label(label@),
            count == label_uses_below(tree@, j as int, target@),
        decreases len - j,
    {
        proof {
            lemma_label_uses_bounded(tree@, j as int, target@);
        }
        let k = tree.kind(j);
        if (k == SyntaxKind::LINK || k == SyntaxKind::IMAGE_LINK) && !tree.is_token(j) {
            match tree.first_child_node_of(j, SyntaxKind::LINK_REF) {
                Some(r) => {
                    let l = tree.child_tokens_text(r, SyntaxKind::TEXT);
                    let nl = normalize_label(l.as_str());
                    if str_eq(nl.as_str(), target.as_str()) {
                        count = count + 1;
                    }
                },
                None => {},
            }
        }
        j = j + 1;
    }
    count
}

/// Link `l` is reference style and the definition it refers to exists.
pub open spec fn can_inline_spec(es: Seq<ElementView>, l: int) -> bool {
    is_node_of(es, l, SyntaxKind::LINK) && match first_child_node(es, l, SyntaxKind::LINK_REF) {
        Some(r) => link_definition(es, ref_label(es, r)) is Some,
        None => false,
    }
}

/// Whether `link` is a reference-style link whose definition exists, so
/// that it can be made inline.
pub fn can_convert_to_inline(tree: &SyntaxTree, link: usize) -> (b: bool)
    requires
        link < tree@.len(),
    ensures
        b == can_inline_spec(tree@, link as int),
{
    if tree.kind(link) != SyntaxKind::LINK || tree.is_token(link) {
        return false;
    }
    match tree.first_child_node_of(link, SyntaxKind::LINK_REF) {
        Some(r) => {
            let label = tree.child_tokens_text(r, SyntaxKind::TEXT);
            find_definition(tree, label.as_str()).is_some()
        },
        None => false,
    }
}

/// Whether `link` is an inline link (it has a destination), so that it
/// can be made reference style.
pub fn can_convert_to_reference(tree: &SyntaxTree, link: usize) -> (b: bool)
    requires
        link < tree@.len(),
    ensures
        b == (is_node_of(tree@, link as int, SyntaxKind::LINK) && first_child_node(
            tree@,
            link as int,
            SyntaxKind::LINK_DEST,
        ) is Some),
{
    if tree.kind(link) != SyntaxKind::LINK || tree.is_token(link) {
        return false;
    }
    tree.first_child_node_of(link, SyntaxKind::LINK_DEST).is_some()
}

/// The innermost link node around the token at `offset`.
pub fn find_link_at_position(tree: &SyntaxTree, offset: usize) -> (r: Option<usize>)
    ensures
        match token_at_offset(tree@, offset as int) {
            Some(t) => match r {
                Some(n) => n < tree@.len() && nearest_of_kind(tree@, tree@[t].parent, SyntaxKind::LINK)
                    == Some(n as int),
                None => nearest_of_kind(tree@, tree@[t].parent, SyntaxKind::LINK) is None,
            },
            None => r is None,
        },
{
    match tree.token_at_offset(offset) {
        Some(t) => {
            let p = tree.parent_of_token(t);
            tree.nearest_ancestor_of_kind(p, SyntaxKind::LINK)
        },
        None => None,
    }
}

/// The view of an optional string.
pub open spec fn opt_view(t: Option<String>) -> Option<Seq<char>> {
    match t {
        Some(x) => Some(x@),
        None => None,
    }
}

/// ` "title"` for a non-empty title, nothing otherwise.
pub open spec fn title_suffix(title: Option<Seq<char>>) -> Seq<char> {
    match title {
        Some(t) => if t.len() > 0 {
            seq![' ', '"'] + t + seq!['"']
        } else {
            seq![]
        },
        None => seq![],
    }
}

/// `[content](url "title")`, the title part only for a non-empty title.
pub open spec fn inline_link_text(content: Seq<char>, url: Seq<char>, title: Option<Seq<char>>) -> Seq<
    char,
> {
    seq!['['] + content + seq![']', '('] + url + title_suffix(title) + seq![')']
}

/// Append ` "title"` when `title` is a non-empty title.
fn push_title_suffix(s: &mut String, title: &Option<String>)
    ensures
        final(s)@ == old(s)@ + title_suffix(opt_view(*title)),
{
    match title {
        Some(t) => {
            let tc = chars_of(t.as_str());
            if tc.len() > 0 {
                push_char(s, ' ');
                push_char(s, '"');
                s.append(t.as_str());
                push_char(s, '"');
                assert(s@ =~= old(s)@ + title_suffix(opt_view(*title)));
            } else {
                assert(s@ =~= old(s)@ + title_suffix(opt_view(*title)));
            }
        },
        None => {
            assert(s@ =~= old(s)@ + title_suffix(opt_view(*title)));
        },
    }
}

/// The text of link `l`'s `LINK_TEXT` child, empty without one.
fn link_text_of(tree: &SyntaxTree, l: usize) -> (r: String)
    requires
        l < tree@.len(),
    ensures
        r@ == link_text_content(tree@, l as int),
{
    match tree.first_child_node_of(l, SyntaxKind::LINK_TEXT) {
        Some(t) => tree.text(t),
        None => String::new(),
    }
}

/// What a reference link `l` is made inline with: the definition it
/// refers to, and that definition's URL and title.
pub open spec fn inline_target(es: Seq<ElementView>, l: int) -> Option<
    (int, Seq<char>, Option<Seq<char>>),
> {
    if !is_node_of(es, l, SyntaxKind::LINK) {
        None
    } else {
        match first_child_node(es, l, SyntaxKind::LINK_REF) {
            None => None,
            Some(r) => match link_definition(es, ref_label(es, r)) {
                None => None,
                Some(d) => match def_destination(es, d) {
                    None => None,
                    Some((u, t)) => Some((d, u, t)),
                },
            },
        }
    }
}

/// Convert a reference-style link to inline style. When `link` is a
/// reference link whose definition exists and has a URL, the edits are:
/// replace the link by `[text](url "title")`, then, when this link is the
/// only use of the label, delete the definition together with the line
/// feed that follows it. Otherwise there are no edits.
pub fn convert_to_inline(tree: &SyntaxTree, link: usize, text: &str) -> (edits: Vec<TextEdit>)
    requires
        link < tree@.len(),
        positions_fit(text@),
    ensures
        match inline_target(tree@, link as int) {
            None => edits@.len() == 0,
            Some((d, u, t)) => {
                let target = normalized_label(
                    ref_label(tree@, first_child_node(tree@, link as int, SyntaxKind::LINK_REF)->0),
                );
                let sole = label_uses_below(tree@, tree@.len() as int, target) == 1;
                &&& edits@.len() == (if sole {
                    2int
                } else {
                    1int
                })
                &&& edits@[0].range == element_range(tree@, text@, link as int)
                &&& edits@[0].new_text@ == inline_link_text(
                    link_text_content(tree@, link as int),
                    u,
                    t,
                )
                &&& sole ==> edits@[1].range == (Range {
                    start: position_of(text@, tree@[d].start),
                    end: position_of(text@, extended_end(text, tree@[d].end)),
                })
                &&& sole ==> edits@[1].new_text@ == Seq::<char>::empty()
            },
        },
{
    let mut edits: Vec<TextEdit> = Vec::new();
    if tree.kind(link) != SyntaxKind::LINK || tree.is_token(link) {
        return edits;
    }
    let r = match tree.first_child_node_of(link, SyntaxKind::LINK_REF) {
        Some(r) => r,
        None => {
            return edits;
        },
    };
    let label = tree.child_tokens_text(r, SyntaxKind::TEXT);
    let d = match find_definition(tree, label.as_str()) {
        Some(d) => d,
        None => {
            return edits;
        },
    };
    let (url, title) = match definition_destination(tree, d) {
        Some(p) => p,
        None => {
            return edits;
        },
    };
    let content = link_text_of(tree, link);
    let mut new_inline = String::new();
    push_char(&mut new_inline, '[');
    new_inline.append(content.as_str());
    push_char(&mut new_inline, ']');
    push_char(&mut new_inline, '(');
    new_inline.append(url.as_str());
    push_title_suffix(&mut new_inline, &title);
    push_char(&mut new_inline, ')');
    assert(new_inline@ =~= inline_link_text(
        link_text_content(tree@, link as int),
        url@,
        opt_view(title),
    ));
    let start = offset_to_position(text, tree.start(link));
    let end = offset_to_position(text, tree.end(link));
    edits.push(TextEdit { range: Range { start, end }, new_text: new_inline });
    if count_label_uses(tree, label.as_str()) == 1 {
        let def_start = tree.start(d);
        let def_end = tree.end(d);
        proof {
            lemma_utf8_fits(text);
        }
        let ext = if byte_is_newline(text, def_end) {
            def_end + 1
        } else {
            def_end
        };
        edits.push(
            TextEdit {
                range: Range {
                    start: offset_to_position(text, def_start),
                    end: offset_to_position(text, ext),
                },
                new_text: String::new(),
            },
        );
    }
    edits
}

proof fn lemma_utf8_fits(text: &str)
    requires
        positions_fit(text@),
    ensures
        utf8_len(text@) <= usize::MAX,
{
}

/// The title, empty when there is none.
pub open spec fn title_or_empty(t: Option<Seq<char>>) -> Seq<char> {
    match t {
        Some(x) => x,
        None => seq![],
    }
}

/// Element `j` is a reference definition with URL `url` and the same
/// title as `title` (a missing title counting as empty).
pub open spec fn def_matches(
    es: Seq<ElementView>,
    j: int,
    url: Seq<char>,
    title: Option<Seq<char>>,
) -> bool {
    is_node_of(es, j, SyntaxKind::REFERENCE_DEFINITION) && match def_destination(es, j) {
        Some((u, t)) => u == url && title_or_empty(t) == title_or_empty(title),
        None => false,
    }
}

/// The first reference definition with index below `hi` that matches
/// `url` and `title`.
pub open spec fn first_matching_def_below(
    es: Seq<ElementView>,
    url: Seq<char>,
    title: Option<Seq<char>>,
    hi: int,
) -> Option<int>
    decreases hi,
{
    if hi <= 0 {
        None
    } else {
        match first_matching_def_below(es, url, title, hi - 1) {
            Some(j) => Some(j),
            None => if def_matches(es, hi - 1, url, title) {
                Some(hi - 1)
            } else {
                None
            },
        }
    }
}

/// The normalised labels of the reference definitions with index below
/// `hi`, in tree order.
pub open spec fn def_labels_below(es: Seq<ElementView>, hi: int) -> Seq<Seq<char>>
    decreases hi,
{
    if hi <= 0 {
        seq![]
    } else if is_node_of(es, hi - 1, SyntaxKind::REFERENCE_DEFINITION) {
        def_labels_below(es, hi - 1).push(normalized_label(def_label(es, hi - 1)))
    } else {
        def_labels_below(es, hi - 1)
    }
}

proof fn lemma_def_labels_below(es: Seq<ElementView>, hi: int, j: int)
    requires
        0 <= j < hi,
        is_node_of(es, j, SyntaxKind::REFERENCE_DEFINITION),
    ensures
        def_labels_below(es, hi).contains(normalized_label(def_label(es, j))),
    decreases hi,
{
    if j < hi - 1 {
        lemma_def_labels_below(es, hi - 1, j);
        let p = def_labels_below(es, hi - 1);
        let k = choose|k: int| 0 <= k < p.len() && p[k] == normalized_label(def_label(es, j));
        if is_node_of(es, hi - 1, SyntaxKind::REFERENCE_DEFINITION) {
            assert(def_labels_below(es, hi)[k] == p[k]);
        }
    } else {
        let p = def_labels_below(es, hi - 1);
        assert(def_labels_below(es, hi)[p.len() as int] == normalized_label(def_label(es, j)));
    }
}

proof fn lemma_def_labels_len(es: Seq<ElementView>, hi: int)
    requires
        hi >= 0,
    ensures
        def_labels_below(es, hi).len() <= hi,
    decreases hi,
{
    if hi > 0 {
        lemma_def_labels_len(es, hi - 1);
    }
}

/// The last reference definition with index below `hi`.
pub open spec fn last_link_def_below(es: Seq<ElementView>, hi: int) -> Option<int>
    decreases hi,
{
    if hi <= 0 {
        None
    } else if is_node_of(es, hi - 1, SyntaxKind::REFERENCE_DEFINITION) {
        Some(hi - 1)
    } else {
        last_link_def_below(es, hi - 1)
    }
}

/// The URL and title of inline link `l`, read from its destination.
pub open spec fn reference_target(es: Seq<ElementView>, l: int) -> Option<
    (Seq<char>, Option<Seq<char>>),
> {
    if !is_node_of(es, l, SyntaxKind::LINK) {
        None
    } else {
        match first_child_node(es, l, SyntaxKind::LINK_DEST) {
            Some(x) => url_and_title(element_text(es, x)),
            None => None,
        }
    }
}

/// The label an inline link with `url` and `title` gets: that of the
/// first definition with the same URL and title, else a generated one
/// that no definition uses.
pub open spec fn reference_label_for(
    es: Seq<ElementView>,
    l: int,
    url: Seq<char>,
    title: Option<Seq<char>>,
) -> Seq<char> {
    match first_matching_def_below(es, url, title, es.len() as int) {
        Some(j) => def_label(es, j),
        None => generated_label(
            link_text_content(es, l),
            url,
            def_labels_below(es, es.len() as int),
        ),
    }
}

/// Where a new definition goes: after the last reference definition, or
/// at the end of the text.
pub open spec fn link_def_insertion(es: Seq<ElementView>, text: Seq<char>) -> Position {
    match last_link_def_below(es, es.len() as int) {
        Some(d) => position_of(text, es[d].end),
        None => position_of(text, utf8_len(text) as int),
    }
}

/// The new definition line: `[label]: url "title"` and a line feed, after
/// one line feed when it follows a definition and two at the end of the
/// text.
pub open spec fn link_def_text(
    es: Seq<ElementView>,
    label: Seq<char>,
    url: Seq<char>,
    title: Option<Seq<char>>,
) -> Seq<char> {
    (if last_link_def_below(es, es.len() as int) is Some {
        seq!['\n']
    } else {
        seq!['\n', '\n']
    }) + seq!['['] + label + seq![']', ':', ' '] + url + title_suffix(title) + seq!['\n']
}

/// Convert an inline link to reference style. When `link` is a link with
/// a destination whose URL is not empty, the first edit replaces it by
/// `[text][label]`: the label of the first definition with the same URL
/// and title when there is one, and then that is the only edit; else a
/// generated label that no definition uses, and a second edit inserts the
/// definition `[label]: url "title"` after the last reference definition
/// (or at the end of the text). Otherwise there are no edits.
#[verifier::rlimit(40)]
pub fn convert_to_reference(tree: &SyntaxTree, link: usize, text: &str) -> (edits: Vec<TextEdit>)
    requires
        link < tree@.len(),
        positions_fit(text@),
        tree@.len() + 3 <= usize::MAX,
    ensures
        match reference_target(tree@, link as int) {
            None => edits@.len() == 0,
            Some((u, t)) => {
                let label = reference_label_for(tree@, link as int, u, t);
                let reused = first_matching_def_below(tree@, u, t, tree@.len() as int) is Some;
                &&& edits@.len() == (if reused {
                    1int
                } else {
                    2int
                })
                &&& edits@[0].range == element_range(tree@, text@, link as int)
                &&& edits@[0].new_text@ == seq!['['] + link_text_content(tree@, link as int) + seq![
                    ']',
                    '[',
                ] + label + seq![']']
                &&& !reused ==> edits@[1].range == (Range {
                    start: link_def_insertion(tree@, text@),
                    end: link_def_insertion(tree@, text@),
                })
                &&& !reused ==> edits@[1].new_text@ == link_def_text(tree@, label, u, t)
                &&& !reused ==> !def_labels_below(tree@, tree@.len() as int).contains(
                    normalized_label(label),
                )
            },
        },
{
    let mut edits: Vec<TextEdit> = Vec::new();
    if tree.kind(link) != SyntaxKind::LINK || tree.is_token(link) {
        return edits;
    }
    let x = match tree.first_child_node_of(link, SyntaxKind::LINK_DEST) {
        Some(x) => x,
        None => {
            return edits;
        },
    };
    let body = tree.text(x);
    let (url, title) = match split_url_and_title(body.as_str()) {
        Some(p) => p,
        None => {
            return edits;
        },
    };
    let content = link_text_of(tree, link);
    let (existing, reuse, last) = scan_definitions(tree, &url, &title);
    let label = match reuse {
        Some(k) => definition_label(tree, k),
        None => generate_label(content.as_str(), url.as_str(), &existing),
    };
    let first = reference_link_text(&content, &label);
    let start = offset_to_position(text, tree.start(link));
    let end = offset_to_position(text, tree.end(link));
    edits.push(TextEdit { range: Range { start, end }, new_text: first });
    let nl = normalize_label(label.as_str());
    if contains_string(&existing, nl.as_str()) {
        proof {
            if reuse is None {
                assert(!label_in_use(string_views(existing@), label@));
            }
        }
        return edits;
    }
    proof {
        if let Some(k) = reuse {
            lemma_first_matching_def(tree@, url@, opt_view(title), tree@.len() as int);
            lemma_def_labels_below(tree@, tree@.len() as int, k as int);
        }
    }
    let insert_at = match last {
        Some(d) => offset_to_position(text, tree.end(d)),
        None => {
            proof {
                lemma_utf8_fits(text);
            }
            offset_to_position(text, str_byte_len(text))
        },
    };
    let second = new_definition_text(last.is_some(), &label, &url, &title);
    assert(second@ =~= link_def_text(tree@, label@, url@, opt_view(title)));
    edits.push(TextEdit { range: Range { start: insert_at, end: insert_at }, new_text: second });
    edits
}

proof fn lemma_first_matching_def(
    es: Seq<ElementView>,
    url: Seq<char>,
    title: Option<Seq<char>>,
    hi: int,
)
    ensures
        first_matching_def_below(es, url, title, hi) matches Some(k) ==> 0 <= k < hi && def_matches(
            es,
            k,
            url,
            title,
        ),
    decreases hi,
{
    if hi > 0 {
        lemma_first_matching_def(es, url, title, hi - 1);
    }
}

/// One pass over the reference definitions: their normalised labels in
/// order, the first one matching `url` and `title`, and the last one.
fn scan_definitions(tree: &SyntaxTree, url: &String, title: &Option<String>) -> (r: (
    Vec<String>,
    Option<usize>,
    Option<usize>,
))
    ensures
        string_views(r.0@) == def_labels_below(tree@, tree@.len() as int),
        r.0@.len() <= tree@.len(),
        r.1 matches Some(k) ==> first_matching_def_below(tree@, url@, opt_view(*title), tree@.len() as int)
            == Some(k as int) && k < tree@.len(),
        r.1 is None ==> first_matching_def_below(tree@, url@, opt_view(*title), tree@.len() as int) is None,
        r.2 matches Some(k) ==> last_link_def_below(tree@, tree@.len() as int) == Some(k as int) && k
            < tree@.len(),
        r.2 is None ==> last_link_def_below(tree@, tree@.len() as int) is None,
{
    let want_title = title_text(title);
    let len = tree.len();
    let mut existing: Vec<String> = Vec::new();
    let mut reuse: Option<usize> = None;
    let mut last: Option<usize> = None;
    let mut j: usize = 0;
    while j < len
        invariant
            j <= len == tree@.len(),
            want_title@ == title_or_empty(opt_view(*title)),
            string_views(existing@) == def_labels_below(tree@, j as int),
            reuse matches Some(k) ==> first_matching_def_below(tree@, url@, opt_view(*title), j as int)
                == Some(k as int) && k < len,
            reuse is None ==> first_matching_def_below(tree@, url@, opt_view(*title), j as int) is None,
            last matches Some(k) ==> last_link_def_below(tree@, j as int) == Some(k as int) && k < len,
            last is None ==> last_link_def_below(tree@, j as int) is None,
        decreases len - j,
    {
        if tree.kind(j) == SyntaxKind::REFERENCE_DEFINITION && !tree.is_token(j) {
            let l = definition_label(tree, j);
            let nl = normalize_label(l.as_str());
            existing.push(nl);
            assert(string_views(existing@) =~= def_labels_below(tree@, j + 1));
            if reuse.is_none() {
                match definition_destination(tree, j) {
                    Some((du, dt)) => {
                        let dtitle = title_text(&dt);
                        if str_eq(du.as_str(), url.as_str()) && str_eq(
                            dtitle.as_str(),
                            want_title.as_str(),
                        ) {
                            reuse = Some(j);
                        }
                    },
                    None => {},
                }
            }
            last = Some(j);
        } else {
            assert(def_labels_below(tree@, j + 1) == def_labels_below(tree@, j as int));
        }
        j = j + 1;
    }
    proof {
        lemma_def_labels_len(tree@, len as int);
    }
    (existing, reuse, last)
}

/// The new definition line (see [`link_def_text`]).
fn new_definition_text(after_def: bool, label: &String, url: &String, title: &Option<String>) -> (r:
    String)
    ensures
        r@ == (if after_def {
            seq!['\n']
        } else {
            seq!['\n', '\n']
        }) + seq!['['] + label@ + seq![']', ':', ' '] + url@ + title_suffix(opt_view(*title)) + seq![
            '\n',
        ],
{
    let mut second = String::new();
    push_char(&mut second, '\n');
    if !after_def {
        push_char(&mut second, '\n');
    }
    push_char(&mut second, '[');
    second.append(label.as_str());
    push_char(&mut second, ']');
    push_char(&mut second, ':');
    push_char(&mut second, ' ');
    second.append(url.as_str());
    push_title_suffix(&mut second, title);
    push_char(&mut second, '\n');
    assert(second@ =~= (if after_def {
        seq!['\n']
    } else {
        seq!['\n', '\n']
    }) + seq!['['] + label@ + seq![']', ':', ' '] + url@ + title_suffix(opt_view(*title)) + seq![
        '\n',
    ]);
    second
}

/// `[content][label]`.
fn reference_link_text(content: &String, label: &String) -> (r: String)
    ensures
        r@ == seq!['['] + content@ + seq![']', '['] + label@ + seq![']'],
{
    let mut first = String::new();
    push_char(&mut first, '[');
    first.append(content.as_str());
    push_char(&mut first, ']');
    push_char(&mut first, '[');
    first.append(label.as_str());
    push_char(&mut first, ']');
    assert(first@ =~= seq!['['] + content@ + seq![']', '['] + label@ + seq![']']);
    first
}

/// The title, empty when there is none.
fn title_text(t: &Option<String>) -> (r: String)
    ensures
        r@ == title_or_empty(opt_view(*t)),
{
    match t {
        Some(x) => {
            let mut r = String::new();
            r.append(x.as_str());
            assert(r@ =~= x@);
            r
        },
        None => String::new(),
    }
}

} // verus!
