//! Character- and string-level helpers shared by the whole crate.
//!
//! Text is modelled as a sequence of `char`s; byte offsets are derived from
//! the UTF-8 width of each character and LSP columns from its UTF-16 width.

use vstd::prelude::*;
use vstd::string::StringSliceAdditionalSpecFns;

verus! {

/// Number of bytes `c` occupies in UTF-8.
pub open spec fn utf8_width(c: char) -> nat {
    if (c as u32) < 0x80 {
        1
    } else if (c as u32) < 0x800 {
        2
    } else if (c as u32) < 0x10000 {
        3
    } else {
        4
    }
}

/// Number of UTF-16 code units `c` occupies.
pub open spec fn utf16_width(c: char) -> nat {
    if (c as u32) < 0x10000 {
        1
    } else {
        2
    }
}

/// UTF-8 length in bytes of a character sequence.
pub open spec fn utf8_len(s: Seq<char>) -> nat
    decreases s.len(),
{
    if s.len() == 0 {
        0
    } else {
        utf8_len(s.drop_last()) + utf8_width(s.last())
    }
}

/// `char::len_utf8`.
pub fn char_len_utf8(c: char) -> (n: usize)
    ensures
        n == utf8_width(c),
{
    let u = c as u32;
    if u < 0x80 {
        1
    } else if u < 0x800 {
        2
    } else if u < 0x10000 {
        3
    } else {
        4
    }
}

/// The characters of `s`, in order.
pub fn chars_of(s: &str) -> (v: Vec<char>)
    ensures
        v@ == s@,
{
    let mut v: Vec<char> = Vec::new();
    for c in it: s.chars()
        invariant
            v@ == it.seq().take(it.index() as int),
            it.seq() == s@,
    {
        v.push(c);
    }
    v
}


/// Unicode `White_Space` property, as `char::is_whitespace` tests it.
pub open spec fn is_ws(c: char) -> bool {
    let u = c as u32;
    ||| 0x09 <= u <= 0x0d
    ||| u == 0x20
    ||| u == 0x85
    ||| u == 0xa0
    ||| u == 0x1680
    ||| 0x2000 <= u <= 0x200a
    ||| u == 0x2028
    ||| u == 0x2029
    ||| u == 0x202f
    ||| u == 0x205f
    ||| u == 0x3000
}

/// `char::is_whitespace`.
pub fn is_whitespace(c: char) -> (b: bool)
    ensures
        b == is_ws(c),
{
    let u = c as u32;
    (0x09 <= u && u <= 0x0d) || u == 0x20 || u == 0x85 || u == 0xa0 || u == 0x1680 || (0x2000 <= u
        && u <= 0x200a) || u == 0x2028 || u == 0x2029 || u == 0x202f || u == 0x205f || u == 0x3000
}

/// `String::push`: appends one character.
#[verifier::external_body]
pub fn push_char(s: &mut String, c: char)
    ensures
        final(s)@ == old(s)@.push(c),
{
    s.push(c);
}

/// The string made of the characters of `v`, in order.
pub fn string_from_chars(v: &Vec<char>) -> (s: String)
    ensures
        s@ == v@,
{
    let mut s = String::new();
    let mut i: usize = 0;
    while i < v.len()
        invariant
            i <= v.len(),
            s@ == v@.take(i as int),
        decreases v.len() - i,
    {
        push_char(&mut s, v[i]);
        i = i + 1;
        assert(s@ =~= v@.take(i as int));
    }
    assert(v@.take(v.len() as int) =~= v@);
    s
}

/// ASCII lowercase of one character.
pub open spec fn ascii_lower(c: char) -> char {
    if 'A' <= c <= 'Z' {
        ((c as u8) + 32) as char
    } else {
        c
    }
}

/// `c` is an ASCII character.
pub open spec fn is_ascii_char(c: char) -> bool {
    (c as u32) < 128
}

/// Every character of `s` is ASCII.
pub open spec fn all_ascii(s: Seq<char>) -> bool {
    forall|i: int| 0 <= i < s.len() ==> is_ascii_char(#[trigger] s[i])
}

/// Name for what `str::to_lowercase` returns: the full Unicode lowercase
/// mapping of a string.
pub uninterp spec fn spec_to_lowercase(s: Seq<char>) -> Seq<char>;

/// `str::to_lowercase`. The result is the Unicode lowercase mapping of the
/// argument, only named in general. On a string of ASCII characters that
/// mapping is the ASCII one (`A`..`Z` to `a`..`z`, every other character
/// unchanged), and that much is stated.
#[verifier::external_body]
pub fn str_to_lowercase(s: &str) -> (r: String)
    ensures
        r@ == spec_to_lowercase(s@),
        all_ascii(s@) ==> r@ == s@.map_values(|c: char| ascii_lower(c)),
{
    s.to_lowercase()
}
/// `char::to_ascii_lowercase`.
pub fn char_ascii_lower(c: char) -> (r: char)
    ensures
        r == ascii_lower(c),
{
    if 'A' <= c && c <= 'Z' {
        ((c as u8) + 32) as char
    } else {
        c
    }
}

/// The maximal runs of non-whitespace characters of `s`, in order
/// (what `str::split_whitespace` yields).
pub open spec fn words(s: Seq<char>) -> Seq<Seq<char>>
    decreases s.len(),
{
    if s.len() == 0 {
        seq![]
    } else {
        let w = words(s.drop_last());
        let c = s.last();
        if is_ws(c) {
            w
        } else if s.len() >= 2 && !is_ws(s[s.len() - 2]) {
            w.update(w.len() - 1, w.last().push(c))
        } else {
            w.push(seq![c])
        }
    }
}

/// The pieces of `ws` joined with `sep` between each neighbouring pair.
pub open spec fn join(ws: Seq<Seq<char>>, sep: Seq<char>) -> Seq<char>
    decreases ws.len(),
{
    if ws.len() == 0 {
        seq![]
    } else if ws.len() == 1 {
        ws[0]
    } else {
        join(ws.drop_last(), sep) + sep + ws.last()
    }
}

/// Whitespace collapsed: the words of `s` joined by single spaces.
pub open spec fn collapse_ws(s: Seq<char>) -> Seq<char> {
    join(words(s), seq![' '])
}

/// The normalised form of a reference label: whitespace collapsed and the
/// result lowercased.
pub open spec fn normalized_label(s: Seq<char>) -> Seq<char> {
    spec_to_lowercase(collapse_ws(s))
}

proof fn lemma_words_nonempty_after_word_char(s: Seq<char>)
    requires
        s.len() >= 1,
        !is_ws(s.last()),
    ensures
        words(s).len() >= 1,
        words(s).last().len() >= 1,
        words(s).last().last() == s.last(),
    decreases s.len(),
{
    let c = s.last();
    if s.len() >= 2 && !is_ws(s[s.len() - 2]) {
        let p = s.drop_last();
        assert(p.last() == s[s.len() - 2]);
        lemma_words_nonempty_after_word_char(p);
    }
}

proof fn lemma_join_extend_last(ws: Seq<Seq<char>>, sep: Seq<char>, c: char)
    requires
        ws.len() >= 1,
    ensures
        join(ws.update(ws.len() - 1, ws.last().push(c)), sep) == join(ws, sep).push(c),
{
    let u = ws.update(ws.len() - 1, ws.last().push(c));
    if ws.len() >= 2 {
        assert(u.drop_last() =~= ws.drop_last());
        assert(join(u, sep) == join(u.drop_last(), sep) + sep + u.last());
        assert(join(u, sep) =~= join(ws, sep).push(c));
    }
}

proof fn lemma_join_push(ws: Seq<Seq<char>>, sep: Seq<char>, w: Seq<char>)
    ensures
        join(ws.push(w), sep) == if ws.len() == 0 {
            w
        } else {
            join(ws, sep) + sep + w
        },
{
    let u = ws.push(w);
    assert(u.drop_last() =~= ws);
}

/// Whitespace-collapsed copy of `s` (`split_whitespace` joined by `" "`).
pub fn collapse_whitespace(s: &str) -> (r: Vec<char>)
    ensures
        r@ == collapse_ws(s@),
{
    let cs = chars_of(s);
    let mut out: Vec<char> = Vec::new();
    let mut i: usize = 0;
    while i < cs.len()
        invariant
            i <= cs.len(),
            cs@ == s@,
            out@ == join(words(cs@.take(i as int)), seq![' ']),
        decreases cs.len() - i,
    {
        let c = cs[i];
        let ghost prev = cs@.take(i as int);
        let ghost next = cs@.take(i + 1);
        assert(next.drop_last() =~= prev);
        assert(next.last() == c);
        if is_whitespace(c) {
        } else if i >= 1 && !is_whitespace(cs[i - 1]) {
            proof {
                assert(next[next.len() - 2] == cs@[i - 1]);
                assert(prev.last() == cs@[i - 1]);
                lemma_words_nonempty_after_word_char(prev);
                lemma_join_extend_last(words(prev), seq![' '], c);
            }
            out.push(c);
        } else {
            proof {
                lemma_join_push(words(prev), seq![' '], seq![c]);
                if i >= 1 {
                    assert(next[next.len() - 2] == cs@[i - 1]);
                }
            }
            if out.len() > 0 {
                out.push(' ');
            } else {
                proof {
                    if words(prev).len() > 0 {
                        lemma_words_pieces_nonempty(prev);
                        lemma_join_nonempty(words(prev), seq![' ']);
                    }
                }
            }
            out.push(c);
            proof {
                if words(prev).len() == 0 {
                    assert(out@ =~= seq![c]);
                } else {
                    assert(out@ =~= join(words(prev), seq![' ']) + seq![' '] + seq![c]);
                }
            }
        }
        i = i + 1;
    }
    assert(cs@.take(cs.len() as int) =~= cs@);
    out
}

proof fn lemma_words_pieces_nonempty(s: Seq<char>)
    ensures
        forall|k: int| 0 <= k < words(s).len() ==> #[trigger] words(s)[k].len() >= 1,
    decreases s.len(),
{
    if s.len() > 0 {
        let w = words(s.drop_last());
        lemma_words_pieces_nonempty(s.drop_last());
        let c = s.last();
        if !is_ws(c) && s.len() >= 2 && !is_ws(s[s.len() - 2]) {
            assert(s.drop_last().last() == s[s.len() - 2]);
            lemma_words_nonempty_after_word_char(s.drop_last());
            let u = w.update(w.len() - 1, w.last().push(c));
            assert forall|k: int| 0 <= k < u.len() implies #[trigger] u[k].len() >= 1 by {
                if k != w.len() - 1 {
                    assert(u[k] == w[k]);
                }
            }
        } else if !is_ws(c) {
            let u = w.push(seq![c]);
            assert forall|k: int| 0 <= k < u.len() implies #[trigger] u[k].len() >= 1 by {
                if k < w.len() {
                    assert(u[k] == w[k]);
                }
            }
        }
    }
}

proof fn lemma_join_nonempty(ws: Seq<Seq<char>>, sep: Seq<char>)
    requires
        ws.len() >= 1,
        forall|k: int| 0 <= k < ws.len() ==> #[trigger] ws[k].len() >= 1,
    ensures
        join(ws, sep).len() >= 1,
    decreases ws.len(),
{
    if ws.len() >= 2 {
        lemma_join_nonempty(ws.drop_last(), sep);
    }
}

/// Normalise a label for case-insensitive matching: whitespace runs are
/// collapsed to single spaces, leading and trailing whitespace is dropped,
/// and the result is lowercased.
pub fn normalize_label(label: &str) -> (r: String)
    ensures
        r@ == normalized_label(label@),
        all_ascii(collapse_ws(label@)) ==> r@ == collapse_ws(label@).map_values(
            |c: char| ascii_lower(c),
        ),
{
    let collapsed = collapse_whitespace(label);
    let joined = string_from_chars(&collapsed);
    str_to_lowercase(joined.as_str())
}


/// A non-empty string without whitespace is a single word, so collapsing
/// its whitespace leaves it unchanged.
pub proof fn lemma_collapse_single_word(x: Seq<char>)
    requires
        x.len() >= 1,
        forall|i: int| 0 <= i < x.len() ==> !is_ws(#[trigger] x[i]),
    ensures
        words(x) == seq![x],
        collapse_ws(x) == x,
    decreases x.len(),
{
    let c = x.last();
    if x.len() >= 2 {
        let p = x.drop_last();
        assert forall|i: int| 0 <= i < p.len() implies !is_ws(#[trigger] p[i]) by {
            assert(p[i] == x[i]);
        }
        lemma_collapse_single_word(p);
        assert(!is_ws(x[x.len() - 2]));
        assert(words(x) == words(p).update(0, p.push(c)));
        assert(p.push(c) =~= x);
        assert(words(x) =~= seq![x]);
    } else {
        assert(x.drop_last() =~= Seq::<char>::empty());
        assert(words(x.drop_last()) =~= Seq::<Seq<char>>::empty());
        assert(seq![c] =~= x);
        assert(words(x) =~= seq![x]);
    }
}

/// `utf8_len` peels its first character as well as its last.
pub proof fn lemma_utf8_len_first(s: Seq<char>)
    requires
        s.len() > 0,
    ensures
        utf8_len(s) == utf8_width(s[0]) + utf8_len(s.drop_first()),
    decreases s.len(),
{
    if s.len() > 1 {
        lemma_utf8_len_first(s.drop_last());
        assert(s.drop_first().drop_last() =~= s.drop_last().drop_first());
        assert(s.drop_first().last() == s.last());
        assert(s.drop_last()[0] == s[0]);
        assert(utf8_len(s) == utf8_len(s.drop_last()) + utf8_width(s.last()));
        assert(utf8_len(s.drop_first()) == utf8_len(s.drop_first().drop_last()) + utf8_width(
            s.drop_first().last(),
        ));
    } else {
        assert(s.drop_first().len() == 0);
        assert(s.drop_last().len() == 0);
        assert(s.last() == s[0]);
        assert(utf8_len(s) == utf8_len(s.drop_last()) + utf8_width(s.last()));
    }
}

/// The UTF-8 length of a concatenation is the sum of the lengths.
pub proof fn lemma_utf8_len_concat(a: Seq<char>, b: Seq<char>)
    ensures
        utf8_len(a + b) == utf8_len(a) + utf8_len(b),
    decreases b.len(),
{
    if b.len() == 0 {
        assert(a + b =~= a);
    } else {
        lemma_utf8_len_concat(a, b.drop_last());
        assert((a + b).drop_last() =~= a + b.drop_last());
        assert((a + b).last() == b.last());
    }
}

/// `utf8_len` agrees with the length of vstd's UTF-8 encoding.
pub proof fn lemma_utf8_len_encode(s: Seq<char>)
    ensures
        vstd::utf8::encode_utf8(s).len() == utf8_len(s),
    decreases s.len(),
{
    if s.len() > 0 {
        lemma_utf8_len_first(s);
        lemma_utf8_len_encode(s.drop_first());
        vstd::utf8::char_is_scalar(s[0]);
    }
}

/// `str::len`: the UTF-8 length of `s` in bytes.
pub fn str_byte_len(s: &str) -> (n: usize)
    requires
        utf8_len(s@) <= usize::MAX,
    ensures
        n == utf8_len(s@),
{
    proof {
        lemma_utf8_len_encode(s@);
        assert(s.spec_bytes() == vstd::utf8::encode_utf8(s@));
    }
    s.len()
}


/// `s` begins with `p`.
pub open spec fn starts_with(s: Seq<char>, p: Seq<char>) -> bool {
    p.len() <= s.len() && s.take(p.len() as int) == p
}

/// `p` occurs in `s` at index `i`.
pub open spec fn occurs_at(s: Seq<char>, p: Seq<char>, i: int) -> bool {
    0 <= i && i + p.len() <= s.len() && s.subrange(i, i + p.len()) == p
}

/// `p` occurs somewhere in `s`.
pub open spec fn contains_seq(s: Seq<char>, p: Seq<char>) -> bool {
    exists|i: int| occurs_at(s, p, i)
}

/// The index of the first occurrence of `c` in `s`.
pub open spec fn first_index_of(s: Seq<char>, c: char) -> Option<int> {
    if exists|i: int| 0 <= i < s.len() && s[i] == c {
        Some(choose|i: int| 0 <= i < s.len() && s[i] == c && forall|j: int| 0 <= j < i ==> s[j] != c)
    } else {
        None
    }
}

/// `s` with every leading repetition of the non-empty pattern `p` removed
/// (`str::trim_start_matches`).
pub open spec fn trim_start_repeated(s: Seq<char>, p: Seq<char>) -> Seq<char>
    decreases s.len(),
{
    if p.len() > 0 && starts_with(s, p) {
        trim_start_repeated(s.skip(p.len() as int), p)
    } else {
        s
    }
}

/// The part of `s` before the first `c` (all of `s` when there is none):
/// the first piece of `str::split(c)`.
pub open spec fn before_first(s: Seq<char>, c: char) -> Seq<char> {
    match first_index_of(s, c) {
        Some(i) => s.take(i),
        None => s,
    }
}

/// Whether `s` begins with `p`.
pub fn vec_starts_with(s: &Vec<char>, p: &Vec<char>) -> (b: bool)
    ensures
        b == starts_with(s@, p@),
{
    if p.len() > s.len() {
        return false;
    }
    let mut i: usize = 0;
    while i < p.len()
        invariant
            p.len() <= s.len(),
            i <= p.len(),
            forall|j: int| 0 <= j < i ==> s@[j] == p@[j],
        decreases p.len() - i,
    {
        if s[i] != p[i] {
            assert(s@.take(p.len() as int)[i as int] != p@[i as int]);
            return false;
        }
        i = i + 1;
    }
    assert(s@.take(p.len() as int) =~= p@);
    true
}

/// Whether `p` occurs at index `i` of `s`.
pub fn vec_occurs_at(s: &Vec<char>, p: &Vec<char>, i: usize) -> (b: bool)
    ensures
        b == occurs_at(s@, p@, i as int),
{
    if i > s.len() || p.len() > s.len() - i {
        return false;
    }
    let mut k: usize = 0;
    while k < p.len()
        invariant
            i + p.len() <= s.len(),
            k <= p.len(),
            forall|j: int| 0 <= j < k ==> s@[i + j] == p@[j],
        decreases p.len() - k,
    {
        if s[i + k] != p[k] {
            assert(s@.subrange(i as int, i + p.len())[k as int] != p@[k as int]);
            return false;
        }
        k = k + 1;
    }
    assert(s@.subrange(i as int, i + p.len()) =~= p@);
    true
}

/// Whether `p` occurs somewhere in `s`.
pub fn vec_contains(s: &Vec<char>, p: &Vec<char>) -> (b: bool)
    ensures
        b == contains_seq(s@, p@),
{
    let mut i: usize = 0;
    loop
        invariant
            i <= s.len(),
            forall|j: int| 0 <= j < i ==> !occurs_at(s@, p@, j),
        decreases s.len() - i,
    {
        if vec_occurs_at(s, p, i) {
            return true;
        }
        if i == s.len() {
            assert forall|j: int| !occurs_at(s@, p@, j) by {
                if 0 <= j && j + p@.len() <= s@.len() {
                    assert(j <= i);
                }
            }
            return false;
        }
        i = i + 1;
    }
}

/// The index of the first `c` in `s`.
pub fn vec_find_char(s: &Vec<char>, c: char) -> (r: Option<usize>)
    ensures
        r matches Some(i) ==> first_index_of(s@, c) == Some(i as int),
        r is None ==> first_index_of(s@, c) is None,
        r matches Some(i) ==> i < s@.len() && s@[i as int] == c && forall|j: int|
            0 <= j < i ==> s@[j] != c,
        r is None ==> forall|j: int| 0 <= j < s@.len() ==> s@[j] != c,
{
    let mut i: usize = 0;
    while i < s.len()
        invariant
            i <= s.len(),
            forall|j: int| 0 <= j < i ==> s@[j] != c,
        decreases s.len() - i,
    {
        if s[i] == c {
            proof {
                let w = choose|w: int|
                    0 <= w < s@.len() && s@[w] == c && forall|j: int| 0 <= j < w ==> s@[j] != c;
                assert(w == i) by {
                    if w < i {
                    } else if w > i {
                        assert(s@[i as int] == c);
                    }
                }
            }
            return Some(i);
        }
        i = i + 1;
    }
    None
}

/// The elements of `v` from index `lo` up to (not including) `hi`.
pub fn vec_slice(v: &Vec<char>, lo: usize, hi: usize) -> (r: Vec<char>)
    requires
        lo <= hi <= v@.len(),
    ensures
        r@ == v@.subrange(lo as int, hi as int),
{
    let mut r: Vec<char> = Vec::new();
    let mut i = lo;
    while i < hi
        invariant
            lo <= i <= hi <= v@.len(),
            r@ == v@.subrange(lo as int, i as int),
        decreases hi - i,
    {
        r.push(v[i]);
        i = i + 1;
        assert(r@ =~= v@.subrange(lo as int, i as int));
    }
    r
}

/// `s` with all leading repetitions of `p` removed.
pub fn vec_trim_start_repeated(s: &Vec<char>, p: &Vec<char>) -> (r: Vec<char>)
    ensures
        r@ == trim_start_repeated(s@, p@),
{
    let mut i: usize = 0;
    if p.len() == 0 {
        return vec_slice(s, 0, s.len());
    }
    assert(s@.skip(0) =~= s@);
    loop
        invariant
            i <= s@.len(),
            p@.len() > 0,
            trim_start_repeated(s@, p@) == trim_start_repeated(s@.skip(i as int), p@),
        ensures
            i <= s@.len(),
            trim_start_repeated(s@, p@) == trim_start_repeated(s@.skip(i as int), p@),
            !occurs_at(s@, p@, i as int),
        decreases s@.len() - i,
    {
        let b = vec_occurs_at(s, p, i);
        if !b {
            break;
        }
        let sl = s.len();
        assert(i + p@.len() <= sl);
        proof {
            let t = s@.skip(i as int);
            assert(t.take(p@.len() as int) =~= s@.subrange(i as int, i + p@.len()));
            assert(t.skip(p@.len() as int) =~= s@.skip(i + p@.len()));
        }
        i = i + p.len();
    }
    proof {
        let t = s@.skip(i as int);
        if starts_with(t, p@) {
            assert(t.take(p@.len() as int) =~= s@.subrange(i as int, i + p@.len()));
        }
    }
    vec_slice(s, i, s.len())
}


/// Whether two character vectors are equal.
pub fn vec_eq(a: &Vec<char>, b: &Vec<char>) -> (r: bool)
    ensures
        r == (a@ == b@),
{
    if a.len() != b.len() {
        return false;
    }
    let mut i: usize = 0;
    while i < a.len()
        invariant
            a.len() == b.len(),
            i <= a.len(),
            forall|j: int| 0 <= j < i ==> a@[j] == b@[j],
        decreases a.len() - i,
    {
        if a[i] != b[i] {
            return false;
        }
        i = i + 1;
    }
    assert(a@ =~= b@);
    true
}

/// Whether two strings are equal.
pub fn str_eq(a: &str, b: &str) -> (r: bool)
    ensures
        r == (a@ == b@),
{
    let va = chars_of(a);
    let vb = chars_of(b);
    vec_eq(&va, &vb)
}


/// Name for what `char::is_alphanumeric` returns (Unicode `Alphabetic` or
/// `Numeric`).
pub uninterp spec fn spec_is_alphanumeric(c: char) -> bool;

/// Name for what `char::is_alphabetic` returns (Unicode `Alphabetic`).
pub uninterp spec fn spec_is_alphabetic(c: char) -> bool;

/// `char::is_alphanumeric`.
#[verifier::external_body]
pub fn char_is_alphanumeric(c: char) -> (b: bool)
    ensures
        b == spec_is_alphanumeric(c),
{
    c.is_alphanumeric()
}

/// `char::is_alphabetic`.
#[verifier::external_body]
pub fn char_is_alphabetic(c: char) -> (b: bool)
    ensures
        b == spec_is_alphabetic(c),
{
    c.is_alphabetic()
}

/// What one character of a lowercased heading contributes to its slug.
pub open spec fn slug_piece(c: char) -> Seq<char> {
    if spec_is_alphanumeric(c) || c == '_' || c == '-' || c == '.' {
        seq![c]
    } else if is_ws(c) {
        seq!['-']
    } else {
        seq![]
    }
}

/// The slug pieces of every character of `s`, concatenated.
pub open spec fn slug_filter(s: Seq<char>) -> Seq<char>
    decreases s.len(),
{
    if s.len() == 0 {
        seq![]
    } else {
        slug_filter(s.drop_last()) + slug_piece(s.last())
    }
}

/// `s` without its leading characters that are not alphabetic.
pub open spec fn drop_to_first_letter(s: Seq<char>) -> Seq<char>
    decreases s.len(),
{
    if s.len() == 0 || spec_is_alphabetic(s[0]) {
        s
    } else {
        drop_to_first_letter(s.drop_first())
    }
}

/// Pandoc's automatic identifier for a heading text: lowercase it, keep
/// alphanumerics, `_`, `-` and `.`, turn whitespace into `-`, drop other
/// characters, then drop everything before the first letter.
pub open spec fn pandoc_slug(s: Seq<char>) -> Seq<char> {
    drop_to_first_letter(slug_filter(spec_to_lowercase(s)))
}

/// Pandoc's automatic heading identifier of `text` (empty when no letter
/// survives).
pub fn pandoc_slugify(text: &str) -> (r: Vec<char>)
    ensures
        r@ == pandoc_slug(text@),
{
    let lower = str_to_lowercase(text);
    let cs = chars_of(lower.as_str());
    let mut filtered: Vec<char> = Vec::new();
    let mut i: usize = 0;
    while i < cs.len()
        invariant
            i <= cs.len(),
            cs@ == spec_to_lowercase(text@),
            filtered@ == slug_filter(cs@.take(i as int)),
        decreases cs.len() - i,
    {
        let c = cs[i];
        proof {
            assert(cs@.take(i + 1).drop_last() =~= cs@.take(i as int));
        }
        if char_is_alphanumeric(c) || c == '_' || c == '-' || c == '.' {
            filtered.push(c);
        } else if is_whitespace(c) {
            filtered.push('-');
        }
        i = i + 1;
        assert(filtered@ =~= slug_filter(cs@.take(i as int)));
    }
    assert(cs@.take(cs.len() as int) =~= cs@);
    assert(filtered@.skip(0) =~= filtered@);
    let mut k: usize = 0;
    while k < filtered.len() && !char_is_alphabetic(filtered[k])
        invariant
            k <= filtered.len(),
            drop_to_first_letter(filtered@) == drop_to_first_letter(filtered@.skip(k as int)),
        decreases filtered.len() - k,
    {
        proof {
            assert(filtered@.skip(k as int).drop_first() =~= filtered@.skip(k + 1));
        }
        k = k + 1;
    }
    proof {
        assert(filtered@.skip(0) =~= filtered@);
    }
    vec_slice(&filtered, k, filtered.len())
}

/// ASCII digit for `d < 10`.
pub open spec fn digit_char(d: nat) -> char {
    ((d + 48) as u8) as char
}

/// Decimal representation of `n`, as `usize`'s `Display` writes it.
pub open spec fn decimal(n: nat) -> Seq<char>
    decreases n,
{
    if n < 10 {
        seq![digit_char(n)]
    } else {
        decimal(n / 10).push(digit_char(n % 10))
    }
}

proof fn lemma_digit_char(d: nat)
    requires
        d < 10,
    ensures
        '0' <= digit_char(d) <= '9',
        (digit_char(d) as nat) - 48 == d,
{
    assert(((d + 48) as u8) as nat == d + 48);
    assert(((d + 48) as u8) as char as nat == d + 48);
}

/// The decimal representation of `n` is made of ASCII digits and reads
/// back as `n`.
pub proof fn lemma_decimal_value(n: nat)
    ensures
        digits_value(decimal(n)) == n,
        decimal(n).len() >= 1,
        forall|i: int| 0 <= i < decimal(n).len() ==> is_digit(#[trigger] decimal(n)[i]),
    decreases n,
{
    if n < 10 {
        lemma_digit_char(n);
        assert(decimal(n).drop_last() =~= Seq::<char>::empty());
        assert(digits_value(decimal(n).drop_last()) == 0);
        assert(decimal(n).last() == digit_char(n));
    } else {
        lemma_decimal_value(n / 10);
        lemma_digit_char(n % 10);
        assert(decimal(n).drop_last() =~= decimal(n / 10));
        assert(decimal(n).last() == digit_char(n % 10));
        assert(digits_value(decimal(n)) == digits_value(decimal(n / 10)) * 10 + n % 10);
        assert(n / 10 * 10 + n % 10 == n);
        assert forall|i: int| 0 <= i < decimal(n).len() implies is_digit(#[trigger] decimal(n)[i]) by {
            if i < decimal(n).len() - 1 {
                assert(decimal(n)[i] == decimal(n / 10)[i]);
            }
        }
    }
}

/// Decimal representation of `n`.
pub fn usize_to_decimal(n: usize) -> (r: Vec<char>)
    ensures
        r@ == decimal(n as nat),
    decreases n,
{
    if n < 10 {
        let mut v = Vec::new();
        v.push(((n as u8) + 48) as char);
        assert(v@ =~= decimal(n as nat));
        v
    } else {
        let mut v = usize_to_decimal(n / 10);
        v.push((((n % 10) as u8) + 48) as char);
        v
    }
}


/// Number of `'\n'` characters in `s`.
pub open spec fn newline_count(s: Seq<char>) -> nat
    decreases s.len(),
{
    if s.len() == 0 {
        0
    } else {
        newline_count(s.drop_last()) + if s.last() == '\n' {
            1nat
        } else {
            0nat
        }
    }
}

/// UTF-16 length of the part of `s` after its last `'\n'`.
pub open spec fn last_line_utf16(s: Seq<char>) -> nat
    decreases s.len(),
{
    if s.len() == 0 {
        0
    } else if s.last() == '\n' {
        0
    } else {
        last_line_utf16(s.drop_last()) + utf16_width(s.last())
    }
}

/// How many leading characters of `s` lie before byte offset `off`: the
/// least `k` whose prefix of `k` characters is at least `off` bytes long,
/// or all of `s` when there is none.
pub open spec fn chars_before(s: Seq<char>, off: int) -> int {
    if exists|k: int| 0 <= k <= s.len() && utf8_len(s.take(k)) >= off {
        choose|k: int|
            0 <= k <= s.len() && utf8_len(s.take(k)) >= off && forall|m: int|
                0 <= m < k ==> utf8_len(s.take(m)) < off
    } else {
        s.len() as int
    }
}

/// An LSP position: zero-based line and UTF-16 column.
#[derive(Clone, Copy, Debug, PartialEq, Eq, Structural)]
pub struct Position {
    pub line: u32,
    pub character: u32,
}

/// An LSP range.
#[derive(Clone, Copy, Debug, PartialEq, Eq, Structural)]
pub struct Range {
    pub start: Position,
    pub end: Position,
}

/// A text edit: replace `range` by `new_text`.
#[derive(Debug)]
pub struct TextEdit {
    pub range: Range,
    pub new_text: String,
}

/// The position of byte offset `off` in `s`: the line and UTF-16 column
/// reached after the characters that lie before `off`.
#[verifier::opaque]
pub open spec fn position_of(s: Seq<char>, off: int) -> Position {
    let pre = s.take(chars_before(s, off));
    Position { line: newline_count(pre) as u32, character: last_line_utf16(pre) as u32 }
}

/// The UTF-16 length of the longest line of `s`.
pub open spec fn longest_line_utf16(s: Seq<char>) -> nat
    decreases s.len(),
{
    if s.len() == 0 {
        0
    } else {
        let rest = longest_line_utf16(s.drop_last());
        let here = last_line_utf16(s);
        if here > rest {
            here
        } else {
            rest
        }
    }
}

/// The positions `position_of` computes fit their integer types: the line
/// count fits an `i32`, each line's UTF-16 length a `u32`, and the byte
/// length a `usize`.
pub open spec fn positions_fit(s: Seq<char>) -> bool {
    newline_count(s) <= i32::MAX && longest_line_utf16(s) <= u32::MAX && utf8_len(s) <= usize::MAX
}

/// `chars_before` is the first `i` at which the prefix reaches `off`.
pub proof fn lemma_chars_before_is(s: Seq<char>, off: int, i: int)
    requires
        0 <= i <= s.len(),
        forall|m: int| 0 <= m < i ==> utf8_len(s.take(m)) < off,
        i == s.len() || utf8_len(s.take(i)) >= off,
    ensures
        chars_before(s, off) == i,
{
    let k = chars_before(s, off);
    if utf8_len(s.take(i)) >= off {
        assert(exists|k: int| 0 <= k <= s.len() && utf8_len(s.take(k)) >= off);
        assert(k == i) by {
            if k < i {
                assert(utf8_len(s.take(k)) < off);
            } else if k > i {
            }
        }
    } else {
        if exists|k: int| 0 <= k <= s.len() && utf8_len(s.take(k)) >= off {
            assert(k == i) by {
                if k < i {
                    assert(utf8_len(s.take(k)) < off);
                }
            }
        }
    }
}

proof fn lemma_position_step(s: Seq<char>, i: int)
    requires
        0 <= i < s.len(),
        positions_fit(s),
    ensures
        s.take(i + 1).drop_last() == s.take(i),
        s.take(i + 1).last() == s[i],
        newline_count(s.take(i + 1)) <= i32::MAX,
        last_line_utf16(s.take(i + 1)) <= u32::MAX,
        utf8_len(s.take(i + 1)) == utf8_len(s.take(i)) + utf8_width(s[i]),
        utf8_len(s.take(i + 1)) <= usize::MAX,
{
    assert(s.take(i + 1).drop_last() =~= s.take(i));
    lemma_counts_prefix(s, i + 1);
    lemma_utf8_len_bounded(s, i + 1);
}

proof fn lemma_counts_prefix(s: Seq<char>, k: int)
    requires
        0 <= k <= s.len(),
    ensures
        newline_count(s.take(k)) <= newline_count(s),
        last_line_utf16(s.take(k)) <= longest_line_utf16(s.take(k)),
        longest_line_utf16(s.take(k)) <= longest_line_utf16(s),
    decreases s.len() - k,
{
    if k < s.len() {
        lemma_counts_prefix(s, k + 1);
        assert(s.take(k + 1).drop_last() =~= s.take(k));
    } else {
        assert(s.take(k) =~= s);
    }
}

/// `p` comes no later than `q`: an earlier line, or the same line and a
/// column no greater.
pub open spec fn position_le(p: Position, q: Position) -> bool {
    p.line < q.line || (p.line == q.line && p.character <= q.character)
}

/// The first `k >= from` whose prefix reaches `off` bytes (or the length).
spec fn first_reaching(s: Seq<char>, off: int, from: int) -> int
    decreases s.len() - from,
{
    if from >= s.len() || utf8_len(s.take(from)) >= off {
        from
    } else {
        first_reaching(s, off, from + 1)
    }
}

proof fn lemma_first_reaching(s: Seq<char>, off: int, from: int)
    requires
        0 <= from <= s.len(),
    ensures
        from <= first_reaching(s, off, from) <= s.len(),
        forall|m: int| from <= m < first_reaching(s, off, from) ==> utf8_len(s.take(m)) < off,
        first_reaching(s, off, from) == s.len() || utf8_len(
            s.take(first_reaching(s, off, from)),
        ) >= off,
    decreases s.len() - from,
{
    if !(from >= s.len() || utf8_len(s.take(from)) >= off) {
        lemma_first_reaching(s, off, from + 1);
    }
}

/// `chars_before` lies in `[0, len]`, every shorter prefix stays below
/// `off` bytes, and its own prefix reaches `off` unless it is all of `s`.
pub proof fn lemma_chars_before_bounds(s: Seq<char>, off: int)
    ensures
        0 <= chars_before(s, off) <= s.len(),
        forall|m: int| 0 <= m < chars_before(s, off) ==> utf8_len(s.take(m)) < off,
        chars_before(s, off) == s.len() || utf8_len(s.take(chars_before(s, off))) >= off,
{
    lemma_first_reaching(s, off, 0);
    lemma_chars_before_is(s, off, first_reaching(s, off, 0));
}

proof fn lemma_prefix_positions(s: Seq<char>, c1: int, c2: int)
    requires
        0 <= c1 <= c2 <= s.len(),
    ensures
        newline_count(s.take(c1)) < newline_count(s.take(c2)) || (newline_count(s.take(c1))
            == newline_count(s.take(c2)) && last_line_utf16(s.take(c1)) <= last_line_utf16(
            s.take(c2),
        )),
    decreases c2 - c1,
{
    if c1 < c2 {
        lemma_prefix_positions(s, c1, c2 - 1);
        assert(s.take(c2).drop_last() =~= s.take(c2 - 1));
        assert(s.take(c2).last() == s[c2 - 1]);
    }
}

/// Positions grow with offsets: a later byte offset never maps to an
/// earlier line, nor to an earlier column on the same line.
pub proof fn lemma_position_monotone(s: Seq<char>, a: int, b: int)
    requires
        a <= b,
        positions_fit(s),
    ensures
        position_le(position_of(s, a), position_of(s, b)),
{
    lemma_chars_before_bounds(s, a);
    lemma_chars_before_bounds(s, b);
    let ka = chars_before(s, a);
    let kb = chars_before(s, b);
    assert(ka <= kb) by {
        if kb < ka {
            assert(utf8_len(s.take(kb)) < a);
        }
    }
    lemma_prefix_positions(s, ka, kb);
    lemma_counts_prefix(s, ka);
    lemma_counts_prefix(s, kb);
    reveal(position_of);
}

/// Offset 0 is the first column of the first line.
pub proof fn lemma_position_zero(s: Seq<char>)
    ensures
        position_of(s, 0) == (Position { line: 0, character: 0 }),
{
    lemma_chars_before_is(s, 0, 0);
    assert(s.take(0) =~= Seq::<char>::empty());
    reveal(position_of);
}

/// Convert a UTF-8 byte offset into an LSP position (line, UTF-16 column).
/// Offsets inside a character or past the end round up to the next
/// character boundary (or the end of the text).
pub fn offset_to_position(text: &str, offset: usize) -> (p: Position)
    requires
        positions_fit(text@),
    ensures
        p == position_of(text@, offset as int),
{
    let cs = chars_of(text);
    let mut line: i32 = 0;
    let mut col: u32 = 0;
    let mut current: usize = 0;
    let mut i: usize = 0;
    proof {
        assert(cs@.take(0) =~= Seq::<char>::empty());
    }
    while i < cs.len() && current < offset
        invariant
            cs@ == text@,
            positions_fit(text@),
            i <= cs.len(),
            current as int == utf8_len(cs@.take(i as int)),
            line as int == newline_count(cs@.take(i as int)),
            col as int == last_line_utf16(cs@.take(i as int)),
            forall|m: int| 0 <= m < i ==> utf8_len(cs@.take(m)) < offset,
        decreases cs.len() - i,
    {
        let c = cs[i];
        proof {
            lemma_position_step(cs@, i as int);
        }
        if c == '\n' {
            line = line + 1;
            col = 0;
        } else {
            let w: u32 = if (c as u32) < 0x10000 {
                1
            } else {
                2
            };
            col = col + w;
        }
        current = current + char_len_utf8(c);
        i = i + 1;
    }
    proof {
        lemma_chars_before_is(cs@, offset as int, i as int);
        reveal(position_of);
    }
    Position { line: line as u32, character: col }
}

/// The UTF-8 length of the characters `v`.
pub fn utf8_len_of(v: &Vec<char>) -> (n: usize)
    requires
        utf8_len(v@) <= usize::MAX,
    ensures
        n == utf8_len(v@),
{
    let mut n: usize = 0;
    let mut i: usize = 0;
    proof {
        assert(v@.take(0) =~= Seq::<char>::empty());
    }
    while i < v.len()
        invariant
            i <= v@.len(),
            utf8_len(v@) <= usize::MAX,
            n == utf8_len(v@.take(i as int)),
        decreases v.len() - i,
    {
        proof {
            assert(v@.take(i + 1).drop_last() =~= v@.take(i as int));
            lemma_utf8_len_bounded(v@, i + 1);
        }
        n = n + char_len_utf8(v[i]);
        i = i + 1;
    }
    proof {
        assert(v@.take(v@.len() as int) =~= v@);
    }
    n
}

/// A prefix of a string is no longer in UTF-8 bytes than the string.
pub proof fn lemma_utf8_len_bounded(s: Seq<char>, k: int)
    requires
        0 <= k <= s.len(),
    ensures
        utf8_len(s.take(k)) <= utf8_len(s),
    decreases s.len() - k,
{
    if k < s.len() {
        lemma_utf8_len_bounded(s, k + 1);
        assert(s.take(k + 1).drop_last() =~= s.take(k));
    } else {
        assert(s.take(k) =~= s);
    }
}


/// The character index at which byte offset `b` of `s` starts, when `b`
/// is a character boundary (the length of `s` counts as one).
pub open spec fn char_index_at(s: Seq<char>, b: int) -> Option<int> {
    if exists|k: int| 0 <= k <= s.len() && utf8_len(s.take(k)) == b {
        Some(choose|k: int| 0 <= k <= s.len() && utf8_len(s.take(k)) == b)
    } else {
        None
    }
}

/// `str::get(i..j)`: the characters between byte offsets `i` and `j`, when
/// both are character boundaries and `i <= j`.
pub open spec fn byte_slice(s: Seq<char>, i: int, j: int) -> Option<Seq<char>> {
    if i <= j && char_index_at(s, i) is Some && char_index_at(s, j) is Some {
        Some(s.subrange(char_index_at(s, i)->0, char_index_at(s, j)->0))
    } else {
        None
    }
}

pub proof fn lemma_utf8_prefix_strict(s: Seq<char>, k: int, m: int)
    requires
        0 <= k < m <= s.len(),
    ensures
        utf8_len(s.take(k)) < utf8_len(s.take(m)),
    decreases m - k,
{
    assert(s.take(m).drop_last() =~= s.take(m - 1));
    if k < m - 1 {
        lemma_utf8_prefix_strict(s, k, m - 1);
    }
}

/// The character index at byte offset `b`, found by walking `cs`.
pub fn char_index_of_byte(cs: &Vec<char>, b: usize) -> (r: Option<usize>)
    requires
        utf8_len(cs@) <= usize::MAX,
    ensures
        r matches Some(k) ==> char_index_at(cs@, b as int) == Some(k as int) && k <= cs@.len(),
        r is None ==> char_index_at(cs@, b as int) is None,
{
    let mut off: usize = 0;
    let mut i: usize = 0;
    proof {
        assert(cs@.take(0) =~= Seq::<char>::empty());
    }
    while i < cs.len() && off < b
        invariant
            i <= cs@.len(),
            utf8_len(cs@) <= usize::MAX,
            off == utf8_len(cs@.take(i as int)),
            forall|k: int| 0 <= k < i ==> utf8_len(cs@.take(k)) < b,
        decreases cs.len() - i,
    {
        proof {
            assert(cs@.take(i + 1).drop_last() =~= cs@.take(i as int));
            lemma_utf8_len_bounded(cs@, i + 1);
        }
        off = off + char_len_utf8(cs[i]);
        i = i + 1;
    }
    if off == b {
        proof {
            assert(forall|k: int|
                0 <= k <= cs@.len() && utf8_len(cs@.take(k)) == b ==> k == i) by {
                assert forall|k: int|
                    0 <= k <= cs@.len() && utf8_len(cs@.take(k)) == b implies k == i by {
                    if k > i {
                        lemma_utf8_prefix_strict(cs@, i as int, k);
                    }
                }
            }
        }
        Some(i)
    } else {
        proof {
            assert forall|k: int| 0 <= k <= cs@.len() implies utf8_len(cs@.take(k)) != b by {
                if k > i {
                    lemma_utf8_prefix_strict(cs@, i as int, k);
                }
            }
        }
        None
    }
}

/// `str::get(i..j)` on the characters `cs` (see [`byte_slice`]).
pub fn slice_bytes(cs: &Vec<char>, i: usize, j: usize) -> (r: Option<Vec<char>>)
    requires
        utf8_len(cs@) <= usize::MAX,
    ensures
        r matches Some(v) ==> byte_slice(cs@, i as int, j as int) == Some(v@),
        r is None ==> byte_slice(cs@, i as int, j as int) is None,
{
    if i > j {
        return None;
    }
    let ki = match char_index_of_byte(cs, i) {
        Some(k) => k,
        None => {
            return None;
        },
    };
    let kj = match char_index_of_byte(cs, j) {
        Some(k) => k,
        None => {
            return None;
        },
    };
    proof {
        if kj < ki {
            lemma_utf8_prefix_strict(cs@, kj as int, ki as int);
        }
    }
    let mut v: Vec<char> = Vec::new();
    let mut k = ki;
    while k < kj
        invariant
            ki <= k <= kj <= cs@.len(),
            v@ == cs@.subrange(ki as int, k as int),
        decreases kj - k,
    {
        v.push(cs[k]);
        k = k + 1;
        assert(v@ =~= cs@.subrange(ki as int, k as int));
    }
    Some(v)
}

/// The whole text is the slice from byte 0 to its byte length.
pub proof fn lemma_byte_slice_whole(s: Seq<char>)
    ensures
        byte_slice(s, 0, utf8_len(s) as int) == Some(s),
{
    assert(s.take(0) =~= Seq::<char>::empty());
    assert(s.take(s.len() as int) =~= s);
    assert(char_index_at(s, 0) == Some(0int)) by {
        let k = choose|k: int| 0 <= k <= s.len() && utf8_len(s.take(k)) == 0;
        if k > 0 {
            lemma_utf8_prefix_strict(s, 0, k);
        }
    }
    assert(char_index_at(s, utf8_len(s) as int) == Some(s.len() as int)) by {
        let k = choose|k: int| 0 <= k <= s.len() && utf8_len(s.take(k)) == utf8_len(s);
        if k < s.len() {
            lemma_utf8_prefix_strict(s, k, s.len() as int);
        }
    }
    assert(s.subrange(0, s.len() as int) =~= s);
}

/// A byte slice spans `j - i` bytes of the string.
pub proof fn lemma_byte_slice_len(s: Seq<char>, i: int, j: int)
    requires
        byte_slice(s, i, j) is Some,
    ensures
        0 <= i <= j <= utf8_len(s),
        utf8_len(byte_slice(s, i, j)->0) == j - i,
{
    let ki = char_index_at(s, i)->0;
    let kj = char_index_at(s, j)->0;
    lemma_utf8_len_bounded(s, ki);
    lemma_utf8_len_bounded(s, kj);
    if kj < ki {
        lemma_utf8_prefix_strict(s, kj, ki);
    }
    assert(s.take(kj) =~= s.take(ki) + s.subrange(ki, kj));
    lemma_utf8_len_concat(s.take(ki), s.subrange(ki, kj));
}

/// `s` without leading whitespace.
pub open spec fn trim_start_ws(s: Seq<char>) -> Seq<char>
    decreases s.len(),
{
    if s.len() > 0 && is_ws(s[0]) {
        trim_start_ws(s.drop_first())
    } else {
        s
    }
}

/// `s` without trailing whitespace.
pub open spec fn trim_end_ws(s: Seq<char>) -> Seq<char>
    decreases s.len(),
{
    if s.len() > 0 && is_ws(s.last()) {
        trim_end_ws(s.drop_last())
    } else {
        s
    }
}

/// `str::trim`: `s` without leading and trailing whitespace.
pub open spec fn trim_ws(s: Seq<char>) -> Seq<char> {
    trim_end_ws(trim_start_ws(s))
}

/// `s` without leading and trailing whitespace.
pub fn vec_trim(s: &Vec<char>) -> (r: Vec<char>)
    ensures
        r@ == trim_ws(s@),
{
    let mut lo: usize = 0;
    assert(s@.skip(0) =~= s@);
    while lo < s.len() && is_whitespace(s[lo])
        invariant
            lo <= s.len(),
            trim_start_ws(s@) == trim_start_ws(s@.skip(lo as int)),
        decreases s.len() - lo,
    {
        assert(s@.skip(lo as int).drop_first() =~= s@.skip(lo + 1));
        lo = lo + 1;
    }
    let ghost t = s@.skip(lo as int);
    assert(trim_start_ws(t) == t);
    let mut hi: usize = s.len();
    assert(s@.subrange(lo as int, hi as int) =~= t);
    while hi > lo && is_whitespace(s[hi - 1])
        invariant
            lo <= hi <= s.len(),
            trim_end_ws(t) == trim_end_ws(s@.subrange(lo as int, hi as int)),
            t == s@.skip(lo as int),
        decreases hi - lo,
    {
        assert(s@.subrange(lo as int, hi as int).drop_last() =~= s@.subrange(lo as int, hi - 1));
        hi = hi - 1;
    }
    vec_slice(s, lo, hi)
}

/// Append the characters of `v` to `s`.
pub fn push_chars(s: &mut String, v: &Vec<char>)
    ensures
        final(s)@ == old(s)@ + v@,
{
    let mut i: usize = 0;
    while i < v.len()
        invariant
            i <= v.len(),
            s@ == old(s)@ + v@.take(i as int),
        decreases v.len() - i,
    {
        push_char(s, v[i]);
        i = i + 1;
        assert(s@ =~= old(s)@ + v@.take(i as int));
    }
    assert(v@.take(v.len() as int) =~= v@);
}


/// `c` is an ASCII decimal digit.
pub open spec fn is_digit(c: char) -> bool {
    '0' <= c <= '9'
}

/// The value of a string of decimal digits.
pub open spec fn digits_value(s: Seq<char>) -> nat
    decreases s.len(),
{
    if s.len() == 0 {
        0
    } else {
        digits_value(s.drop_last()) * 10 + ((s.last() as nat) - 48) as nat
    }
}

/// `s` without one leading `+`.
pub open spec fn unsigned_digits(s: Seq<char>) -> Seq<char> {
    if s.len() > 0 && s[0] == '+' {
        s.drop_first()
    } else {
        s
    }
}

/// `u32::from_str`: an optional `+`, then one or more ASCII digits whose
/// value fits in `u32`.
pub open spec fn parse_u32_spec(s: Seq<char>) -> Option<u32> {
    let d = unsigned_digits(s);
    if d.len() > 0 && (forall|i: int| 0 <= i < d.len() ==> is_digit(d[i])) && digits_value(d)
        <= u32::MAX {
        Some(digits_value(d) as u32)
    } else {
        None
    }
}

proof fn lemma_digits_mono(s: Seq<char>, k: int)
    requires
        0 <= k <= s.len(),
        forall|i: int| 0 <= i < s.len() ==> is_digit(s[i]),
    ensures
        digits_value(s.take(k)) <= digits_value(s),
    decreases s.len() - k,
{
    if k < s.len() {
        lemma_digits_mono(s, k + 1);
        assert(s.take(k + 1).drop_last() =~= s.take(k));
        assert(s.take(k + 1).last() == s[k]);
    } else {
        assert(s.take(k) =~= s);
    }
}

/// Parse `s` as a `u32` the way `str::parse::<u32>` does.
pub fn parse_u32(s: &str) -> (r: Option<u32>)
    ensures
        r == parse_u32_spec(s@),
{
    let cs = chars_of(s);
    let start: usize = if cs.len() > 0 && cs[0] == '+' {
        1
    } else {
        0
    };
    let ghost d = unsigned_digits(s@);
    assert(d =~= cs@.skip(start as int));
    if start >= cs.len() {
        return None;
    }
    let mut acc: u64 = 0;
    let mut overflow = false;
    let mut i = start;
    while i < cs.len()
        invariant
            start <= i <= cs.len(),
            d == cs@.skip(start as int),
            d == unsigned_digits(s@),
            forall|j: int| 0 <= j < i - start ==> is_digit(d[j]),
            !overflow ==> acc == digits_value(d.take(i - start)) && acc <= u32::MAX,
            overflow ==> digits_value(d.take(i - start)) > u32::MAX,
        decreases cs.len() - i,
    {
        let c = cs[i];
        if c < '0' || c > '9' {
            assert(!is_digit(d[i - start]));
            assert(!(forall|j: int| 0 <= j < d.len() ==> is_digit(d[j])));
            return None;
        }
        proof {
            assert(d.take(i - start + 1).drop_last() =~= d.take(i - start));
            assert(d.take(i - start + 1).last() == c);
        }
        if !overflow {
            let v = acc * 10 + ((c as u32) - 48) as u64;
            if v > 0xffff_ffffu64 {
                overflow = true;
            } else {
                acc = v;
            }
        }
        i = i + 1;
    }
    assert(d.take(d.len() as int) =~= d);
    proof {
        if overflow {
            lemma_digits_mono(d, d.len() as int);
        }
    }
    if overflow {
        None
    } else {
        Some(acc as u32)
    }
}


/// `usize::from_str`: an optional `+`, then one or more ASCII digits whose
/// value fits in `usize`.
pub open spec fn parse_usize_spec(s: Seq<char>) -> Option<usize> {
    let d = unsigned_digits(s);
    if d.len() > 0 && (forall|i: int| 0 <= i < d.len() ==> is_digit(d[i])) && digits_value(d)
        <= usize::MAX {
        Some(digits_value(d) as usize)
    } else {
        None
    }
}

/// Parse `s` as a `usize` the way `str::parse::<usize>` does.
pub fn parse_usize(s: &str) -> (r: Option<usize>)
    ensures
        r == parse_usize_spec(s@),
{
    let cs = chars_of(s);
    let start: usize = if cs.len() > 0 && cs[0] == '+' {
        1
    } else {
        0
    };
    let ghost d = unsigned_digits(s@);
    assert(d =~= cs@.skip(start as int));
    if start >= cs.len() {
        return None;
    }
    let mut acc: u128 = 0;
    let mut overflow = false;
    let mut i = start;
    while i < cs.len()
        invariant
            start <= i <= cs.len(),
            d == cs@.skip(start as int),
            d == unsigned_digits(s@),
            forall|j: int| 0 <= j < i - start ==> is_digit(d[j]),
            !overflow ==> acc == digits_value(d.take(i - start)) && acc <= usize::MAX,
            overflow ==> digits_value(d.take(i - start)) > usize::MAX,
        decreases cs.len() - i,
    {
        let c = cs[i];
        if c < '0' || c > '9' {
            assert(!is_digit(d[i - start]));
            assert(!(forall|j: int| 0 <= j < d.len() ==> is_digit(d[j])));
            return None;
        }
        proof {
            assert(d.take(i - start + 1).drop_last() =~= d.take(i - start));
            assert(d.take(i - start + 1).last() == c);
        }
        if !overflow {
            let v = acc * 10 + ((c as u32) - 48) as u128;
            if v > usize::MAX as u128 {
                overflow = true;
            } else {
                acc = v;
            }
        }
        i = i + 1;
    }
    assert(d.take(d.len() as int) =~= d);
    proof {
        if overflow {
            lemma_digits_mono(d, d.len() as int);
        }
    }
    if overflow {
        None
    } else {
        Some(acc as usize)
    }
}


/// Whether the byte at offset `off` of `text` is a line feed.
pub fn byte_is_newline(text: &str, off: usize) -> (b: bool)
    requires
        utf8_len(text@) <= usize::MAX,
    ensures
        b == (off < utf8_len(text@) && text.spec_bytes()[off as int] == 10),
{
    proof {
        lemma_utf8_len_encode(text@);
        assert(text.spec_bytes() == vstd::utf8::encode_utf8(text@));
    }
    let n = text.len();
    if off < n {
        let bytes = text.as_bytes();
        bytes[off] == 10u8
    } else {
        false
    }
}

/// Whether `k` is one of the strings of `seen`.
pub fn strings_contain(seen: &Vec<String>, k: &str) -> (b: bool)
    ensures
        b == seen@.map_values(|s: String| s@).contains(k@),
{
    let ghost sv = seen@.map_values(|s: String| s@);
    let mut i: usize = 0;
    while i < seen.len()
        invariant
            i <= seen@.len(),
            sv == seen@.map_values(|s: String| s@),
            forall|j: int| 0 <= j < i ==> sv[j] != k@,
        decreases seen.len() - i,
    {
        if str_eq(seen[i].as_str(), k) {
            proof {
                assert(sv[i as int] == k@);
            }
            return true;
        }
        i = i + 1;
    }
    false
}

} // verus!
