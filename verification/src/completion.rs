//! Completion helpers: the citation key being typed before the cursor,
//! prefix matching of candidates, file extension filters, and the path
//! being typed inside a link destination or a shortcode's path argument.

use vstd::prelude::*;
use crate::locate::{find_node_at_offset, node_at_offset};
use crate::shortcode::{
    shortcode_token_value_span, shortcode_tokens, shortcode_tokens_spec, token_is_named,
    token_is_named_spec, value_span_spec,
};
use crate::syntax::{ElementView, SyntaxKind, SyntaxTree, first_child_node, nearest_of_kind};
use crate::text::{
    ascii_lower, byte_slice, char_ascii_lower, char_index_at, char_index_of_byte, chars_of,
    contains_seq, is_ws, is_whitespace, slice_bytes, spec_to_lowercase, str_eq, str_to_lowercase,
    string_from_chars, utf8_len,
    vec_contains, vec_find_char, vec_slice,
};

verus! {

/// The nearest character boundary of `s` at or before byte offset `b`
/// (0 at the latest).
pub open spec fn floor_boundary(s: Seq<char>, b: int) -> int
    decreases b,
{
    if b <= 0 {
        0
    } else if char_index_at(s, b) is Some {
        b
    } else {
        floor_boundary(s, b - 1)
    }
}

/// The index of the last `c` in `s`.
pub open spec fn last_index_of(s: Seq<char>, c: char) -> Option<int>
    decreases s.len(),
{
    if s.len() == 0 {
        None
    } else if s.last() == c {
        Some(s.len() - 1)
    } else {
        last_index_of(s.drop_last(), c)
    }
}

/// A character of a citation key being typed: an ASCII letter or digit,
/// `-`, `_`, `:` or `.`.
pub open spec fn is_key_char(c: char) -> bool {
    ('a' <= c <= 'z') || ('A' <= c <= 'Z') || ('0' <= c <= '9') || c == '-' || c == '_' || c == ':'
        || c == '.'
}

/// Every character of `q` is a citation key character.
pub open spec fn all_key_chars(q: Seq<char>) -> bool {
    forall|i: int| 0 <= i < q.len() ==> is_key_char(#[trigger] q[i])
}

/// The citation key typed before byte offset `offset`: look back at most
/// eight bytes (from a character boundary) for the last `@`; what follows
/// it up to the cursor is the query when it is made of key characters.
/// None when the cursor is not on a character boundary, when there is no
/// `@` in that window, or when the query has other characters.
pub open spec fn citation_query_spec(s: Seq<char>, offset: int) -> Option<Seq<char>> {
    let start = floor_boundary(s, if offset >= 8 {
        offset - 8
    } else {
        0
    });
    match byte_slice(s, start, offset) {
        None => None,
        Some(snippet) => match last_index_of(snippet, '@') {
            None => None,
            Some(at) => {
                let query = snippet.skip(at + 1);
                if all_key_chars(query) {
                    Some(query)
                } else {
                    None
                }
            },
        },
    }
}

/// The text after the last `@` among the (at most eight) bytes before
/// `offset`, the window starting on a character boundary.
pub open spec fn after_last_at(s: Seq<char>, offset: int) -> Option<Seq<char>> {
    let start = floor_boundary(s, if offset >= 8 {
        offset - 8
    } else {
        0
    });
    match byte_slice(s, start, offset) {
        None => None,
        Some(snippet) => match last_index_of(snippet, '@') {
            None => None,
            Some(at) => Some(snippet.skip(at + 1)),
        },
    }
}

/// The query is the text after the last `@` in the look-back window,
/// exactly when that text is made of ASCII letters and digits, `-`, `_`,
/// `:` and `.` (so cross-reference keys such as `fig-a` complete); a query
/// never holds another character.
pub proof fn lemma_citation_query_chars(s: Seq<char>, offset: int)
    ensures
        citation_query_spec(s, offset) matches Some(q) ==> after_last_at(s, offset) == Some(q)
            && forall|i: int|
            0 <= i < q.len() ==> {
                let c = #[trigger] q[i];
                ('a' <= c <= 'z') || ('A' <= c <= 'Z') || ('0' <= c <= '9') || c == '-' || c == '_'
                    || c == ':' || c == '.'
            },
        after_last_at(s, offset) matches Some(q) ==> ((forall|i: int|
            0 <= i < q.len() ==> {
                let c = #[trigger] q[i];
                ('a' <= c <= 'z') || ('A' <= c <= 'Z') || ('0' <= c <= '9') || c == '-' || c == '_'
                    || c == ':' || c == '.'
            }) ==> citation_query_spec(s, offset) == Some(q)),
{
    if after_last_at(s, offset) is Some {
        let q = after_last_at(s, offset)->0;
        if forall|i: int|
            0 <= i < q.len() ==> {
                let c = #[trigger] q[i];
                ('a' <= c <= 'z') || ('A' <= c <= 'Z') || ('0' <= c <= '9') || c == '-' || c == '_'
                    || c == ':' || c == '.'
            } {
            assert forall|i: int| 0 <= i < q.len() implies is_key_char(#[trigger] q[i]) by {
                let c = q[i];
            }
            assert(all_key_chars(q));
        }
    }
}

/// The citation key typed before the cursor (see [`citation_query_spec`]).
pub fn citation_query_prefix(text: &str, offset: usize) -> (r: Option<String>)
    requires
        utf8_len(text@) <= usize::MAX,
    ensures
        match r {
            Some(q) => citation_query_spec(text@, offset as int) == Some(q@),
            None => citation_query_spec(text@, offset as int) is None,
        },
{
    let cs = chars_of(text);
    let mut start: usize = if offset >= 8 {
        offset - 8
    } else {
        0
    };
    let ghost first = start as int;
    while start > 0 && char_index_of_byte(&cs, start).is_none()
        invariant
            cs@ == text@,
            utf8_len(text@) <= usize::MAX,
            floor_boundary(text@, first) == floor_boundary(text@, start as int),
        decreases start,
    {
        start = start - 1;
    }
    let snippet = match slice_bytes(&cs, start, offset) {
        Some(v) => v,
        None => {
            return None;
        },
    };
    let mut k = snippet.len();
    assert(snippet@.take(k as int) =~= snippet@);
    while k > 0 && snippet[k - 1] != '@'
        invariant
            k <= snippet@.len(),
            last_index_of(snippet@, '@') == last_index_of(snippet@.take(k as int), '@'),
        decreases k,
    {
        assert(snippet@.take(k as int).drop_last() =~= snippet@.take(k - 1));
        k = k - 1;
    }
    if k == 0 {
        assert(snippet@.take(0) =~= Seq::<char>::empty());
        return None;
    }
    assert(snippet@.take(k as int).last() == '@');
    let at = k - 1;
    let query = vec_slice(&snippet, at + 1, snippet.len());
    assert(query@ =~= snippet@.skip(at + 1));
    assert(floor_boundary(text@, first) == start);
    assert(byte_slice(text@, start as int, offset as int) == Some(snippet@));
    assert(last_index_of(snippet@.take(k as int), '@') == Some(at as int));
    assert(last_index_of(snippet@, '@') == Some(at as int));
    let ghost spec_result = citation_query_spec(text@, offset as int);
    assert(spec_result == if all_key_chars(query@) {
        Some(query@)
    } else {
        None::<Seq<char>>
    });
    let mut i: usize = 0;
    while i < query.len()
        invariant
            i <= query@.len(),
            forall|j: int| 0 <= j < i ==> is_key_char(#[trigger] query@[j]),
            spec_result == citation_query_spec(text@, offset as int),
            spec_result == if all_key_chars(query@) {
                Some(query@)
            } else {
                None::<Seq<char>>
            },
        decreases query.len() - i,
    {
        let c = query[i];
        let ok = ('a' <= c && c <= 'z') || ('A' <= c && c <= 'Z') || ('0' <= c && c <= '9') || c
            == '-' || c == '_' || c == ':' || c == '.';
        if !ok {
            assert(!is_key_char(query@[i as int]));
            return None;
        }
        i = i + 1;
    }
    Some(string_from_chars(&query))
}

/// `candidate` begins with `query`, ignoring ASCII case; an empty query
/// matches everything.
pub open spec fn matches_query_spec(candidate: Seq<char>, query: Seq<char>) -> bool {
    query.len() == 0 || (query.len() <= candidate.len() && forall|i: int|
        0 <= i < query.len() ==> ascii_lower(#[trigger] candidate[i]) == ascii_lower(query[i]))
}

/// Whether a completion candidate matches what was typed (see
/// [`matches_query_spec`]).
pub fn matches_query(candidate: &str, query: &str) -> (b: bool)
    ensures
        b == matches_query_spec(candidate@, query@),
{
    let q = chars_of(query);
    if q.len() == 0 {
        return true;
    }
    let c = chars_of(candidate);
    if q.len() > c.len() {
        return false;
    }
    let mut i: usize = 0;
    while i < q.len()
        invariant
            i <= q@.len() <= c@.len(),
            q@ == query@,
            c@ == candidate@,
            forall|j: int| 0 <= j < i ==> ascii_lower(#[trigger] c@[j]) == ascii_lower(q@[j]),
        decreases q.len() - i,
    {
        if char_ascii_lower(c[i]) != char_ascii_lower(q[i]) {
            return false;
        }
        i = i + 1;
    }
    true
}

/// The extension of a file name (after its last `.`), ASCII-lowercased.
pub open spec fn extension_of(name: Seq<char>) -> Option<Seq<char>> {
    match last_index_of(name, '.') {
        Some(d) => Some(name.skip(d + 1).map_values(|c: char| ascii_lower(c))),
        None => None,
    }
}

/// Whether the file name has one of the `allowed` (lowercase) extensions.
pub fn has_extension(name: &str, allowed: &[&str]) -> (b: bool)
    ensures
        b == match extension_of(name@) {
            Some(e) => exists|k: int| 0 <= k < allowed@.len() && allowed@[k]@ == e,
            None => false,
        },
{
    let cs = chars_of(name);
    let mut k = cs.len();
    assert(cs@.take(k as int) =~= cs@);
    while k > 0 && cs[k - 1] != '.'
        invariant
            k <= cs@.len(),
            cs@ == name@,
            last_index_of(cs@, '.') == last_index_of(cs@.take(k as int), '.'),
        decreases k,
    {
        assert(cs@.take(k as int).drop_last() =~= cs@.take(k - 1));
        k = k - 1;
    }
    if k == 0 {
        assert(cs@.take(0) =~= Seq::<char>::empty());
        return false;
    }
    assert(cs@.take(k as int).last() == '.');
    let mut ext: Vec<char> = Vec::new();
    let mut i = k;
    while i < cs.len()
        invariant
            k <= i <= cs@.len(),
            ext@ == cs@.subrange(k as int, i as int).map_values(|c: char| ascii_lower(c)),
        decreases cs.len() - i,
    {
        ext.push(char_ascii_lower(cs[i]));
        i = i + 1;
        assert(ext@ =~= cs@.subrange(k as int, i as int).map_values(|c: char| ascii_lower(c)));
    }
    assert(cs@.subrange(k as int, cs@.len() as int) =~= cs@.skip(k as int));
    let ext_s = string_from_chars(&ext);
    let mut j: usize = 0;
    while j < allowed.len()
        invariant
            j <= allowed@.len(),
            ext_s@ == extension_of(name@)->0,
            extension_of(name@) is Some,
            forall|m: int| 0 <= m < j ==> allowed@[m]@ != ext_s@,
        decreases allowed.len() - j,
    {
        if str_eq(allowed[j], ext_s.as_str()) {
            return true;
        }
        j = j + 1;
    }
    false
}

/// A shortcode whose first positional argument is a path.
#[derive(Clone, Copy, Debug, PartialEq, Eq, Structural)]
pub enum ShortcodeKind {
    Include,
    Embed,
    Video,
    Placeholder,
}

/// The path shortcode named `name`.
pub open spec fn shortcode_kind_of(name: Seq<char>) -> Option<ShortcodeKind> {
    if name == "include"@ {
        Some(ShortcodeKind::Include)
    } else if name == "embed"@ {
        Some(ShortcodeKind::Embed)
    } else if name == "video"@ {
        Some(ShortcodeKind::Video)
    } else if name == "placeholder"@ {
        Some(ShortcodeKind::Placeholder)
    } else {
        None
    }
}

/// Still-image extensions accepted by image syntax.
pub open spec fn still_image_exts() -> Seq<Seq<char>> {
    seq![
        "png"@,
        "jpg"@,
        "jpeg"@,
        "gif"@,
        "apng"@,
        "webp"@,
        "avif"@,
        "bmp"@,
        "tif"@,
        "tiff"@,
        "heic"@,
        "heif"@,
        "jxl"@,
        "ico"@,
        "svg"@,
        "pdf"@,
        "eps"@,
        "ps"@,
    ]
}

/// Video container extensions that can be embedded directly.
pub open spec fn video_exts() -> Seq<Seq<char>> {
    seq![
        "mp4"@,
        "webm"@,
        "ogv"@,
        "mov"@,
        "m4v"@,
        "mkv"@,
        "avi"@,
        "flv"@,
        "mpeg"@,
        "mpg"@,
        "3gp"@,
    ]
}

/// Extensions accepted by `include`: Markdown documents and scripts.
pub open spec fn include_exts() -> Seq<Seq<char>> {
    seq!["qmd"@, "md"@, "markdown"@, "rmd"@, "rmarkdown"@, "ipynb"@, "r"@, "py"@, "jl"@]
}

/// Extensions accepted by `embed`: notebooks and Quarto documents.
pub open spec fn embed_exts() -> Seq<Seq<char>> {
    seq!["ipynb"@, "qmd"@]
}

/// The views of a list of string slices.
pub open spec fn str_views(v: Seq<&str>) -> Seq<Seq<char>> {
    v.map_values(|s: &str| s@)
}

/// Still-image extensions (see [`still_image_exts`]).
pub fn still_image_extensions() -> (r: [&'static str; 18])
    ensures
        str_views(r@) == still_image_exts(),
{
    let r = [
        "png", "jpg", "jpeg", "gif", "apng", "webp", "avif", "bmp", "tif", "tiff", "heic", "heif",
        "jxl", "ico", "svg", "pdf", "eps", "ps",
    ];
    assert(str_views(r@) =~= still_image_exts());
    r
}

/// Video container extensions (see [`video_exts`]).
pub fn video_extensions() -> (r: [&'static str; 11])
    ensures
        str_views(r@) == video_exts(),
{
    let r = ["mp4", "webm", "ogv", "mov", "m4v", "mkv", "avi", "flv", "mpeg", "mpg", "3gp"];
    assert(str_views(r@) =~= video_exts());
    r
}

/// Extensions accepted by `include` (see [`include_exts`]).
pub fn include_extensions() -> (r: [&'static str; 9])
    ensures
        str_views(r@) == include_exts(),
{
    let r = ["qmd", "md", "markdown", "rmd", "rmarkdown", "ipynb", "r", "py", "jl"];
    assert(str_views(r@) =~= include_exts());
    r
}

/// Extensions accepted by `embed` (see [`embed_exts`]).
pub fn embed_extensions() -> (r: [&'static str; 2])
    ensures
        str_views(r@) == embed_exts(),
{
    let r = ["ipynb", "qmd"];
    assert(str_views(r@) =~= embed_exts());
    r
}

/// The file name's (lowercased) extension is one of `exts`.
pub open spec fn has_ext_in(name: Seq<char>, exts: Seq<Seq<char>>) -> bool {
    match extension_of(name) {
        Some(e) => exts.contains(e),
        None => false,
    }
}

/// The extensions a path shortcode's argument may have.
pub open spec fn kind_exts(kind: ShortcodeKind) -> Seq<Seq<char>> {
    match kind {
        ShortcodeKind::Include => include_exts(),
        ShortcodeKind::Embed => embed_exts(),
        ShortcodeKind::Video => video_exts(),
        ShortcodeKind::Placeholder => still_image_exts(),
    }
}

/// `has_extension` over a list, stated over the list's views.
pub(crate) fn has_extension_in(name: &str, allowed: &[&str]) -> (b: bool)
    ensures
        b == has_ext_in(name@, str_views(allowed@)),
{
    let b = has_extension(name, allowed);
    proof {
        let sv = str_views(allowed@);
        match extension_of(name@) {
            Some(e) => {
                if b {
                    let k = choose|k: int| 0 <= k < allowed@.len() && allowed@[k]@ == e;
                    assert(sv[k] == e);
                }
                if sv.contains(e) {
                    let k = choose|k: int| 0 <= k < sv.len() && sv[k] == e;
                    assert(allowed@[k]@ == e);
                }
            },
            None => {},
        }
    }
    b
}

impl ShortcodeKind {
    /// The path shortcode named `name`, if it is one.
    pub fn from_name(name: &str) -> (r: Option<ShortcodeKind>)
        ensures
            r == shortcode_kind_of(name@),
    {
        if str_eq(name, "include") {
            Some(ShortcodeKind::Include)
        } else if str_eq(name, "embed") {
            Some(ShortcodeKind::Embed)
        } else if str_eq(name, "video") {
            Some(ShortcodeKind::Video)
        } else if str_eq(name, "placeholder") {
            Some(ShortcodeKind::Placeholder)
        } else {
            None
        }
    }

    /// Whether a file named `file_name` fits this shortcode's path argument,
    /// by its extension.
    pub fn accepts(self, file_name: &str) -> (b: bool)
        ensures
            b == has_ext_in(file_name@, kind_exts(self)),
    {
        match self {
            ShortcodeKind::Include => has_extension_in(file_name, &include_extensions()),
            ShortcodeKind::Embed => has_extension_in(file_name, &embed_extensions()),
            ShortcodeKind::Video => has_extension_in(file_name, &video_extensions()),
            ShortcodeKind::Placeholder => has_extension_in(file_name, &still_image_extensions()),
        }
    }
}

/// The index of the first token whose range holds `rel` (ends included).
pub open spec fn active_token(tokens: Seq<(usize, usize)>, rel: int) -> Option<int>
    decreases tokens.len(),
{
    if tokens.len() == 0 {
        None
    } else {
        match active_token(tokens.drop_last(), rel) {
            Some(i) => Some(i),
            None => if tokens.last().0 <= rel <= tokens.last().1 {
                Some(tokens.len() - 1)
            } else {
                None
            },
        }
    }
}

/// How many of the first `n` tokens are positional (not `key=value`).
pub open spec fn positional_count(content: Seq<char>, tokens: Seq<(usize, usize)>, n: int) -> nat
    decreases n,
{
    if n <= 0 {
        0
    } else {
        positional_count(content, tokens, n - 1) + if token_is_named_spec(content, tokens[n - 1]) {
            0nat
        } else {
            1nat
        }
    }
}

/// The path argument being typed at byte `rel` of a shortcode's content:
/// the shortcode must be a path shortcode (by the value of its first
/// token), the cursor must be on (or, between tokens, start) its first
/// positional argument after the name, inside the argument's value; the
/// prefix is the value up to the cursor, and must not be a URL (nor, for
/// `embed`, hold a cell id after `#`).
pub open spec fn shortcode_arg_spec(content: Seq<char>, rel: int) -> Option<(ShortcodeKind, Seq<char>)> {
    let tokens = shortcode_tokens_spec(content);
    match shortcode_name_kind(content, tokens) {
        None => None,
        Some(kind) => match path_arg_prefix(content, tokens, rel, kind) {
            None => None,
            Some(prefix) => Some((kind, prefix)),
        },
    }
}

/// The path shortcode named by the value of the first token.
pub open spec fn shortcode_name_kind(content: Seq<char>, tokens: Seq<(usize, usize)>) -> Option<ShortcodeKind> {
    if tokens.len() == 0 {
        None
    } else {
        match value_span_spec(content, tokens[0]) {
            None => None,
            Some((a, b)) => match byte_slice(content, a as int, b as int) {
                None => None,
                Some(name) => shortcode_kind_of(name),
            },
        }
    }
}

/// The token the cursor at `rel` is on, with its index: the first token
/// holding `rel`, or an empty token at `rel` (at most the content's end)
/// that would start a new argument after all others.
pub open spec fn cursor_token(content: Seq<char>, tokens: Seq<(usize, usize)>, rel: int) -> ((usize, usize), int) {
    let len = utf8_len(content) as int;
    let at = if rel <= len {
        rel
    } else {
        len
    };
    match active_token(tokens, rel) {
        Some(i) => (tokens[i], i),
        None => ((at as usize, at as usize), tokens.len() as int),
    }
}

/// The prefix of the path argument typed at `rel` (see
/// [`shortcode_arg_spec`]).
pub open spec fn path_arg_prefix(content: Seq<char>, tokens: Seq<(usize, usize)>, rel: int, kind: ShortcodeKind) -> Option<Seq<char>> {
    let (tok, idx) = cursor_token(content, tokens, rel);
    if idx == 0 || token_is_named_spec(content, tok) || positional_count(content, tokens, idx) != 1 {
        None
    } else {
        let vs = if tok.0 == tok.1 {
            Some(tok)
        } else {
            value_span_spec(content, tok)
        };
        match vs {
            None => None,
            Some((v0, v1)) => if rel < v0 || rel > v1 {
                None
            } else {
                match byte_slice(content, v0 as int, rel) {
                    None => None,
                    Some(prefix) => if contains_seq(prefix, "://"@) {
                        None
                    } else if kind == ShortcodeKind::Embed && prefix.contains('#') {
                        None
                    } else {
                        Some(prefix)
                    },
                }
            },
        }
    }
}

/// The path argument being typed in a shortcode.
pub struct ShortcodeArgContext {
    pub kind: ShortcodeKind,
    pub prefix: String,
}

/// The path argument being typed at byte `rel` of shortcode content
/// `content` (see [`shortcode_arg_spec`]).
pub fn shortcode_arg_in_content(content: &str, rel: usize) -> (r: Option<ShortcodeArgContext>)
    requires
        utf8_len(content@) < usize::MAX,
    ensures
        match shortcode_arg_spec(content@, rel as int) {
            Some((kind, prefix)) => r matches Some(ctx) && ctx.kind == kind && ctx.prefix@ == prefix,
            None => r is None,
        },
{
    let tokens = shortcode_tokens(content);
    let kind = match name_kind(content, &tokens) {
        Some(k) => k,
        None => {
            return None;
        },
    };
    match arg_prefix(content, &tokens, rel, kind) {
        Some(prefix) => Some(ShortcodeArgContext { kind, prefix }),
        None => None,
    }
}

/// The path shortcode named by the first token (see
/// [`shortcode_name_kind`]).
fn name_kind(content: &str, tokens: &Vec<(usize, usize)>) -> (r: Option<ShortcodeKind>)
    requires
        utf8_len(content@) < usize::MAX,
    ensures
        r == shortcode_name_kind(content@, tokens@),
{
    if tokens.len() == 0 {
        return None;
    }
    let cs = chars_of(content);
    let (a, b) = match shortcode_token_value_span(content, tokens[0]) {
        Some(span) => span,
        None => {
            return None;
        },
    };
    match slice_bytes(&cs, a, b) {
        Some(v) => ShortcodeKind::from_name(string_from_chars(&v).as_str()),
        None => None,
    }
}

/// The token under the cursor (see [`cursor_token`]).
fn find_cursor_token(content: &str, tokens: &Vec<(usize, usize)>, rel: usize) -> (r: ((usize, usize), usize))
    requires
        utf8_len(content@) <= usize::MAX,
    ensures
        (r.0, r.1 as int) == cursor_token(content@, tokens@, rel as int),
{
    let mut i: usize = 0;
    let mut found: Option<usize> = None;
    while i < tokens.len()
        invariant
            i <= tokens@.len(),
            found is None ==> active_token(tokens@.take(i as int), rel as int) is None,
            found matches Some(f) ==> f < i && active_token(tokens@, rel as int) == Some(f as int),
        decreases tokens.len() - i,
    {
        proof {
            assert(tokens@.take(i + 1).drop_last() =~= tokens@.take(i as int));
        }
        if found.is_none() && tokens[i].0 <= rel && rel <= tokens[i].1 {
            found = Some(i);
            proof {
                lemma_active_token_prefix(tokens@, rel as int, i + 1);
            }
        }
        i = i + 1;
    }
    proof {
        assert(tokens@.take(i as int) =~= tokens@);
    }
    let byte_len = crate::text::str_byte_len(content);
    let at = if rel <= byte_len {
        rel
    } else {
        byte_len
    };
    match found {
        Some(f) => (tokens[f], f),
        None => ((at, at), tokens.len()),
    }
}

/// The positional tokens among the first `n`.
fn count_positional(content: &str, tokens: &Vec<(usize, usize)>, n: usize) -> (count: usize)
    requires
        n <= tokens@.len(),
        utf8_len(content@) <= usize::MAX,
    ensures
        count == positional_count(content@, tokens@, n as int),
{
    let mut count: usize = 0;
    let mut q: usize = 0;
    while q < n
        invariant
            q <= n <= tokens@.len(),
            utf8_len(content@) <= usize::MAX,
            count == positional_count(content@, tokens@, q as int),
            count <= q,
        decreases n - q,
    {
        if !token_is_named(content, tokens[q]) {
            count = count + 1;
        }
        q = q + 1;
    }
    count
}

/// The prefix of the path argument typed at `rel` (see
/// [`path_arg_prefix`]).
fn arg_prefix(content: &str, tokens: &Vec<(usize, usize)>, rel: usize, kind: ShortcodeKind) -> (r: Option<String>)
    requires
        utf8_len(content@) < usize::MAX,
    ensures
        match path_arg_prefix(content@, tokens@, rel as int, kind) {
            Some(prefix) => r matches Some(p) && p@ == prefix,
            None => r is None,
        },
{
    let (tok, idx) = find_cursor_token(content, tokens, rel);
    if idx == 0 || token_is_named(content, tok) {
        return None;
    }
    proof {
        assert(idx <= tokens@.len()) by {
            if let Some(i) = active_token(tokens@, rel as int) {
                lemma_active_token_bound(tokens@, rel as int);
            }
        }
    }
    if count_positional(content, tokens, idx) != 1 {
        return None;
    }
    let (v0, v1) = if tok.0 == tok.1 {
        tok
    } else {
        match shortcode_token_value_span(content, tok) {
            Some(span) => span,
            None => {
                return None;
            },
        }
    };
    if rel < v0 || rel > v1 {
        return None;
    }
    let cs = chars_of(content);
    let prefix = match slice_bytes(&cs, v0, rel) {
        Some(v) => v,
        None => {
            return None;
        },
    };
    if vec_contains(&prefix, &chars_of("://")) {
        return None;
    }
    if kind == ShortcodeKind::Embed {
        if let Some(k) = vec_find_char(&prefix, '#') {
            proof {
                assert(prefix@[k as int] == '#');
            }
            return None;
        }
    }
    Some(string_from_chars(&prefix))
}

/// The active token is one of the tokens.
proof fn lemma_active_token_bound(tokens: Seq<(usize, usize)>, rel: int)
    ensures
        active_token(tokens, rel) matches Some(i) ==> 0 <= i < tokens.len() && tokens[i].0 <= rel
            <= tokens[i].1,
    decreases tokens.len(),
{
    if tokens.len() > 0 {
        lemma_active_token_bound(tokens.drop_last(), rel);
    }
}

/// Once a token holding `rel` is found among the first `n`, the active
/// token is fixed.
proof fn lemma_active_token_prefix(tokens: Seq<(usize, usize)>, rel: int, n: int)
    requires
        0 < n <= tokens.len(),
        active_token(tokens.take(n - 1), rel) is None,
        tokens[n - 1].0 <= rel <= tokens[n - 1].1,
    ensures
        active_token(tokens, rel) == Some(n - 1),
    decreases tokens.len() - n,
{
    if n == tokens.len() {
        assert(tokens.take(n - 1) =~= tokens.drop_last());
    } else {
        assert(tokens.drop_last().take(n - 1) =~= tokens.take(n - 1));
        assert(tokens.drop_last()[n - 1] == tokens[n - 1]);
        lemma_active_token_prefix(tokens.drop_last(), rel, n);
    }
}

/// The path argument of the shortcode around byte `offset` of `text`: the
/// node at the offset must lie in a shortcode whose content spans the
/// offset (see [`shortcode_arg_spec`] for the content).
pub open spec fn shortcode_arg_context_spec(es: Seq<ElementView>, text: Seq<char>, offset: int) -> Option<
    (ShortcodeKind, Seq<char>),
> {
    match nearest_of_kind(es, node_at_offset(es, offset), SyntaxKind::SHORTCODE) {
        None => None,
        Some(sc) => match first_child_node(es, sc, SyntaxKind::SHORTCODE_CONTENT) {
            None => None,
            Some(c) => if offset < es[c].start || offset > es[c].end {
                None
            } else {
                match byte_slice(text, es[c].start, es[c].end) {
                    None => None,
                    Some(content) => shortcode_arg_spec(content, offset - es[c].start),
                }
            },
        },
    }
}

/// The path argument being typed at `offset` inside a shortcode (see
/// [`shortcode_arg_context_spec`]).
pub fn shortcode_arg_context(tree: &SyntaxTree, text: &str, offset: usize) -> (r: Option<ShortcodeArgContext>)
    requires
        offset <= tree@[0].end,
        utf8_len(text@) < usize::MAX,
    ensures
        match shortcode_arg_context_spec(tree@, text@, offset as int) {
            Some((kind, prefix)) => r matches Some(ctx) && ctx.kind == kind && ctx.prefix@ == prefix,
            None => r is None,
        },
{
    let start = find_node_at_offset(tree, offset);
    let sc = match tree.nearest_ancestor_of_kind(start, SyntaxKind::SHORTCODE) {
        Some(sc) => sc,
        None => {
            return None;
        },
    };
    let c = match tree.first_child_node_of(sc, SyntaxKind::SHORTCODE_CONTENT) {
        Some(c) => c,
        None => {
            return None;
        },
    };
    let (cs, ce) = (tree.start(c), tree.end(c));
    if offset < cs || offset > ce {
        return None;
    }
    let chars = chars_of(text);
    let content = match slice_bytes(&chars, cs, ce) {
        Some(v) => string_from_chars(&v),
        None => {
            return None;
        },
    };
    proof {
        crate::text::lemma_byte_slice_len(text@, cs as int, ce as int);
    }
    shortcode_arg_in_content(content.as_str(), offset - cs)
}

/// The nearest of `n` and its ancestors that is a link or an image.
pub open spec fn nearest_link(es: Seq<ElementView>, n: int) -> Option<int>
    decreases n,
{
    if n < 0 || n >= es.len() {
        None
    } else if es[n].kind == SyntaxKind::LINK || es[n].kind == SyntaxKind::IMAGE_LINK {
        Some(n)
    } else if n == 0 || es[n].parent >= n || es[n].parent < 0 {
        None
    } else {
        nearest_link(es, es[n].parent)
    }
}

/// The destination being typed at `offset`: the nearest link or image
/// around the node at the offset must have a destination spanning the
/// offset; the prefix is the destination up to the cursor, and must hold
/// no whitespace and no `"` (past them the cursor is in the title). The
/// flag tells an image from a link.
pub open spec fn link_dest_spec(es: Seq<ElementView>, text: Seq<char>, offset: int) -> Option<(bool, Seq<char>)> {
    match nearest_link(es, node_at_offset(es, offset)) {
        None => None,
        Some(l) => match first_child_node(es, l, SyntaxKind::LINK_DEST) {
            None => None,
            Some(d) => if offset < es[d].start || offset > es[d].end {
                None
            } else {
                match byte_slice(text, es[d].start, offset) {
                    None => None,
                    Some(p) => if exists|i: int| 0 <= i < p.len() && (is_ws(#[trigger] p[i]) || p[i] == '"') {
                        None
                    } else {
                        Some((es[l].kind == SyntaxKind::IMAGE_LINK, p))
                    },
                }
            },
        },
    }
}

/// Whether `p` holds whitespace or a `"`.
fn has_space_or_quote(p: &Vec<char>) -> (b: bool)
    ensures
        b == exists|i: int| 0 <= i < p@.len() && (is_ws(#[trigger] p@[i]) || p@[i] == '"'),
{
    let mut i: usize = 0;
    while i < p.len()
        invariant
            i <= p@.len(),
            forall|m: int| 0 <= m < i ==> !(is_ws(#[trigger] p@[m]) || p@[m] == '"'),
        decreases p.len() - i,
    {
        if is_whitespace(p[i]) || p[i] == '"' {
            proof {
                assert(is_ws(p@[i as int]) || p@[i as int] == '"');
            }
            return true;
        }
        i = i + 1;
    }
    false
}

/// Whether element `n` is a link or an image.
fn is_link_node(tree: &SyntaxTree, n: usize) -> (b: bool)
    requires
        n < tree@.len(),
    ensures
        b == (tree@[n as int].kind == SyntaxKind::LINK || tree@[n as int].kind == SyntaxKind::IMAGE_LINK),
{
    let k = tree.kind(n);
    k == SyntaxKind::LINK || k == SyntaxKind::IMAGE_LINK
}

/// The destination being typed inside a link or image.
pub struct LinkDestContext {
    pub is_image: bool,
    pub prefix: String,
}

/// The destination being typed at `offset` (see [`link_dest_spec`]).
pub fn link_dest_context(tree: &SyntaxTree, text: &str, offset: usize) -> (r: Option<LinkDestContext>)
    requires
        offset <= tree@[0].end,
        utf8_len(text@) <= usize::MAX,
    ensures
        match link_dest_spec(tree@, text@, offset as int) {
            Some((is_image, prefix)) => r matches Some(ctx) && ctx.is_image == is_image && ctx.prefix@
                == prefix,
            None => r is None,
        },
{
    let _ = tree.len();
    let mut n = find_node_at_offset(tree, offset);
    let ghost start = n as int;
    while !is_link_node(tree, n)
        invariant
            n < tree@.len(),
            crate::syntax::wf(tree@),
            nearest_link(tree@, start) == nearest_link(tree@, n as int),
            start == node_at_offset(tree@, offset as int),
        decreases n,
    {
        match tree.parent(n) {
            Some(p) => {
                proof {
                    assert(0 <= tree@[n as int].parent < n);
                }
                n = p;
            },
            None => {
                return None;
            },
        }
    }
    let l = n;
    let d = match tree.first_child_node_of(l, SyntaxKind::LINK_DEST) {
        Some(d) => d,
        None => {
            return None;
        },
    };
    let (ds, de) = (tree.start(d), tree.end(d));
    if offset < ds || offset > de {
        return None;
    }
    let chars = chars_of(text);
    let p = match slice_bytes(&chars, ds, offset) {
        Some(v) => v,
        None => {
            return None;
        },
    };
    if has_space_or_quote(&p) {
        return None;
    }
    Some(LinkDestContext { is_image: tree.kind(l) == SyntaxKind::IMAGE_LINK, prefix: string_from_chars(&p) })
}

/// A completion candidate for the citation being typed.
pub enum LabelCandidate {
    /// A bibliography entry, by its key.
    Citation(String),
    /// An inline reference: its key in the reference map and its id.
    Inline(String, String),
    /// A cross-reference label, as displayed.
    Crossref(String),
}

/// The key under which a candidate is deduplicated, or none when the
/// candidate is dropped before deduplication (an empty cross-reference
/// label): bibliography keys and cross-reference labels by their lowercase
/// form, inline references by their map key.
pub open spec fn dedup_key(c: LabelCandidate) -> Option<Seq<char>> {
    match c {
        LabelCandidate::Citation(k) => Some(spec_to_lowercase(k@)),
        LabelCandidate::Inline(k, _) => Some(k@),
        LabelCandidate::Crossref(d) => if d@.len() == 0 {
            None
        } else {
            Some(spec_to_lowercase(d@))
        },
    }
}

/// The label a candidate is offered under.
pub open spec fn candidate_label(c: LabelCandidate) -> Seq<char> {
    match c {
        LabelCandidate::Citation(k) => k@,
        LabelCandidate::Inline(_, id) => id@,
        LabelCandidate::Crossref(d) => d@,
    }
}

/// The keys seen and the labels offered after the first `n` candidates:
/// a candidate whose key was seen is skipped; otherwise its key is
/// recorded (whether or not it matches) and its label is offered when it
/// matches the query.
pub open spec fn collect_labels_spec(cands: Seq<LabelCandidate>, query: Seq<char>, n: int) -> (Seq<Seq<char>>, Seq<Seq<char>>)
    decreases n,
{
    if n <= 0 {
        (seq![], seq![])
    } else {
        let (seen, labels) = collect_labels_spec(cands, query, n - 1);
        match dedup_key(cands[n - 1]) {
            None => (seen, labels),
            Some(k) => if seen.contains(k) {
                (seen, labels)
            } else {
                let l = candidate_label(cands[n - 1]);
                (seen.push(k), if matches_query_spec(l, query) {
                    labels.push(l)
                } else {
                    labels
                })
            },
        }
    }
}

/// The completion labels for the citation being typed (see
/// [`collect_labels_spec`]).
pub fn collect_completion_labels(cands: &Vec<LabelCandidate>, query: &str) -> (labels: Vec<String>)
    ensures
        labels@.map_values(|s: String| s@) == collect_labels_spec(cands@, query@, cands@.len() as int).1,
{
    let mut seen: Vec<String> = Vec::new();
    let mut labels: Vec<String> = Vec::new();
    let mut i: usize = 0;
    while i < cands.len()
        invariant
            i <= cands@.len(),
            (seen@.map_values(|s: String| s@), labels@.map_values(|s: String| s@)) == collect_labels_spec(
                cands@,
                query@,
                i as int,
            ),
        decreases cands.len() - i,
    {
        let (key, label) = match &cands[i] {
            LabelCandidate::Citation(k) => (Some(str_to_lowercase(k.as_str())), k.clone()),
            LabelCandidate::Inline(k, id) => (Some(k.clone()), id.clone()),
            LabelCandidate::Crossref(d) => (if chars_of(d.as_str()).len() == 0 {
                None
            } else {
                Some(str_to_lowercase(d.as_str()))
            }, d.clone()),
        };
        proof {
            assert(key matches Some(k) ==> dedup_key(cands@[i as int]) == Some(k@));
            assert(key is None ==> dedup_key(cands@[i as int]) is None);
            assert(label@ == candidate_label(cands@[i as int]));
        }
        match key {
            Some(k) => {
                if !crate::text::strings_contain(&seen, k.as_str()) {
                    let ghost sv = seen@.map_values(|s: String| s@);
                    let ghost lv = labels@.map_values(|s: String| s@);
                    let m = matches_query(label.as_str(), query);
                    seen.push(k);
                    assert(seen@.map_values(|s: String| s@) =~= sv.push(key->0@));
                    if m {
                        labels.push(label);
                        assert(labels@.map_values(|s: String| s@) =~= lv.push(candidate_label(cands@[i as int])));
                    }
                }
            },
            None => {},
        }
        i = i + 1;
    }
    labels
}

} // verus!
