//! Link targets as URIs: what a link destination points at (a URI, an
//! email address, a fragment of the current document, or a file), file
//! paths as `file:` URIs, and fragments appended to URIs. Parsing a URI is
//! the `lsp_types` parser's work.

use vstd::prelude::*;
use crate::links::{fragment_split, looks_like_email, looks_like_email_spec, looks_like_uri_scheme,
    looks_like_uri_scheme_spec, split_fragment,
};
use crate::text::{
    ascii_lower, char_ascii_lower, chars_of, push_char, push_chars, string_from_chars, trim_ws,
    utf8_len, vec_slice, vec_trim,
};
use vstd::string::StringExecFns;
use vstd::utf8::encode_utf8;
use vstd::string::StringSliceAdditionalSpecFns;

verus! {

/// Name for whether `lsp_types::Uri` accepts a string: its parser checks
/// the RFC 3986 grammar of a URI reference.
pub uninterp spec fn uri_parses(s: Seq<char>) -> bool;

/// `<lsp_types::Uri as FromStr>::from_str`, handing back the text of the
/// parsed URI. The parser only validates: the parsed URI's text is the
/// input itself. Whether it accepts is only named (see [`uri_parses`]).
/// It panics on input longer than `i32::MAX` bytes, which `requires`
/// leaves out.
#[verifier::external_body]
fn parse_uri(s: &str) -> (r: Option<String>)
    requires
        utf8_len(s@) <= i32::MAX,
    ensures
        r is Some <==> uri_parses(s@),
        r matches Some(t) ==> t@ == s@,
{
    match s.parse::<lsp_types::Uri>() {
        Ok(u) => Some(u.as_str().to_string()),
        Err(_) => None,
    }
}

/// `s` with every space written as `%20`.
pub open spec fn escape_spaces(s: Seq<char>) -> Seq<char>
    decreases s.len(),
{
    if s.len() == 0 {
        seq![]
    } else {
        escape_spaces(s.drop_last()) + if s.last() == ' ' {
            seq!['%', '2', '0']
        } else {
            seq![s.last()]
        }
    }
}

/// The URI `uri#fragment`, spaces in the fragment written `%20`.
pub open spec fn with_fragment_text(uri: Seq<char>, fragment: Seq<char>) -> Seq<char> {
    uri + seq!['#'] + escape_spaces(fragment)
}

/// Append a fragment to a URI: `uri#fragment`, with the fragment's spaces
/// escaped; none when the result does not parse as a URI.
pub fn with_fragment(uri: &str, fragment: &str) -> (r: Option<String>)
    requires
        utf8_len(with_fragment_text(uri@, fragment@)) <= i32::MAX,
    ensures
        r is Some <==> uri_parses(with_fragment_text(uri@, fragment@)),
        r matches Some(t) ==> t@ == with_fragment_text(uri@, fragment@),
{
    let cs = chars_of(fragment);
    let mut s = String::new();
    s.append(uri);
    push_char(&mut s, '#');
    let mut i: usize = 0;
    proof {
        assert(cs@.take(0) =~= Seq::<char>::empty());
    }
    while i < cs.len()
        invariant
            i <= cs@.len(),
            cs@ == fragment@,
            s@ == uri@ + seq!['#'] + escape_spaces(cs@.take(i as int)),
        decreases cs.len() - i,
    {
        let c = cs[i];
        proof {
            assert(cs@.take(i + 1).drop_last() =~= cs@.take(i as int));
        }
        if c == ' ' {
            push_char(&mut s, '%');
            push_char(&mut s, '2');
            push_char(&mut s, '0');
        } else {
            push_char(&mut s, c);
        }
        i = i + 1;
        assert(s@ =~= uri@ + seq!['#'] + escape_spaces(cs@.take(i as int)));
    }
    proof {
        assert(cs@.take(cs@.len() as int) =~= cs@);
    }
    parse_uri(s.as_str())
}

/// A byte kept as it is in a `file:` URI path: an ASCII letter or digit,
/// `-`, `.`, `_`, `~` or `/`.
pub open spec fn path_byte_kept(b: u8) -> bool {
    (0x30 <= b <= 0x39) || (0x41 <= b <= 0x5a) || (0x61 <= b <= 0x7a) || b == 0x2d || b == 0x2e
        || b == 0x5f || b == 0x7e || b == 0x2f
}

/// Uppercase hexadecimal digit of `d < 16`.
pub open spec fn hex_digit(d: u8) -> char {
    if d < 10 {
        ((d + 48) as u8) as char
    } else {
        ((d + 55) as u8) as char
    }
}

/// Percent-encoding of UTF-8 bytes for a URI path: kept bytes as they
/// are, every other byte as `%XX` with uppercase hex digits.
pub open spec fn percent_encoded(bytes: Seq<u8>) -> Seq<char>
    decreases bytes.len(),
{
    if bytes.len() == 0 {
        seq![]
    } else {
        let b = bytes.last();
        percent_encoded(bytes.drop_last()) + if path_byte_kept(b) {
            seq![b as char]
        } else {
            seq!['%', hex_digit(b / 16), hex_digit(b % 16)]
        }
    }
}

fn hex_digit_of(d: u8) -> (c: char)
    requires
        d < 16,
    ensures
        c == hex_digit(d),
{
    if d < 10 {
        (d + 48) as char
    } else {
        (d + 55) as char
    }
}

/// Percent-encode a path for a `file:` URI (see [`percent_encoded`]).
pub fn percent_encode_path(path: &str) -> (r: String)
    ensures
        r@ == percent_encoded(path.spec_bytes()),
{
    let bytes = path.as_bytes();
    let mut out: Vec<char> = Vec::new();
    let mut i: usize = 0;
    proof {
        assert(bytes@.take(0) =~= Seq::<u8>::empty());
    }
    while i < bytes.len()
        invariant
            i <= bytes@.len(),
            bytes@ == path.spec_bytes(),
            out@ == percent_encoded(bytes@.take(i as int)),
        decreases bytes.len() - i,
    {
        let b = bytes[i];
        proof {
            assert(bytes@.take(i + 1).drop_last() =~= bytes@.take(i as int));
        }
        let kept = (0x30 <= b && b <= 0x39) || (0x41 <= b && b <= 0x5a) || (0x61 <= b && b <= 0x7a)
            || b == 0x2d || b == 0x2e || b == 0x5f || b == 0x7e || b == 0x2f;
        if kept {
            out.push(b as char);
        } else {
            out.push('%');
            out.push(hex_digit_of(b / 16));
            out.push(hex_digit_of(b % 16));
        }
        i = i + 1;
        assert(out@ =~= percent_encoded(bytes@.take(i as int)));
    }
    proof {
        assert(bytes@.take(bytes@.len() as int) =~= bytes@);
    }
    string_from_chars(&out)
}

/// A Windows path with its drive letter in upper case: `c:/x` becomes
/// `C:/x`; a path without a drive (no `:` as second character) is kept.
pub open spec fn drive_capitalized(p: Seq<char>) -> Seq<char> {
    if p.len() >= 2 && p[1] == ':' {
        seq![ascii_upper(p[0])] + p.drop_first()
    } else {
        p
    }
}

/// ASCII uppercase of one character.
pub open spec fn ascii_upper(c: char) -> char {
    if 'a' <= c <= 'z' {
        ((c as u8) - 32) as char
    } else {
        c
    }
}

/// Upper-case the drive letter of a Windows path (see
/// [`drive_capitalized`]).
pub fn capitalize_drive_letter(path: &str) -> (r: String)
    ensures
        r@ == drive_capitalized(path@),
{
    let cs = chars_of(path);
    if cs.len() >= 2 && cs[1] == ':' {
        let c0 = cs[0];
        let up = if 'a' <= c0 && c0 <= 'z' {
            ((c0 as u8) - 32) as char
        } else {
            c0
        };
        let mut out: Vec<char> = Vec::new();
        out.push(up);
        let rest = vec_slice(&cs, 1, cs.len());
        let mut r = string_from_chars(&out);
        push_chars(&mut r, &rest);
        assert(r@ =~= drive_capitalized(path@));
        r
    } else {
        string_from_chars(&cs)
    }
}

/// `p` with every `\` written `/`.
pub open spec fn forward_slashes(p: Seq<char>) -> Seq<char> {
    p.map_values(|c: char| if c == '\\' {
        '/'
    } else {
        c
    })
}

/// The text of the `file:` URI for an absolute path: `file://` and the
/// encoded path; on Windows `file:///` and the encoded path with forward
/// slashes and an upper-case drive letter.
pub open spec fn file_uri_text(path: Seq<char>, windows: bool) -> Seq<char> {
    if windows {
        "file:///"@ + percent_encoded(encode_utf8(drive_capitalized(forward_slashes(path))))
    } else {
        "file://"@ + percent_encoded(encode_utf8(path))
    }
}

/// The `file:` URI of an absolute path (see [`file_uri_text`]); none when
/// it does not parse. `windows` selects the Windows form.
pub fn file_uri_from_absolute_path(path: &str, windows: bool) -> (r: Option<String>)
    requires
        utf8_len(file_uri_text(path@, windows)) <= i32::MAX,
    ensures
        r is Some <==> uri_parses(file_uri_text(path@, windows)),
        r matches Some(t) ==> t@ == file_uri_text(path@, windows),
{
    let mut s = String::new();
    if windows {
        let cs = chars_of(path);
        let mut fixed_chars: Vec<char> = Vec::new();
        let mut i: usize = 0;
        while i < cs.len()
            invariant
                i <= cs@.len(),
                cs@ == path@,
                fixed_chars@ == forward_slashes(cs@.take(i as int)),
            decreases cs.len() - i,
        {
            let c = cs[i];
            fixed_chars.push(if c == '\\' {
                '/'
            } else {
                c
            });
            i = i + 1;
            assert(fixed_chars@ =~= forward_slashes(cs@.take(i as int)));
        }
        assert(cs@.take(cs@.len() as int) =~= cs@);
        let fixed_s = string_from_chars(&fixed_chars);
        let fixed = capitalize_drive_letter(fixed_s.as_str());
        s.append("file:///");
        let enc = percent_encode_path(fixed.as_str());
        s.append(enc.as_str());
        assert(s@ == file_uri_text(path@, windows));
    } else {
        s.append("file://");
        let enc = percent_encode_path(path);
        s.append(enc.as_str());
        assert(s@ == file_uri_text(path@, windows));
    }
    parse_uri(s.as_str())
}

/// What a link destination resolves to before file-system work: a URI
/// (already checked to parse), or a file path with an optional fragment
/// (the path is absolute or relative to the document's directory).
#[derive(Debug, PartialEq, Eq)]
pub enum LinkTarget {
    Uri(String),
    File { path: String, fragment: Option<String> },
}

/// The text a link target is parsed from when it is not a fragment: the
/// trimmed target, prefixed `mailto:` when it looks like an email address.
pub open spec fn with_mailto(t: Seq<char>) -> Seq<char> {
    if looks_like_email_spec(t) {
        "mailto:"@ + t
    } else {
        t
    }
}

/// The URI texts [`resolve_link_target`] may hand to the URI parser fit
/// its length limit.
pub open spec fn resolve_fits(raw: Seq<char>, doc_uri: Option<Seq<char>>) -> bool {
    let t = trim_ws(raw);
    &&& utf8_len(with_mailto(t)) <= i32::MAX
    &&& (t.len() > 0 && doc_uri is Some) ==> utf8_len(
        with_fragment_text(doc_uri->0, t.drop_first()),
    ) <= i32::MAX
}

/// Where a link destination points (see [`resolve_link_target`]): `None`
/// when it goes nowhere; `Some(Ok(uri))` for a URI; `Some(Err((path,
/// fragment)))` for a file path and an optional fragment.
pub open spec fn resolve_spec(raw: Seq<char>, doc_uri: Option<Seq<char>>, has_doc_path: bool) -> Option<
    Result<Seq<char>, (Seq<char>, Option<Seq<char>>)>,
> {
    let t = trim_ws(raw);
    if t.len() == 0 {
        None
    } else if t[0] == '#' {
        match doc_uri {
            None => None,
            Some(u) => if uri_parses(with_fragment_text(u, t.drop_first())) {
                Some(Ok(with_fragment_text(u, t.drop_first())))
            } else {
                None
            },
        }
    } else if looks_like_uri_scheme_spec(with_mailto(t)) {
        if uri_parses(with_mailto(t)) {
            Some(Ok(with_mailto(t)))
        } else {
            None
        }
    } else if !has_doc_path {
        None
    } else {
        Some(Err(fragment_split(t)))
    }
}

/// The view of a resolved link target.
pub open spec fn target_view(r: Option<LinkTarget>) -> Option<
    Result<Seq<char>, (Seq<char>, Option<Seq<char>>)>,
> {
    match r {
        None => None,
        Some(LinkTarget::Uri(u)) => Some(Ok(u@)),
        Some(LinkTarget::File { path, fragment }) => Some(
            Err(
                (
                    path@,
                    match fragment {
                        Some(f) => Some(f@),
                        None => None,
                    },
                ),
            ),
        ),
    }
}

/// Resolve a link destination: a `#fragment` of the current document
/// (given its URI), a URI (an email address becoming `mailto:`), or, when
/// the document has a path, a file path with an optional fragment, which
/// the caller turns into a `file:` URI relative to the document.
pub fn resolve_link_target(raw_target: &str, doc_uri: Option<&str>, has_doc_path: bool) -> (r:
    Option<LinkTarget>)
    requires
        resolve_fits(
            raw_target@,
            match doc_uri {
                Some(u) => Some(u@),
                None => None,
            },
        ),
    ensures
        target_view(r) == resolve_spec(
            raw_target@,
            match doc_uri {
                Some(u) => Some(u@),
                None => None,
            },
            has_doc_path,
        ),
{
    let cs = chars_of(raw_target);
    let t = vec_trim(&cs);
    if t.len() == 0 {
        return None;
    }
    if t[0] == '#' {
        return match doc_uri {
            None => None,
            Some(u) => {
                let rest = vec_slice(&t, 1, t.len());
                assert(rest@ =~= t@.drop_first());
                let frag = string_from_chars(&rest);
                match with_fragment(u, frag.as_str()) {
                    Some(x) => Some(LinkTarget::Uri(x)),
                    None => None,
                }
            },
        };
    }
    let ts = string_from_chars(&t);
    let m = if looks_like_email(ts.as_str()) {
        let mut m = String::from_str("mailto:");
        m.append(ts.as_str());
        m
    } else {
        string_from_chars(&t)
    };
    assert(m@ == with_mailto(t@));
    if looks_like_uri_scheme(m.as_str()) {
        return match parse_uri(m.as_str()) {
            Some(x) => Some(LinkTarget::Uri(x)),
            None => None,
        };
    }
    if !has_doc_path {
        return None;
    }
    let (path, fragment) = split_fragment(ts.as_str());
    Some(LinkTarget::File { path, fragment })
}

} // verus!
