//! File paths of `file:` URIs: the decoded path component, with the
//! Windows forms for a drive letter and for a host. Parsing and decoding
//! are the `lsp_types` URI type's work.

use vstd::prelude::*;
use crate::text::{chars_of, string_from_chars, utf8_len, vec_slice};
use crate::uri::uri_parses;

verus! {

/// Name for the percent-decoded path component of a URI that
/// `lsp_types::Uri` accepts (decoded bytes read as UTF-8, invalid
/// sequences replaced).
pub uninterp spec fn uri_decoded_path(s: Seq<char>) -> Seq<char>;

/// Name for the host of a URI's authority, when the URI has one.
pub uninterp spec fn uri_authority_host(s: Seq<char>) -> Option<Seq<char>>;

/// Parses `s` with `<lsp_types::Uri as FromStr>::from_str` and reads the
/// parsed URI's components through `fluent_uri`: its path, percent-decoded
/// by `EStr::decode` and read lossily as UTF-8, and the host of its
/// authority (`Authority::host`), if it has an authority. The contract
/// claims no more than that the result is present exactly when the parser
/// accepts, and names the two components. It panics on input longer than
/// `i32::MAX` bytes, which `requires` leaves out.
#[verifier::external_body]
fn decode_uri_components(s: &str) -> (r: Option<(String, Option<String>)>)
    requires
        utf8_len(s@) <= i32::MAX,
    ensures
        r is Some <==> uri_parses(s@),
        r matches Some((p, h)) ==> p@ == uri_decoded_path(s@) && match h {
            Some(x) => uri_authority_host(s@) == Some(x@),
            None => uri_authority_host(s@) is None,
        },
{
    let u = s.parse::<lsp_types::Uri>().ok()?;
    let path = u.path().as_estr().decode().into_string_lossy().into_owned();
    let host = u.authority().map(|a| a.host().as_str().to_string());
    Some((path, host))
}

/// The file path a `file:` URI names (the scheme is not checked): none
/// when the URI does not parse or its decoded path is empty. Off Windows,
/// the decoded path. On Windows, with no host, the decoded path without
/// its leading character (`/c:/x` gives `c:/x`), none when that character
/// takes more than one byte; with a host, the host, `:` and the decoded
/// path, as text (`file://server/x` gives `server:/x`).
pub open spec fn file_path_spec(uri: Seq<char>, windows: bool) -> Option<Seq<char>> {
    if !uri_parses(uri) {
        None
    } else {
        let p = uri_decoded_path(uri);
        if p.len() == 0 {
            None
        } else if !windows {
            Some(p)
        } else {
            let host = match uri_authority_host(uri) {
                Some(h) => h,
                None => Seq::<char>::empty(),
            };
            if host.len() == 0 {
                if crate::text::utf8_width(p[0]) == 1 {
                    Some(p.drop_first())
                } else {
                    None
                }
            } else {
                Some(host + seq![':'] + p)
            }
        }
    }
}

/// The file path of a `file:` URI (see [`file_path_spec`]).
pub fn file_path_of_uri(uri: &str, windows: bool) -> (r: Option<String>)
    requires
        utf8_len(uri@) <= i32::MAX,
    ensures
        match r {
            Some(p) => file_path_spec(uri@, windows) == Some(p@),
            None => file_path_spec(uri@, windows) is None,
        },
{
    let (path, host) = match decode_uri_components(uri) {
        Some(x) => x,
        None => {
            return None;
        },
    };
    let p = chars_of(path.as_str());
    if p.len() == 0 {
        return None;
    }
    if !windows {
        return Some(path);
    }
    let h = match &host {
        Some(x) => chars_of(x.as_str()),
        None => Vec::new(),
    };
    if h.len() == 0 {
        if crate::text::char_len_utf8(p[0]) == 1 {
            let rest = vec_slice(&p, 1, p.len());
            assert(rest@ =~= p@.drop_first());
            Some(string_from_chars(&rest))
        } else {
            None
        }
    } else {
        let mut out = h;
        out.push(':');
        let ghost hv = out@;
        let mut i: usize = 0;
        while i < p.len()
            invariant
                i <= p@.len(),
                out@ == hv + p@.take(i as int),
            decreases p.len() - i,
        {
            out.push(p[i]);
            i = i + 1;
            assert(p@.take(i as int) =~= p@.take(i - 1).push(p@[i - 1]));
        }
        assert(p@.take(i as int) =~= p@);
        Some(string_from_chars(&out))
    }
}

} // verus!
