//! Path completion: where to look for the path being typed, which
//! directory entries to list and in what order, and the edits that insert
//! them.

use vstd::prelude::*;
use crate::completion::{
    has_ext_in, has_extension_in, kind_exts, still_image_exts, still_image_extensions, video_exts,
    video_extensions, LinkDestContext, ShortcodeArgContext, ShortcodeKind,
};
use crate::text::{
    ascii_lower, chars_of, contains_seq, offset_to_position, position_of, positions_fit,
    starts_with, str_byte_len, string_from_chars, utf8_len, vec_contains, vec_starts_with, Range,
};

verus! {

/// At most this many entries are offered.
pub const MAX_PATH_COMPLETIONS: usize = 250;

/// Which files a path completion lists; directories are always listed.
#[derive(Clone, Copy, Debug, PartialEq, Eq, Structural)]
pub enum FileFilter {
    /// Every file.
    Any,
    /// Still images and videos.
    Media,
    /// The files a path shortcode takes.
    Shortcode(ShortcodeKind),
}

/// A file named `name` passes the filter: any file; media by a still
/// image or video extension; a shortcode's argument by the extensions it
/// takes.
pub open spec fn filter_accepts(f: FileFilter, name: Seq<char>) -> bool {
    match f {
        FileFilter::Any => true,
        FileFilter::Media => has_ext_in(name, still_image_exts()) || has_ext_in(name, video_exts()),
        FileFilter::Shortcode(kind) => has_ext_in(name, kind_exts(kind)),
    }
}

impl FileFilter {
    /// Whether a file named `name` is listed (see [`filter_accepts`]).
    pub fn accepts(self, name: &str) -> (b: bool)
        ensures
            b == filter_accepts(self, name@),
    {
        match self {
            FileFilter::Any => true,
            FileFilter::Media => has_extension_in(name, &still_image_extensions())
                || has_extension_in(name, &video_extensions()),
            FileFilter::Shortcode(kind) => kind.accepts(name),
        }
    }
}

/// The directory a path completion starts from.
#[derive(Clone, Copy, Debug, PartialEq, Eq, Structural)]
pub enum PathBase {
    /// The directory of the document.
    DocumentDir,
    /// The workspace root.
    WorkspaceRoot,
}

/// A request to list directory entries for the path being typed.
pub struct PathRequest {
    pub base: PathBase,
    /// The typed path relative to the base (it may hold `/`).
    pub prefix: String,
    pub filter: FileFilter,
}

/// A link destination is completed as a path unless it is absolute, an
/// anchor, bracketed or a URL.
pub open spec fn link_dest_is_path(prefix: Seq<char>) -> bool {
    !(prefix.len() > 0 && (prefix[0] == '/' || prefix[0] == '#' || prefix[0] == '<')) && !contains_seq(
        prefix,
        "://"@,
    )
}

/// The path query for a link or image destination: from the document's
/// directory, every file for a link, media files for an image; none when
/// the destination is not a relative path (see [`link_dest_is_path`]).
pub fn link_dest_path_request(ctx: &LinkDestContext) -> (r: Option<PathRequest>)
    ensures
        match r {
            Some(q) => link_dest_is_path(ctx.prefix@) && q.base == PathBase::DocumentDir && q.prefix@
                == ctx.prefix@ && q.filter == if ctx.is_image {
                FileFilter::Media
            } else {
                FileFilter::Any
            },
            None => !link_dest_is_path(ctx.prefix@),
        },
{
    let p = chars_of(ctx.prefix.as_str());
    if p.len() > 0 && (p[0] == '/' || p[0] == '#' || p[0] == '<') {
        return None;
    }
    if vec_contains(&p, &chars_of("://")) {
        return None;
    }
    Some(
        PathRequest {
            base: PathBase::DocumentDir,
            prefix: string_from_chars(&p),
            filter: if ctx.is_image {
                FileFilter::Media
            } else {
                FileFilter::Any
            },
        },
    )
}

/// The path query for a shortcode's path argument: a leading `/` starts
/// from the workspace root (and is dropped), anything else from the
/// document's directory; files are filtered by the shortcode.
pub fn shortcode_path_request(ctx: &ShortcodeArgContext) -> (q: PathRequest)
    ensures
        q.filter == FileFilter::Shortcode(ctx.kind),
        ctx.prefix@.len() > 0 && ctx.prefix@[0] == '/' ==> q.base == PathBase::WorkspaceRoot && q.prefix@
            == ctx.prefix@.drop_first(),
        !(ctx.prefix@.len() > 0 && ctx.prefix@[0] == '/') ==> q.base == PathBase::DocumentDir && q.prefix@
            == ctx.prefix@,
{
    let p = chars_of(ctx.prefix.as_str());
    if p.len() > 0 && p[0] == '/' {
        let mut rest: Vec<char> = Vec::new();
        let mut i: usize = 1;
        while i < p.len()
            invariant
                1 <= i <= p@.len(),
                rest@ == p@.subrange(1, i as int),
            decreases p.len() - i,
        {
            rest.push(p[i]);
            i = i + 1;
            assert(rest@ =~= p@.subrange(1, i as int));
        }
        assert(p@.subrange(1, p@.len() as int) =~= p@.drop_first());
        PathRequest {
            base: PathBase::WorkspaceRoot,
            prefix: string_from_chars(&rest),
            filter: FileFilter::Shortcode(ctx.kind),
        }
    } else {
        PathRequest {
            base: PathBase::DocumentDir,
            prefix: string_from_chars(&p),
            filter: FileFilter::Shortcode(ctx.kind),
        }
    }
}

/// The index of the last `/` in `s`.
pub open spec fn last_slash(s: Seq<char>) -> Option<int>
    decreases s.len(),
{
    if s.len() == 0 {
        None
    } else if s.last() == '/' {
        Some(s.len() - 1)
    } else {
        last_slash(s.drop_last())
    }
}

/// The typed path split at its last `/` into the directory part and the
/// name being typed; without a `/` the directory part is empty.
pub open spec fn split_prefix_spec(s: Seq<char>) -> (Seq<char>, Seq<char>) {
    match last_slash(s) {
        Some(k) => (s.take(k), s.skip(k + 1)),
        None => (seq![], s),
    }
}

/// Split the typed path into directory part and name (see
/// [`split_prefix_spec`]).
pub fn split_path_prefix(prefix: &str) -> (r: (String, String))
    ensures
        (r.0@, r.1@) == split_prefix_spec(prefix@),
{
    let p = chars_of(prefix);
    let mut k = p.len();
    assert(p@.take(k as int) =~= p@);
    while k > 0 && p[k - 1] != '/'
        invariant
            k <= p@.len(),
            last_slash(p@) == last_slash(p@.take(k as int)),
        decreases k,
    {
        assert(p@.take(k as int).drop_last() =~= p@.take(k - 1));
        k = k - 1;
    }
    if k == 0 {
        assert(p@.take(0) =~= Seq::<char>::empty());
        return (String::new(), string_from_chars(&p));
    }
    assert(p@.take(k as int).last() == '/');
    let mut dir: Vec<char> = Vec::new();
    let mut name: Vec<char> = Vec::new();
    let mut i: usize = 0;
    while i < p.len()
        invariant
            0 < k <= p@.len(),
            i <= p@.len(),
            dir@ == p@.take(if i < k - 1 {
                i as int
            } else {
                k - 1
            }),
            name@ == p@.subrange(k as int, if i < k {
                k as int
            } else {
                i as int
            }),
        decreases p.len() - i,
    {
        if i < k - 1 {
            dir.push(p[i]);
        } else if i >= k {
            name.push(p[i]);
        }
        i = i + 1;
        assert(dir@ =~= p@.take(if i < k - 1 {
            i as int
        } else {
            k - 1
        }));
        assert(name@ =~= p@.subrange(k as int, if i < k {
            k as int
        } else {
            i as int
        }));
    }
    assert(p@.subrange(k as int, p@.len() as int) =~= p@.skip(k as int));
    (string_from_chars(&dir), string_from_chars(&name))
}

/// `s` with ASCII letters lowercased.
pub open spec fn lower(s: Seq<char>) -> Seq<char> {
    s.map_values(|c: char| ascii_lower(c))
}

/// Whether a directory entry named `name` is listed for the typed name
/// `name_prefix`: hidden entries only when the typed name starts with `.`,
/// and only names that start with the typed name, ignoring ASCII case.
pub open spec fn entry_listed_spec(name: Seq<char>, name_prefix: Seq<char>) -> bool {
    &&& (name.len() > 0 && name[0] == '.') ==> (name_prefix.len() > 0 && name_prefix[0] == '.')
    &&& starts_with(lower(name), lower(name_prefix))
}

fn lower_chars(s: &str) -> (v: Vec<char>)
    ensures
        v@ == lower(s@),
{
    let cs = chars_of(s);
    let mut v: Vec<char> = Vec::new();
    let mut i: usize = 0;
    while i < cs.len()
        invariant
            i <= cs@.len(),
            cs@ == s@,
            v@ == lower(cs@.take(i as int)),
        decreases cs.len() - i,
    {
        v.push(crate::text::char_ascii_lower(cs[i]));
        i = i + 1;
        assert(v@ =~= lower(cs@.take(i as int)));
    }
    assert(cs@.take(i as int) =~= cs@);
    v
}

/// Whether an entry is listed (see [`entry_listed_spec`]).
pub fn entry_listed(name: &str, name_prefix: &str) -> (b: bool)
    ensures
        b == entry_listed_spec(name@, name_prefix@),
{
    let n = chars_of(name);
    let p = chars_of(name_prefix);
    if n.len() > 0 && n[0] == '.' && !(p.len() > 0 && p[0] == '.') {
        return false;
    }
    vec_starts_with(&lower_chars(name), &lower_chars(name_prefix))
}

/// `a` sorts no later than `b`, character by character.
pub open spec fn seq_le(a: Seq<char>, b: Seq<char>) -> bool
    decreases a.len(),
{
    if a.len() == 0 {
        true
    } else if b.len() == 0 {
        false
    } else if (a[0] as u32) != (b[0] as u32) {
        (a[0] as u32) < (b[0] as u32)
    } else {
        seq_le(a.drop_first(), b.drop_first())
    }
}

/// `names` with `name` inserted after the last name that sorts no later
/// by its ASCII-lowercased form (a stable insertion).
pub open spec fn insert_name(names: Seq<Seq<char>>, name: Seq<char>) -> Seq<Seq<char>>
    decreases names.len(),
{
    if names.len() == 0 {
        seq![name]
    } else if seq_le(lower(names.last()), lower(name)) {
        names.push(name)
    } else {
        insert_name(names.drop_last(), name).push(names.last())
    }
}

/// The first `n` names in stable order by their ASCII-lowercased forms.
pub open spec fn sort_names(names: Seq<Seq<char>>, n: int) -> Seq<Seq<char>>
    decreases n,
{
    if n <= 0 {
        seq![]
    } else {
        insert_name(sort_names(names, n - 1), names[n - 1])
    }
}

fn lex_le(a: &Vec<char>, b: &Vec<char>) -> (r: bool)
    ensures
        r == seq_le(a@, b@),
{
    let mut i: usize = 0;
    assert(a@.skip(0) =~= a@);
    assert(b@.skip(0) =~= b@);
    while i < a.len() && i < b.len() && (a[i] as u32) == (b[i] as u32)
        invariant
            i <= a@.len(),
            i <= b@.len(),
            seq_le(a@, b@) == seq_le(a@.skip(i as int), b@.skip(i as int)),
        decreases a.len() - i,
    {
        assert(a@.skip(i as int).drop_first() =~= a@.skip(i + 1));
        assert(b@.skip(i as int).drop_first() =~= b@.skip(i + 1));
        i = i + 1;
    }
    if i == a.len() {
        true
    } else if i == b.len() {
        false
    } else {
        assert(a@.skip(i as int)[0] == a@[i as int]);
        assert(b@.skip(i as int)[0] == b@[i as int]);
        (a[i] as u32) < (b[i] as u32)
    }
}

proof fn lemma_insert_name_at(names: Seq<Seq<char>>, name: Seq<char>, p: int)
    requires
        0 <= p <= names.len(),
        p == 0 || seq_le(lower(names[p - 1]), lower(name)),
        forall|q: int| p <= q < names.len() ==> !seq_le(lower(#[trigger] names[q]), lower(name)),
    ensures
        insert_name(names, name) == names.insert(p, name),
    decreases names.len(),
{
    if names.len() == 0 {
        assert(names.insert(p, name) =~= seq![name]);
    } else if p == names.len() {
        assert(names.insert(p, name) =~= names.push(name));
    } else {
        let d = names.drop_last();
        assert(!seq_le(lower(names[names.len() - 1]), lower(name)));
        assert forall|q: int| p <= q < d.len() implies !seq_le(lower(#[trigger] d[q]), lower(name)) by {
            assert(d[q] == names[q]);
        }
        lemma_insert_name_at(d, name, p);
        assert(d.insert(p, name).push(names.last()) =~= names.insert(p, name));
    }
}

/// `names` in stable order by their ASCII-lowercased forms (see
/// [`sort_names`]).
pub fn sort_by_lowercase(names: Vec<String>) -> (sorted: Vec<String>)
    ensures
        sorted@.map_values(|s: String| s@) == sort_names(
            names@.map_values(|s: String| s@),
            names@.len() as int,
        ),
{
    let ghost ns = names@.map_values(|s: String| s@);
    let mut sorted: Vec<String> = Vec::new();
    let mut keys: Vec<Vec<char>> = Vec::new();
    let mut i: usize = 0;
    while i < names.len()
        invariant
            i <= names@.len(),
            ns == names@.map_values(|s: String| s@),
            sorted@.map_values(|s: String| s@) == sort_names(ns, i as int),
            keys@.len() == sorted@.len(),
            forall|q: int| 0 <= q < keys@.len() ==> #[trigger] keys@[q]@ == lower(sorted@[q]@),
        decreases names.len() - i,
    {
        let key = lower_chars(names[i].as_str());
        let mut p: usize = sorted.len();
        while p > 0
            invariant
                p <= sorted@.len() == keys@.len(),
                i < names@.len(),
                key@ == lower(names@[i as int]@),
                forall|q: int| 0 <= q < keys@.len() ==> #[trigger] keys@[q]@ == lower(sorted@[q]@),
                forall|q: int|
                    p <= q < sorted@.len() ==> !seq_le(lower(#[trigger] sorted@[q]@), lower(names@[i as int]@)),
            ensures
                p <= sorted@.len(),
                p == 0 || seq_le(lower(sorted@[p - 1]@), lower(names@[i as int]@)),
                forall|q: int|
                    p <= q < sorted@.len() ==> !seq_le(lower(#[trigger] sorted@[q]@), lower(names@[i as int]@)),
            decreases p,
        {
            if lex_le(&keys[p - 1], &key) {
                break;
            }
            p = p - 1;
        }
        let ghost before = sorted@.map_values(|s: String| s@);
        proof {
            assert forall|q: int| p <= q < before.len() implies !seq_le(lower(#[trigger] before[q]), lower(ns[i as int])) by {
                assert(before[q] == sorted@[q]@);
            }
            if p > 0 {
                assert(before[p - 1] == sorted@[p - 1]@);
            }
            lemma_insert_name_at(before, ns[i as int], p as int);
        }
        let ghost old_sorted = sorted@;
        let ghost old_keys = keys@;
        let name = names[i].clone();
        sorted.insert(p, name);
        keys.insert(p, key);
        proof {
            assert(sorted@.map_values(|s: String| s@) =~= before.insert(p as int, ns[i as int]));
            assert forall|q: int| 0 <= q < keys@.len() implies #[trigger] keys@[q]@ == lower(sorted@[q]@) by {
                if q < p {
                    assert(keys@[q] == old_keys[q] && sorted@[q] == old_sorted[q]);
                } else if q > p {
                    assert(keys@[q] == old_keys[q - 1] && sorted@[q] == old_sorted[q - 1]);
                }
            }
        }
        i = i + 1;
    }
    sorted
}

/// A listed directory entry.
pub struct PathEntry {
    pub name: String,
    pub is_dir: bool,
}

/// The listing: the directories, then the files, each in stable order by
/// ASCII-lowercased name.
pub fn order_entries(dirs: Vec<String>, files: Vec<String>) -> (entries: Vec<PathEntry>)
    ensures
        entries@.len() == dirs@.len() + files@.len(),
        forall|q: int|
            0 <= q < entries@.len() ==> #[trigger] entries@[q].is_dir == (q < dirs@.len())
                && entries@[q].name@ == if q < dirs@.len() {
                sort_names(dirs@.map_values(|s: String| s@), dirs@.len() as int)[q]
            } else {
                sort_names(files@.map_values(|s: String| s@), files@.len() as int)[q - dirs@.len()]
            },
{
    let ghost nd = dirs@.len();
    let ghost nf = files@.len();
    let ghost sd = sort_names(dirs@.map_values(|s: String| s@), dirs@.len() as int);
    let ghost sf = sort_names(files@.map_values(|s: String| s@), files@.len() as int);
    let d = sort_by_lowercase(dirs);
    let f = sort_by_lowercase(files);
    proof {
        lemma_sort_names_len(dirs@.map_values(|s: String| s@), nd as int);
        lemma_sort_names_len(files@.map_values(|s: String| s@), nf as int);
        assert(d@.map_values(|s: String| s@).len() == d@.len());
        assert(f@.map_values(|s: String| s@).len() == f@.len());
    }
    let mut out: Vec<PathEntry> = Vec::new();
    let mut i: usize = 0;
    while i < d.len()
        invariant
            i <= d@.len() == nd,
            d@.map_values(|s: String| s@) == sd,
            out@.len() == i,
            forall|q: int| 0 <= q < i ==> #[trigger] out@[q].is_dir && out@[q].name@ == sd[q],
        decreases d.len() - i,
    {
        proof {
            assert(d@.map_values(|s: String| s@)[i as int] == d@[i as int]@);
        }
        out.push(PathEntry { name: d[i].clone(), is_dir: true });
        i = i + 1;
    }
    let mut j: usize = 0;
    while j < f.len()
        invariant
            j <= f@.len() == nf,
            d@.len() == nd,
            f@.map_values(|s: String| s@) == sf,
            out@.len() == nd + j,
            forall|q: int| 0 <= q < nd ==> #[trigger] out@[q].is_dir && out@[q].name@ == sd[q],
            forall|q: int| nd <= q < nd + j ==> !#[trigger] out@[q].is_dir && out@[q].name@ == sf[q - nd],
        decreases f.len() - j,
    {
        proof {
            assert(f@.map_values(|s: String| s@)[j as int] == f@[j as int]@);
        }
        out.push(PathEntry { name: f[j].clone(), is_dir: false });
        j = j + 1;
    }
    out
}

proof fn lemma_sort_names_len(names: Seq<Seq<char>>, n: int)
    requires
        0 <= n,
    ensures
        sort_names(names, n).len() == n,
    decreases n,
{
    if n > 0 {
        lemma_sort_names_len(names, n - 1);
        lemma_insert_name_len(sort_names(names, n - 1), names[n - 1]);
    }
}

proof fn lemma_insert_name_len(names: Seq<Seq<char>>, name: Seq<char>)
    ensures
        insert_name(names, name).len() == names.len() + 1,
    decreases names.len(),
{
    if names.len() > 0 {
        lemma_insert_name_len(names.drop_last(), name);
    }
}

/// One completion: the text that replaces the typed name.
pub open spec fn entry_text(e: PathEntry) -> Seq<char> {
    if e.is_dir {
        e.name@.push('/')
    } else {
        e.name@
    }
}

/// The completions for the listed entries: each replaces the typed name
/// (the `name_len` bytes before `offset`, or from the start of the text
/// when there are fewer) with the entry's name, a directory's followed by
/// `/`; at most [`MAX_PATH_COMPLETIONS`] of them, in listing order.
pub fn path_completion_items(entries: &Vec<PathEntry>, name_len: usize, offset: usize, text: &str) -> (r: (
    Range,
    Vec<String>,
))
    requires
        positions_fit(text@),
    ensures
        r.0 == (Range {
            start: position_of(
                text@,
                if offset >= name_len {
                    offset - name_len
                } else {
                    0
                },
            ),
            end: position_of(text@, offset as int),
        }),
        r.1@.len() == if entries@.len() <= MAX_PATH_COMPLETIONS {
            entries@.len()
        } else {
            MAX_PATH_COMPLETIONS as nat
        },
        forall|q: int| 0 <= q < r.1@.len() ==> #[trigger] r.1@[q]@ == entry_text(entries@[q]),
{
    let start = if offset >= name_len {
        offset - name_len
    } else {
        0
    };
    let range = Range { start: offset_to_position(text, start), end: offset_to_position(text, offset) };
    let n = if entries.len() <= MAX_PATH_COMPLETIONS {
        entries.len()
    } else {
        MAX_PATH_COMPLETIONS
    };
    let mut out: Vec<String> = Vec::new();
    let mut i: usize = 0;
    while i < n
        invariant
            i <= n <= entries@.len(),
            out@.len() == i,
            forall|q: int| 0 <= q < i ==> #[trigger] out@[q]@ == entry_text(entries@[q]),
        decreases n - i,
    {
        let mut t = chars_of(entries[i].name.as_str());
        if entries[i].is_dir {
            t.push('/');
        }
        out.push(string_from_chars(&t));
        i = i + 1;
    }
    (range, out)
}

/// Any two names are ordered one way or the other.
pub proof fn lemma_seq_le_total(a: Seq<char>, b: Seq<char>)
    ensures
        seq_le(a, b) || seq_le(b, a),
    decreases a.len(),
{
    if a.len() > 0 && b.len() > 0 && (a[0] as u32) == (b[0] as u32) {
        lemma_seq_le_total(a.drop_first(), b.drop_first());
    }
}

/// Adjacent names are in order by their ASCII-lowercased forms.
pub open spec fn names_sorted(names: Seq<Seq<char>>) -> bool {
    forall|q: int| 0 < q < names.len() ==> seq_le(lower(names[q - 1]), lower(#[trigger] names[q]))
}

proof fn lemma_insert_name_sorted(names: Seq<Seq<char>>, name: Seq<char>)
    requires
        names_sorted(names),
    ensures
        names_sorted(insert_name(names, name)),
        names.len() > 0 ==> (insert_name(names, name).last() == name || insert_name(names, name).last()
            == names.last()),
        insert_name(names, name).len() == names.len() + 1,
    decreases names.len(),
{
    lemma_insert_name_len(names, name);
    if names.len() > 0 && !seq_le(lower(names.last()), lower(name)) {
        let d = names.drop_last();
        let m = insert_name(d, name);
        assert(names_sorted(d)) by {
            assert forall|q: int| 0 < q < d.len() implies seq_le(lower(d[q - 1]), lower(#[trigger] d[q])) by {
                assert(d[q - 1] == names[q - 1] && d[q] == names[q]);
            }
        }
        lemma_insert_name_sorted(d, name);
        let r = insert_name(names, name);
        assert(r == m.push(names.last()));
        lemma_seq_le_total(lower(names.last()), lower(name));
        assert forall|q: int| 0 < q < r.len() implies seq_le(lower(r[q - 1]), lower(#[trigger] r[q])) by {
            if q < r.len() - 1 {
                assert(r[q - 1] == m[q - 1] && r[q] == m[q]);
            } else {
                assert(r[q - 1] == m.last());
                if d.len() > 0 {
                    assert(seq_le(lower(names[names.len() - 2]), lower(names[names.len() - 1])));
                }
            }
        }
    }
}

/// The listing order is sorted: each name sorts no earlier than the one
/// before it, by ASCII-lowercased form.
pub proof fn lemma_sort_names_sorted(names: Seq<Seq<char>>, n: int)
    requires
        0 <= n,
    ensures
        names_sorted(sort_names(names, n)),
    decreases n,
{
    if n > 0 {
        lemma_sort_names_sorted(names, n - 1);
        lemma_insert_name_sorted(sort_names(names, n - 1), names[n - 1]);
    }
}

} // verus!
