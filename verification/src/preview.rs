//! Hover previews: whitespace-normalised and cropped snippets, the heading
//! a reference definition points at, where a heading's section ends, the
//! display math that declares an equation label, and bibliography entry
//! summaries.

use vstd::prelude::*;
use crate::locate::{child_elements, child_list};
use crate::highlight::{dedup_adjacent, dedup_spans, sort_by_start, sort_spans};
use crate::syntax::{child_token_text, element_text, ElementView, SyntaxKind, SyntaxTree};
use crate::workspace::{heading_title, heading_title_of};
use crate::text::{
    chars_of, collapse_whitespace, collapse_ws, is_ws, is_whitespace, normalize_label,
    normalized_label, str_eq, string_from_chars, trim_end_ws, trim_start_repeated, trim_ws, vec_slice,
    vec_trim, vec_trim_start_repeated,
};

verus! {

/// At most this many characters of a block are previewed.
pub const HOVER_PREVIEW_MAX_CHARS: usize = 180;

/// At most this many lines of an equation are previewed.
pub const HOVER_EQUATION_PREVIEW_MAX_LINES: usize = 6;

/// `text` with its whitespace runs collapsed to single spaces and no
/// leading or trailing whitespace (`split_whitespace` joined by spaces).
pub fn normalize_preview_text(text: &str) -> (r: String)
    ensures
        r@ == collapse_ws(text@),
{
    string_from_chars(&collapse_whitespace(text))
}

/// The first `max_chars` characters of `s`, followed by `...` when
/// characters were cut off.
pub open spec fn crop_spec(s: Seq<char>, max_chars: int) -> Seq<char> {
    if s.len() <= max_chars {
        s
    } else {
        s.take(max_chars) + "..."@
    }
}

/// Crop `text` to `max_chars` characters (see [`crop_spec`]).
pub fn crop_preview(text: &str, max_chars: usize) -> (r: String)
    ensures
        r@ == crop_spec(text@, max_chars as int),
{
    let cs = chars_of(text);
    if cs.len() <= max_chars {
        return string_from_chars(&cs);
    }
    let mut out = vec_slice(&cs, 0, max_chars);
    let dots = chars_of("...");
    let ghost head = out@;
    let mut i: usize = 0;
    while i < dots.len()
        invariant
            i <= dots@.len(),
            out@ == head + dots@.take(i as int),
        decreases dots.len() - i,
    {
        out.push(dots[i]);
        i = i + 1;
        assert(out@ =~= head + dots@.take(i as int));
    }
    assert(dots@.take(i as int) =~= dots@);
    assert(head =~= cs@.take(max_chars as int));
    string_from_chars(&out)
}

/// The lines of `s` (`str::lines`): split at each `\n`, a `\r` right
/// before it dropped, with no empty line after a final `\n`.
pub open spec fn lines_of(s: Seq<char>) -> Seq<Seq<char>>
    decreases s.len(),
{
    if s.len() == 0 {
        seq![]
    } else {
        match first_newline(s) {
            None => seq![s],
            Some(k) => {
                let line = s.take(k);
                let line = if line.len() > 0 && line.last() == '\r' {
                    line.drop_last()
                } else {
                    line
                };
                proof {
                    lemma_first_newline(s);
                }
                seq![line] + lines_of(s.skip(k + 1))
            },
        }
    }
}

/// The index of the first `\n` in `s`.
pub open spec fn first_newline(s: Seq<char>) -> Option<int>
    decreases s.len(),
{
    if s.len() == 0 {
        None
    } else if s[0] == '\n' {
        Some(0)
    } else {
        match first_newline(s.drop_first()) {
            Some(k) => Some(k + 1),
            None => None,
        }
    }
}

/// The lines `ls` joined by `\n`.
pub open spec fn join_lines(ls: Seq<Seq<char>>) -> Seq<char>
    decreases ls.len(),
{
    if ls.len() == 0 {
        seq![]
    } else if ls.len() == 1 {
        ls[0]
    } else {
        join_lines(ls.drop_last()) + seq!['\n'] + ls.last()
    }
}

/// `text` when it has at most `max_lines` lines; otherwise its first
/// `max_lines` lines joined by `\n`, then a line `...`.
pub open spec fn crop_lines_spec(s: Seq<char>, max_lines: int) -> Seq<char> {
    let ls = lines_of(s);
    if ls.len() <= max_lines {
        s
    } else {
        join_lines(ls.take(max_lines)) + "\n..."@
    }
}

/// Where the first `\n` of `s` is.
pub proof fn lemma_first_newline(s: Seq<char>)
    ensures
        match first_newline(s) {
            Some(k) => 0 <= k < s.len() && s[k] == '\n' && forall|j: int| 0 <= j < k ==> s[j] != '\n',
            None => forall|j: int| 0 <= j < s.len() ==> s[j] != '\n',
        },
    decreases s.len(),
{
    if s.len() > 0 && s[0] != '\n' {
        lemma_first_newline(s.drop_first());
        match first_newline(s.drop_first()) {
            Some(k) => {
                assert forall|j: int| 0 <= j < k + 1 implies s[j] != '\n' by {
                    if j > 0 {
                        assert(s[j] == s.drop_first()[j - 1]);
                    }
                }
            },
            None => {
                assert forall|j: int| 0 <= j < s.len() implies s[j] != '\n' by {
                    if j > 0 {
                        assert(s[j] == s.drop_first()[j - 1]);
                    }
                }
            },
        }
    }
}

proof fn lemma_first_newline_is(s: Seq<char>, k: int)
    requires
        0 <= k <= s.len(),
        forall|j: int| 0 <= j < k ==> s[j] != '\n',
        k == s.len() || s[k] == '\n',
    ensures
        first_newline(s) == if k < s.len() {
            Some(k)
        } else {
            None::<int>
        },
{
    lemma_first_newline(s);
    match first_newline(s) {
        Some(m) => {
            if m < k {
                assert(s[m] != '\n');
            } else if m > k {
                assert(s[k] != '\n');
            }
        },
        None => {
            if k < s.len() {
                assert(s[k] != '\n');
            }
        },
    }
}

/// The lines of `cs` (see [`lines_of`]).
fn split_lines(cs: &Vec<char>) -> (ls: Vec<Vec<char>>)
    ensures
        ls@.map_values(|l: Vec<char>| l@) == lines_of(cs@),
{
    let mut ls: Vec<Vec<char>> = Vec::new();
    let mut start: usize = 0;
    proof {
        assert(cs@.skip(0) =~= cs@);
    }
    while start < cs.len()
        invariant
            start <= cs@.len(),
            ls@.map_values(|l: Vec<char>| l@) + lines_of(cs@.skip(start as int)) == lines_of(cs@),
        decreases cs.len() - start,
    {
        let ghost rest = cs@.skip(start as int);
        let mut k = start;
        while k < cs.len() && cs[k] != '\n'
            invariant
                start <= k <= cs@.len(),
                forall|j: int| start <= j < k ==> cs@[j] != '\n',
            decreases cs.len() - k,
        {
            k = k + 1;
        }
        proof {
            assert forall|j: int| 0 <= j < k - start implies rest[j] != '\n' by {
                assert(rest[j] == cs@[start + j]);
            }
            if k < cs.len() {
                assert(rest[k - start] == cs@[k as int]);
            }
            lemma_first_newline_is(rest, k - start);
        }
        let mut line = vec_slice(cs, start, k);
        if k < cs.len() && line.len() > 0 && line[line.len() - 1] == '\r' {
            line.pop();
        }
        let ghost prev = ls@.map_values(|l: Vec<char>| l@);
        if k < cs.len() {
            proof {
                assert(rest.take(k - start) =~= cs@.subrange(start as int, k as int));
                assert(rest.skip(k - start + 1) =~= cs@.skip(k + 1));
            }
            ls.push(line);
            assert(ls@.map_values(|l: Vec<char>| l@) =~= prev.push(line@));
            start = k + 1;
        } else {
            proof {
                assert(rest =~= cs@.subrange(start as int, k as int));
                assert(cs@.skip(k as int) =~= Seq::<char>::empty());
            }
            ls.push(line);
            assert(ls@.map_values(|l: Vec<char>| l@) =~= prev.push(line@));
            start = k;
        }
    }
    proof {
        assert(cs@.skip(start as int) =~= Seq::<char>::empty());
    }
    ls
}

/// Crop `text` to `max_lines` lines (see [`crop_lines_spec`]).
pub fn crop_preview_lines(text: &str, max_lines: usize) -> (r: String)
    ensures
        r@ == crop_lines_spec(text@, max_lines as int),
{
    let cs = chars_of(text);
    let ls = split_lines(&cs);
    proof {
        assert(ls@.map_values(|l: Vec<char>| l@).len() == ls@.len());
    }
    if ls.len() <= max_lines {
        return string_from_chars(&cs);
    }
    let ghost lv = ls@.map_values(|l: Vec<char>| l@);
    let mut out: Vec<char> = Vec::new();
    let mut i: usize = 0;
    while i < max_lines
        invariant
            i <= max_lines < ls@.len(),
            lv == ls@.map_values(|l: Vec<char>| l@),
            out@ == join_lines(lv.take(i as int)),
        decreases max_lines - i,
    {
        let ghost before = out@;
        if i > 0 {
            out.push('\n');
        }
        let line = &ls[i];
        let mut j: usize = 0;
        let ghost mid = out@;
        while j < line.len()
            invariant
                j <= line@.len(),
                out@ == mid + line@.take(j as int),
            decreases line.len() - j,
        {
            out.push(line[j]);
            j = j + 1;
            assert(out@ =~= mid + line@.take(j as int));
        }
        proof {
            assert(line@.take(j as int) =~= line@);
            assert(lv[i as int] == line@);
            assert(lv.take(i + 1).drop_last() =~= lv.take(i as int));
            if i == 0 {
                assert(lv.take(1) =~= seq![line@]);
                assert(out@ =~= line@);
            } else {
                assert(out@ =~= join_lines(lv.take(i as int)) + seq!['\n'] + line@);
            }
        }
        i = i + 1;
    }
    let tail = chars_of("\n...");
    let ghost head = out@;
    let mut k: usize = 0;
    while k < tail.len()
        invariant
            k <= tail@.len(),
            out@ == head + tail@.take(k as int),
        decreases tail.len() - k,
    {
        out.push(tail[k]);
        k = k + 1;
        assert(out@ =~= head + tail@.take(k as int));
    }
    assert(tail@.take(k as int) =~= tail@);
    string_from_chars(&out)
}

/// The index of the first `c` in `s`.
pub open spec fn index_of(s: Seq<char>, c: char) -> Option<int>
    decreases s.len(),
{
    if s.len() == 0 {
        None
    } else if s[0] == c {
        Some(0)
    } else {
        match index_of(s.drop_first(), c) {
            Some(k) => Some(k + 1),
            None => None,
        }
    }
}

/// The index of the first whitespace character in `s`.
pub open spec fn first_ws(s: Seq<char>) -> Option<int>
    decreases s.len(),
{
    if s.len() == 0 {
        None
    } else if is_ws(s[0]) {
        Some(0)
    } else {
        match first_ws(s.drop_first()) {
            Some(k) => Some(k + 1),
            None => None,
        }
    }
}

/// The heading label a reference definition's destination points at: the
/// trimmed destination, cut to what lies between `<` and the first `>`
/// when it is bracketed so, else to what precedes its first whitespace; it
/// must then be an anchor `#label`, and the normalised label must not be
/// empty.
pub open spec fn heading_label_spec(destination: Seq<char>) -> Option<Seq<char>> {
    let t = trim_ws(destination);
    let target = if t.len() > 0 && t[0] == '<' && index_of(t.drop_first(), '>') is Some {
        t.drop_first().take(index_of(t.drop_first(), '>')->0)
    } else {
        match first_ws(t) {
            Some(k) => t.take(k),
            None => t,
        }
    };
    if target.len() > 0 && target[0] == '#' {
        let n = normalized_label(target.drop_first());
        if n.len() > 0 {
            Some(n)
        } else {
            None
        }
    } else {
        None
    }
}

/// The first index at or after `from` where `v` holds `c`, or its length.
fn scan_for(v: &Vec<char>, from: usize, c: char) -> (k: usize)
    requires
        from <= v@.len(),
    ensures
        from <= k <= v@.len(),
        forall|j: int| from <= j < k ==> v@[j] != c,
        k < v@.len() ==> v@[k as int] == c,
{
    let mut k = from;
    while k < v.len() && v[k] != c
        invariant
            from <= k <= v@.len(),
            forall|j: int| from <= j < k ==> v@[j] != c,
        decreases v.len() - k,
    {
        k = k + 1;
    }
    k
}

proof fn lemma_index_of_is(s: Seq<char>, c: char, k: int)
    requires
        0 <= k <= s.len(),
        forall|j: int| 0 <= j < k ==> s[j] != c,
        k == s.len() || s[k] == c,
    ensures
        index_of(s, c) == if k < s.len() {
            Some(k)
        } else {
            None::<int>
        },
    decreases k,
{
    if s.len() > 0 && k > 0 {
        assert forall|j: int| 0 <= j < k - 1 implies s.drop_first()[j] != c by {
            assert(s.drop_first()[j] == s[j + 1]);
        }
        if k < s.len() {
            assert(s.drop_first()[k - 1] == s[k]);
        }
        lemma_index_of_is(s.drop_first(), c, k - 1);
    }
}

proof fn lemma_first_ws_is(s: Seq<char>, k: int)
    requires
        0 <= k <= s.len(),
        forall|j: int| 0 <= j < k ==> !is_ws(s[j]),
        k == s.len() || is_ws(s[k]),
    ensures
        first_ws(s) == if k < s.len() {
            Some(k)
        } else {
            None::<int>
        },
    decreases k,
{
    if s.len() > 0 && k > 0 {
        assert forall|j: int| 0 <= j < k - 1 implies !is_ws(s.drop_first()[j]) by {
            assert(s.drop_first()[j] == s[j + 1]);
        }
        if k < s.len() {
            assert(s.drop_first()[k - 1] == s[k]);
        }
        lemma_first_ws_is(s.drop_first(), k - 1);
    }
}

/// The heading label a destination points at (see
/// [`heading_label_spec`]).
pub fn heading_label_from_destination(destination: &str) -> (r: Option<String>)
    ensures
        match heading_label_spec(destination@) {
            Some(l) => r matches Some(s) && s@ == l,
            None => r is None,
        },
{
    let t = vec_trim(&chars_of(destination));
    let mut target: Vec<char> = Vec::new();
    let mut bracketed = false;
    if t.len() > 0 && t[0] == '<' {
        let k = scan_for(&t, 1, '>');
        proof {
            let d = t@.drop_first();
            assert forall|j: int| 0 <= j < k - 1 implies d[j] != '>' by {
                assert(d[j] == t@[j + 1]);
            }
            if k < t@.len() {
                assert(d[k - 1] == t@[k as int]);
            }
            lemma_index_of_is(d, '>', k - 1);
        }
        if k < t.len() {
            target = vec_slice(&t, 1, k);
            assert(target@ =~= t@.drop_first().take(k - 1));
            bracketed = true;
        }
    }
    if !bracketed {
        let mut k: usize = 0;
        while k < t.len() && !is_whitespace(t[k])
            invariant
                k <= t@.len(),
                forall|j: int| 0 <= j < k ==> !is_ws(t@[j]),
            decreases t.len() - k,
        {
            k = k + 1;
        }
        proof {
            lemma_first_ws_is(t@, k as int);
        }
        target = vec_slice(&t, 0, k);
        assert(target@ =~= match first_ws(t@) {
            Some(m) => t@.take(m),
            None => t@,
        });
    }
    if target.len() == 0 || target[0] != '#' {
        return None;
    }
    let anchor = vec_slice(&target, 1, target.len());
    assert(anchor@ =~= target@.drop_first());
    let n = normalize_label(string_from_chars(&anchor).as_str());
    if chars_of(n.as_str()).len() == 0 {
        None
    } else {
        Some(n)
    }
}

/// One entry of the heading sequence: start and end byte and level.
pub struct HeadingMark {
    pub start: usize,
    pub end: usize,
    pub level: usize,
}

/// The first entry of `hs` at index `from` or later whose range is
/// `start..end`.
pub open spec fn mark_index(hs: Seq<HeadingMark>, start: int, end: int, from: int) -> Option<int>
    decreases hs.len() - from,
{
    if from < 0 || from >= hs.len() {
        None
    } else if hs[from].start == start && hs[from].end == end {
        Some(from)
    } else {
        mark_index(hs, start, end, from + 1)
    }
}

/// The start of the first heading after index `at` (from index `from` on)
/// with a level no greater than `level`, or `len`.
pub open spec fn next_section_start(hs: Seq<HeadingMark>, level: int, from: int, len: int) -> int
    decreases hs.len() - from,
{
    if from < 0 || from >= hs.len() {
        len
    } else if hs[from].level <= level {
        hs[from].start as int
    } else {
        next_section_start(hs, level, from + 1, len)
    }
}

/// Where the section of the heading spanning `start..end` ends: at the
/// next heading of the same or a higher level, or at `text_len`; also at
/// `text_len` when no heading spans that range.
pub open spec fn section_end_spec(hs: Seq<HeadingMark>, start: int, end: int, text_len: int) -> int {
    match mark_index(hs, start, end, 0) {
        None => text_len,
        Some(at) => next_section_start(hs, hs[at].level as int, at + 1, text_len),
    }
}

/// Where a heading's section ends (see [`section_end_spec`]).
pub fn section_end_offset(hs: &Vec<HeadingMark>, start: usize, end: usize, text_len: usize) -> (r: usize)
    ensures
        r == section_end_spec(hs@, start as int, end as int, text_len as int),
{
    let mut at: usize = 0;
    while at < hs.len() && !(hs[at].start == start && hs[at].end == end)
        invariant
            at <= hs@.len(),
            mark_index(hs@, start as int, end as int, 0) == mark_index(hs@, start as int, end as int, at as int),
        decreases hs.len() - at,
    {
        at = at + 1;
    }
    if at == hs.len() {
        return text_len;
    }
    let level = hs[at].level;
    let mut j = at + 1;
    while j < hs.len() && hs[j].level > level
        invariant
            at < j <= hs@.len(),
            level == hs@[at as int].level,
            next_section_start(hs@, level as int, at + 1, text_len as int) == next_section_start(
                hs@,
                level as int,
                j as int,
                text_len as int,
            ),
        decreases hs.len() - j,
    {
        j = j + 1;
    }
    if j == hs.len() {
        text_len
    } else {
        hs[j].start
    }
}

/// Whether a file extension is one of the Markdown family (`md`, `qmd`,
/// `Rmd`, `markdown`, exactly).
pub fn is_markdown_family_extension(ext: &str) -> (b: bool)
    ensures
        b == (ext@ == "md"@ || ext@ == "qmd"@ || ext@ == "Rmd"@ || ext@ == "markdown"@),
{
    str_eq(ext, "md") || str_eq(ext, "qmd") || str_eq(ext, "Rmd") || str_eq(ext, "markdown")
}

/// Whether `m` is a display-math node.
pub open spec fn is_math(es: Seq<ElementView>, m: int) -> bool {
    !es[m].is_token && es[m].kind == SyntaxKind::DISPLAY_MATH
}

/// The first display-math node with index in `[lo, hi)` whose range holds
/// `ds..de`.
pub open spec fn math_holding(es: Seq<ElementView>, ds: int, de: int, lo: int, hi: int) -> Option<int>
    decreases hi - lo,
{
    if lo >= hi {
        None
    } else if is_math(es, lo) && es[lo].start <= ds && de <= es[lo].end {
        Some(lo)
    } else {
        math_holding(es, ds, de, lo + 1, hi)
    }
}

/// Among the display-math nodes with index below `hi` that end at or
/// before `ds`, the nearest one (the first of equally near ones), with its
/// distance.
pub open spec fn nearest_math_before(es: Seq<ElementView>, ds: int, hi: int) -> Option<(int, int)>
    decreases hi,
{
    if hi <= 0 {
        None
    } else {
        let best = nearest_math_before(es, ds, hi - 1);
        let m = hi - 1;
        if is_math(es, m) && es[m].end <= ds {
            let d = ds - es[m].end;
            match best {
                Some((b, bd)) => if d < bd {
                    Some((m, d))
                } else {
                    Some((b, bd))
                },
                None => Some((m, d)),
            }
        } else {
            best
        }
    }
}

/// The display math that declares a label at `ds..de`: the first display
/// math holding the declaration, else the nearest one ending at most 16
/// bytes before it.
pub open spec fn declaring_math_spec(es: Seq<ElementView>, ds: int, de: int) -> Option<int> {
    let hi = es[0].subtree_end;
    match math_holding(es, ds, de, 0, hi) {
        Some(m) => Some(m),
        None => match nearest_math_before(es, ds, hi) {
            Some((m, d)) => if d <= 16 {
                Some(m)
            } else {
                None
            },
            None => None,
        },
    }
}

/// The display-math node declaring a label at `ds..de` (see
/// [`declaring_math_spec`]).
pub fn display_math_for_declaration(tree: &SyntaxTree, ds: usize, de: usize) -> (r: Option<usize>)
    ensures
        r matches Some(m) ==> declaring_math_spec(tree@, ds as int, de as int) == Some(m as int)
            && m < tree@.len(),
        r is None ==> declaring_math_spec(tree@, ds as int, de as int) is None,
{
    let _ = tree.len();
    let hi = tree.subtree_end(0);
    let mut m: usize = 0;
    while m < hi
        invariant
            m <= hi == tree@[0].subtree_end,
            hi <= tree@.len(),
            math_holding(tree@, ds as int, de as int, 0, hi as int) == math_holding(
                tree@,
                ds as int,
                de as int,
                m as int,
                hi as int,
            ),
        decreases hi - m,
    {
        if !tree.is_token(m) && tree.kind(m) == SyntaxKind::DISPLAY_MATH && tree.start(m) <= ds && de
            <= tree.end(m) {
            return Some(m);
        }
        m = m + 1;
    }
    let mut best: Option<(usize, usize)> = None;
    let mut j: usize = 0;
    while j < hi
        invariant
            j <= hi == tree@[0].subtree_end,
            hi <= tree@.len(),
            math_holding(tree@, ds as int, de as int, 0, hi as int) is None,
            best matches Some((x, _)) ==> x < j,
            match nearest_math_before(tree@, ds as int, j as int) {
                Some((b, bd)) => best matches Some((x, xd)) && x == b && xd == bd,
                None => best is None,
            },
        decreases hi - j,
    {
        if !tree.is_token(j) && tree.kind(j) == SyntaxKind::DISPLAY_MATH && tree.end(j) <= ds {
            let d = ds - tree.end(j);
            best = match best {
                Some((b, bd)) => if d < bd {
                    Some((j, d))
                } else {
                    Some((b, bd))
                },
                None => Some((j, d)),
            };
        }
        j = j + 1;
    }
    match best {
        Some((b, bd)) => if bd <= 16 {
            Some(b)
        } else {
            None
        },
        None => None,
    }
}

/// The value of the first field named `key`.
pub open spec fn field(fields: Seq<(String, String)>, key: Seq<char>) -> Option<Seq<char>>
    decreases fields.len(),
{
    if fields.len() == 0 {
        None
    } else if fields[0].0@ == key {
        Some(fields[0].1@)
    } else {
        field(fields.drop_first(), key)
    }
}

/// The value of the first of `keys` that is present, or empty.
pub open spec fn field_or_empty(fields: Seq<(String, String)>, keys: Seq<Seq<char>>) -> Seq<char>
    decreases keys.len(),
{
    if keys.len() == 0 {
        seq![]
    } else {
        match field(fields, keys[0]) {
            Some(v) => v,
            None => field_or_empty(fields, keys.drop_first()),
        }
    }
}

/// The locator of an entry: volume with its number in parentheses (or the
/// number alone), then the pages, joined by `, `.
pub open spec fn locator_spec(fields: Seq<(String, String)>) -> Seq<char> {
    let volume = field_or_empty(fields, seq!["volume"@]);
    let number = field_or_empty(fields, seq!["number"@, "issue"@]);
    let pages = field_or_empty(fields, seq!["pages"@, "page"@]);
    let first = if volume.len() > 0 {
        if number.len() > 0 {
            volume + "("@ + number + ")"@
        } else {
            volume
        }
    } else {
        number
    };
    if first.len() > 0 && pages.len() > 0 {
        first + ", "@ + pages
    } else if first.len() > 0 {
        first
    } else {
        pages
    }
}

/// The one-line summary of a bibliography entry: author (or editor), the
/// year (or date, or issued) in parentheses after it, the title (or book
/// title) in emphasis, the container (journal, journal title, container
/// title or publisher) and the locator, separated as written out below,
/// with surrounding whitespace trimmed.
pub open spec fn entry_summary_spec(fields: Seq<(String, String)>) -> Seq<char> {
    let author = field_or_empty(fields, seq!["author"@, "editor"@]);
    let year = field_or_empty(fields, seq!["year"@, "date"@, "issued"@]);
    let title = field_or_empty(fields, seq!["title"@, "booktitle"@]);
    let container = field_or_empty(
        fields,
        seq!["journal"@, "journaltitle"@, "container-title"@, "publisher"@],
    );
    let locator = locator_spec(fields);
    let s1 = author;
    let s2 = if year.len() > 0 {
        if s1.len() > 0 {
            s1 + " ("@ + year + ")"@
        } else {
            s1 + year
        }
    } else {
        s1
    };
    let s3 = if title.len() > 0 {
        (if s2.len() > 0 {
            s2 + ". "@
        } else {
            s2
        }) + "*"@ + title + "*"@
    } else {
        s2
    };
    let s4 = if container.len() > 0 {
        s3 + ". "@ + container
    } else {
        s3
    };
    let s5 = if locator.len() > 0 {
        s4 + ", "@ + locator
    } else {
        s4
    };
    trim_ws(s5)
}

/// The value of the first field named `key`.
fn lookup(fields: &Vec<(String, String)>, key: &str) -> (r: Option<Vec<char>>)
    ensures
        match field(fields@, key@) {
            Some(v) => r matches Some(x) && x@ == v,
            None => r is None,
        },
{
    let mut i: usize = 0;
    assert(fields@.skip(0) =~= fields@);
    while i < fields.len()
        invariant
            i <= fields@.len(),
            field(fields@, key@) == field(fields@.skip(i as int), key@),
        decreases fields.len() - i,
    {
        assert(fields@.skip(i as int).drop_first() =~= fields@.skip(i + 1));
        assert(fields@.skip(i as int)[0] == fields@[i as int]);
        if str_eq(fields[i].0.as_str(), key) {
            return Some(chars_of(fields[i].1.as_str()));
        }
        i = i + 1;
    }
    None
}

/// The value of the first of the keys that is present, or empty.
fn lookup_any(fields: &Vec<(String, String)>, keys: &[&str]) -> (r: Vec<char>)
    ensures
        r@ == field_or_empty(fields@, keys@.map_values(|k: &str| k@)),
{
    let ghost ks = keys@.map_values(|k: &str| k@);
    let mut i: usize = 0;
    assert(ks.skip(0) =~= ks);
    while i < keys.len()
        invariant
            i <= keys@.len(),
            ks == keys@.map_values(|k: &str| k@),
            field_or_empty(fields@, ks) == field_or_empty(fields@, ks.skip(i as int)),
        decreases keys.len() - i,
    {
        assert(ks.skip(i as int).drop_first() =~= ks.skip(i + 1));
        assert(ks.skip(i as int)[0] == keys@[i as int]@);
        match lookup(fields, keys[i]) {
            Some(v) => {
                return v;
            },
            None => {},
        }
        i = i + 1;
    }
    assert(ks.skip(i as int) =~= Seq::<Seq<char>>::empty());
    Vec::new()
}

fn append(out: &mut Vec<char>, s: &str)
    ensures
        final(out)@ == old(out)@ + s@,
{
    let cs = chars_of(s);
    append_chars(out, &cs);
}

fn append_chars(out: &mut Vec<char>, cs: &Vec<char>)
    ensures
        final(out)@ == old(out)@ + cs@,
{
    let mut i: usize = 0;
    while i < cs.len()
        invariant
            i <= cs@.len(),
            out@ == old(out)@ + cs@.take(i as int),
        decreases cs.len() - i,
    {
        out.push(cs[i]);
        i = i + 1;
        assert(out@ =~= old(out)@ + cs@.take(i as int));
    }
    assert(cs@.take(i as int) =~= cs@);
}

/// The locator of an entry (see [`locator_spec`]).
pub fn build_locator_unified(fields: &Vec<(String, String)>) -> (r: String)
    ensures
        r@ == locator_spec(fields@),
{
    let volume = lookup_any(fields, &["volume"]);
    let number = lookup_any(fields, &["number", "issue"]);
    let pages = lookup_any(fields, &["pages", "page"]);
    proof {
        assert(["volume"]@.map_values(|k: &str| k@) =~= seq!["volume"@]);
        assert(["number", "issue"]@.map_values(|k: &str| k@) =~= seq!["number"@, "issue"@]);
        assert(["pages", "page"]@.map_values(|k: &str| k@) =~= seq!["pages"@, "page"@]);
    }
    let mut first: Vec<char> = Vec::new();
    if volume.len() > 0 {
        append_chars(&mut first, &volume);
        if number.len() > 0 {
            append(&mut first, "(");
            append_chars(&mut first, &number);
            append(&mut first, ")");
        }
    } else {
        append_chars(&mut first, &number);
    }
    let mut out: Vec<char> = Vec::new();
    append_chars(&mut out, &first);
    if first.len() > 0 && pages.len() > 0 {
        append(&mut out, ", ");
        append_chars(&mut out, &pages);
    } else if first.len() == 0 {
        append_chars(&mut out, &pages);
    }
    assert(out@ =~= locator_spec(fields@));
    string_from_chars(&out)
}

/// The summary of a bibliography entry given by its fields (see
/// [`entry_summary_spec`]).
pub fn format_bibliography_entry(fields: &Vec<(String, String)>) -> (r: String)
    ensures
        r@ == entry_summary_spec(fields@),
{
    let author = lookup_any(fields, &["author", "editor"]);
    let year = lookup_any(fields, &["year", "date", "issued"]);
    let title = lookup_any(fields, &["title", "booktitle"]);
    let container = lookup_any(fields, &["journal", "journaltitle", "container-title", "publisher"]);
    let locator = chars_of(build_locator_unified(fields).as_str());
    proof {
        assert(["author", "editor"]@.map_values(|k: &str| k@) =~= seq!["author"@, "editor"@]);
        assert(["year", "date", "issued"]@.map_values(|k: &str| k@) =~= seq!["year"@, "date"@, "issued"@]);
        assert(["title", "booktitle"]@.map_values(|k: &str| k@) =~= seq!["title"@, "booktitle"@]);
        assert(["journal", "journaltitle", "container-title", "publisher"]@.map_values(|k: &str| k@)
            =~= seq!["journal"@, "journaltitle"@, "container-title"@, "publisher"@]);
    }
    let mut s: Vec<char> = Vec::new();
    append_chars(&mut s, &author);
    if year.len() > 0 {
        if s.len() > 0 {
            append(&mut s, " (");
            append_chars(&mut s, &year);
            append(&mut s, ")");
        } else {
            append_chars(&mut s, &year);
        }
    }
    if title.len() > 0 {
        if s.len() > 0 {
            append(&mut s, ". ");
        }
        append(&mut s, "*");
        append_chars(&mut s, &title);
        append(&mut s, "*");
    }
    if container.len() > 0 {
        append(&mut s, ". ");
        append_chars(&mut s, &container);
    }
    if locator.len() > 0 {
        append(&mut s, ", ");
        append_chars(&mut s, &locator);
    }
    string_from_chars(&vec_trim(&s))
}

/// Looking on from position `j` of the document's children `cs`, the
/// title of the first heading.
pub open spec fn first_title(es: Seq<ElementView>, cs: Seq<int>, j: int) -> Option<Seq<char>>
    decreases cs.len() - j,
{
    if j < 0 || j >= cs.len() {
        None
    } else if !es[cs[j]].is_token && es[cs[j]].kind == SyntaxKind::HEADING {
        Some(heading_title(es, cs[j]))
    } else {
        first_title(es, cs, j + 1)
    }
}

/// Block `b` has the range of one of the headings among `cs`.
pub open spec fn has_heading_range(es: Seq<ElementView>, cs: Seq<int>, b: int) -> bool {
    exists|k: int|
        0 <= k < cs.len() && !es[cs[k]].is_token && es[cs[k]].kind == SyntaxKind::HEADING
            && es[#[trigger] cs[k]].start == es[b].start && es[cs[k]].end == es[b].end
}

/// The preview text of block `b`: its trimmed text with whitespace
/// collapsed.
pub open spec fn block_preview(es: Seq<ElementView>, b: int) -> Seq<char> {
    collapse_ws(trim_ws(element_text(es, b)))
}

/// Looking on from position `j` of the document's children `cs`, the
/// cropped preview of the first block that is not a heading and has
/// text.
pub open spec fn first_snippet(es: Seq<ElementView>, cs: Seq<int>, j: int) -> Option<Seq<char>>
    decreases cs.len() - j,
{
    if j < 0 || j >= cs.len() {
        None
    } else if !es[cs[j]].is_token && !has_heading_range(es, cs, cs[j]) && block_preview(
        es,
        cs[j],
    ).len() > 0 {
        Some(crop_spec(block_preview(es, cs[j]), HOVER_PREVIEW_MAX_CHARS as int))
    } else {
        first_snippet(es, cs, j + 1)
    }
}

/// The hover preview of a linked document: its file name (`document` when
/// it has none), the title of its first heading and the preview of its
/// first non-heading block with text; none when the root is not a document
/// or there is neither a title nor a snippet.
pub open spec fn linked_preview_spec(es: Seq<ElementView>, file_name: Option<Seq<char>>) -> Option<
    Seq<char>,
> {
    if es[0].kind != SyntaxKind::DOCUMENT {
        None
    } else {
        let cs = child_elements(es, 0, es[0].subtree_end);
        let title = first_title(es, cs, 0);
        let snippet = first_snippet(es, cs, 0);
        if title is None && snippet is None {
            None
        } else {
            let name = match file_name {
                Some(n) => n,
                None => "document"@,
            };
            Some(
                "**Linked document:** `"@ + name + "`"@ + match title {
                    Some(t) => "\n\n**Title:** "@ + t,
                    None => Seq::<char>::empty(),
                } + match snippet {
                    Some(sn) => "\n\n"@ + sn,
                    None => Seq::<char>::empty(),
                },
            )
        }
    }
}

/// The view of an optional name.
pub open spec fn name_view(n: Option<&str>) -> Option<Seq<char>> {
    match n {
        Some(x) => Some(x@),
        None => None,
    }
}

fn append_str(out: &mut Vec<char>, s: &str)
    ensures
        final(out)@ == old(out)@ + s@,
{
    let cs = chars_of(s);
    let mut i: usize = 0;
    while i < cs.len()
        invariant
            i <= cs@.len(),
            cs@ == s@,
            out@ == old(out)@ + cs@.take(i as int),
        decreases cs.len() - i,
    {
        out.push(cs[i]);
        i = i + 1;
        assert(cs@.take(i as int) =~= cs@.take(i - 1).push(cs@[i - 1]));
    }
    assert(cs@.take(i as int) =~= cs@);
}

/// The hover preview of a linked document (see [`linked_preview_spec`]);
/// `file_name` is the document's file name, when it has one.
pub fn linked_doc_preview_markdown(tree: &SyntaxTree, file_name: Option<&str>) -> (r: Option<String>)
    ensures
        match r {
            Some(m) => linked_preview_spec(tree@, name_view(file_name)) == Some(m@),
            None => linked_preview_spec(tree@, name_view(file_name)) is None,
        },
{
    let _ = tree.len();
    if tree.kind(0) != SyntaxKind::DOCUMENT {
        return None;
    }
    let cs = child_list(tree, 0);
    let ghost sc = cs@.map_values(|x: usize| x as int);
    let mut title: Option<String> = None;
    let mut j: usize = 0;
    while j < cs.len()
        invariant
            j <= cs@.len(),
            sc == cs@.map_values(|x: usize| x as int),
            forall|a: int| 0 <= a < cs@.len() ==> 0 < #[trigger] cs@[a] < tree@.len(),
            title is None ==> first_title(tree@, sc, 0) == first_title(tree@, sc, j as int),
            title matches Some(t) ==> first_title(tree@, sc, 0) == Some(t@),
        decreases cs.len() - j,
    {
        let c = cs[j];
        assert(sc[j as int] == c as int);
        if title.is_none() && !tree.is_token(c) && tree.kind(c) == SyntaxKind::HEADING {
            title = Some(heading_title_of(tree, c));
        }
        j = j + 1;
    }
    let mut snippet: Option<String> = None;
    let mut k: usize = 0;
    while k < cs.len()
        invariant
            k <= cs@.len(),
            sc == cs@.map_values(|x: usize| x as int),
            forall|a: int| 0 <= a < cs@.len() ==> 0 < #[trigger] cs@[a] < tree@.len(),
            snippet is None ==> first_snippet(tree@, sc, 0) == first_snippet(tree@, sc, k as int),
            snippet matches Some(t) ==> first_snippet(tree@, sc, 0) == Some(t@),
        decreases cs.len() - k,
    {
        let b = cs[k];
        assert(sc[k as int] == b as int);
        if snippet.is_none() && !tree.is_token(b) {
            let mut heading_range = false;
            let mut q: usize = 0;
            while q < cs.len()
                invariant
                    q <= cs@.len(),
                    sc == cs@.map_values(|x: usize| x as int),
                    forall|a: int| 0 <= a < cs@.len() ==> 0 < #[trigger] cs@[a] < tree@.len(),
                    b < tree@.len(),
                    heading_range == exists|m: int|
                        0 <= m < q && !tree@[sc[m]].is_token && tree@[sc[m]].kind
                            == SyntaxKind::HEADING && tree@[#[trigger] sc[m]].start
                            == tree@[b as int].start && tree@[sc[m]].end == tree@[b as int].end,
                decreases cs.len() - q,
            {
                let h = cs[q];
                assert(sc[q as int] == h as int);
                if !tree.is_token(h) && tree.kind(h) == SyntaxKind::HEADING && tree.start(h)
                    == tree.start(b) && tree.end(h) == tree.end(b) {
                    heading_range = true;
                }
                q = q + 1;
            }
            if !heading_range {
                let trimmed = string_from_chars(&vec_trim(&chars_of(tree.text(b).as_str())));
                let normalized = normalize_preview_text(trimmed.as_str());
                if chars_of(normalized.as_str()).len() > 0 {
                    snippet = Some(crop_preview(normalized.as_str(), HOVER_PREVIEW_MAX_CHARS));
                }
            }
        }
        k = k + 1;
    }
    if title.is_none() && snippet.is_none() {
        return None;
    }
    let mut out: Vec<char> = Vec::new();
    append_str(&mut out, "**Linked document:** `");
    match file_name {
        Some(n) => append_str(&mut out, n),
        None => append_str(&mut out, "document"),
    }
    append_str(&mut out, "`");
    let ghost head = out@;
    match &title {
        Some(t) => {
            append_str(&mut out, "\n\n**Title:** ");
            append_str(&mut out, t.as_str());
        },
        None => {},
    }
    let ghost mid = out@;
    match &snippet {
        Some(sn) => {
            append_str(&mut out, "\n\n");
            append_str(&mut out, sn.as_str());
        },
        None => {},
    }
    proof {
        let t_part = match title {
            Some(t) => "\n\n**Title:** "@ + t@,
            None => Seq::<char>::empty(),
        };
        let s_part = match snippet {
            Some(sn) => "\n\n"@ + sn@,
            None => Seq::<char>::empty(),
        };
        assert(mid =~= head + t_part);
        assert(out@ =~= head + t_part + s_part);
    }
    Some(string_from_chars(&out))
}

/// The position in the document's children `cs` of the heading block
/// with range `hs..he`.
pub open spec fn heading_position(es: Seq<ElementView>, cs: Seq<int>, hs: int, he: int, j: int) -> Option<int>
    decreases cs.len() - j,
{
    if j < 0 || j >= cs.len() {
        None
    } else if !es[cs[j]].is_token && es[cs[j]].kind == SyntaxKind::HEADING && es[cs[j]].start == hs
        && es[cs[j]].end == he {
        Some(j)
    } else {
        heading_position(es, cs, hs, he, j + 1)
    }
}

/// Looking on from position `j` of the children `cs`, the cropped preview
/// of the first block with text that starts before `section_end`; none
/// once a block starts at or after it.
pub open spec fn section_snippet(es: Seq<ElementView>, cs: Seq<int>, section_end: int, j: int) -> Option<
    Seq<char>,
>
    decreases cs.len() - j,
{
    if j < 0 || j >= cs.len() {
        None
    } else if es[cs[j]].is_token {
        section_snippet(es, cs, section_end, j + 1)
    } else if es[cs[j]].start >= section_end {
        None
    } else if block_preview(es, cs[j]).len() > 0 {
        Some(crop_spec(block_preview(es, cs[j]), HOVER_PREVIEW_MAX_CHARS as int))
    } else {
        section_snippet(es, cs, section_end, j + 1)
    }
}

/// The hover of a heading section: the title of the heading block with
/// range `hs..he` and the preview of the first block with text after it
/// that starts before `section_end`; none when the root is not a document
/// or no heading block has that range.
pub open spec fn section_hover_spec(es: Seq<ElementView>, hs: int, he: int, section_end: int) -> Option<
    Seq<char>,
> {
    if es[0].kind != SyntaxKind::DOCUMENT {
        None
    } else {
        let cs = child_elements(es, 0, es[0].subtree_end);
        match heading_position(es, cs, hs, he, 0) {
            None => None,
            Some(p) => {
                let head = "**Section:** "@ + heading_title(es, cs[p]);
                match section_snippet(es, cs, section_end, p + 1) {
                    Some(sn) => Some(head + "\n\n"@ + sn),
                    None => Some(head),
                }
            },
        }
    }
}

/// The hover of the section whose heading block spans `hs..he`, the
/// section ending at `section_end` (see [`section_hover_spec`]).
pub fn section_hover_markdown(tree: &SyntaxTree, hs: usize, he: usize, section_end: usize) -> (r: Option<String>)
    ensures
        match r {
            Some(m) => section_hover_spec(tree@, hs as int, he as int, section_end as int) == Some(m@),
            None => section_hover_spec(tree@, hs as int, he as int, section_end as int) is None,
        },
{
    let _ = tree.len();
    if tree.kind(0) != SyntaxKind::DOCUMENT {
        return None;
    }
    let cs = child_list(tree, 0);
    let ghost sc = cs@.map_values(|x: usize| x as int);
    let mut j: usize = 0;
    while j < cs.len()
        invariant
            j <= cs@.len(),
            sc == cs@.map_values(|x: usize| x as int),
            forall|a: int| 0 <= a < cs@.len() ==> 0 < #[trigger] cs@[a] < tree@.len(),
            heading_position(tree@, sc, hs as int, he as int, 0) == heading_position(
                tree@,
                sc,
                hs as int,
                he as int,
                j as int,
            ),
        ensures
            j <= cs@.len(),
            heading_position(tree@, sc, hs as int, he as int, 0) == if j < cs@.len() {
                Some(j as int)
            } else {
                None
            },
        decreases cs.len() - j,
    {
        let c = cs[j];
        assert(sc[j as int] == c as int);
        if !tree.is_token(c) && tree.kind(c) == SyntaxKind::HEADING && tree.start(c) == hs && tree.end(c)
            == he {
            break;
        }
        j = j + 1;
    }
    if j == cs.len() {
        return None;
    }
    assert(sc[j as int] == cs@[j as int] as int);
    let title = heading_title_of(tree, cs[j]);
    let mut snippet: Option<String> = None;
    let mut k: usize = j + 1;
    while k < cs.len()
        invariant_except_break
            snippet is None,
        invariant
            j < k <= cs@.len(),
            sc == cs@.map_values(|x: usize| x as int),
            forall|a: int| 0 <= a < cs@.len() ==> 0 < #[trigger] cs@[a] < tree@.len(),
            section_snippet(tree@, sc, section_end as int, j + 1) == section_snippet(
                tree@,
                sc,
                section_end as int,
                k as int,
            ),
        ensures
            match snippet {
                Some(sn) => section_snippet(tree@, sc, section_end as int, j + 1) == Some(sn@),
                None => section_snippet(tree@, sc, section_end as int, j + 1) is None,
            },
        decreases cs.len() - k,
    {
        let b = cs[k];
        assert(sc[k as int] == b as int);
        if !tree.is_token(b) {
            if tree.start(b) >= section_end {
                break;
            }
            let trimmed = string_from_chars(&vec_trim(&chars_of(tree.text(b).as_str())));
            let normalized = normalize_preview_text(trimmed.as_str());
            if chars_of(normalized.as_str()).len() > 0 {
                snippet = Some(crop_preview(normalized.as_str(), HOVER_PREVIEW_MAX_CHARS));
                break;
            }
        }
        k = k + 1;
    }
    let mut out: Vec<char> = Vec::new();
    append_str(&mut out, "**Section:** ");
    append_str(&mut out, title.as_str());
    let ghost head = out@;
    match &snippet {
        Some(sn) => {
            append_str(&mut out, "\n\n");
            append_str(&mut out, sn.as_str());
            assert(out@ =~= head + "\n\n"@ + sn@);
        },
        None => {},
    }
    assert(head =~= "**Section:** "@ + heading_title(tree@, sc[j as int]));
    Some(string_from_chars(&out))
}

/// `s` without trailing newlines.
pub open spec fn trim_end_newlines(s: Seq<char>) -> Seq<char>
    decreases s.len(),
{
    if s.len() > 0 && s.last() == '\n' {
        trim_end_newlines(s.drop_last())
    } else {
        s
    }
}

/// The equation text of a display-math node: its math content without
/// surrounding newlines and trailing whitespace.
pub open spec fn equation_text(es: Seq<ElementView>, m: int) -> Seq<char> {
    trim_end_ws(
        trim_end_newlines(
            trim_start_repeated(
                child_token_text(es, m, SyntaxKind::MATH_CONTENT, es[m].subtree_end),
                seq!['\n'],
            ),
        ),
    )
}

/// Looking on from position `j` of the declarations `ds`, the equation
/// text of the first declaring display math whose text is not empty.
pub open spec fn first_equation(es: Seq<ElementView>, ds: Seq<(usize, usize)>, j: int) -> Option<Seq<char>>
    decreases ds.len() - j,
{
    if j < 0 || j >= ds.len() {
        None
    } else {
        match declaring_math_spec(es, ds[j].0 as int, ds[j].1 as int) {
            Some(m) => if equation_text(es, m).len() > 0 {
                Some(equation_text(es, m))
            } else {
                first_equation(es, ds, j + 1)
            },
            None => first_equation(es, ds, j + 1),
        }
    }
}

/// The hover of an equation label: the first declaration, in order by
/// start with repeats dropped, that has display math with text; the
/// label and at most the first lines of that text as a TeX block.
pub open spec fn equation_hover_spec(es: Seq<ElementView>, label: Seq<char>, decls: Seq<(usize, usize)>) -> Option<
    Seq<char>,
> {
    let ds = dedup_spans(sort_spans(decls, decls.len() as int));
    if ds.len() == 0 {
        None
    } else {
        match first_equation(es, ds, 0) {
            Some(t) => Some(
                "**Equation:** `"@ + label + "`\n\n```tex\n"@ + crop_lines_spec(
                    t,
                    HOVER_EQUATION_PREVIEW_MAX_LINES as int,
                ) + "\n```"@,
            ),
            None => None,
        }
    }
}

fn equation_text_of(tree: &SyntaxTree, m: usize) -> (t: Vec<char>)
    requires
        m < tree@.len(),
    ensures
        t@ == equation_text(tree@, m as int),
{
    let content = chars_of(tree.child_tokens_text(m, SyntaxKind::MATH_CONTENT).as_str());
    let mut newline: Vec<char> = Vec::new();
    newline.push('\n');
    assert(newline@ =~= seq!['\n']);
    let mut t = vec_trim_start_repeated(&content, &newline);
    while t.len() > 0 && t[t.len() - 1] == '\n'
        invariant
            trim_end_newlines(trim_start_repeated(content@, seq!['\n'])) == trim_end_newlines(t@),
        decreases t.len(),
    {
        let ghost before = t@;
        t.pop();
        assert(t@ =~= before.drop_last());
    }
    let ghost base = t@;
    while t.len() > 0 && is_whitespace(t[t.len() - 1])
        invariant
            trim_end_ws(base) == trim_end_ws(t@),
        decreases t.len(),
    {
        let ghost before = t@;
        t.pop();
        assert(t@ =~= before.drop_last());
    }
    t
}

/// The hover of equation `label`, declared at the byte ranges `decls`
/// (see [`equation_hover_spec`]).
pub fn equation_hover_markdown(tree: &SyntaxTree, label: &str, decls: &Vec<(usize, usize)>) -> (r: Option<
    String,
>)
    ensures
        match r {
            Some(m) => equation_hover_spec(tree@, label@, decls@) == Some(m@),
            None => equation_hover_spec(tree@, label@, decls@) is None,
        },
{
    let sorted = sort_by_start(decls);
    let ds = dedup_adjacent(&sorted);
    if ds.len() == 0 {
        return None;
    }
    let mut j: usize = 0;
    while j < ds.len()
        invariant
            j <= ds@.len(),
            ds@ == dedup_spans(sort_spans(decls@, decls@.len() as int)),
            first_equation(tree@, ds@, 0) == first_equation(tree@, ds@, j as int),
        decreases ds.len() - j,
    {
        match display_math_for_declaration(tree, ds[j].0, ds[j].1) {
            Some(m) => {
                let t = equation_text_of(tree, m);
                if t.len() > 0 {
                    let snippet = crop_preview_lines(string_from_chars(&t).as_str(), HOVER_EQUATION_PREVIEW_MAX_LINES);
                    let mut out: Vec<char> = Vec::new();
                    append_str(&mut out, "**Equation:** `");
                    append_str(&mut out, label);
                    append_str(&mut out, "`\n\n```tex\n");
                    append_str(&mut out, snippet.as_str());
                    append_str(&mut out, "\n```");
                    return Some(string_from_chars(&out));
                }
            },
            None => {},
        }
        j = j + 1;
    }
    None
}

} // verus!
