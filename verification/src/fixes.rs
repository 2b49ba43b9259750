//! Applying lint fixes on the command line: which fixes apply under the
//! safety mode, splicing their edits into the text, merging diagnostics
//! from a second pass, and the messages that report the outcome.

use vstd::prelude::*;
use crate::actions::FixEdit;
use crate::text::{
    byte_slice, chars_of, decimal, lemma_byte_slice_len, slice_bytes, str_byte_len, str_eq,
    string_from_chars, usize_to_decimal, utf8_len,
};

verus! {

/// The fix a lint diagnostic carries: its edits, and whether it is safe
/// (keeps the document's meaning).
pub struct LintFix {
    pub safe: bool,
    pub edits: Vec<FixEdit>,
}

/// A lint diagnostic as the fix logic sees it: its rule code, its byte
/// range and its fix, if any.
pub struct LintDiagnostic {
    pub code: String,
    pub start: usize,
    pub end: usize,
    pub fix: Option<LintFix>,
}

/// Whether the fix of `d` applies: it has one, and it is safe unless
/// unsafe fixes are allowed.
pub open spec fn will_apply(d: LintDiagnostic, allow_unsafe: bool) -> bool {
    d.fix matches Some(f) && (allow_unsafe || f.safe)
}

/// Whether a diagnostic's fix would be applied (see [`will_apply`]).
pub fn fix_will_apply(d: &LintDiagnostic, allow_unsafe: bool) -> (b: bool)
    ensures
        b == will_apply(*d, allow_unsafe),
{
    match &d.fix {
        Some(f) => allow_unsafe || f.safe,
        None => false,
    }
}

/// How many of the first `n` diagnostics carry an unsafe fix.
pub open spec fn unsafe_count(ds: Seq<LintDiagnostic>, n: int) -> nat
    decreases n,
{
    if n <= 0 {
        0
    } else {
        unsafe_count(ds, n - 1) + if ds[n - 1].fix matches Some(f) && !f.safe {
            1nat
        } else {
            0nat
        }
    }
}

/// The number of diagnostics carrying an unsafe fix, applied or not.
pub fn count_unsafe_fixes(ds: &Vec<LintDiagnostic>) -> (n: usize)
    ensures
        n == unsafe_count(ds@, ds@.len() as int),
{
    let mut n: usize = 0;
    let mut i: usize = 0;
    while i < ds.len()
        invariant
            i <= ds@.len(),
            n == unsafe_count(ds@, i as int),
            n <= i,
        decreases ds.len() - i,
    {
        let unsafe_fix = match &ds[i].fix {
            Some(f) => !f.safe,
            None => false,
        };
        if unsafe_fix {
            n = n + 1;
        }
        i = i + 1;
    }
    n
}

/// Append `s@` to `out`.
fn push_literal(out: &mut Vec<char>, s: &str)
    ensures
        final(out)@ == old(out)@ + s@,
{
    let cs = chars_of(s);
    push_all(out, &cs);
}

fn push_all(out: &mut Vec<char>, cs: &Vec<char>)
    ensures
        final(out)@ == old(out)@ + cs@,
{
    let mut i: usize = 0;
    while i < cs.len()
        invariant
            i <= cs@.len(),
            out@ == old(out)@ + cs@.take(i as int),
        decreases cs.len() - i,
    {
        out.push(cs[i]);
        i = i + 1;
        assert(out@ =~= old(out)@ + cs@.take(i as int));
    }
    assert(cs@.take(i as int) =~= cs@);
}

/// The hint printed when unsafe fixes were left out.
pub fn unsafe_fixes_hint(count: usize) -> (s: String)
    ensures
        s@ == decimal(count as nat) + " unsafe fix(es) available; run with --unsafe-fixes to apply."@,
{
    let mut out = usize_to_decimal(count);
    push_literal(&mut out, " unsafe fix(es) available; run with --unsafe-fixes to apply.");
    string_from_chars(&out)
}

/// The summary line for a fixed file, if any: nothing when there was
/// nothing to report, else what was fixed and what remains without an
/// automatic fix.
pub open spec fn fix_summary_spec(fixed: usize, remaining: usize, file: Seq<char>) -> Option<Seq<char>> {
    if fixed == 0 && remaining == 0 {
        None
    } else if fixed == 0 {
        Some("Found "@ + decimal(remaining as nat) + " issue(s) in "@ + file + " (no auto-fix available)"@)
    } else if remaining == 0 {
        Some("Fixed "@ + decimal(fixed as nat) + " issue(s) in "@ + file)
    } else {
        Some(
            "Fixed "@ + decimal(fixed as nat) + " issue(s) in "@ + file + " ("@ + decimal(
                remaining as nat,
            ) + " remaining; no auto-fix available)"@,
        )
    }
}

/// The summary line for a fixed file (see [`fix_summary_spec`]).
pub fn fix_summary(fixed: usize, remaining: usize, file: &str) -> (r: Option<String>)
    ensures
        match fix_summary_spec(fixed, remaining, file@) {
            Some(m) => r matches Some(s) && s@ == m,
            None => r is None,
        },
{
    if fixed == 0 && remaining == 0 {
        return None;
    }
    let f = chars_of(file);
    let mut out: Vec<char> = Vec::new();
    if fixed == 0 {
        push_literal(&mut out, "Found ");
        push_all(&mut out, &usize_to_decimal(remaining));
        push_literal(&mut out, " issue(s) in ");
        push_all(&mut out, &f);
        push_literal(&mut out, " (no auto-fix available)");
    } else {
        push_literal(&mut out, "Fixed ");
        push_all(&mut out, &usize_to_decimal(fixed));
        push_literal(&mut out, " issue(s) in ");
        push_all(&mut out, &f);
        if remaining > 0 {
            push_literal(&mut out, " (");
            push_all(&mut out, &usize_to_decimal(remaining));
            push_literal(&mut out, " remaining; no auto-fix available)");
        }
    }
    Some(string_from_chars(&out))
}

/// Two diagnostics report the same thing: same rule code, same range.
pub open spec fn same_report(a: LintDiagnostic, b: LintDiagnostic) -> bool {
    a.code@ == b.code@ && a.start == b.start && a.end == b.end
}

/// `ds` with each of `extra` appended, in order, unless a diagnostic
/// already there (or appended before it) reports the same thing.
pub open spec fn merged(ds: Seq<LintDiagnostic>, extra: Seq<LintDiagnostic>) -> Seq<LintDiagnostic>
    decreases extra.len(),
{
    if extra.len() == 0 {
        ds
    } else {
        let m = merged(ds, extra.drop_last());
        let d = extra.last();
        if exists|k: int| 0 <= k < m.len() && same_report(#[trigger] m[k], d) {
            m
        } else {
            m.push(d)
        }
    }
}

/// Whether some diagnostic of `ds` reports the same thing as `d`.
fn already_reported(ds: &Vec<LintDiagnostic>, d: &LintDiagnostic) -> (b: bool)
    ensures
        b == exists|k: int| 0 <= k < ds@.len() && same_report(#[trigger] ds@[k], *d),
{
    let mut i: usize = 0;
    while i < ds.len()
        invariant
            i <= ds@.len(),
            forall|k: int| 0 <= k < i ==> !same_report(#[trigger] ds@[k], *d),
        decreases ds.len() - i,
    {
        if ds[i].start == d.start && ds[i].end == d.end && str_eq(ds[i].code.as_str(), d.code.as_str()) {
            proof {
                assert(same_report(ds@[i as int], *d));
            }
            return true;
        }
        i = i + 1;
    }
    false
}

/// Add the diagnostics of a second pass that the first did not report
/// (see [`merged`]).
pub fn merge_missing_diagnostics(ds: &mut Vec<LintDiagnostic>, additional: Vec<LintDiagnostic>)
    ensures
        final(ds)@ == merged(old(ds)@, additional@),
{
    let ghost extra = additional@;
    let n = additional.len();
    let mut rest = additional;
    let mut reversed: Vec<LintDiagnostic> = Vec::new();
    while rest.len() > 0
        invariant
            reversed@.len() + rest@.len() == extra.len(),
            extra.len() == n,
            forall|k: int| 0 <= k < rest@.len() ==> rest@[k] == extra[k],
            forall|k: int|
                0 <= k < reversed@.len() ==> reversed@[k] == extra[extra.len() - 1 - k],
        decreases rest.len(),
    {
        let d = rest.pop().unwrap();
        reversed.push(d);
    }
    let mut i: usize = 0;
    while reversed.len() > 0
        invariant
            i + reversed@.len() == extra.len(),
            extra.len() == n,
            forall|k: int|
                0 <= k < reversed@.len() ==> reversed@[k] == extra[extra.len() - 1 - k],
            ds@ == merged(old(ds)@, extra.take(i as int)),
        decreases reversed.len(),
    {
        let d = reversed.pop().unwrap();
        proof {
            assert(d == extra[i as int]);
            assert(extra.take(i + 1).drop_last() =~= extra.take(i as int));
            assert(extra.take(i + 1).last() == extra[i as int]);
        }
        if !already_reported(ds, &d) {
            ds.push(d);
        }
        i = i + 1;
    }
    assert(extra.take(i as int) =~= extra);
}

/// The edits of the diagnostics whose fixes apply, in diagnostic order.
pub open spec fn applied_edits(ds: Seq<LintDiagnostic>, allow_unsafe: bool, n: int) -> Seq<FixEdit>
    decreases n,
{
    if n <= 0 {
        seq![]
    } else {
        let prev = applied_edits(ds, allow_unsafe, n - 1);
        if will_apply(ds[n - 1], allow_unsafe) {
            prev + ds[n - 1].fix->0.edits@
        } else {
            prev
        }
    }
}

/// `es` with `e` inserted after the last edit that starts no later (a
/// stable insertion by start).
pub open spec fn insert_by_start(es: Seq<FixEdit>, e: FixEdit) -> Seq<FixEdit>
    decreases es.len(),
{
    if es.len() == 0 {
        seq![e]
    } else if es.last().start <= e.start {
        es.push(e)
    } else {
        insert_by_start(es.drop_last(), e).push(es.last())
    }
}

/// The first `n` edits in stable order by start.
pub open spec fn sorted_by_start(es: Seq<FixEdit>, n: int) -> Seq<FixEdit>
    decreases n,
{
    if n <= 0 {
        seq![]
    } else {
        insert_by_start(sorted_by_start(es, n - 1), es[n - 1])
    }
}

/// The text `s` with the edits spliced in from byte `last` on: the text up
/// to each edit's start, its replacement, and on from its end; none when a
/// slice would fall outside the text, run backwards or split a character.
pub open spec fn splice(s: Seq<char>, es: Seq<FixEdit>, last: int) -> Option<Seq<char>>
    decreases es.len(),
{
    if es.len() == 0 {
        byte_slice(s, last, utf8_len(s) as int)
    } else {
        match byte_slice(s, last, es[0].start as int) {
            None => None,
            Some(piece) => match splice(s, es.drop_first(), es[0].end as int) {
                None => None,
                Some(rest) => Some(piece + es[0].replacement@ + rest),
            },
        }
    }
}

/// The text with the applicable fixes applied (see [`splice`]).
pub open spec fn fixed_text(input: Seq<char>, ds: Seq<LintDiagnostic>, allow_unsafe: bool) -> Option<Seq<char>> {
    let es = applied_edits(ds, allow_unsafe, ds.len() as int);
    splice(input, sorted_by_start(es, es.len() as int), 0)
}

proof fn lemma_insert_by_start_at(es: Seq<FixEdit>, e: FixEdit, p: int)
    requires
        0 <= p <= es.len(),
        p == 0 || es[p - 1].start <= e.start,
        forall|q: int| p <= q < es.len() ==> #[trigger] es[q].start > e.start,
    ensures
        insert_by_start(es, e) == es.insert(p, e),
    decreases es.len(),
{
    if es.len() == 0 {
        assert(es.insert(p, e) =~= seq![e]);
    } else if p == es.len() {
        assert(es.insert(p, e) =~= es.push(e));
    } else {
        let d = es.drop_last();
        assert(es[es.len() - 1].start > e.start);
        assert forall|q: int| p <= q < d.len() implies #[trigger] d[q].start > e.start by {
            assert(d[q] == es[q]);
        }
        lemma_insert_by_start_at(d, e, p);
        assert(d.insert(p, e).push(es.last()) =~= es.insert(p, e));
    }
}

fn copy_edit(e: &FixEdit) -> (c: FixEdit)
    ensures
        c == *e,
{
    FixEdit { start: e.start, end: e.end, replacement: e.replacement.clone() }
}

/// The applicable edits in stable order by start.
fn ordered_edits(ds: &Vec<LintDiagnostic>, allow_unsafe: bool) -> (r: Vec<FixEdit>)
    ensures
        r@ == sorted_by_start(
            applied_edits(ds@, allow_unsafe, ds@.len() as int),
            applied_edits(ds@, allow_unsafe, ds@.len() as int).len() as int,
        ),
{
    let mut flat: Vec<FixEdit> = Vec::new();
    let mut i: usize = 0;
    while i < ds.len()
        invariant
            i <= ds@.len(),
            flat@ == applied_edits(ds@, allow_unsafe, i as int),
        decreases ds.len() - i,
    {
        if fix_will_apply(&ds[i], allow_unsafe) {
            match &ds[i].fix {
                Some(f) => {
                    let ghost before = flat@;
                    let mut j: usize = 0;
                    while j < f.edits.len()
                        invariant
                            j <= f.edits@.len(),
                            flat@ == before + f.edits@.take(j as int),
                        decreases f.edits.len() - j,
                    {
                        flat.push(copy_edit(&f.edits[j]));
                        j = j + 1;
                        assert(flat@ =~= before + f.edits@.take(j as int));
                    }
                    assert(f.edits@.take(j as int) =~= f.edits@);
                },
                None => {},
            }
        }
        i = i + 1;
    }
    let ghost es = flat@;
    let mut sorted: Vec<FixEdit> = Vec::new();
    let mut k: usize = 0;
    while k < flat.len()
        invariant
            k <= flat@.len(),
            es == flat@,
            sorted@ == sorted_by_start(es, k as int),
        decreases flat.len() - k,
    {
        let mut p: usize = sorted.len();
        while p > 0
            invariant
                p <= sorted@.len(),
                k < flat@.len(),
                forall|q: int| p <= q < sorted@.len() ==> #[trigger] sorted@[q].start > flat@[k as int].start,
            ensures
                p <= sorted@.len(),
                p == 0 || sorted@[p - 1].start <= flat@[k as int].start,
                forall|q: int| p <= q < sorted@.len() ==> #[trigger] sorted@[q].start > flat@[k as int].start,
            decreases p,
        {
            if sorted[p - 1].start <= flat[k].start {
                break;
            }
            p = p - 1;
        }
        proof {
            lemma_insert_by_start_at(sorted@, flat@[k as int], p as int);
        }
        sorted.insert(p, copy_edit(&flat[k]));
        k = k + 1;
    }
    sorted
}

/// `input` with the applicable fixes of `ds` applied: their edits in
/// stable order by start, each replacing its byte range (see
/// [`fixed_text`]); the edits must splice cleanly.
pub fn apply_fixes(input: &str, ds: &Vec<LintDiagnostic>, allow_unsafe: bool) -> (r: String)
    requires
        fixed_text(input@, ds@, allow_unsafe) is Some,
        utf8_len(input@) <= usize::MAX,
    ensures
        r@ == fixed_text(input@, ds@, allow_unsafe)->0,
{
    let es = ordered_edits(ds, allow_unsafe);
    let cs = chars_of(input);
    let len = str_byte_len(input);
    let mut out: Vec<char> = Vec::new();
    let mut last: usize = 0;
    let mut i: usize = 0;
    assert(es@.skip(0) =~= es@);
    assert(out@ + splice(input@, es@, 0)->0 =~= splice(input@, es@, 0)->0);
    while i < es.len()
        invariant
            i <= es@.len(),
            cs@ == input@,
            len == utf8_len(input@),
            utf8_len(input@) <= usize::MAX,
            splice(input@, es@, 0) is Some,
            splice(input@, es@.skip(i as int), last as int) is Some,
            splice(input@, es@, 0)->0 == out@ + splice(input@, es@.skip(i as int), last as int)->0,
        decreases es.len() - i,
    {
        let ghost rest = es@.skip(i as int);
        assert(rest[0] == es@[i as int]);
        assert(rest.drop_first() =~= es@.skip(i + 1));
        let e = &es[i];
        let piece = match slice_bytes(&cs, last, e.start) {
            Some(p) => p,
            None => {
                assert(false);
                return String::new();
            },
        };
        let ghost before = out@;
        push_all(&mut out, &piece);
        push_all(&mut out, &chars_of(e.replacement.as_str()));
        assert(out@ == before + piece@ + e.replacement@);
        last = e.end;
        i = i + 1;
    }
    assert(es@.skip(i as int) =~= Seq::<FixEdit>::empty());
    let tail = match slice_bytes(&cs, last, len) {
        Some(t) => t,
        None => {
            assert(false);
            return String::new();
        },
    };
    push_all(&mut out, &tail);
    string_from_chars(&out)
}

/// The text with the applicable fixes applied, or none when they cannot
/// be applied (an edit overlaps the one before it or falls off character
/// boundaries); see [`fixed_text`].
pub fn try_apply_fixes(input: &str, ds: &Vec<LintDiagnostic>, allow_unsafe: bool) -> (r: Option<String>)
    requires
        utf8_len(input@) <= usize::MAX,
    ensures
        match r {
            Some(t) => fixed_text(input@, ds@, allow_unsafe) == Some(t@),
            None => fixed_text(input@, ds@, allow_unsafe) is None,
        },
{
    let es = ordered_edits(ds, allow_unsafe);
    let cs = chars_of(input);
    let len = str_byte_len(input);
    let mut out: Vec<char> = Vec::new();
    let mut last: usize = 0;
    let mut i: usize = 0;
    assert(es@.skip(0) =~= es@);
    assert(out@ =~= Seq::<char>::empty());
    while i < es.len()
        invariant
            i <= es@.len(),
            cs@ == input@,
            len == utf8_len(input@),
            utf8_len(input@) <= usize::MAX,
            splice(input@, es@, 0) == fixed_text(input@, ds@, allow_unsafe),
            splice(input@, es@, 0) == match splice(input@, es@.skip(i as int), last as int) {
                Some(rest) => Some(out@ + rest),
                None => None,
            },
        decreases es.len() - i,
    {
        let ghost rest = es@.skip(i as int);
        assert(rest[0] == es@[i as int]);
        assert(rest.drop_first() =~= es@.skip(i + 1));
        let e = &es[i];
        let piece = match slice_bytes(&cs, last, e.start) {
            Some(p) => p,
            None => {
                assert(byte_slice(input@, last as int, rest[0].start as int) is None);
                assert(splice(input@, rest, last as int) is None);
                assert(splice(input@, es@, 0) is None);
                assert(fixed_text(input@, ds@, allow_unsafe) is None);
                return None;
            },
        };
        let ghost before = out@;
        push_all(&mut out, &piece);
        push_all(&mut out, &chars_of(e.replacement.as_str()));
        assert(out@ == before + piece@ + e.replacement@);
        proof {
            match splice(input@, es@.skip(i + 1), e.end as int) {
                Some(r2) => {
                    assert(before + (piece@ + e.replacement@ + r2) =~= out@ + r2);
                },
                None => {},
            }
        }
        last = e.end;
        i = i + 1;
    }
    assert(es@.skip(i as int) =~= Seq::<FixEdit>::empty());
    let tail = match slice_bytes(&cs, last, len) {
        Some(t) => t,
        None => {
            return None;
        },
    };
    push_all(&mut out, &tail);
    Some(string_from_chars(&out))
}

/// With no applicable fix the text comes back unchanged.
pub proof fn lemma_no_fixes_keep_text(input: Seq<char>, ds: Seq<LintDiagnostic>, allow_unsafe: bool)
    requires
        forall|k: int| 0 <= k < ds.len() ==> !will_apply(#[trigger] ds[k], allow_unsafe),
    ensures
        fixed_text(input, ds, allow_unsafe) == Some(input),
{
    lemma_no_applied_edits(ds, allow_unsafe, ds.len() as int);
    crate::text::lemma_byte_slice_whole(input);
}

proof fn lemma_no_applied_edits(ds: Seq<LintDiagnostic>, allow_unsafe: bool, n: int)
    requires
        n <= ds.len(),
        forall|k: int| 0 <= k < ds.len() ==> !will_apply(#[trigger] ds[k], allow_unsafe),
    ensures
        applied_edits(ds, allow_unsafe, n).len() == 0,
    decreases n,
{
    if n > 0 {
        lemma_no_applied_edits(ds, allow_unsafe, n - 1);
        assert(!will_apply(ds[n - 1], allow_unsafe));
    }
}

} // verus!
