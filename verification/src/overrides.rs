//! Command-line `--option key=value` overrides of the formatting settings:
//! `line-width`, `wrap`, `table-indent` and `extensions.<name>`.

use vstd::prelude::*;
use crate::text::{
    ascii_lower, chars_of, decimal, first_index_of, parse_usize, parse_usize_spec, starts_with,
    str_eq, string_from_chars, trim_ws, usize_to_decimal, vec_find_char, vec_slice, vec_trim,
};

verus! {

/// How paragraphs are wrapped.
#[derive(Clone, Copy, Debug, PartialEq, Eq, Structural)]
pub enum WrapMode {
    Reflow,
    Sentence,
    Semantic,
    Preserve,
}

/// The settings that `--option` can change, with the extension overrides
/// as a list of names and values (each name once).
pub struct FormatSettings {
    pub line_width: usize,
    pub wrap: Option<WrapMode>,
    pub table_indent: usize,
    pub extension_overrides: Vec<(String, bool)>,
}

/// The mathematical view of [`FormatSettings`].
pub struct SettingsView {
    pub line_width: usize,
    pub wrap: Option<WrapMode>,
    pub table_indent: usize,
    pub extensions: Seq<(Seq<char>, bool)>,
}

impl FormatSettings {
    pub open spec fn view_settings(&self) -> SettingsView {
        SettingsView {
            line_width: self.line_width,
            wrap: self.wrap,
            table_indent: self.table_indent,
            extensions: self.extension_overrides@.map_values(|e: (String, bool)| (e.0@, e.1)),
        }
    }
}

/// `m` with `name` set to `value`: in place when present, else appended.
pub open spec fn upsert(m: Seq<(Seq<char>, bool)>, name: Seq<char>, value: bool) -> Seq<(Seq<char>, bool)>
    decreases m.len(),
{
    if m.len() == 0 {
        seq![(name, value)]
    } else if m[0].0 == name {
        seq![(name, value)] + m.drop_first()
    } else {
        seq![m[0]] + upsert(m.drop_first(), name, value)
    }
}

/// `m` with every entry of `updates` set, in order.
pub open spec fn upsert_all(m: Seq<(Seq<char>, bool)>, updates: Seq<(Seq<char>, bool)>) -> Seq<(Seq<char>, bool)>
    decreases updates.len(),
{
    if updates.len() == 0 {
        m
    } else {
        upsert(upsert_all(m, updates.drop_last()), updates.last().0, updates.last().1)
    }
}

/// The wrap mode named `v`.
pub open spec fn wrap_mode_of(v: Seq<char>) -> Option<WrapMode> {
    if v == "reflow"@ {
        Some(WrapMode::Reflow)
    } else if v == "sentence"@ {
        Some(WrapMode::Sentence)
    } else if v == "semantic"@ {
        Some(WrapMode::Semantic)
    } else if v == "preserve"@ {
        Some(WrapMode::Preserve)
    } else {
        None
    }
}

/// The boolean spelled `v` (ASCII case ignored): true, 1, yes, on or
/// false, 0, no, off.
pub open spec fn bool_of(v: Seq<char>) -> Option<bool> {
    let l = v.map_values(|c: char| ascii_lower(c));
    if l == "true"@ || l == "1"@ || l == "yes"@ || l == "on"@ {
        Some(true)
    } else if l == "false"@ || l == "0"@ || l == "no"@ || l == "off"@ {
        Some(false)
    } else {
        None
    }
}

/// The outcome of one `--option`: the settings and pending extension
/// overrides after it, or the error message.
pub open spec fn apply_one(v: SettingsView, pending: Seq<(Seq<char>, bool)>, raw: Seq<char>) -> Result<
    (SettingsView, Seq<(Seq<char>, bool)>),
    Seq<char>,
> {
    match first_index_of(raw, '=') {
        None => Err("invalid --option `"@ + raw + "`: expected key=value"@),
        Some(eq) => {
            let key = trim_ws(raw.take(eq));
            let value = trim_ws(raw.skip(eq + 1));
            if key == "line-width"@ {
                match parse_usize_spec(value) {
                    None => Err(
                        "invalid value for `line-width`: `"@ + value + "` (expected positive integer)"@,
                    ),
                    Some(n) => if n == 0 {
                        Err("invalid value for `line-width`: 0 (expected positive integer)"@)
                    } else {
                        Ok((SettingsView { line_width: n, ..v }, pending))
                    },
                }
            } else if key == "wrap"@ {
                match wrap_mode_of(value) {
                    None => Err(
                        "invalid value for `wrap`: `"@ + value
                            + "` (expected one of: reflow, sentence, semantic, preserve)"@,
                    ),
                    Some(m) => Ok((SettingsView { wrap: Some(m), ..v }, pending)),
                }
            } else if key == "table-indent"@ {
                match parse_usize_spec(value) {
                    None => Err(
                        "invalid value for `table-indent`: `"@ + value
                            + "` (expected an integer 0, 1, 2, or 3)"@,
                    ),
                    Some(n) => if n > 3 {
                        Err(
                            "invalid value for `table-indent`: `"@ + decimal(n as nat)
                                + "` (expected 0, 1, 2, or 3)"@,
                        )
                    } else {
                        Ok((SettingsView { table_indent: n, ..v }, pending))
                    },
                }
            } else if starts_with(key, "extensions."@) {
                let name = trim_ws(key.skip(11));
                if name.len() == 0 {
                    Err(
                        "invalid --option `"@ + raw + "`: missing extension name after `extensions.`"@,
                    )
                } else {
                    match bool_of(value) {
                        None => Err(
                            "invalid value for `"@ + key + "`: `"@ + value
                                + "` (expected boolean: true/false)"@,
                        ),
                        Some(b) => Ok((v, upsert(pending, name, b))),
                    }
                }
            } else {
                Err(
                    "unknown config key in --option: `"@ + key
                        + "` (supported: line-width, wrap, table-indent, extensions.<name>)"@,
                )
            }
        },
    }
}

/// The outcome of the first `n` overrides: the settings reached, the
/// pending extension overrides, and the first error, if any (after which
/// nothing changes).
pub open spec fn apply_prefix(v: SettingsView, raws: Seq<Seq<char>>, n: int) -> (
    SettingsView,
    Seq<(Seq<char>, bool)>,
    Option<Seq<char>>,
)
    decreases n,
{
    if n <= 0 {
        (v, seq![], None)
    } else {
        let (s, p, e) = apply_prefix(v, raws, n - 1);
        match e {
            Some(_) => (s, p, e),
            None => match apply_one(s, p, raws[n - 1]) {
                Ok((s2, p2)) => (s2, p2, None),
                Err(msg) => (s, p, Some(msg)),
            },
        }
    }
}

/// Applying overrides one by one never touches the extension overrides:
/// extension entries only gather in the pending list.
proof fn lemma_prefix_keeps_extensions(v: SettingsView, raws: Seq<Seq<char>>, n: int)
    ensures
        apply_prefix(v, raws, n).0.extensions == v.extensions,
    decreases n,
{
    if n > 0 {
        lemma_prefix_keeps_extensions(v, raws, n - 1);
    }
}

/// Append `s@` to `out`.
fn push_str_chars(out: &mut Vec<char>, s: &str)
    ensures
        final(out)@ == old(out)@ + s@,
{
    let cs = chars_of(s);
    push_vec(out, &cs);
}

fn push_vec(out: &mut Vec<char>, cs: &Vec<char>)
    ensures
        final(out)@ == old(out)@ + cs@,
{
    let mut i: usize = 0;
    while i < cs.len()
        invariant
            i <= cs@.len(),
            out@ == old(out)@ + cs@.take(i as int),
        decreases cs.len() - i,
    {
        out.push(cs[i]);
        i = i + 1;
        assert(out@ =~= old(out)@ + cs@.take(i as int));
    }
    assert(cs@.take(i as int) =~= cs@);
}

/// `a`, `b`, `c` joined.
fn message3(a: &str, b: &Vec<char>, c: &str) -> (m: String)
    ensures
        m@ == a@ + b@ + c@,
{
    let mut out: Vec<char> = Vec::new();
    push_str_chars(&mut out, a);
    push_vec(&mut out, b);
    push_str_chars(&mut out, c);
    assert(out@ =~= a@ + b@ + c@);
    string_from_chars(&out)
}

fn wrap_mode_from(v: &Vec<char>) -> (r: Option<WrapMode>)
    ensures
        r == wrap_mode_of(v@),
{
    let s = string_from_chars(v);
    if str_eq(s.as_str(), "reflow") {
        Some(WrapMode::Reflow)
    } else if str_eq(s.as_str(), "sentence") {
        Some(WrapMode::Sentence)
    } else if str_eq(s.as_str(), "semantic") {
        Some(WrapMode::Semantic)
    } else if str_eq(s.as_str(), "preserve") {
        Some(WrapMode::Preserve)
    } else {
        None
    }
}

fn bool_from(v: &Vec<char>) -> (r: Option<bool>)
    ensures
        r == bool_of(v@),
{
    let mut l: Vec<char> = Vec::new();
    let mut i: usize = 0;
    while i < v.len()
        invariant
            i <= v@.len(),
            l@ == v@.take(i as int).map_values(|c: char| ascii_lower(c)),
        decreases v.len() - i,
    {
        l.push(crate::text::char_ascii_lower(v[i]));
        i = i + 1;
        assert(l@ =~= v@.take(i as int).map_values(|c: char| ascii_lower(c)));
    }
    assert(v@.take(i as int) =~= v@);
    let s = string_from_chars(&l);
    let t = s.as_str();
    if str_eq(t, "true") || str_eq(t, "1") || str_eq(t, "yes") || str_eq(t, "on") {
        Some(true)
    } else if str_eq(t, "false") || str_eq(t, "0") || str_eq(t, "no") || str_eq(t, "off") {
        Some(false)
    } else {
        None
    }
}

/// Set `name` to `value` in `m` (see [`upsert`]).
fn upsert_entry(m: &mut Vec<(String, bool)>, name: &Vec<char>, value: bool)
    ensures
        final(m)@.map_values(|e: (String, bool)| (e.0@, e.1)) == upsert(
            old(m)@.map_values(|e: (String, bool)| (e.0@, e.1)),
            name@,
            value,
        ),
{
    let ghost mv = old(m)@.map_values(|e: (String, bool)| (e.0@, e.1));
    let key = string_from_chars(name);
    let mut i: usize = 0;
    while i < m.len()
        invariant
            i <= m@.len(),
            m@ == old(m)@,
            mv == old(m)@.map_values(|e: (String, bool)| (e.0@, e.1)),
            forall|j: int| 0 <= j < i ==> mv[j].0 != name@,
            key@ == name@,
        decreases m.len() - i,
    {
        if str_eq(m[i].0.as_str(), key.as_str()) {
            proof {
                lemma_upsert_at(mv, name@, value, i as int);
            }
            let ghost before = m@;
            m.set(i, (key, value));
            assert(m@.map_values(|e: (String, bool)| (e.0@, e.1)) =~= mv.update(i as int, (name@, value)));
            return;
        }
        i = i + 1;
    }
    proof {
        lemma_upsert_absent(mv, name@, value);
    }
    m.push((key, value));
    assert(m@.map_values(|e: (String, bool)| (e.0@, e.1)) =~= mv.push((name@, value)));
}

proof fn lemma_upsert_at(m: Seq<(Seq<char>, bool)>, name: Seq<char>, value: bool, i: int)
    requires
        0 <= i < m.len(),
        m[i].0 == name,
        forall|j: int| 0 <= j < i ==> m[j].0 != name,
    ensures
        upsert(m, name, value) == m.update(i, (name, value)),
    decreases i,
{
    if i == 0 {
        assert(seq![(name, value)] + m.drop_first() =~= m.update(0, (name, value)));
    } else {
        assert forall|j: int| 0 <= j < i - 1 implies m.drop_first()[j].0 != name by {
            assert(m.drop_first()[j] == m[j + 1]);
        }
        lemma_upsert_at(m.drop_first(), name, value, i - 1);
        assert(seq![m[0]] + m.drop_first().update(i - 1, (name, value)) =~= m.update(i, (name, value)));
    }
}

proof fn lemma_upsert_absent(m: Seq<(Seq<char>, bool)>, name: Seq<char>, value: bool)
    requires
        forall|j: int| 0 <= j < m.len() ==> m[j].0 != name,
    ensures
        upsert(m, name, value) == m.push((name, value)),
    decreases m.len(),
{
    if m.len() > 0 {
        assert forall|j: int| 0 <= j < m.drop_first().len() implies m.drop_first()[j].0 != name by {
            assert(m.drop_first()[j] == m[j + 1]);
        }
        lemma_upsert_absent(m.drop_first(), name, value);
        assert(seq![m[0]] + m.drop_first().push((name, value)) =~= m.push((name, value)));
    }
}

/// One `--option` (see [`apply_one`]); on error nothing is changed.
fn apply_one_exec(cfg: &mut FormatSettings, pending: &mut Vec<(String, bool)>, raw: &str) -> (r: Result<(), String>)
    ensures
        match apply_one(
            old(cfg).view_settings(),
            old(pending)@.map_values(|e: (String, bool)| (e.0@, e.1)),
            raw@,
        ) {
            Ok((s, p)) => r is Ok && final(cfg).view_settings() == s && final(pending)@.map_values(
                |e: (String, bool)| (e.0@, e.1),
            ) == p,
            Err(m) => r matches Err(e) && e@ == m && final(cfg).view_settings() == old(cfg).view_settings()
                && final(pending)@ == old(pending)@,
        },
{
    let cs = chars_of(raw);
    let eq = match vec_find_char(&cs, '=') {
        Some(eq) => eq,
        None => {
            return Err(message3("invalid --option `", &cs, "`: expected key=value"));
        },
    };
    let after = if eq < cs.len() {
        eq + 1
    } else {
        cs.len()
    };
    let key = vec_trim(&vec_slice(&cs, 0, eq));
    let value = vec_trim(&vec_slice(&cs, after, cs.len()));
    proof {
        assert(cs@.subrange(0, eq as int) =~= cs@.take(eq as int));
        assert(cs@.subrange(eq + 1, cs@.len() as int) =~= cs@.skip(eq + 1));
    }
    let key_s = string_from_chars(&key);
    let value_s = string_from_chars(&value);
    if str_eq(key_s.as_str(), "line-width") {
        match parse_usize(value_s.as_str()) {
            None => Err(message3("invalid value for `line-width`: `", &value, "` (expected positive integer)")),
            Some(n) => if n == 0 {
                Err(string_from_chars(&chars_of("invalid value for `line-width`: 0 (expected positive integer)")))
            } else {
                cfg.line_width = n;
                Ok(())
            },
        }
    } else if str_eq(key_s.as_str(), "wrap") {
        match wrap_mode_from(&value) {
            None => Err(
                message3(
                    "invalid value for `wrap`: `",
                    &value,
                    "` (expected one of: reflow, sentence, semantic, preserve)",
                ),
            ),
            Some(m) => {
                cfg.wrap = Some(m);
                Ok(())
            },
        }
    } else if str_eq(key_s.as_str(), "table-indent") {
        match parse_usize(value_s.as_str()) {
            None => Err(message3("invalid value for `table-indent`: `", &value, "` (expected an integer 0, 1, 2, or 3)")),
            Some(n) => if n > 3 {
                Err(message3("invalid value for `table-indent`: `", &usize_to_decimal(n), "` (expected 0, 1, 2, or 3)"))
            } else {
                cfg.table_indent = n;
                Ok(())
            },
        }
    } else if crate::text::vec_starts_with(&key, &chars_of("extensions.")) {
        proof {
            reveal_strlit("extensions.");
        }
        let name = vec_trim(&vec_slice(&key, 11, key.len()));
        proof {
            assert(key@.subrange(11, key@.len() as int) =~= key@.skip(11));
        }
        if name.len() == 0 {
            return Err(message3("invalid --option `", &cs, "`: missing extension name after `extensions.`"));
        }
        match bool_from(&value) {
            None => {
                let mut out: Vec<char> = Vec::new();
                push_str_chars(&mut out, "invalid value for `");
                push_vec(&mut out, &key);
                push_str_chars(&mut out, "`: `");
                push_vec(&mut out, &value);
                push_str_chars(&mut out, "` (expected boolean: true/false)");
                Err(string_from_chars(&out))
            },
            Some(b) => {
                upsert_entry(pending, &name, b);
                Ok(())
            },
        }
    } else {
        Err(
            message3(
                "unknown config key in --option: `",
                &key,
                "` (supported: line-width, wrap, table-indent, extensions.<name>)",
            ),
        )
    }
}

/// Apply the `--option key=value` overrides in order. The first malformed
/// one stops the run with its error message (the settings then hold what
/// the overrides before it set, the extension overrides unchanged);
/// otherwise the extension overrides are merged in at the end.
pub fn apply_format_overrides(cfg: &mut FormatSettings, overrides: &Vec<String>) -> (r: Result<(), String>)
    ensures
        ({
            let (s, p, e) = apply_prefix(
                old(cfg).view_settings(),
                overrides@.map_values(|o: String| o@),
                overrides@.len() as int,
            );
            match e {
                Some(msg) => r matches Err(m) && m@ == msg && final(cfg).view_settings() == s,
                None => r is Ok && final(cfg).view_settings() == SettingsView {
                    extensions: upsert_all(s.extensions, p),
                    ..s
                },
            }
        }),
        r is Err ==> final(cfg).view_settings().extensions == old(cfg).view_settings().extensions,
{
    let ghost raws = overrides@.map_values(|o: String| o@);
    let ghost start = cfg.view_settings();
    let mut pending: Vec<(String, bool)> = Vec::new();
    let mut i: usize = 0;
    while i < overrides.len()
        invariant
            i <= overrides@.len(),
            raws == overrides@.map_values(|o: String| o@),
            start == old(cfg).view_settings(),
            apply_prefix(start, raws, i as int) == (
                cfg.view_settings(),
                pending@.map_values(|e: (String, bool)| (e.0@, e.1)),
                None::<Seq<char>>,
            ),
        decreases overrides.len() - i,
    {
        assert(raws[i as int] == overrides@[i as int]@);
        let ghost s_before = cfg.view_settings();
        let ghost p_before = pending@.map_values(|e: (String, bool)| (e.0@, e.1));
        match apply_one_exec(cfg, &mut pending, overrides[i].as_str()) {
            Ok(()) => {},
            Err(e) => {
                proof {
                    assert(apply_one(s_before, p_before, raws[i as int]) == Err::<
                        (SettingsView, Seq<(Seq<char>, bool)>),
                        Seq<char>,
                    >(e@));
                    assert(apply_prefix(start, raws, i + 1) == (s_before, p_before, Some(e@)));
                    lemma_prefix_error_sticks(start, raws, i + 1, raws.len() as int);
                    assert(raws.len() == overrides@.len());
                    assert(cfg.view_settings() == s_before);
                    lemma_prefix_keeps_extensions(start, raws, i as int);
                }
                return Err(e);
            },
        }
        i = i + 1;
    }
    let ghost pv = pending@.map_values(|e: (String, bool)| (e.0@, e.1));
    let mut k: usize = 0;
    let ghost base = cfg.view_settings();
    while k < pending.len()
        invariant
            k <= pending@.len(),
            pv == pending@.map_values(|e: (String, bool)| (e.0@, e.1)),
            cfg.view_settings() == (SettingsView { extensions: upsert_all(base.extensions, pv.take(k as int)), ..base }),
        decreases pending.len() - k,
    {
        let name = chars_of(pending[k].0.as_str());
        let value = pending[k].1;
        proof {
            assert(pv.take(k + 1).drop_last() =~= pv.take(k as int));
            assert(pv[k as int] == (name@, value));
        }
        let mut ext = Vec::new();
        std::mem::swap(&mut ext, &mut cfg.extension_overrides);
        upsert_entry(&mut ext, &name, value);
        cfg.extension_overrides = ext;
        k = k + 1;
    }
    proof {
        assert(pv.take(k as int) =~= pv);
    }
    Ok(())
}

/// An `--option` entry that is refused, whatever came before it: no `=`;
/// a `line-width` that is not a positive integer; an unknown `wrap` mode;
/// a `table-indent` that is not 0 to 3; an `extensions.` key with no name
/// or a value that is not a boolean; or an unknown key.
pub open spec fn entry_invalid(raw: Seq<char>) -> bool {
    match first_index_of(raw, '=') {
        None => true,
        Some(eq) => {
            let key = trim_ws(raw.take(eq));
            let value = trim_ws(raw.skip(eq + 1));
            if key == "line-width"@ {
                parse_usize_spec(value) is None || parse_usize_spec(value) == Some(0usize)
            } else if key == "wrap"@ {
                wrap_mode_of(value) is None
            } else if key == "table-indent"@ {
                parse_usize_spec(value) is None || parse_usize_spec(value)->0 > 3
            } else if starts_with(key, "extensions."@) {
                trim_ws(key.skip(11)).len() == 0 || bool_of(value) is None
            } else {
                true
            }
        },
    }
}

/// An entry fails exactly when it is invalid, in any state.
proof fn lemma_apply_one_fails(v: SettingsView, p: Seq<(Seq<char>, bool)>, raw: Seq<char>)
    ensures
        apply_one(v, p, raw) is Err <==> entry_invalid(raw),
{
}

/// Any invalid entry among the overrides makes the whole run fail, and the
/// extension overrides are then left as they were.
pub proof fn lemma_invalid_entry_fails(v: SettingsView, raws: Seq<Seq<char>>, i: int)
    requires
        0 <= i < raws.len(),
        entry_invalid(raws[i]),
    ensures
        apply_prefix(v, raws, raws.len() as int).2 is Some,
        apply_prefix(v, raws, raws.len() as int).0.extensions == v.extensions,
{
    lemma_prefix_keeps_extensions(v, raws, raws.len() as int);
    let (s, p, e) = apply_prefix(v, raws, i);
    if e is Some {
        lemma_prefix_error_sticks(v, raws, i, raws.len() as int);
    } else {
        lemma_apply_one_fails(s, p, raws[i]);
        assert(apply_prefix(v, raws, i + 1).2 is Some);
        lemma_prefix_error_sticks(v, raws, i + 1, raws.len() as int);
    }
}

/// Once an override has failed, later ones change nothing.
proof fn lemma_prefix_error_sticks(v: SettingsView, raws: Seq<Seq<char>>, n: int, m: int)
    requires
        0 <= n <= m,
        apply_prefix(v, raws, n).2 is Some,
    ensures
        apply_prefix(v, raws, m) == apply_prefix(v, raws, n),
    decreases m - n,
{
    if n < m {
        lemma_prefix_error_sticks(v, raws, n, m - 1);
    }
}

} // verus!
