//! Decisions of the command line front end: worker counts, the line range
//! argument, the stdin sentinel, colour output and file-name labels.

use vstd::prelude::*;
use vstd::string::StringExecFns;
use crate::text::{
    chars_of, decimal, parse_usize, parse_usize_spec, push_char, push_chars, str_eq,
    string_from_chars, usize_to_decimal, vec_find_char, vec_slice, first_index_of,
};

verus! {

/// `budget / workers` rounded up, with at least one worker, and at least 1.
pub open spec fn per_file_share(budget: nat, workers: nat) -> nat {
    let w = if workers == 0 {
        1
    } else {
        workers
    };
    let q = budget / w + if budget % w == 0 {
        0nat
    } else {
        1nat
    };
    if q == 0 {
        1
    } else {
        q
    }
}

/// The share of the shared external-tool budget each of `workers` files
/// processed at once may use: the budget split evenly, rounded up so the
/// files together can still saturate it, and never below one.
pub fn per_file_external_parallel(budget: usize, workers: usize) -> (r: usize)
    ensures
        r == per_file_share(budget as nat, workers as nat),
        r >= 1,
        r * (if workers == 0 {
            1
        } else {
            workers as int
        }) >= budget,
        r > 1 ==> (r - 1) * (if workers == 0 {
            1
        } else {
            workers as int
        }) < budget,
{
    let w = if workers == 0 {
        1
    } else {
        workers
    };
    let q = budget / w;
    let rem = budget % w;
    proof {
        assert(q * w + rem == budget) by (nonlinear_arith)
            requires
                q == budget / w,
                rem == budget % w,
                w > 0,
        ;
        assert(q <= budget) by (nonlinear_arith)
            requires
                q == budget / w,
                w >= 1,
        ;
        assert(rem != 0 ==> q < budget) by (nonlinear_arith)
            requires
                q * w + rem == budget,
                w >= 1,
                q >= 0,
        ;
    }
    let c = if rem == 0 {
        q
    } else {
        q + 1
    };
    let r = if c == 0 {
        1
    } else {
        c
    };
    proof {
        assert(r * w >= budget) by (nonlinear_arith)
            requires
                q * w + rem == budget,
                0 <= rem < w,
                c == if rem == 0 {
                    q as int
                } else {
                    q + 1
                },
                r == if c == 0 {
                    1int
                } else {
                    c as int
                },
                w > 0,
        ;
        assert(r > 1 ==> (r - 1) * w < budget) by (nonlinear_arith)
            requires
                q * w + rem == budget,
                0 <= rem < w,
                c == if rem == 0 {
                    q as int
                } else {
                    q + 1
                },
                r == if c == 0 {
                    1int
                } else {
                    c as int
                },
                w > 0,
        ;
    }
    r
}

/// The worker count for `n_files` items: 1 for at most one item or an
/// explicit `--jobs 1`; otherwise the requested count, or when that is 0
/// (auto) the available parallelism (1 when unknown), never more than the
/// number of items.
pub open spec fn parallelism_spec(cli_jobs: nat, n_files: nat, available: Option<usize>) -> nat {
    if n_files <= 1 || cli_jobs == 1 {
        1
    } else if cli_jobs > 0 {
        if cli_jobs < n_files {
            cli_jobs
        } else {
            n_files
        }
    } else {
        let a: nat = match available {
            Some(n) => n as nat,
            None => 1,
        };
        if a < n_files {
            a
        } else {
            n_files
        }
    }
}

/// Effective worker count (see [`parallelism_spec`]); `available` is what
/// the machine reports as its available parallelism.
pub fn effective_parallelism(cli_jobs: usize, n_files: usize, available: Option<usize>) -> (r:
    usize)
    ensures
        r == parallelism_spec(cli_jobs as nat, n_files as nat, available),
{
    if n_files <= 1 || cli_jobs == 1 {
        return 1;
    }
    if cli_jobs > 0 {
        return if cli_jobs < n_files {
            cli_jobs
        } else {
            n_files
        };
    }
    let a = match available {
        Some(n) => n,
        None => 1,
    };
    if a < n_files {
        a
    } else {
        n_files
    }
}

/// The outcome of parsing a `START:END` line range.
pub open spec fn range_spec(s: Seq<char>) -> Result<(usize, usize), Seq<char>> {
    match first_index_of(s, ':') {
        None => Err(range_format_error(s)),
        Some(i) => if first_index_of(s.skip(i + 1), ':') is Some {
            Err(range_format_error(s))
        } else {
            match parse_usize_spec(s.take(i)) {
                None => Err("Invalid start line '"@ + s.take(i) + "'"@),
                Some(start) => match parse_usize_spec(s.skip(i + 1)) {
                    None => Err("Invalid end line '"@ + s.skip(i + 1) + "'"@),
                    Some(end) => if start == 0 || end == 0 {
                        Err("Line numbers must be 1-indexed (start from 1)"@)
                    } else if start > end {
                        Err(
                            "Start line ("@ + decimal(start as nat) + ") must be less than or equal to end line ("@
                                + decimal(end as nat) + ")"@,
                        )
                    } else {
                        Ok((start, end))
                    },
                },
            }
        },
    }
}

/// The message for a range without exactly one `:`.
pub open spec fn range_format_error(s: Seq<char>) -> Seq<char> {
    "Invalid range format '"@ + s + "'. Expected START:END (e.g., 5:10)"@
}

/// The view of a parse outcome.
pub open spec fn range_result_view(r: Result<(usize, usize), String>) -> Result<
    (usize, usize),
    Seq<char>,
> {
    match r {
        Ok(p) => Ok(p),
        Err(e) => Err(e@),
    }
}

/// Parse a line range `START:END` (1-based, `START <= END`), as in `5:10`.
pub fn parse_range(range_str: &str) -> (r: Result<(usize, usize), String>)
    ensures
        range_result_view(r) == range_spec(range_str@),
{
    let cs = chars_of(range_str);
    let i = match vec_find_char(&cs, ':') {
        Some(i) => i,
        None => {
            return Err(format_error(range_str));
        },
    };
    let after = vec_slice(&cs, i + 1, cs.len());
    assert(after@ =~= cs@.skip(i + 1));
    if vec_find_char(&after, ':').is_some() {
        return Err(format_error(range_str));
    }
    let before = vec_slice(&cs, 0, i);
    assert(before@ =~= cs@.take(i as int));
    let start_s = string_from_chars(&before);
    let end_s = string_from_chars(&after);
    let start = match parse_usize(start_s.as_str()) {
        Some(v) => v,
        None => {
            let mut e = String::from_str("Invalid start line '");
            e.append(start_s.as_str());
            e.append("'");
            return Err(e);
        },
    };
    let end = match parse_usize(end_s.as_str()) {
        Some(v) => v,
        None => {
            let mut e = String::from_str("Invalid end line '");
            e.append(end_s.as_str());
            e.append("'");
            return Err(e);
        },
    };
    if start == 0 || end == 0 {
        return Err(String::from_str("Line numbers must be 1-indexed (start from 1)"));
    }
    if start > end {
        let mut e = String::from_str("Start line (");
        push_chars(&mut e, &usize_to_decimal(start));
        e.append(") must be less than or equal to end line (");
        push_chars(&mut e, &usize_to_decimal(end));
        e.append(")");
        return Err(e);
    }
    Ok((start, end))
}

fn format_error(range_str: &str) -> (e: String)
    ensures
        e@ == range_format_error(range_str@),
{
    let mut e = String::from_str("Invalid range format '");
    e.append(range_str);
    e.append("'. Expected START:END (e.g., 5:10)");
    e
}

/// The message for `-` given together with file paths.
pub open spec fn stdin_mix_error() -> Seq<char> {
    "'-' (stdin) cannot be combined with file path arguments"@
}

/// Some path of `files` is the stdin sentinel `-`.
pub open spec fn has_dash(files: Seq<String>) -> bool {
    exists|k: int| 0 <= k < files.len() && files[k]@ == "-"@
}

/// Treat a lone `-` argument as stdin: `["-"]` becomes no paths (read
/// stdin); `-` together with other paths is an error; any other list is
/// kept as it is.
pub fn normalize_input_paths(files: Vec<String>) -> (r: Result<Vec<String>, String>)
    ensures
        !has_dash(files@) ==> (r matches Ok(v) && v@ == files@),
        has_dash(files@) && files@.len() > 1 ==> (r matches Err(e) && e@ == stdin_mix_error()),
        has_dash(files@) && files@.len() <= 1 ==> (r matches Ok(v) && v@.len() == 0),
{
    let mut dash = false;
    let mut k: usize = 0;
    while k < files.len()
        invariant
            k <= files@.len(),
            dash == exists|j: int| 0 <= j < k && files@[j]@ == "-"@,
        decreases files.len() - k,
    {
        if str_eq(files[k].as_str(), "-") {
            dash = true;
        }
        k = k + 1;
    }
    if !dash {
        return Ok(files);
    }
    if files.len() > 1 {
        return Err(String::from_str("'-' (stdin) cannot be combined with file path arguments"));
    }
    Ok(Vec::new())
}

/// The `parse` subcommand's single optional path: `-` means stdin (none).
pub fn normalize_parse_path(file: Option<String>) -> (r: Option<String>)
    ensures
        match file {
            Some(p) => if p@ == "-"@ {
                r is None
            } else {
                r == Some(p)
            },
            None => r is None,
        },
{
    match file {
        Some(p) => {
            if str_eq(p.as_str(), "-") {
                None
            } else {
                Some(p)
            }
        },
        None => None,
    }
}

/// `count` and the singular or plural noun: `1 file`, `3 files`.
pub fn file_count_label(count: usize, singular: &str, plural: &str) -> (r: String)
    ensures
        r@ == decimal(count as nat) + seq![' '] + (if count == 1 {
            singular@
        } else {
            plural@
        }),
{
    let mut r = String::new();
    push_chars(&mut r, &usize_to_decimal(count));
    push_char(&mut r, ' ');
    if count == 1 {
        r.append(singular);
    } else {
        r.append(plural);
    }
    r
}

/// Whether removing a directory should be retried after a failure: on
/// Windows, where virus scanners and the search indexer briefly hold files
/// open, a permission error is retried up to five times; elsewhere never.
pub fn should_retry_remove(windows: bool, permission_denied: bool, attempt: usize) -> (b: bool)
    ensures
        b == (windows && attempt < 5 && permission_denied),
{
    windows && attempt < 5 && permission_denied
}

/// Whether some target is a file rather than a directory (`is_dir` holds,
/// for each target, whether it is a directory).
pub fn has_explicit_file_targets(is_dir: &Vec<bool>) -> (b: bool)
    ensures
        b == exists|k: int| 0 <= k < is_dir@.len() && !is_dir@[k],
{
    let mut k: usize = 0;
    while k < is_dir.len()
        invariant
            k <= is_dir@.len(),
            forall|j: int| 0 <= j < k ==> is_dir@[j],
        decreases is_dir.len() - k,
    {
        if !is_dir[k] {
            return true;
        }
        k = k + 1;
    }
    false
}

/// When to colour output.
#[derive(Clone, Copy, Debug, PartialEq, Eq, Structural)]
pub enum ColorMode {
    Auto,
    Always,
    Never,
}

/// Whether output is coloured: never with `--no-color`; always or never
/// when asked; in auto mode only on a terminal, and not when `NO_COLOR` is
/// set, `TERM` is unset or `TERM` is `dumb`.
pub open spec fn color_spec(
    mode: ColorMode,
    no_color_flag: bool,
    no_color_env: bool,
    term_env: Option<Seq<char>>,
    stdout_is_terminal: bool,
) -> bool {
    if no_color_flag {
        false
    } else {
        match mode {
            ColorMode::Always => true,
            ColorMode::Never => false,
            ColorMode::Auto => !no_color_env && match term_env {
                Some(t) => t != "dumb"@ && stdout_is_terminal,
                None => false,
            },
        }
    }
}

/// Decide whether to colour output (see [`color_spec`]).
pub fn resolve_color(
    mode: ColorMode,
    no_color_flag: bool,
    no_color_env: bool,
    term_env: Option<&str>,
    stdout_is_terminal: bool,
) -> (b: bool)
    ensures
        b == color_spec(
            mode,
            no_color_flag,
            no_color_env,
            match term_env {
                Some(t) => Some(t@),
                None => None,
            },
            stdout_is_terminal,
        ),
{
    if no_color_flag {
        return false;
    }
    match mode {
        ColorMode::Always => true,
        ColorMode::Never => false,
        ColorMode::Auto => {
            if no_color_env {
                return false;
            }
            match term_env {
                Some(term) => {
                    if str_eq(term, "dumb") {
                        return false;
                    }
                },
                None => {
                    return false;
                },
            }
            stdout_is_terminal
        },
    }
}

/// The two round-trip checks of the debug command.
#[derive(Clone, Copy, Debug, PartialEq, Eq, Structural)]
pub enum CheckKind {
    Losslessness,
    Idempotency,
}

impl CheckKind {
    /// The check's name, as reports print it.
    pub fn label(self) -> (s: &'static str)
        ensures
            self == CheckKind::Losslessness ==> s@ == "losslessness"@,
            self == CheckKind::Idempotency ==> s@ == "idempotency"@,
    {
        match self {
            CheckKind::Losslessness => "losslessness",
            CheckKind::Idempotency => "idempotency",
        }
    }
}

/// A character kept in a file name: an ASCII letter or digit, `.`, `-`
/// or `_`.
pub open spec fn keeps_in_filename(c: char) -> bool {
    ('a' <= c <= 'z') || ('A' <= c <= 'Z') || ('0' <= c <= '9') || c == '.' || c == '-' || c == '_'
}

/// A path made safe as a file name: every other character becomes `_`.
pub fn sanitize_path_for_filename(path: &str) -> (r: String)
    ensures
        r@ == path@.map_values(|c: char| if keeps_in_filename(c) {
            c
        } else {
            '_'
        }),
{
    let cs = chars_of(path);
    let mut out: Vec<char> = Vec::new();
    let mut i: usize = 0;
    while i < cs.len()
        invariant
            i <= cs@.len(),
            cs@ == path@,
            out@ == cs@.take(i as int).map_values(|c: char| if keeps_in_filename(c) {
                c
            } else {
                '_'
            }),
        decreases cs.len() - i,
    {
        let c = cs[i];
        let keep = ('a' <= c && c <= 'z') || ('A' <= c && c <= 'Z') || ('0' <= c && c <= '9') || c
            == '.' || c == '-' || c == '_';
        if keep {
            out.push(c);
        } else {
            out.push('_');
        }
        i = i + 1;
        assert(out@ =~= cs@.take(i as int).map_values(|c: char| if keeps_in_filename(c) {
            c
        } else {
            '_'
        }));
    }
    assert(cs@.take(cs@.len() as int) =~= cs@);
    string_from_chars(&out)
}

} // verus!
