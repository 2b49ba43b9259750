//! Decisions for a batch of watched-file events: which change each path ends
//! with, which paths are interned or have their cached text released,
//! whether the configuration must be reloaded, and which open documents a
//! bibliography or manifest change re-lints; and the workspace folders
//! after a folder change.
//!
//! Paths are compared as strings; the caller hands them in the
//! component-normalised form in which path equality compares them.

use vstd::prelude::*;
use crate::text::{str_eq, strings_contain};

verus! {

/// The kind of a watched-file event.
#[derive(Clone, Copy, Debug, PartialEq, Eq, Structural)]
pub enum FileChange {
    Created,
    Changed,
    Deleted,
}

/// One watched-file event, its path already taken apart: the final path
/// component and its extension (as the platform's path type gives them),
/// and whether the path's canonical form is a configuration file the
/// server already follows (a base reached through `extend`).
pub struct WatchEvent {
    pub path: String,
    pub file_name: Option<String>,
    pub extension: Option<String>,
    pub tracked_config: bool,
    pub change: FileChange,
}

/// The change of the last event for path `p`, if any event names it.
pub open spec fn last_change(events: Seq<WatchEvent>, p: Seq<char>) -> Option<FileChange>
    decreases events.len(),
{
    if events.len() == 0 {
        None
    } else if events.last().path@ == p {
        Some(events.last().change)
    } else {
        last_change(events.drop_last(), p)
    }
}

/// The views of a list of strings.
pub open spec fn string_views(v: Seq<String>) -> Seq<Seq<char>> {
    v.map_values(|s: String| s@)
}

/// A path is interned when its last event does not delete it.
pub open spec fn is_interned(events: Seq<WatchEvent>, p: Seq<char>) -> bool {
    match last_change(events, p) {
        Some(c) => c != FileChange::Deleted,
        None => false,
    }
}

/// A path's cached text is released when its last event deletes it, no
/// open document has that path, and its text was loaded before the batch.
pub open spec fn is_evicted(
    events: Seq<WatchEvent>,
    open: Seq<Seq<char>>,
    loaded: Seq<Seq<char>>,
    p: Seq<char>,
) -> bool {
    last_change(events, p) == Some(FileChange::Deleted) && !open.contains(p) && loaded.contains(p)
}

/// Configuration file names matched by name alone.
pub open spec fn is_config_name(name: Seq<char>) -> bool {
    name == "panache.toml"@ || name == ".panache.toml"@
}

/// An event touches the configuration: by its file name, or because its
/// canonical path is a followed configuration file.
pub open spec fn touches_config(e: WatchEvent) -> bool {
    e.tracked_config || match e.file_name {
        Some(n) => is_config_name(n@),
        None => false,
    }
}

/// Extensions of bibliography files.
pub open spec fn is_bibliography_ext(ext: Option<String>) -> bool {
    match ext {
        Some(e) => e@ == "bib"@ || e@ == "json"@ || e@ == "yaml"@ || e@ == "yml"@ || e@ == "ris"@,
        None => false,
    }
}

/// Extensions of project manifests.
pub open spec fn is_manifest_ext(ext: Option<String>) -> bool {
    match ext {
        Some(e) => e@ == "yaml"@ || e@ == "yml"@,
        None => false,
    }
}

/// The final change of every path of the batch: one entry per distinct
/// path, holding the change of the last event for it (an atomic save can
/// deliver a deletion and then a creation of one path in one batch).
pub fn final_changes(events: &Vec<WatchEvent>) -> (out: Vec<(String, FileChange)>)
    ensures
        forall|i: int, j: int|
            0 <= i < j < out@.len() ==> (#[trigger] out@[i]).0@ != (#[trigger] out@[j]).0@,
        forall|i: int|
            0 <= i < out@.len() ==> last_change(events@, (#[trigger] out@[i]).0@) == Some(
                out@[i].1,
            ),
        forall|k: int|
            0 <= k < events@.len() ==> exists|i: int|
                0 <= i < out@.len() && (#[trigger] out@[i]).0@ == (#[trigger] events@[k]).path@,
{
    let mut out: Vec<(String, FileChange)> = Vec::new();
    let mut k: usize = 0;
    while k < events.len()
        invariant
            k <= events@.len(),
            forall|i: int, j: int|
                0 <= i < j < out@.len() ==> (#[trigger] out@[i]).0@ != (#[trigger] out@[j]).0@,
            forall|i: int|
                0 <= i < out@.len() ==> last_change(events@.take(k as int), (#[trigger] out@[i]).0@)
                    == Some(out@[i].1),
            forall|kk: int|
                0 <= kk < k ==> exists|i: int|
                    0 <= i < out@.len() && (#[trigger] out@[i]).0@ == (#[trigger] events@[kk]).path@,
        decreases events.len() - k,
    {
        let ev = &events[k];
        let mut i: usize = 0;
        let mut found: Option<usize> = None;
        while i < out.len()
            invariant_except_break
                found is None,
            invariant
                i <= out@.len(),
                forall|j: int| 0 <= j < i ==> (#[trigger] out@[j]).0@ != ev.path@,
            ensures
                match found {
                    Some(f) => f < out@.len() && out@[f as int].0@ == ev.path@,
                    None => forall|j: int| 0 <= j < out@.len() ==> (#[trigger] out@[j]).0@ != ev.path@,
                },
            decreases out.len() - i,
        {
            if str_eq(out[i].0.as_str(), ev.path.as_str()) {
                found = Some(i);
                break;
            }
            i = i + 1;
        }
        let ghost before = out@;
        let ghost prefix = events@.take(k as int);
        let ghost next = events@.take(k + 1);
        proof {
            assert(next.drop_last() =~= prefix);
            assert(next.last() == events@[k as int]);
        }
        match found {
            Some(f) => {
                out.set(f, (ev.path.clone(), ev.change));
                proof {
                    assert forall|kk: int| 0 <= kk < k + 1 implies exists|j: int|
                        0 <= j < out@.len() && (#[trigger] out@[j]).0@
                            == (#[trigger] events@[kk]).path@ by {
                        if kk == k {
                            assert(out@[f as int].0@ == events@[kk].path@);
                        } else {
                            let j = choose|j: int|
                                0 <= j < before.len() && (#[trigger] before[j]).0@
                                    == events@[kk].path@;
                            assert(out@[j].0@ == before[j].0@);
                        }
                    }
                }
            },
            None => {
                out.push((ev.path.clone(), ev.change));
                proof {
                    assert forall|kk: int| 0 <= kk < k + 1 implies exists|j: int|
                        0 <= j < out@.len() && (#[trigger] out@[j]).0@
                            == (#[trigger] events@[kk]).path@ by {
                        if kk == k {
                            assert(out@[before.len() as int].0@ == events@[kk].path@);
                        } else {
                            let j = choose|j: int|
                                0 <= j < before.len() && (#[trigger] before[j]).0@
                                    == events@[kk].path@;
                            assert(out@[j] == before[j]);
                        }
                    }
                }
            },
        }
        k = k + 1;
    }
    proof {
        assert(events@.take(events@.len() as int) =~= events@);
    }
    out
}

/// The paths to intern: those whose final change is not a deletion, in
/// the order of `finals`.
pub open spec fn interned_paths(finals: Seq<(String, FileChange)>) -> Seq<Seq<char>>
    decreases finals.len(),
{
    if finals.len() == 0 {
        seq![]
    } else if finals.last().1 != FileChange::Deleted {
        interned_paths(finals.drop_last()).push(finals.last().0@)
    } else {
        interned_paths(finals.drop_last())
    }
}

/// The paths whose cached text is released: final change a deletion, not
/// an open document's path, loaded before the batch; in the order of
/// `finals`.
pub open spec fn evicted_paths(
    finals: Seq<(String, FileChange)>,
    open: Seq<Seq<char>>,
    loaded: Seq<Seq<char>>,
) -> Seq<Seq<char>>
    decreases finals.len(),
{
    if finals.len() == 0 {
        seq![]
    } else {
        let p = finals.last().0@;
        let rest = evicted_paths(finals.drop_last(), open, loaded);
        if finals.last().1 == FileChange::Deleted && !open.contains(p) && loaded.contains(p) {
            rest.push(p)
        } else {
            rest
        }
    }
}

/// Whether any event of the batch touches the configuration.
pub open spec fn batch_touches_config(events: Seq<WatchEvent>) -> bool {
    exists|k: int| 0 <= k < events.len() && touches_config(#[trigger] events[k])
}

/// What a batch of watched-file events asks of the server.
pub struct WatchPlan {
    pub finals: Vec<(String, FileChange)>,
    pub intern: Vec<String>,
    pub evict: Vec<String>,
    pub reload_config: bool,
}

fn is_config_event(e: &WatchEvent) -> (b: bool)
    ensures
        b == touches_config(*e),
{
    if e.tracked_config {
        return true;
    }
    match &e.file_name {
        Some(n) => str_eq(n.as_str(), "panache.toml") || str_eq(n.as_str(), ".panache.toml"),
        None => false,
    }
}

/// Plans a batch: the final change of every path (see [`final_changes`]),
/// the paths to intern, the paths whose cached text is released, and
/// whether the configuration of the open documents is reloaded.
pub fn plan_watched_changes(events: &Vec<WatchEvent>, open: &Vec<String>, loaded: &Vec<String>) -> (plan: WatchPlan)
    ensures
        forall|i: int, j: int|
            0 <= i < j < plan.finals@.len() ==> (#[trigger] plan.finals@[i]).0@
                != (#[trigger] plan.finals@[j]).0@,
        forall|i: int|
            0 <= i < plan.finals@.len() ==> last_change(events@, (#[trigger] plan.finals@[i]).0@)
                == Some(plan.finals@[i].1),
        forall|k: int|
            0 <= k < events@.len() ==> exists|i: int|
                0 <= i < plan.finals@.len() && (#[trigger] plan.finals@[i]).0@
                    == (#[trigger] events@[k]).path@,
        string_views(plan.intern@) == interned_paths(plan.finals@),
        string_views(plan.evict@) == evicted_paths(
            plan.finals@,
            string_views(open@),
            string_views(loaded@),
        ),
        forall|q: Seq<char>|
            #![trigger string_views(plan.intern@).contains(q)]
            string_views(plan.intern@).contains(q) <==> is_interned(events@, q),
        forall|q: Seq<char>|
            #![trigger string_views(plan.evict@).contains(q)]
            string_views(plan.evict@).contains(q) <==> is_evicted(
                events@,
                string_views(open@),
                string_views(loaded@),
                q,
            ),
        plan.reload_config == batch_touches_config(events@),
{
    let finals = final_changes(events);
    let mut intern: Vec<String> = Vec::new();
    let mut evict: Vec<String> = Vec::new();
    let mut i: usize = 0;
    while i < finals.len()
        invariant
            i <= finals@.len(),
            string_views(intern@) == interned_paths(finals@.take(i as int)),
            string_views(evict@) == evicted_paths(
                finals@.take(i as int),
                string_views(open@),
                string_views(loaded@),
            ),
        decreases finals.len() - i,
    {
        let (p, c) = (&finals[i].0, finals[i].1);
        proof {
            assert(finals@.take(i + 1).drop_last() =~= finals@.take(i as int));
            assert(finals@.take(i + 1).last() == finals@[i as int]);
        }
        let ghost old_intern = intern@;
        let ghost old_evict = evict@;
        if c != FileChange::Deleted {
            intern.push(p.clone());
            proof {
                assert(string_views(intern@) =~= string_views(old_intern).push(p@));
            }
        } else {
            let is_open = strings_contain(open, p.as_str());
            let was_loaded = strings_contain(loaded, p.as_str());
            if !is_open && was_loaded {
                evict.push(p.clone());
                proof {
                    assert(string_views(evict@) =~= string_views(old_evict).push(p@));
                }
            }
        }
        i = i + 1;
    }
    proof {
        assert(finals@.take(finals@.len() as int) =~= finals@);
        let ov = string_views(open@);
        let lv = string_views(loaded@);
        assert forall|q: Seq<char>|
            #![trigger string_views(intern@).contains(q)]
            string_views(intern@).contains(q) <==> is_interned(events@, q) by {
            lemma_interned_member(finals@, q);
            lemma_final_of_path(events@, finals@, q);
        }
        assert forall|q: Seq<char>|
            #![trigger string_views(evict@).contains(q)]
            string_views(evict@).contains(q) <==> is_evicted(events@, ov, lv, q) by {
            lemma_evicted_member(finals@, ov, lv, q);
            lemma_final_of_path(events@, finals@, q);
        }
    }
    let mut reload_config = false;
    let mut k: usize = 0;
    while k < events.len()
        invariant
            k <= events@.len(),
            reload_config == exists|kk: int| 0 <= kk < k && touches_config(#[trigger] events@[kk]),
        decreases events.len() - k,
    {
        if is_config_event(&events[k]) {
            reload_config = true;
        }
        k = k + 1;
    }
    WatchPlan { finals, intern, evict, reload_config }
}

/// Whether an event's extension marks a bibliography and whether it
/// marks a project manifest (a `.yml`/`.yaml` file can be both).
pub fn referenced_kinds(e: &WatchEvent) -> (r: (bool, bool))
    ensures
        r.0 == is_bibliography_ext(e.extension),
        r.1 == is_manifest_ext(e.extension),
{
    match &e.extension {
        Some(x) => {
            let x = x.as_str();
            let manifest = str_eq(x, "yaml") || str_eq(x, "yml");
            let bib = manifest || str_eq(x, "bib") || str_eq(x, "json") || str_eq(x, "ris");
            (bib, manifest)
        },
        None => (false, false),
    }
}

/// Whether an open document is re-linted for a change of `path`: as a
/// bibliography its valid front matter lists (`bibliography`), or as a
/// project manifest or metadata file it depends on
/// (`manifest_dependencies`).
pub open spec fn needs_relint(
    path: Seq<char>,
    is_bibliography: bool,
    is_manifest: bool,
    regions: Seq<crate::helpers::YamlRegion>,
    bibliography: Option<Seq<Seq<char>>>,
    manifest_dependencies: Seq<Seq<char>>,
) -> bool {
    (is_bibliography && crate::helpers::frontmatter_valid(regions) && match bibliography {
        Some(ps) => ps.contains(path),
        None => false,
    }) || (is_manifest && manifest_dependencies.contains(path))
}

/// Decides whether an open document is re-linted for a change of `path`
/// (see [`needs_relint`]).
pub fn document_needs_relint(
    path: &str,
    is_bibliography: bool,
    is_manifest: bool,
    regions: &Vec<crate::helpers::YamlRegion>,
    bibliography: &Option<Vec<String>>,
    manifest_dependencies: &Vec<String>,
) -> (b: bool)
    ensures
        b == needs_relint(
            path@,
            is_bibliography,
            is_manifest,
            regions@,
            match bibliography {
                Some(ps) => Some(string_views(ps@)),
                None => None,
            },
            string_views(manifest_dependencies@),
        ),
{
    let mut relint = false;
    if is_bibliography && crate::helpers::is_yaml_frontmatter_valid(regions) {
        if let Some(ps) = bibliography {
            relint = strings_contain(ps, path);
        }
    }
    if !relint && is_manifest {
        relint = strings_contain(manifest_dependencies, path);
    }
    relint
}

proof fn lemma_last_change_at(events: Seq<WatchEvent>, k: int)
    requires
        0 <= k < events.len(),
        forall|j: int| k < j < events.len() ==> (#[trigger] events[j]).path@ != events[k].path@,
    ensures
        last_change(events, events[k].path@) == Some(events[k].change),
    decreases events.len(),
{
    if k < events.len() - 1 {
        let d = events.drop_last();
        assert(events[events.len() - 1].path@ != events[k].path@);
        assert forall|j: int| k < j < d.len() implies (#[trigger] d[j]).path@ != d[k].path@ by {
            assert(d[j] == events[j]);
        }
        lemma_last_change_at(d, k);
        assert(d[k] == events[k]);
    }
}

/// The last event for a path decides its fate: a path whose last event in
/// the batch creates or changes it (say, deleted and then re-created by an
/// atomic save) is interned, and its cached text is not released.
pub proof fn lemma_recreated_path_is_kept(
    events: Seq<WatchEvent>,
    open: Seq<Seq<char>>,
    loaded: Seq<Seq<char>>,
    k: int,
)
    requires
        0 <= k < events.len(),
        events[k].change != FileChange::Deleted,
        forall|j: int| k < j < events.len() ==> (#[trigger] events[j]).path@ != events[k].path@,
    ensures
        is_interned(events, events[k].path@),
        !is_evicted(events, open, loaded, events[k].path@),
{
    lemma_last_change_at(events, k);
}

/// An open document's buffer is authoritative: its path's cached text is
/// never released, and a path whose last event deletes it is not interned.
pub proof fn lemma_open_or_deleted_paths(
    events: Seq<WatchEvent>,
    open: Seq<Seq<char>>,
    loaded: Seq<Seq<char>>,
    k: int,
)
    requires
        0 <= k < events.len(),
        forall|j: int| k < j < events.len() ==> (#[trigger] events[j]).path@ != events[k].path@,
    ensures
        open.contains(events[k].path@) ==> !is_evicted(events, open, loaded, events[k].path@),
        events[k].change == FileChange::Deleted ==> !is_interned(events, events[k].path@),
        events[k].change == FileChange::Deleted && !open.contains(events[k].path@) && loaded.contains(
            events[k].path@,
        ) ==> is_evicted(events, open, loaded, events[k].path@),
{
    lemma_last_change_at(events, k);
}

proof fn lemma_last_change_names(events: Seq<WatchEvent>, q: Seq<char>)
    ensures
        last_change(events, q) is Some ==> exists|k: int|
            0 <= k < events.len() && (#[trigger] events[k]).path@ == q,
    decreases events.len(),
{
    if events.len() > 0 && events.last().path@ != q {
        lemma_last_change_names(events.drop_last(), q);
        if last_change(events, q) is Some {
            let k = choose|k: int|
                0 <= k < events.drop_last().len() && (#[trigger] events.drop_last()[k]).path@ == q;
            assert(events[k] == events.drop_last()[k]);
        }
    } else if events.len() > 0 {
        assert(events[events.len() - 1] == events.last());
    }
}

/// Under the contract of [`final_changes`], the entry of `finals` for `q`,
/// when there is one, holds `q`'s last change, and there is one exactly
/// when some event names `q`.
proof fn lemma_final_of_path(events: Seq<WatchEvent>, finals: Seq<(String, FileChange)>, q: Seq<char>)
    requires
        forall|i: int|
            0 <= i < finals.len() ==> last_change(events, (#[trigger] finals[i]).0@) == Some(
                finals[i].1,
            ),
        forall|k: int|
            0 <= k < events.len() ==> exists|i: int|
                0 <= i < finals.len() && (#[trigger] finals[i]).0@ == (#[trigger] events[k]).path@,
    ensures
        last_change(events, q) is Some ==> exists|i: int|
            0 <= i < finals.len() && (#[trigger] finals[i]).0@ == q,
        forall|i: int|
            0 <= i < finals.len() && (#[trigger] finals[i]).0@ == q ==> last_change(events, q)
                == Some(finals[i].1),
{
    lemma_last_change_names(events, q);
    if last_change(events, q) is Some {
        let k = choose|k: int| 0 <= k < events.len() && (#[trigger] events[k]).path@ == q;
        assert(events[k].path@ == q);
    }
}

proof fn lemma_interned_member(finals: Seq<(String, FileChange)>, q: Seq<char>)
    ensures
        interned_paths(finals).contains(q) <==> exists|i: int|
            0 <= i < finals.len() && (#[trigger] finals[i]).0@ == q && finals[i].1
                != FileChange::Deleted,
    decreases finals.len(),
{
    if finals.len() > 0 {
        let n = finals.len() - 1;
        let d = finals.drop_last();
        let last = finals[n];
        lemma_interned_member(d, q);
        let rest = interned_paths(d);
        vstd::seq_lib::lemma_seq_contains_after_push(rest, last.0@, q);
        assert forall|i: int| 0 <= i < n implies #[trigger] d[i] == finals[i] by {}
        if interned_paths(finals).contains(q) {
            if rest.contains(q) {
                let i = choose|i: int|
                    0 <= i < d.len() && (#[trigger] d[i]).0@ == q && d[i].1 != FileChange::Deleted;
                assert(finals[i] == d[i]);
            } else {
                assert(finals[n].0@ == q && finals[n].1 != FileChange::Deleted);
            }
        }
        if exists|i: int|
            0 <= i < finals.len() && (#[trigger] finals[i]).0@ == q && finals[i].1
                != FileChange::Deleted {
            let i = choose|i: int|
                0 <= i < finals.len() && (#[trigger] finals[i]).0@ == q && finals[i].1
                    != FileChange::Deleted;
            if i < n {
                assert(d[i] == finals[i]);
                assert(rest.contains(q));
            }
        }
    }
}

proof fn lemma_evicted_member(
    finals: Seq<(String, FileChange)>,
    open: Seq<Seq<char>>,
    loaded: Seq<Seq<char>>,
    q: Seq<char>,
)
    ensures
        evicted_paths(finals, open, loaded).contains(q) <==> (exists|i: int|
            0 <= i < finals.len() && (#[trigger] finals[i]).0@ == q && finals[i].1
                == FileChange::Deleted) && !open.contains(q) && loaded.contains(q),
    decreases finals.len(),
{
    if finals.len() > 0 {
        let n = finals.len() - 1;
        let d = finals.drop_last();
        let last = finals[n];
        lemma_evicted_member(d, open, loaded, q);
        let rest = evicted_paths(d, open, loaded);
        vstd::seq_lib::lemma_seq_contains_after_push(rest, last.0@, q);
        assert forall|i: int| 0 <= i < n implies #[trigger] d[i] == finals[i] by {}
        if evicted_paths(finals, open, loaded).contains(q) {
            if rest.contains(q) {
                let i = choose|i: int|
                    0 <= i < d.len() && (#[trigger] d[i]).0@ == q && d[i].1 == FileChange::Deleted;
                assert(finals[i] == d[i]);
            } else {
                assert(finals[n].0@ == q && finals[n].1 == FileChange::Deleted);
            }
        }
        if (exists|i: int|
            0 <= i < finals.len() && (#[trigger] finals[i]).0@ == q && finals[i].1
                == FileChange::Deleted) && !open.contains(q) && loaded.contains(q) {
            let i = choose|i: int|
                0 <= i < finals.len() && (#[trigger] finals[i]).0@ == q && finals[i].1
                    == FileChange::Deleted;
            if i < n {
                assert(d[i] == finals[i]);
                assert(rest.contains(q));
            }
        }
    }
}

/// The folders not among `removed`, in order.
pub open spec fn keep_unremoved(folders: Seq<Seq<char>>, removed: Seq<Seq<char>>) -> Seq<Seq<char>>
    decreases folders.len(),
{
    if folders.len() == 0 {
        seq![]
    } else {
        let rest = keep_unremoved(folders.drop_last(), removed);
        if removed.contains(folders.last()) {
            rest
        } else {
            rest.push(folders.last())
        }
    }
}

/// `folders` followed by each of `added` not already present, in order.
pub open spec fn append_new(folders: Seq<Seq<char>>, added: Seq<Seq<char>>) -> Seq<Seq<char>>
    decreases added.len(),
{
    if added.len() == 0 {
        folders
    } else {
        let acc = append_new(folders, added.drop_last());
        if acc.contains(added.last()) {
            acc
        } else {
            acc.push(added.last())
        }
    }
}

/// The workspace folders after a change: the removed ones dropped, then
/// the added ones appended unless already present.
pub open spec fn folders_after(
    folders: Seq<Seq<char>>,
    removed: Seq<Seq<char>>,
    added: Seq<Seq<char>>,
) -> Seq<Seq<char>> {
    append_new(keep_unremoved(folders, removed), added)
}

/// Applies a workspace-folder change (see [`folders_after`]).
pub fn update_workspace_folders(folders: &mut Vec<String>, removed: &Vec<String>, added: Vec<String>)
    ensures
        string_views(final(folders)@) == folders_after(
            string_views(old(folders)@),
            string_views(removed@),
            string_views(added@),
        ),
{
    let ghost rv = string_views(removed@);
    let ghost fv = string_views(folders@);
    let mut kept: Vec<String> = Vec::new();
    let mut i: usize = 0;
    while i < folders.len()
        invariant
            i <= folders@.len(),
            fv == string_views(folders@),
            rv == string_views(removed@),
            string_views(kept@) == keep_unremoved(fv.take(i as int), rv),
        decreases folders.len() - i,
    {
        proof {
            assert(fv.take(i + 1).drop_last() =~= fv.take(i as int));
            assert(fv.take(i + 1).last() == folders@[i as int]@);
        }
        if !strings_contain(removed, folders[i].as_str()) {
            let ghost before = kept@;
            kept.push(folders[i].clone());
            proof {
                assert(string_views(kept@) =~= string_views(before).push(folders@[i as int]@));
            }
        }
        i = i + 1;
    }
    proof {
        assert(fv.take(i as int) =~= fv);
    }
    let ghost base = string_views(kept@);
    let ghost av = string_views(added@);
    let mut j: usize = 0;
    while j < added.len()
        invariant
            j <= added@.len(),
            av == string_views(added@),
            string_views(kept@) == append_new(base, av.take(j as int)),
        decreases added.len() - j,
    {
        proof {
            assert(av.take(j + 1).drop_last() =~= av.take(j as int));
            assert(av.take(j + 1).last() == added@[j as int]@);
        }
        if !strings_contain(&kept, added[j].as_str()) {
            let ghost before = kept@;
            kept.push(added[j].clone());
            proof {
                assert(string_views(kept@) =~= string_views(before).push(added@[j as int]@));
            }
        }
        j = j + 1;
    }
    proof {
        assert(av.take(j as int) =~= av);
    }
    *folders = kept;
}

/// No folder occurs twice.
pub open spec fn distinct_folders(f: Seq<Seq<char>>) -> bool {
    forall|i: int, j: int| 0 <= i < j < f.len() ==> f[i] != f[j]
}

proof fn lemma_keep_unremoved(folders: Seq<Seq<char>>, removed: Seq<Seq<char>>)
    ensures
        forall|x: Seq<char>| #[trigger] keep_unremoved(folders, removed).contains(x) <==> folders.contains(x)
            && !removed.contains(x),
        distinct_folders(folders) ==> distinct_folders(keep_unremoved(folders, removed)),
    decreases folders.len(),
{
    if folders.len() > 0 {
        let d = folders.drop_last();
        lemma_keep_unremoved(d, removed);
        let rest = keep_unremoved(d, removed);
        assert forall|x: Seq<char>| #[trigger] keep_unremoved(folders, removed).contains(x) <==> folders.contains(x)
            && !removed.contains(x) by {
            vstd::seq_lib::lemma_seq_contains_after_push(rest, folders.last(), x);
            vstd::seq_lib::lemma_seq_contains_after_push(d, folders.last(), x);
            assert(d.push(folders.last()) =~= folders);
        }
        if distinct_folders(folders) && !removed.contains(folders.last()) {
            assert(!d.contains(folders.last())) by {
                if d.contains(folders.last()) {
                    let k = choose|k: int| 0 <= k < d.len() && d[k] == folders.last();
                    assert(folders[k] == folders[folders.len() - 1]);
                }
            }
            assert(distinct_folders(d)) by {
                assert forall|i: int, j: int| 0 <= i < j < d.len() implies d[i] != d[j] by {
                    assert(d[i] == folders[i] && d[j] == folders[j]);
                }
            }
            let out = rest.push(folders.last());
            assert forall|i: int, j: int| 0 <= i < j < out.len() implies out[i] != out[j] by {
                if j == rest.len() {
                    assert(rest.contains(rest[i]));
                }
            }
        } else if distinct_folders(folders) {
            assert forall|i: int, j: int| 0 <= i < j < d.len() implies d[i] != d[j] by {
                assert(d[i] == folders[i] && d[j] == folders[j]);
            }
        }
    }
}

proof fn lemma_append_new(folders: Seq<Seq<char>>, added: Seq<Seq<char>>)
    ensures
        forall|x: Seq<char>| #[trigger] append_new(folders, added).contains(x) <==> folders.contains(x)
            || added.contains(x),
        distinct_folders(folders) ==> distinct_folders(append_new(folders, added)),
    decreases added.len(),
{
    if added.len() > 0 {
        let d = added.drop_last();
        lemma_append_new(folders, d);
        let acc = append_new(folders, d);
        assert forall|x: Seq<char>| #[trigger] append_new(folders, added).contains(x) <==> folders.contains(x)
            || added.contains(x) by {
            vstd::seq_lib::lemma_seq_contains_after_push(acc, added.last(), x);
            vstd::seq_lib::lemma_seq_contains_after_push(d, added.last(), x);
            assert(d.push(added.last()) =~= added);
        }
        if distinct_folders(folders) && !acc.contains(added.last()) {
            let out = acc.push(added.last());
            assert forall|i: int, j: int| 0 <= i < j < out.len() implies out[i] != out[j] by {
                if j == acc.len() {
                    assert(acc.contains(acc[i]));
                }
            }
        }
    }
}

/// A workspace-folder change keeps the folders free of repeats, holds
/// every added folder, and holds a removed folder only when it is added
/// back; the other folders stay.
pub proof fn lemma_folder_change(
    folders: Seq<Seq<char>>,
    removed: Seq<Seq<char>>,
    added: Seq<Seq<char>>,
)
    ensures
        distinct_folders(folders) ==> distinct_folders(folders_after(folders, removed, added)),
        forall|x: Seq<char>| #[trigger] folders_after(folders, removed, added).contains(x) <==> (
        folders.contains(x) && !removed.contains(x)) || added.contains(x),
{
    lemma_keep_unremoved(folders, removed);
    lemma_append_new(keep_unremoved(folders, removed), added);
}

} // verus!
