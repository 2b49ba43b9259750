use panache::helpers::YamlRegion;
use panache::watcher::{
    document_needs_relint, final_changes, plan_watched_changes, referenced_kinds, update_workspace_folders,
    FileChange, WatchEvent,
};

fn ev(path: &str, change: FileChange) -> WatchEvent {
    let name = path.rsplit('/').next().map(|s| s.to_string());
    let extension = name.as_deref().and_then(|n| n.rsplit_once('.')).map(|(_, e)| e.to_string());
    WatchEvent { path: path.to_string(), file_name: name, extension, tracked_config: false, change }
}

fn strings(v: &[&str]) -> Vec<String> {
    v.iter().map(|s| s.to_string()).collect()
}

#[test]
fn last_event_for_a_path_decides_its_change() {
    let events = vec![
        ev("/p/refs.bib", FileChange::Deleted),
        ev("/p/other.yml", FileChange::Changed),
        ev("/p/refs.bib", FileChange::Created),
    ];
    let finals = final_changes(&events);
    assert_eq!(finals.len(), 2);
    let refs = finals.iter().find(|(p, _)| p == "/p/refs.bib").unwrap();
    assert_eq!(refs.1, FileChange::Created);
    let other = finals.iter().find(|(p, _)| p == "/p/other.yml").unwrap();
    assert_eq!(other.1, FileChange::Changed);
}

#[test]
fn atomic_save_keeps_cached_text_and_interns_path() {
    let events = vec![ev("/p/refs.bib", FileChange::Deleted), ev("/p/refs.bib", FileChange::Created)];
    let plan = plan_watched_changes(&events, &Vec::new(), &strings(&["/p/refs.bib"]));
    assert_eq!(plan.intern, strings(&["/p/refs.bib"]));
    assert!(plan.evict.is_empty());
    assert!(!plan.reload_config);
}

#[test]
fn deleted_loaded_file_is_released_unless_open() {
    let events = vec![
        ev("/p/a.bib", FileChange::Deleted),
        ev("/p/b.bib", FileChange::Deleted),
        ev("/p/c.bib", FileChange::Deleted),
    ];
    let open = strings(&["/p/b.bib"]);
    let loaded = strings(&["/p/a.bib", "/p/b.bib"]);
    let plan = plan_watched_changes(&events, &open, &loaded);
    assert_eq!(plan.evict, strings(&["/p/a.bib"]));
    assert!(plan.intern.is_empty());
}

#[test]
fn config_file_names_reload_configuration() {
    let plan = plan_watched_changes(&vec![ev("/p/panache.toml", FileChange::Changed)], &Vec::new(), &Vec::new());
    assert!(plan.reload_config);
    let plan = plan_watched_changes(&vec![ev("/p/.panache.toml", FileChange::Created)], &Vec::new(), &Vec::new());
    assert!(plan.reload_config);
    let plan = plan_watched_changes(&vec![ev("/p/other.toml", FileChange::Changed)], &Vec::new(), &Vec::new());
    assert!(!plan.reload_config);
    let mut base = ev("/p/base.toml", FileChange::Changed);
    base.tracked_config = true;
    let plan = plan_watched_changes(&vec![base], &Vec::new(), &Vec::new());
    assert!(plan.reload_config);
}

#[test]
fn extensions_mark_bibliographies_and_manifests() {
    assert_eq!(referenced_kinds(&ev("/p/refs.bib", FileChange::Changed)), (true, false));
    assert_eq!(referenced_kinds(&ev("/p/refs.json", FileChange::Changed)), (true, false));
    assert_eq!(referenced_kinds(&ev("/p/refs.ris", FileChange::Changed)), (true, false));
    assert_eq!(referenced_kinds(&ev("/p/_quarto.yml", FileChange::Changed)), (true, true));
    assert_eq!(referenced_kinds(&ev("/p/meta.yaml", FileChange::Changed)), (true, true));
    assert_eq!(referenced_kinds(&ev("/p/notes.md", FileChange::Changed)), (false, false));
    assert_eq!(referenced_kinds(&ev("/p/Makefile", FileChange::Changed)), (false, false));
}

#[test]
fn relint_for_listed_bibliography_with_valid_front_matter() {
    let valid = vec![YamlRegion { is_frontmatter: true, start: 0, end: 20, valid: true }];
    let invalid = vec![YamlRegion { is_frontmatter: true, start: 0, end: 20, valid: false }];
    let bib = Some(strings(&["/p/refs.bib"]));
    assert!(document_needs_relint("/p/refs.bib", true, false, &valid, &bib, &Vec::new()));
    assert!(!document_needs_relint("/p/refs.bib", true, false, &invalid, &bib, &Vec::new()));
    assert!(!document_needs_relint("/p/other.bib", true, false, &valid, &bib, &Vec::new()));
    assert!(!document_needs_relint("/p/refs.bib", true, false, &valid, &None, &Vec::new()));
    // No front matter at all counts as valid.
    assert!(document_needs_relint("/p/refs.bib", true, false, &Vec::new(), &bib, &Vec::new()));
}

#[test]
fn relint_for_manifest_dependency() {
    let deps = strings(&["/p/_quarto.yml"]);
    assert!(document_needs_relint("/p/_quarto.yml", true, true, &Vec::new(), &None, &deps));
    assert!(!document_needs_relint("/p/_other.yml", true, true, &Vec::new(), &None, &deps));
    assert!(!document_needs_relint("/p/_quarto.yml", false, false, &Vec::new(), &None, &deps));
}

#[test]
fn workspace_folders_drop_removed_and_append_new_once() {
    let mut folders = strings(&["/a", "/b", "/c"]);
    update_workspace_folders(&mut folders, &strings(&["/b"]), strings(&["/d", "/a", "/d"]));
    assert_eq!(folders, strings(&["/a", "/c", "/d"]));
}

#[test]
fn workspace_folder_removed_and_added_back_moves_to_end() {
    let mut folders = strings(&["/a", "/b"]);
    update_workspace_folders(&mut folders, &strings(&["/a"]), strings(&["/a"]));
    assert_eq!(folders, strings(&["/b", "/a"]));
}

#[test]
fn workspace_folders_unchanged_by_empty_change() {
    let mut folders = strings(&["/a"]);
    update_workspace_folders(&mut folders, &Vec::new(), Vec::new());
    assert_eq!(folders, strings(&["/a"]));
}
