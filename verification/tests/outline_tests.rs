use panache::outline::{outline_parents, OutlineEntry};

use OutlineEntry::{Heading as H, Item};

#[test]
fn headings_nest_by_level() {
    // # A, ## B, ### C, ## D, # E
    let es = vec![H(1), H(2), H(3), H(2), H(1)];
    assert_eq!(outline_parents(&es), vec![None, Some(0), Some(1), Some(0), None]);
}

#[test]
fn items_attach_to_the_last_heading() {
    // table before any heading, # A, table, ## B, figure, # C, table
    let es = vec![Item, H(1), Item, H(2), Item, H(1), Item];
    assert_eq!(
        outline_parents(&es),
        vec![None, None, Some(1), Some(1), Some(3), None, Some(5)]
    );
}

#[test]
fn skipped_levels_still_nest() {
    // # A, ### B, ## C, #### D
    let es = vec![H(1), H(3), H(2), H(4)];
    assert_eq!(outline_parents(&es), vec![None, Some(0), Some(0), Some(2)]);
}

#[test]
fn deeper_first_heading_is_top_level() {
    let es = vec![H(3), H(1), H(2), H(2)];
    assert_eq!(outline_parents(&es), vec![None, None, Some(1), Some(1)]);
}

#[test]
fn empty_outline() {
    assert!(outline_parents(&Vec::new()).is_empty());
}
