//! A library of stamps kept in memory: adding, removing, selecting.

use std::path::PathBuf;

use splatter_iron::asset_library::Library;
use splatter_iron::pixel::Color32;

/// A stamp: its name and its pixels.
#[derive(Debug, Clone, PartialEq)]
struct Stamp {
    name: String,
    pixels: Vec<Color32>,
    width: u32,
    height: u32,
}

fn red() -> Color32 {
    Color32::from_rgba_premultiplied(255, 0, 0, 255)
}

fn stamp(name: &str) -> Stamp {
    Stamp { name: name.to_string(), pixels: vec![red(); 4], width: 2, height: 2 }
}

fn empty() -> Library<Stamp> {
    Library::from_entries(Vec::new(), PathBuf::from("/tmp/stamps"))
}

/// Adding a stamp selects it.
#[test]
fn add_stamp_increments_count() {
    let mut lib = empty();
    assert!(lib.is_empty());
    assert_eq!(lib.len(), 0);
    assert!(lib.selected().is_none());
    lib.push_entry(stamp("test"));
    assert_eq!(lib.len(), 1);
    assert_eq!(lib.selected().unwrap().name, "test");
    assert_eq!(lib.selected().unwrap().width, 2);
    assert_eq!(lib.selected().unwrap().height, 2);
}

/// Removing the only stamp empties the library.
#[test]
fn remove_stamp_decrements_count() {
    let mut lib = empty();
    lib.push_entry(stamp("to_remove"));
    assert_eq!(lib.len(), 1);
    lib.remove(0);
    assert!(lib.is_empty());
    assert!(lib.selected().is_none());
}

/// Selecting switches the active stamp.
#[test]
fn select_switches_active_stamp() {
    let mut lib = empty();
    lib.push_entry(stamp("first"));
    lib.push_entry(stamp("second"));
    lib.select(0);
    assert_eq!(lib.selected_index(), Some(0));
    assert_eq!(lib.selected().unwrap().name, "first");
    lib.select(1);
    assert_eq!(lib.selected_index(), Some(1));
    assert_eq!(lib.selected().unwrap().name, "second");
}

/// Removing the last stamp clears the selection.
#[test]
fn remove_last_stamp_clears_selection() {
    let mut lib = empty();
    lib.push_entry(stamp("only"));
    assert!(lib.selected().is_some());
    lib.remove(0);
    assert!(lib.selected().is_none());
}

/// `get` of a valid index returns the stamp.
#[test]
fn stamp_library_get_valid_index() {
    let mut lib = empty();
    lib.push_entry(stamp("get_test"));
    let entry = lib.get(0);
    assert!(entry.is_some());
    assert_eq!(entry.unwrap().name, "get_test");
}

/// `get` past the end returns `None`.
#[test]
fn get_out_of_bounds_returns_none() {
    let lib = empty();
    assert!(lib.get(0).is_none());
    assert!(lib.get(100).is_none());
    assert!(lib.get(usize::MAX).is_none());
}

/// `entries` returns the stamps in order.
#[test]
fn stamp_library_entries_returns_all() {
    let mut lib = empty();
    lib.push_entry(stamp("a"));
    lib.push_entry(stamp("b"));
    let entries = lib.entries();
    assert_eq!(entries.len(), 2);
    assert_eq!(entries[0].name, "a");
    assert_eq!(entries[1].name, "b");
}

/// An empty library has no entries.
#[test]
fn stamp_library_entries_empty_library() {
    assert!(empty().entries().is_empty());
}

/// The selected stamp can be replaced by a changed copy.
#[test]
fn stamp_library_selected_mut_allows_mutation() {
    let mut lib = empty();
    lib.push_entry(stamp("mutable"));
    let mut changed = lib.selected().unwrap().clone();
    changed.name = "mutated".to_string();
    lib.replace_selected(changed);
    assert_eq!(lib.selected().unwrap().name, "mutated");
}

/// With nothing selected nothing is replaced.
#[test]
fn selected_mut_empty_library() {
    let mut lib = empty();
    let back = lib.replace_selected(stamp("unused"));
    assert_eq!(back.name, "unused");
    assert!(lib.selected().is_none());
}

/// Removing past the end changes nothing.
#[test]
fn stamp_library_remove_out_of_bounds_noop() {
    let mut lib = empty();
    lib.push_entry(stamp("survivor"));
    lib.remove(5);
    assert_eq!(lib.len(), 1, "out-of-bounds remove should not change count");
    assert!(lib.selected().is_some());
}

/// Selecting past the end changes nothing.
#[test]
fn stamp_library_select_out_of_bounds_noop() {
    let mut lib = empty();
    lib.push_entry(stamp("pickme"));
    lib.select(99);
    assert_eq!(lib.selected_index(), Some(0));
    assert_eq!(lib.selected().unwrap().name, "pickme");
}

/// Removing a middle stamp keeps the others in order.
#[test]
fn stamp_library_remove_middle_preserves_order() {
    let mut lib = empty();
    lib.push_entry(stamp("first"));
    lib.push_entry(stamp("second"));
    lib.push_entry(stamp("third"));
    lib.remove(1);
    assert_eq!(lib.len(), 2);
    assert_eq!(lib.get(0).unwrap().name, "first");
    assert_eq!(lib.get(1).unwrap().name, "third");
}
