//! Ordered asset collections with a selection.

use std::path::PathBuf;

use splatter_iron::asset_library::spacing_from_index;
use splatter_iron::asset_library::Library;

/// A minimal entry: just a name.
#[derive(Debug, Clone, PartialEq)]
struct TestEntry {
    name: String,
}

fn test_entry(name: &str) -> TestEntry {
    TestEntry { name: name.to_string() }
}

fn empty_library() -> Library<TestEntry> {
    Library::from_entries(Vec::new(), PathBuf::from("/tmp/test_assets"))
}

/// A library read with no entries is empty and selects nothing.
#[test]
fn load_from_disk_creates_dir() {
    let lib = empty_library();
    assert!(lib.is_empty());
    assert!(lib.selected().is_none());
    assert_eq!(lib.dir(), &PathBuf::from("/tmp/test_assets"));
}

/// Adding an entry increments the count and selects it.
#[test]
fn add_entry_increments_count() {
    let mut lib = empty_library();
    lib.push_entry(test_entry("alpha"));
    assert_eq!(lib.len(), 1);
    assert_eq!(lib.selected().unwrap().name, "alpha");
}

/// Entries keep their insertion order.
#[test]
fn add_multiple_preserves_order() {
    let mut lib = empty_library();
    lib.push_entry(test_entry("first"));
    lib.push_entry(test_entry("second"));
    lib.push_entry(test_entry("third"));
    assert_eq!(lib.len(), 3);
    assert_eq!(lib.get(0).unwrap().name, "first");
    assert_eq!(lib.get(1).unwrap().name, "second");
    assert_eq!(lib.get(2).unwrap().name, "third");
}

/// Removing the only entry clears the selection.
#[test]
fn remove_last_clears_selection() {
    let mut lib = empty_library();
    lib.push_entry(test_entry("only"));
    assert!(lib.selected().is_some());
    assert_eq!(lib.remove(0), Some(test_entry("only")));
    assert!(lib.selected().is_none());
    assert!(lib.is_empty());
}

/// Removing a middle entry keeps the order of the rest.
#[test]
fn asset_library_remove_middle_preserves_order() {
    let mut lib = empty_library();
    lib.push_entry(test_entry("a"));
    lib.push_entry(test_entry("b"));
    lib.push_entry(test_entry("c"));
    lib.remove(1);
    assert_eq!(lib.len(), 2);
    assert_eq!(lib.get(0).unwrap().name, "a");
    assert_eq!(lib.get(1).unwrap().name, "c");
}

/// Selecting switches the active entry.
#[test]
fn select_switches_active() {
    let mut lib = empty_library();
    lib.push_entry(test_entry("x"));
    lib.push_entry(test_entry("y"));
    lib.select(0);
    assert_eq!(lib.selected().unwrap().name, "x");
    lib.select(1);
    assert_eq!(lib.selected().unwrap().name, "y");
}

/// Selecting past the end changes nothing.
#[test]
fn asset_library_select_out_of_bounds_noop() {
    let mut lib = empty_library();
    lib.push_entry(test_entry("only"));
    lib.select(42);
    assert_eq!(lib.selected_index(), Some(0));
}

/// `get` of a valid index returns the entry.
#[test]
fn asset_library_get_valid_index() {
    let mut lib = empty_library();
    lib.push_entry(test_entry("found"));
    assert!(lib.get(0).is_some());
    assert_eq!(lib.get(0).unwrap().name, "found");
}

/// `get` past the end returns `None`.
#[test]
fn get_out_of_bounds_none() {
    let lib = empty_library();
    assert!(lib.get(0).is_none());
    assert!(lib.get(100).is_none());
}

/// An empty library has no entries.
#[test]
fn entries_empty() {
    let lib = empty_library();
    assert!(lib.entries().is_empty());
}

/// `entries` returns every entry added.
#[test]
fn asset_library_entries_returns_all() {
    let mut lib = empty_library();
    lib.push_entry(test_entry("a"));
    lib.push_entry(test_entry("b"));
    assert_eq!(lib.entries().len(), 2);
}

/// Entries read back from disk are restored with the first one selected.
#[test]
fn asset_library_persistence_round_trip() {
    let lib = Library::from_entries(vec![test_entry("persist")], PathBuf::from("/tmp/test_assets"));
    assert_eq!(lib.len(), 1);
    assert_eq!(lib.selected().unwrap().name, "persist");
}

/// The selected entry can be replaced.
#[test]
fn asset_library_selected_mut_allows_mutation() {
    let mut lib = empty_library();
    lib.push_entry(test_entry("old"));
    let previous = lib.replace_selected(test_entry("new"));
    assert_eq!(previous.name, "old");
    assert_eq!(lib.selected().unwrap().name, "new");
}

/// With nothing selected, the replacement comes back unchanged.
#[test]
fn selected_mut_empty_none() {
    let mut lib = empty_library();
    let back = lib.replace_selected(test_entry("unused"));
    assert_eq!(back.name, "unused");
    assert!(lib.is_empty());
}

/// Removing past the end changes nothing.
#[test]
fn asset_library_remove_out_of_bounds_noop() {
    let mut lib = empty_library();
    lib.push_entry(test_entry("survivor"));
    assert_eq!(lib.remove(5), None);
    assert_eq!(lib.len(), 1);
}

/// Removing an entry before the selection keeps the same entry selected;
/// removing the selected one selects the first.
#[test]
fn remove_adjusts_selection() {
    let mut lib = empty_library();
    for name in ["a", "b", "c", "d"] {
        lib.push_entry(test_entry(name));
    }
    lib.select(2);
    lib.remove(0);
    assert_eq!(lib.selected_index(), Some(1));
    assert_eq!(lib.selected().unwrap().name, "c");
    lib.remove(2);
    assert_eq!(lib.selected().unwrap().name, "c");
    lib.remove(1);
    assert_eq!(lib.selected_index(), Some(0));
    assert_eq!(lib.selected().unwrap().name, "b");
}

/// The stored spacing is cut to its low byte; a missing one is 25.
#[test]
fn spacing_from_index_defaults_and_truncates() {
    assert_eq!(spacing_from_index(None), 25);
    assert_eq!(spacing_from_index(Some(40)), 40);
    assert_eq!(spacing_from_index(Some(300)), 44);
}
