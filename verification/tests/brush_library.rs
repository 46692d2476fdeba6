//! A library of brush tips kept in memory: adding, removing, selecting.

use std::path::PathBuf;

use splatter_iron::asset_library::Library;
use splatter_iron::pixel::Color32;

/// A brush tip: name, pixels, size and stroke spacing.
#[derive(Debug, Clone, PartialEq)]
struct Brush {
    name: String,
    pixels: Vec<Color32>,
    width: u32,
    height: u32,
    spacing: u8,
}

fn red() -> Color32 {
    Color32::from_rgba_premultiplied(255, 0, 0, 255)
}

fn brush(name: &str, spacing: u8) -> Brush {
    Brush { name: name.to_string(), pixels: vec![red(); 4], width: 2, height: 2, spacing }
}

fn empty() -> Library<Brush> {
    Library::from_entries(Vec::new(), PathBuf::from("/tmp/brushes"))
}

/// Adding a brush selects it.
#[test]
fn add_brush_increments_count() {
    let mut lib = empty();
    assert!(lib.is_empty());
    assert_eq!(lib.len(), 0);
    assert!(lib.selected().is_none());
    lib.push_entry(brush("test", 25));
    assert_eq!(lib.len(), 1);
    assert_eq!(lib.selected().unwrap().name, "test");
    assert_eq!(lib.selected().unwrap().width, 2);
    assert_eq!(lib.selected().unwrap().height, 2);
    assert_eq!(lib.selected().unwrap().spacing, 25);
}

/// Removing the only brush empties the library.
#[test]
fn remove_brush_decrements_count() {
    let mut lib = empty();
    lib.push_entry(brush("to_remove", 20));
    assert_eq!(lib.len(), 1);
    lib.remove(0);
    assert!(lib.is_empty());
    assert!(lib.selected().is_none());
}

/// Selecting switches the active brush.
#[test]
fn select_switches_active_brush() {
    let mut lib = empty();
    lib.push_entry(brush("first", 25));
    lib.push_entry(brush("second", 50));
    lib.select(0);
    assert_eq!(lib.selected().unwrap().name, "first");
    lib.select(1);
    assert_eq!(lib.selected().unwrap().name, "second");
    assert_eq!(lib.selected().unwrap().spacing, 50);
}

/// Removing the last brush clears the selection.
#[test]
fn remove_last_brush_clears_selection() {
    let mut lib = empty();
    lib.push_entry(brush("only", 25));
    lib.remove(0);
    assert!(lib.selected().is_none());
}

/// Removing past the end changes nothing.
#[test]
fn brush_library_remove_out_of_bounds_noop() {
    let mut lib = empty();
    lib.push_entry(brush("survivor", 25));
    lib.remove(5);
    assert_eq!(lib.len(), 1);
    assert!(lib.selected().is_some());
}

/// Selecting past the end changes nothing.
#[test]
fn brush_library_select_out_of_bounds_noop() {
    let mut lib = empty();
    lib.push_entry(brush("pickme", 25));
    lib.select(99);
    assert_eq!(lib.selected_index(), Some(0));
}

/// Removing a middle brush keeps the others in order.
#[test]
fn brush_library_remove_middle_preserves_order() {
    let mut lib = empty();
    lib.push_entry(brush("first", 25));
    lib.push_entry(brush("second", 25));
    lib.push_entry(brush("third", 25));
    lib.remove(1);
    assert_eq!(lib.len(), 2);
    assert_eq!(lib.get(0).unwrap().name, "first");
    assert_eq!(lib.get(1).unwrap().name, "third");
}

/// An empty library has no entries.
#[test]
fn brush_library_entries_empty_library() {
    assert!(empty().entries().is_empty());
}
