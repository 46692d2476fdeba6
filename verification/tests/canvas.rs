//! Canvas construction and the dirty-rectangle bookkeeping.

use splatter_iron::canvas::Canvas;
use splatter_iron::canvas::DirtyRect;
use splatter_iron::canvas::DirtyRectList;
use splatter_iron::pixel::Color32;

/// The default canvas is 2000 x 1500.
#[test]
fn default_canvas_size() {
    let canvas = Canvas::default();
    assert_eq!(canvas.width, 2000);
    assert_eq!(canvas.height, 1500);
}

/// The default canvas has one fully transparent layer.
#[test]
fn default_canvas_has_one_transparent_layer() {
    let canvas = Canvas::default();
    assert_eq!(canvas.pixels.len(), 1);
    assert_eq!(canvas.pixels[0].pixels.len(), 2000 * 1500);
    assert_eq!(canvas.pixels[0].pixels[0], Color32::transparent());
}

/// An empty rect reports `is_empty` and has no extent.
#[test]
fn dirty_rect_empty() {
    let rect = DirtyRect::empty();
    assert!(rect.is_empty());
    assert_eq!(rect.width(), 0);
    assert_eq!(rect.height(), 0);
}

/// Extending an empty rect with a point gives a 1x1 rect.
#[test]
fn dirty_rect_extend_from_empty() {
    let mut rect = DirtyRect::empty();
    rect.extend(5, 7);
    assert!(!rect.is_empty());
    assert_eq!(rect.min_x, 5);
    assert_eq!(rect.min_y, 7);
    assert_eq!(rect.max_x, 5);
    assert_eq!(rect.max_y, 7);
    assert_eq!(rect.width(), 1);
    assert_eq!(rect.height(), 1);
}

/// Several extends grow the bounding box.
#[test]
fn dirty_rect_extend_multiple() {
    let mut rect = DirtyRect::empty();
    rect.extend(10, 20);
    rect.extend(5, 30);
    rect.extend(15, 25);
    assert_eq!(rect.min_x, 5);
    assert_eq!(rect.min_y, 20);
    assert_eq!(rect.max_x, 15);
    assert_eq!(rect.max_y, 30);
}

/// The union of two rects covers both.
#[test]
fn dirty_rect_union() {
    let rect_a = DirtyRect::new(0, 0, 10, 10);
    let rect_b = DirtyRect::new(5, 5, 20, 20);
    let union_rect = rect_a.union(&rect_b);
    assert_eq!(union_rect.min_x, 0);
    assert_eq!(union_rect.min_y, 0);
    assert_eq!(union_rect.max_x, 20);
    assert_eq!(union_rect.max_y, 20);
    assert_eq!(union_rect.width(), 21);
    assert_eq!(union_rect.height(), 21);
}

/// A new canvas starts with an empty dirty list.
#[test]
fn canvas_dirty_rect_default_empty() {
    let canvas = Canvas::default();
    assert!(canvas.dirty_rect.is_empty());
}

/// `Canvas::new` sets the dimensions and creates one transparent layer.
#[test]
fn canvas_new_sets_dimensions() {
    let canvas = Canvas::new(42, 24);
    assert_eq!(canvas.width, 42);
    assert_eq!(canvas.height, 24);
    assert_eq!(canvas.pixels.len(), 1);
    assert_eq!(canvas.pixels[0].pixels.len(), 42 * 24);
    assert_eq!(canvas.pixels[0].pixels[0], Color32::transparent());
}

/// A fresh canvas asks for a full blend: its dirty list is empty and it
/// asks to be rendered.
#[test]
fn new_canvas_requests_full_blend() {
    let canvas = Canvas::new(10, 10);
    assert!(canvas.dirty_rect.is_empty());
    assert!(canvas.render_next_frame);
}

/// A rect whose minimum lies past its maximum is empty.
#[test]
fn dirty_rect_inverted_is_empty() {
    let rect = DirtyRect::new(10, 10, 5, 5);
    assert!(rect.is_empty());
    assert_eq!(rect.width(), 0);
    assert_eq!(rect.height(), 0);
}

/// Extending an inverted rect covers the new point up to the old maximum.
#[test]
fn dirty_rect_extend_fixes_inverted() {
    let mut rect = DirtyRect::new(10, 10, 5, 5);
    assert!(rect.is_empty());
    rect.extend(7, 7);
    assert!(!rect.is_empty());
    assert_eq!(rect.min_x, 7);
    assert_eq!(rect.max_x, 7, "max_x was 5 and extends to 7");
    assert_eq!(rect.width(), 1);
}

/// The union with an empty rect keeps the other rect.
#[test]
fn dirty_rect_union_with_empty() {
    let rect_a = DirtyRect::new(5, 5, 5, 5);
    let rect_b = DirtyRect::empty();
    let union_rect = rect_a.union(&rect_b);
    assert_eq!(union_rect.min_x, 5);
    assert_eq!(union_rect.max_x, 5);
    assert_eq!(union_rect.width(), 1);
}

/// A rect of one pixel.
#[test]
fn dirty_rect_single_pixel() {
    let rect = DirtyRect::new(3, 7, 3, 7);
    assert!(!rect.is_empty());
    assert_eq!(rect.width(), 1);
    assert_eq!(rect.height(), 1);
}

/// The default rect is all zeros and covers the origin.
#[test]
fn dirty_rect_default_covers_origin() {
    let rect = DirtyRect::default();
    assert!(!rect.is_empty(), "default is 0,0,0,0 — covers origin");
    assert_eq!(rect.min_x, 0);
    assert_eq!(rect.max_x, 0);
    assert_eq!(rect.min_y, 0);
    assert_eq!(rect.max_y, 0);
    assert_eq!(rect.width(), 1);
    assert_eq!(rect.height(), 1);
}

/// A new list is empty.
#[test]
fn dirty_rect_list_empty() {
    let mut list = DirtyRectList::new();
    assert!(list.is_empty());
    assert!(list.take_all().is_empty());
}

/// Adding a rect makes the list non-empty.
#[test]
fn dirty_rect_list_add_single() {
    let mut list = DirtyRectList::new();
    list.add(DirtyRect::new(0, 0, 10, 10));
    assert!(!list.is_empty());
    assert_eq!(list.take_all().len(), 1);
}

/// Two distant rects stay separate.
#[test]
fn dirty_rect_list_non_overlapping_separate() {
    let mut list = DirtyRectList::new();
    list.add(DirtyRect::new(0, 0, 5, 5));
    list.add(DirtyRect::new(100, 100, 105, 105));
    let rects = list.take_all();
    assert_eq!(rects.len(), 2);
}

/// Two overlapping rects merge into one.
#[test]
fn dirty_rect_list_overlapping_merges() {
    let mut list = DirtyRectList::new();
    list.add(DirtyRect::new(0, 0, 10, 10));
    list.add(DirtyRect::new(5, 5, 15, 15));
    let rects = list.take_all();
    assert_eq!(rects.len(), 1);
    assert_eq!(rects[0].min_x, 0);
    assert_eq!(rects[0].max_x, 15);
}

/// A merge keeps exactly the union of the two rects.
#[test]
fn dirty_rect_list_merge_is_exact_union() {
    let mut list = DirtyRectList::new();
    list.add(DirtyRect::new(2, 3, 10, 10));
    list.add(DirtyRect::new(5, 1, 15, 8));
    assert_eq!(list.take_all(), vec![DirtyRect::new(2, 1, 15, 10)]);
}

/// Two rects within the proximity merge.
#[test]
fn dirty_rect_list_proximity_merges() {
    let mut list = DirtyRectList::new();
    list.add(DirtyRect::new(0, 0, 10, 10));
    // 11 px gap: within the proximity of 16.
    list.add(DirtyRect::new(21, 0, 31, 10));
    let rects = list.take_all();
    assert_eq!(rects.len(), 1);
    assert_eq!(rects[0].min_x, 0);
    assert_eq!(rects[0].max_x, 31);
}

/// Two rects beyond the proximity stay separate.
#[test]
fn dirty_rect_list_beyond_proximity_separate() {
    let mut list = DirtyRectList::new();
    list.add(DirtyRect::new(0, 0, 10, 10));
    // 50 px gap: beyond the proximity.
    list.add(DirtyRect::new(60, 0, 70, 10));
    let rects = list.take_all();
    assert_eq!(rects.len(), 2);
}

/// More rects than the maximum count merge into one.
#[test]
fn dirty_rect_list_exceeds_max_merges_all() {
    let mut list = DirtyRectList::new();
    for i in 0..9 {
        let x = i as u32 * 200;
        list.add(DirtyRect::new(x, 0, x + 10, 10));
    }
    let rects = list.take_all();
    assert_eq!(rects.len(), 1, "exceeding max should merge all");
}

/// Adding an empty rect changes nothing.
#[test]
fn dirty_rect_list_add_empty_noop() {
    let mut list = DirtyRectList::new();
    list.add(DirtyRect::empty());
    assert!(list.is_empty());
}

/// Clearing empties the list.
#[test]
fn dirty_rect_list_clear() {
    let mut list = DirtyRectList::new();
    list.add(DirtyRect::new(0, 0, 10, 10));
    assert!(!list.is_empty());
    list.clear();
    assert!(list.is_empty());
}

/// `take_all` drains every rect.
#[test]
fn dirty_rect_list_take_all_drains() {
    let mut list = DirtyRectList::new();
    list.add(DirtyRect::new(0, 0, 10, 10));
    assert_eq!(list.take_all().len(), 1);
    assert!(list.is_empty());
}

/// `merge_all` combines every rect into one bounding box.
#[test]
fn dirty_rect_list_merge_all() {
    let mut list = DirtyRectList::new();
    list.add(DirtyRect::new(0, 0, 5, 5));
    list.add(DirtyRect::new(100, 100, 105, 105));
    list.merge_all();
    let rects = list.take_all();
    assert_eq!(rects.len(), 1);
    assert_eq!(rects[0].min_x, 0);
    assert_eq!(rects[0].max_y, 105);
}

/// Exactly eight distant rects are kept apart; the ninth merges them all
/// into one rect covering every one of them.
#[test]
fn dirty_rect_list_max_count_boundary() {
    let mut list = DirtyRectList::new();
    for i in 0..8u32 {
        list.add(DirtyRect::new(i * 200, 0, i * 200 + 10, 10));
    }
    list.add(DirtyRect::new(3000, 0, 3010, 10));
    let rects = list.take_all();
    assert_eq!(rects.len(), 1);
    assert_eq!((rects[0].min_x, rects[0].max_x), (0, 3010));
    let mut list = DirtyRectList::new();
    for i in 0..8u32 {
        list.add(DirtyRect::new(i * 200, 0, i * 200 + 10, 10));
    }
    assert_eq!(list.take_all().len(), 8);
}

/// A rect that bridges two tracked rects merges all three.
#[test]
fn dirty_rect_list_bridge_merges_chain() {
    let mut list = DirtyRectList::new();
    list.add(DirtyRect::new(0, 0, 10, 10));
    list.add(DirtyRect::new(100, 0, 110, 10));
    list.add(DirtyRect::new(20, 0, 90, 10));
    let rects = list.take_all();
    assert_eq!(rects.len(), 1);
    assert_eq!((rects[0].min_x, rects[0].max_x), (0, 110));
}
