//! Undo and redo stacks and the stroke stamps.

use splatter_iron::canvas::Canvas;
use splatter_iron::canvas::DirtyRectList;
use splatter_iron::canvas::Layer;
use splatter_iron::document::Document;
use splatter_iron::pixel::Color32;
use splatter_iron::tools::square_brush::draw_square;
use splatter_iron::undo_history::UndoHistory;

fn red() -> Color32 {
    Color32::from_rgba_premultiplied(255, 0, 0, 255)
}

/// A 10 x 10 canvas of one transparent layer.
fn small_canvas() -> Canvas {
    Canvas {
        pixels: vec![Layer { pixels: vec![Color32::transparent(); 100], ..Default::default() }],
        height: 10,
        width: 10,
        output_rgba: Vec::new(),
        dirty_rect: DirtyRectList::new(),
        render_next_frame: false,
    }
}

/// A new history has nothing to undo or redo.
#[test]
fn new_history_has_no_undo_no_redo() {
    let history = UndoHistory::new(100);
    assert!(!history.can_undo());
    assert!(!history.can_redo());
}

/// Pushing a record makes undo available but not redo.
#[test]
fn push_undo_makes_undo_available() {
    let mut history = UndoHistory::new(100);
    let mut canvas = small_canvas();
    let record = draw_square(0, 0, 3, 3, &mut canvas, red(), 0, false);
    history.push_undo(record);
    assert!(history.can_undo());
    assert!(!history.can_redo());
}

/// Undoing restores the pixels and makes redo available.
#[test]
fn undo_step_applies_and_tracks_redo() {
    let mut history = UndoHistory::new(100);
    let mut canvas = small_canvas();
    let original = canvas.pixels[0].pixels[0];
    let record = draw_square(0, 0, 3, 3, &mut canvas, red(), 0, false);
    history.push_undo(record);
    history.undo_step(&mut canvas, 1);
    assert_eq!(canvas.pixels[0].pixels[0], original);
    assert!(history.can_redo());
}

/// Redoing reapplies the undone stroke.
#[test]
fn redo_step_reapplies() {
    let mut history = UndoHistory::new(100);
    let mut canvas = small_canvas();
    let record = draw_square(0, 0, 3, 3, &mut canvas, red(), 0, false);
    history.push_undo(record);
    history.undo_step(&mut canvas, 1);
    history.redo_step(&mut canvas, 1);
    assert_eq!(canvas.pixels[0].pixels[0], red());
    assert!(!history.can_redo());
}

/// A new record clears the redo stack.
#[test]
fn push_undo_truncates_redo_stack() {
    let mut history = UndoHistory::new(100);
    let mut canvas = small_canvas();
    let r1 = draw_square(0, 0, 3, 3, &mut canvas, red(), 0, false);
    history.push_undo(r1);
    history.undo_step(&mut canvas, 1);
    assert!(history.can_redo());
    let r2 = draw_square(4, 4, 7, 7, &mut canvas, red(), 0, false);
    history.push_undo(r2);
    assert!(!history.can_redo(), "new stroke should clear redo");
}

/// Several steps undo and redo at once.
#[test]
fn undo_redo_multi_step() {
    let mut history = UndoHistory::new(100);
    let mut canvas = small_canvas();
    let r1 = draw_square(0, 0, 3, 3, &mut canvas, red(), 0, false);
    let blue = Color32::from_rgba_premultiplied(0, 0, 255, 255);
    let r2 = draw_square(3, 3, 6, 6, &mut canvas, blue, 0, false);
    history.push_undo(r1);
    history.push_undo(r2);
    history.undo_step(&mut canvas, 2);
    assert_eq!(canvas.pixels[0].pixels[0], Color32::transparent(), "both strokes undone");
    history.redo_step(&mut canvas, 2);
    assert_eq!(canvas.pixels[0].pixels[0], red(), "first stroke back");
}

/// Clearing removes all undo and redo.
#[test]
fn clear_resets_history() {
    let mut history = UndoHistory::new(100);
    let mut canvas = small_canvas();
    history.push_undo(draw_square(0, 0, 3, 3, &mut canvas, red(), 0, false));
    history.push_undo(draw_square(4, 4, 7, 7, &mut canvas, red(), 0, false));
    assert!(history.can_undo());
    history.clear();
    assert!(!history.can_undo());
    assert!(!history.can_redo());
}

/// Consecutive stamps increase by one.
#[test]
fn next_stamp_increments() {
    let mut history = UndoHistory::new(100);
    let stamp1 = history.next_stamp();
    let stamp2 = history.next_stamp();
    assert_eq!(stamp2, stamp1.wrapping_add(1));
}

/// A stamp that wraps past `u32::MAX` restarts at 1 with a cleared buffer.
#[test]
fn stamp_wrapping_overflow_resets() {
    let mut history = UndoHistory::new(100);
    history.visited_stamp = u32::MAX;
    let stamp = history.next_stamp();
    assert_eq!(stamp, 1, "wrapping should reset to 1");
    assert_eq!(history.visited.iter().all(|&v| v == 0), true);
}

/// The undo stack keeps at most `max_undo` records, dropping the oldest.
#[test]
fn undo_stack_is_bounded() {
    let mut history = UndoHistory::new(2);
    let mut canvas = small_canvas();
    for i in 0..3u32 {
        history.push_undo(draw_square(i, 0, i + 1, 1, &mut canvas, red(), 0, false));
    }
    assert_eq!(history.undo_stack.len(), 2);
    history.undo_step(&mut canvas, 5);
    // The oldest stroke was dropped, so its pixel stays painted.
    assert_eq!(canvas.pixels[0].pixels[0], red());
    assert_eq!(canvas.pixels[0].pixels[1], Color32::transparent());
    assert_eq!(canvas.pixels[0].pixels[2], Color32::transparent());
    assert!(!history.can_undo());
    assert_eq!(history.redo_stack.len(), 2);
}

/// The drag stamp wraps like the stroke stamp, clearing its own buffer.
#[test]
fn drag_stamp_wraps_to_one() {
    let mut history = UndoHistory::new(10);
    history.resize_visited(4);
    history.drag_processed = vec![7; 4];
    history.drag_stamp = u32::MAX;
    assert_eq!(history.next_drag_stamp(), 1);
    assert_eq!(history.drag_processed, vec![0; 4]);
    assert_eq!(history.next_drag_stamp(), 2);
}

/// Undoing a stroke and a layer operation, then redoing both, gives back
/// the layers as they were after both.
#[test]
fn undo_then_redo_restores_layers() {
    let mut history = UndoHistory::new(100);
    let mut document = Document::new(small_canvas());
    let record = draw_square(2, 2, 6, 6, &mut document.canvas, red(), 0, false);
    history.push_undo(record);
    document.add_layer(&mut history);
    let snapshot: Vec<(Vec<Color32>, String)> =
        document.canvas.pixels.iter().map(|l| (l.pixels.clone(), l.name.clone())).collect();
    history.undo_step(&mut document.canvas, 2);
    assert_eq!(document.canvas.pixels.len(), 1);
    assert_eq!(document.canvas.pixels[0].pixels, vec![Color32::transparent(); 100]);
    history.redo_step(&mut document.canvas, 2);
    let restored: Vec<(Vec<Color32>, String)> =
        document.canvas.pixels.iter().map(|l| (l.pixels.clone(), l.name.clone())).collect();
    assert_eq!(restored, snapshot);
    assert_eq!(history.undo_stack.len(), 2);
    assert!(!history.can_redo());
}

/// Redoing a step and undoing it again gives back the layers as they were
/// before the redo.
#[test]
fn redo_then_undo_restores_layers() {
    let mut history = UndoHistory::new(100);
    let mut document = Document::new(small_canvas());
    let record = draw_square(1, 1, 4, 4, &mut document.canvas, red(), 0, false);
    history.push_undo(record);
    document.add_layer(&mut history);
    history.undo_step(&mut document.canvas, 2);
    let undone: Vec<Vec<Color32>> = document.canvas.pixels.iter().map(|l| l.pixels.clone()).collect();
    history.redo_step(&mut document.canvas, 1);
    assert_eq!(document.canvas.pixels[0].pixels[1 * 10 + 1], red());
    history.undo_step(&mut document.canvas, 1);
    let again: Vec<Vec<Color32>> = document.canvas.pixels.iter().map(|l| l.pixels.clone()).collect();
    assert_eq!(again, undone);
    assert_eq!(history.redo_stack.len(), 2);
}
