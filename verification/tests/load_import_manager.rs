//! Background loads and imports: what their results do to the document.

use std::sync::mpsc;

use splatter_iron::canvas::Canvas;
use splatter_iron::canvas::Layer;
use splatter_iron::document::Document;
use splatter_iron::file_io::LoadImportManager;
use splatter_iron::file_io::LoadImportResult;
use splatter_iron::pixel::Color32;
use splatter_iron::tools::square_brush::draw_square;
use splatter_iron::undo_history::UndoHistory;

fn create_load_import_manager() -> LoadImportManager {
    let (sender, receiver) = mpsc::channel();
    LoadImportManager::new(sender, receiver)
}

/// A loaded canvas replaces the document's.
#[test]
fn poll_load_import_results_loaded_replaces_canvas() {
    let mut lim = create_load_import_manager();
    let mut document = Document::new(Canvas::new(10, 10));
    let mut undo = UndoHistory::new(100);
    let mut errors = Vec::new();
    lim.begin(false);
    lim.handle_load_import_result(
        &mut document,
        &mut undo,
        &mut errors,
        LoadImportResult::Loaded(Canvas::new(3, 4), "/tmp/test.splattercanvas".into()),
    );
    assert!(errors.is_empty(), "errors: {errors:?}");
    assert_eq!(document.canvas.width, 3);
    assert_eq!(document.canvas.height, 4);
    assert!(document.canvas.dirty_rect.is_empty());
    assert_eq!(document.savefile_path, "/tmp/test.splattercanvas");
    assert!(!lim.load_in_flight);
}

/// Imported layers become the document's canvas.
#[test]
fn poll_load_import_results_imported_replaces_canvas() {
    let mut lim = create_load_import_manager();
    let mut document = Document::new(Canvas::new(10, 10));
    let mut undo = UndoHistory::new(100);
    let mut errors = Vec::new();
    let layers = vec![Layer { pixels: vec![Color32::transparent(); 6], ..Default::default() }];
    lim.begin(true);
    lim.handle_load_import_result(&mut document, &mut undo, &mut errors, LoadImportResult::Imported(layers, 2, 3));
    assert!(errors.is_empty(), "errors: {errors:?}");
    assert_eq!(document.canvas.width, 2);
    assert_eq!(document.canvas.height, 3);
    assert!(document.canvas.dirty_rect.is_empty());
    assert!(!lim.import_in_flight);
}

/// An archive's canvas replaces the document's.
#[test]
fn poll_load_import_results_archive_imported_replaces_canvas() {
    let mut lim = create_load_import_manager();
    let mut document = Document::new(Canvas::new(10, 10));
    let mut undo = UndoHistory::new(100);
    let mut errors = Vec::new();
    lim.handle_load_import_result(&mut document, &mut undo, &mut errors, LoadImportResult::ArchiveImported(Canvas::new(5, 7)));
    assert!(errors.is_empty(), "errors: {errors:?}");
    assert_eq!(document.canvas.width, 5);
    assert_eq!(document.canvas.height, 7);
    assert!(document.canvas.dirty_rect.is_empty());
}

/// A failure adds its message and ends both operations.
#[test]
fn poll_load_import_results_failed_appends_error() {
    let mut lim = create_load_import_manager();
    let mut document = Document::new(Canvas::new(10, 10));
    let mut undo = UndoHistory::new(100);
    let mut errors = Vec::new();
    lim.begin(false);
    lim.begin(true);
    lim.handle_load_import_result(&mut document, &mut undo, &mut errors, LoadImportResult::Failed("import failed".to_string()));
    assert!(errors.iter().any(|e| e.contains("import failed")));
    assert!(!lim.load_in_flight);
    assert!(!lim.import_in_flight);
    assert_eq!(document.canvas.width, 10);
}

/// Loading a canvas clears the undo history of the old one.
#[test]
fn load_clears_undo_history() {
    let mut lim = create_load_import_manager();
    let mut document = Document::new(Canvas::new(10, 10));
    let mut undo = UndoHistory::new(100);
    let mut errors = Vec::new();
    undo.push_undo(draw_square(0, 0, 2, 2, &mut document.canvas, Color32::from_rgba_premultiplied(9, 9, 9, 255), 0, false));
    assert!(undo.can_undo());
    lim.handle_load_import_result(&mut document, &mut undo, &mut errors, LoadImportResult::ArchiveImported(Canvas::new(2, 2)));
    assert!(!undo.can_undo());
    assert_eq!(undo.visited.len(), 4);
}

/// With nothing on the channel, polling applies nothing.
#[test]
fn poll_load_import_results_no_messages_is_noop() {
    let mut lim = create_load_import_manager();
    let mut document = Document::new(Canvas::new(10, 10));
    let mut undo = UndoHistory::new(100);
    let mut errors = Vec::new();
    while let Ok(result) = lim.load_import_receiver.try_recv() {
        lim.handle_load_import_result(&mut document, &mut undo, &mut errors, result);
    }
    assert!(errors.is_empty());
    assert_eq!((document.canvas.width, document.canvas.height), (10, 10));
}
