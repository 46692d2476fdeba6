//! Save bookkeeping: save results applied to the document, the autosave
//! directory, and where a manual save goes.

use std::path::PathBuf;
use std::sync::mpsc;

use splatter_iron::canvas::Canvas;
use splatter_iron::document::Document;
use splatter_iron::document::SaveState;
use splatter_iron::file_io::current_save_target;
use splatter_iron::file_io::SaveKind;
use splatter_iron::file_io::SaveManager;
use splatter_iron::file_io::SaveResult;

fn create_save_manager() -> (SaveManager, mpsc::Sender<SaveResult>) {
    let (save_sender, save_receiver) = mpsc::channel();
    let sender_clone = save_sender.clone();
    let sm = SaveManager::new(save_sender, save_receiver, PathBuf::from("/tmp"));
    (sm, sender_clone)
}

/// A finished autosave clears the dirty flag.
#[test]
fn save_manager_poll_save_results_autosave_clears_dirty() {
    let (mut sm, _) = create_save_manager();
    let mut document = Document::new(Canvas::new(10, 10));
    document.dirty_since_last_autosave = true;
    let mut errors = Vec::new();
    sm.apply_save_result(&mut document, &mut errors, SaveResult::Autosave);
    assert!(!document.dirty_since_last_autosave);
    assert!(errors.is_empty());
}

/// A finished manual save records the path and asks for a full blend.
#[test]
fn save_manager_poll_save_results_manual_save_sets_path() {
    let (mut sm, _) = create_save_manager();
    let mut document = Document::new(Canvas::new(10, 10));
    let mut errors = Vec::new();
    let path = PathBuf::from("/tmp/test.splattercanvas");
    sm.apply_save_result(&mut document, &mut errors, SaveResult::ManualSave(path.clone()));
    assert_eq!(document.savefile_path, path.display().to_string());
    assert!(document.canvas.dirty_rect.is_empty());
    assert!(errors.is_empty());
}

/// A failed save appends its message.
#[test]
fn save_manager_poll_save_results_failed_appends_error() {
    let (mut sm, _) = create_save_manager();
    let mut document = Document::new(Canvas::new(10, 10));
    let mut errors = Vec::new();
    sm.apply_save_result(&mut document, &mut errors, SaveResult::Failed("disk full".into()));
    assert!(errors.iter().any(|e| e.contains("disk full")));
    assert_eq!(errors, vec!["Save failed: disk full".to_string()]);
}

/// A manual save to an empty path reports no error.
#[test]
fn save_manager_poll_save_results_manual_save_empty_path() {
    let (mut sm, _) = create_save_manager();
    let mut document = Document::new(Canvas::new(10, 10));
    let mut errors = Vec::new();
    sm.apply_save_result(&mut document, &mut errors, SaveResult::ManualSave(PathBuf::new()));
    assert!(errors.is_empty());
}

/// A document never saved has no save target.
#[test]
fn save_manager_save_to_current_path_empty_path_noop() {
    let document = Document::new(Canvas::new(10, 10));
    assert_eq!(current_save_target(&document), None);
}

/// A document with a save path is saved there.
#[test]
fn save_manager_save_to_current_path_non_empty_triggers_save() {
    let mut document = Document::new(Canvas::new(1, 1));
    document.savefile_path = "/tmp/test_save_non_empty.splattercanvas".to_string();
    assert_eq!(
        current_save_target(&document),
        Some("/tmp/test_save_non_empty.splattercanvas".to_string())
    );
}

/// The autosave directory lies under the data directory.
#[test]
fn save_manager_autosave_directory_path() {
    let (sm, _) = create_save_manager();
    let expected = PathBuf::from("/tmp").join("autosaves");
    assert_eq!(sm.autosave_directory(), expected);
}

/// Starting a save marks it in flight and remembers whether it is an
/// autosave; its result ends it.
#[test]
fn begin_save_then_result_returns_to_idle() {
    let (mut sm, _) = create_save_manager();
    let mut document = Document::new(Canvas::new(4, 4));
    sm.begin_save(&mut document, &SaveKind::Autosave);
    assert!(sm.autosave_in_flight);
    assert_eq!(document.save_state, SaveState::InFlight);
    let mut errors = Vec::new();
    sm.apply_save_result(&mut document, &mut errors, SaveResult::Autosave);
    assert!(!sm.autosave_in_flight);
    assert_eq!(document.save_state, SaveState::Idle);
    sm.begin_save(&mut document, &SaveKind::ManualSave(PathBuf::from("/tmp/x.splattercanvas")));
    assert!(!sm.autosave_in_flight);
}

/// A finished archive autosave ends only the archive autosave and leaves
/// the document as it was, the regular save still in flight.
#[test]
fn archive_autosave_result_leaves_document_unchanged() {
    let (mut sm, _) = create_save_manager();
    let mut document = Document::new(Canvas::new(4, 4));
    document.dirty_since_last_autosave = true;
    sm.begin_save(&mut document, &SaveKind::Autosave);
    sm.begin_archive_autosave();
    assert!(sm.archive_autosave_in_flight);
    let mut errors = Vec::new();
    sm.apply_save_result(&mut document, &mut errors, SaveResult::ArchiveAutosave);
    assert!(!sm.archive_autosave_in_flight);
    assert!(sm.autosave_in_flight);
    assert!(document.dirty_since_last_autosave);
    assert_eq!(document.save_state, SaveState::InFlight);
    assert!(errors.is_empty());
}

/// A failure ends both the regular and the archive autosave.
#[test]
fn failed_save_ends_both_autosaves() {
    let (mut sm, _) = create_save_manager();
    let mut document = Document::new(Canvas::new(4, 4));
    sm.begin_save(&mut document, &SaveKind::Autosave);
    sm.begin_archive_autosave();
    let mut errors = Vec::new();
    sm.apply_save_result(&mut document, &mut errors, SaveResult::Failed("Archive autosave failed: x".into()));
    assert!(!sm.archive_autosave_in_flight);
    assert!(!sm.autosave_in_flight);
    assert_eq!(errors, vec!["Save failed: Archive autosave failed: x".to_string()]);
}

/// With nothing on the channel, polling applies nothing.
#[test]
fn save_manager_poll_save_results_no_messages_is_noop() {
    let (mut sm, _) = create_save_manager();
    let mut document = Document::new(Canvas::new(10, 10));
    let mut errors = Vec::new();
    while let Ok(result) = sm.save_result_receiver.try_recv() {
        sm.apply_save_result(&mut document, &mut errors, result);
    }
    assert!(errors.is_empty());
}
