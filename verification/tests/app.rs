//! Application constants, export-format metadata and user-interface state
//! defaults.

use std::path::PathBuf;

use splatter_iron::app_state::autosave_due;
use splatter_iron::app_state::estimate_canvas_memory;
use splatter_iron::app_state::export_formats;
use splatter_iron::app_state::needs_memory_warning;
use splatter_iron::app_state::progress_for;
use splatter_iron::app_state::ErrorState;
use splatter_iron::app_state::ExportFormat;
use splatter_iron::app_state::ExportInformation;
use splatter_iron::app_state::ProgressState;
use splatter_iron::app_state::ToastState;
use splatter_iron::app_state::UnsavedWarningAction;
use splatter_iron::app_state::APP_NAME;
use splatter_iron::app_state::APP_ORGANIZATION;
use splatter_iron::app_state::APP_QUALIFIER;
use splatter_iron::app_state::ARCHIVE_EXTENSION;
use splatter_iron::app_state::CANVAS_EXTENSION;
use splatter_iron::app_state::IMPORT_EXTENSIONS;
use splatter_iron::app_state::MEMORY_WARNING_THRESHOLD;
use splatter_iron::app_state::NEW_CANVAS_PRESETS;

/// All export formats should have at least one extension.
#[test]
fn export_formats_all_have_extensions() {
    let formats = export_formats();
    assert!(!formats.is_empty(), "should have at least one format");
    for (label, info) in &formats {
        assert!(!info.extensions.is_empty(), "format {label} has no extensions");
    }
}

/// The export formats should reference distinct image formats.
#[test]
fn export_formats_formats_are_distinct() {
    let mut seen = std::collections::HashSet::new();
    for (label, info) in &export_formats() {
        assert!(seen.insert(info.fmt), "duplicate format {label} in EXPORT_FORMATS");
    }
}

/// Every extension of every export format is non-empty.
#[test]
fn export_information_extensions() {
    for (label, info) in &export_formats() {
        assert!(!info.extensions.is_empty(), "label {label}: expected at least one extension");
        for ext in info.extensions {
            assert!(!ext.is_empty(), "label {label}: empty extension");
        }
    }
}

/// The import extensions contain the common image file extensions.
#[test]
fn import_extensions_non_empty() {
    assert!(!IMPORT_EXTENSIONS.is_empty(), "should have import extensions");
    let expected = ["png", "jpg", "jpeg", "webp", "gif"];
    for ext in &expected {
        assert!(IMPORT_EXTENSIONS.contains(ext), "expected {ext} in IMPORT_EXTENSIONS");
    }
}

/// Export entries can be read as label and information.
#[test]
fn export_formats_entries_accessible() {
    for (label, info) in &export_formats() {
        let _: &str = label;
        let _: &ExportInformation = info;
    }
}

/// `ExportInformation` can be constructed by hand.
#[test]
fn export_information_construction() {
    let info = ExportInformation { extensions: &["test_ext"], fmt: ExportFormat::Png };
    assert_eq!(info.extensions, &["test_ext"]);
    assert_eq!(info.fmt, ExportFormat::Png);
}

/// The memory estimate counts the output buffer, the blend buffer and
/// every layer.
#[test]
fn estimate_canvas_memory_returns_product() {
    assert_eq!(estimate_canvas_memory(100, 100, 1), 120_000);
    assert_eq!(estimate_canvas_memory(1, 1, 0), 8);
    assert_eq!(estimate_canvas_memory(0, 0, 5), 0);
    assert_eq!(estimate_canvas_memory(10, 10, 2), 10 * 10 * 4 * 4);
}

/// A default error state holds no message.
#[test]
fn error_state_default() {
    let state = ErrorState::default();
    assert!(state.list.is_empty());
}

/// A default toast state holds no message.
#[test]
fn toast_state_default() {
    let state = ToastState::default();
    assert!(state.message.is_none());
}

/// Each postponed action can be constructed and prints its variant name.
#[test]
fn unsaved_warning_action_variants() {
    let quit = UnsavedWarningAction::Quit;
    let new_canvas = UnsavedWarningAction::NewCanvas;
    let load = UnsavedWarningAction::Load;
    let import = UnsavedWarningAction::Import;
    let load_path = UnsavedWarningAction::LoadPath(PathBuf::from("/tmp/test.splattercanvas"));

    assert_eq!(format!("{quit:?}"), "Quit");
    assert_eq!(format!("{new_canvas:?}"), "NewCanvas");
    assert_eq!(format!("{load:?}"), "Load");
    assert_eq!(format!("{import:?}"), "Import");
    assert!(format!("{load_path:?}").contains("test.splattercanvas"));
}

/// Progress states are distinct and print their variant names.
#[test]
fn progress_state_variants() {
    assert_ne!(ProgressState::Idle, ProgressState::Saving);
    assert_ne!(ProgressState::Autosaving, ProgressState::Exporting);
    assert_ne!(ProgressState::Loading, ProgressState::Importing);
    assert_eq!(format!("{:?}", ProgressState::Idle), "Idle");
    assert_eq!(format!("{:?}", ProgressState::Saving), "Saving");
    assert_eq!(format!("{:?}", ProgressState::Autosaving), "Autosaving");
    assert_eq!(format!("{:?}", ProgressState::Exporting), "Exporting");
    assert_eq!(format!("{:?}", ProgressState::Loading), "Loading");
    assert_eq!(format!("{:?}", ProgressState::Importing), "Importing");
}

/// The new-canvas presets have names and non-zero dimensions.
#[test]
fn new_canvas_presets_are_valid() {
    for (name, width, height) in NEW_CANVAS_PRESETS.iter() {
        assert!(!name.is_empty(), "preset name should be non-empty");
        assert!(*width > 0, "preset {name} width should be > 0");
        assert!(*height > 0, "preset {name} height should be > 0");
    }
}

/// Application identity and file extensions.
#[test]
fn app_constants_are_correct() {
    assert_eq!(APP_QUALIFIER, "com");
    assert_eq!(APP_ORGANIZATION, "Monbuticloud");
    assert_eq!(APP_NAME, "SplatterIron");
    assert!(CANVAS_EXTENSION.starts_with('.'));
    assert!(ARCHIVE_EXTENSION.starts_with('.'));
    assert_eq!(CANVAS_EXTENSION, ".splattercanvas");
    assert_eq!(ARCHIVE_EXTENSION, ".splatterarchive");
}

/// The warning threshold is crossed by a large canvas and not by a small one.
#[test]
fn memory_warning_threshold_boundary() {
    assert!(!needs_memory_warning(100, 100, 1));
    // 10000 x 10000 with one layer: 1.2 GB.
    assert!(needs_memory_warning(10_000, 10_000, 1));
    // 5000 x 5000 with three layers: exactly 500 MB, not above the threshold.
    assert_eq!(estimate_canvas_memory(5000, 5000, 3), MEMORY_WARNING_THRESHOLD);
    assert!(!needs_memory_warning(5000, 5000, 3));
}

/// The export formats come in menu order with their extensions.
#[test]
fn export_formats_menu_order() {
    let formats = export_formats();
    assert_eq!(formats.len(), 13);
    assert_eq!(formats[0].0, "AVIF");
    assert_eq!(formats[2].1.fmt, ExportFormat::Jpeg);
    assert_eq!(formats[2].1.extensions, &["jpg", "jpeg"]);
    assert_eq!(formats[12].1.fmt, ExportFormat::Farbfeld);
}

/// The progress shown follows the first running operation.
#[test]
fn progress_follows_running_work() {
    assert_eq!(progress_for(true, true, true), ProgressState::Loading);
    assert_eq!(progress_for(false, true, true), ProgressState::Importing);
    assert_eq!(progress_for(false, false, true), ProgressState::Exporting);
    assert_eq!(progress_for(false, false, false), ProgressState::Idle);
}

/// An autosave is due only for a changed document after two minutes.
#[test]
fn autosave_due_after_interval() {
    let min = 60_000_000_000u128;
    assert!(!autosave_due(true, 2 * min - 1, 0));
    assert!(autosave_due(true, 2 * min, 0));
    assert!(!autosave_due(false, 5 * min, 0));
    assert!(!autosave_due(true, min, 3 * min));
    assert!(autosave_due(true, 7 * min, 5 * min));
}

/// Without a GPU report the canvas side limit is the WebGPU minimum.
#[test]
fn max_texture_dimension_falls_back() {
    assert_eq!(splatter_iron::app_state::max_texture_dimension(None), 8192);
    assert_eq!(splatter_iron::app_state::max_texture_dimension(Some(16384)), 16384);
}
