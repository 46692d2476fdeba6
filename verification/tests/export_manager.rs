//! Background export bookkeeping.

use splatter_iron::file_io::ExportTracker;

/// A successful export ends without errors.
#[test]
fn export_manager_poll_export_results_success_returns_true() {
    let mut em = ExportTracker::new();
    let mut errors = Vec::new();
    em.begin();
    assert!(em.export_in_flight);
    em.apply_export_result(&mut errors, Ok(()));
    assert!(errors.is_empty());
    assert!(!em.export_in_flight);
}

/// A failed export adds its message.
#[test]
fn export_manager_poll_export_results_error_appends() {
    let mut em = ExportTracker::new();
    let mut errors = Vec::new();
    em.begin();
    em.apply_export_result(&mut errors, Err("export failed".to_string()));
    assert!(errors.iter().any(|e| e.contains("export failed")));
    assert_eq!(errors, vec!["Export failed: export failed".to_string()]);
    assert!(!em.export_in_flight);
}
