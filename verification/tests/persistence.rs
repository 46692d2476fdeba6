//! The recent-files list.

use splatter_iron::app_state::push_recent_file;
use splatter_iron::app_state::MAX_RECENT_FILES;

/// An empty path is not recorded.
#[test]
fn push_recent_file_empty_path_noop() {
    let mut recent: Vec<String> = Vec::new();
    push_recent_file(&mut recent, String::new());
    assert!(recent.is_empty());
}

/// A new path goes first.
#[test]
fn push_recent_file_inserts_front() {
    let mut recent: Vec<String> = Vec::new();
    push_recent_file(&mut recent, "/a".to_string());
    push_recent_file(&mut recent, "/b".to_string());
    assert_eq!(recent.len(), 2);
    assert_eq!(recent[0], "/b");
    assert_eq!(recent[1], "/a");
}

/// Opening a path again moves it first without a duplicate.
#[test]
fn push_recent_file_dedup() {
    let mut recent: Vec<String> = Vec::new();
    push_recent_file(&mut recent, "/a".to_string());
    push_recent_file(&mut recent, "/b".to_string());
    push_recent_file(&mut recent, "/a".to_string());
    assert_eq!(recent.len(), 2);
    assert_eq!(recent[0], "/a");
    assert_eq!(recent[1], "/b");
}

/// Only the ten most recent paths are kept.
#[test]
fn push_recent_file_truncates_at_ten() {
    let mut recent: Vec<String> = Vec::new();
    for i in 0..11 {
        push_recent_file(&mut recent, format!("/path_{i}"));
    }
    assert_eq!(recent.len(), MAX_RECENT_FILES);
    assert_eq!(recent[0], "/path_10");
    assert_eq!(recent[9], "/path_1");
}
