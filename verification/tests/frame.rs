//! The once-per-frame autosave and configuration-save decisions.

use splatter_iron::app_state::AutosaveClock;
use splatter_iron::app_state::AUTOSAVE_INTERVAL_MINUTES;

const NANOS_PER_MINUTE: u128 = 60_000_000_000;
const NANOS_PER_SECOND: u128 = 1_000_000_000;

fn interval() -> u128 {
    AUTOSAVE_INTERVAL_MINUTES as u128 * NANOS_PER_MINUTE
}

/// Nothing is autosaved while the canvas is unchanged.
#[test]
fn handle_autosave_skipped_when_not_dirty() {
    let mut clock = AutosaveClock::new();
    clock.time_elapsed_nanos = interval() + NANOS_PER_SECOND;
    assert!(!clock.handle_autosave(false));
    assert_eq!(clock.times_autosaved, 0);
    assert_eq!(clock.last_autosave_nanos, 0);
}

/// A changed canvas is autosaved once the interval has elapsed.
#[test]
fn handle_autosave_triggers_when_dirty_and_elapsed() {
    let mut clock = AutosaveClock::new();
    clock.time_elapsed_nanos = interval() + NANOS_PER_SECOND;
    assert!(clock.handle_autosave(true));
    assert!(clock.times_autosaved >= 1);
    assert_eq!(clock.last_autosave_nanos, interval() + NANOS_PER_SECOND);
}

/// A changed canvas is not autosaved before the interval has elapsed.
#[test]
fn handle_autosave_skipped_when_not_enough_time() {
    let mut clock = AutosaveClock::new();
    clock.time_elapsed_nanos = NANOS_PER_SECOND;
    assert!(!clock.handle_autosave(true));
    assert_eq!(clock.times_autosaved, 0);
}

/// After an autosave the next one waits for a full interval again.
#[test]
fn handle_autosave_waits_a_full_interval_again() {
    let mut clock = AutosaveClock::new();
    clock.time_elapsed_nanos = interval();
    assert!(clock.handle_autosave(true));
    clock.time_elapsed_nanos = 2 * interval() - 1;
    assert!(!clock.handle_autosave(true));
    clock.time_elapsed_nanos = 2 * interval();
    assert!(clock.handle_autosave(true));
    assert_eq!(clock.times_autosaved, 2);
}

/// The configuration is not written before the interval has elapsed.
#[test]
fn handle_config_save_waits_for_interval() {
    let mut clock = AutosaveClock::new();
    clock.time_elapsed_nanos = NANOS_PER_SECOND;
    assert!(!clock.handle_config_save());
}

/// The configuration is written once the interval has elapsed.
#[test]
fn handle_config_save_saves_after_interval() {
    let mut clock = AutosaveClock::new();
    clock.time_elapsed_nanos = interval() + NANOS_PER_SECOND;
    assert!(clock.handle_config_save());
}
