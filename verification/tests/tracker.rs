use numlock_watch::identity::DeviceIdentity;
use numlock_watch::tracker::{DeviceEvent, DeviceHandler};

fn keypad() -> DeviceIdentity {
    DeviceIdentity { vendor: 0x04d9, product: 0xa232 }
}

fn root_hub() -> DeviceIdentity {
    DeviceIdentity { vendor: 0x1d6b, product: 0x0002 }
}

fn mouse() -> DeviceIdentity {
    DeviceIdentity { vendor: 0x1234, product: 0x5678 }
}

/// Scenario A: only an unwatched hub is attached; the startup evaluation
/// asks for `off`.
#[test]
fn startup_with_no_watched_device_turns_off() {
    let (tracker, on) = DeviceHandler::new(vec![keypad()], vec![root_hub()]);
    assert!(!on);
    assert_eq!(tracker.connected_count(), 1);
    assert!(tracker.is_connected(root_hub()));
    assert!(!tracker.is_connected(keypad()));
    assert!(!tracker.check_devices());
}

/// Scenario B: the watched keypad arrives; the actuator is asked for `on`.
#[test]
fn watched_arrival_turns_on() {
    let (mut tracker, _) = DeviceHandler::new(vec![keypad()], vec![root_hub()]);
    let action = tracker.device_added(keypad());
    assert_eq!(action, Some(true));
    assert_eq!(tracker.connected_count(), 2);
    assert!(tracker.is_connected(root_hub()));
    assert!(tracker.is_connected(keypad()));
}

/// Scenario C: a spurious duplicate arrival of the keypad changes nothing
/// and does not invoke the actuator.
#[test]
fn duplicate_arrival_is_dropped() {
    let (mut tracker, _) = DeviceHandler::new(vec![keypad()], vec![root_hub()]);
    assert_eq!(tracker.device_added(keypad()), Some(true));
    let action = tracker.device_added(keypad());
    assert_eq!(action, None);
    assert_eq!(tracker.connected_count(), 2);
    assert!(tracker.is_connected(keypad()));
}

/// Scenario D: the watched keypad departs; the actuator is asked for `off`.
#[test]
fn watched_departure_turns_off() {
    let (mut tracker, _) = DeviceHandler::new(vec![keypad()], vec![root_hub()]);
    assert_eq!(tracker.device_added(keypad()), Some(true));
    let action = tracker.device_removed(keypad());
    assert_eq!(action, Some(false));
    assert_eq!(tracker.connected_count(), 1);
    assert!(!tracker.is_connected(keypad()));
    assert!(tracker.is_connected(root_hub()));
}

/// Scenario E: a failed identity resolution drops the event without any
/// state change or actuator invocation.
#[test]
fn failed_resolution_is_dropped() {
    let (mut tracker, _) = DeviceHandler::new(vec![keypad()], vec![root_hub()]);
    assert_eq!(tracker.device_arrived(None), None);
    assert_eq!(tracker.device_left(None), None);
    assert_eq!(tracker.connected_count(), 1);
    assert!(tracker.is_connected(root_hub()));
}

#[test]
fn resolved_arrival_behaves_like_added() {
    let (mut tracker, _) = DeviceHandler::new(vec![keypad()], vec![root_hub()]);
    assert_eq!(tracker.device_arrived(Some(keypad())), Some(true));
    assert_eq!(tracker.device_left(Some(keypad())), Some(false));
    assert_eq!(tracker.connected_count(), 1);
}

/// An unwatched device arriving never invokes the actuator, whether a
/// watched device is present or not.
#[test]
fn unwatched_arrival_never_triggers() {
    let (mut tracker, _) = DeviceHandler::new(vec![keypad()], vec![]);
    assert_eq!(tracker.device_added(mouse()), None);
    assert_eq!(tracker.device_added(keypad()), Some(true));
    assert_eq!(tracker.device_added(root_hub()), None);
    assert_eq!(tracker.connected_count(), 3);
}

/// Removing a device that is not connected neither invokes the actuator nor
/// changes the connected set.
#[test]
fn removal_of_absent_device_is_a_no_op() {
    let (mut tracker, _) = DeviceHandler::new(vec![keypad()], vec![root_hub()]);
    assert_eq!(tracker.device_removed(keypad()), None);
    assert_eq!(tracker.device_removed(mouse()), None);
    assert_eq!(tracker.connected_count(), 1);
    assert!(tracker.is_connected(root_hub()));
}

/// Removing an unwatched device that is connected mutates the set but never
/// invokes the actuator.
#[test]
fn unwatched_departure_never_triggers() {
    let (mut tracker, _) = DeviceHandler::new(vec![keypad()], vec![root_hub(), keypad()]);
    assert_eq!(tracker.device_removed(root_hub()), None);
    assert_eq!(tracker.connected_count(), 1);
    assert!(tracker.is_connected(keypad()));
}

/// Startup with the watched device already attached asks for `on`.
#[test]
fn startup_with_watched_device_turns_on() {
    let (tracker, on) = DeviceHandler::new(vec![keypad()], vec![root_hub(), keypad()]);
    assert!(on);
    assert!(tracker.check_devices());
}

/// Startup collapses duplicate identities from enumeration into one entry.
#[test]
fn startup_deduplicates_enumeration() {
    let (tracker, on) = DeviceHandler::new(vec![keypad()], vec![root_hub(), root_hub(), root_hub()]);
    assert!(!on);
    assert_eq!(tracker.connected_count(), 1);
}

/// Two watched keypads: the second departure is what turns the policy off.
#[test]
fn second_watched_device_keeps_policy_on() {
    let second = DeviceIdentity { vendor: 0x04d9, product: 0xa233 };
    let (mut tracker, _) = DeviceHandler::new(vec![keypad(), second], vec![]);
    assert_eq!(tracker.device_added(keypad()), Some(true));
    assert_eq!(tracker.device_added(second), Some(true));
    assert_eq!(tracker.device_removed(keypad()), Some(true));
    assert_eq!(tracker.device_removed(second), Some(false));
}

/// Replaying a batch of events, duplicates and spurious removes included,
/// ends in the same set as applying each event once in order, and yields
/// exactly the actuator invocations of the triggering events.
#[test]
fn replay_with_duplicates_matches_single_application() {
    let (mut tracker, _) = DeviceHandler::new(vec![keypad()], vec![root_hub()]);
    let events = vec![
        DeviceEvent::Added(mouse()),
        DeviceEvent::Added(keypad()),
        DeviceEvent::Added(keypad()),
        DeviceEvent::Removed(mouse()),
        DeviceEvent::Removed(mouse()),
        DeviceEvent::Removed(keypad()),
        DeviceEvent::Added(keypad()),
    ];
    let actions = tracker.process_events(&events);
    assert_eq!(actions, vec![true, false, true]);
    assert_eq!(tracker.connected_count(), 2);
    assert!(tracker.is_connected(root_hub()));
    assert!(tracker.is_connected(keypad()));
    assert!(!tracker.is_connected(mouse()));
}

#[test]
fn replay_of_no_events_changes_nothing() {
    let (mut tracker, _) = DeviceHandler::new(vec![keypad()], vec![root_hub()]);
    let actions = tracker.process_events(&vec![]);
    assert!(actions.is_empty());
    assert_eq!(tracker.connected_count(), 1);
}

/// With an empty watch set no event ever triggers the actuator.
#[test]
fn empty_watch_set_never_triggers() {
    let (mut tracker, on) = DeviceHandler::new(vec![], vec![root_hub()]);
    assert!(!on);
    assert_eq!(tracker.device_added(keypad()), None);
    assert_eq!(tracker.device_removed(keypad()), None);
    assert_eq!(tracker.device_removed(root_hub()), None);
}
