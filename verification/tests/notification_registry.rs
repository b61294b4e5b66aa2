//! The session's notification bookkeeping.

use twincat::error::AdsError;
use twincat::notifications::NotificationRegistry;

#[test]
fn delete_for_value_releases_all_matching_handles() {
    let mut registry = NotificationRegistry::new();
    registry.register(String::from("garden.plants"), 10, 100);
    registry.register(String::from("garden.lights"), 11, 101);
    registry.register(String::from("garden.plants"), 12, 102);

    let handles = registry
        .delete_notifications_for_value("garden.plants")
        .unwrap();
    assert_eq!(handles, vec![(10, 100), (12, 102)]);
    assert_eq!(registry.entries.len(), 1);
    assert_eq!(registry.entries[0].name, String::from("garden.lights"));

    assert_eq!(
        registry
            .delete_notifications_for_value("garden.plants")
            .unwrap_err(),
        AdsError::NotFound
    );
}

#[test]
fn delete_with_handle_removes_the_latest_match() {
    let mut registry = NotificationRegistry::new();
    registry.register(String::from("a"), 1, 7);
    registry.register(String::from("b"), 2, 8);

    assert_eq!(registry.delete_notification_with_handle(7).unwrap(), (1, 7));
    assert_eq!(registry.entries.len(), 1);
    assert_eq!(
        registry.delete_notification_with_handle(7).unwrap_err(),
        AdsError::NotFound
    );
}

#[test]
fn drop_requests_empties_the_registry() {
    let mut registry = NotificationRegistry::new();
    registry.register(String::from("a"), 1, 7);
    registry.register(String::from("b"), 2, 8);
    let handles = registry.drop_notification_requests();
    assert_eq!(handles, vec![(1, 7), (2, 8)]);
    assert!(registry.entries.is_empty());
}
