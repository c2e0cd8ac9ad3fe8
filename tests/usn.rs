use ptree::usn::USNTracker;

#[test]
fn test_usn_tracker_creation() {
    let tracker = USNTracker::new("C:\\".to_string());
    assert_eq!(tracker.last_usn, 0);
    assert!(tracker.changed_dirs.is_empty());
}

#[test]
fn tracker_reports_changed_directories() {
    let mut tracker = USNTracker::new("C:\\".to_string());
    tracker.mark_changed("C:\\Users".to_string());
    tracker.update_last_usn(42);
    assert_eq!(tracker.last_usn, 42);
    assert!(tracker.needs_rescan(&"C:\\Users".to_string()));
    assert!(!tracker.needs_rescan(&"C:\\Windows".to_string()));
    assert!(!tracker.changed_dirs.is_empty());
}
