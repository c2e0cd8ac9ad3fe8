use ptree::entry::DirEntry;
use ptree::window::HotWindow;

fn entry(path: &str) -> DirEntry {
    DirEntry {
        path: path.to_string(),
        name: path.to_string(),
        modified: 0,
        content_hash: 0,
        children: Vec::new(),
        symlink_target: None,
        is_hidden: false,
        is_dir: true,
    }
}

fn key(s: &str) -> String {
    s.to_string()
}

#[test]
fn full_window_evicts_least_recently_used() {
    let mut w = HotWindow::new(3);
    for p in ["a", "b", "c"] {
        w.store(key(p), entry(p));
    }
    w.store(key("d"), entry("d"));
    assert_eq!(w.len(), 3);
    assert!(w.lookup(&key("a")).is_none());
    assert!(w.lookup(&key("b")).is_some());
    assert!(w.lookup(&key("c")).is_some());
    assert!(w.lookup(&key("d")).is_some());
}

#[test]
fn reaccess_protects_from_next_eviction() {
    let mut w = HotWindow::new(3);
    for p in ["a", "b", "c"] {
        w.store(key(p), entry(p));
    }
    assert_eq!(w.lookup(&key("a")).unwrap().path, "a");
    w.store(key("d"), entry("d"));
    assert!(w.lookup(&key("a")).is_some());
    assert!(w.lookup(&key("b")).is_none());
}

#[test]
fn storing_a_key_again_replaces_it() {
    let mut w = HotWindow::new(2);
    w.store(key("a"), entry("a"));
    let mut newer = entry("a");
    newer.modified = 9;
    w.store(key("a"), newer);
    assert_eq!(w.len(), 1);
    assert_eq!(w.lookup(&key("a")).unwrap().modified, 9);
    w.clear();
    assert_eq!(w.len(), 0);
    assert_eq!(w.capacity(), 2);
}

#[test]
fn zero_capacity_window_keeps_nothing() {
    let mut w = HotWindow::new(0);
    w.store(key("a"), entry("a"));
    assert_eq!(w.len(), 0);
    assert!(w.lookup(&key("a")).is_none());
}
