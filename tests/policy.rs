use ptree::lazy::LazyCache;
use ptree::policy::{decide_scope, drive_root, worker_count, DebugInfo, ScanScope, FRESHNESS_WINDOW_MS};
use ptree::strmap::StrMap;

fn s(x: &str) -> String {
    x.to_string()
}

const MINUTE: i64 = 60_000;

#[test]
fn fresh_cache_is_served_without_scanning() {
    let now = 1_700_000_000_000;
    let r = decide_scope(false, now - 10 * MINUTE, now, false, &s("C:\\"), &s("C:\\work"));
    assert_eq!(r, ScanScope::Skip);
}

#[test]
fn force_scans_regardless_of_age() {
    let now = 1_700_000_000_000;
    let r = decide_scope(false, now - 10 * MINUTE, now, true, &s("C:\\"), &s("C:\\work"));
    assert_eq!(r, ScanScope::Partial(s("C:\\work")));
}

#[test]
fn stale_cache_rescans_working_directory() {
    let now = 1_700_000_000_000;
    let r = decide_scope(false, now - FRESHNESS_WINDOW_MS, now, false, &s("C:\\"), &s("C:\\work"));
    assert_eq!(r, ScanScope::Partial(s("C:\\work")));
    let r = decide_scope(false, now - FRESHNESS_WINDOW_MS + 1, now, false, &s("C:\\"), &s("C:\\w"));
    assert_eq!(r, ScanScope::Skip);
}

#[test]
fn empty_cache_is_a_first_run() {
    let now = 1_700_000_000_000;
    assert_eq!(decide_scope(true, now, now, false, &s("C:\\"), &s("C:\\w")), ScanScope::Full(s("C:\\")));
    assert_eq!(decide_scope(true, 0, now, true, &s("C:\\"), &s("C:\\w")), ScanScope::Full(s("C:\\")));
}

#[test]
fn extreme_times_do_not_overflow() {
    assert_eq!(decide_scope(false, i64::MIN, i64::MAX, false, &s("r"), &s("c")), ScanScope::Partial(s("c")));
    assert_eq!(decide_scope(false, i64::MAX, i64::MIN, false, &s("r"), &s("c")), ScanScope::Skip);
}

#[test]
fn plan_on_fresh_store_skips_and_leaves_it_unchanged() {
    let mut cache = LazyCache::open(None, None, 10);
    let mut offsets = StrMap::new();
    offsets.insert(s("/r"), 0);
    let now = ptree::policy::current_time_ms();
    cache.update_index(offsets, now - 10 * MINUTE, s("/r"), s("/r"));
    let (scope, _) = cache.plan_scan(false, &s("/r"), &s("/r/w"));
    assert_eq!(scope, ScanScope::Skip);
    assert_eq!(cache.last_scan(), now - 10 * MINUTE);
    assert_eq!(cache.entry_count(), 1);
    let (forced, _) = cache.plan_scan(true, &s("/r"), &s("/r/w"));
    assert_eq!(forced, ScanScope::Partial(s("/r/w")));
}

#[test]
fn drive_root_and_workers() {
    assert_eq!(drive_root('D'), "D:\\");
    assert_eq!(worker_count(Some(3)), 3);
    assert!(worker_count(None) >= 2);
    let d = DebugInfo::from_cache(&s("C:\\"), 12);
    assert!(d.cache_used && !d.is_first_run);
    assert_eq!(d.total_dirs, 12);
    assert_eq!(d.threads_used, 0);
}

#[test]
fn default_workers_double_the_cores() {
    assert_eq!(ptree::policy::default_workers(4), 8);
    assert_eq!(ptree::policy::default_workers(1), 2);
    assert_eq!(ptree::policy::default_workers(usize::MAX / 2 + 1), usize::MAX);
}
