use ptree::entry::DirEntry;
use ptree::error::PTreeError;
use ptree::index::CacheIndex;
use ptree::lazy::LazyCache;
use ptree::strmap::StrMap;

fn entry(path: &str, name: &str, children: &[&str]) -> DirEntry {
    DirEntry {
        path: path.to_string(),
        name: name.to_string(),
        modified: 1000,
        content_hash: 0,
        children: children.iter().map(|c| c.to_string()).collect(),
        symlink_target: None,
        is_hidden: false,
        is_dir: true,
    }
}

/// Appends the entries to a fresh log and returns the log bytes and offsets.
fn build(entries: &[DirEntry]) -> (Vec<u8>, StrMap) {
    let mut writer = LazyCache::open(None, None, 10);
    let mut data = Vec::new();
    let mut offsets = StrMap::new();
    for e in entries {
        let (off, bytes) = writer.append_entry(e).unwrap();
        assert_eq!(off as usize, data.len());
        data.extend_from_slice(&bytes);
        offsets.insert(e.path.clone(), off);
    }
    (data, offsets)
}

#[test]
fn lazy_cache_cold_start_is_empty() {
    let cache = LazyCache::open(None, None, 1000);
    assert!(cache.is_empty());
    assert_eq!(cache.entry_count(), 0);
}

#[test]
fn lazy_cache_append_and_load() {
    let e = entry("C:\\test", "test", &["child1"]);
    let (data, offsets) = build(&[e]);
    let mut cache = LazyCache::open(None, Some(&data), 1000);
    cache.update_index(offsets, 5, "C:\\".to_string(), "C:\\".to_string());
    let loaded = cache.get_entry(&"C:\\test".to_string()).unwrap();
    assert!(loaded.is_some());
    assert_eq!(loaded.unwrap().name, "test");
}

#[test]
fn every_indexed_path_is_found_with_its_children() {
    let es = vec![
        entry("/r", "r", &["a", "b"]),
        entry("/r/a", "a", &["x"]),
        entry("/r/b", "b", &[]),
        entry("/r/a/x", "x", &[]),
    ];
    let (data, offsets) = build(&es);
    let mut cache = LazyCache::open(None, Some(&data), 2);
    cache.update_index(offsets, 5, "/r".to_string(), "/r".to_string());
    for _ in 0..2 {
        for e in &es {
            let got = cache.get_entry(&e.path).unwrap().unwrap();
            assert_eq!(got.path, e.path);
            assert_eq!(got.children, e.children);
        }
    }
    assert!(cache.get_entry(&"/r/zzz".to_string()).unwrap().is_none());
    let all = cache.get_all();
    let paths: Vec<&str> = all.iter().map(|(p, _)| p.as_str()).collect();
    assert_eq!(paths, vec!["/r", "/r/a", "/r/b", "/r/a/x"]);
}

#[test]
fn opening_reads_no_record() {
    // The data view is garbage: opening and the index queries must not read it.
    let garbage = vec![0xffu8; 64];
    let mut offsets = StrMap::new();
    offsets.insert("/r".to_string(), 0);
    let mut ix = CacheIndex::new();
    ix.offsets = offsets;
    let blob = ix.to_bytes();
    let mut cache = LazyCache::open(Some(&blob), Some(&garbage), 10);
    assert_eq!(cache.entry_count(), 1);
    assert!(!cache.is_empty());
    // Only the first lookup touches the data, and finds the record out of range.
    assert!(cache.get_entry(&"/r".to_string()).unwrap().is_none());
}

#[test]
fn corrupt_record_is_reported_for_that_path_only() {
    let es = vec![entry("/r", "r", &["a"]), entry("/r/a", "a", &[])];
    let (mut data, offsets) = build(&es);
    data[8] = 0xff; // inside the first record's path
    let mut cache = LazyCache::open(None, Some(&data), 10);
    cache.update_index(offsets, 5, "/r".to_string(), "/r".to_string());
    assert_eq!(cache.get_entry(&"/r".to_string()).err(), Some(PTreeError::CorruptRecord));
    assert!(cache.get_entry(&"/r/a".to_string()).unwrap().is_some());
    let all = cache.get_all();
    assert_eq!(all.len(), 1);
    assert_eq!(all[0].0, "/r/a");
}

#[test]
fn truncated_tail_record_is_absent() {
    let es = vec![entry("/r", "r", &[]), entry("/r/a", "a", &[])];
    let (data, offsets) = build(&es);
    let cut = &data[..data.len() - 3];
    let mut cache = LazyCache::open(None, Some(cut), 10);
    cache.update_index(offsets, 5, "/r".to_string(), "/r".to_string());
    assert!(cache.get_entry(&"/r".to_string()).unwrap().is_some());
    assert!(cache.get_entry(&"/r/a".to_string()).unwrap().is_none());
}

#[test]
fn index_blob_round_trips() {
    let mut ix = CacheIndex::new();
    ix.offsets.insert("/r".to_string(), 0);
    ix.offsets.insert("/r/a".to_string(), 40);
    ix.skip_stats.insert(".git".to_string(), 3);
    ix.last_scan = 1_700_000_000_000;
    ix.root = "/r".to_string();
    ix.last_scanned_root = "/r/a".to_string();
    ix.change_cursor = vec![1, 2, 3];
    let blob = ix.to_bytes();
    let back = CacheIndex::from_bytes(&blob).unwrap();
    assert_eq!(back.offsets.get(&"/r/a".to_string()), Some(40));
    assert_eq!(back.offsets.get(&"/r".to_string()), Some(0));
    assert_eq!(back.skip_stats.get(&".git".to_string()), Some(3));
    assert_eq!(back.last_scan, 1_700_000_000_000);
    assert_eq!(back.root, "/r");
    assert_eq!(back.last_scanned_root, "/r/a");
    assert_eq!(back.change_cursor, vec![1, 2, 3]);
    assert_eq!(back.to_bytes(), blob);
}

#[test]
fn unreadable_index_loads_empty() {
    let loaded = CacheIndex::load(Some(&[1, 2, 3]));
    assert_eq!(loaded.offsets.len(), 0);
    assert_eq!(loaded.last_scan, 0);
    let absent = CacheIndex::load(None);
    assert_eq!(absent.offsets.len(), 0);
    let cache = LazyCache::open(Some(&[9, 9]), None, 10);
    assert!(cache.is_empty());
}

#[test]
fn update_replaces_offsets_wholesale() {
    let es = vec![entry("/r", "r", &[]), entry("/s", "s", &[])];
    let (data, offsets) = build(&es);
    let mut cache = LazyCache::open(None, Some(&data), 10);
    cache.update_index(offsets, 5, "/r".to_string(), "/r".to_string());
    assert!(cache.get_entry(&"/r".to_string()).unwrap().is_some());
    let mut only_s = StrMap::new();
    only_s.insert("/s".to_string(), cache.index().offsets.get(&"/s".to_string()).unwrap());
    cache.update_index(only_s, 9, "/s".to_string(), "/s".to_string());
    assert!(cache.get_entry(&"/r".to_string()).unwrap().is_none());
    assert_eq!(cache.entry_count(), 1);
    assert_eq!(cache.last_scan(), 9);
    assert_eq!(cache.root(), "/s");
}

#[test]
fn skip_stats_and_cursor_are_kept() {
    let mut cache = LazyCache::open(None, None, 10);
    let mut stats = StrMap::new();
    stats.insert("System32".to_string(), 4);
    cache.set_skip_stats(stats);
    cache.set_change_cursor(vec![7, 7]);
    assert_eq!(cache.skip_stats().get(&"System32".to_string()), Some(4));
    assert_eq!(cache.change_cursor(), &vec![7, 7]);
}

#[test]
fn str_map_replaces_and_keeps_order() {
    let mut m = StrMap::new();
    m.insert("b".to_string(), 1);
    m.insert("a".to_string(), 2);
    m.insert("b".to_string(), 3);
    assert_eq!(m.len(), 2);
    assert_eq!(m.get(&"b".to_string()), Some(3));
    let (k0, v0) = m.pair_at(0);
    assert_eq!((k0.as_str(), v0), ("b", 3));
    let (k1, v1) = m.pair_at(1);
    assert_eq!((k1.as_str(), v1), ("a", 2));
    assert!(StrMap::from_pairs(&vec![("x".to_string(), 1), ("x".to_string(), 2)]).is_none());
}

#[test]
fn partial_scan_keeps_other_paths() {
    let es = vec![entry("/r", "r", &["a"]), entry("/r/a", "a", &[]), entry("/r/b", "b", &[])];
    let (data, offsets) = build(&es);
    let mut cache = LazyCache::open(None, Some(&data), 10);
    let mut first = StrMap::new();
    first.insert("/r".to_string(), offsets.get(&"/r".to_string()).unwrap());
    first.insert("/r/a".to_string(), 999);
    cache.finish_scan(true, first, 1, "/r".to_string());
    assert_eq!(cache.entry_count(), 2);
    let mut rescan = StrMap::new();
    rescan.insert("/r/a".to_string(), offsets.get(&"/r/a".to_string()).unwrap());
    rescan.insert("/r/b".to_string(), offsets.get(&"/r/b".to_string()).unwrap());
    cache.finish_scan(false, rescan, 2, "/r/a".to_string());
    assert_eq!(cache.root(), "/r");
    assert_eq!(cache.entry_count(), 3);
    assert_eq!(cache.get_entry(&"/r/a".to_string()).unwrap().unwrap().name, "a");
    assert_eq!(cache.get_entry(&"/r".to_string()).unwrap().unwrap().name, "r");
    assert_eq!(cache.index().last_scanned_root, "/r/a");
    assert_eq!(cache.last_scan(), 2);
}

#[test]
fn index_blob_encodes_only_when_it_fits() {
    let ix = CacheIndex::new();
    let blob = ix.encode().unwrap();
    assert_eq!(blob, ix.to_bytes());
    assert_eq!(blob.len(), 8 + 4 + 4 + 4 + 4 + 4);
}

#[test]
fn recorded_entries_are_keyed_by_their_own_path() {
    let mut cache = LazyCache::open(None, None, 10);
    let mut scanned = StrMap::new();
    let mut data = Vec::new();
    for e in [entry("/r", "r", &["a"]), entry("/r/a", "a", &[])] {
        let (off, bytes) = cache.record_entry(&e, &mut scanned).unwrap();
        assert_eq!(off as usize, data.len());
        data.extend_from_slice(&bytes);
    }
    assert_eq!(scanned.len(), 2);
    assert_eq!(scanned.get(&"/r".to_string()), Some(0));
    let mut reader = LazyCache::open(None, Some(&data), 10);
    reader.finish_scan(true, scanned, 3, "/r".to_string());
    for p in ["/r", "/r/a"] {
        assert_eq!(reader.get_entry(&p.to_string()).unwrap().unwrap().path, p);
    }
}
