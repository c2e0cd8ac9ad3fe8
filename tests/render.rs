use ptree::entry::DirEntry;
use ptree::lazy::LazyCache;
use ptree::strmap::StrMap;

fn entry(path: &str, children: &[&str]) -> DirEntry {
    DirEntry {
        path: path.to_string(),
        name: path.rsplit('/').next().unwrap().to_string(),
        modified: 0,
        content_hash: 0,
        children: children.iter().map(|c| c.to_string()).collect(),
        symlink_target: None,
        is_hidden: false,
        is_dir: true,
    }
}

fn store(entries: &[DirEntry]) -> (Vec<u8>, StrMap) {
    let mut w = LazyCache::open(None, None, 10);
    let mut data = Vec::new();
    let mut offsets = StrMap::new();
    for e in entries {
        let (off, bytes) = w.append_entry(e).unwrap();
        data.extend_from_slice(&bytes);
        offsets.insert(e.path.clone(), off);
    }
    (data, offsets)
}

#[test]
fn empty_store_prints_empty() {
    let mut cache = LazyCache::open(None, None, 10);
    assert_eq!(cache.build_tree_output(), "(empty)\n");
    assert_eq!(cache.build_json_output(), "{\"children\":[],\"path\":\"\"}");
}

#[test]
fn tree_output_lists_children_with_guides() {
    let (data, offsets) = store(&[entry("/r", &["b", "a"]), entry("/r/a", &["x"])]);
    let mut cache = LazyCache::open(None, Some(&data), 10);
    cache.update_index(offsets, 1, "/r".to_string(), "/r".to_string());
    let out = cache.build_tree_output();
    // The guide below a child follows whether its parent was the last child.
    assert_eq!(out, "/r\n├── a\n    └── x\n└── b\n");
}

#[test]
fn self_referential_children_do_not_loop() {
    // "/r/" names itself through the empty child name; "/r/" lists "", which
    // joins back to "/r/" again.
    let (data, offsets) = store(&[entry("/r/", &["", "k"]), entry("/r/k", &[])]);
    let mut cache = LazyCache::open(None, Some(&data), 10);
    cache.update_index(offsets, 1, "/r/".to_string(), "/r/".to_string());
    let out = cache.build_tree_output();
    assert_eq!(out, "/r/\n├── \n└── k\n");
    let json = cache.build_json_output();
    assert!(json.contains("\"name\": \"k\""));
    let colored = cache.build_colored_tree_output();
    assert!(colored.contains('k'));
}

#[test]
fn json_output_nests_children() {
    let (data, offsets) = store(&[entry("/r", &["a"]), entry("/r/a", &[])]);
    let mut cache = LazyCache::open(None, Some(&data), 10);
    cache.update_index(offsets, 1, "/r".to_string(), "/r".to_string());
    let json = cache.build_json_output();
    let expected = "{\n  \"children\": [\n    {\n      \"children\": [],\n      \"name\": \"a\",\n      \"path\": \"/r/a\"\n    }\n  ],\n  \"path\": \"/r\"\n}";
    assert_eq!(json, expected);
}

#[test]
fn empty_store_json_names_its_root() {
    let mut blob_cache = LazyCache::open(None, None, 10);
    blob_cache.update_index(StrMap::new(), 0, "/r".to_string(), "/r".to_string());
    assert_eq!(blob_cache.build_json_output(), "{\"children\":[],\"path\":\"/r\"}");
}

#[test]
fn colored_tree_keeps_one_line_per_child() {
    let (data, offsets) = store(&[entry("/r", &["a", "b"]), entry("/r/a", &["x"])]);
    let mut cache = LazyCache::open(None, Some(&data), 10);
    cache.update_index(offsets, 1, "/r".to_string(), "/r".to_string());
    let colored = cache.build_colored_tree_output();
    assert_eq!(colored.lines().count(), 4);
    assert!(colored.contains('x'));
}

#[test]
fn unsorted_children_print_sorted() {
    let (data, offsets) = store(&[entry("/r", &["b", "a"])]);
    let mut cache = LazyCache::open(None, Some(&data), 10);
    cache.update_index(offsets, 1, "/r".to_string(), "/r".to_string());
    assert_eq!(cache.build_tree_output(), "/r\n├── a\n└── b\n");
}
