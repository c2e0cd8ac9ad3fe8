use ptree::skip::SkipRules;
use ptree::traversal::{process_listing, ChildInfo, Task, TraversalState};
use std::collections::{BTreeMap, BTreeSet};

fn child(name: &str, is_dir: bool, is_symlink: bool) -> ChildInfo {
    ChildInfo { name: name.to_string(), is_dir, is_symlink }
}

#[test]
fn listing_skips_sorts_and_follows_real_directories() {
    let mut rules = SkipRules::new();
    rules.insert("System32".to_string());
    let listing = vec![
        child("zeta", true, false),
        child("SYSTEM32", true, false),
        child("alpha.txt", false, false),
        child("link", true, true),
        child("Beta", true, false),
    ];
    let (entry, subdirs, skipped) =
        process_listing(&"C:\\root".to_string(), "root".to_string(), &listing, &rules, 77);
    assert_eq!(skipped, vec!["System32"]);
    assert_eq!(entry.children, vec!["Beta", "alpha.txt", "link", "zeta"]);
    assert_eq!(subdirs, vec!["C:\\root\\zeta", "C:\\root\\Beta"]);
    assert_eq!(entry.path, "C:\\root");
    assert_eq!(entry.name, "root");
    assert_eq!(entry.modified, 77);
    assert!(entry.is_dir);
    assert!(entry.symlink_target.is_none());
}

#[test]
fn large_listing_is_sorted() {
    let rules = SkipRules::new();
    let listing: Vec<ChildInfo> = (0..250).rev().map(|i| child(&format!("d{:03}", i), false, false)).collect();
    let (entry, subdirs, skipped) = process_listing(&"/r".to_string(), "r".to_string(), &listing, &rules, 0);
    assert!(skipped.is_empty());
    assert!(subdirs.is_empty());
    assert_eq!(entry.children.len(), 250);
    assert!(entry.children.windows(2).all(|w| w[0] < w[1]));
}

#[test]
fn duplicate_queue_entries_are_claimed_once() {
    let mut st = TraversalState::new("/r".to_string());
    assert_eq!(st.next_task(), Task::Work("/r".to_string()));
    st.complete(&"/r".to_string(), vec!["/r/a".to_string(); 5], &Vec::new());
    assert_eq!(st.next_task(), Task::Work("/r/a".to_string()));
    assert_eq!(st.next_task(), Task::Wait);
    st.complete(&"/r/a".to_string(), Vec::new(), &Vec::new());
    assert_eq!(st.in_flight(), 0);
    assert_eq!(st.next_task(), Task::Done);
}

#[test]
fn wait_until_in_flight_work_is_reported() {
    let mut st = TraversalState::new("/r".to_string());
    assert_eq!(st.next_task(), Task::Work("/r".to_string()));
    assert_eq!(st.next_task(), Task::Wait);
    assert_eq!(st.in_flight(), 1);
    st.complete(&"/r".to_string(), vec!["/r/x".to_string()], &vec![".git".to_string(), ".git".to_string()]);
    assert_eq!(st.next_task(), Task::Work("/r/x".to_string()));
    st.complete(&"/r/x".to_string(), Vec::new(), &vec![".git".to_string(), "Temp".to_string()]);
    assert_eq!(st.next_task(), Task::Done);
    let stats = st.into_skip_stats();
    assert_eq!(stats.get(&".git".to_string()), Some(3));
    assert_eq!(stats.get(&"Temp".to_string()), Some(1));
}

/// Walks a synthetic tree of depth `depth` and branching `branch` with
/// `workers` interleaved workers, each finishing its task one step later.
fn walk(depth: usize, branch: usize, workers: usize) -> Vec<String> {
    let mut children: BTreeMap<String, Vec<String>> = BTreeMap::new();
    let mut level = vec!["/t".to_string()];
    for _ in 0..depth {
        let mut next = Vec::new();
        for p in &level {
            let kids: Vec<String> = (0..branch).map(|i| format!("{}/n{}", p, i)).collect();
            children.insert(p.clone(), kids.clone());
            next.extend(kids);
        }
        level = next;
    }
    let mut st = TraversalState::new("/t".to_string());
    let rules = SkipRules::new();
    let mut held: Vec<Option<String>> = vec![None; workers];
    let mut visited = Vec::new();
    let mut done = vec![false; workers];
    let mut rounds = 0;
    while !done.iter().all(|d| *d) {
        rounds += 1;
        assert!(rounds < 1_000_000, "the walk did not end");
        for w in 0..workers {
            if let Some(p) = held[w].take() {
                let kids = children.get(&p).cloned().unwrap_or_default();
                let listing: Vec<ChildInfo> = kids
                    .iter()
                    .map(|k| child(k.rsplit('/').next().unwrap(), true, false))
                    .collect();
                let (entry, subdirs, skipped) = process_listing(&p, "n".to_string(), &listing, &rules, 0);
                assert_eq!(entry.children.len(), kids.len());
                st.complete(&p, subdirs, &skipped);
                continue;
            }
            match st.next_task() {
                Task::Work(p) => {
                    visited.push(p.clone());
                    held[w] = Some(p);
                    done[w] = false;
                }
                Task::Wait => done[w] = false,
                Task::Done => done[w] = true,
            }
        }
    }
    visited
}

#[test]
fn synthetic_tree_walk_ends_and_visits_each_directory_once() {
    for (depth, branch, workers) in [(3, 3, 1), (3, 3, 4), (4, 2, 8), (0, 5, 3)] {
        let visited = walk(depth, branch, workers);
        let unique: BTreeSet<&String> = visited.iter().collect();
        assert_eq!(unique.len(), visited.len());
        let expected: usize = (0..=depth).map(|d| branch.pow(d as u32)).sum();
        assert_eq!(visited.len(), expected);
    }
}

#[test]
fn content_hash_follows_the_sorted_names() {
    let rules = SkipRules::new();
    let a = vec![child("x", false, false), child("y", true, false)];
    let b = vec![child("y", true, false), child("x", false, false)];
    let c = vec![child("x", false, false), child("z", true, false)];
    let ha = process_listing(&"/r".to_string(), "r".to_string(), &a, &rules, 0).0.content_hash;
    let hb = process_listing(&"/r".to_string(), "r".to_string(), &b, &rules, 5).0.content_hash;
    let hc = process_listing(&"/r".to_string(), "r".to_string(), &c, &rules, 0).0.content_hash;
    assert_eq!(ha, hb);
    assert_ne!(ha, hc);
}

#[test]
fn dot_names_are_hidden_and_skipped_names_never_listed() {
    let mut rules = SkipRules::new();
    rules.insert("System32".to_string());
    let listing = vec![child("SYSTEM32", true, false), child("a", true, false)];
    let (entry, subdirs, _) = process_listing(&"/w/.cfg".to_string(), ".cfg".to_string(), &listing, &rules, 0);
    assert!(entry.is_hidden);
    assert_eq!(entry.children, vec!["a"]);
    assert_eq!(subdirs, vec!["/w/.cfg/a"]);
    let (plain, _, _) = process_listing(&"/w/cfg".to_string(), "cfg".to_string(), &listing, &rules, 0);
    assert!(!plain.is_hidden);
}
