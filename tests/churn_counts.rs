use churn::cache::ChurnCache;
use churn::path::join;
use churn::types::{EntryKind, ObjectId, TreeEntry};
use std::collections::HashMap;

fn oid(n: u64) -> ObjectId {
    ObjectId { hi: n, mid: 0, lo: 0 }
}

fn entry(name: &str, id: ObjectId, kind: EntryKind) -> TreeEntry {
    TreeEntry { name: name.to_string(), id, kind }
}

/// An object store stub that counts how often each snapshot is resolved.
struct Store {
    trees: HashMap<ObjectId, Vec<TreeEntry>>,
    resolved: HashMap<ObjectId, usize>,
}

impl Store {
    fn new() -> Store {
        Store { trees: HashMap::new(), resolved: HashMap::new() }
    }

    fn add(&mut self, id: ObjectId, entries: Vec<TreeEntry>) {
        self.trees.insert(id, entries);
    }

    fn resolve(&mut self, id: ObjectId) -> Vec<TreeEntry> {
        *self.resolved.entry(id).or_insert(0) += 1;
        self.trees[&id].clone()
    }

    fn times_resolved(&self, id: ObjectId) -> usize {
        *self.resolved.get(&id).unwrap_or(&0)
    }
}

fn fold_commit(cache: &mut ChurnCache, store: &mut Store, root: ObjectId) {
    let entries = store.resolve(root);
    let mut work = cache.fold_root(&entries);
    while let Some(q) = work.pop() {
        let sub = store.resolve(q.id);
        work.extend(cache.fold_snapshot(q.node, &sub));
    }
}

fn report(cache: &ChurnCache) -> Vec<(String, usize)> {
    cache.flatten()
}

#[test]
fn join_at_root_is_the_name() {
    assert_eq!(join("", "a.txt"), "a.txt");
}

#[test]
fn join_below_a_directory_uses_a_slash() {
    assert_eq!(join("src/util", "x.rs"), "src/util/x.rs");
}

#[test]
fn revert_counts_distinct_contents() {
    let (x, y) = (oid(100), oid(101));
    let mut store = Store::new();
    store.add(oid(10), vec![entry("b.txt", x, EntryKind::File)]);
    store.add(oid(11), vec![entry("b.txt", y, EntryKind::File)]);
    store.add(oid(1), vec![entry("a", oid(10), EntryKind::Dir)]);
    store.add(oid(2), vec![entry("a", oid(11), EntryKind::Dir)]);
    store.add(oid(3), vec![entry("a", oid(10), EntryKind::Dir)]);
    let mut cache = ChurnCache::new();
    for root in [oid(1), oid(2), oid(3)] {
        fold_commit(&mut cache, &mut store, root);
    }
    assert_eq!(report(&cache), vec![("a/b.txt".to_string(), 2)]);
}

#[test]
fn unchanged_directory_is_resolved_once() {
    let lib = oid(50);
    let mut store = Store::new();
    store.add(lib, vec![entry("util.rs", oid(500), EntryKind::File)]);
    let mut cache = ChurnCache::new();
    for c in 0..1000u64 {
        let root = oid(1000 + c);
        store.add(
            root,
            vec![entry("lib", lib, EntryKind::Dir), entry("main.rs", oid(2000 + c), EntryKind::File)],
        );
        fold_commit(&mut cache, &mut store, root);
    }
    assert_eq!(store.times_resolved(lib), 1);
    let rows = report(&cache);
    assert_eq!(rows, vec![("lib/util.rs".to_string(), 1), ("main.rs".to_string(), 1000)]);
}

#[test]
fn seen_subtree_is_not_handed_back() {
    let mut cache = ChurnCache::new();
    let root = vec![entry("d", oid(7), EntryKind::Dir)];
    let first = cache.fold_root(&root);
    assert_eq!(first.len(), 1);
    assert_eq!(first[0].id, oid(7));
    let second = cache.fold_root(&root);
    assert!(second.is_empty());
}

#[test]
fn repeated_root_gives_the_same_report() {
    let mut store = Store::new();
    store.add(oid(20), vec![entry("f", oid(200), EntryKind::File)]);
    store.add(oid(1), vec![entry("d", oid(20), EntryKind::Dir), entry("g", oid(201), EntryKind::File)]);
    let mut once = ChurnCache::new();
    fold_commit(&mut once, &mut store, oid(1));
    let mut twice = ChurnCache::new();
    fold_commit(&mut twice, &mut store, oid(1));
    fold_commit(&mut twice, &mut store, oid(1));
    assert_eq!(report(&once), report(&twice));
    assert_eq!(store.times_resolved(oid(20)), 2);
}

#[test]
fn commit_order_does_not_change_the_report() {
    let mut store = Store::new();
    store.add(oid(30), vec![entry("x", oid(300), EntryKind::File)]);
    store.add(oid(31), vec![entry("x", oid(301), EntryKind::File), entry("y", oid(302), EntryKind::File)]);
    store.add(oid(1), vec![entry("s", oid(30), EntryKind::Dir), entry("top", oid(310), EntryKind::File)]);
    store.add(oid(2), vec![entry("s", oid(31), EntryKind::Dir), entry("top", oid(311), EntryKind::File)]);
    store.add(oid(3), vec![entry("top", oid(310), EntryKind::File)]);
    let orders = [[1u64, 2, 3], [3, 2, 1], [2, 1, 3], [2, 3, 1]];
    let mut reports = Vec::new();
    for order in orders.iter() {
        let mut cache = ChurnCache::new();
        for c in order.iter() {
            fold_commit(&mut cache, &mut store, oid(*c));
        }
        reports.push(report(&cache));
    }
    for r in reports.iter() {
        assert_eq!(r, &reports[0]);
    }
    assert_eq!(
        reports[0],
        vec![("s/x".to_string(), 2), ("s/y".to_string(), 1), ("top".to_string(), 2)]
    );
}

#[test]
fn nested_file_path_joins_every_directory() {
    let mut store = Store::new();
    store.add(oid(42), vec![entry("deep.txt", oid(420), EntryKind::File)]);
    store.add(oid(41), vec![entry("c", oid(42), EntryKind::Dir)]);
    store.add(oid(40), vec![entry("z", oid(430), EntryKind::File), entry("b", oid(41), EntryKind::Dir)]);
    store.add(oid(1), vec![entry("a", oid(40), EntryKind::Dir)]);
    let mut cache = ChurnCache::new();
    fold_commit(&mut cache, &mut store, oid(1));
    assert_eq!(
        report(&cache),
        vec![("a/b/c/deep.txt".to_string(), 1), ("a/z".to_string(), 1)]
    );
}

#[test]
fn rows_are_sorted_by_bytes() {
    let mut store = Store::new();
    store.add(oid(60), vec![entry("b", oid(600), EntryKind::File)]);
    store.add(
        oid(1),
        vec![
            entry("a", oid(60), EntryKind::Dir),
            entry("a.txt", oid(601), EntryKind::File),
            entry("B", oid(602), EntryKind::File),
        ],
    );
    let mut cache = ChurnCache::new();
    fold_commit(&mut cache, &mut store, oid(1));
    let names: Vec<String> = report(&cache).into_iter().map(|r| r.0).collect();
    assert_eq!(names, vec!["B".to_string(), "a.txt".to_string(), "a/b".to_string()]);
}

#[test]
fn other_entries_are_ignored() {
    let mut cache = ChurnCache::new();
    let pending = cache.fold_root(&vec![entry("link", oid(9), EntryKind::Other)]);
    assert!(pending.is_empty());
    assert!(report(&cache).is_empty());
}

#[test]
fn file_and_directory_of_one_name_are_kept_apart() {
    let mut store = Store::new();
    store.add(oid(70), vec![entry("inner", oid(700), EntryKind::File)]);
    store.add(oid(1), vec![entry("n", oid(701), EntryKind::File)]);
    store.add(oid(2), vec![entry("n", oid(70), EntryKind::Dir)]);
    let mut cache = ChurnCache::new();
    fold_commit(&mut cache, &mut store, oid(1));
    fold_commit(&mut cache, &mut store, oid(2));
    assert_eq!(
        report(&cache),
        vec![("n".to_string(), 1), ("n/inner".to_string(), 1)]
    );
}

#[test]
fn empty_cache_reports_nothing() {
    let cache = ChurnCache::new();
    assert!(report(&cache).is_empty());
}

#[test]
fn mark_seen_is_true_only_the_first_time() {
    let mut cache = ChurnCache::new();
    let c = cache.get_or_create_child(0, &"d".to_string());
    assert_eq!(cache.get_or_create_child(0, &"d".to_string()), c);
    assert!(cache.mark_seen(c, oid(5)));
    assert!(!cache.mark_seen(c, oid(5)));
    assert!(cache.mark_seen(c, oid(6)));
}

#[test]
fn recording_a_content_twice_counts_once() {
    let mut cache = ChurnCache::new();
    let name = "f".to_string();
    cache.record_file_version(0, &name, oid(1));
    cache.record_file_version(0, &name, oid(1));
    cache.record_file_version(0, &name, oid(2));
    cache.record_file_version(0, &name, oid(1));
    assert_eq!(report(&cache), vec![("f".to_string(), 2)]);
}

#[test]
fn ids_differing_in_any_word_are_distinct() {
    let mut cache = ChurnCache::new();
    let name = "f".to_string();
    cache.record_file_version(0, &name, ObjectId { hi: 1, mid: 2, lo: 3 });
    cache.record_file_version(0, &name, ObjectId { hi: 1, mid: 2, lo: 4 });
    cache.record_file_version(0, &name, ObjectId { hi: 1, mid: 3, lo: 3 });
    assert_eq!(report(&cache), vec![("f".to_string(), 3)]);
}

#[test]
fn repeated_root_adds_no_record() {
    let mut store = Store::new();
    store.add(oid(80), vec![entry("f", oid(800), EntryKind::File)]);
    store.add(oid(1), vec![entry("d", oid(80), EntryKind::Dir), entry("e", oid(81), EntryKind::Dir)]);
    store.add(oid(81), vec![]);
    let mut cache = ChurnCache::new();
    fold_commit(&mut cache, &mut store, oid(1));
    let dirs = cache.dir_count();
    assert_eq!(dirs, 3);
    let pending = cache.fold_root(&store.trees[&oid(1)].clone());
    assert!(pending.is_empty());
    assert_eq!(cache.dir_count(), dirs);
}

#[test]
fn existing_child_adds_no_record() {
    let mut cache = ChurnCache::new();
    let a = cache.get_or_create_child(0, &"a".to_string());
    assert_eq!(cache.dir_count(), 2);
    let b = cache.get_or_create_child(a, &"b".to_string());
    assert_eq!(cache.dir_count(), 3);
    assert_eq!(cache.get_or_create_child(0, &"a".to_string()), a);
    assert_eq!(cache.get_or_create_child(a, &"b".to_string()), b);
    assert_eq!(cache.dir_count(), 3);
}

#[test]
fn other_entries_make_no_record() {
    let mut cache = ChurnCache::new();
    cache.fold_root(&vec![entry("sub", oid(9), EntryKind::Other)]);
    assert_eq!(cache.dir_count(), 1);
}
