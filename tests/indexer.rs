use vault_sync::error::SyncError;
use vault_sync::storage::VaultIndexer;

fn blake(data: &[u8]) -> [u8; 32] {
    *blake3::hash(data).as_bytes()
}

#[test]
fn root_hash_changes_on_update() {
    let mut indexer = VaultIndexer::new();

    let initial_hash = indexer.root_hash();
    let content_a = b"hello";
    let content_b = b"hello world";

    let hash_after_a = indexer
        .update_file("note.md".to_string(), content_a, 0)
        .expect("update should succeed");

    assert_ne!(initial_hash, hash_after_a);

    let hash_after_b = indexer
        .update_file("note.md".to_string(), content_b, 1)
        .expect("update should succeed");

    assert_ne!(hash_after_a, hash_after_b);
}

#[test]
fn metadata_tracks_updates() {
    let mut indexer = VaultIndexer::new();
    let content = b"sync test";

    indexer
        .update_file("daily.md".to_string(), content, 42)
        .expect("update should succeed");

    let metadata = indexer
        .get_metadata("daily.md")
        .expect("metadata should exist");

    assert_eq!(metadata.size, content.len() as u64);
    assert_eq!(metadata.last_modified, 42);
}

#[test]
fn metadata_holds_blake3_of_content() {
    let mut indexer = VaultIndexer::new();
    indexer.update_file("a.txt".to_string(), b"payload", 7).unwrap();
    let m = indexer.get_metadata("a.txt").unwrap();
    assert_eq!(m.hash, blake(b"payload"));
    assert_eq!(m.size, 7);
    assert_eq!(m.path, "a.txt");
    assert!(indexer.get_metadata("b.txt").is_none());
}

#[test]
fn update_returns_current_root_hash() {
    let mut indexer = VaultIndexer::new();
    let r = indexer.update_file("x".to_string(), b"1", 0).unwrap();
    assert_eq!(r, indexer.root_hash());
    assert_eq!(&r[16..], &[0u8; 16]);
}

#[test]
fn empty_root_is_the_same_for_every_index() {
    let mut a = VaultIndexer::new();
    let mut b = VaultIndexer::new();
    assert_eq!(a.root_hash(), b.root_hash());
}

#[test]
fn root_ignores_update_order() {
    let mut a = VaultIndexer::new();
    a.update_file("one".to_string(), b"1", 5).unwrap();
    a.update_file("two".to_string(), b"2", 6).unwrap();
    a.update_file("three".to_string(), b"3", 7).unwrap();
    let mut b = VaultIndexer::new();
    b.update_file("three".to_string(), b"3", 1).unwrap();
    b.update_file("one".to_string(), b"old", 1).unwrap();
    b.update_file("two".to_string(), b"2", 1).unwrap();
    b.update_file("one".to_string(), b"1", 1).unwrap();
    assert_eq!(a.root_hash(), b.root_hash());
}

#[test]
fn update_then_remove_restores_previous_root() {
    let mut idx = VaultIndexer::new();
    let empty = idx.root_hash();
    idx.update_file("p".to_string(), b"c", 1).unwrap();
    let after_remove = idx.remove_file("p").unwrap();
    assert_eq!(after_remove, empty);

    idx.update_file("keep".to_string(), b"k", 1).unwrap();
    let with_keep = idx.root_hash();
    idx.update_file("p".to_string(), b"c", 2).unwrap();
    assert_ne!(idx.root_hash(), with_keep);
    assert_eq!(idx.remove_file("p").unwrap(), with_keep);
    assert_ne!(with_keep, empty);
}

#[test]
fn removing_absent_path_is_a_no_op() {
    let mut idx = VaultIndexer::new();
    idx.update_file("a".to_string(), b"x", 1).unwrap();
    let before = idx.root_hash();
    assert_eq!(idx.remove_file("missing").unwrap(), before);
    assert!(idx.get_metadata("a").is_some());
}

#[test]
fn removing_from_empty_index_keeps_empty_root() {
    let mut idx = VaultIndexer::new();
    let empty = idx.root_hash();
    assert_eq!(idx.remove_file("nothing").unwrap(), empty);
}

#[test]
fn racing_updates_keep_the_later_content() {
    let mut idx = VaultIndexer::new();
    idx.update_file("same".to_string(), b"first", 1).unwrap();
    idx.update_file("same".to_string(), b"second", 2).unwrap();
    assert_eq!(idx.get_metadata("same").unwrap().hash, blake(b"second"));
    let mut only = VaultIndexer::new();
    only.update_file("same".to_string(), b"second", 9).unwrap();
    assert_eq!(idx.root_hash(), only.root_hash());
}

#[test]
fn disjoint_updates_commute() {
    let mut a = VaultIndexer::new();
    let mut b = VaultIndexer::new();
    for i in 0..8u8 {
        a.update_file(format!("f{}", i), &[i], i as u64).unwrap();
    }
    for i in (0..8u8).rev() {
        b.update_file(format!("f{}", i), &[i], 100).unwrap();
    }
    assert_eq!(a.root_hash(), b.root_hash());
}

#[test]
fn recent_activity_orders_newest_first() {
    let mut idx = VaultIndexer::new();
    idx.update_file("old".to_string(), b"1", 10).unwrap();
    idx.update_file("new".to_string(), b"2", 30).unwrap();
    idx.update_file("mid".to_string(), b"3", 20).unwrap();
    let r = idx.recent_activity(2);
    assert_eq!(r.len(), 2);
    assert_eq!(r[0].path, "new");
    assert_eq!(r[1].path, "mid");
    assert_eq!(idx.recent_activity(10).len(), 3);
    assert_eq!(idx.recent_activity(0).len(), 0);
    assert!(VaultIndexer::new().recent_activity(10).is_empty());
}

#[test]
fn diff_lists_changed_and_one_sided_paths() {
    let mut a = VaultIndexer::new();
    let mut b = VaultIndexer::new();
    a.update_file("same".to_string(), b"s", 1).unwrap();
    b.update_file("same".to_string(), b"s", 2).unwrap();
    a.update_file("changed".to_string(), b"a", 1).unwrap();
    b.update_file("changed".to_string(), b"b", 1).unwrap();
    a.update_file("only_a".to_string(), b"x", 1).unwrap();
    b.update_file("only_b".to_string(), b"y", 1).unwrap();
    let mut d = a.diff(&b);
    d.sort();
    assert_eq!(d, vec!["changed".to_string(), "only_a".to_string(), "only_b".to_string()]);
    assert!(a.diff(&a).is_empty());
}

#[test]
fn update_never_fails() {
    let mut idx = VaultIndexer::new();
    let r: Result<[u8; 32], SyncError> = idx.update_file(String::new(), b"", 0);
    assert!(r.is_ok());
    assert_eq!(idx.get_metadata("").unwrap().size, 0);
    assert_eq!(idx.get_metadata("").unwrap().hash, blake(b""));
}
