use vault_sync::error::SyncError;
use vault_sync::remote::{blob_tree_entry, parent_sha, RefObject};
use vault_sync::sync::{classify, sync_outcome, ActivePeers, FileChange, P2pEvent, SyncEngine, SyncStatus, WatchKind};

fn engine() -> SyncEngine {
    SyncEngine::new("/vault".to_string(), [1u8; 32], None)
}

#[test]
fn create_update_delete_scenario() {
    let mut e = engine();
    let empty = e.root_hash();

    let blob = e.process_file_change_with_nonce("notes/a.md".to_string(), b"hello", 100, [4u8; 24]).unwrap();
    let m = e.get_metadata("notes/a.md").unwrap();
    assert_eq!(m.hash, *blake3::hash(b"hello").as_bytes());
    assert_eq!(m.size, 5);
    assert_eq!(e.get_recent_activity().len(), 1);
    let first = e.root_hash();
    assert_ne!(first, empty);
    assert_eq!(e.encryptor().decrypt(&blob.ciphertext, &blob.nonce).unwrap(), b"hello".to_vec());
    assert_eq!(e.get_status().last_sync, Some(100));

    e.process_file_change_with_nonce("notes/a.md".to_string(), b"hello world", 101, [4u8; 24]).unwrap();
    let second = e.root_hash();
    assert_ne!(second, first);
    assert_ne!(second, empty);
    assert_eq!(e.get_metadata("notes/a.md").unwrap().size, 11);

    e.process_file_removal("notes/a.md", 102).unwrap();
    assert_eq!(e.root_hash(), empty);
    assert!(e.get_metadata("notes/a.md").is_none());
    assert_eq!(e.get_status().last_sync, Some(102));
}

#[test]
fn change_then_removal_leaves_file_removed() {
    let mut e = engine();
    let blob = e.process_file_change("x.md".to_string(), b"data", 5).unwrap();
    assert_eq!(e.get_metadata("x.md").unwrap().last_modified, 5);
    assert_eq!(e.encryptor().decrypt(&blob.ciphertext, &blob.nonce).unwrap(), b"data".to_vec());
    e.process_file_removal("x.md", 6).unwrap();
    assert_eq!(e.get_status().last_sync, Some(6));
    assert!(e.get_metadata("x.md").is_none());
    assert!(e.get_recent_activity().is_empty());
}

#[test]
fn recent_activity_keeps_ten_newest() {
    let mut e = engine();
    for i in 1..=12 {
        e.process_file_change_with_nonce(format!("f{}", i), b"x", 1000 + i as u64, [4u8; 24]).unwrap();
    }
    let r = e.get_recent_activity();
    assert_eq!(r.len(), 10);
    for (k, m) in r.iter().enumerate() {
        assert_eq!(m.path, format!("f{}", 12 - k));
        assert_eq!(m.last_modified, 1012 - k as u64);
    }
}

#[test]
fn peer_count_saturates_at_zero() {
    let mut e = engine();
    e.handle_p2p_event(&P2pEvent::PeerDisconnected("a".to_string()));
    assert_eq!(e.get_status().peers_connected, 0);
    e.handle_p2p_event(&P2pEvent::PeerConnected("a".to_string()));
    e.handle_p2p_event(&P2pEvent::PeerConnected("b".to_string()));
    e.handle_p2p_event(&P2pEvent::SyncStarted("b".to_string()));
    assert_eq!(e.get_status().peers_connected, 2);
    e.handle_p2p_event(&P2pEvent::PeerDisconnected("a".to_string()));
    e.handle_p2p_event(&P2pEvent::PeerDisconnected("b".to_string()));
    e.handle_p2p_event(&P2pEvent::PeerDisconnected("b".to_string()));
    assert_eq!(e.get_status().peers_connected, 0);
}

#[test]
fn status_saturates_at_the_top() {
    let mut s = SyncStatus { is_syncing: false, last_sync: None, peers_connected: usize::MAX };
    s.apply_event(&P2pEvent::PeerConnected("p".to_string()));
    assert_eq!(s.peers_connected, usize::MAX);
}

#[test]
fn connecting_twice_announces_once() {
    let mut e = engine();
    let mut peers = ActivePeers::new();
    let first = peers.record_connection("node-x".to_string());
    let second = peers.record_connection("node-x".to_string());
    assert_eq!(first, Some(P2pEvent::PeerConnected("node-x".to_string())));
    assert_eq!(second, None);
    for ev in [first, second].into_iter().flatten() {
        e.handle_p2p_event(&ev);
    }
    assert_eq!(e.get_status().peers_connected, 1);
    assert!(peers.contains(&"node-x".to_string()));
    assert!(!peers.contains(&"node-y".to_string()));
}

#[test]
fn initial_status_is_idle() {
    let e = engine();
    assert_eq!(e.get_status(), SyncStatus { is_syncing: false, last_sync: None, peers_connected: 0 });
    assert_eq!(e.vault_path(), "/vault");
    assert!(e.github_config().is_none());
}

#[test]
fn watcher_events_are_classified() {
    assert_eq!(classify(WatchKind::Create), FileChange::ContentChanged);
    assert_eq!(classify(WatchKind::ModifyData), FileChange::ContentChanged);
    assert_eq!(classify(WatchKind::Remove), FileChange::Removed);
    assert_eq!(classify(WatchKind::ModifyMetadata), FileChange::Ignored);
    assert_eq!(classify(WatchKind::Access), FileChange::Ignored);
    assert_eq!(classify(WatchKind::ModifyName), FileChange::Ignored);
}

#[test]
fn sync_outcome_reports_success_and_failure() {
    assert_eq!(sync_outcome("p".to_string(), Ok(())), P2pEvent::SyncFinished("p".to_string()));
    assert_eq!(
        sync_outcome("p".to_string(), Err("timeout".to_string())),
        P2pEvent::SyncFailed { peer: "p".to_string(), error: "timeout".to_string() }
    );
}

#[test]
fn ref_objects_give_parent_commit() {
    assert_eq!(parent_sha(RefObject::Commit("abc".to_string())), Ok("abc".to_string()));
    assert_eq!(parent_sha(RefObject::Tag("def".to_string())), Ok("def".to_string()));
    assert_eq!(parent_sha(RefObject::Other), Err(SyncError::Protocol));
}

#[test]
fn tree_entry_records_a_regular_blob() {
    let t = blob_tree_entry("notes/a.md", "0123abcd");
    assert_eq!(t.path, "notes/a.md");
    assert_eq!(t.sha, "0123abcd");
    assert_eq!(t.mode, "100644");
    assert_eq!(t.kind, "blob");
}

#[test]
fn secret_key_must_be_32_bytes() {
    let bytes: Vec<u8> = (0..32u8).collect();
    assert_eq!(vault_sync::sync::secret_key_from_bytes(&bytes).unwrap().to_vec(), bytes);
    assert_eq!(vault_sync::sync::secret_key_from_bytes(&bytes[..31]), Err(SyncError::Protocol));
    assert_eq!(vault_sync::sync::secret_key_from_bytes(&[0u8; 33]), Err(SyncError::Protocol));
}

#[test]
fn engine_keeps_mirror_configuration() {
    let cfg = vault_sync::sync::GithubConfig {
        token: "t".to_string(),
        owner: "o".to_string(),
        repo: "r".to_string(),
        branch: "main".to_string(),
    };
    let mut e = SyncEngine::new("/v".to_string(), [0u8; 32], Some(cfg.clone()));
    e.process_file_change_with_nonce("a".to_string(), b"1", 1, [0u8; 24]).unwrap();
    e.handle_p2p_event(&P2pEvent::SyncStarted("p".to_string()));
    assert_eq!(e.github_config().as_ref(), Some(&cfg));
    assert!(!e.get_status().is_syncing);
}
