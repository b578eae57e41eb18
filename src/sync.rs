//! The sync engine's decisions: how filesystem events reach the index and the
//! encryptor, and how peer events move the status record.

use crate::blob::EncryptedBlob;
use crate::encryption::{aead_open, aead_seal, fresh_nonce, Encryptor, MAX_PLAINTEXT};
use crate::error::SyncError;
use crate::storage::{entry_for, is_recent_selection, root_of, EntryModel, FileMetadata, VaultIndexer};
use vstd::prelude::*;

verus! {

/// Number of entries that the recent-activity query reports.
pub const RECENT_LIMIT: usize = 10;

/// Connection and sync state, kept for the life of the process.
#[derive(Debug, Clone, PartialEq, Eq)]
pub struct SyncStatus {
    pub is_syncing: bool,
    /// Unix seconds of the last local change applied to the index.
    pub last_sync: Option<u64>,
    pub peers_connected: usize,
}

/// Credentials and location of the remote mirror.
#[derive(Debug, Clone, PartialEq, Eq)]
pub struct GithubConfig {
    pub token: String,
    pub owner: String,
    pub repo: String,
    pub branch: String,
}

/// What the peer node reports; peers are named by their node id.
#[derive(Debug, Clone, PartialEq, Eq)]
pub enum P2pEvent {
    PeerConnected(String),
    PeerDisconnected(String),
    SyncStarted(String),
    SyncFinished(String),
    SyncFailed { peer: String, error: String },
}

/// The kind of a raw filesystem notification.
#[derive(Debug, Clone, Copy, PartialEq, Eq, Structural)]
pub enum WatchKind {
    Any,
    Access,
    Create,
    ModifyData,
    ModifyMetadata,
    ModifyName,
    ModifyOther,
    Remove,
    Other,
}

/// What a filesystem notification means for the index.
#[derive(Debug, Clone, Copy, PartialEq, Eq, Structural)]
pub enum FileChange {
    ContentChanged,
    Removed,
    Ignored,
}

/// Creation and data modification change content; removal removes; every
/// other notification is ignored.
pub open spec fn change_of(kind: WatchKind) -> FileChange {
    match kind {
        WatchKind::Create | WatchKind::ModifyData => FileChange::ContentChanged,
        WatchKind::Remove => FileChange::Removed,
        _ => FileChange::Ignored,
    }
}

/// Classifies a filesystem notification.
pub fn classify(kind: WatchKind) -> (r: FileChange)
    ensures
        r == change_of(kind),
{
    match kind {
        WatchKind::Create | WatchKind::ModifyData => FileChange::ContentChanged,
        WatchKind::Remove => FileChange::Removed,
        _ => FileChange::Ignored,
    }
}

/// The connected-peer count after `event`: saturating in both directions.
pub open spec fn peers_after(count: usize, event: P2pEvent) -> usize {
    match event {
        P2pEvent::PeerConnected(_) => if count < usize::MAX { (count + 1) as usize } else { count },
        P2pEvent::PeerDisconnected(_) => if count > 0 { (count - 1) as usize } else { 0 },
        _ => count,
    }
}

impl SyncStatus {
    /// The status of an engine that has done nothing yet.
    pub fn new() -> (r: SyncStatus)
        ensures
            !r.is_syncing,
            r.last_sync is None,
            r.peers_connected == 0,
    {
        SyncStatus { is_syncing: false, last_sync: None, peers_connected: 0 }
    }

    /// Applies one peer event to the connected-peer count; nothing else of
    /// the status changes.
    pub fn apply_event(&mut self, event: &P2pEvent)
        ensures
            *final(self) == (SyncStatus { peers_connected: peers_after(old(self).peers_connected, *event), ..*old(self) }),
    {
        match event {
            P2pEvent::PeerConnected(_) => {
                self.peers_connected = self.peers_connected.saturating_add(1);
            },
            P2pEvent::PeerDisconnected(_) => {
                self.peers_connected = self.peers_connected.saturating_sub(1);
            },
            _ => {},
        }
    }

    pub fn snapshot(&self) -> (r: SyncStatus)
        ensures
            r == *self,
    {
        SyncStatus { is_syncing: self.is_syncing, last_sync: self.last_sync, peers_connected: self.peers_connected }
    }
}

/// The connected-peer count over the integers, after a run of events: a
/// disconnect at zero leaves zero.
pub open spec fn peers_after_all(count: int, events: Seq<P2pEvent>) -> int
    decreases events.len(),
{
    if events.len() == 0 {
        count
    } else {
        let c = peers_after_all(count, events.drop_last());
        match events.last() {
            P2pEvent::PeerConnected(_) => c + 1,
            P2pEvent::PeerDisconnected(_) => if c > 0 { c - 1 } else { 0 },
            _ => c,
        }
    }
}

/// Whatever the order of connect and disconnect events, the connected-peer
/// count never goes below zero.
pub proof fn lemma_peer_count_never_negative(count: int, events: Seq<P2pEvent>)
    requires
        count >= 0,
    ensures
        peers_after_all(count, events) >= 0,
    decreases events.len(),
{
    if events.len() > 0 {
        lemma_peer_count_never_negative(count, events.drop_last());
    }
}

/// The node's persisted secret key, which must be exactly 32 bytes.
pub fn secret_key_from_bytes(bytes: &[u8]) -> (r: Result<[u8; 32], SyncError>)
    ensures
        r is Ok <==> bytes@.len() == 32,
        r matches Ok(k) ==> k@ == bytes@,
        r is Err ==> r == Err::<[u8; 32], SyncError>(SyncError::Protocol),
{
    if bytes.len() != 32 {
        return Err(SyncError::Protocol);
    }
    let mut key = [0u8; 32];
    let mut i: usize = 0;
    while i < 32
        invariant
            i <= 32,
            bytes@.len() == 32,
            forall|j: int| 0 <= j < i ==> key@[j] == bytes@[j],
        decreases 32 - i,
    {
        key[i] = bytes[i];
        i = i + 1;
    }
    assert(key@ =~= bytes@);
    Ok(key)
}

/// The set of peers the node holds a connection to, without duplicates.
pub struct ActivePeers {
    peers: Vec<String>,
}

impl View for ActivePeers {
    type V = Set<Seq<char>>;

    closed spec fn view(&self) -> Set<Seq<char>> {
        Set::new(|p: Seq<char>| exists|i: int| 0 <= i < self.peers@.len() && self.peers@[i]@ == p)
    }
}

/// Connecting to `peer` announces it only when it was not connected yet.
pub open spec fn announces(peers: Set<Seq<char>>, peer: Seq<char>) -> bool {
    !peers.contains(peer)
}

impl ActivePeers {
    pub fn new() -> (r: ActivePeers)
        ensures
            r@ == Set::<Seq<char>>::empty(),
    {
        let r = ActivePeers { peers: Vec::new() };
        assert(r@ =~= Set::<Seq<char>>::empty());
        r
    }

    pub fn contains(&self, peer: &String) -> (r: bool)
        ensures
            r == self@.contains(peer@),
    {
        let mut i: usize = 0;
        while i < self.peers.len()
            invariant
                i <= self.peers@.len(),
                forall|j: int| 0 <= j < i ==> self.peers@[j]@ != peer@,
            decreases self.peers@.len() - i,
        {
            if self.peers[i] == *peer {
                return true;
            }
            i = i + 1;
        }
        false
    }

    /// Records a connection to `peer`; returns the event to announce, which
    /// is there only when the peer is new.
    pub fn record_connection(&mut self, peer: String) -> (r: Option<P2pEvent>)
        ensures
            final(self)@ == old(self)@.insert(peer@),
            r is Some <==> announces(old(self)@, peer@),
            r matches Some(e) ==> e == P2pEvent::PeerConnected(peer),
    {
        if self.contains(&peer) {
            assert(self@.insert(peer@) =~= self@);
            None
        } else {
            let announced = peer.clone();
            let ghost before = self.peers@;
            self.peers.push(peer);
            assert(self@ =~= old(self)@.insert(announced@)) by {
                assert(self.peers@[before.len() as int]@ == announced@);
                assert forall|p: Seq<char>| self@.contains(p) implies old(self)@.insert(announced@).contains(p) by {
                    let i = choose|i: int| 0 <= i < self.peers@.len() && self.peers@[i]@ == p;
                    if i < before.len() {
                        assert(before[i] == self.peers@[i]);
                    }
                }
                assert forall|p: Seq<char>| old(self)@.contains(p) implies self@.contains(p) by {
                    let i = choose|i: int| 0 <= i < before.len() && before[i]@ == p;
                    assert(before[i] == self.peers@[i]);
                }
            }
            Some(P2pEvent::PeerConnected(announced))
        }
    }
}

/// Connecting twice to the same peer announces it at most once, so the
/// connected-peer count grows by at most one.
pub proof fn lemma_connect_twice_announces_once(peers: Set<Seq<char>>, peer: Seq<char>)
    ensures
        (if announces(peers, peer) { 1int } else { 0int }) + (if announces(peers.insert(peer), peer) { 1int } else { 0int }) <= 1,
{
}

/// The event that ends a pull from `peer`, given how the transfer went.
pub fn sync_outcome(peer: String, outcome: Result<(), String>) -> (r: P2pEvent)
    ensures
        outcome is Ok ==> r == P2pEvent::SyncFinished(peer),
        outcome matches Err(e) ==> r == (P2pEvent::SyncFailed { peer, error: e }),
{
    match outcome {
        Ok(()) => P2pEvent::SyncFinished(peer),
        Err(error) => P2pEvent::SyncFailed { peer, error },
    }
}

/// The engine state the watcher and peer tasks mutate: the index, the
/// encryptor, the status record and the configuration.
pub struct SyncEngine {
    indexer: VaultIndexer,
    encryptor: Encryptor,
    status: SyncStatus,
    vault_path: String,
    github: Option<GithubConfig>,
}

impl SyncEngine {
    pub closed spec fn wf(&self) -> bool {
        self.indexer.wf()
    }

    /// The path -> entry map of the engine's index.
    pub closed spec fn files(&self) -> Map<Seq<char>, EntryModel> {
        self.indexer@
    }

    pub closed spec fn key(&self) -> Seq<u8> {
        self.encryptor.key()
    }

    pub closed spec fn status(&self) -> SyncStatus {
        self.status
    }

    pub closed spec fn vault(&self) -> Seq<char> {
        self.vault_path@
    }

    /// The remote-mirror configuration the engine was built with.
    pub closed spec fn mirror(&self) -> Option<GithubConfig> {
        self.github
    }

    /// Key, vault path and mirror configuration are those of `other`.
    pub open spec fn same_setup(&self, other: &SyncEngine) -> bool {
        &&& self.key() == other.key()
        &&& self.vault() == other.vault()
        &&& self.mirror() == other.mirror()
    }

    pub fn new(vault_path: String, encryption_key: [u8; 32], github_config: Option<GithubConfig>) -> (r: SyncEngine)
        ensures
            r.wf(),
            r.files() == Map::<Seq<char>, EntryModel>::empty(),
            r.key() == encryption_key@,
            r.vault() == vault_path@,
            r.mirror() == github_config,
            r.status() == (SyncStatus { is_syncing: false, last_sync: None, peers_connected: 0 }),
    {
        SyncEngine {
            indexer: VaultIndexer::new(),
            encryptor: Encryptor::new(&encryption_key),
            status: SyncStatus::new(),
            vault_path,
            github: github_config,
        }
    }

    pub fn vault_path(&self) -> (r: &String)
        ensures
            r@ == self.vault(),
    {
        &self.vault_path
    }

    pub fn github_config(&self) -> (r: &Option<GithubConfig>)
        ensures
            *r == self.mirror(),
    {
        &self.github
    }

    pub fn encryptor(&self) -> (r: &Encryptor)
        ensures
            r.key() == self.key(),
    {
        &self.encryptor
    }

    /// Indexes new content of `path` (relative to the vault) written at `now`
    /// (Unix seconds),
    /// then seals it under `nonce` for distribution. The index is updated even
    /// when sealing fails; the time of the last sync moves only on success.
    pub fn process_file_change_with_nonce(&mut self, path: String, content: &[u8], now: u64, nonce: [u8; 24]) -> (r: Result<EncryptedBlob, SyncError>)
        requires
            old(self).wf(),
        ensures
            final(self).wf(),
            final(self).files() == old(self).files().insert(path@, entry_for(content@, now)),
            final(self).same_setup(old(self)),
            r is Ok <==> content@.len() <= MAX_PLAINTEXT,
            r is Err ==> r == Err::<EncryptedBlob, SyncError>(SyncError::Fatal) && final(self).status() == old(self).status(),
            r matches Ok(b) ==> {
                &&& b.nonce == nonce
                &&& b.ciphertext@ == aead_seal(old(self).key(), b.nonce@, content@)
                &&& aead_open(old(self).key(), b.nonce@, b.ciphertext@) == Some(content@)
                &&& final(self).status() == (SyncStatus { last_sync: Some(now), ..old(self).status() })
            },
    {
        let _ = self.indexer.update_file(path, content, now);
        match self.encryptor.encrypt_with_nonce(content, nonce) {
            Ok((ciphertext, nonce)) => {
                self.status.last_sync = Some(now);
                Ok(EncryptedBlob { ciphertext, nonce })
            },
            Err(e) => Err(e),
        }
    }

    /// `process_file_change_with_nonce` under a fresh random nonce. When the
    /// random source fails the index is updated all the same and `Fatal` is
    /// returned.
    pub fn process_file_change(&mut self, path: String, content: &[u8], now: u64) -> (r: Result<EncryptedBlob, SyncError>)
        requires
            old(self).wf(),
        ensures
            final(self).wf(),
            final(self).files() == old(self).files().insert(path@, entry_for(content@, now)),
            final(self).same_setup(old(self)),
            r is Ok ==> content@.len() <= MAX_PLAINTEXT,
            r is Err ==> r == Err::<EncryptedBlob, SyncError>(SyncError::Fatal) && final(self).status() == old(self).status(),
            r matches Ok(b) ==> {
                &&& b.ciphertext@ == aead_seal(old(self).key(), b.nonce@, content@)
                &&& aead_open(old(self).key(), b.nonce@, b.ciphertext@) == Some(content@)
                &&& final(self).status() == (SyncStatus { last_sync: Some(now), ..old(self).status() })
            },
    {
        match fresh_nonce() {
            Ok(nonce) => self.process_file_change_with_nonce(path, content, now, nonce),
            Err(_) => {
                let _ = self.indexer.update_file(path, content, now);
                Err(SyncError::Fatal)
            },
        }
    }

    /// Drops `path` (relative to the vault) from the index at `now` (Unix
    /// seconds).
    pub fn process_file_removal(&mut self, path: &str, now: u64) -> (r: Result<(), SyncError>)
        requires
            old(self).wf(),
        ensures
            final(self).wf(),
            r is Ok,
            final(self).files() == old(self).files().remove(path@),
            final(self).same_setup(old(self)),
            final(self).status() == (SyncStatus { last_sync: Some(now), ..old(self).status() }),
    {
        let _ = self.indexer.remove_file(path);
        self.status.last_sync = Some(now);
        Ok(())
    }

    /// Applies a peer event to the status record.
    pub fn handle_p2p_event(&mut self, event: &P2pEvent)
        requires
            old(self).wf(),
        ensures
            final(self).wf(),
            final(self).files() == old(self).files(),
            final(self).same_setup(old(self)),
            final(self).status() == (SyncStatus {
                peers_connected: peers_after(old(self).status().peers_connected, *event),
                ..old(self).status()
            }),
    {
        self.status.apply_event(event);
    }

    pub fn get_status(&self) -> (r: SyncStatus)
        ensures
            r == self.status(),
    {
        self.status.snapshot()
    }

    /// The ten most recently modified entries, newest first.
    pub fn get_recent_activity(&self) -> (r: Vec<FileMetadata>)
        requires
            self.wf(),
        ensures
            is_recent_selection(r@, self.files(), RECENT_LIMIT as nat),
    {
        self.indexer.recent_activity(RECENT_LIMIT)
    }

    /// The index's root hash.
    pub fn root_hash(&mut self) -> (r: [u8; 32])
        requires
            old(self).wf(),
        ensures
            final(self).wf(),
            final(self).files() == old(self).files(),
            final(self).same_setup(old(self)),
            final(self).status() == old(self).status(),
            r@ == root_of(old(self).files()),
    {
        self.indexer.root_hash()
    }

    pub fn get_metadata(&self, path: &str) -> (r: Option<&FileMetadata>)
        requires
            self.wf(),
        ensures
            r is Some <==> self.files().dom().contains(path@),
            r matches Some(m) ==> m.path@ == path@ && m.model() == self.files()[path@],
    {
        self.indexer.get_metadata(path)
    }
}

} // verus!
