//! The vault index: a merkle search tree mapping each path to the BLAKE3 hash of
//! its content, with a side table of per-file metadata.

use crate::error::SyncError;
use crate::mst::{blake3_hash, blake3_of, mst_entries, mst_new, mst_root_hash, mst_root_of, mst_upsert, PathTree};
use vstd::prelude::*;

verus! {

/// Metadata of one indexed file.
#[derive(Debug, Clone, PartialEq, Eq)]
pub struct FileMetadata {
    pub path: String,
    pub size: u64,
    pub hash: [u8; 32],
    pub last_modified: u64,
}

/// What the index records of a file, path aside.
pub struct EntryModel {
    pub size: u64,
    pub hash: Seq<u8>,
    pub last_modified: u64,
}

impl FileMetadata {
    pub open spec fn model(self) -> EntryModel {
        EntryModel { size: self.size, hash: self.hash@, last_modified: self.last_modified }
    }

    fn duplicate(&self) -> (r: FileMetadata)
        ensures
            r == *self,
    {
        FileMetadata {
            path: self.path.clone(),
            size: self.size,
            hash: self.hash,
            last_modified: self.last_modified,
        }
    }
}

/// The entry the index records for `content` written at time `t`.
pub open spec fn entry_for(content: Seq<u8>, t: u64) -> EntryModel {
    EntryModel { size: content.len() as u64, hash: blake3_of(content), last_modified: t }
}

/// The map path -> entry described by a side table, later rows winning.
pub open spec fn files_of(s: Seq<FileMetadata>) -> Map<Seq<char>, EntryModel>
    decreases s.len(),
{
    if s.len() == 0 {
        Map::empty()
    } else {
        files_of(s.drop_last()).insert(s.last().path@, s.last().model())
    }
}

/// No two rows of a side table share a path.
pub open spec fn paths_unique(s: Seq<FileMetadata>) -> bool {
    forall|i: int, j: int| 0 <= i < j < s.len() ==> s[i].path@ != s[j].path@
}

/// The path -> content-hash mapping, the part of the index the root hash covers.
pub open spec fn content_hashes(m: Map<Seq<char>, EntryModel>) -> Map<Seq<char>, Seq<u8>> {
    Map::new(|p: Seq<char>| m.dom().contains(p), |p: Seq<char>| m[p].hash)
}

/// The 32-byte root hash of an index: the tree's 16-byte root hash followed by
/// 16 zero bytes.
pub open spec fn root_of(m: Map<Seq<char>, EntryModel>) -> Seq<u8> {
    mst_root_of(content_hashes(m)) + Seq::new(16, |i: int| 0u8)
}

/// Some row of `s` has path `p`.
pub open spec fn has_path(s: Seq<FileMetadata>, p: Seq<char>) -> bool {
    exists|k: int| 0 <= k < s.len() && s[k].path@ == p
}

/// Every row of `s` is the entry the index `m` holds for the row's path.
pub open spec fn rows_of(s: Seq<FileMetadata>, m: Map<Seq<char>, EntryModel>) -> bool {
    forall|k: int| 0 <= k < s.len() ==> m.dom().contains(#[trigger] s[k].path@) && m[s[k].path@] == s[k].model()
}

/// Rows are ordered by descending modification time.
pub open spec fn newest_first(s: Seq<FileMetadata>) -> bool {
    forall|a: int, b: int| 0 <= a < b < s.len() ==> s[a].last_modified >= s[b].last_modified
}

/// `r` is a most-recent selection of at most `limit` entries of `m`: as many
/// as possible, newest first, and no entry left out is newer than one taken.
pub open spec fn is_recent_selection(r: Seq<FileMetadata>, m: Map<Seq<char>, EntryModel>, limit: nat) -> bool {
    &&& r.len() == if limit < m.dom().len() { limit } else { m.dom().len() }
    &&& paths_unique(r)
    &&& rows_of(r, m)
    &&& newest_first(r)
    &&& forall|p: Seq<char>, k: int|
        m.dom().contains(p) && !has_path(r, p) && 0 <= k < r.len() ==> #[trigger] m[p].last_modified <= #[trigger] r[k].last_modified
}

/// `p` is bound to different content in the two indexes, or in only one.
pub open spec fn differs(a: Map<Seq<char>, EntryModel>, b: Map<Seq<char>, EntryModel>, p: Seq<char>) -> bool {
    &&& (a.dom().contains(p) || b.dom().contains(p))
    &&& !(a.dom().contains(p) && b.dom().contains(p) && a[p].hash == b[p].hash)
}

fn hash_eq(a: &[u8; 32], b: &[u8; 32]) -> (r: bool)
    ensures
        r == (a@ == b@),
{
    let mut i: usize = 0;
    while i < 32
        invariant
            i <= 32,
            forall|j: int| 0 <= j < i ==> a@[j] == b@[j],
        decreases 32 - i,
    {
        if a[i] != b[i] {
            return false;
        }
        i = i + 1;
    }
    assert(a@ =~= b@);
    true
}

proof fn lemma_files_of_index(s: Seq<FileMetadata>)
    requires
        paths_unique(s),
    ensures
        forall|p: Seq<char>| #[trigger]
            files_of(s).dom().contains(p) <==> exists|i: int| 0 <= i < s.len() && s[i].path@ == p,
        forall|i: int| 0 <= i < s.len() ==> #[trigger] files_of(s)[s[i].path@] == s[i].model(),
        files_of(s).dom().finite(),
        files_of(s).dom().len() == s.len(),
    decreases s.len(),
{
    if s.len() > 0 {
        let t = s.drop_last();
        assert(paths_unique(t));
        lemma_files_of_index(t);
        assert forall|p: Seq<char>|
            files_of(s).dom().contains(p) <==> exists|i: int| 0 <= i < s.len() && s[i].path@ == p by {
            if files_of(s).dom().contains(p) && p != s.last().path@ {
                let i = choose|i: int| 0 <= i < t.len() && t[i].path@ == p;
                assert(s[i] == t[i]);
            }
            if exists|i: int| 0 <= i < s.len() && s[i].path@ == p {
                let i = choose|i: int| 0 <= i < s.len() && s[i].path@ == p;
                if i < t.len() {
                    assert(t[i] == s[i]);
                }
            }
        }
        assert forall|i: int| 0 <= i < s.len() implies #[trigger] files_of(s)[s[i].path@] == s[i].model() by {
            if i < t.len() {
                assert(t[i] == s[i]);
                assert(s[i].path@ != s.last().path@);
            }
        }
        assert(!files_of(t).dom().contains(s.last().path@)) by {
            if files_of(t).dom().contains(s.last().path@) {
                let i = choose|i: int| 0 <= i < t.len() && t[i].path@ == s.last().path@;
                assert(s[i] == t[i]);
            }
        }
    }
}

proof fn lemma_files_of_update(s: Seq<FileMetadata>, i: int, m: FileMetadata)
    requires
        paths_unique(s),
        0 <= i < s.len(),
        s[i].path@ == m.path@,
    ensures
        paths_unique(s.update(i, m)),
        files_of(s.update(i, m)) == files_of(s).insert(m.path@, m.model()),
{
    let u = s.update(i, m);
    assert(paths_unique(u)) by {
        assert forall|a: int, b: int| 0 <= a < b < u.len() implies u[a].path@ != u[b].path@ by {
            assert(u[a].path@ == s[a].path@ && u[b].path@ == s[b].path@);
        }
    }
    lemma_files_of_index(s);
    lemma_files_of_index(u);
    let lhs = files_of(u);
    let rhs = files_of(s).insert(m.path@, m.model());
    assert forall|p: Seq<char>| lhs.dom().contains(p) <==> rhs.dom().contains(p) by {
        if lhs.dom().contains(p) {
            let j = choose|j: int| 0 <= j < u.len() && u[j].path@ == p;
            assert(s[j].path@ == p);
        }
        if rhs.dom().contains(p) {
            if p == m.path@ {
                assert(u[i].path@ == p);
            } else {
                let j = choose|j: int| 0 <= j < s.len() && s[j].path@ == p;
                assert(u[j].path@ == p);
            }
        }
    }
    assert forall|p: Seq<char>| lhs.dom().contains(p) implies lhs[p] == rhs[p] by {
        let j = choose|j: int| 0 <= j < u.len() && u[j].path@ == p;
        assert(lhs[u[j].path@] == u[j].model());
        if j != i {
            assert(u[j] == s[j]);
            assert(files_of(s)[s[j].path@] == s[j].model());
        }
    }
    assert(lhs =~= rhs);
}

proof fn lemma_files_of_push(s: Seq<FileMetadata>, m: FileMetadata)
    requires
        paths_unique(s),
        !files_of(s).dom().contains(m.path@),
    ensures
        paths_unique(s.push(m)),
        files_of(s.push(m)) == files_of(s).insert(m.path@, m.model()),
{
    lemma_files_of_index(s);
    let u = s.push(m);
    assert(u.drop_last() =~= s);
    assert forall|a: int, b: int| 0 <= a < b < u.len() implies u[a].path@ != u[b].path@ by {
        if b == s.len() {
            assert(u[a] == s[a]);
        } else {
            assert(u[a] == s[a] && u[b] == s[b]);
        }
    }
}

proof fn lemma_files_of_remove(s: Seq<FileMetadata>, i: int)
    requires
        paths_unique(s),
        0 <= i < s.len(),
    ensures
        paths_unique(s.remove(i)),
        files_of(s.remove(i)) == files_of(s).remove(s[i].path@),
{
    let u = s.remove(i);
    assert(paths_unique(u)) by {
        assert forall|a: int, b: int| 0 <= a < b < u.len() implies u[a].path@ != u[b].path@ by {
            let a2 = if a < i { a } else { a + 1 };
            let b2 = if b < i { b } else { b + 1 };
            assert(u[a] == s[a2] && u[b] == s[b2]);
        }
    }
    lemma_files_of_index(s);
    lemma_files_of_index(u);
    let lhs = files_of(u);
    let rhs = files_of(s).remove(s[i].path@);
    assert forall|p: Seq<char>| lhs.dom().contains(p) <==> rhs.dom().contains(p) by {
        if lhs.dom().contains(p) {
            let j = choose|j: int| 0 <= j < u.len() && u[j].path@ == p;
            let j2 = if j < i { j } else { j + 1 };
            assert(u[j] == s[j2]);
        }
        if rhs.dom().contains(p) {
            let j = choose|j: int| 0 <= j < s.len() && s[j].path@ == p;
            assert(j != i);
            let j2 = if j < i { j } else { j - 1 };
            assert(u[j2] == s[j]);
        }
    }
    assert forall|p: Seq<char>| lhs.dom().contains(p) implies lhs[p] == rhs[p] by {
        let j = choose|j: int| 0 <= j < u.len() && u[j].path@ == p;
        let j2 = if j < i { j } else { j + 1 };
        assert(u[j] == s[j2]);
        assert(lhs[u[j].path@] == u[j].model());
        assert(files_of(s)[s[j2].path@] == s[j2].model());
    }
    assert(lhs =~= rhs);
}

proof fn lemma_content_hashes_insert(m: Map<Seq<char>, EntryModel>, p: Seq<char>, e: EntryModel)
    ensures
        content_hashes(m.insert(p, e)) == content_hashes(m).insert(p, e.hash),
{
    assert(content_hashes(m.insert(p, e)) =~= content_hashes(m).insert(p, e.hash));
}

/// The vault index.
pub struct VaultIndexer {
    mst: PathTree,
    metadata: Vec<FileMetadata>,
}

impl View for VaultIndexer {
    type V = Map<Seq<char>, EntryModel>;

    closed spec fn view(&self) -> Map<Seq<char>, EntryModel> {
        files_of(self.metadata@)
    }
}

impl VaultIndexer {
    /// The side table has one row per path, each row keyed by its own path, and
    /// the tree holds exactly the side table's path -> hash pairs.
    pub closed spec fn wf(&self) -> bool {
        &&& paths_unique(self.metadata@)
        &&& mst_entries(self.mst) == content_hashes(files_of(self.metadata@))
    }

    pub fn new() -> (r: VaultIndexer)
        ensures
            r.wf(),
            r@ == Map::<Seq<char>, EntryModel>::empty(),
    {
        let r = VaultIndexer { mst: mst_new(), metadata: Vec::new() };
        assert(content_hashes(files_of(r.metadata@)) =~= Map::<Seq<char>, Seq<u8>>::empty());
        r
    }

    fn find(&self, path: &String) -> (r: Option<usize>)
        requires
            self.wf(),
        ensures
            match r {
                Some(i) => i < self.metadata@.len() && self.metadata@[i as int].path@ == path@,
                None => !self@.dom().contains(path@),
            },
    {
        let mut i: usize = 0;
        while i < self.metadata.len()
            invariant
                i <= self.metadata@.len(),
                forall|j: int| 0 <= j < i ==> self.metadata@[j].path@ != path@,
            decreases self.metadata@.len() - i,
        {
            if self.metadata[i].path == *path {
                return Some(i);
            }
            i = i + 1;
        }
        proof {
            lemma_files_of_index(self.metadata@);
        }
        None
    }

    /// Records `content` under `path`, written at `last_modified`, and returns
    /// the new root hash.
    pub fn update_file(&mut self, path: String, content: &[u8], last_modified: u64) -> (r: Result<[u8; 32], SyncError>)
        requires
            old(self).wf(),
        ensures
            final(self).wf(),
            final(self)@ == old(self)@.insert(path@, entry_for(content@, last_modified)),
            r == Ok::<[u8; 32], SyncError>(r->Ok_0),
            r->Ok_0@ == root_of(final(self)@),
    {
        let hash_bytes = blake3_hash(content);
        let meta = FileMetadata {
            path: path.clone(),
            size: content.len() as u64,
            hash: hash_bytes,
            last_modified,
        };
        proof {
            lemma_content_hashes_insert(self@, path@, meta.model());
        }
        let found = self.find(&path);
        mst_upsert(&mut self.mst, path.clone(), &hash_bytes);
        match found {
            Some(i) => {
                proof {
                    lemma_files_of_update(self.metadata@, i as int, meta);
                }
                self.metadata[i] = meta;
            },
            None => {
                proof {
                    lemma_files_of_push(self.metadata@, meta);
                }
                self.metadata.push(meta);
            },
        }
        Ok(self.root_hash())
    }

    /// Drops `path` from the index and returns the new root hash; an absent
    /// path leaves the index as it is.
    pub fn remove_file(&mut self, path: &str) -> (r: Result<[u8; 32], SyncError>)
        requires
            old(self).wf(),
        ensures
            final(self).wf(),
            final(self)@ == old(self)@.remove(path@),
            !old(self)@.dom().contains(path@) ==> final(self)@ == old(self)@,
            r == Ok::<[u8; 32], SyncError>(r->Ok_0),
            r->Ok_0@ == root_of(final(self)@),
    {
        let key = path.to_owned();
        match self.find(&key) {
            Some(i) => {
                proof {
                    lemma_files_of_remove(self.metadata@, i as int);
                }
                self.metadata.remove(i);
                self.rebuild_tree();
            },
            None => {
                assert(self@.remove(path@) =~= self@);
            },
        }
        Ok(self.root_hash())
    }

    /// Replaces the tree by one built from the side table alone.
    fn rebuild_tree(&mut self)
        requires
            paths_unique(old(self).metadata@),
        ensures
            final(self).wf(),
            final(self).metadata == old(self).metadata,
    {
        let mut t = mst_new();
        let mut k: usize = 0;
        assert(content_hashes(files_of(self.metadata@.take(0))) =~= Map::<Seq<char>, Seq<u8>>::empty());
        while k < self.metadata.len()
            invariant
                k <= self.metadata@.len(),
                mst_entries(t) == content_hashes(files_of(self.metadata@.take(k as int))),
            decreases self.metadata@.len() - k,
        {
            let row = &self.metadata[k];
            proof {
                let s = self.metadata@.take(k as int + 1);
                assert(s.drop_last() =~= self.metadata@.take(k as int));
                lemma_content_hashes_insert(files_of(s.drop_last()), row.path@, row.model());
            }
            mst_upsert(&mut t, row.path.clone(), &row.hash);
            k = k + 1;
        }
        assert(self.metadata@.take(k as int) =~= self.metadata@);
        self.mst = t;
    }

    /// The index's root hash: a function of its path -> content-hash pairs.
    pub fn root_hash(&mut self) -> (r: [u8; 32])
        requires
            old(self).wf(),
        ensures
            final(self).wf(),
            final(self)@ == old(self)@,
            r@ == root_of(old(self)@),
    {
        let short = mst_root_hash(&mut self.mst);
        let mut bytes = [0u8; 32];
        let mut i: usize = 0;
        while i < 16
            invariant
                i <= 16,
                short@.len() == 16,
                forall|j: int| 0 <= j < i ==> bytes@[j] == short@[j],
                forall|j: int| 16 <= j < 32 ==> bytes@[j] == 0u8,
            decreases 16 - i,
        {
            bytes[i] = short[i];
            i = i + 1;
        }
        assert(bytes@ =~= root_of(self@));
        bytes
    }

    /// The metadata recorded for `path`, if it is indexed.
    pub fn get_metadata(&self, path: &str) -> (r: Option<&FileMetadata>)
        requires
            self.wf(),
        ensures
            r is Some <==> self@.dom().contains(path@),
            r matches Some(m) ==> m.path@ == path@ && m.model() == self@[path@],
    {
        let key = path.to_owned();
        match self.find(&key) {
            Some(i) => {
                proof {
                    lemma_files_of_index(self.metadata@);
                }
                Some(&self.metadata[i])
            },
            None => None,
        }
    }

    /// Up to `limit` indexed entries with the largest modification times,
    /// newest first.
    pub fn recent_activity(&self, limit: usize) -> (r: Vec<FileMetadata>)
        requires
            self.wf(),
        ensures
            is_recent_selection(r@, self@, limit as nat),
    {
        let ghost m = self@;
        proof {
            lemma_files_of_index(self.metadata@);
        }
        let mut rest: Vec<FileMetadata> = Vec::new();
        let mut i: usize = 0;
        while i < self.metadata.len()
            invariant
                i <= self.metadata@.len(),
                rest@ =~= self.metadata@.take(i as int),
            decreases self.metadata@.len() - i,
        {
            rest.push(self.metadata[i].duplicate());
            i = i + 1;
        }
        assert(rest@ =~= self.metadata@);
        assert forall|p: Seq<char>| m.dom().contains(p) implies has_path(rest@, p) by {
            let k = choose|k: int| 0 <= k < self.metadata@.len() && self.metadata@[k].path@ == p;
            assert(rest@[k].path@ == p);
        }
        let mut out: Vec<FileMetadata> = Vec::new();
        while out.len() < limit && rest.len() > 0
            invariant
                m == self@,
                out@.len() <= limit,
                m.dom().len() == out@.len() + rest@.len(),
                paths_unique(out@),
                paths_unique(rest@),
                forall|a: int, b: int| 0 <= a < out@.len() && 0 <= b < rest@.len() ==> out@[a].path@ != rest@[b].path@,
                rows_of(out@, m),
                rows_of(rest@, m),
                forall|p: Seq<char>| m.dom().contains(p) ==> has_path(out@, p) || has_path(rest@, p),
                newest_first(out@),
                forall|a: int, b: int| 0 <= a < out@.len() && 0 <= b < rest@.len() ==> rest@[b].last_modified <= out@[a].last_modified,
            decreases rest@.len(),
        {
            let mut best: usize = 0;
            let mut j: usize = 1;
            while j < rest.len()
                invariant
                    0 < rest@.len(),
                    best < rest@.len(),
                    1 <= j <= rest@.len(),
                    forall|b: int| 0 <= b < j ==> rest@[b].last_modified <= rest@[best as int].last_modified,
                decreases rest@.len() - j,
            {
                if rest[j].last_modified > rest[best].last_modified {
                    best = j;
                }
                j = j + 1;
            }
            let ghost old_out = out@;
            let ghost old_rest = rest@;
            let x = rest.remove(best);
            out.push(x);
            proof {
                let b = best as int;
                assert forall|a: int, c: int| 0 <= a < c < out@.len() implies out@[a].path@ != out@[c].path@ by {
                    if c == old_out.len() {
                        assert(old_out[a].path@ != old_rest[b].path@);
                    } else {
                        assert(old_out[a] == out@[a] && old_out[c] == out@[c]);
                    }
                }
                assert forall|a: int, c: int| 0 <= a < c < rest@.len() implies rest@[a].path@ != rest@[c].path@ by {
                    let a2 = if a < b { a } else { a + 1 };
                    let c2 = if c < b { c } else { c + 1 };
                    assert(rest@[a] == old_rest[a2] && rest@[c] == old_rest[c2]);
                }
                assert forall|a: int, c: int| 0 <= a < out@.len() && 0 <= c < rest@.len() implies out@[a].path@ != rest@[c].path@ by {
                    let c2 = if c < b { c } else { c + 1 };
                    assert(rest@[c] == old_rest[c2]);
                    if a < old_out.len() {
                        assert(out@[a] == old_out[a]);
                    }
                }
                assert forall|k: int| 0 <= k < rest@.len() implies m.dom().contains(#[trigger] rest@[k].path@) && m[rest@[k].path@] == rest@[k].model() by {
                    let k2 = if k < b { k } else { k + 1 };
                    assert(rest@[k] == old_rest[k2]);
                }
                assert forall|k: int| 0 <= k < out@.len() implies m.dom().contains(#[trigger] out@[k].path@) && m[out@[k].path@] == out@[k].model() by {
                    if k < old_out.len() {
                        assert(out@[k] == old_out[k]);
                    }
                }
                assert forall|p: Seq<char>| m.dom().contains(p) implies has_path(out@, p) || has_path(rest@, p) by {
                    if has_path(old_out, p) {
                        let k = choose|k: int| 0 <= k < old_out.len() && old_out[k].path@ == p;
                        assert(out@[k] == old_out[k]);
                    } else {
                        let k = choose|k: int| 0 <= k < old_rest.len() && old_rest[k].path@ == p;
                        if k == b {
                            assert(out@[old_out.len() as int] == old_rest[b]);
                        } else {
                            let k2 = if k < b { k } else { k - 1 };
                            assert(rest@[k2] == old_rest[k]);
                        }
                    }
                }
                assert forall|a: int, c: int| 0 <= a < c < out@.len() implies out@[a].last_modified >= out@[c].last_modified by {
                    assert(out@[a] == old_out[a]);
                    if c < old_out.len() {
                        assert(out@[c] == old_out[c]);
                    }
                }
                assert forall|a: int, c: int| 0 <= a < out@.len() && 0 <= c < rest@.len() implies rest@[c].last_modified <= out@[a].last_modified by {
                    let c2 = if c < b { c } else { c + 1 };
                    assert(rest@[c] == old_rest[c2]);
                    if a < old_out.len() {
                        assert(out@[a] == old_out[a]);
                    }
                }
            }
        }
        assert forall|p: Seq<char>, k: int|
            m.dom().contains(p) && !has_path(out@, p) && 0 <= k < out@.len() implies #[trigger] m[p].last_modified <= #[trigger] out@[k].last_modified by {
            let q = choose|q: int| 0 <= q < rest@.len() && rest@[q].path@ == p;
            assert(m[rest@[q].path@] == rest@[q].model());
        }
        assert(is_recent_selection(out@, m, limit as nat));
        out
    }

    /// The paths whose content differs between this index and `other`,
    /// including paths that only one of them holds; each listed once.
    #[verifier::rlimit(60)]
    pub fn diff(&self, other: &VaultIndexer) -> (r: Vec<String>)
        requires
            self.wf(),
            other.wf(),
        ensures
            forall|i: int| 0 <= i < r@.len() ==> differs(self@, other@, #[trigger] r@[i]@),
            forall|p: Seq<char>| differs(self@, other@, p) ==> exists|i: int| 0 <= i < r@.len() && #[trigger] r@[i]@ == p,
            forall|i: int, j: int| 0 <= i < j < r@.len() ==> r@[i]@ != r@[j]@,
    {
        proof {
            lemma_files_of_index(self.metadata@);
            lemma_files_of_index(other.metadata@);
        }
        let mut out: Vec<String> = Vec::new();
        let mut i: usize = 0;
        while i < self.metadata.len()
            invariant
                self.wf(),
                other.wf(),
                i <= self.metadata@.len(),
                forall|k: int| 0 <= k < out@.len() ==> differs(self@, other@, #[trigger] out@[k]@),
                forall|k: int| #![trigger out@[k]] 0 <= k < out@.len() ==> exists|j: int| 0 <= j < i && #[trigger] self.metadata@[j].path@ == out@[k]@,
                forall|j: int| 0 <= j < i && differs(self@, other@, #[trigger] self.metadata@[j].path@) ==> exists|k: int| 0 <= k < out@.len() && out@[k]@ == self.metadata@[j].path@,
                forall|a: int, b: int| 0 <= a < b < out@.len() ==> out@[a]@ != out@[b]@,
            decreases self.metadata@.len() - i,
        {
            proof {
                lemma_files_of_index(self.metadata@);
                lemma_files_of_index(other.metadata@);
            }
            let row = &self.metadata[i];
            let found = other.find(&row.path);
            let keep = match found {
                Some(j) => !hash_eq(&row.hash, &other.metadata[j].hash),
                None => true,
            };
            proof {
                assert(self@[row.path@] == row.model());
                assert(self@.dom().contains(row.path@));
                if let Some(j) = found {
                    assert(other@[other.metadata@[j as int].path@] == other.metadata@[j as int].model());
                }
                assert(keep == differs(self@, other@, row.path@));
            }
            let ghost before = out@;
            if keep {
                out.push(row.path.clone());
                proof {
                    assert forall|a: int, b: int| 0 <= a < b < out@.len() implies out@[a]@ != out@[b]@ by {
                        if b == before.len() {
                            assert(out@[a] == before[a]);
                            let j = choose|j: int| 0 <= j < i && #[trigger] self.metadata@[j].path@ == before[a]@;
                            assert(self.metadata@[j].path@ != self.metadata@[i as int].path@);
                        } else {
                            assert(out@[a] == before[a] && out@[b] == before[b]);
                        }
                    }
                    assert(out@[before.len() as int]@ == row.path@);
                }
            }
            proof {
                assert forall|k: int| #![trigger out@[k]] 0 <= k < out@.len() implies differs(self@, other@, out@[k]@)
                    && exists|j: int| 0 <= j < i + 1 && #[trigger] self.metadata@[j].path@ == out@[k]@ by {
                    if k < before.len() {
                        assert(out@[k] == before[k]);
                        let j = choose|j: int| 0 <= j < i && #[trigger] self.metadata@[j].path@ == before[k]@;
                        assert(self.metadata@[j].path@ == out@[k]@);
                    } else {
                        assert(self.metadata@[i as int].path@ == out@[k]@);
                    }
                }
                assert forall|j: int| 0 <= j < i + 1 && differs(self@, other@, #[trigger] self.metadata@[j].path@)
                    implies exists|k: int| 0 <= k < out@.len() && out@[k]@ == self.metadata@[j].path@ by {
                    if j < i {
                        let k = choose|k: int| 0 <= k < before.len() && before[k]@ == self.metadata@[j].path@;
                        assert(out@[k] == before[k]);
                    } else {
                        assert(out@[before.len() as int]@ == self.metadata@[j].path@);
                    }
                }
            }
            i = i + 1;
        }
        let mut i: usize = 0;
        while i < other.metadata.len()
            invariant
                self.wf(),
                other.wf(),
                i <= other.metadata@.len(),
                forall|k: int| 0 <= k < out@.len() ==> differs(self@, other@, #[trigger] out@[k]@),
                forall|k: int| #![trigger out@[k]] 0 <= k < out@.len() ==> self@.dom().contains(out@[k]@)
                    || exists|j: int| 0 <= j < i && #[trigger] other.metadata@[j].path@ == out@[k]@,
                forall|p: Seq<char>| self@.dom().contains(p) && differs(self@, other@, p) ==> exists|k: int| 0 <= k < out@.len() && #[trigger] out@[k]@ == p,
                forall|j: int| 0 <= j < i && differs(self@, other@, #[trigger] other.metadata@[j].path@) ==> exists|k: int| 0 <= k < out@.len() && out@[k]@ == other.metadata@[j].path@,
                forall|a: int, b: int| 0 <= a < b < out@.len() ==> out@[a]@ != out@[b]@,
            decreases other.metadata@.len() - i,
        {
            proof {
                lemma_files_of_index(self.metadata@);
                lemma_files_of_index(other.metadata@);
            }
            let row = &other.metadata[i];
            let found = self.find(&row.path);
            let keep = found.is_none();
            proof {
                assert(other@.dom().contains(row.path@));
                if let Some(j) = found {
                    assert(self@.dom().contains(self.metadata@[j as int].path@));
                }
            }
            let ghost before = out@;
            if keep {
                out.push(row.path.clone());
                proof {
                    assert forall|a: int, b: int| 0 <= a < b < out@.len() implies out@[a]@ != out@[b]@ by {
                        if b == before.len() {
                            assert(out@[a] == before[a]);
                            if !self@.dom().contains(before[a]@) {
                                let j = choose|j: int| 0 <= j < i && #[trigger] other.metadata@[j].path@ == before[a]@;
                                assert(other.metadata@[j].path@ != other.metadata@[i as int].path@);
                            }
                        } else {
                            assert(out@[a] == before[a] && out@[b] == before[b]);
                        }
                    }
                    assert(out@[before.len() as int]@ == row.path@);
                }
            }
            proof {
                assert forall|k: int| #![trigger out@[k]] 0 <= k < out@.len() implies differs(self@, other@, out@[k]@)
                    && (self@.dom().contains(out@[k]@) || exists|j: int| 0 <= j < i + 1 && #[trigger] other.metadata@[j].path@ == out@[k]@) by {
                    if k < before.len() {
                        assert(out@[k] == before[k]);
                        if !self@.dom().contains(before[k]@) {
                            let j = choose|j: int| 0 <= j < i && #[trigger] other.metadata@[j].path@ == before[k]@;
                            assert(other.metadata@[j].path@ == out@[k]@);
                        }
                    } else {
                        assert(other.metadata@[i as int].path@ == out@[k]@);
                    }
                }
                assert forall|p: Seq<char>| self@.dom().contains(p) && differs(self@, other@, p)
                    implies exists|k: int| 0 <= k < out@.len() && #[trigger] out@[k]@ == p by {
                    let k = choose|k: int| 0 <= k < before.len() && #[trigger] before[k]@ == p;
                    assert(out@[k] == before[k]);
                }
                assert forall|j: int| 0 <= j < i + 1 && differs(self@, other@, #[trigger] other.metadata@[j].path@)
                    implies exists|k: int| 0 <= k < out@.len() && out@[k]@ == other.metadata@[j].path@ by {
                    if j < i {
                        let k = choose|k: int| 0 <= k < before.len() && before[k]@ == other.metadata@[j].path@;
                        assert(out@[k] == before[k]);
                    } else if keep {
                        assert(out@[before.len() as int]@ == other.metadata@[j].path@);
                    } else {
                        let p = other.metadata@[j].path@;
                        assert(self@.dom().contains(p));
                        let k = choose|k: int| 0 <= k < before.len() && #[trigger] before[k]@ == p;
                        assert(out@[k] == before[k]);
                    }
                }
            }
            i = i + 1;
        }
        proof {
            assert forall|p: Seq<char>| differs(self@, other@, p) implies exists|k: int| 0 <= k < out@.len() && #[trigger] out@[k]@ == p by {
                if !self@.dom().contains(p) {
                    let j = choose|j: int| 0 <= j < other.metadata@.len() && other.metadata@[j].path@ == p;
                    assert(differs(self@, other@, other.metadata@[j].path@));
                }
            }
        }
        out
    }

    /// The underlying merkle search tree.
    pub fn get_mst(&self) -> (r: &PathTree)
        ensures
            self.wf() ==> mst_entries(*r) == content_hashes(self@),
    {
        &self.mst
    }
}

} // verus!

verus! {

/// The root hash depends on nothing but the path -> content-hash pairs: two
/// indexes that reached the same pairs, by whatever operations in whatever
/// order, have the same root hash.
pub proof fn lemma_root_determined_by_hashes(a: Map<Seq<char>, EntryModel>, b: Map<Seq<char>, EntryModel>)
    requires
        content_hashes(a) == content_hashes(b),
    ensures
        root_of(a) == root_of(b),
{
}

/// Every empty index has one and the same root hash.
pub proof fn lemma_empty_root_fixed(a: Map<Seq<char>, EntryModel>)
    requires
        a.dom().len() == 0,
        a.dom().finite(),
    ensures
        root_of(a) == root_of(Map::empty()),
{
    assert(a.dom() =~= Set::<Seq<char>>::empty()) by {
        if exists|p: Seq<char>| a.dom().contains(p) {
            let p = choose|p: Seq<char>| a.dom().contains(p);
            vstd::set_lib::lemma_set_empty_equivalency_len(a.dom());
        }
    }
    assert(content_hashes(a) =~= content_hashes(Map::empty()));
}

/// Updating a path and then removing it leaves the root hash of the index
/// without that path: the earlier root when the path was absent, and the
/// empty-index root when the index was empty.
pub proof fn lemma_update_then_remove(m: Map<Seq<char>, EntryModel>, p: Seq<char>, e: EntryModel)
    ensures
        root_of(m.insert(p, e).remove(p)) == root_of(m.remove(p)),
        !m.dom().contains(p) ==> root_of(m.insert(p, e).remove(p)) == root_of(m),
        m == Map::<Seq<char>, EntryModel>::empty() ==> root_of(m.insert(p, e).remove(p)) == root_of(Map::empty()),
{
    assert(m.insert(p, e).remove(p) =~= m.remove(p));
    if !m.dom().contains(p) {
        assert(m.remove(p) =~= m);
    }
}

/// Two updates of the same path, in either order, leave one of the two
/// content hashes under it: the later one.
pub proof fn lemma_racing_updates(m: Map<Seq<char>, EntryModel>, p: Seq<char>, e1: EntryModel, e2: EntryModel)
    ensures
        m.insert(p, e1).insert(p, e2)[p].hash == e2.hash,
        m.insert(p, e2).insert(p, e1)[p].hash == e1.hash,
        m.insert(p, e1).insert(p, e2) == m.insert(p, e2),
{
    assert(m.insert(p, e1).insert(p, e2) =~= m.insert(p, e2));
}

/// The index after applying a sequence of updates in order.
pub open spec fn apply_updates(m: Map<Seq<char>, EntryModel>, ups: Seq<(Seq<char>, EntryModel)>) -> Map<Seq<char>, EntryModel>
    decreases ups.len(),
{
    if ups.len() == 0 {
        m
    } else {
        apply_updates(m, ups.drop_last()).insert(ups.last().0, ups.last().1)
    }
}

/// No two updates of the sequence touch the same path.
pub open spec fn disjoint_paths(ups: Seq<(Seq<char>, EntryModel)>) -> bool {
    forall|i: int, j: int| 0 <= i < j < ups.len() ==> ups[i].0 != ups[j].0
}

proof fn lemma_apply_updates_lookup(m: Map<Seq<char>, EntryModel>, ups: Seq<(Seq<char>, EntryModel)>)
    requires
        disjoint_paths(ups),
    ensures
        forall|i: int| 0 <= i < ups.len() ==> #[trigger] apply_updates(m, ups).dom().contains(ups[i].0)
            && apply_updates(m, ups)[ups[i].0] == ups[i].1,
        forall|p: Seq<char>| (forall|i: int| 0 <= i < ups.len() ==> ups[i].0 != p) ==>
            (#[trigger] apply_updates(m, ups).dom().contains(p) == m.dom().contains(p)
            && (m.dom().contains(p) ==> apply_updates(m, ups)[p] == m[p])),
    decreases ups.len(),
{
    if ups.len() > 0 {
        let t = ups.drop_last();
        lemma_apply_updates_lookup(m, t);
        assert(apply_updates(m, ups) == apply_updates(m, t).insert(ups.last().0, ups.last().1));
        assert forall|i: int| 0 <= i < ups.len() implies #[trigger] apply_updates(m, ups).dom().contains(ups[i].0)
            && apply_updates(m, ups)[ups[i].0] == ups[i].1 by {
            if i < t.len() {
                assert(t[i] == ups[i]);
                assert(ups[i].0 != ups[ups.len() - 1].0);
            }
        }
        assert forall|p: Seq<char>| (forall|i: int| 0 <= i < ups.len() ==> ups[i].0 != p) implies
            (#[trigger] apply_updates(m, ups).dom().contains(p) == m.dom().contains(p)
            && (m.dom().contains(p) ==> apply_updates(m, ups)[p] == m[p])) by {
            assert forall|i: int| 0 <= i < t.len() implies t[i].0 != p by {
                assert(t[i] == ups[i]);
            }
            assert(ups[ups.len() - 1].0 != p);
        }
    }
}

/// Updates of pairwise distinct paths may be serialized in any order: every
/// ordering of the same updates yields the same index, hence the same root
/// hash.
pub proof fn lemma_disjoint_updates_commute(
    m: Map<Seq<char>, EntryModel>,
    u1: Seq<(Seq<char>, EntryModel)>,
    u2: Seq<(Seq<char>, EntryModel)>,
)
    requires
        disjoint_paths(u1),
        disjoint_paths(u2),
        u1.to_set() == u2.to_set(),
    ensures
        apply_updates(m, u1) == apply_updates(m, u2),
        root_of(apply_updates(m, u1)) == root_of(apply_updates(m, u2)),
{
    lemma_apply_updates_lookup(m, u1);
    lemma_apply_updates_lookup(m, u2);
    let a = apply_updates(m, u1);
    let b = apply_updates(m, u2);
    assert forall|p: Seq<char>| a.dom().contains(p) == b.dom().contains(p) && (a.dom().contains(p) ==> a[p] == b[p]) by {
        if exists|i: int| 0 <= i < u1.len() && u1[i].0 == p {
            let i = choose|i: int| 0 <= i < u1.len() && u1[i].0 == p;
            assert(u1.to_set().contains(u1[i]));
            assert(u2.to_set().contains(u1[i]));
            let j = choose|j: int| 0 <= j < u2.len() && u2[j] == u1[i];
            assert(a.dom().contains(u1[i].0));
            assert(b.dom().contains(u2[j].0));
        } else if exists|j: int| 0 <= j < u2.len() && u2[j].0 == p {
            let j = choose|j: int| 0 <= j < u2.len() && u2[j].0 == p;
            assert(u2.to_set().contains(u2[j]));
            assert(u1.to_set().contains(u2[j]));
            let i = choose|i: int| 0 <= i < u1.len() && u1[i] == u2[j];
            assert(u1[i].0 == p);
        } else {
            assert(a.dom().contains(p) == m.dom().contains(p));
            assert(b.dom().contains(p) == m.dom().contains(p));
        }
    }
    assert(a =~= b);
}

} // verus!

verus! {

/// One more `update_file` call extends the sequence of applied updates: by its
/// contract the call turns the view `apply_updates(m, ups)` into
/// `apply_updates(m, ups.push((path, entry_for(content, t))))`.
pub proof fn lemma_update_extends_sequence(
    m: Map<Seq<char>, EntryModel>,
    ups: Seq<(Seq<char>, EntryModel)>,
    path: Seq<char>,
    content: Seq<u8>,
    t: u64,
)
    ensures
        apply_updates(m, ups).insert(path, entry_for(content, t)) == apply_updates(m, ups.push((path, entry_for(content, t)))),
{
    assert(ups.push((path, entry_for(content, t))).drop_last() =~= ups);
}

/// After updates of pairwise distinct paths, in whatever order they were
/// serialized, each updated path holds the hash its update wrote and every
/// other path keeps what the index held before.
pub proof fn lemma_disjoint_updates_result(m: Map<Seq<char>, EntryModel>, ups: Seq<(Seq<char>, EntryModel)>)
    requires
        disjoint_paths(ups),
    ensures
        forall|i: int| 0 <= i < ups.len() ==> #[trigger] content_hashes(apply_updates(m, ups)).dom().contains(ups[i].0)
            && content_hashes(apply_updates(m, ups))[ups[i].0] == ups[i].1.hash,
        forall|p: Seq<char>| (forall|i: int| 0 <= i < ups.len() ==> ups[i].0 != p) ==>
            (#[trigger] content_hashes(apply_updates(m, ups)).dom().contains(p) == m.dom().contains(p)
            && (m.dom().contains(p) ==> content_hashes(apply_updates(m, ups))[p] == m[p].hash)),
{
    lemma_apply_updates_lookup(m, ups);
}

} // verus!
