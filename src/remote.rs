//! Decisions of the remote mirror's commit protocol: which commit a new
//! commit builds on, and the tree entry that records an uploaded blob.

use crate::error::SyncError;
use vstd::prelude::*;

verus! {

/// The object a branch ref points at.
#[derive(Debug, Clone, PartialEq, Eq)]
pub enum RefObject {
    Commit(String),
    Tag(String),
    Other,
}

/// The parent of the next commit: the sha the branch ref points at, when it
/// points at a commit or a tag.
pub fn parent_sha(object: RefObject) -> (r: Result<String, SyncError>)
    ensures
        object matches RefObject::Commit(sha) ==> r == Ok::<String, SyncError>(sha),
        object matches RefObject::Tag(sha) ==> r == Ok::<String, SyncError>(sha),
        object is Other ==> r == Err::<String, SyncError>(SyncError::Protocol),
{
    match object {
        RefObject::Commit(sha) => Ok(sha),
        RefObject::Tag(sha) => Ok(sha),
        RefObject::Other => Err(SyncError::Protocol),
    }
}

/// One entry of a git tree.
#[derive(Debug, Clone, PartialEq, Eq)]
pub struct TreeEntry {
    pub path: String,
    pub mode: String,
    pub kind: String,
    pub sha: String,
}

/// The entry recording blob `sha` as the regular file `path`.
pub fn blob_tree_entry(path: &str, sha: &str) -> (r: TreeEntry)
    ensures
        r.path@ == path@,
        r.sha@ == sha@,
        r.mode@ == "100644"@,
        r.kind@ == "blob"@,
{
    TreeEntry { path: path.to_owned(), mode: "100644".to_owned(), kind: "blob".to_owned(), sha: sha.to_owned() }
}

} // verus!
