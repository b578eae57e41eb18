//! Verified core of an end-to-end encrypted vault synchronizer: the
//! content-addressed vault index, authenticated blob encryption, the on-disk
//! blob format and the peer/status state machine of the sync engine.

pub mod blob;
pub mod encryption;
pub mod error;
pub mod mst;
pub mod remote;
pub mod storage;
pub mod sync;
