use vstd::prelude::*;

verus! {

/// Failure classes of the sync core.
#[derive(Debug, Clone, Copy, PartialEq, Eq, Structural)]
pub enum SyncError {
    /// Authenticated decryption failed, or a credential was rejected.
    Auth,
    /// A filesystem, network or database transport failed.
    Io,
    /// Malformed input: a ticket, a ref object, or an encoded blob.
    Protocol,
    /// A remote ref update was rejected because the branch moved.
    Conflict,
    /// A control operation ran before the engine existed.
    NotInitialized,
    /// A cryptographic primitive reported an error on valid input.
    Fatal,
}

/// The description of each error.
pub open spec fn message_of(e: SyncError) -> Seq<char> {
    match e {
        SyncError::Auth => "authentication failure"@,
        SyncError::Io => "i/o failure"@,
        SyncError::Protocol => "protocol error"@,
        SyncError::Conflict => "conflicting remote update"@,
        SyncError::NotInitialized => "Sync engine not initialized"@,
        SyncError::Fatal => "fatal cryptographic failure"@,
    }
}

impl SyncError {
    /// A short human-readable description of the error.
    pub fn message(&self) -> (r: String)
        ensures
            r@ == message_of(*self),
    {
        match self {
            SyncError::Auth => "authentication failure".to_owned(),
            SyncError::Io => "i/o failure".to_owned(),
            SyncError::Protocol => "protocol error".to_owned(),
            SyncError::Conflict => "conflicting remote update".to_owned(),
            SyncError::NotInitialized => "Sync engine not initialized".to_owned(),
            SyncError::Fatal => "fatal cryptographic failure".to_owned(),
        }
    }
}

} // verus!
