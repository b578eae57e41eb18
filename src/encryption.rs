//! Authenticated encryption of blobs under a fixed 32-byte key
//! (XChaCha20-Poly1305, 24-byte random nonces).

use crate::error::SyncError;
use chacha20poly1305::aead::{Aead, KeyInit};
use chacha20poly1305::{XChaCha20Poly1305, XNonce};
use rand::rngs::OsRng;
use rand::RngCore;
use vstd::prelude::*;

verus! {

/// The opaque error of the AEAD crates.
#[verifier::external_type_specification]
#[verifier::external_body]
pub struct ExAeadError(chacha20poly1305::Error);

/// The error of the operating-system random source.
#[verifier::external_type_specification]
#[verifier::external_body]
pub struct ExRandError(rand::Error);

/// The XChaCha20-Poly1305 sealing (ciphertext followed by tag) of `plaintext`
/// under `key` and `nonce`, with no associated data.
pub uninterp spec fn aead_seal(key: Seq<u8>, nonce: Seq<u8>, plaintext: Seq<u8>) -> Seq<u8>;

/// What XChaCha20-Poly1305 opening of `ciphertext` under `key` and `nonce`
/// yields: the plaintext, or nothing when the tag does not verify.
pub uninterp spec fn aead_open(key: Seq<u8>, nonce: Seq<u8>, ciphertext: Seq<u8>) -> Option<Seq<u8>>;

/// Bound on the plaintext length within which sealing neither fails nor
/// runs out of keystream: it covers the 64-byte blocks numbered 1 to
/// `u32::MAX - 1` of the 32-bit block counter (block 0 keys Poly1305), one
/// block below the cipher's own length check.
pub const MAX_PLAINTEXT: u64 = 274877906816;

/// Length of the Poly1305 tag that sealing appends.
pub const TAG_LEN: u64 = 16;

/// Relies on `XChaCha20Poly1305::new` and `Aead::encrypt`: within the
/// keystream's length the sealing succeeds and is the ciphertext followed by
/// a 16-byte tag; opening it with the same key and nonce gives the plaintext
/// back.
#[verifier::external_body]
fn xchacha_seal(key: &[u8; 32], nonce: &[u8; 24], plaintext: &[u8]) -> (r: Result<Vec<u8>, chacha20poly1305::Error>)
    requires
        plaintext@.len() <= MAX_PLAINTEXT,
    ensures
        r is Ok,
        r->Ok_0@ == aead_seal(key@, nonce@, plaintext@),
        r->Ok_0@.len() == plaintext@.len() + TAG_LEN,
        aead_open(key@, nonce@, r->Ok_0@) == Some(plaintext@),
{
    XChaCha20Poly1305::new(key.into()).encrypt(XNonce::from_slice(nonce), plaintext)
}

/// Relies on `XChaCha20Poly1305::new` and `Aead::decrypt`: the plaintext is
/// returned only when the tag verifies, and sealing it again with the same key
/// and nonce reproduces the ciphertext, since both the keystream and the tag
/// are determined by key, nonce and message.
#[verifier::external_body]
fn xchacha_open(key: &[u8; 32], nonce: &[u8; 24], ciphertext: &[u8]) -> (r: Result<Vec<u8>, chacha20poly1305::Error>)
    requires
        ciphertext@.len() <= MAX_PLAINTEXT + TAG_LEN,
    ensures
        r matches Ok(p) ==> aead_open(key@, nonce@, ciphertext@) == Some(p@) && aead_seal(key@, nonce@, p@) == ciphertext@,
        r is Err ==> aead_open(key@, nonce@, ciphertext@) is None,
{
    XChaCha20Poly1305::new(key.into()).decrypt(XNonce::from_slice(nonce), ciphertext)
}

/// Relies on `OsRng::try_fill_bytes`: 24 bytes from the operating system's
/// secure random source, or its error. Nothing is known of the bytes.
#[verifier::external_body]
pub(crate) fn fresh_nonce() -> (r: Result<[u8; 24], rand::Error>) {
    let mut nonce = [0u8; 24];
    OsRng.try_fill_bytes(&mut nonce).map(|_| nonce)
}

/// The 32-byte key made from a supplied key: right-padded with zeros when
/// shorter, truncated when longer.
pub fn key_from_bytes(src: &[u8]) -> (r: [u8; 32])
    ensures
        forall|i: int| 0 <= i < 32 ==> #[trigger] r@[i] == if i < src@.len() { src@[i] } else { 0u8 },
{
    let mut key = [0u8; 32];
    let mut i: usize = 0;
    while i < 32 && i < src.len()
        invariant
            i <= 32,
            i <= src@.len(),
            forall|j: int| 0 <= j < i ==> key@[j] == src@[j],
            forall|j: int| i <= j < 32 ==> key@[j] == 0u8,
        decreases 32 - i,
    {
        key[i] = src[i];
        i = i + 1;
    }
    key
}

/// Encrypts and decrypts blobs under one symmetric key.
pub struct Encryptor {
    key: [u8; 32],
}

impl Encryptor {
    pub closed spec fn key(&self) -> Seq<u8> {
        self.key@
    }

    pub fn new(key: &[u8; 32]) -> (r: Encryptor)
        ensures
            r.key() == key@,
    {
        Encryptor { key: *key }
    }

    /// Seals `data` under the given nonce.
    pub fn encrypt_with_nonce(&self, data: &[u8], nonce: [u8; 24]) -> (r: Result<(Vec<u8>, [u8; 24]), SyncError>)
        ensures
            r is Ok <==> data@.len() <= MAX_PLAINTEXT,
            r is Err ==> r == Err::<(Vec<u8>, [u8; 24]), SyncError>(SyncError::Fatal),
            r matches Ok((c, n)) ==> {
                &&& n == nonce
                &&& c@ == aead_seal(self.key(), n@, data@)
                &&& c@.len() == data@.len() + TAG_LEN
                &&& aead_open(self.key(), n@, c@) == Some(data@)
            },
    {
        if data.len() as u64 > MAX_PLAINTEXT {
            return Err(SyncError::Fatal);
        }
        match xchacha_seal(&self.key, &nonce, data) {
            Ok(c) => Ok((c, nonce)),
            Err(_) => Err(SyncError::Fatal),
        }
    }

    /// Seals `data` under a fresh random nonce; decrypting the result with
    /// that nonce gives `data` back.
    pub fn encrypt(&self, data: &[u8]) -> (r: Result<(Vec<u8>, [u8; 24]), SyncError>)
        ensures
            r is Ok ==> data@.len() <= MAX_PLAINTEXT,
            r is Err ==> r == Err::<(Vec<u8>, [u8; 24]), SyncError>(SyncError::Fatal),
            r matches Ok((c, n)) ==> {
                &&& c@ == aead_seal(self.key(), n@, data@)
                &&& c@.len() == data@.len() + TAG_LEN
                &&& aead_open(self.key(), n@, c@) == Some(data@)
            },
    {
        match fresh_nonce() {
            Ok(nonce) => self.encrypt_with_nonce(data, nonce),
            Err(_) => Err(SyncError::Fatal),
        }
    }

    /// Opens `ciphertext` under `nonce`. Fails with `Auth` when the tag does not
    /// verify or the ciphertext is longer than any sealing; the plaintext
    /// returned is the one whose sealing is `ciphertext`.
    pub fn decrypt(&self, ciphertext: &[u8], nonce: &[u8; 24]) -> (r: Result<Vec<u8>, SyncError>)
        ensures
            r is Ok <==> ciphertext@.len() <= MAX_PLAINTEXT + TAG_LEN && aead_open(self.key(), nonce@, ciphertext@) is Some,
            r matches Ok(p) ==> {
                &&& aead_open(self.key(), nonce@, ciphertext@) == Some(p@)
                &&& aead_seal(self.key(), nonce@, p@) == ciphertext@
            },
            r is Err ==> r == Err::<Vec<u8>, SyncError>(SyncError::Auth),
    {
        if ciphertext.len() as u64 > MAX_PLAINTEXT + TAG_LEN {
            return Err(SyncError::Auth);
        }
        match xchacha_open(&self.key, nonce, ciphertext) {
            Ok(p) => Ok(p),
            Err(_) => Err(SyncError::Auth),
        }
    }
}

/// A ciphertext that differs from the sealing of `plaintext` never decrypts to
/// `plaintext`: whatever a successful opening returns seals back to the
/// ciphertext it came from.
pub proof fn lemma_tampered_never_yields_original(key: Seq<u8>, nonce: Seq<u8>, plaintext: Seq<u8>, tampered: Seq<u8>, opened: Seq<u8>)
    requires
        tampered != aead_seal(key, nonce, plaintext),
        aead_seal(key, nonce, opened) == tampered,
    ensures
        opened != plaintext,
{
}

} // verus!
