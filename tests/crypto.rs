use vault_sync::encryption::{key_from_bytes, Encryptor};
use vault_sync::error::SyncError;

fn key() -> [u8; 32] {
    let mut k = [0u8; 32];
    for (i, b) in k.iter_mut().enumerate() {
        *b = i as u8 * 7;
    }
    k
}

#[test]
fn decrypt_inverts_encrypt() {
    let e = Encryptor::new(&key());
    let (c, n) = e.encrypt(b"the quick brown fox").unwrap();
    assert_ne!(&c[..], b"the quick brown fox");
    assert_eq!(c.len(), 19 + 16);
    assert_eq!(e.decrypt(&c, &n).unwrap(), b"the quick brown fox".to_vec());
}

#[test]
fn empty_plaintext_round_trips() {
    let e = Encryptor::new(&key());
    let (c, n) = e.encrypt(b"").unwrap();
    assert_eq!(c.len(), 16);
    assert_eq!(e.decrypt(&c, &n).unwrap(), Vec::<u8>::new());
}

#[test]
fn nonces_differ_between_calls() {
    let e = Encryptor::new(&key());
    let (c1, n1) = e.encrypt(b"same").unwrap();
    let (c2, n2) = e.encrypt(b"same").unwrap();
    assert_ne!(n1, n2);
    assert_ne!(c1, c2);
}

#[test]
fn tampered_ciphertext_fails_authentication() {
    let e = Encryptor::new(&key());
    let (mut c, n) = e.encrypt(b"abc").unwrap();
    c[0] ^= 1;
    assert_eq!(e.decrypt(&c, &n), Err(SyncError::Auth));
}

#[test]
fn every_flipped_bit_is_detected() {
    let e = Encryptor::new(&key());
    let (c, n) = e.encrypt(b"bits").unwrap();
    for i in 0..c.len() {
        for bit in 0..8 {
            let mut t = c.clone();
            t[i] ^= 1 << bit;
            assert_eq!(e.decrypt(&t, &n), Err(SyncError::Auth));
        }
    }
}

#[test]
fn wrong_nonce_or_key_fails() {
    let e = Encryptor::new(&key());
    let (c, mut n) = e.encrypt(b"abc").unwrap();
    let other = Encryptor::new(&[9u8; 32]);
    assert_eq!(other.decrypt(&c, &n), Err(SyncError::Auth));
    n[3] ^= 0x80;
    assert_eq!(e.decrypt(&c, &n), Err(SyncError::Auth));
    assert_eq!(e.decrypt(&[1, 2, 3], &n), Err(SyncError::Auth));
}

#[test]
fn fixed_nonce_sealing_is_deterministic() {
    let e = Encryptor::new(&key());
    let (c1, n1) = e.encrypt_with_nonce(b"det", [5u8; 24]).unwrap();
    let (c2, _) = e.encrypt_with_nonce(b"det", [5u8; 24]).unwrap();
    assert_eq!(n1, [5u8; 24]);
    assert_eq!(c1, c2);
    assert_eq!(e.decrypt(&c1, &n1).unwrap(), b"det".to_vec());
}

#[test]
fn short_keys_are_zero_padded_and_long_keys_truncated() {
    let k = key_from_bytes(b"abc");
    assert_eq!(&k[..3], b"abc");
    assert_eq!(&k[3..], &[0u8; 29]);
    let long: Vec<u8> = (0..40u8).collect();
    let k2 = key_from_bytes(&long);
    assert_eq!(&k2[..], &long[..32]);
    assert_eq!(key_from_bytes(b""), [0u8; 32]);
}

#[test]
fn error_messages_are_readable() {
    assert_eq!(SyncError::NotInitialized.message(), "Sync engine not initialized");
    assert_eq!(SyncError::Auth.message(), "authentication failure");
}
