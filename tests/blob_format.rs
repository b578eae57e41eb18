use base64::Engine;
use vault_sync::blob::{strip_spaces, EncryptedBlob};
use vault_sync::encryption::Encryptor;
use vault_sync::error::SyncError;

fn sample() -> EncryptedBlob {
    let mut nonce = [0u8; 24];
    nonce[0] = 7;
    nonce[23] = 200;
    EncryptedBlob { ciphertext: vec![1, 22, 255, 0, 100, 9, 10, 99], nonce }
}

#[test]
fn json_form_is_exact() {
    let b = EncryptedBlob { ciphertext: vec![1, 22, 255], nonce: [0u8; 24] };
    let text = String::from_utf8(b.to_json()).unwrap();
    let zeros = vec!["0"; 24].join(",");
    assert_eq!(text, format!("{{\"ciphertext\":[1,22,255],\"nonce\":[{}]}}", zeros));
}

#[test]
fn json_form_is_valid_json() {
    let b = sample();
    let v: serde_json::Value = serde_json::from_slice(&b.to_json()).unwrap();
    assert_eq!(v["ciphertext"][2], 255);
    assert_eq!(v["nonce"][23], 200);
    assert_eq!(v["nonce"].as_array().unwrap().len(), 24);
}

#[test]
fn json_round_trip_reproduces_bytes() {
    let b = sample();
    let json = b.to_json();
    let back = EncryptedBlob::from_json(&json).unwrap();
    assert_eq!(back, b);
    assert_eq!(back.to_json(), json);
    let empty = EncryptedBlob { ciphertext: vec![], nonce: [255u8; 24] };
    assert_eq!(EncryptedBlob::from_json(&empty.to_json()).unwrap(), empty);
}

#[test]
fn malformed_json_is_a_protocol_error() {
    assert_eq!(EncryptedBlob::from_json(b""), Err(SyncError::Protocol));
    assert_eq!(EncryptedBlob::from_json(b"{}"), Err(SyncError::Protocol));
    let short = EncryptedBlob { ciphertext: vec![1], nonce: [0u8; 24] };
    let mut json = short.to_json();
    json.push(b' ');
    assert_eq!(EncryptedBlob::from_json(&json), Err(SyncError::Protocol));
    let bad = b"{\"ciphertext\":[256],\"nonce\":[0,0,0,0,0,0,0,0,0,0,0,0,0,0,0,0,0,0,0,0,0,0,0,0]}";
    assert_eq!(EncryptedBlob::from_json(bad), Err(SyncError::Protocol));
    let lead = b"{\"ciphertext\":[01],\"nonce\":[0,0,0,0,0,0,0,0,0,0,0,0,0,0,0,0,0,0,0,0,0,0,0,0]}";
    assert_eq!(EncryptedBlob::from_json(lead), Err(SyncError::Protocol));
    let few = b"{\"ciphertext\":[],\"nonce\":[0,0]}";
    assert_eq!(EncryptedBlob::from_json(few), Err(SyncError::Protocol));
}

#[test]
fn text_form_is_base64_of_json() {
    let b = sample();
    let expected = base64::engine::general_purpose::STANDARD.encode(b.to_json());
    assert_eq!(b.encode_text(), expected.into_bytes());
}

#[test]
fn text_round_trip_survives_line_breaks() {
    let b = sample();
    let text = b.encode_text();
    let mut wrapped = Vec::new();
    for (i, c) in text.iter().enumerate() {
        if i > 0 && i % 10 == 0 {
            wrapped.push(b'\n');
        }
        wrapped.push(*c);
    }
    wrapped.push(b'\n');
    let back = EncryptedBlob::decode_text(&wrapped).unwrap();
    assert_eq!(back, b);
}

#[test]
fn bad_text_is_a_protocol_error() {
    assert_eq!(EncryptedBlob::decode_text(b"@@@"), Err(SyncError::Protocol));
    let not_blob = base64::engine::general_purpose::STANDARD.encode(b"[1,2]");
    assert_eq!(EncryptedBlob::decode_text(not_blob.as_bytes()), Err(SyncError::Protocol));
}

#[test]
fn stripping_removes_only_whitespace() {
    assert_eq!(strip_spaces(b" a\tb\r\nc \x0c"), b"abc".to_vec());
    assert_eq!(strip_spaces(b""), Vec::<u8>::new());
}

#[test]
fn encrypted_payload_survives_storage_format() {
    let e = Encryptor::new(&[3u8; 32]);
    let (ciphertext, nonce) = e.encrypt(b"vault note").unwrap();
    let stored = EncryptedBlob { ciphertext, nonce }.encode_text();
    let back = EncryptedBlob::decode_text(&stored).unwrap();
    assert_eq!(e.decrypt(&back.ciphertext, &back.nonce).unwrap(), b"vault note".to_vec());
}
