use aes_gcm::aead::{Aead, KeyInit};
use aes_gcm::{Aes256Gcm, Nonce};
use ip_lib::crypto::{decrypt_entry, derive_key, derive_nonce, encrypt_entry};
use ip_lib::{EntryRecord, VaultError};
use sha2::{Digest, Sha256};

fn record(username: &str, password: &str) -> EntryRecord {
    EntryRecord {
        username: username.to_string(),
        password: password.to_string(),
    }
}

#[test]
fn key_is_sha256_of_passphrase() {
    let key = derive_key("correct-horse");
    assert_eq!(key.len(), 32);
    let expected = Sha256::digest("correct-horse".as_bytes());
    assert_eq!(key, expected.to_vec());
}

#[test]
fn nonce_pads_short_names_with_spaces() {
    let nonce = derive_nonce("bank");
    assert_eq!(nonce.len(), 12);
    let expected = Sha256::digest("bank        ".as_bytes());
    assert_eq!(nonce, expected[0..12].to_vec());
}

#[test]
fn nonce_truncates_long_names_to_twelve_bytes() {
    let nonce = derive_nonce("verylongentryname");
    let expected = Sha256::digest("verylongentr".as_bytes());
    assert_eq!(nonce, expected[0..12].to_vec());
}

#[test]
fn nonce_keeps_exact_twelve_byte_names() {
    let nonce = derive_nonce("exactlytwelv");
    let expected = Sha256::digest("exactlytwelv".as_bytes());
    assert_eq!(nonce, expected[0..12].to_vec());
}

#[test]
fn stored_text_matches_reference_cipher() {
    // The whole chain — key, nonce, AES-256-GCM, hex — against the crates
    // used directly.
    let stored = encrypt_entry("bank", &record("alice", "p@ss"), "correct-horse");

    let key = Sha256::digest("correct-horse".as_bytes());
    let nonce_seed = Sha256::digest("bank        ".as_bytes());
    let cipher = Aes256Gcm::new(&key);
    let nonce = Nonce::from_slice(&nonce_seed[0..12]);
    let ct = cipher.encrypt(nonce, b"alice;p@ss".as_ref()).unwrap();
    assert_eq!(stored, hex::encode(&ct).into_bytes());
}

#[test]
fn entry_round_trip() {
    let stored = encrypt_entry("bank", &record("alice", "p@ss"), "correct-horse");
    let back = decrypt_entry("bank", &stored, "correct-horse").unwrap();
    assert_eq!(back.username, "alice");
    assert_eq!(back.password, "p@ss");
}

#[test]
fn encryption_is_deterministic() {
    let a = encrypt_entry("bank", &record("alice", "p@ss"), "correct-horse");
    let b = encrypt_entry("bank", &record("alice", "p@ss"), "correct-horse");
    assert_eq!(a, b);
}

#[test]
fn different_names_give_different_ciphertexts() {
    let a = encrypt_entry("bank", &record("alice", "p@ss"), "correct-horse");
    let b = encrypt_entry("mail", &record("alice", "p@ss"), "correct-horse");
    assert_ne!(a, b);
}

#[test]
fn wrong_passphrase_is_rejected() {
    let stored = encrypt_entry("bank", &record("alice", "p@ss"), "correct-horse");
    assert_eq!(
        decrypt_entry("bank", &stored, "wrong-horse").map(|r| r.username),
        Err(VaultError::AuthenticationFailure)
    );
}

#[test]
fn wrong_name_nonce_is_rejected() {
    let stored = encrypt_entry("bank", &record("alice", "p@ss"), "correct-horse");
    assert_eq!(
        decrypt_entry("mail", &stored, "correct-horse").map(|r| r.username),
        Err(VaultError::AuthenticationFailure)
    );
}

#[test]
fn every_single_bit_flip_is_detected() {
    let stored = encrypt_entry("bank", &record("alice", "p@ss"), "correct-horse");
    let ct = hex::decode(&stored).unwrap();
    for byte in 0..ct.len() {
        for bit in 0..8 {
            let mut tampered = ct.clone();
            tampered[byte] ^= 1u8 << bit;
            let text = hex::encode(&tampered).into_bytes();
            assert_eq!(
                decrypt_entry("bank", &text, "correct-horse").map(|r| r.username),
                Err(VaultError::AuthenticationFailure),
                "flipping bit {} of byte {} went undetected",
                bit,
                byte
            );
        }
    }
}

#[test]
fn non_hex_stored_text_is_malformed() {
    assert_eq!(
        decrypt_entry("bank", &b"zz".to_vec(), "correct-horse").map(|r| r.username),
        Err(VaultError::MalformedEncoding)
    );
}

#[test]
fn payload_without_separator_is_malformed() {
    let key = Sha256::digest("correct-horse".as_bytes());
    let nonce_seed = Sha256::digest("bank        ".as_bytes());
    let cipher = Aes256Gcm::new(&key);
    let nonce = Nonce::from_slice(&nonce_seed[0..12]);
    let ct = cipher.encrypt(nonce, b"nosemicolon".as_ref()).unwrap();
    let stored = hex::encode(&ct).into_bytes();
    assert_eq!(
        decrypt_entry("bank", &stored, "correct-horse").map(|r| r.username),
        Err(VaultError::MalformedRecord)
    );
}

#[test]
fn payload_that_is_not_utf8_is_malformed() {
    let key = Sha256::digest("correct-horse".as_bytes());
    let nonce_seed = Sha256::digest("bank        ".as_bytes());
    let cipher = Aes256Gcm::new(&key);
    let nonce = Nonce::from_slice(&nonce_seed[0..12]);
    let ct = cipher.encrypt(nonce, [0xffu8, 0xfe, 0x3b].as_ref()).unwrap();
    let stored = hex::encode(&ct).into_bytes();
    assert_eq!(
        decrypt_entry("bank", &stored, "correct-horse").map(|r| r.username),
        Err(VaultError::MalformedRecord)
    );
}
