use std::io::{Read, Write};

use ip_lib::archive::{export_all, import_all};
use ip_lib::{EntryRecord, Vault, VaultError};

fn record(username: &str, password: &str) -> EntryRecord {
    EntryRecord {
        username: username.to_string(),
        password: password.to_string(),
    }
}

fn compress_reference(text: &[u8]) -> Vec<u8> {
    let mut w = brotli::CompressorWriter::new(Vec::new(), 4096, 11, 22);
    w.write_all(text).unwrap();
    w.into_inner()
}

fn decompress_reference(blob: &[u8]) -> Vec<u8> {
    let mut out = Vec::new();
    brotli::Decompressor::new(blob, 4096)
        .read_to_end(&mut out)
        .unwrap();
    out
}

#[test]
fn export_import_reproduces_every_entry() {
    let pw = "correct-horse".to_string();
    let mut original = Vault::new();
    original
        .create_entry(&"bank".to_string(), &record("alice", "p@ss"), &pw)
        .unwrap();
    original
        .create_entry(&"mail".to_string(), &record("bob", "hunter2"), &pw)
        .unwrap();
    original
        .create_entry(&"shop".to_string(), &record("eve", "s3cret"), &pw)
        .unwrap();

    let blob = export_all(&original);
    let mut fresh = Vault::new();
    assert_eq!(import_all(&mut fresh, &blob), Ok(3));

    assert_eq!(fresh.len(), original.len());
    for i in 0..original.len() {
        assert_eq!(fresh.entry_at(i).name, original.entry_at(i).name);
        assert_eq!(fresh.entry_at(i).text, original.entry_at(i).text);
    }
    let got = fresh.get_entry(&"mail".to_string(), &pw).unwrap();
    assert_eq!(got.username, "bob");
    assert_eq!(got.password, "hunter2");
}

#[test]
fn export_empty_vault_round_trips() {
    let blob = export_all(&Vault::new());
    let mut fresh = Vault::new();
    assert_eq!(import_all(&mut fresh, &blob), Ok(0));
    assert_eq!(fresh.len(), 0);
}

#[test]
fn exported_blob_is_real_compressed_line_pairs() {
    // The blob must decompress, with the reference decompressor, to the
    // newline-delimited name and hex-text pairs.
    let pw = "mpw".to_string();
    let mut v = Vault::new();
    v.create_entry(&"bank".to_string(), &record("alice", "p@ss"), &pw)
        .unwrap();
    let blob = export_all(&v);
    let text = decompress_reference(&blob);
    let mut expected = b"bank\n".to_vec();
    expected.extend_from_slice(&v.entry_at(0).text);
    expected.push(b'\n');
    assert_eq!(text, expected);
}

#[test]
fn import_overwrites_entries_with_the_same_name() {
    let pw = "correct-horse".to_string();
    let mut source = Vault::new();
    source
        .create_entry(&"alice".to_string(), &record("from-source", "one"), &pw)
        .unwrap();
    let blob = export_all(&source);

    let mut dest = Vault::new();
    dest.create_entry(&"alice".to_string(), &record("stale", "two"), &pw)
        .unwrap();
    dest.create_entry(&"keep".to_string(), &record("kept", "three"), &pw)
        .unwrap();
    assert_eq!(import_all(&mut dest, &blob), Ok(1));

    assert_eq!(dest.len(), 2);
    let got = dest.get_entry(&"alice".to_string(), &pw).unwrap();
    assert_eq!(got.username, "from-source");
    let kept = dest.get_entry(&"keep".to_string(), &pw).unwrap();
    assert_eq!(kept.username, "kept");
}

#[test]
fn truncated_blob_is_malformed() {
    let pw = "mpw".to_string();
    let mut v = Vault::new();
    v.create_entry(&"bank".to_string(), &record("alice", "p@ss"), &pw)
        .unwrap();
    let blob = export_all(&v);
    let truncated = blob[0..blob.len() / 2].to_vec();
    let mut fresh = Vault::new();
    assert_eq!(
        import_all(&mut fresh, &truncated),
        Err(VaultError::MalformedArchive)
    );
    assert_eq!(fresh.len(), 0);
}

#[test]
fn odd_line_count_is_malformed() {
    let blob = compress_reference(b"bank\n");
    let mut fresh = Vault::new();
    assert_eq!(
        import_all(&mut fresh, &blob),
        Err(VaultError::MalformedArchive)
    );
}

#[test]
fn non_hex_text_line_is_malformed() {
    let blob = compress_reference(b"bank\nnothex!\n");
    let mut fresh = Vault::new();
    assert_eq!(
        import_all(&mut fresh, &blob),
        Err(VaultError::MalformedArchive)
    );
}

#[test]
fn empty_name_line_is_malformed() {
    let blob = compress_reference(b"\nabcd\n");
    let mut fresh = Vault::new();
    assert_eq!(
        import_all(&mut fresh, &blob),
        Err(VaultError::MalformedArchive)
    );
}

#[test]
fn non_utf8_name_line_is_malformed() {
    let blob = compress_reference(&[0xff, 0xfe, b'\n', b'a', b'b', b'\n']);
    let mut fresh = Vault::new();
    assert_eq!(
        import_all(&mut fresh, &blob),
        Err(VaultError::MalformedArchive)
    );
}

#[test]
fn malformed_import_leaves_destination_unchanged() {
    let pw = "mpw".to_string();
    let mut dest = Vault::new();
    dest.create_entry(&"keep".to_string(), &record("kept", "safe"), &pw)
        .unwrap();
    let before = dest.entry_at(0).text.clone();
    let blob = compress_reference(b"bank\nnothex!\n");
    assert_eq!(
        import_all(&mut dest, &blob),
        Err(VaultError::MalformedArchive)
    );
    assert_eq!(dest.len(), 1);
    assert_eq!(dest.entry_at(0).name, "keep");
    assert_eq!(dest.entry_at(0).text, before);
}

#[test]
fn hand_written_archive_imports_verbatim() {
    // Import stores the hex lines as they stand, without decrypting them.
    let blob = compress_reference(b"alpha\n00ff\nbeta\nabcd\n");
    let mut fresh = Vault::new();
    assert_eq!(import_all(&mut fresh, &blob), Ok(2));
    assert_eq!(fresh.len(), 2);
    assert_eq!(fresh.entry_at(0).name, "alpha");
    assert_eq!(fresh.entry_at(0).text, b"00ff".to_vec());
    assert_eq!(fresh.entry_at(1).name, "beta");
    assert_eq!(fresh.entry_at(1).text, b"abcd".to_vec());
}

#[test]
fn archive_without_trailing_newline_still_parses() {
    let blob = compress_reference(b"alpha\n00ff\nbeta\nabcd");
    let mut fresh = Vault::new();
    assert_eq!(import_all(&mut fresh, &blob), Ok(2));
    assert_eq!(fresh.entry_at(1).text, b"abcd".to_vec());
}
