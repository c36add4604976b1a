use ip_lib::codec::{
    check_hex_text, deserialize, from_storage_text, serialize, serialize_len, to_storage_text,
};
use ip_lib::{EntryRecord, VaultError};

#[test]
fn hex_encodes_lowercase_pairs() {
    let bytes: Vec<u8> = vec![0x00, 0xab, 0xff, 0x1e];
    let text = to_storage_text(&bytes);
    assert_eq!(text, b"00abff1e".to_vec());
}

#[test]
fn hex_matches_reference_encoder() {
    let bytes: Vec<u8> = (0u8..=255u8).collect();
    let text = to_storage_text(&bytes);
    assert_eq!(text, hex::encode(&bytes).into_bytes());
    let back = from_storage_text(&text).unwrap();
    assert_eq!(back, bytes);
    assert_eq!(back, hex::decode(&text).unwrap());
}

#[test]
fn hex_round_trip_empty() {
    let bytes: Vec<u8> = Vec::new();
    let text = to_storage_text(&bytes);
    assert_eq!(text.len(), 0);
    assert_eq!(from_storage_text(&text).unwrap(), bytes);
}

#[test]
fn hex_rejects_odd_length() {
    assert_eq!(
        from_storage_text(&b"abc".to_vec()),
        Err(VaultError::MalformedEncoding)
    );
}

#[test]
fn hex_rejects_non_hex_bytes() {
    assert_eq!(
        from_storage_text(&b"zz".to_vec()),
        Err(VaultError::MalformedEncoding)
    );
    assert_eq!(
        from_storage_text(&b"12 4".to_vec()),
        Err(VaultError::MalformedEncoding)
    );
}

#[test]
fn hex_rejects_uppercase() {
    // The storage form is canonical lowercase; uppercase digits are refused.
    assert_eq!(
        from_storage_text(&b"AB".to_vec()),
        Err(VaultError::MalformedEncoding)
    );
    assert!(!check_hex_text(&b"AB".to_vec()));
    assert!(check_hex_text(&b"ab".to_vec()));
}

#[test]
fn record_serializes_with_semicolon() {
    let rec = EntryRecord {
        username: "alice".to_string(),
        password: "p@ss".to_string(),
    };
    assert_eq!(serialize(&rec), "alice;p@ss");
    assert_eq!(serialize_len(&rec), 10);
}

#[test]
fn record_round_trip() {
    let rec = EntryRecord {
        username: "alice".to_string(),
        password: "p@ss".to_string(),
    };
    let back = deserialize(&serialize(&rec)).unwrap();
    assert_eq!(back.username, "alice");
    assert_eq!(back.password, "p@ss");
}

#[test]
fn record_splits_at_first_semicolon() {
    // A password may hold the separator; only the first one splits.
    let back = deserialize("a;b;c").unwrap();
    assert_eq!(back.username, "a");
    assert_eq!(back.password, "b;c");
}

#[test]
fn record_with_empty_fields() {
    let back = deserialize(";").unwrap();
    assert_eq!(back.username, "");
    assert_eq!(back.password, "");
}

#[test]
fn record_without_separator_is_malformed() {
    match deserialize("nosemicolon") {
        Err(VaultError::MalformedRecord) => {}
        other => panic!("expected MalformedRecord, got {:?}", other),
    }
}

#[test]
fn error_descriptions_are_not_empty() {
    let all = [
        VaultError::DuplicateEntry,
        VaultError::NotFound,
        VaultError::AuthenticationFailure,
        VaultError::MalformedEncoding,
        VaultError::MalformedRecord,
        VaultError::MalformedArchive,
    ];
    for e in all {
        assert!(!e.describe().is_empty());
    }
}
