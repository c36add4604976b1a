use ip_lib::{EntryRecord, Vault, VaultError};

fn record(username: &str, password: &str) -> EntryRecord {
    EntryRecord {
        username: username.to_string(),
        password: password.to_string(),
    }
}

#[test]
fn bank_scenario() {
    // Create "bank" with alice/p@ss under "correct-horse"; the right
    // passphrase opens it, the wrong one is turned away.
    let mut v = Vault::new();
    v.create_entry(
        &"bank".to_string(),
        &record("alice", "p@ss"),
        &"correct-horse".to_string(),
    )
    .unwrap();
    let got = v
        .get_entry(&"bank".to_string(), &"correct-horse".to_string())
        .unwrap();
    assert_eq!(got.username, "alice");
    assert_eq!(got.password, "p@ss");
    assert_eq!(
        v.get_entry(&"bank".to_string(), &"wrong-horse".to_string())
            .map(|r| r.username),
        Err(VaultError::AuthenticationFailure)
    );
}

#[test]
fn duplicate_create_is_rejected_and_harmless() {
    let mut v = Vault::new();
    let name = "alice".to_string();
    let pw = "mpw".to_string();
    v.create_entry(&name, &record("first", "one"), &pw).unwrap();
    let before = v.entry_at(0).text.clone();
    assert_eq!(
        v.create_entry(&name, &record("second", "two"), &pw),
        Err(VaultError::DuplicateEntry)
    );
    assert_eq!(v.len(), 1);
    assert_eq!(v.entry_at(0).text, before);
    let got = v.get_entry(&name, &pw).unwrap();
    assert_eq!(got.username, "first");
    assert_eq!(got.password, "one");
}

#[test]
fn get_missing_entry_is_not_found() {
    let v = Vault::new();
    assert_eq!(
        v.get_entry(&"ghost".to_string(), &"mpw".to_string())
            .map(|r| r.username),
        Err(VaultError::NotFound)
    );
}

#[test]
fn rename_moves_the_record() {
    let mut v = Vault::new();
    let pw = "mpw".to_string();
    v.create_entry(&"alice".to_string(), &record("user", "secret"), &pw)
        .unwrap();
    v.rename(&"alice".to_string(), &"alicia".to_string(), &pw)
        .unwrap();
    let got = v.get_entry(&"alicia".to_string(), &pw).unwrap();
    assert_eq!(got.username, "user");
    assert_eq!(got.password, "secret");
    assert_eq!(
        v.get_entry(&"alice".to_string(), &pw).map(|r| r.username),
        Err(VaultError::NotFound)
    );
    assert_eq!(v.len(), 1);
}

#[test]
fn rename_refuses_taken_target() {
    let mut v = Vault::new();
    let pw = "mpw".to_string();
    v.create_entry(&"a".to_string(), &record("u1", "p1"), &pw)
        .unwrap();
    v.create_entry(&"b".to_string(), &record("u2", "p2"), &pw)
        .unwrap();
    assert_eq!(
        v.rename(&"a".to_string(), &"b".to_string(), &pw),
        Err(VaultError::DuplicateEntry)
    );
    let got = v.get_entry(&"b".to_string(), &pw).unwrap();
    assert_eq!(got.username, "u2");
}

#[test]
fn rename_missing_entry_is_not_found() {
    let mut v = Vault::new();
    assert_eq!(
        v.rename(&"ghost".to_string(), &"other".to_string(), &"mpw".to_string()),
        Err(VaultError::NotFound)
    );
}

#[test]
fn rename_with_wrong_passphrase_changes_nothing() {
    let mut v = Vault::new();
    let pw = "mpw".to_string();
    v.create_entry(&"a".to_string(), &record("u", "p"), &pw)
        .unwrap();
    let before = v.entry_at(0).text.clone();
    assert_eq!(
        v.rename(&"a".to_string(), &"b".to_string(), &"wrong".to_string()),
        Err(VaultError::AuthenticationFailure)
    );
    assert_eq!(v.len(), 1);
    assert_eq!(v.entry_at(0).name, "a");
    assert_eq!(v.entry_at(0).text, before);
}

#[test]
fn edit_password_keeps_username() {
    let mut v = Vault::new();
    let pw = "mpw".to_string();
    v.create_entry(&"mail".to_string(), &record("user", "old"), &pw)
        .unwrap();
    v.edit_password(&"mail".to_string(), &"new".to_string(), &pw)
        .unwrap();
    let got = v.get_entry(&"mail".to_string(), &pw).unwrap();
    assert_eq!(got.username, "user");
    assert_eq!(got.password, "new");
}

#[test]
fn edit_username_keeps_password() {
    let mut v = Vault::new();
    let pw = "mpw".to_string();
    v.create_entry(&"mail".to_string(), &record("old", "secret"), &pw)
        .unwrap();
    v.edit_username(&"mail".to_string(), &"new".to_string(), &pw)
        .unwrap();
    let got = v.get_entry(&"mail".to_string(), &pw).unwrap();
    assert_eq!(got.username, "new");
    assert_eq!(got.password, "secret");
}

#[test]
fn edit_missing_entry_is_not_found() {
    let mut v = Vault::new();
    assert_eq!(
        v.edit_password(&"ghost".to_string(), &"x".to_string(), &"mpw".to_string()),
        Err(VaultError::NotFound)
    );
    assert_eq!(
        v.edit_username(&"ghost".to_string(), &"x".to_string(), &"mpw".to_string()),
        Err(VaultError::NotFound)
    );
}

#[test]
fn remove_deletes_for_good() {
    let mut v = Vault::new();
    let pw = "mpw".to_string();
    v.create_entry(&"a".to_string(), &record("u", "p"), &pw)
        .unwrap();
    v.remove(&"a".to_string()).unwrap();
    assert_eq!(v.len(), 0);
    assert_eq!(
        v.get_entry(&"a".to_string(), &pw).map(|r| r.username),
        Err(VaultError::NotFound)
    );
    assert_eq!(v.remove(&"a".to_string()), Err(VaultError::NotFound));
}

#[test]
fn list_names_in_order() {
    let mut v = Vault::new();
    let pw = "mpw".to_string();
    v.create_entry(&"bank".to_string(), &record("u1", "p1"), &pw)
        .unwrap();
    v.create_entry(&"mail".to_string(), &record("u2", "p2"), &pw)
        .unwrap();
    assert_eq!(v.list(), vec!["bank".to_string(), "mail".to_string()]);
    assert!(v.has_entry(&"bank".to_string()));
    assert!(!v.has_entry(&"shop".to_string()));
}

#[test]
fn same_inputs_store_identical_texts() {
    let pw = "mpw".to_string();
    let mut a = Vault::new();
    let mut b = Vault::new();
    a.create_entry(&"bank".to_string(), &record("alice", "p@ss"), &pw)
        .unwrap();
    b.create_entry(&"bank".to_string(), &record("alice", "p@ss"), &pw)
        .unwrap();
    assert_eq!(a.entry_at(0).text, b.entry_at(0).text);
}

#[test]
fn insert_stored_validates_hex() {
    let mut v = Vault::new();
    assert_eq!(
        v.insert_stored("a".to_string(), b"zz".to_vec()),
        Err(VaultError::MalformedEncoding)
    );
    assert_eq!(v.len(), 0);
    v.insert_stored("a".to_string(), b"00ff".to_vec()).unwrap();
    assert_eq!(v.len(), 1);
    assert_eq!(v.entry_at(0).text, b"00ff".to_vec());
}

#[test]
fn insert_stored_replaces_same_name() {
    let mut v = Vault::new();
    v.insert_stored("a".to_string(), b"00".to_vec()).unwrap();
    v.insert_stored("a".to_string(), b"ff".to_vec()).unwrap();
    assert_eq!(v.len(), 1);
    assert_eq!(v.entry_at(0).text, b"ff".to_vec());
}

#[test]
fn semicolon_in_username_shifts_the_split() {
    // The documented format limitation: the decrypted record is split at
    // the first separator, wherever it came from.
    let mut v = Vault::new();
    let pw = "mpw".to_string();
    v.create_entry(&"site".to_string(), &record("a;b", "c"), &pw)
        .unwrap();
    let got = v.get_entry(&"site".to_string(), &pw).unwrap();
    assert_eq!(got.username, "a");
    assert_eq!(got.password, "b;c");
}
