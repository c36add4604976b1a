//! The vault: the set of stored entries, one per name.
//!
//! On disk the vault is a directory with one file per entry, the file stem
//! the entry name and the file content the entry's stored hex text. This
//! type is that directory's content held as a value: the caller lists the
//! directory into it, works on it, and writes changed entries back. Every
//! operation that the store offers — create, read, the two field edits,
//! rename, remove, list — lives here with its contract.

use vstd::prelude::*;

use crate::codec::{is_hex_text, serialize_len, EntryRecord};
use crate::crypto::{decrypt_entry, encrypt_entry, fits_cipher, stored_of};
use crate::errors::VaultError;

verus! {

/// One stored entry: a name and the hex text of its ciphertext, exactly the
/// file stem and file content of one vault file.
pub struct StoredEntry {
    pub name: String,
    pub text: Vec<u8>,
}

/// True of the name/text pairs a vault may hold: the name is non-empty and
/// holds no line break (it must serve as a file stem and as an archive
/// header line), and the text is lowercase hex.
pub open spec fn entry_ok(name: Seq<char>, text: Seq<u8>) -> bool {
    &&& name.len() > 0
    &&& !name.contains('\n')
    &&& is_hex_text(text)
}

/// True when no two entries share a name.
pub open spec fn unique_names(s: Seq<(Seq<char>, Seq<u8>)>) -> bool {
    forall|i: int, j: int| 0 <= i < j < s.len() ==> s[i].0 != s[j].0
}

/// True when some entry has this name.
pub open spec fn has_name(s: Seq<(Seq<char>, Seq<u8>)>, name: Seq<char>) -> bool {
    exists|i: int| 0 <= i < s.len() && s[i].0 == name
}

/// The stored text of the entry with this name.
pub open spec fn stored_text(s: Seq<(Seq<char>, Seq<u8>)>, name: Seq<char>) -> Seq<u8>
    recommends
        has_name(s, name),
{
    s[choose|i: int| 0 <= i < s.len() && s[i].0 == name].1
}

/// The sequence with the named entry's text replaced if the name is present,
/// or with the entry appended if it is not — what an unconditional write of
/// one entry's file does to the directory.
pub open spec fn upsert(s: Seq<(Seq<char>, Seq<u8>)>, name: Seq<char>, text: Seq<u8>) -> Seq<
    (Seq<char>, Seq<u8>),
> {
    if has_name(s, name) {
        Seq::new(s.len(), |i: int| if s[i].0 == name { (s[i].0, text) } else { s[i] })
    } else {
        s.push((name, text))
    }
}

/// With unique names, the stored text of a name found at an index is that
/// index's text.
pub proof fn lemma_stored_text_at(s: Seq<(Seq<char>, Seq<u8>)>, name: Seq<char>, i: int)
    requires
        unique_names(s),
        0 <= i < s.len(),
        s[i].0 == name,
    ensures
        has_name(s, name),
        stored_text(s, name) == s[i].1,
{
    let j = choose|j: int| 0 <= j < s.len() && s[j].0 == name;
    assert(s[j].0 == name);
    if i < j {
        assert(s[i].0 != s[j].0);
    } else if j < i {
        assert(s[j].0 != s[i].0);
    }
}

/// The vault's content: one stored entry per name.
pub struct Vault {
    entries: Vec<StoredEntry>,
}

impl View for Vault {
    type V = Seq<(Seq<char>, Seq<u8>)>;

    closed spec fn view(&self) -> Seq<(Seq<char>, Seq<u8>)> {
        self.entries@.map_values(|e: StoredEntry| (e.name@, e.text@))
    }
}

impl Vault {
    /// True of every vault this module hands out: names are unique and every
    /// entry is well formed.
    pub open spec fn wf(self) -> bool {
        &&& unique_names(self@)
        &&& forall|i: int| 0 <= i < self@.len() ==> entry_ok(self@[i].0, self@[i].1)
    }

    /// An empty vault.
    pub fn new() -> (v: Vault)
        ensures
            v@ == Seq::<(Seq<char>, Seq<u8>)>::empty(),
            v.wf(),
    {
        let v = Vault { entries: Vec::new() };
        proof {
            assert(v@ =~= Seq::<(Seq<char>, Seq<u8>)>::empty());
        }
        v
    }

    /// The number of entries.
    pub fn len(&self) -> (r: usize)
        ensures
            r == self@.len(),
    {
        self.entries.len()
    }

    /// The entry at an index, for callers that persist the vault.
    pub fn entry_at(&self, i: usize) -> (r: &StoredEntry)
        requires
            i < self@.len(),
        ensures
            (r.name@, r.text@) == self@[i as int],
    {
        &self.entries[i]
    }

    fn find_index(&self, name: &String) -> (r: Option<usize>)
        ensures
            r matches Some(i) ==> i < self@.len() && self@[i as int].0 == name@,
            r is None ==> !has_name(self@, name@),
    {
        let mut i: usize = 0;
        while i < self.entries.len()
            invariant
                i <= self@.len(),
                self@.len() == self.entries@.len(),
                forall|j: int| 0 <= j < i ==> self@[j].0 != name@,
            decreases self@.len() - i,
        {
            if self.entries[i].name == *name {
                return Some(i);
            }
            i += 1;
        }
        None
    }

    /// True when an entry with this name exists.
    pub fn has_entry(&self, name: &String) -> (r: bool)
        ensures
            r == has_name(self@, name@),
    {
        self.find_index(name).is_some()
    }

    /// The stored names, in the vault's own order.
    pub fn list(&self) -> (r: Vec<String>)
        ensures
            r@.len() == self@.len(),
            forall|i: int| 0 <= i < r@.len() ==> #[trigger] r@[i]@ == self@[i].0,
    {
        let mut out: Vec<String> = Vec::new();
        let mut i: usize = 0;
        while i < self.entries.len()
            invariant
                i <= self@.len(),
                self@.len() == self.entries@.len(),
                out@.len() == i,
                forall|j: int| 0 <= j < i ==> #[trigger] out@[j]@ == self@[j].0,
            decreases self@.len() - i,
        {
            out.push(self.entries[i].name.clone());
            i += 1;
        }
        out
    }

    /// Store a raw entry as it stands, replacing any entry of the same name:
    /// what loading one file, or importing one archive pair, does. The text
    /// must be lowercase hex; anything else is `MalformedEncoding` and the
    /// vault is unchanged.
    pub fn insert_stored(&mut self, name: String, text: Vec<u8>) -> (r: Result<(), VaultError>)
        requires
            old(self).wf(),
            name@.len() > 0,
            !name@.contains('\n'),
        ensures
            final(self).wf(),
            r is Ok <==> is_hex_text(text@),
            r is Ok ==> final(self)@ == upsert(old(self)@, name@, text@),
            r is Err ==> final(self)@ == old(self)@ && r == Err::<(), VaultError>(
                VaultError::MalformedEncoding,
            ),
    {
        if !crate::codec::check_hex_text(&text) {
            return Err(VaultError::MalformedEncoding);
        }
        match self.find_index(&name) {
            Some(i) => {
                let mut e = self.entries.remove(i);
                e.text = text;
                self.entries.insert(i, e);
                proof {
                    assert(final(self)@ =~= old(self)@.update(i as int, (name@, text@)));
                    assert(final(self)@ =~= upsert(old(self)@, name@, text@)) by {
                        assert forall|k: int| 0 <= k < old(self)@.len() && k != i implies old(
                            self,
                        )@[k].0 != name@ by {
                            if k < i {
                                assert(old(self)@[k].0 != old(self)@[i as int].0);
                            } else {
                                assert(old(self)@[i as int].0 != old(self)@[k].0);
                            }
                        }
                    }
                }
                Ok(())
            },
            None => {
                self.entries.push(StoredEntry { name, text });
                proof {
                    assert(final(self)@ =~= old(self)@.push((name@, text@)));
                }
                Ok(())
            },
        }
    }

    /// Create a new entry: encrypt the record under this name and this
    /// passphrase and store it. Fails with `DuplicateEntry`, leaving the
    /// vault unchanged, exactly when the name is already taken — an existing
    /// entry is never overwritten.
    pub fn create_entry(
        &mut self,
        name: &String,
        record: &EntryRecord,
        passphrase: &String,
    ) -> (r: Result<(), VaultError>)
        requires
            old(self).wf(),
            name@.len() > 0,
            !name@.contains('\n'),
            fits_cipher(record.username@, record.password@),
        ensures
            final(self).wf(),
            has_name(old(self)@, name@) ==> r == Err::<(), VaultError>(VaultError::DuplicateEntry)
                && final(self)@ == old(self)@,
            !has_name(old(self)@, name@) ==> r is Ok && final(self)@ == old(self)@.push(
                (name@, stored_of(name@, record.username@, record.password@, passphrase@)),
            ),
    {
        if self.has_entry(name) {
            return Err(VaultError::DuplicateEntry);
        }
        let text = encrypt_entry(name.as_str(), record, passphrase.as_str());
        self.entries.push(StoredEntry { name: name.clone(), text });
        proof {
            assert(final(self)@ =~= old(self)@.push(
                (name@, stored_of(name@, record.username@, record.password@, passphrase@)),
            ));
        }
        Ok(())
    }

    /// Read and decrypt the named entry. Fails with `NotFound` when the name
    /// has no entry; otherwise exactly as decryption of its stored text does:
    /// `AuthenticationFailure` under a wrong passphrase or a tampered text,
    /// never silently wrong plaintext.
    pub fn get_entry(&self, name: &String, passphrase: &String) -> (r: Result<
        EntryRecord,
        VaultError,
    >)
        requires
            self.wf(),
        ensures
            !has_name(self@, name@) ==> r == Err::<EntryRecord, VaultError>(VaultError::NotFound),
            has_name(self@, name@) ==> {
                &&& (r matches Ok(rec) ==> !rec.username@.contains(';') && stored_text(
                    self@,
                    name@,
                ) == stored_of(name@, rec.username@, rec.password@, passphrase@))
                &&& (forall|u: Seq<char>, p: Seq<char>|
                    !u.contains(';') && stored_text(self@, name@) == #[trigger] stored_of(
                        name@,
                        u,
                        p,
                        passphrase@,
                    ) ==> (r matches Ok(rec) && rec.username@ == u && rec.password@ == p))
                &&& (r is Err ==> (r == Err::<EntryRecord, VaultError>(
                    VaultError::AuthenticationFailure,
                ) || r == Err::<EntryRecord, VaultError>(VaultError::MalformedEncoding) || r
                    == Err::<EntryRecord, VaultError>(VaultError::MalformedRecord)))
            },
    {
        match self.find_index(name) {
            Some(i) => {
                proof {
                    lemma_stored_text_at(self@, name@, i as int);
                }
                decrypt_entry(name.as_str(), &self.entries[i].text, passphrase.as_str())
            },
            None => Err(VaultError::NotFound),
        }
    }

    /// Replace the named entry's text with the re-encryption of an edited
    /// record, in place.
    fn replace_text(&mut self, i: usize, text: Vec<u8>)
        requires
            old(self).wf(),
            i < old(self)@.len(),
            is_hex_text(text@),
        ensures
            final(self).wf(),
            final(self)@ == upsert(old(self)@, old(self)@[i as int].0, text@),
    {
        let ghost name = old(self)@[i as int].0;
        let mut e = self.entries.remove(i);
        e.text = text;
        self.entries.insert(i, e);
        proof {
            assert(final(self)@ =~= old(self)@.update(i as int, (name, text@)));
            lemma_stored_text_at(old(self)@, name, i as int);
            assert(final(self)@ =~= upsert(old(self)@, name, text@)) by {
                assert forall|k: int| 0 <= k < old(self)@.len() && k != i implies old(
                    self,
                )@[k].0 != name by {
                    if k < i {
                        assert(old(self)@[k].0 != old(self)@[i as int].0);
                    } else {
                        assert(old(self)@[i as int].0 != old(self)@[k].0);
                    }
                }
            }
        }
    }

    /// Change the named entry's password, leaving its username untouched:
    /// decrypt, swap the password field, re-encrypt under the same name's
    /// nonce, overwrite. Decryption failures are reported as in `get_entry`
    /// and leave the vault unchanged; a record whose re-encryption would
    /// exceed the cipher's plaintext bound is reported `MalformedRecord`.
    pub fn edit_password(&mut self, name: &String, new_password: &String, passphrase: &String) -> (r:
        Result<(), VaultError>)
        requires
            old(self).wf(),
        ensures
            final(self).wf(),
            !has_name(old(self)@, name@) ==> r == Err::<(), VaultError>(VaultError::NotFound),
            r is Err ==> final(self)@ == old(self)@,
            r is Ok ==> exists|u: Seq<char>, p: Seq<char>|
                !u.contains(';') && stored_text(old(self)@, name@) == #[trigger] stored_of(
                    name@,
                    u,
                    p,
                    passphrase@,
                ) && final(self)@ == upsert(
                    old(self)@,
                    name@,
                    stored_of(name@, u, new_password@, passphrase@),
                ),
            forall|u: Seq<char>, p: Seq<char>|
                has_name(old(self)@, name@) && !u.contains(';') && stored_text(old(self)@, name@)
                    == #[trigger] stored_of(name@, u, p, passphrase@) && fits_cipher(
                    u,
                    new_password@,
                ) ==> r is Ok,
    {
        let i = match self.find_index(name) {
            Some(i) => i,
            None => {
                return Err(VaultError::NotFound);
            },
        };
        proof {
            lemma_stored_text_at(self@, name@, i as int);
        }
        let rec = match decrypt_entry(name.as_str(), &self.entries[i].text, passphrase.as_str()) {
            Ok(rec) => rec,
            Err(e) => {
                return Err(e);
            },
        };
        let edited = EntryRecord { username: rec.username, password: new_password.clone() };
        if serialize_len(&edited) > 0xFFFF_FFFF {
            return Err(VaultError::MalformedRecord);
        }
        let text = encrypt_entry(name.as_str(), &edited, passphrase.as_str());
        self.replace_text(i, text);
        Ok(())
    }

    /// Change the named entry's username, leaving its password untouched.
    /// Failure cases are those of `edit_password`.
    pub fn edit_username(&mut self, name: &String, new_username: &String, passphrase: &String) -> (r:
        Result<(), VaultError>)
        requires
            old(self).wf(),
        ensures
            final(self).wf(),
            !has_name(old(self)@, name@) ==> r == Err::<(), VaultError>(VaultError::NotFound),
            r is Err ==> final(self)@ == old(self)@,
            r is Ok ==> exists|u: Seq<char>, p: Seq<char>|
                !u.contains(';') && stored_text(old(self)@, name@) == #[trigger] stored_of(
                    name@,
                    u,
                    p,
                    passphrase@,
                ) && final(self)@ == upsert(
                    old(self)@,
                    name@,
                    stored_of(name@, new_username@, p, passphrase@),
                ),
            forall|u: Seq<char>, p: Seq<char>|
                has_name(old(self)@, name@) && !u.contains(';') && stored_text(old(self)@, name@)
                    == #[trigger] stored_of(name@, u, p, passphrase@) && fits_cipher(
                    new_username@,
                    p,
                ) ==> r is Ok,
    {
        let i = match self.find_index(name) {
            Some(i) => i,
            None => {
                return Err(VaultError::NotFound);
            },
        };
        proof {
            lemma_stored_text_at(self@, name@, i as int);
        }
        let rec = match decrypt_entry(name.as_str(), &self.entries[i].text, passphrase.as_str()) {
            Ok(rec) => rec,
            Err(e) => {
                return Err(e);
            },
        };
        let edited = EntryRecord { username: new_username.clone(), password: rec.password };
        if serialize_len(&edited) > 0xFFFF_FFFF {
            return Err(VaultError::MalformedRecord);
        }
        let text = encrypt_entry(name.as_str(), &edited, passphrase.as_str());
        self.replace_text(i, text);
        Ok(())
    }

    /// Move an entry to a new name: decrypt under the old name's nonce,
    /// re-encrypt under the new name's nonce (the nonce is name-derived, so
    /// it changes), store under the new name and drop the old entry, so that
    /// no stale duplicate stays behind. `NotFound` when the old name has no
    /// entry; `DuplicateEntry`, with nothing changed, when the new name
    /// already has one.
    pub fn rename(&mut self, old_name: &String, new_name: &String, passphrase: &String) -> (r:
        Result<(), VaultError>)
        requires
            old(self).wf(),
            new_name@.len() > 0,
            !new_name@.contains('\n'),
        ensures
            final(self).wf(),
            !has_name(old(self)@, old_name@) ==> r == Err::<(), VaultError>(VaultError::NotFound),
            has_name(old(self)@, old_name@) && has_name(old(self)@, new_name@) ==> r == Err::<
                (),
                VaultError,
            >(VaultError::DuplicateEntry),
            r is Err ==> final(self)@ == old(self)@,
            r is Ok ==> !has_name(old(self)@, new_name@) && exists|i: int, u: Seq<char>, p: Seq<char>|
                #![trigger old(self)@[i], stored_of(old_name@, u, p, passphrase@)]
                0 <= i < old(self)@.len() && old(self)@[i].0 == old_name@ && !u.contains(';')
                    && stored_text(old(self)@, old_name@) == stored_of(
                    old_name@,
                    u,
                    p,
                    passphrase@,
                ) && final(self)@ == old(self)@.remove(i).push(
                    (new_name@, stored_of(new_name@, u, p, passphrase@)),
                ),
            forall|u: Seq<char>, p: Seq<char>|
                has_name(old(self)@, old_name@) && !has_name(old(self)@, new_name@) && !u.contains(
                    ';',
                ) && stored_text(old(self)@, old_name@) == #[trigger] stored_of(
                    old_name@,
                    u,
                    p,
                    passphrase@,
                ) && fits_cipher(u, p) ==> r is Ok,
    {
        let i = match self.find_index(old_name) {
            Some(i) => i,
            None => {
                return Err(VaultError::NotFound);
            },
        };
        if self.has_entry(new_name) {
            return Err(VaultError::DuplicateEntry);
        }
        proof {
            lemma_stored_text_at(self@, old_name@, i as int);
        }
        let rec = match decrypt_entry(
            old_name.as_str(),
            &self.entries[i].text,
            passphrase.as_str(),
        ) {
            Ok(rec) => rec,
            Err(e) => {
                return Err(e);
            },
        };
        if serialize_len(&rec) > 0xFFFF_FFFF {
            return Err(VaultError::MalformedRecord);
        }
        let text = encrypt_entry(new_name.as_str(), &rec, passphrase.as_str());
        self.entries.remove(i);
        self.entries.push(StoredEntry { name: new_name.clone(), text });
        proof {
            assert(final(self)@ =~= old(self)@.remove(i as int).push(
                (new_name@, stored_of(new_name@, rec.username@, rec.password@, passphrase@)),
            ));
            assert(final(self).wf()) by {
                let s = old(self)@.remove(i as int);
                assert(forall|k: int| 0 <= k < s.len() ==> s[k] == if k < i {
                    old(self)@[k]
                } else {
                    old(self)@[k + 1]
                });
            }
        }
        Ok(())
    }

    /// Delete the named entry outright. `NotFound` when it does not exist;
    /// afterwards it is gone — there is no soft delete.
    pub fn remove(&mut self, name: &String) -> (r: Result<(), VaultError>)
        requires
            old(self).wf(),
        ensures
            final(self).wf(),
            !has_name(old(self)@, name@) ==> r == Err::<(), VaultError>(VaultError::NotFound)
                && final(self)@ == old(self)@,
            has_name(old(self)@, name@) ==> r is Ok && exists|i: int|
                0 <= i < old(self)@.len() && old(self)@[i].0 == name@ && final(self)@ == old(
                    self,
                )@.remove(i),
            r is Ok ==> !has_name(final(self)@, name@),
    {
        match self.find_index(name) {
            Some(i) => {
                self.entries.remove(i);
                proof {
                    assert(final(self)@ =~= old(self)@.remove(i as int));
                    let s = old(self)@.remove(i as int);
                    assert(forall|k: int| 0 <= k < s.len() ==> s[k] == if k < i {
                        old(self)@[k]
                    } else {
                        old(self)@[k + 1]
                    });
                    assert(!has_name(s, name@)) by {
                        assert forall|k: int| 0 <= k < s.len() implies s[k].0 != name@ by {
                            if k < i {
                                assert(old(self)@[k].0 != old(self)@[i as int].0);
                            } else {
                                assert(old(self)@[i as int].0 != old(self)@[k + 1].0);
                            }
                        }
                    }
                }
                Ok(())
            },
            None => Err(VaultError::NotFound),
        }
    }
}

/// After a successful rename the record is reachable under the new name and
/// the old name is gone: the moved entry's text is keyed to the new name,
/// and with unique names the removed index was the only one carrying the old
/// name.
pub proof fn lemma_rename_consistency(
    v0: Seq<(Seq<char>, Seq<u8>)>,
    v1: Seq<(Seq<char>, Seq<u8>)>,
    old_name: Seq<char>,
    new_name: Seq<char>,
    i: int,
    text: Seq<u8>,
)
    requires
        unique_names(v0),
        0 <= i < v0.len(),
        v0[i].0 == old_name,
        !has_name(v0, new_name),
        v1 == v0.remove(i).push((new_name, text)),
    ensures
        has_name(v1, new_name),
        stored_text(v1, new_name) == text,
        old_name != new_name ==> !has_name(v1, old_name),
        unique_names(v1),
{
    let s = v0.remove(i);
    assert(forall|k: int| 0 <= k < s.len() ==> s[k] == if k < i {
        v0[k]
    } else {
        v0[k + 1]
    });
    assert(v1[v1.len() - 1] == (new_name, text));
    assert(has_name(v1, new_name));
    assert forall|k: int| 0 <= k < s.len() implies s[k].0 != new_name && s[k].0 != old_name by {
        if k < i {
            assert(v0[k].0 != v0[i].0);
        } else {
            assert(v0[i].0 != v0[k + 1].0);
        }
        assert(!(0 <= k < v0.len() && v0[k].0 == new_name));
        assert(!(0 <= k + 1 < v0.len() && v0[k + 1].0 == new_name));
    }
    assert(unique_names(v1));
    lemma_stored_text_at(v1, new_name, v1.len() - 1);
    if old_name != new_name {
        assert forall|k: int| 0 <= k < v1.len() implies v1[k].0 != old_name by {
            if k < s.len() {
                assert(v1[k] == s[k]);
            }
        }
    }
}

} // verus!
