//! Key derivation, nonce derivation, and authenticated encryption of entry
//! payloads.
//!
//! The key is one unsalted SHA-256 of the master passphrase's UTF-8 bytes; the
//! nonce is the first 12 bytes of a SHA-256 of the entry name's UTF-8 bytes
//! normalized to exactly 12 bytes. Both are deterministic on purpose: the same
//! name and passphrase always reproduce the same ciphertext, so exports are
//! idempotent. The cipher is AES-256-GCM with no associated data; its
//! authentication tag is what turns a wrong passphrase or a tampered stored
//! text into a clean `AuthenticationFailure` instead of garbage plaintext.

use aes_gcm::aead::{Aead, KeyInit};
use aes_gcm::{Aes256Gcm, Nonce};
use sha2::{Digest, Sha256};
use vstd::prelude::*;
use vstd::slice::{slice_subrange, slice_to_vec};
use vstd::string::*;
use vstd::utf8::{encode_utf8, encode_utf8_valid_utf8, valid_utf8};

use crate::codec::{
    bytes_to_string, deserialize, from_storage_text, hex_text, is_hex_text,
    lemma_encode_utf8_injective, lemma_hex_round_trip, lemma_hex_text_canonical,
    lemma_serialize_chars_injective, serialize, serialize_chars, to_storage_text, EntryRecord,
};
use crate::errors::VaultError;

verus! {

/// The SHA-256 digest of a byte sequence, named but not defined here: the
/// digest function is far too large to state, and it depends on its input
/// alone.
pub uninterp spec fn sha256_of(data: Seq<u8>) -> Seq<u8>;

/// The AES-256-GCM ciphertext (message body then 16-byte tag) for a key,
/// nonce and plaintext, named but not defined here; it depends on those three
/// arguments alone.
pub uninterp spec fn aead_enc(key: Seq<u8>, nonce: Seq<u8>, plaintext: Seq<u8>) -> Seq<u8>;

/// Relies on `sha2::Sha256`: the digest is 32 bytes and is a function of the
/// input bytes alone.
#[verifier::external_body]
fn sha256(data: &[u8]) -> (r: Vec<u8>)
    ensures
        r@ == sha256_of(data@),
        r@.len() == 32,
{
    Sha256::digest(data).to_vec()
}

/// Relies on `aes_gcm::Aes256Gcm` through `aead::Aead::encrypt`: encryption
/// is deterministic in key, nonce and plaintext, appends a 16-byte tag, and
/// succeeds whenever the plaintext is within the cipher's length bound.
#[verifier::external_body]
fn aead_encrypt(key: &[u8], nonce: &[u8], plaintext: &[u8]) -> (r: Vec<u8>)
    requires
        key@.len() == 32,
        nonce@.len() == 12,
        plaintext@.len() <= 0xFFFF_FFFF,
    ensures
        r@ == aead_enc(key@, nonce@, plaintext@),
        r@.len() == plaintext@.len() + 16,
{
    let cipher = Aes256Gcm::new_from_slice(key).unwrap();
    cipher.encrypt(Nonce::from_slice(nonce), plaintext).unwrap()
}

/// Relies on `aes_gcm::Aes256Gcm` through `aead::Aead::decrypt`: decryption
/// inverts encryption under the same key and nonce, and it succeeds only when
/// the tag it recomputes over the ciphertext matches, which makes the
/// ciphertext the encryption of what it returns.
#[verifier::external_body]
fn aead_decrypt(key: &[u8], nonce: &[u8], ciphertext: &[u8]) -> (r: Option<Vec<u8>>)
    requires
        key@.len() == 32,
        nonce@.len() == 12,
    ensures
        r is None ==> forall|pt: Seq<u8>| ciphertext@ != #[trigger] aead_enc(key@, nonce@, pt),
        r matches Some(x) ==> ciphertext@ == aead_enc(key@, nonce@, x@) && forall|pt: Seq<u8>|
            ciphertext@ == #[trigger] aead_enc(key@, nonce@, pt) ==> pt == x@,
{
    let cipher = Aes256Gcm::new_from_slice(key).unwrap();
    match cipher.decrypt(Nonce::from_slice(nonce), ciphertext) {
        Ok(pt) => Some(pt),
        Err(_) => None,
    }
}

/// The symmetric key a master passphrase derives to: one SHA-256 of its
/// UTF-8 bytes, with no salt and no stretching.
pub open spec fn key_of(passphrase: Seq<char>) -> Seq<u8> {
    sha256_of(encode_utf8(passphrase))
}

/// An entry name's bytes normalized to exactly 12: truncated, or right-padded
/// with ASCII spaces.
pub open spec fn norm12(b: Seq<u8>) -> Seq<u8> {
    if b.len() >= 12 {
        b.take(12)
    } else {
        b + Seq::new((12 - b.len()) as nat, |i: int| 32u8)
    }
}

/// The nonce an entry name derives to: the first 12 bytes of a SHA-256 of the
/// name's UTF-8 bytes normalized to 12 bytes. Deterministic, so the same name
/// always reproduces the same nonce; names whose normalized forms collide
/// share a nonce, a documented weakness of the format kept as it is.
pub open spec fn nonce_of(name: Seq<char>) -> Seq<u8> {
    sha256_of(norm12(encode_utf8(name))).take(12)
}

/// The stored text of an entry: the lowercase hex of the AEAD ciphertext of
/// the serialized record, under the name's nonce and the passphrase's key.
pub open spec fn stored_of(
    name: Seq<char>,
    username: Seq<char>,
    password: Seq<char>,
    passphrase: Seq<char>,
) -> Seq<u8> {
    hex_text(aead_enc(key_of(passphrase), nonce_of(name), encode_utf8(serialize_chars(username, password))))
}

/// True when a record's serialized form is within the cipher's plaintext
/// length bound, so that encrypting it cannot fail.
pub open spec fn fits_cipher(username: Seq<char>, password: Seq<char>) -> bool {
    encode_utf8(serialize_chars(username, password)).len() <= 0xFFFF_FFFF
}

/// Derive the symmetric key from the master passphrase.
pub fn derive_key(passphrase: &str) -> (r: Vec<u8>)
    ensures
        r@ == key_of(passphrase@),
        r@.len() == 32,
{
    sha256(passphrase.as_bytes())
}

/// Derive the nonce from the entry name.
pub fn derive_nonce(name: &str) -> (r: Vec<u8>)
    ensures
        r@ == nonce_of(name@),
        r@.len() == 12,
{
    let mut nb = name.as_bytes_vec();
    let ghost orig = nb@;
    if nb.len() >= 12 {
        nb.truncate(12);
    } else {
        while nb.len() < 12
            invariant
                orig.len() < 12,
                orig.len() <= nb@.len() <= 12,
                nb@.take(orig.len() as int) == orig,
                forall|j: int| orig.len() <= j < nb@.len() ==> nb@[j] == 32u8,
            decreases 12 - nb@.len(),
        {
            nb.push(32);
            proof {
                assert(nb@.take(orig.len() as int) =~= orig);
            }
        }
    }
    proof {
        assert(nb@ =~= norm12(orig));
    }
    let h = sha256(nb.as_slice());
    let first = slice_to_vec(slice_subrange(h.as_slice(), 0, 12));
    proof {
        assert(first@ =~= nonce_of(name@));
    }
    first
}

/// Encrypt one entry record under its name's nonce and the passphrase's key,
/// and return the stored text: the lowercase hex of the ciphertext.
///
/// Deterministic: the result is a function of name, record and passphrase,
/// so encrypting the same record under the same name twice yields the same
/// text.
pub fn encrypt_entry(name: &str, record: &EntryRecord, passphrase: &str) -> (r: Vec<u8>)
    requires
        fits_cipher(record.username@, record.password@),
    ensures
        r@ == stored_of(name@, record.username@, record.password@, passphrase@),
        is_hex_text(r@),
{
    let key = derive_key(passphrase);
    let nonce = derive_nonce(name);
    let serialized = serialize(record);
    let pt = serialized.as_str().as_bytes_vec();
    let ct = aead_encrypt(key.as_slice(), nonce.as_slice(), pt.as_slice());
    proof {
        lemma_hex_round_trip(ct@);
    }
    to_storage_text(&ct)
}

/// Decrypt one stored text back to its entry record.
///
/// Succeeds on exactly the texts this module's encryption produces for this
/// name and passphrase from a record with a `;`-free username, and then
/// returns that record. A text that is not lowercase hex is
/// `MalformedEncoding`; one whose ciphertext was not produced under this key
/// and nonce — a wrong passphrase, a tampered file, a file stored under
/// another name — is `AuthenticationFailure`; a payload that is not UTF-8
/// with a `;` is `MalformedRecord`. A failure never returns partial
/// plaintext.
pub fn decrypt_entry(name: &str, stored: &Vec<u8>, passphrase: &str) -> (r: Result<
    EntryRecord,
    VaultError,
>)
    ensures
        r matches Ok(rec) ==> !rec.username@.contains(';') && stored@ == stored_of(
            name@,
            rec.username@,
            rec.password@,
            passphrase@,
        ),
        forall|u: Seq<char>, p: Seq<char>|
            !u.contains(';') && stored@ == #[trigger] stored_of(name@, u, p, passphrase@)
                ==> (r matches Ok(rec) && rec.username@ == u && rec.password@ == p),
        !is_hex_text(stored@) <==> r == Err::<EntryRecord, VaultError>(
            VaultError::MalformedEncoding,
        ),
        r is Err ==> (r == Err::<EntryRecord, VaultError>(VaultError::MalformedEncoding) || r
            == Err::<EntryRecord, VaultError>(VaultError::AuthenticationFailure) || r == Err::<
            EntryRecord,
            VaultError,
        >(VaultError::MalformedRecord)),
{
    let key = derive_key(passphrase);
    let nonce = derive_nonce(name);
    let ct = match from_storage_text(stored) {
        Ok(c) => c,
        Err(e) => {
            proof {
                assert forall|u: Seq<char>, p: Seq<char>|
                    !u.contains(';') && stored@ == #[trigger] stored_of(name@, u, p, passphrase@)
                    implies false by {
                    lemma_hex_round_trip(
                        aead_enc(
                            key_of(passphrase@),
                            nonce_of(name@),
                            encode_utf8(serialize_chars(u, p)),
                        ),
                    );
                };
            }
            return Err(e);
        },
    };
    let pt = match aead_decrypt(key.as_slice(), nonce.as_slice(), ct.as_slice()) {
        Some(p) => p,
        None => {
            proof {
                assert forall|u: Seq<char>, p: Seq<char>|
                    !u.contains(';') && stored@ == #[trigger] stored_of(name@, u, p, passphrase@)
                    implies false by {
                    lemma_hex_round_trip(
                        aead_enc(
                            key_of(passphrase@),
                            nonce_of(name@),
                            encode_utf8(serialize_chars(u, p)),
                        ),
                    );
                };
            }
            return Err(VaultError::AuthenticationFailure);
        },
    };
    let ghost ptv = pt@;
    let s = match bytes_to_string(pt) {
        Some(s) => s,
        None => {
            proof {
                assert forall|u: Seq<char>, p: Seq<char>|
                    !u.contains(';') && stored@ == #[trigger] stored_of(name@, u, p, passphrase@)
                    implies false by {
                    lemma_hex_round_trip(
                        aead_enc(
                            key_of(passphrase@),
                            nonce_of(name@),
                            encode_utf8(serialize_chars(u, p)),
                        ),
                    );
                    encode_utf8_valid_utf8(serialize_chars(u, p));
                };
            }
            return Err(VaultError::MalformedRecord);
        },
    };
    match deserialize(s.as_str()) {
        Ok(rec) => {
            proof {
                lemma_hex_text_canonical(stored@);
                assert(stored@ == stored_of(
                    name@,
                    rec.username@,
                    rec.password@,
                    passphrase@,
                ));
                assert forall|u: Seq<char>, p: Seq<char>|
                    !u.contains(';') && stored@ == #[trigger] stored_of(name@, u, p, passphrase@)
                    implies rec.username@ == u && rec.password@ == p by {
                    lemma_hex_round_trip(
                        aead_enc(
                            key_of(passphrase@),
                            nonce_of(name@),
                            encode_utf8(serialize_chars(u, p)),
                        ),
                    );
                    lemma_encode_utf8_injective(s@, serialize_chars(u, p));
                    lemma_serialize_chars_injective(rec.username@, rec.password@, u, p);
                };
            }
            Ok(rec)
        },
        Err(_) => {
            proof {
                assert forall|u: Seq<char>, p: Seq<char>|
                    !u.contains(';') && stored@ == #[trigger] stored_of(name@, u, p, passphrase@)
                    implies false by {
                    lemma_hex_round_trip(
                        aead_enc(
                            key_of(passphrase@),
                            nonce_of(name@),
                            encode_utf8(serialize_chars(u, p)),
                        ),
                    );
                    lemma_encode_utf8_injective(s@, serialize_chars(u, p));
                    assert(s@.contains(';')) by {
                        assert(serialize_chars(u, p)[u.len() as int] == ';');
                    };
                };
            }
            Err(VaultError::MalformedRecord)
        },
    }
}

} // verus!
