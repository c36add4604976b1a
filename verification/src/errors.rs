//! The errors the store can report.

use vstd::prelude::*;

verus! {

/// Everything that can go wrong in the store.
///
/// - `DuplicateEntry`: the target name of a `create` or `rename` already
///   holds an entry.
/// - `NotFound`: the named entry does not exist.
/// - `AuthenticationFailure`: the ciphertext was not produced under this
///   key and nonce — a wrong master passphrase, or a tampered entry.
/// - `MalformedEncoding`: a stored text is not valid hex.
/// - `MalformedRecord`: a decrypted payload holds no field separator, or is
///   not valid UTF-8.
/// - `MalformedArchive`: an archive blob does not decompress, or does not
///   split into (name, hex ciphertext) line pairs.
#[derive(Clone, Copy, Debug, PartialEq, Eq, Structural)]
pub enum VaultError {
    DuplicateEntry,
    NotFound,
    AuthenticationFailure,
    MalformedEncoding,
    MalformedRecord,
    MalformedArchive,
}

impl VaultError {
    /// A short description, for callers that print errors.
    pub fn describe(&self) -> (r: &'static str)
        ensures
            r@.len() > 0,
    {
        proof {
            reveal_strlit("an entry with that name already exists");
            reveal_strlit("no entry with that name");
            reveal_strlit("wrong master password or corrupted entry");
            reveal_strlit("stored entry is not valid hex text");
            reveal_strlit("decrypted entry is not a username;password record");
            reveal_strlit("archive is not a sequence of name and ciphertext line pairs");
        }
        match self {
            VaultError::DuplicateEntry => "an entry with that name already exists",
            VaultError::NotFound => "no entry with that name",
            VaultError::AuthenticationFailure => "wrong master password or corrupted entry",
            VaultError::MalformedEncoding => "stored entry is not valid hex text",
            VaultError::MalformedRecord => "decrypted entry is not a username;password record",
            VaultError::MalformedArchive => "archive is not a sequence of name and ciphertext line pairs",
        }
    }
}

} // verus!
