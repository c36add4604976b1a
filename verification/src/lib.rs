//! A small file-backed secret store: each named entry holds a
//! username/password pair, encrypted under a key derived from a master
//! passphrase that the caller supplies at every access.
//!
//! This crate is the storage engine alone: key and nonce derivation,
//! authenticated encryption of entry payloads, the hex text form entries are
//! stored in, the in-memory vault that maps entry names to stored texts, and
//! the archive format used for bulk export and import. Reading and writing
//! the actual files, prompting for the passphrase, and the command line
//! around it all live with the caller.

pub mod archive;
pub mod codec;
pub mod crypto;
mod errors;
pub mod vault;

pub use codec::EntryRecord;
pub use errors::VaultError;
pub use vault::{StoredEntry, Vault};
