use vstd::prelude::*;

pub mod codec;
pub mod crypto;
pub mod keygen;
pub mod laws;
pub mod keystore;

verus! {

/// Reasons a keystore operation can fail.
#[derive(Clone, Copy, Debug, PartialEq, Eq, Structural)]
pub enum KeystoreError {
    /// A seed or keybundle name is already taken in this keystore.
    DuplicateName,
    /// The named seed does not exist.
    SeedNotFound,
    /// The named keybundle does not exist.
    NotFound,
    /// The system's entropy source failed.
    EntropyFailure,
    /// Encrypting the serialized keystore failed.
    EncryptionFailure,
    /// Wrong passphrase, or a tampered or truncated payload.
    DecryptionError,
    /// The payload decrypted but its structure is malformed.
    CorruptFileError,
}

} // verus!
