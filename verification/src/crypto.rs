//! Trusted boundary to the cryptographic primitives.
//!
//! Every function here is a thin wrapper around one outside call. The result
//! of each deterministic primitive is given a name (an uninterpreted spec
//! function of the arguments alone); the rest of the library reasons about
//! those names, never about the algorithms themselves.

use vstd::prelude::*;
use chacha20poly1305::aead::Aead;
use chacha20poly1305::KeyInit;

verus! {

/// The symmetric key that the passphrase KDF derives from a passphrase
/// (as UTF-8 bytes) and a salt.
pub uninterp spec fn kdf_of(pass: Seq<u8>, salt: Seq<u8>) -> Seq<u8>;

/// The ciphertext (with its authentication tag) that the authenticated
/// cipher produces for a key, a nonce and a plaintext.
pub uninterp spec fn aead_enc(key: Seq<u8>, nonce: Seq<u8>, pt: Seq<u8>) -> Seq<u8>;

/// The 32 bytes that the HKDF expansion derives from input key material
/// and a domain-separation info label.
pub uninterp spec fn expand_of(ikm: Seq<u8>, info: Seq<u8>) -> Seq<u8>;

/// The public key determined by 32 bytes of signing-key secret material.
pub uninterp spec fn pubkey_of(secret: Seq<u8>) -> Seq<u8>;

/// The base58 text encoding of a byte string.
pub uninterp spec fn b58_of(bytes: Seq<u8>) -> Seq<char>;

/// Relies on getrandom::fill: fills the buffer with bytes from the operating
/// system's secure entropy source, or reports failure.
#[verifier::external_body]
pub(crate) fn random_bytes(len: usize) -> (r: Option<Vec<u8>>)
    ensures
        r is Some ==> r->0@.len() == len as nat,
{
    let mut buf: Vec<u8> = vec![0u8; len];
    match getrandom::fill(&mut buf) {
        Ok(()) => Some(buf),
        Err(_) => None,
    }
}

/// Relies on Argon2::hash_password_into with the crate's default parameters:
/// a memory-hard KDF whose output is a deterministic function of the
/// password and the salt, filling the whole 32-byte output buffer. It
/// rejects only passwords or salts outside its documented size limits
/// (salts must be at least 8 bytes), which the preconditions rule out.
#[verifier::external_body]
pub(crate) fn kdf_derive_key(pass: &[u8], salt: &[u8]) -> (r: Vec<u8>)
    requires
        salt@.len() == 16,
        pass@.len() <= 0xFFFFFFFE,
    ensures
        r@ == kdf_of(pass@, salt@),
        r@.len() == 32,
{
    let mut out: Vec<u8> = vec![0u8; 32];
    argon2::Argon2::default()
        .hash_password_into(pass, salt, &mut out)
        .expect("argon2 accepts a 16-byte salt and a 32-byte output");
    out
}

/// Relies on ChaCha20Poly1305::encrypt: for a given key and nonce the
/// ciphertext is a deterministic function of the plaintext, and encryption
/// succeeds for any plaintext below the cipher's block-count limit.
#[verifier::external_body]
pub(crate) fn aead_encrypt(key: &[u8], nonce: &[u8], pt: &[u8]) -> (r: Option<Vec<u8>>)
    requires
        key@.len() == 32,
        nonce@.len() == 12,
    ensures
        r is Some ==> r->0@ == aead_enc(key@, nonce@, pt@),
        pt@.len() < 0x100000000 ==> r is Some,
{
    let cipher = chacha20poly1305::ChaCha20Poly1305::new_from_slice(key)
        .expect("the key is 32 bytes");
    let mut n = [0u8; 12];
    n.copy_from_slice(nonce);
    let nonce = chacha20poly1305::Nonce::from(n);
    cipher.encrypt(&nonce, pt).ok()
}

/// Relies on ChaCha20Poly1305::decrypt: it verifies the authentication tag
/// and inverts encryption, so it returns exactly the plaintext that was
/// encrypted under the same key and nonce, and whatever it does return
/// re-encrypts to the given ciphertext.
#[verifier::external_body]
pub(crate) fn aead_decrypt(key: &[u8], nonce: &[u8], ct: &[u8]) -> (r: Option<Vec<u8>>)
    requires
        key@.len() == 32,
        nonce@.len() == 12,
    ensures
        forall|pt: Seq<u8>| ct@ == aead_enc(key@, nonce@, pt) ==> (r is Some && r->0@ == pt),
        r is Some ==> ct@ == aead_enc(key@, nonce@, r->0@),
{
    let cipher = chacha20poly1305::ChaCha20Poly1305::new_from_slice(key)
        .expect("the key is 32 bytes");
    let mut n = [0u8; 12];
    n.copy_from_slice(nonce);
    let nonce = chacha20poly1305::Nonce::from(n);
    cipher.decrypt(&nonce, ct).ok()
}

/// Relies on Hkdf::<Sha256>::expand: a deterministic one-way expansion of
/// the input key material under an info label; 32 bytes is always a valid
/// output length for it.
#[verifier::external_body]
pub(crate) fn hkdf_expand32(ikm: &[u8], info: &[u8]) -> (r: Vec<u8>)
    ensures
        r@ == expand_of(ikm@, info@),
        r@.len() == 32,
{
    let hk = hkdf::Hkdf::<sha2::Sha256>::new(None, ikm);
    let mut out: Vec<u8> = vec![0u8; 32];
    hk.expand(info, &mut out)
        .expect("32 bytes is within the hkdf output limit");
    out
}

/// Relies on ed25519_dalek::SigningKey::from_bytes and verifying_key: the
/// 32-byte public key is a deterministic function of the 32 secret bytes.
#[verifier::external_body]
pub(crate) fn signing_public_key(secret: &[u8]) -> (r: Vec<u8>)
    requires
        secret@.len() == 32,
    ensures
        r@ == pubkey_of(secret@),
        r@.len() == 32,
{
    let mut sk = [0u8; 32];
    sk.copy_from_slice(secret);
    let signing = ed25519_dalek::SigningKey::from_bytes(&sk);
    signing.verifying_key().to_bytes().to_vec()
}

/// Relies on bs58::encode: a deterministic base58 text form of the input,
/// non-empty whenever the input is non-empty.
#[verifier::external_body]
pub(crate) fn base58_encode(bytes: &[u8]) -> (r: String)
    ensures
        r@ == b58_of(bytes@),
        bytes@.len() > 0 ==> r@.len() > 0,
{
    bs58::encode(bytes).into_string()
}

/// Relies on std's str::from_utf8: it succeeds exactly on valid UTF-8 and
/// returns the string those bytes encode.
#[verifier::external_body]
pub(crate) fn bytes_to_string(bytes: &[u8]) -> (r: Option<String>)
    ensures
        r is Some <==> vstd::utf8::valid_utf8(bytes@),
        r is Some ==> vstd::utf8::encode_utf8(r->0@) == bytes@,
{
    match core::str::from_utf8(bytes) {
        Ok(s) => Some(s.to_owned()),
        Err(_) => None,
    }
}

} // verus!
