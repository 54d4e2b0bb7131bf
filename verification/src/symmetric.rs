//! Symmetric primitives of the memo format: Keccak-256 for key derivation,
//! ChaCha20-Poly1305 under the fixed nonce for single-use keys, and
//! XChaCha20-Poly1305 for the shared-secret block.
use chacha20poly1305::aead::{Aead, NewAead};
use chacha20poly1305::{ChaCha20Poly1305, Key, Nonce, XChaCha20Poly1305, XNonce};
use sha3::{Digest, Keccak256};
use vstd::prelude::*;

verus! {

/// Size in bytes of a 256-bit value (keys, digests).
pub const U256_SIZE: usize = 32;

/// Size in bytes of a Poly1305 authentication tag.
pub const POLY_1305_TAG_SIZE: usize = 16;

/// Size in bytes of a ChaCha20-Poly1305 nonce.
pub const CHACHA20_POLY1305_NONCE_SIZE: usize = 12;

/// Size in bytes of an XChaCha20-Poly1305 nonce.
pub const XCHACHA20_POLY1305_NONCE_SIZE: usize = 24;

/// The nonce used with keys that encrypt a single message.
pub open spec fn spec_encryption_nonce() -> Seq<u8> {
    Seq::new(12, |i: int| 0u8)
}

/// The fixed nonce, as bytes.
pub fn encryption_nonce() -> (nonce: Vec<u8>)
    ensures
        nonce@ == spec_encryption_nonce(),
{
    let mut nonce: Vec<u8> = Vec::new();
    let mut i: usize = 0;
    while i < CHACHA20_POLY1305_NONCE_SIZE
        invariant
            i <= CHACHA20_POLY1305_NONCE_SIZE,
            nonce@ == Seq::new(i as nat, |j: int| 0u8),
        decreases CHACHA20_POLY1305_NONCE_SIZE - i,
    {
        nonce.push(0u8);
        i = i + 1;
        assert(nonce@ =~= Seq::new(i as nat, |j: int| 0u8));
    }
    nonce
}

/// Keccak-256 digest of `data`, as computed by the `sha3` crate.
pub uninterp spec fn spec_keccak256(data: Seq<u8>) -> Seq<u8>;

/// ChaCha20-Poly1305 encryption (ciphertext followed by the tag), empty
/// associated data, as computed by the `chacha20poly1305` crate.
pub uninterp spec fn spec_chacha20poly1305_encrypt(key: Seq<u8>, nonce: Seq<u8>, data: Seq<u8>) -> Seq<u8>;

/// ChaCha20-Poly1305 decryption with empty associated data: the plaintext, or
/// `None` when the tag does not authenticate the ciphertext.
pub uninterp spec fn spec_chacha20poly1305_decrypt(key: Seq<u8>, nonce: Seq<u8>, ciphertext: Seq<u8>) -> Option<Seq<u8>>;

/// XChaCha20-Poly1305 encryption with empty associated data.
pub uninterp spec fn spec_xchacha20poly1305_encrypt(key: Seq<u8>, nonce: Seq<u8>, data: Seq<u8>) -> Seq<u8>;

/// XChaCha20-Poly1305 decryption with empty associated data.
pub uninterp spec fn spec_xchacha20poly1305_decrypt(key: Seq<u8>, nonce: Seq<u8>, ciphertext: Seq<u8>) -> Option<Seq<u8>>;

/// The view of an optional byte vector.
pub open spec fn opt_bytes(v: Option<Vec<u8>>) -> Option<Seq<u8>> {
    match v {
        Some(b) => Some(b@),
        None => None,
    }
}

/// The largest message the stream cipher accepts: fewer than `u32::MAX`
/// blocks of 64 bytes.
pub open spec fn message_fits(len: nat) -> bool {
    len / 64 < 0xffff_ffffnat
}

/// Calls `<Keccak256 as Digest>::digest` of the `sha3` crate. The contract
/// names the digest and states its size, 32 bytes (the `U32` output size that
/// the crate declares for Keccak-256).
#[verifier::external_body]
fn keccak256_digest(data: &[u8]) -> (digest: Vec<u8>)
    ensures
        digest@ == spec_keccak256(data@),
        digest@.len() == U256_SIZE,
{
    Keccak256::digest(data).to_vec()
}

/// Calls `Aead::encrypt` of `ChaCha20Poly1305` (crate `chacha20poly1305`)
/// with empty associated data. The contract claims what the crate's source
/// shows: the call succeeds for messages of fewer than `u32::MAX` blocks, the
/// output is the message length plus the 16-byte tag, and decryption under the
/// same key and nonce gives the message back. The bytes themselves are named.
#[verifier::external_body]
fn chacha20poly1305_encrypt(key: &[u8], nonce: &[u8], data: &[u8]) -> (ciphertext: Vec<u8>)
    requires
        key@.len() == U256_SIZE,
        nonce@.len() == CHACHA20_POLY1305_NONCE_SIZE,
        message_fits(data@.len()),
    ensures
        ciphertext@ == spec_chacha20poly1305_encrypt(key@, nonce@, data@),
        ciphertext@.len() == data@.len() + POLY_1305_TAG_SIZE,
        spec_chacha20poly1305_decrypt(key@, nonce@, ciphertext@) == Some(data@),
{
    ChaCha20Poly1305::new(Key::from_slice(key)).encrypt(Nonce::from_slice(nonce), data).unwrap()
}

/// Calls `Aead::decrypt` of `ChaCha20Poly1305` (crate `chacha20poly1305`)
/// with empty associated data. The result is named; on success the plaintext
/// is 16 bytes shorter than the ciphertext (the crate truncates the tag), and a
/// ciphertext shorter than a tag fails.
#[verifier::external_body]
fn chacha20poly1305_decrypt(key: &[u8], nonce: &[u8], ciphertext: &[u8]) -> (plaintext: Option<Vec<u8>>)
    requires
        key@.len() == U256_SIZE,
        nonce@.len() == CHACHA20_POLY1305_NONCE_SIZE,
    ensures
        opt_bytes(plaintext) == spec_chacha20poly1305_decrypt(key@, nonce@, ciphertext@),
        plaintext matches Some(p) ==> p@.len() + POLY_1305_TAG_SIZE == ciphertext@.len(),
        ciphertext@.len() < POLY_1305_TAG_SIZE ==> plaintext is None,
{
    ChaCha20Poly1305::new(Key::from_slice(key)).decrypt(Nonce::from_slice(nonce), ciphertext).ok()
}

/// Calls `Aead::encrypt` of `XChaCha20Poly1305` (crate `chacha20poly1305`)
/// with empty associated data; the same claims as for ChaCha20-Poly1305,
/// with a 24-byte nonce.
#[verifier::external_body]
fn xchacha20poly1305_encrypt(key: &[u8], nonce: &[u8], data: &[u8]) -> (ciphertext: Vec<u8>)
    requires
        key@.len() == U256_SIZE,
        nonce@.len() == XCHACHA20_POLY1305_NONCE_SIZE,
        message_fits(data@.len()),
    ensures
        ciphertext@ == spec_xchacha20poly1305_encrypt(key@, nonce@, data@),
        ciphertext@.len() == data@.len() + POLY_1305_TAG_SIZE,
        spec_xchacha20poly1305_decrypt(key@, nonce@, ciphertext@) == Some(data@),
{
    XChaCha20Poly1305::new(Key::from_slice(key)).encrypt(XNonce::from_slice(nonce), data).unwrap()
}

/// Calls `Aead::decrypt` of `XChaCha20Poly1305` (crate `chacha20poly1305`)
/// with empty associated data; the result is named.
#[verifier::external_body]
fn xchacha20poly1305_decrypt(key: &[u8], nonce: &[u8], ciphertext: &[u8]) -> (plaintext: Option<Vec<u8>>)
    requires
        key@.len() == U256_SIZE,
        nonce@.len() == XCHACHA20_POLY1305_NONCE_SIZE,
    ensures
        opt_bytes(plaintext) == spec_xchacha20poly1305_decrypt(key@, nonce@, ciphertext@),
        plaintext matches Some(p) ==> p@.len() + POLY_1305_TAG_SIZE == ciphertext@.len(),
        ciphertext@.len() < POLY_1305_TAG_SIZE ==> plaintext is None,
{
    XChaCha20Poly1305::new(Key::from_slice(key)).decrypt(XNonce::from_slice(nonce), ciphertext).ok()
}

/// Keccak-256 of `data`.
pub fn keccak256(data: &[u8]) -> (digest: Vec<u8>)
    ensures
        digest@ == spec_keccak256(data@),
        digest@.len() == U256_SIZE,
{
    keccak256_digest(data)
}

/// ChaCha20-Poly1305 under the fixed nonce, as the constant-nonce scheme uses it.
pub open spec fn spec_encrypt_constant_nonce(key: Seq<u8>, data: Seq<u8>) -> Seq<u8> {
    spec_chacha20poly1305_encrypt(key, spec_encryption_nonce(), data)
}

/// Decryption under the fixed nonce; a ciphertext shorter than a tag never
/// decrypts.
pub open spec fn spec_decrypt_constant_nonce(key: Seq<u8>, ciphertext: Seq<u8>) -> Option<Seq<u8>> {
    if ciphertext.len() < POLY_1305_TAG_SIZE {
        None
    } else {
        spec_chacha20poly1305_decrypt(key, spec_encryption_nonce(), ciphertext)
    }
}

/// XChaCha20-Poly1305 decryption; a ciphertext shorter than a tag never
/// decrypts.
pub open spec fn spec_decrypt_xchacha(key: Seq<u8>, nonce: Seq<u8>, ciphertext: Seq<u8>) -> Option<Seq<u8>> {
    if ciphertext.len() < POLY_1305_TAG_SIZE {
        None
    } else {
        spec_xchacha20poly1305_decrypt(key, nonce, ciphertext)
    }
}

/// Encrypts `data` under `key` with the fixed nonce. Each key must encrypt a
/// single message only: the nonce never changes.
pub fn encrypt_chacha_constant_nonce(key: &[u8], data: &[u8]) -> (ciphertext: Vec<u8>)
    requires
        key@.len() == U256_SIZE,
        message_fits(data@.len()),
    ensures
        ciphertext@ == spec_encrypt_constant_nonce(key@, data@),
        ciphertext@ == spec_chacha20poly1305_encrypt(key@, Seq::new(12, |i: int| 0u8), data@),
        ciphertext@.len() == data@.len() + POLY_1305_TAG_SIZE,
        spec_decrypt_constant_nonce(key@, ciphertext@) == Some(data@),
{
    let nonce = encryption_nonce();
    chacha20poly1305_encrypt(key, nonce.as_slice(), data)
}

/// Decrypts a ciphertext made by [`encrypt_chacha_constant_nonce`]; `None`
/// when it does not authenticate under `key`.
pub fn decrypt_chacha_constant_nonce(key: &[u8], ciphertext: &[u8]) -> (plaintext: Option<Vec<u8>>)
    requires
        key@.len() == U256_SIZE,
    ensures
        opt_bytes(plaintext) == spec_decrypt_constant_nonce(key@, ciphertext@),
        ciphertext@.len() >= POLY_1305_TAG_SIZE ==> opt_bytes(plaintext)
            == spec_chacha20poly1305_decrypt(key@, Seq::new(12, |i: int| 0u8), ciphertext@),
        plaintext matches Some(p) ==> p@.len() + POLY_1305_TAG_SIZE == ciphertext@.len(),
        ciphertext@.len() < POLY_1305_TAG_SIZE ==> plaintext is None,
{
    let nonce = encryption_nonce();
    chacha20poly1305_decrypt(key, nonce.as_slice(), ciphertext)
}

/// Encrypts `data` with XChaCha20-Poly1305. The (key, nonce) pair must be
/// used for a single message.
pub fn encrypt_xchacha(key: &[u8], nonce: &[u8], data: &[u8]) -> (ciphertext: Vec<u8>)
    requires
        key@.len() == U256_SIZE,
        nonce@.len() == XCHACHA20_POLY1305_NONCE_SIZE,
        message_fits(data@.len()),
    ensures
        ciphertext@ == spec_xchacha20poly1305_encrypt(key@, nonce@, data@),
        ciphertext@.len() == data@.len() + POLY_1305_TAG_SIZE,
        spec_decrypt_xchacha(key@, nonce@, ciphertext@) == Some(data@),
{
    xchacha20poly1305_encrypt(key, nonce, data)
}

/// Decrypts an XChaCha20-Poly1305 ciphertext; `None` when it does not
/// authenticate.
pub fn decrypt_xchacha(key: &[u8], nonce: &[u8], ciphertext: &[u8]) -> (plaintext: Option<Vec<u8>>)
    requires
        key@.len() == U256_SIZE,
        nonce@.len() == XCHACHA20_POLY1305_NONCE_SIZE,
    ensures
        opt_bytes(plaintext) == spec_decrypt_xchacha(key@, nonce@, ciphertext@),
        plaintext matches Some(p) ==> p@.len() + POLY_1305_TAG_SIZE == ciphertext@.len(),
        ciphertext@.len() < POLY_1305_TAG_SIZE ==> plaintext is None,
{
    xchacha20poly1305_decrypt(key, nonce, ciphertext)
}

} // verus!
