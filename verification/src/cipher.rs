//! Decryption and validation of a single account or note.
use crate::params::PoolParams;
use crate::symmetric::{
    decrypt_chacha_constant_nonce, spec_chacha20poly1305_decrypt, spec_decrypt_constant_nonce,
    U256_SIZE,
};
use vstd::prelude::*;

verus! {

/// The account encoded in the decryption of `ciphertext` under `symkey`, if
/// the ciphertext authenticates and its plaintext encodes an account.
pub open spec fn spec_decrypt_account_no_validate<P: PoolParams>(
    params: &P,
    symkey: Seq<u8>,
    ciphertext: Seq<u8>,
) -> Option<Seq<u8>> {
    match spec_decrypt_constant_nonce(symkey, ciphertext) {
        Some(plain) => if params.spec_account_hash(plain) is Some {
            Some(plain)
        } else {
            None
        },
        None => None,
    }
}

/// As [`spec_decrypt_account_no_validate`], and the account hashes to `hash`.
pub open spec fn spec_decrypt_account<P: PoolParams>(
    params: &P,
    symkey: Seq<u8>,
    ciphertext: Seq<u8>,
    hash: Seq<u8>,
) -> Option<Seq<u8>> {
    match spec_decrypt_account_no_validate(params, symkey, ciphertext) {
        Some(plain) => if params.spec_account_hash(plain) == Some(hash) {
            Some(plain)
        } else {
            None
        },
        None => None,
    }
}

/// The note encoded in the decryption of `ciphertext` under `symkey`, if
/// the ciphertext authenticates and its plaintext encodes a note.
pub open spec fn spec_decrypt_note_no_validate<P: PoolParams>(
    params: &P,
    symkey: Seq<u8>,
    ciphertext: Seq<u8>,
) -> Option<Seq<u8>> {
    match spec_decrypt_constant_nonce(symkey, ciphertext) {
        Some(plain) => if params.spec_note_hash(plain) is Some {
            Some(plain)
        } else {
            None
        },
        None => None,
    }
}

/// As [`spec_decrypt_note_no_validate`], and the note hashes to `hash`.
pub open spec fn spec_decrypt_note<P: PoolParams>(
    params: &P,
    symkey: Seq<u8>,
    ciphertext: Seq<u8>,
    hash: Seq<u8>,
) -> Option<Seq<u8>> {
    match spec_decrypt_note_no_validate(params, symkey, ciphertext) {
        Some(plain) => if params.spec_note_hash(plain) == Some(hash) {
            Some(plain)
        } else {
            None
        },
        None => None,
    }
}

/// Decrypts an account (its encoding) and checks that it hashes to `hash`.
pub fn decrypt_account<P: PoolParams>(symkey: &[u8], ciphertext: &[u8], hash: &[u8], params: &P) -> (account: Option<Vec<u8>>)
    requires
        symkey@.len() == U256_SIZE,
    ensures
        crate::symmetric::opt_bytes(account) == spec_decrypt_account(params, symkey@, ciphertext@, hash@),
        account matches Some(p) ==> params.spec_account_hash(p@) == Some(hash@)
            && spec_chacha20poly1305_decrypt(symkey@, Seq::new(12, |i: int| 0u8), ciphertext@) == Some(
            p@,
        ),
{
    match decrypt_account_no_validate(symkey, ciphertext, params) {
        Some(acc) => {
            match params.account_hash(acc.as_slice()) {
                Some(h) => {
                    if bytes_eq(h.as_slice(), hash) {
                        Some(acc)
                    } else {
                        None
                    }
                },
                None => None,
            }
        },
        None => None,
    }
}

/// Decrypts an account (its encoding) without checking its hash.
pub fn decrypt_account_no_validate<P: PoolParams>(symkey: &[u8], ciphertext: &[u8], params: &P) -> (account: Option<Vec<u8>>)
    requires
        symkey@.len() == U256_SIZE,
    ensures
        crate::symmetric::opt_bytes(account) == spec_decrypt_account_no_validate(params, symkey@, ciphertext@),
        account matches Some(p) ==> params.spec_account_hash(p@) is Some
            && spec_chacha20poly1305_decrypt(symkey@, Seq::new(12, |i: int| 0u8), ciphertext@) == Some(
            p@,
        ),
{
    match decrypt_chacha_constant_nonce(symkey, ciphertext) {
        Some(plain) => {
            match params.account_hash(plain.as_slice()) {
                Some(_) => Some(plain),
                None => None,
            }
        },
        None => None,
    }
}

/// Decrypts a note (its encoding) and checks that it hashes to `hash`.
pub fn decrypt_note<P: PoolParams>(symkey: &[u8], ciphertext: &[u8], hash: &[u8], params: &P) -> (note: Option<Vec<u8>>)
    requires
        symkey@.len() == U256_SIZE,
    ensures
        crate::symmetric::opt_bytes(note) == spec_decrypt_note(params, symkey@, ciphertext@, hash@),
        note matches Some(p) ==> params.spec_note_hash(p@) == Some(hash@)
            && spec_chacha20poly1305_decrypt(symkey@, Seq::new(12, |i: int| 0u8), ciphertext@) == Some(
            p@,
        ),
{
    match decrypt_note_no_validate(symkey, ciphertext, params) {
        Some(note) => {
            match params.note_hash(note.as_slice()) {
                Some(h) => {
                    if bytes_eq(h.as_slice(), hash) {
                        Some(note)
                    } else {
                        None
                    }
                },
                None => None,
            }
        },
        None => None,
    }
}

/// Decrypts a note (its encoding) without checking its hash.
pub fn decrypt_note_no_validate<P: PoolParams>(symkey: &[u8], ciphertext: &[u8], params: &P) -> (note: Option<Vec<u8>>)
    requires
        symkey@.len() == U256_SIZE,
    ensures
        crate::symmetric::opt_bytes(note) == spec_decrypt_note_no_validate(params, symkey@, ciphertext@),
        note matches Some(p) ==> params.spec_note_hash(p@) is Some && spec_chacha20poly1305_decrypt(
            symkey@,
            Seq::new(12, |i: int| 0u8),
            ciphertext@,
        ) == Some(p@),
{
    match decrypt_chacha_constant_nonce(symkey, ciphertext) {
        Some(plain) => {
            match params.note_hash(plain.as_slice()) {
                Some(_) => Some(plain),
                None => None,
            }
        },
        None => None,
    }
}

/// Whether two byte strings are equal.
pub fn bytes_eq(a: &[u8], b: &[u8]) -> (eq: bool)
    ensures
        eq == (a@ == b@),
{
    if a.len() != b.len() {
        return false;
    }
    let mut i: usize = 0;
    while i < a.len()
        invariant
            a@.len() == b@.len(),
            i <= a@.len(),
            forall|j: int| 0 <= j < i ==> a@[j] == b@[j],
        decreases a@.len() - i,
    {
        if a[i] != b[i] {
            return false;
        }
        i = i + 1;
    }
    assert(a@ =~= b@);
    true
}

} // verus!
