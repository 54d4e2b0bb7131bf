use sha3::{Digest, Keccak256};
use zeropool_memo::cipher::{
    decrypt_account, decrypt_account_no_validate, decrypt_note, decrypt_note_no_validate,
};
use zeropool_memo::decrypt::{
    _decrypt_in, decrypt_in, decrypt_out, decrypt_shared_secrets, symcipher_decryption_keys,
};
use zeropool_memo::encrypt::{_encrypt_old, encrypt, NoteEphemeralKey};
use zeropool_memo::memo::MessageEncryptionType;
use zeropool_memo::params::{MemoSizes, PoolParams};
use zeropool_memo::symmetric::encrypt_chacha_constant_nonce;

const MODULUS: u128 = (1u128 << 61) - 1;
const GENERATOR: u128 = 3;

/// A small pool for the tests: Diffie-Hellman in the multiplicative group
/// modulo 2^61 - 1, hashes from Keccak-256 reduced below a bound.
struct ToyPool;

fn modpow(base: u128, exp: u64) -> u128 {
    let mut result = 1u128;
    let mut b = base % MODULUS;
    let mut e = exp;
    while e > 0 {
        if e & 1 == 1 {
            result = result * b % MODULUS;
        }
        b = b * b % MODULUS;
        e >>= 1;
    }
    result
}

fn scalar(secret: &[u8]) -> u64 {
    let mut bytes = [0u8; 8];
    bytes.copy_from_slice(&secret[..8]);
    u64::from_le_bytes(bytes)
}

fn encode_point(x: u128) -> Vec<u8> {
    let mut out = vec![0u8; 32];
    out[..8].copy_from_slice(&(x as u64).to_le_bytes());
    out
}

fn decode_point(point: &[u8]) -> Option<u128> {
    if point.len() != 32 || point[8..].iter().any(|b| *b != 0) {
        return None;
    }
    let x = scalar(point) as u128;
    if x == 0 || x >= MODULUS {
        None
    } else {
        Some(x)
    }
}

fn public_key(secret: &[u8]) -> Vec<u8> {
    encode_point(modpow(GENERATOR, scalar(secret)))
}

fn toy_hash(tag: &[u8], data: &[u8]) -> Vec<u8> {
    let mut hasher = Keccak256::new();
    hasher.update(tag);
    hasher.update(data);
    let mut out = hasher.finalize().to_vec();
    out[31] &= 0x2f;
    out
}

impl PoolParams for ToyPool {
    fn sizes(&self) -> MemoSizes {
        MemoSizes { num_size: 32, account_size: 70, note_size: 60 }
    }

    fn is_num(&self, bytes: &[u8]) -> bool {
        bytes.len() == 32 && bytes[31] < 0x30
    }

    fn account_hash(&self, plain: &[u8]) -> Option<Vec<u8>> {
        if plain.len() == 70 && plain[0] != 0xff {
            Some(toy_hash(b"account", plain))
        } else {
            None
        }
    }

    fn note_hash(&self, plain: &[u8]) -> Option<Vec<u8>> {
        if plain.len() == 60 && plain[0] != 0xff {
            Some(toy_hash(b"note", plain))
        } else {
            None
        }
    }

    fn ecdh(&self, secret: &[u8], point: &[u8]) -> Option<Vec<u8>> {
        let x = decode_point(point)?;
        Some(encode_point(modpow(x, scalar(secret))))
    }
}

fn secret(seed: u64) -> Vec<u8> {
    let mut out = vec![0u8; 32];
    out[..8].copy_from_slice(&(seed.wrapping_mul(0x9e37_79b9_7f4a_7c15) | 1).to_le_bytes());
    out
}

fn bytes(len: usize, seed: u8) -> Vec<u8> {
    (0..len).map(|i| (i as u8).wrapping_mul(13).wrapping_add(seed) & 0x7f).collect()
}

struct Transaction {
    eta1: Vec<u8>,
    kappa1: [u8; 32],
    eta2: Vec<u8>,
    kappa2: [u8; 32],
    eta3: Vec<u8>,
    kappa3: [u8; 32],
    account: Vec<u8>,
    notes: Vec<Vec<u8>>,
    to_receiver: Vec<bool>,
    memo: Vec<u8>,
}

fn goes_to_receiver(i: usize, note_probability: f64, seed: u64) -> bool {
    let draw = ((i as u64).wrapping_mul(2_654_435_761).wrapping_add(seed * 97)) % 100;
    (draw as f64) < note_probability * 100.0
}

fn make_transaction(
    notes_count: u32,
    note_probability: f64,
    enc_type: MessageEncryptionType,
) -> Transaction {
    let pool = ToyPool;
    let eta1 = secret(1001);
    let eta2 = secret(2002);
    let eta3 = secret(3003);
    let kappa1 = [0x11u8; 32];
    let kappa2 = [0x22u8; 32];
    let kappa3 = [0x33u8; 32];
    let account = bytes(70, 5);
    let mut notes = Vec::new();
    let mut ephemeral = Vec::new();
    let mut to_receiver = Vec::new();
    for i in 0..notes_count as usize {
        let note = bytes(60, i as u8 + 1);
        let receiver = goes_to_receiver(i, note_probability, notes_count as u64);
        let owner = if receiver { &eta2 } else { &eta1 };
        let p_d = public_key(owner);
        let a = secret(10_000 + i as u64);
        let a_pub = public_key(&a);
        let shared_x = pool.ecdh(&a, &p_d).unwrap();
        notes.push(note);
        ephemeral.push(NoteEphemeralKey { a_pub, shared_x });
        to_receiver.push(receiver);
    }
    let account_key = [0x77u8; 32];
    let memo = match enc_type {
        MessageEncryptionType::ECDH => {
            let a_p = secret(77);
            let a_p_pub = public_key(&a_p);
            _encrypt_old(&eta1, &account_key, &a_p_pub, &account, &notes, &ephemeral, &pool)
        }
        MessageEncryptionType::Symmetric => {
            let nonce = [0x44u8; 24];
            encrypt(&account_key, &nonce, &kappa1, &account, &notes, &ephemeral, &pool)
        }
        MessageEncryptionType::Plain => unreachable!(),
    };
    Transaction {
        eta1,
        kappa1,
        eta2,
        kappa2,
        eta3,
        kappa3,
        account,
        notes,
        to_receiver,
        memo,
    }
}

const DECRYPT_IN_OUT_CASES: [(u32, f64); 9] = [
    (0, 0.0),
    (1, 0.0),
    (1, 1.0),
    (5, 0.8),
    (15, 0.0),
    (15, 1.0),
    (20, 0.5),
    (30, 0.7),
    (42, 0.5),
];

#[test]
fn test_decrypt_in_out() {
    let pool = ToyPool;
    for enc_type in [MessageEncryptionType::ECDH, MessageEncryptionType::Symmetric] {
        for (notes_count, note_probability) in DECRYPT_IN_OUT_CASES {
            let tx = make_transaction(notes_count, note_probability, enc_type);

            // the receiver's side
            let decrypted_in = decrypt_in(&tx.eta2, &tx.memo, &pool);
            assert_eq!(decrypted_in.len(), tx.notes.len());
            let mut dst_notes_num = 0;
            for (i, note) in decrypted_in.iter().enumerate() {
                if tx.to_receiver[i] {
                    assert_eq!(note.as_ref(), Some(&tx.notes[i]));
                    dst_notes_num += 1;
                } else {
                    assert_eq!(note, &None);
                }
            }
            assert_eq!(
                dst_notes_num,
                tx.to_receiver.iter().filter(|r| **r).count()
            );

            // the sender's side
            let (decrypted_acc, decrypted_notes) =
                decrypt_out(&tx.eta1, &tx.kappa1, &tx.memo, &pool).unwrap();
            assert_eq!(decrypted_acc, tx.account);
            assert_eq!(decrypted_notes.len(), tx.notes.len());
            for i in 0..tx.notes.len() {
                assert_eq!(decrypted_notes[i], tx.notes[i]);
            }
        }
    }
}

const COMPLIANCE_CASES: [(u32, f64); 8] = [
    (0, 0.0),
    (1, 0.0),
    (1, 1.0),
    (3, 0.5),
    (10, 0.5),
    (15, 0.0),
    (30, 1.0),
    (42, 0.5),
];

#[test]
fn test_compliance() {
    let pool = ToyPool;
    for enc_type in [MessageEncryptionType::ECDH, MessageEncryptionType::Symmetric] {
        for (notes_count, note_probability) in COMPLIANCE_CASES {
            let tx = make_transaction(notes_count, note_probability, enc_type);
            let account_hash = pool.account_hash(&tx.account).unwrap();
            let dst_notes_num = tx.to_receiver.iter().filter(|r| **r).count();

            // the sender restores every chunk and its key
            let sender_restored =
                symcipher_decryption_keys(&tx.eta1, &tx.kappa1, &tx.memo, &pool).unwrap();
            assert!(sender_restored.len() == tx.notes.len() + 1);
            for (index, chunk, key) in sender_restored.iter() {
                if *index == 0 {
                    let decrypt_acc =
                        decrypt_account(key, chunk, &account_hash, &pool).unwrap();
                    assert_eq!(decrypt_acc, tx.account);
                } else {
                    let orig_note = &tx.notes[(index - 1) as usize];
                    let hash = pool.note_hash(orig_note).unwrap();
                    let decrypted = decrypt_note(key, chunk, &hash, &pool).unwrap();
                    assert_eq!(&decrypted, orig_note);
                }
            }

            // the receiver restores the chunks of its notes only
            let receiver_restored =
                symcipher_decryption_keys(&tx.eta2, &tx.kappa2, &tx.memo, &pool).unwrap();
            assert!(receiver_restored.len() == dst_notes_num);
            for (index, chunk, key) in receiver_restored.iter() {
                assert_ne!(*index, 0);
                let orig_note = &tx.notes[(index - 1) as usize];
                let hash = pool.note_hash(orig_note).unwrap();
                let decrypted = decrypt_note(key, chunk, &hash, &pool).unwrap();
                assert_eq!(&decrypted, orig_note);
            }

            // a third party restores nothing
            let thirdparty_restored =
                symcipher_decryption_keys(&tx.eta3, &tx.kappa3, &tx.memo, &pool).unwrap();
            assert_eq!(thirdparty_restored.len(), 0);
        }
    }
}

#[test]
fn symmetric_memo_layout() {
    let tx = make_transaction(2, 1.0, MessageEncryptionType::Symmetric);
    // header: 3 items, symmetric encryption
    assert_eq!(&tx.memo[..4], &[3, 0, 0, 2]);
    // hashes, nonce, shared secrets, account, two note blocks
    let expected_len = 4 + 32 + 2 * 32 + 24 + (3 * 32 + 16) + (70 + 16) + 2 * (32 + 60 + 16);
    assert_eq!(tx.memo.len(), expected_len);
    assert_eq!(&tx.memo[4..36], ToyPool.account_hash(&tx.account).unwrap().as_slice());
    assert_eq!(&tx.memo[100..124], &[0x44u8; 24]);
}

#[test]
fn ecdh_memo_layout() {
    let tx = make_transaction(2, 1.0, MessageEncryptionType::ECDH);
    // header: 3 items as a little-endian u32, read as ECDH
    assert_eq!(&tx.memo[..4], &[3, 0, 0, 0]);
    let expected_len = 4 + 32 + 2 * 32 + 32 + (3 * 32 + 16) + (70 + 16) + 2 * (32 + 60 + 16);
    assert_eq!(tx.memo.len(), expected_len);
}

#[test]
fn decrypt_out_rejects_tampered_memo() {
    let pool = ToyPool;
    let tx = make_transaction(3, 0.5, MessageEncryptionType::Symmetric);
    // a note hash that no longer matches
    let mut memo = tx.memo.clone();
    memo[36] ^= 1;
    assert!(decrypt_out(&tx.eta1, &tx.kappa1, &memo, &pool).is_none());
    // a wrong kappa
    assert!(decrypt_out(&tx.eta1, &tx.kappa2, &tx.memo, &pool).is_none());
    // a truncated memo
    let memo = &tx.memo[..tx.memo.len() - 1];
    assert!(decrypt_out(&tx.eta1, &tx.kappa1, memo, &pool).is_none());
    // an account hash that is not a field element
    let mut memo = tx.memo.clone();
    memo[35] = 0xff;
    assert!(decrypt_out(&tx.eta1, &tx.kappa1, &memo, &pool).is_none());
    assert!(symcipher_decryption_keys(&tx.eta1, &tx.kappa1, &memo, &pool).is_none());
}

#[test]
fn decrypt_in_of_truncated_memo() {
    let pool = ToyPool;
    let tx = make_transaction(3, 1.0, MessageEncryptionType::Symmetric);
    // the last note block is cut: the other notes still decrypt
    let memo = &tx.memo[..tx.memo.len() - 1];
    let notes = decrypt_in(&tx.eta2, memo, &pool);
    assert_eq!(notes.len(), 3);
    assert_eq!(notes[0].as_ref(), Some(&tx.notes[0]));
    assert_eq!(notes[1].as_ref(), Some(&tx.notes[1]));
    assert_eq!(notes[2], None);
    // cut before the notes: nothing
    let memo = &tx.memo[..100];
    assert!(_decrypt_in(&tx.eta2, memo, &pool).is_none());
    assert!(decrypt_in(&tx.eta2, memo, &pool).is_empty());
}

#[test]
fn plain_memo_does_not_decrypt() {
    let pool = ToyPool;
    let tx = make_transaction(1, 1.0, MessageEncryptionType::Symmetric);
    let mut memo = tx.memo.clone();
    memo[3] = 1;
    assert!(decrypt_out(&tx.eta1, &tx.kappa1, &memo, &pool).is_none());
    assert!(decrypt_in(&tx.eta2, &memo, &pool).is_empty());
    assert!(_decrypt_in(&tx.eta2, &memo, &pool).is_none());
}

#[test]
fn memo_without_items_does_not_decrypt() {
    let pool = ToyPool;
    let memo = [0u8, 0, 0, 2];
    assert!(decrypt_out(&secret(1), &[0u8; 32], &memo, &pool).is_none());
    assert!(decrypt_in(&secret(1), &memo, &pool).is_empty());
    assert!(symcipher_decryption_keys(&secret(1), &[0u8; 32], &memo, &pool).is_none());
}

#[test]
fn note_and_account_validation() {
    let pool = ToyPool;
    let key = [3u8; 32];
    let note = bytes(60, 9);
    let hash = pool.note_hash(&note).unwrap();
    let ciphertext = encrypt_chacha_constant_nonce(&key, &note);
    assert_eq!(decrypt_note(&key, &ciphertext, &hash, &pool), Some(note.clone()));
    assert_eq!(decrypt_note(&key, &ciphertext, &[0u8; 32], &pool), None);
    assert_eq!(decrypt_note_no_validate(&key, &ciphertext, &pool), Some(note.clone()));
    assert_eq!(decrypt_note(&[4u8; 32], &ciphertext, &hash, &pool), None);

    // a plaintext that encodes no note
    let mut bad = note.clone();
    bad[0] = 0xff;
    let ciphertext = encrypt_chacha_constant_nonce(&key, &bad);
    assert_eq!(decrypt_note_no_validate(&key, &ciphertext, &pool), None);

    let account = bytes(70, 1);
    let account_hash = pool.account_hash(&account).unwrap();
    let ciphertext = encrypt_chacha_constant_nonce(&key, &account);
    assert_eq!(
        decrypt_account(&key, &ciphertext, &account_hash, &pool),
        Some(account.clone())
    );
    assert_eq!(decrypt_account(&key, &ciphertext, &hash, &pool), None);
    assert_eq!(
        decrypt_account_no_validate(&key, &ciphertext, &pool),
        Some(account.clone())
    );
    // an account is not a note
    assert_eq!(decrypt_note_no_validate(&key, &ciphertext, &pool), None);
}

#[test]
fn decrypted_items_match_memo_hashes() {
    let pool = ToyPool;
    let tx = make_transaction(4, 0.5, MessageEncryptionType::Symmetric);
    let (account, notes) = decrypt_out(&tx.eta1, &tx.kappa1, &tx.memo, &pool).unwrap();
    assert_eq!(pool.account_hash(&account).unwrap().as_slice(), &tx.memo[4..36]);
    for (i, note) in notes.iter().enumerate() {
        let start = 4 + 32 * (i + 1);
        assert_eq!(pool.note_hash(note).unwrap().as_slice(), &tx.memo[start..start + 32]);
    }
    for (i, note) in decrypt_in(&tx.eta2, &tx.memo, &pool).iter().enumerate() {
        if let Some(note) = note {
            let start = 4 + 32 * (i + 1);
            assert_eq!(pool.note_hash(note).unwrap().as_slice(), &tx.memo[start..start + 32]);
        }
    }
}

#[test]
fn shared_secrets_block_of_symmetric_memo() {
    let pool = ToyPool;
    let tx = make_transaction(2, 1.0, MessageEncryptionType::Symmetric);
    // 3 items: the block starts after the header and 3 hashes
    let pos = 4 + 3 * 32;
    let size = 3 * 32 + 16;
    let (text, next) = decrypt_shared_secrets(
        MessageEncryptionType::Symmetric,
        &tx.eta1,
        &tx.kappa1,
        &tx.memo,
        pos,
        size,
        &pool,
    );
    let text = text.unwrap();
    assert_eq!(text.len(), 3 * 32);
    assert_eq!(&text[..32], &[0x77u8; 32]);
    assert_eq!(next, pos + 24 + size);
    // under another kappa the block is read but does not decrypt
    let (text, next) = decrypt_shared_secrets(
        MessageEncryptionType::Symmetric,
        &tx.eta1,
        &tx.kappa2,
        &tx.memo,
        pos,
        size,
        &pool,
    );
    assert!(text.is_none());
    assert_eq!(next, pos + 24 + size);
    // a plain memo has no block
    let (text, next) = decrypt_shared_secrets(
        MessageEncryptionType::Plain,
        &tx.eta1,
        &tx.kappa1,
        &tx.memo,
        pos,
        size,
        &pool,
    );
    assert!(text.is_none());
    assert_eq!(next, pos);
}

#[test]
fn shared_secrets_block_of_ecdh_memo() {
    let pool = ToyPool;
    let tx = make_transaction(1, 1.0, MessageEncryptionType::ECDH);
    let pos = 4 + 2 * 32;
    let size = 2 * 32 + 16;
    let (text, next) = decrypt_shared_secrets(
        MessageEncryptionType::ECDH,
        &tx.eta1,
        &tx.kappa1,
        &tx.memo,
        pos,
        size,
        &pool,
    );
    assert_eq!(text.unwrap().len(), 2 * 32);
    assert_eq!(next, pos + 32 + size);
    // the receiver's eta gives another key: the block does not decrypt
    let (text, next) = decrypt_shared_secrets(
        MessageEncryptionType::ECDH,
        &tx.eta2,
        &tx.kappa1,
        &tx.memo,
        pos,
        size,
        &pool,
    );
    assert!(text.is_none());
    assert_eq!(next, pos + 32 + size);
}

#[test]
fn trailing_bytes_are_ignored() {
    let pool = ToyPool;
    for enc_type in [MessageEncryptionType::ECDH, MessageEncryptionType::Symmetric] {
        let tx = make_transaction(3, 0.5, enc_type);
        let expected = decrypt_out(&tx.eta1, &tx.kappa1, &tx.memo, &pool).unwrap();
        let mut longer = tx.memo.clone();
        longer.extend_from_slice(&[1, 2, 3, 4, 5]);
        assert_eq!(decrypt_out(&tx.eta1, &tx.kappa1, &longer, &pool).unwrap(), expected);
        assert_eq!(decrypt_in(&tx.eta2, &longer, &pool), decrypt_in(&tx.eta2, &tx.memo, &pool));
    }
}

#[test]
fn truncated_memos_are_rejected() {
    let pool = ToyPool;
    for enc_type in [MessageEncryptionType::ECDH, MessageEncryptionType::Symmetric] {
        for notes_count in [0u32, 1, 4] {
            let tx = make_transaction(notes_count, 0.5, enc_type);
            let short = &tx.memo[..tx.memo.len() - 1];
            assert!(decrypt_out(&tx.eta1, &tx.kappa1, short, &pool).is_none());
        }
    }
}

#[test]
fn kappa_changes_only_the_shared_ciphertext() {
    let pool = ToyPool;
    let eta2 = secret(2002);
    let notes = vec![bytes(60, 1), bytes(60, 2)];
    let ephemeral: Vec<NoteEphemeralKey> = (0..2)
        .map(|i| {
            let a = secret(500 + i);
            NoteEphemeralKey {
                a_pub: public_key(&a),
                shared_x: pool.ecdh(&a, &public_key(&eta2)).unwrap(),
            }
        })
        .collect();
    let account = bytes(70, 9);
    let account_key = [5u8; 32];
    let nonce = [6u8; 24];
    let memo1 = encrypt(&account_key, &nonce, &[1u8; 32], &account, &notes, &ephemeral, &pool);
    let memo2 = encrypt(&account_key, &nonce, &[2u8; 32], &account, &notes, &ephemeral, &pool);
    assert_eq!(memo1.len(), memo2.len());
    let s = 4 + 32 * 3 + 24;
    let t = s + 32 * 3 + 16;
    assert_eq!(&memo1[..s], &memo2[..s]);
    assert_eq!(&memo1[t..], &memo2[t..]);
    assert_ne!(&memo1[s..t], &memo2[s..t]);
}

#[test]
fn every_chunk_is_returned_in_order() {
    let pool = ToyPool;
    for enc_type in [MessageEncryptionType::ECDH, MessageEncryptionType::Symmetric] {
        let tx = make_transaction(6, 0.5, enc_type);
        assert!(decrypt_out(&tx.eta1, &tx.kappa1, &tx.memo, &pool).is_some());
        let chunks = symcipher_decryption_keys(&tx.eta1, &tx.kappa1, &tx.memo, &pool).unwrap();
        assert_eq!(chunks.len(), 7);
        for (j, (index, chunk, key)) in chunks.iter().enumerate() {
            assert_eq!(*index, j as u64);
            assert_eq!(key.len(), 32);
            assert_eq!(chunk.len(), if j == 0 { 70 + 16 } else { 60 + 16 });
        }
        for (index, chunk, key) in
            symcipher_decryption_keys(&tx.eta2, &tx.kappa2, &tx.memo, &pool).unwrap()
        {
            assert_ne!(index, 0);
            assert_eq!(key.len(), 32);
            assert_eq!(chunk.len(), 60 + 16);
        }
    }
}

#[test]
fn ciphertexts_shorter_than_a_tag_never_decrypt() {
    let pool = ToyPool;
    let key = [0u8; 32];
    assert_eq!(decrypt_account_no_validate(&key, &[], &pool), None);
    assert_eq!(decrypt_account_no_validate(&key, &[0u8; 15], &pool), None);
    assert_eq!(decrypt_note_no_validate(&key, &[0u8; 15], &pool), None);
    assert_eq!(decrypt_note(&key, &[], &[0u8; 32], &pool), None);
    assert_eq!(decrypt_account(&key, &[0u8; 15], &[0u8; 32], &pool), None);
}
