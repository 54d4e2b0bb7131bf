use zeropool_memo::symmetric::{
    decrypt_chacha_constant_nonce, decrypt_xchacha, encrypt_chacha_constant_nonce,
    encrypt_xchacha, encryption_nonce, keccak256,
};

fn pattern(len: usize, seed: u8) -> Vec<u8> {
    (0..len).map(|i| (i as u8).wrapping_mul(31).wrapping_add(seed)).collect()
}

#[test]
fn test_chacha_constant_nonce() {
    for buf_len in [0usize, 1, 100, 128, 1024] {
        let key = [0x42u8; 32];
        let plaintext = pattern(buf_len, 7);
        let ciphertext = encrypt_chacha_constant_nonce(&key, plaintext.as_slice());
        assert_eq!(ciphertext.len(), plaintext.len() + 16);
        let decrypted = decrypt_chacha_constant_nonce(&key, ciphertext.as_slice()).unwrap();
        assert_eq!(plaintext.len(), decrypted.len());
        assert_eq!(plaintext, decrypted);
    }
}

#[test]
fn test_xchacha() {
    for buf_len in [0usize, 1, 100, 128, 1024] {
        let key = [0x17u8; 32];
        let nonce = [0x5au8; 24];
        let plaintext = pattern(buf_len, 3);
        let ciphertext = encrypt_xchacha(&key, &nonce, plaintext.as_slice());
        assert_eq!(ciphertext.len(), plaintext.len() + 16);
        let decrypted = decrypt_xchacha(&key, &nonce, ciphertext.as_slice()).unwrap();
        assert_eq!(plaintext.len(), decrypted.len());
        assert_eq!(plaintext, decrypted);
    }
}

#[test]
fn chacha_ciphertext_differs_from_plaintext() {
    let key = [1u8; 32];
    let plaintext = pattern(64, 0);
    let ciphertext = encrypt_chacha_constant_nonce(&key, plaintext.as_slice());
    assert_ne!(&ciphertext[..64], plaintext.as_slice());
}

#[test]
fn chacha_rejects_tampering_and_wrong_key() {
    let key = [9u8; 32];
    let plaintext = pattern(40, 1);
    let mut ciphertext = encrypt_chacha_constant_nonce(&key, plaintext.as_slice());
    assert!(decrypt_chacha_constant_nonce(&[8u8; 32], ciphertext.as_slice()).is_none());
    ciphertext[3] ^= 1;
    assert!(decrypt_chacha_constant_nonce(&key, ciphertext.as_slice()).is_none());
    // shorter than a tag
    assert!(decrypt_chacha_constant_nonce(&key, &[0u8; 15]).is_none());
}

#[test]
fn xchacha_rejects_wrong_nonce() {
    let key = [2u8; 32];
    let plaintext = pattern(33, 5);
    let ciphertext = encrypt_xchacha(&key, &[1u8; 24], plaintext.as_slice());
    assert!(decrypt_xchacha(&key, &[2u8; 24], ciphertext.as_slice()).is_none());
}

#[test]
fn keccak256_known_answers() {
    let empty = keccak256(&[]);
    assert_eq!(
        empty,
        vec![
            0xc5, 0xd2, 0x46, 0x01, 0x86, 0xf7, 0x23, 0x3c, 0x92, 0x7e, 0x7d, 0xb2, 0xdc, 0xc7,
            0x03, 0xc0, 0xe5, 0x00, 0xb6, 0x53, 0xca, 0x82, 0x27, 0x3b, 0x7b, 0xfa, 0xd8, 0x04,
            0x5d, 0x85, 0xa4, 0x70
        ]
    );
    let abc = keccak256(b"abc");
    assert_eq!(
        abc,
        vec![
            0x4e, 0x03, 0x65, 0x7a, 0xea, 0x45, 0xa9, 0x4f, 0xc7, 0xd4, 0x7b, 0xa8, 0x26, 0xc8,
            0xd6, 0x67, 0xc0, 0xd1, 0xe6, 0xe3, 0x3a, 0x64, 0xa0, 0x36, 0xec, 0x44, 0xf5, 0x8f,
            0xa1, 0x2d, 0x6c, 0x45
        ]
    );
}

#[test]
fn fixed_nonce_is_twelve_zero_bytes() {
    assert_eq!(encryption_nonce(), vec![0u8; 12]);
}
