//! Encryption and decryption of transaction memos: the account and notes of a
//! transaction, each under its own key, with the keys shared with the sender.
pub mod cipher;
pub mod decrypt;
pub mod encrypt;
pub mod laws;
pub mod layout;
pub mod memo;
pub mod params;
pub mod roundtrip;
pub mod symmetric;
