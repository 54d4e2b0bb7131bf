//! The memo header and the reading of byte ranges.
use crate::symmetric::{POLY_1305_TAG_SIZE, U256_SIZE, XCHACHA20_POLY1305_NONCE_SIZE};
use vstd::prelude::*;

verus! {

/// The encryption type in a memo header is not one this library knows.
#[derive(Debug)]
pub struct UnsupportedEncryption;

/// The memo message encryption scheme
#[derive(Clone, Copy, Debug, PartialEq, Eq, Structural)]
pub enum MessageEncryptionType {
    /// The first memo message encryption: the shared secrets are keyed by ECDH
    ECDH,
    /// The message used within direct deposits: plain text
    Plain,
    /// The latest memo message encryption without ECDH during shared secrets encryption
    Symmetric,
}

/// The code of each encryption type in a memo header.
pub open spec fn spec_encryption_code(t: MessageEncryptionType) -> u16 {
    match t {
        MessageEncryptionType::ECDH => 0x0000,
        MessageEncryptionType::Plain => 0x0100,
        MessageEncryptionType::Symmetric => 0x0200,
    }
}

/// The encryption type of a header code, if it has one.
pub open spec fn spec_encryption_type(code: u16) -> Option<MessageEncryptionType> {
    if code == 0x0000 {
        Some(MessageEncryptionType::ECDH)
    } else if code == 0x0100 {
        Some(MessageEncryptionType::Plain)
    } else if code == 0x0200 {
        Some(MessageEncryptionType::Symmetric)
    } else {
        None
    }
}

impl MessageEncryptionType {
    pub fn to_u16(&self) -> (code: u16)
        ensures
            code == spec_encryption_code(*self),
    {
        match self {
            Self::ECDH => 0x0000,
            Self::Plain => 0x0100,
            Self::Symmetric => 0x0200,
        }
    }

    pub fn from_u16(enc_type: u16) -> (r: Result<MessageEncryptionType, UnsupportedEncryption>)
        ensures
            match spec_encryption_type(enc_type) {
                Some(t) => r == Ok::<MessageEncryptionType, UnsupportedEncryption>(t),
                None => r is Err,
            },
    {
        match enc_type {
            0x0000 => Ok(Self::ECDH),
            0x0100 => Ok(Self::Plain),
            0x0200 => Ok(Self::Symmetric),
            _ => Err(UnsupportedEncryption),
        }
    }
}

/// The little-endian `u16` at `pos`.
pub open spec fn spec_u16_le(bytes: Seq<u8>, pos: int) -> int {
    bytes[pos] + 256 * bytes[pos + 1]
}

/// The little-endian encoding of a `u16`.
pub open spec fn spec_u16_le_bytes(x: u16) -> Seq<u8> {
    seq![(x % 256) as u8, (x / 256) as u8]
}

/// The little-endian encoding of a `u32`.
pub open spec fn spec_u32_le_bytes(x: u32) -> Seq<u8> {
    seq![(x % 256) as u8, ((x / 256) % 256) as u8, ((x / 65536) % 256) as u8, (x / 16777216) as u8]
}

/// Size in bytes of a memo header: the number of items and the encryption
/// type, two little-endian `u16`.
pub const MEMO_HEADER_SIZE: usize = 4;

/// The header of a memo: the number of items (the account and the notes,
/// never 0) and the encryption type.
pub open spec fn spec_parse_memo_header(memo: Seq<u8>) -> Option<(usize, MessageEncryptionType)> {
    if memo.len() < 2 {
        None
    } else if spec_u16_le(memo, 0) == 0 {
        None
    } else if memo.len() < 4 {
        None
    } else {
        match spec_encryption_type(spec_u16_le(memo, 2) as u16) {
            Some(t) => Some((spec_u16_le(memo, 0) as usize, t)),
            None => None,
        }
    }
}

/// Reads a little-endian `u16` at `pos`.
fn read_u16_le(memo: &[u8], pos: usize) -> (x: u16)
    requires
        pos + 2 <= memo@.len(),
    ensures
        x == spec_u16_le(memo@, pos as int),
{
    let lo: u16 = memo[pos] as u16;
    let hi: u16 = memo[pos + 1] as u16;
    lo + 256 * hi
}

/// Reads the header at the start of `memo`: the number of items and the
/// encryption type. The items follow at offset [`MEMO_HEADER_SIZE`].
pub fn parse_memo_header(memo: &[u8]) -> (r: Option<(usize, MessageEncryptionType)>)
    ensures
        r == spec_parse_memo_header(memo@),
        r matches Some((n, _)) ==> 1 <= n <= 0xffff && memo@.len() >= MEMO_HEADER_SIZE,
        r matches Some((n, t)) ==> n == memo@[0] + 256 * memo@[1] && spec_encryption_code(t)
            == memo@[2] + 256 * memo@[3],
        memo@.len() >= 4 && memo@[0] + 256 * memo@[1] != 0 && spec_encryption_type(
            (memo@[2] + 256 * memo@[3]) as u16,
        ) is Some ==> r is Some,
{
    if memo.len() < 2 {
        return None;
    }
    let nozero_items_num = read_u16_le(memo, 0) as usize;
    if nozero_items_num == 0 {
        return None;
    }
    if memo.len() < 4 {
        return None;
    }
    match MessageEncryptionType::from_u16(read_u16_le(memo, 2)) {
        Ok(enc_type) => Some((nozero_items_num, enc_type)),
        Err(_) => None,
    }
}

/// The `size` bytes at `pos`, if the memo holds them.
pub open spec fn spec_take(memo: Seq<u8>, pos: int, size: int) -> Option<Seq<u8>> {
    if 0 <= pos && 0 <= size && pos + size <= memo.len() {
        Some(memo.subrange(pos, pos + size))
    } else {
        None
    }
}

/// Takes the `size` bytes at `pos`: the bytes and the position after them,
/// or `None`, with nothing taken, when fewer than `size` bytes remain.
pub fn buf_take<'a>(memo: &'a [u8], pos: usize, size: usize) -> (r: Option<(&'a [u8], usize)>)
    requires
        pos <= memo@.len(),
    ensures
        match r {
            Some((bytes, next)) => spec_take(memo@, pos as int, size as int) == Some(bytes@)
                && next == pos + size,
            None => spec_take(memo@, pos as int, size as int) is None,
        },
{
    if memo.len() - pos < size {
        None
    } else {
        Some((vstd::slice::slice_subrange(memo, pos, pos + size), pos + size))
    }
}

/// The size of the shared-secret block of a memo with `items_num` items:
/// the ephemeral public key (ECDH) or the nonce (symmetric), then the
/// encrypted keys with their tag. A plain memo has none.
pub open spec fn spec_shared_secrets_size(
    enc_type: MessageEncryptionType,
    num_size: int,
    items_num: int,
) -> Option<int> {
    let ciphertext_size = items_num * 32 + 16;
    match enc_type {
        MessageEncryptionType::ECDH => Some(num_size + ciphertext_size),
        MessageEncryptionType::Symmetric => Some(24 + ciphertext_size),
        MessageEncryptionType::Plain => None,
    }
}

pub fn shared_secrets_size(enc_type: MessageEncryptionType, num_size: usize, items_num: usize) -> (r: Option<usize>)
    requires
        items_num * 32 + 16 <= usize::MAX,
        enc_type == MessageEncryptionType::ECDH ==> num_size + items_num * 32 + 16 <= usize::MAX,
        enc_type == MessageEncryptionType::Symmetric ==> 24 + items_num * 32 + 16 <= usize::MAX,
    ensures
        match spec_shared_secrets_size(enc_type, num_size as int, items_num as int) {
            Some(s) => r == Some(s as usize) && r.unwrap() == s,
            None => r is None,
        },
{
    let shared_secret_ciphertext_size = items_num * U256_SIZE + POLY_1305_TAG_SIZE;
    match enc_type {
        MessageEncryptionType::ECDH => {
            let ecdh_size = num_size;
            Some(ecdh_size + shared_secret_ciphertext_size)
        },
        MessageEncryptionType::Symmetric => {
            let nonce_size = XCHACHA20_POLY1305_NONCE_SIZE;
            Some(nonce_size + shared_secret_ciphertext_size)
        },
        MessageEncryptionType::Plain => None,
    }
}

} // verus!
