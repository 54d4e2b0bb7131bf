//! Decryption of memos: by their sender (who holds the keys of the shared
//! secret block), by a receiver of notes (through ECDH), and the recovery of
//! the decryption key of each encrypted item.
use crate::cipher::{decrypt_account, decrypt_note, spec_decrypt_account, spec_decrypt_note};
use crate::layout::{hash_at, key_at, lemma_block_bound, lemma_item_in_block};
use crate::memo::{
    buf_take, parse_memo_header, shared_secrets_size, spec_parse_memo_header,
    spec_shared_secrets_size, spec_take, MessageEncryptionType, MEMO_HEADER_SIZE,
};
use crate::laws::lemma_decryption_keys_increasing;
use crate::params::PoolParams;
use crate::symmetric::{
    decrypt_chacha_constant_nonce, decrypt_xchacha, keccak256, opt_bytes,
    spec_decrypt_constant_nonce, spec_decrypt_xchacha, spec_keccak256,
    POLY_1305_TAG_SIZE, U256_SIZE, XCHACHA20_POLY1305_NONCE_SIZE,
};
use vstd::prelude::*;
use vstd::slice::{slice_subrange, slice_to_vec};

verus! {

/// The plaintext of the shared-secret block at `pos`, whose ciphertext has
/// `size` bytes, and the position after what was read. An ECDH block starts
/// with the ephemeral public key, whose shared point with `eta` keys the
/// ciphertext; a symmetric block starts with the nonce used under `kappa`.
/// Reading stops at the first failure, after what was read so far.
pub open spec fn spec_decrypt_shared_secrets<P: PoolParams>(
    params: &P,
    enc_type: MessageEncryptionType,
    eta: Seq<u8>,
    kappa: Seq<u8>,
    memo: Seq<u8>,
    pos: int,
    size: int,
) -> (Option<Seq<u8>>, int) {
    let num_size = params.spec_sizes().num_size as int;
    match enc_type {
        MessageEncryptionType::ECDH => match spec_take(memo, pos, num_size) {
            None => (None, pos),
            Some(point) => match params.spec_ecdh(eta, point) {
                None => (None, pos + num_size),
                Some(x) => match spec_take(memo, pos + num_size, size) {
                    None => (None, pos + num_size),
                    Some(ciphertext) => (
                        spec_decrypt_constant_nonce(spec_keccak256(x), ciphertext),
                        pos + num_size + size,
                    ),
                },
            },
        },
        MessageEncryptionType::Symmetric => match spec_take(memo, pos, 24) {
            None => (None, pos),
            Some(nonce) => match spec_take(memo, pos + 24, size) {
                None => (None, pos + 24),
                Some(ciphertext) => (
                    spec_decrypt_xchacha(kappa, nonce, ciphertext),
                    pos + 24 + size,
                ),
            },
        },
        MessageEncryptionType::Plain => (None, pos),
    }
}

/// Reads and decrypts the shared-secret block at `pos`.
pub fn decrypt_shared_secrets<P: PoolParams>(
    enc_type: MessageEncryptionType,
    eta: &[u8],
    kappa: &[u8; 32],
    memo: &[u8],
    pos: usize,
    size: usize,
    params: &P,
) -> (r: (Option<Vec<u8>>, usize))
    requires
        pos <= memo@.len(),
    ensures
        (opt_bytes(r.0), r.1 as int) == spec_decrypt_shared_secrets(
            params,
            enc_type,
            eta@,
            kappa@,
            memo@,
            pos as int,
            size as int,
        ),
        r.1 <= memo@.len(),
{
    let sizes = params.sizes();
    match enc_type {
        MessageEncryptionType::ECDH => {
            let (point, p1) = match buf_take(memo, pos, sizes.num_size) {
                Some(t) => t,
                None => return (None, pos),
            };
            let x = match params.ecdh(eta, point) {
                Some(x) => x,
                None => return (None, p1),
            };
            let key = keccak256(x.as_slice());
            let (ciphertext, p2) = match buf_take(memo, p1, size) {
                Some(t) => t,
                None => return (None, p1),
            };
            (decrypt_chacha_constant_nonce(key.as_slice(), ciphertext), p2)
        },
        MessageEncryptionType::Symmetric => {
            let (nonce, p1) = match buf_take(memo, pos, XCHACHA20_POLY1305_NONCE_SIZE) {
                Some(t) => t,
                None => return (None, pos),
            };
            let (ciphertext, p2) = match buf_take(memo, p1, size) {
                Some(t) => t,
                None => return (None, p1),
            };
            (decrypt_xchacha(kappa.as_slice(), nonce, ciphertext), p2)
        },
        MessageEncryptionType::Plain => (None, pos),
    }
}

/// One note of a memo read by its sender: skip its ephemeral public key, then
/// decrypt its ciphertext under `key` and check it against the `i`-th hash.
/// The note and its ciphertext, and the position after what was read.
pub open spec fn spec_out_note_step<P: PoolParams>(
    params: &P,
    memo: Seq<u8>,
    pos: int,
    hashes: Seq<u8>,
    key: Seq<u8>,
    i: int,
) -> (Option<(Seq<u8>, Seq<u8>)>, int) {
    let num_size = params.spec_sizes().num_size as int;
    let ct_size = params.spec_sizes().note_size + 16;
    let hash = hash_at(hashes, num_size, i);
    match spec_take(memo, pos, num_size) {
        None => (None, pos),
        Some(_) => if !params.spec_is_num(hash) {
            (None, pos + num_size)
        } else {
            match spec_take(memo, pos + num_size, ct_size) {
                None => (None, pos + num_size),
                Some(ciphertext) => match spec_decrypt_note(params, key, ciphertext, hash) {
                    Some(note) => (Some((note, ciphertext)), pos + num_size + ct_size),
                    None => (None, pos + num_size + ct_size),
                },
            }
        },
    }
}

/// One note of a memo read by a receiver: the key is derived from the ECDH
/// of `eta` with the note's ephemeral public key. The note, its ciphertext
/// and its key, and the position after what was read.
pub open spec fn spec_in_note_step<P: PoolParams>(
    params: &P,
    eta: Seq<u8>,
    memo: Seq<u8>,
    pos: int,
    hashes: Seq<u8>,
    i: int,
) -> (Option<(Seq<u8>, Seq<u8>, Seq<u8>)>, int) {
    let num_size = params.spec_sizes().num_size as int;
    let ct_size = params.spec_sizes().note_size + 16;
    let hash = hash_at(hashes, num_size, i);
    match spec_take(memo, pos, num_size) {
        None => (None, pos),
        Some(point) => match params.spec_ecdh(eta, point) {
            None => (None, pos + num_size),
            Some(x) => if !params.spec_is_num(hash) {
                (None, pos + num_size)
            } else {
                match spec_take(memo, pos + num_size, ct_size) {
                    None => (None, pos + num_size),
                    Some(ciphertext) => match spec_decrypt_note(
                        params,
                        spec_keccak256(x),
                        ciphertext,
                        hash,
                    ) {
                        Some(note) => (
                            Some((note, ciphertext, spec_keccak256(x))),
                            pos + num_size + ct_size,
                        ),
                        None => (None, pos + num_size + ct_size),
                    },
                }
            },
        },
    }
}

/// The notes `i..count` read by their sender, appended to `acc`; `None` when
/// any of them fails.
pub open spec fn spec_out_notes<P: PoolParams>(
    params: &P,
    memo: Seq<u8>,
    pos: int,
    hashes: Seq<u8>,
    text: Seq<u8>,
    i: int,
    count: int,
    acc: Seq<Seq<u8>>,
) -> Option<Seq<Seq<u8>>>
    decreases count - i,
{
    if i >= count {
        Some(acc)
    } else {
        let (r, next) = spec_out_note_step(params, memo, pos, hashes, key_at(text, i + 1), i);
        match r {
            None => None,
            Some((note, _)) => spec_out_notes(
                params,
                memo,
                next,
                hashes,
                text,
                i + 1,
                count,
                acc.push(note),
            ),
        }
    }
}

/// The notes `i..count` read by a receiver, appended to `acc`, each `None`
/// when it fails.
pub open spec fn spec_in_notes<P: PoolParams>(
    params: &P,
    eta: Seq<u8>,
    memo: Seq<u8>,
    pos: int,
    hashes: Seq<u8>,
    i: int,
    count: int,
    acc: Seq<Option<Seq<u8>>>,
) -> Seq<Option<Seq<u8>>>
    decreases count - i,
{
    if i >= count {
        acc
    } else {
        let (r, next) = spec_in_note_step(params, eta, memo, pos, hashes, i);
        let note = match r {
            Some((note, _, _)) => Some(note),
            None => None,
        };
        spec_in_notes(params, eta, memo, next, hashes, i + 1, count, acc.push(note))
    }
}

/// The chunks (index, ciphertext, key) of the notes `i..count` that their
/// sender can decrypt, appended to `acc`.
pub open spec fn spec_out_chunks<P: PoolParams>(
    params: &P,
    memo: Seq<u8>,
    pos: int,
    hashes: Seq<u8>,
    text: Seq<u8>,
    i: int,
    count: int,
    acc: Seq<(u64, Seq<u8>, Seq<u8>)>,
) -> Seq<(u64, Seq<u8>, Seq<u8>)>
    decreases count - i,
{
    if i >= count {
        acc
    } else {
        let (r, next) = spec_out_note_step(params, memo, pos, hashes, key_at(text, i + 1), i);
        let acc2 = match r {
            Some((_, ciphertext)) => acc.push(((i + 1) as u64, ciphertext, key_at(text, i + 1))),
            None => acc,
        };
        spec_out_chunks(params, memo, next, hashes, text, i + 1, count, acc2)
    }
}

/// The chunks (index, ciphertext, key) of the notes `i..count` that a
/// receiver can decrypt, appended to `acc`.
pub open spec fn spec_in_chunks<P: PoolParams>(
    params: &P,
    eta: Seq<u8>,
    memo: Seq<u8>,
    pos: int,
    hashes: Seq<u8>,
    i: int,
    count: int,
    acc: Seq<(u64, Seq<u8>, Seq<u8>)>,
) -> Seq<(u64, Seq<u8>, Seq<u8>)>
    decreases count - i,
{
    if i >= count {
        acc
    } else {
        let (r, next) = spec_in_note_step(params, eta, memo, pos, hashes, i);
        let acc2 = match r {
            Some((_, ciphertext, key)) => acc.push(((i + 1) as u64, ciphertext, key)),
            None => acc,
        };
        spec_in_chunks(params, eta, memo, next, hashes, i + 1, count, acc2)
    }
}

/// Where the note hashes start: after the header and the account hash.
pub open spec fn hashes_pos(num_size: int) -> int {
    4 + num_size
}

/// Where the shared-secret block starts in a memo of `items_num` items.
pub open spec fn shared_secrets_pos(num_size: int, items_num: int) -> int {
    4 + items_num * num_size
}

/// What the sender of a memo reads from it: the account and the notes.
pub open spec fn spec_decrypt_out<P: PoolParams>(
    params: &P,
    eta: Seq<u8>,
    kappa: Seq<u8>,
    memo: Seq<u8>,
) -> Option<(Seq<u8>, Seq<Seq<u8>>)> {
    let sizes = params.spec_sizes();
    let num_size = sizes.num_size as int;
    match spec_parse_memo_header(memo) {
        None => None,
        Some((items_num, enc_type)) => {
            let notes_num = items_num - 1;
            match spec_take(memo, 4, num_size) {
                None => None,
                Some(account_hash) => if !params.spec_is_num(account_hash) {
                    None
                } else {
                    match spec_take(memo, hashes_pos(num_size), notes_num * num_size) {
                        None => None,
                        Some(hashes) => {
                            let (text, p) = spec_decrypt_shared_secrets(
                                params,
                                enc_type,
                                eta,
                                kappa,
                                memo,
                                shared_secrets_pos(num_size, items_num as int),
                                items_num * 32 + 16,
                            );
                            match text {
                                None => None,
                                Some(text) => if text.len() < 32 * items_num {
                                    None
                                } else {
                                    let ct_size = sizes.account_size + 16;
                                    match spec_take(memo, p, ct_size) {
                                        None => None,
                                        Some(ciphertext) => match spec_decrypt_account(
                                            params,
                                            key_at(text, 0),
                                            ciphertext,
                                            account_hash,
                                        ) {
                                            None => None,
                                            Some(account) => match spec_out_notes(
                                                params,
                                                memo,
                                                p + ct_size,
                                                hashes,
                                                text,
                                                0,
                                                notes_num,
                                                seq![],
                                            ) {
                                                None => None,
                                                Some(notes) => Some((account, notes)),
                                            },
                                        },
                                    }
                                },
                            }
                        },
                    }
                },
            }
        },
    }
}

/// The views of a vector of byte vectors.
pub open spec fn vecs_view(v: Seq<Vec<u8>>) -> Seq<Seq<u8>> {
    v.map_values(|x: Vec<u8>| x@)
}

/// The views of a vector of optional byte vectors.
pub open spec fn opt_vecs_view(v: Seq<Option<Vec<u8>>>) -> Seq<Option<Seq<u8>>> {
    v.map_values(|x: Option<Vec<u8>>| opt_bytes(x))
}

/// The views of a vector of chunks.
pub open spec fn chunks_view(v: Seq<(u64, Vec<u8>, Vec<u8>)>) -> Seq<(u64, Seq<u8>, Seq<u8>)> {
    v.map_values(|c: (u64, Vec<u8>, Vec<u8>)| (c.0, c.1@, c.2@))
}

/// Reads the `i`-th hash of a block of hashes.
fn read_hash<'a>(hashes: &'a [u8], num_size: usize, i: usize, count: usize) -> (h: &'a [u8])
    requires
        i < count <= 0xffff,
        num_size <= 4096,
        hashes@.len() == count * num_size,
    ensures
        h@ == hash_at(hashes@, num_size as int, i as int),
{
    proof {
        lemma_item_in_block(i as int, count as int, num_size as int);
        lemma_block_bound(count as int, num_size as int);
    }
    slice_subrange(hashes, i * num_size, i * num_size + num_size)
}

/// Reads the `k`-th key of a block of keys.
fn read_key<'a>(text: &'a [u8], k: usize) -> (key: &'a [u8])
    requires
        32 * k + 32 <= text@.len(),
    ensures
        key@ == key_at(text@, k as int),
        key@.len() == U256_SIZE,
{
    assert(text.len() == text@.len()) by {
        broadcast use vstd::slice::axiom_spec_len;
    }
    slice_subrange(text, 32 * k, 32 * k + 32)
}

/// Reads one note as its sender.
fn out_note_step<'a, P: PoolParams>(
    memo: &'a [u8],
    pos: usize,
    hashes: &[u8],
    key: &[u8],
    i: usize,
    count: usize,
    params: &P,
) -> (r: (Option<(Vec<u8>, &'a [u8])>, usize))
    requires
        pos <= memo@.len(),
        i < count <= 0xffff,
        params.spec_sizes().wf(),
        hashes@.len() == count * params.spec_sizes().num_size,
        key@.len() == U256_SIZE,
    ensures
        r.1 <= memo@.len(),
        r.0 matches Some((_, ciphertext)) ==> ciphertext@.len() == params.spec_sizes().note_size + 16,
        ({
            let (s, next) = spec_out_note_step(params, memo@, pos as int, hashes@, key@, i as int);
            &&& r.1 == next
            &&& match r.0 {
                Some((note, ciphertext)) => s == Some((note@, ciphertext@)),
                None => s is None,
            }
        }),
{
    let sizes = params.sizes();
    let (_, p1) = match buf_take(memo, pos, sizes.num_size) {
        Some(t) => t,
        None => return (None, pos),
    };
    let hash = read_hash(hashes, sizes.num_size, i, count);
    if !params.is_num(hash) {
        return (None, p1);
    }
    let (ciphertext, p2) = match buf_take(memo, p1, sizes.note_size + POLY_1305_TAG_SIZE) {
        Some(t) => t,
        None => return (None, p1),
    };
    match decrypt_note(key, ciphertext, hash, params) {
        Some(note) => (Some((note, ciphertext)), p2),
        None => (None, p2),
    }
}

/// Reads one note as a receiver.
fn in_note_step<'a, P: PoolParams>(
    eta: &[u8],
    memo: &'a [u8],
    pos: usize,
    hashes: &[u8],
    i: usize,
    count: usize,
    params: &P,
) -> (r: (Option<(Vec<u8>, &'a [u8], Vec<u8>)>, usize))
    requires
        pos <= memo@.len(),
        i < count <= 0xffff,
        params.spec_sizes().wf(),
        hashes@.len() == count * params.spec_sizes().num_size,
    ensures
        r.1 <= memo@.len(),
        r.0 matches Some((_, ciphertext, key)) ==> ciphertext@.len() == params.spec_sizes().note_size
            + 16 && key@.len() == U256_SIZE,
        ({
            let (s, next) = spec_in_note_step(params, eta@, memo@, pos as int, hashes@, i as int);
            &&& r.1 == next
            &&& match r.0 {
                Some((note, ciphertext, key)) => s == Some((note@, ciphertext@, key@)),
                None => s is None,
            }
        }),
{
    let sizes = params.sizes();
    let (point, p1) = match buf_take(memo, pos, sizes.num_size) {
        Some(t) => t,
        None => return (None, pos),
    };
    let x = match params.ecdh(eta, point) {
        Some(x) => x,
        None => return (None, p1),
    };
    let key = keccak256(x.as_slice());
    let hash = read_hash(hashes, sizes.num_size, i, count);
    if !params.is_num(hash) {
        return (None, p1);
    }
    let (ciphertext, p2) = match buf_take(memo, p1, sizes.note_size + POLY_1305_TAG_SIZE) {
        Some(t) => t,
        None => return (None, p1),
    };
    match decrypt_note(key.as_slice(), ciphertext, hash, params) {
        Some(note) => (Some((note, ciphertext, key)), p2),
        None => (None, p2),
    }
}

/// Decrypts a memo as its sender: the account and all the notes, each
/// checked against its hash in the memo; `None` when anything fails.
#[verifier::loop_isolation(false)]
pub fn decrypt_out<P: PoolParams>(eta: &[u8], kappa: &[u8; 32], memo: &[u8], params: &P) -> (r: Option<(Vec<u8>, Vec<Vec<u8>>)>)
    ensures
        match r {
            Some((account, notes)) => spec_decrypt_out(params, eta@, kappa@, memo@) == Some(
                (account@, vecs_view(notes@)),
            ),
            None => spec_decrypt_out(params, eta@, kappa@, memo@) is None,
        },
{
    let sizes = params.sizes();
    let num_size = sizes.num_size;
    let (nozero_items_num, enc_type) = match parse_memo_header(memo) {
        Some(h) => h,
        None => return None,
    };
    let nozero_notes_num = nozero_items_num - 1;
    proof {
        lemma_block_bound(nozero_notes_num as int, num_size as int);
        lemma_block_bound(nozero_items_num as int, num_size as int);
    }
    let shared_secret_ciphertext_size = nozero_items_num * U256_SIZE + POLY_1305_TAG_SIZE;
    let (account_hash, p0) = match buf_take(memo, MEMO_HEADER_SIZE, num_size) {
        Some(t) => t,
        None => return None,
    };
    if !params.is_num(account_hash) {
        return None;
    }
    let (note_hashes, p1) = match buf_take(memo, p0, nozero_notes_num * num_size) {
        Some(t) => t,
        None => return None,
    };
    assert(p1 == shared_secrets_pos(num_size as int, nozero_items_num as int)) by (nonlinear_arith)
        requires
            p1 == 4 + num_size + nozero_notes_num * num_size,
            nozero_notes_num == nozero_items_num - 1,
    ;
    let (text, p2) = decrypt_shared_secrets(
        enc_type,
        eta,
        kappa,
        memo,
        p1,
        shared_secret_ciphertext_size,
        params,
    );
    let text = match text {
        Some(t) => t,
        None => return None,
    };
    if text.len() < U256_SIZE * nozero_items_num {
        return None;
    }
    let account_key = read_key(text.as_slice(), 0);
    let (account_ciphertext, p3) = match buf_take(memo, p2, sizes.account_size + POLY_1305_TAG_SIZE) {
        Some(t) => t,
        None => return None,
    };
    let account = match decrypt_account(account_key, account_ciphertext, account_hash, params) {
        Some(a) => a,
        None => return None,
    };
    let ghost memo_v = memo@;
    let ghost hashes_v = note_hashes@;
    let ghost text_v = text@;
    let mut notes: Vec<Vec<u8>> = Vec::new();
    assert(vecs_view(notes@) =~= Seq::<Seq<u8>>::empty());
    let mut pos = p3;
    let mut i: usize = 0;
    while i < nozero_notes_num
        invariant
            i <= nozero_notes_num,
            nozero_notes_num < nozero_items_num <= 0xffff,
            pos <= memo@.len(),
            params.spec_sizes() == sizes,
            sizes.wf(),
            memo@ == memo_v,
            note_hashes@ == hashes_v,
            text@ == text_v,
            hashes_v.len() == nozero_notes_num * sizes.num_size,
            text_v.len() >= 32 * nozero_items_num,
            spec_out_notes(params, memo_v, p3 as int, hashes_v, text_v, 0, nozero_notes_num as int, seq![])
                == spec_out_notes(params, memo_v, pos as int, hashes_v, text_v, i as int, nozero_notes_num as int, vecs_view(notes@)),
        decreases nozero_notes_num - i,
    {
        let key = read_key(text.as_slice(), i + 1);
        let (r, next) = out_note_step(memo, pos, note_hashes, key, i, nozero_notes_num, params);
        match r {
            Some((note, _)) => {
                proof {
                    assert(vecs_view(notes@.push(note)) =~= vecs_view(notes@).push(note@));
                }
                notes.push(note);
            },
            None => {
                assert(spec_out_notes(params, memo_v, pos as int, hashes_v, text_v, i as int, nozero_notes_num as int, vecs_view(notes@)) is None);
                return None;
            },
        }
        pos = next;
        i = i + 1;
    }
    Some((account, notes))
}

/// What a receiver reads from a memo: one entry per note, the note where it
/// decrypts under the ECDH key and matches its hash; `None` when the memo is
/// malformed before the notes.
pub open spec fn spec_decrypt_in_notes<P: PoolParams>(
    params: &P,
    eta: Seq<u8>,
    memo: Seq<u8>,
) -> Option<Seq<Option<Seq<u8>>>> {
    let sizes = params.spec_sizes();
    let num_size = sizes.num_size as int;
    match spec_parse_memo_header(memo) {
        None => None,
        Some((items_num, enc_type)) => {
            let notes_num = items_num - 1;
            match spec_take(memo, 4, num_size) {
                None => None,
                Some(_) => match spec_take(memo, hashes_pos(num_size), notes_num * num_size) {
                    None => None,
                    Some(hashes) => match spec_shared_secrets_size(enc_type, num_size, items_num as int) {
                        None => None,
                        Some(ss_size) => {
                            let p = shared_secrets_pos(num_size, items_num as int);
                            match spec_take(memo, p, ss_size) {
                                None => None,
                                Some(_) => match spec_take(memo, p + ss_size, sizes.account_size + 16) {
                                    None => None,
                                    Some(_) => Some(
                                        spec_in_notes(
                                            params,
                                            eta,
                                            memo,
                                            p + ss_size + sizes.account_size + 16,
                                            hashes,
                                            0,
                                            notes_num,
                                            seq![],
                                        ),
                                    ),
                                },
                            }
                        },
                    },
                },
            }
        },
    }
}

/// Reads the notes of a memo as a receiver; `None` when the memo is
/// malformed before the notes.
pub fn _decrypt_in<P: PoolParams>(eta: &[u8], memo: &[u8], params: &P) -> (r: Option<Vec<Option<Vec<u8>>>>)
    ensures
        match r {
            Some(notes) => spec_decrypt_in_notes(params, eta@, memo@) == Some(opt_vecs_view(notes@)),
            None => spec_decrypt_in_notes(params, eta@, memo@) is None,
        },
{
    let sizes = params.sizes();
    let num_size = sizes.num_size;
    let (nozero_items_num, enc_type) = match parse_memo_header(memo) {
        Some(h) => h,
        None => return None,
    };
    let nozero_notes_num = nozero_items_num - 1;
    proof {
        lemma_block_bound(nozero_notes_num as int, num_size as int);
        lemma_block_bound(nozero_items_num as int, num_size as int);
    }
    let (_, p0) = match buf_take(memo, MEMO_HEADER_SIZE, num_size) {
        Some(t) => t,
        None => return None,
    };
    let (note_hashes, p1) = match buf_take(memo, p0, nozero_notes_num * num_size) {
        Some(t) => t,
        None => return None,
    };
    assert(p1 == shared_secrets_pos(num_size as int, nozero_items_num as int)) by (nonlinear_arith)
        requires
            p1 == 4 + num_size + nozero_notes_num * num_size,
            nozero_notes_num == nozero_items_num - 1,
    ;
    let ss_size = match shared_secrets_size(enc_type, num_size, nozero_items_num) {
        Some(s) => s,
        None => return None,
    };
    let (_, p2) = match buf_take(memo, p1, ss_size) {
        Some(t) => t,
        None => return None,
    };
    let (_, p3) = match buf_take(memo, p2, sizes.account_size + POLY_1305_TAG_SIZE) {
        Some(t) => t,
        None => return None,
    };
    let ghost memo_v = memo@;
    let ghost hashes_v = note_hashes@;
    let mut notes: Vec<Option<Vec<u8>>> = Vec::new();
    assert(opt_vecs_view(notes@) =~= Seq::<Option<Seq<u8>>>::empty());
    let mut pos = p3;
    let mut i: usize = 0;
    while i < nozero_notes_num
        invariant
            i <= nozero_notes_num,
            nozero_notes_num < nozero_items_num <= 0xffff,
            pos <= memo@.len(),
            params.spec_sizes() == sizes,
            sizes.wf(),
            memo@ == memo_v,
            note_hashes@ == hashes_v,
            hashes_v.len() == nozero_notes_num * sizes.num_size,
            spec_in_notes(params, eta@, memo_v, p3 as int, hashes_v, 0, nozero_notes_num as int, seq![])
                == spec_in_notes(params, eta@, memo_v, pos as int, hashes_v, i as int, nozero_notes_num as int, opt_vecs_view(notes@)),
        decreases nozero_notes_num - i,
    {
        let (r, next) = in_note_step(eta, memo, pos, note_hashes, i, nozero_notes_num, params);
        let note = match r {
            Some((note, _, _)) => Some(note),
            None => None,
        };
        proof {
            assert(opt_vecs_view(notes@.push(note)) =~= opt_vecs_view(notes@).push(opt_bytes(note)));
        }
        notes.push(note);
        pos = next;
        i = i + 1;
    }
    Some(notes)
}

/// Reads the notes of a memo as a receiver: one entry per note, empty when
/// the memo is malformed before the notes.
pub fn decrypt_in<P: PoolParams>(eta: &[u8], memo: &[u8], params: &P) -> (notes: Vec<Option<Vec<u8>>>)
    ensures
        opt_vecs_view(notes@) == match spec_decrypt_in_notes(params, eta@, memo@) {
            Some(notes) => notes,
            None => Seq::<Option<Seq<u8>>>::empty(),
        },
{
    match _decrypt_in(eta, memo, params) {
        Some(res) => res,
        None => {
            let empty: Vec<Option<Vec<u8>>> = Vec::new();
            assert(opt_vecs_view(empty@) =~= Seq::<Option<Seq<u8>>>::empty());
            empty
        },
    }
}

/// The encrypted chunks of a memo with their decryption keys: for its sender
/// the account (index 0) and every note that decrypts (index `i + 1`); for a
/// receiver the notes that decrypt under the ECDH key.
pub open spec fn spec_decryption_keys<P: PoolParams>(
    params: &P,
    eta: Seq<u8>,
    kappa: Seq<u8>,
    memo: Seq<u8>,
) -> Option<Seq<(u64, Seq<u8>, Seq<u8>)>> {
    let sizes = params.spec_sizes();
    let num_size = sizes.num_size as int;
    let ct_size = sizes.account_size + 16;
    match spec_parse_memo_header(memo) {
        None => None,
        Some((items_num, enc_type)) => {
            let notes_num = items_num - 1;
            match spec_take(memo, 4, num_size) {
                None => None,
                Some(account_hash) => if !params.spec_is_num(account_hash) {
                    None
                } else {
                    match spec_take(memo, hashes_pos(num_size), notes_num * num_size) {
                        None => None,
                        Some(hashes) => {
                            let (text, p) = spec_decrypt_shared_secrets(
                                params,
                                enc_type,
                                eta,
                                kappa,
                                memo,
                                shared_secrets_pos(num_size, items_num as int),
                                items_num * 32 + 16,
                            );
                            match text {
                                Some(text) => if text.len() < 32 * items_num {
                                    None
                                } else {
                                    match spec_take(memo, p, ct_size) {
                                        None => None,
                                        Some(ciphertext) => match spec_decrypt_account(
                                            params,
                                            key_at(text, 0),
                                            ciphertext,
                                            account_hash,
                                        ) {
                                            None => None,
                                            Some(_) => Some(
                                                spec_out_chunks(
                                                    params,
                                                    memo,
                                                    p + ct_size,
                                                    hashes,
                                                    text,
                                                    0,
                                                    notes_num,
                                                    seq![(0u64, ciphertext, key_at(text, 0))],
                                                ),
                                            ),
                                        },
                                    }
                                },
                                None => match spec_take(memo, p, ct_size) {
                                    None => None,
                                    Some(_) => Some(
                                        spec_in_chunks(
                                            params,
                                            eta,
                                            memo,
                                            p + ct_size,
                                            hashes,
                                            0,
                                            notes_num,
                                            seq![],
                                        ),
                                    ),
                                },
                            }
                        },
                    }
                },
            }
        },
    }
}

/// A chunk has a 32-byte key and the ciphertext of an account (index 0) or
/// of a note, with its tag.
pub open spec fn chunk_sizes_ok(sizes: crate::params::MemoSizes, chunk: (u64, Vec<u8>, Vec<u8>)) -> bool {
    &&& chunk.2@.len() == U256_SIZE
    &&& chunk.1@.len() == (if chunk.0 == 0 {
        sizes.account_size
    } else {
        sizes.note_size
    }) + 16
}

/// get encrypted memo chunks with associated decryption keys (chunk: account or note)
/// returns vector of tuple (index, chunk, key)
/// indexes are zero-based and enumerated within current memo
pub fn symcipher_decryption_keys<P: PoolParams>(eta: &[u8], kappa: &[u8; 32], memo: &[u8], params: &P) -> (r: Option<Vec<(u64, Vec<u8>, Vec<u8>)>>)
    ensures
        match r {
            Some(chunks) => spec_decryption_keys(params, eta@, kappa@, memo@) == Some(chunks_view(chunks@)),
            None => spec_decryption_keys(params, eta@, kappa@, memo@) is None,
        },
        r matches Some(chunks) ==> forall|j: int|
            0 <= j < chunks@.len() ==> chunk_sizes_ok(params.spec_sizes(), #[trigger] chunks@[j]),
        r matches Some(chunks) ==> forall|j: int, k: int|
            0 <= j < k < chunks@.len() ==> (#[trigger] chunks@[j]).0 < (#[trigger] chunks@[k]).0,
{
    let sizes = params.sizes();
    let num_size = sizes.num_size;
    let (nozero_items_num, enc_type) = match parse_memo_header(memo) {
        Some(h) => h,
        None => return None,
    };
    let nozero_notes_num = nozero_items_num - 1;
    proof {
        lemma_block_bound(nozero_notes_num as int, num_size as int);
        lemma_block_bound(nozero_items_num as int, num_size as int);
    }
    let shared_secret_ciphertext_size = nozero_items_num * U256_SIZE + POLY_1305_TAG_SIZE;
    let (account_hash, p0) = match buf_take(memo, MEMO_HEADER_SIZE, num_size) {
        Some(t) => t,
        None => return None,
    };
    if !params.is_num(account_hash) {
        return None;
    }
    let (note_hashes, p1) = match buf_take(memo, p0, nozero_notes_num * num_size) {
        Some(t) => t,
        None => return None,
    };
    assert(p1 == shared_secrets_pos(num_size as int, nozero_items_num as int)) by (nonlinear_arith)
        requires
            p1 == 4 + num_size + nozero_notes_num * num_size,
            nozero_notes_num == nozero_items_num - 1,
    ;
    let (text, p2) = decrypt_shared_secrets(
        enc_type,
        eta,
        kappa,
        memo,
        p1,
        shared_secret_ciphertext_size,
        params,
    );
    let ghost memo_v = memo@;
    let ghost hashes_v = note_hashes@;
    match text {
        Some(text) => {
            // here is our transaction: the account and all notes can be restored
            if text.len() < U256_SIZE * nozero_items_num {
                return None;
            }
            let account_key = read_key(text.as_slice(), 0);
            let (account_ciphertext, p3) = match buf_take(memo, p2, sizes.account_size + POLY_1305_TAG_SIZE) {
                Some(t) => t,
                None => return None,
            };
            match decrypt_account(account_key, account_ciphertext, account_hash, params) {
                Some(_) => {},
                None => return None,
            }
            let ghost text_v = text@;
            let mut chunks: Vec<(u64, Vec<u8>, Vec<u8>)> = Vec::new();
            chunks.push((0u64, slice_to_vec(account_ciphertext), slice_to_vec(account_key)));
            assert(chunks_view(chunks@) =~= seq![(0u64, account_ciphertext@, key_at(text_v, 0))]);
            let mut pos = p3;
            let mut i: usize = 0;
            while i < nozero_notes_num
                invariant
                    i <= nozero_notes_num,
                    nozero_notes_num < nozero_items_num <= 0xffff,
                    pos <= memo@.len(),
                    params.spec_sizes() == sizes,
                    sizes.wf(),
                    memo@ == memo_v,
                    note_hashes@ == hashes_v,
                    text@ == text_v,
                    hashes_v.len() == nozero_notes_num * sizes.num_size,
                    text_v.len() >= 32 * nozero_items_num,
                    forall|j: int|
                        0 <= j < chunks@.len() ==> chunk_sizes_ok(sizes, #[trigger] chunks@[j]),
                    spec_out_chunks(params, memo_v, p3 as int, hashes_v, text_v, 0, nozero_notes_num as int, seq![(0u64, account_ciphertext@, key_at(text_v, 0))])
                        == spec_out_chunks(params, memo_v, pos as int, hashes_v, text_v, i as int, nozero_notes_num as int, chunks_view(chunks@)),
                decreases nozero_notes_num - i,
            {
                let key = read_key(text.as_slice(), i + 1);
                let (r, next) = out_note_step(memo, pos, note_hashes, key, i, nozero_notes_num, params);
                match r {
                    Some((_, ciphertext)) => {
                        let chunk = ((i + 1) as u64, slice_to_vec(ciphertext), slice_to_vec(key));
                        proof {
                            assert(chunks_view(chunks@.push(chunk)) =~= chunks_view(chunks@).push(
                                ((i + 1) as u64, ciphertext@, key@),
                            ));
                        }
                        chunks.push(chunk);
                    },
                    None => {},
                }
                pos = next;
                i = i + 1;
            }
            assert(spec_decryption_keys(params, eta@, kappa@, memo@) == Some(chunks_view(chunks@)));
            proof {
                let cv = chunks_view(chunks@);
                lemma_decryption_keys_increasing(params, eta@, kappa@, memo@);
                assert(spec_decryption_keys(params, eta@, kappa@, memo@) == Some(cv));
                let c2 = spec_decryption_keys(params, eta@, kappa@, memo@).unwrap();
                assert(c2 == cv);
                assert(forall|j: int, k: int|
                    0 <= j < k < c2.len() ==> (#[trigger] c2[j]).0 < (#[trigger] c2[k]).0);
                assert(forall|j: int, k: int|
                    0 <= j < k < cv.len() ==> (#[trigger] cv[j]).0 < (#[trigger] cv[k]).0);
                assert forall|j: int, k: int| 0 <= j < k < chunks@.len() implies (
                #[trigger] chunks@[j]).0 < (#[trigger] chunks@[k]).0 by {
                    assert(chunks_view(chunks@)[j].0 == chunks@[j].0);
                    assert(chunks_view(chunks@)[k].0 == chunks@[k].0);
                }
            }
            Some(chunks)
        },
        None => {
            // search for incoming notes
            let (_, p3) = match buf_take(memo, p2, sizes.account_size + POLY_1305_TAG_SIZE) {
                Some(t) => t,
                None => return None,
            };
            let mut chunks: Vec<(u64, Vec<u8>, Vec<u8>)> = Vec::new();
            assert(chunks_view(chunks@) =~= Seq::<(u64, Seq<u8>, Seq<u8>)>::empty());
            let mut pos = p3;
            let mut i: usize = 0;
            while i < nozero_notes_num
                invariant
                    i <= nozero_notes_num,
                    nozero_notes_num < nozero_items_num <= 0xffff,
                    pos <= memo@.len(),
                    params.spec_sizes() == sizes,
                    sizes.wf(),
                    memo@ == memo_v,
                    note_hashes@ == hashes_v,
                    hashes_v.len() == nozero_notes_num * sizes.num_size,
                    forall|j: int|
                        0 <= j < chunks@.len() ==> chunk_sizes_ok(sizes, #[trigger] chunks@[j]),
                    spec_in_chunks(params, eta@, memo_v, p3 as int, hashes_v, 0, nozero_notes_num as int, seq![])
                        == spec_in_chunks(params, eta@, memo_v, pos as int, hashes_v, i as int, nozero_notes_num as int, chunks_view(chunks@)),
                decreases nozero_notes_num - i,
            {
                let (r, next) = in_note_step(eta, memo, pos, note_hashes, i, nozero_notes_num, params);
                match r {
                    Some((_, ciphertext, key)) => {
                        let chunk = ((i + 1) as u64, slice_to_vec(ciphertext), key);
                        proof {
                            assert(chunks_view(chunks@.push(chunk)) =~= chunks_view(chunks@).push(
                                ((i + 1) as u64, ciphertext@, chunk.2@),
                            ));
                        }
                        chunks.push(chunk);
                    },
                    None => {},
                }
                pos = next;
                i = i + 1;
            }
            assert(spec_decryption_keys(params, eta@, kappa@, memo@) == Some(chunks_view(chunks@)));
            proof {
                let cv = chunks_view(chunks@);
                lemma_decryption_keys_increasing(params, eta@, kappa@, memo@);
                assert(spec_decryption_keys(params, eta@, kappa@, memo@) == Some(cv));
                let c2 = spec_decryption_keys(params, eta@, kappa@, memo@).unwrap();
                assert(c2 == cv);
                assert(forall|j: int, k: int|
                    0 <= j < k < c2.len() ==> (#[trigger] c2[j]).0 < (#[trigger] c2[k]).0);
                assert(forall|j: int, k: int|
                    0 <= j < k < cv.len() ==> (#[trigger] cv[j]).0 < (#[trigger] cv[k]).0);
                assert forall|j: int, k: int| 0 <= j < k < chunks@.len() implies (
                #[trigger] chunks@[j]).0 < (#[trigger] chunks@[k]).0 by {
                    assert(chunks_view(chunks@)[j].0 == chunks@[j].0);
                    assert(chunks_view(chunks@)[k].0 == chunks@[k].0);
                }
            }
            Some(chunks)
        },
    }
}

} // verus!
