//! Properties of the memo functions on every input.
use crate::cipher::{
    spec_decrypt_account, spec_decrypt_account_no_validate, spec_decrypt_note,
    spec_decrypt_note_no_validate,
};
use crate::decrypt::{
    hashes_pos, spec_decrypt_in_notes, spec_decrypt_shared_secrets, spec_decryption_keys,
    spec_decrypt_out, spec_in_chunks, spec_in_note_step, spec_in_notes, spec_out_chunks, spec_out_note_step, spec_out_notes,
};
use crate::layout::{hash_at, lemma_block_bound, lemma_item_in_block};
use crate::memo::{
    spec_encryption_code, spec_encryption_type, spec_parse_memo_header, spec_take,
    MessageEncryptionType,
};
use crate::params::PoolParams;
use crate::symmetric::{
    spec_chacha20poly1305_decrypt, spec_chacha20poly1305_encrypt, spec_decrypt_constant_nonce,
    spec_encrypt_constant_nonce,
};
use vstd::prelude::*;

verus! {

/// Every encryption type reads back from its header code.
pub proof fn lemma_encryption_code_roundtrip(t: MessageEncryptionType)
    ensures
        spec_encryption_type(spec_encryption_code(t)) == Some(t),
{
}

/// A note that decrypts and matches its hash is the note that decrypts
/// without the check, and it hashes to that hash; likewise for an account.
pub proof fn lemma_validated_items_decrypt<P: PoolParams>(
    params: &P,
    symkey: Seq<u8>,
    ciphertext: Seq<u8>,
    hash: Seq<u8>,
)
    ensures
        spec_decrypt_note(params, symkey, ciphertext, hash) matches Some(note) ==> (
        spec_decrypt_note_no_validate(params, symkey, ciphertext) == Some(note)
            && params.spec_note_hash(note) == Some(hash)),
        spec_decrypt_account(params, symkey, ciphertext, hash) matches Some(account) ==> (
        spec_decrypt_account_no_validate(params, symkey, ciphertext) == Some(account)
            && params.spec_account_hash(account) == Some(hash)),
{
}

/// The `k`-th hash of a memo: the account's for `k == 0`, the hash of note
/// `k - 1` otherwise.
pub open spec fn memo_hash(memo: Seq<u8>, num_size: int, k: int) -> Seq<u8> {
    memo.subrange(4 + k * num_size, 4 + k * num_size + num_size)
}

/// A chunk decrypts under its key to an account (index 0) or a note that
/// matches the memo's hash of the same index.
pub open spec fn chunk_decrypts<P: PoolParams>(
    params: &P,
    memo: Seq<u8>,
    chunk: (u64, Seq<u8>, Seq<u8>),
) -> bool {
    let num_size = params.spec_sizes().num_size as int;
    if chunk.0 == 0 {
        spec_decrypt_account(params, chunk.2, chunk.1, memo_hash(memo, num_size, 0)) is Some
    } else {
        spec_decrypt_note(params, chunk.2, chunk.1, memo_hash(memo, num_size, chunk.0 as int)) is Some
    }
}

/// The note hashes of a memo are its hashes from index 1 on.
proof fn lemma_note_hash_in_memo(memo: Seq<u8>, num_size: int, count: int, i: int)
    requires
        0 <= i < count,
        0 <= num_size,
        4 + num_size + count * num_size <= memo.len(),
    ensures
        hash_at(memo.subrange(4 + num_size, 4 + num_size + count * num_size), num_size, i)
            == memo_hash(memo, num_size, i + 1),
{
    lemma_item_in_block(i, count, num_size);
    assert(hash_at(memo.subrange(4 + num_size, 4 + num_size + count * num_size), num_size, i)
        =~= memo_hash(memo, num_size, i + 1));
}

/// The chunks that a sender recovers from notes `i..count` decrypt.
proof fn lemma_out_chunks_decrypt<P: PoolParams>(
    params: &P,
    memo: Seq<u8>,
    pos: int,
    text: Seq<u8>,
    i: int,
    count: int,
    acc: Seq<(u64, Seq<u8>, Seq<u8>)>,
)
    requires
        params.spec_sizes().wf(),
        0 <= i <= count <= 0xffff,
        4 + params.spec_sizes().num_size + count * params.spec_sizes().num_size <= memo.len(),
        forall|j: int| 0 <= j < acc.len() ==> chunk_decrypts(params, memo, #[trigger] acc[j]),
    ensures
        forall|j: int|
            0 <= j < spec_out_chunks(
                params,
                memo,
                pos,
                memo.subrange(
                    4 + params.spec_sizes().num_size,
                    4 + params.spec_sizes().num_size + count * params.spec_sizes().num_size,
                ),
                text,
                i,
                count,
                acc,
            ).len() ==> chunk_decrypts(
                params,
                memo,
                #[trigger] spec_out_chunks(
                    params,
                    memo,
                    pos,
                    memo.subrange(
                        4 + params.spec_sizes().num_size,
                        4 + params.spec_sizes().num_size + count * params.spec_sizes().num_size,
                    ),
                    text,
                    i,
                    count,
                    acc,
                )[j],
            ),
    decreases count - i,
{
    let num_size = params.spec_sizes().num_size as int;
    let hashes = memo.subrange(4 + num_size, 4 + num_size + count * num_size);
    if i < count {
        let key = crate::layout::key_at(text, i + 1);
        let (r, next) = spec_out_note_step(params, memo, pos, hashes, key, i);
        let acc2 = match r {
            Some((_, ciphertext)) => acc.push(((i + 1) as u64, ciphertext, key)),
            None => acc,
        };
        if let Some((_, ciphertext)) = r {
            lemma_note_hash_in_memo(memo, num_size, count, i);
            assert(chunk_decrypts(params, memo, ((i + 1) as u64, ciphertext, key)));
        }
        assert forall|j: int| 0 <= j < acc2.len() implies chunk_decrypts(params, memo, #[trigger] acc2[j]) by {
            if j < acc.len() {
                assert(acc2[j] == acc[j]);
            }
        }
        lemma_out_chunks_decrypt(params, memo, next, text, i + 1, count, acc2);
        assert(spec_out_chunks(params, memo, pos, hashes, text, i, count, acc) == spec_out_chunks(
            params,
            memo,
            next,
            hashes,
            text,
            i + 1,
            count,
            acc2,
        ));
    } else {
        assert(spec_out_chunks(params, memo, pos, hashes, text, i, count, acc) == acc);
    }
}

/// The chunks that a receiver recovers from notes `i..count` decrypt.
proof fn lemma_in_chunks_decrypt<P: PoolParams>(
    params: &P,
    eta: Seq<u8>,
    memo: Seq<u8>,
    pos: int,
    i: int,
    count: int,
    acc: Seq<(u64, Seq<u8>, Seq<u8>)>,
)
    requires
        params.spec_sizes().wf(),
        0 <= i <= count <= 0xffff,
        4 + params.spec_sizes().num_size + count * params.spec_sizes().num_size <= memo.len(),
        forall|j: int| 0 <= j < acc.len() ==> chunk_decrypts(params, memo, #[trigger] acc[j]),
    ensures
        forall|j: int|
            0 <= j < spec_in_chunks(
                params,
                eta,
                memo,
                pos,
                memo.subrange(
                    4 + params.spec_sizes().num_size,
                    4 + params.spec_sizes().num_size + count * params.spec_sizes().num_size,
                ),
                i,
                count,
                acc,
            ).len() ==> chunk_decrypts(
                params,
                memo,
                #[trigger] spec_in_chunks(
                    params,
                    eta,
                    memo,
                    pos,
                    memo.subrange(
                        4 + params.spec_sizes().num_size,
                        4 + params.spec_sizes().num_size + count * params.spec_sizes().num_size,
                    ),
                    i,
                    count,
                    acc,
                )[j],
            ),
    decreases count - i,
{
    let num_size = params.spec_sizes().num_size as int;
    let hashes = memo.subrange(4 + num_size, 4 + num_size + count * num_size);
    if i < count {
        let (r, next) = spec_in_note_step(params, eta, memo, pos, hashes, i);
        let acc2 = match r {
            Some((_, ciphertext, key)) => acc.push(((i + 1) as u64, ciphertext, key)),
            None => acc,
        };
        if let Some((_, ciphertext, key)) = r {
            lemma_note_hash_in_memo(memo, num_size, count, i);
            assert(chunk_decrypts(params, memo, ((i + 1) as u64, ciphertext, key)));
        }
        assert forall|j: int| 0 <= j < acc2.len() implies chunk_decrypts(params, memo, #[trigger] acc2[j]) by {
            if j < acc.len() {
                assert(acc2[j] == acc[j]);
            }
        }
        lemma_in_chunks_decrypt(params, eta, memo, next, i + 1, count, acc2);
        assert(spec_in_chunks(params, eta, memo, pos, hashes, i, count, acc) == spec_in_chunks(
            params,
            eta,
            memo,
            next,
            hashes,
            i + 1,
            count,
            acc2,
        ));
    } else {
        assert(spec_in_chunks(params, eta, memo, pos, hashes, i, count, acc) == acc);
    }
}

/// Every chunk that [`crate::decrypt::symcipher_decryption_keys`] returns
/// decrypts under the key returned with it: to an account that matches the
/// memo's account hash (index 0), or to a note that matches the memo's hash
/// of that note (index `i + 1` for note `i`).
pub proof fn lemma_decryption_keys_decrypt<P: PoolParams>(
    params: &P,
    eta: Seq<u8>,
    kappa: Seq<u8>,
    memo: Seq<u8>,
)
    requires
        params.spec_sizes().wf(),
    ensures
        spec_decryption_keys(params, eta, kappa, memo) matches Some(chunks) ==> forall|j: int|
            0 <= j < chunks.len() ==> chunk_decrypts(params, memo, #[trigger] chunks[j]),
{
    let sizes = params.spec_sizes();
    let num_size = sizes.num_size as int;
    if let Some((items_num, enc_type)) = spec_parse_memo_header(memo) {
        let count = items_num - 1;
        lemma_block_bound(count, num_size);
        if spec_decryption_keys(params, eta, kappa, memo) is Some {
            assert(4 + num_size + count * num_size <= memo.len());
            assert(memo.subrange(hashes_pos(num_size), hashes_pos(num_size) + count * num_size)
                == memo.subrange(4 + num_size, 4 + num_size + count * num_size));
            let (text, p) = crate::decrypt::spec_decrypt_shared_secrets(
                params,
                enc_type,
                eta,
                kappa,
                memo,
                crate::decrypt::shared_secrets_pos(num_size, items_num as int),
                items_num * 32 + 16,
            );
            let ct_size = sizes.account_size + 16;
            match text {
                Some(text) => {
                    let ciphertext = memo.subrange(p, p + ct_size);
                    let first = (0u64, ciphertext, crate::layout::key_at(text, 0));
                    assert(memo_hash(memo, num_size, 0) =~= memo.subrange(4, 4 + num_size));
                    assert(chunk_decrypts(params, memo, first));
                    let acc = seq![first];
                    assert(acc[0] == first);
                    lemma_out_chunks_decrypt(params, memo, p + ct_size, text, 0, count, acc);
                },
                None => {
                    lemma_in_chunks_decrypt(
                        params,
                        eta,
                        memo,
                        p + ct_size,
                        0,
                        count,
                        Seq::<(u64, Seq<u8>, Seq<u8>)>::empty(),
                    );
                },
            }
        }
    }
}

/// Reading notes `i..count` as a receiver gives one entry per note.
proof fn lemma_in_notes_len<P: PoolParams>(
    params: &P,
    eta: Seq<u8>,
    memo: Seq<u8>,
    pos: int,
    hashes: Seq<u8>,
    i: int,
    count: int,
    acc: Seq<Option<Seq<u8>>>,
)
    requires
        i <= count,
    ensures
        spec_in_notes(params, eta, memo, pos, hashes, i, count, acc).len() == acc.len() + count - i,
    decreases count - i,
{
    if i < count {
        let (r, next) = spec_in_note_step(params, eta, memo, pos, hashes, i);
        let note = match r {
            Some((note, _, _)) => Some(note),
            None => None,
        };
        lemma_in_notes_len(params, eta, memo, next, hashes, i + 1, count, acc.push(note));
    }
}

/// Reading notes `i..count` as their sender gives, on success, one note each.
proof fn lemma_out_notes_len<P: PoolParams>(
    params: &P,
    memo: Seq<u8>,
    pos: int,
    hashes: Seq<u8>,
    text: Seq<u8>,
    i: int,
    count: int,
    acc: Seq<Seq<u8>>,
)
    requires
        i <= count,
    ensures
        spec_out_notes(params, memo, pos, hashes, text, i, count, acc) matches Some(notes) ==> notes.len()
            == acc.len() + count - i,
    decreases count - i,
{
    if i < count {
        let (r, next) = spec_out_note_step(
            params,
            memo,
            pos,
            hashes,
            crate::layout::key_at(text, i + 1),
            i,
        );
        if let Some((note, _)) = r {
            lemma_out_notes_len(params, memo, next, hashes, text, i + 1, count, acc.push(note));
        }
    }
}

/// A receiver reads one entry for each note that the memo header counts.
pub proof fn lemma_decrypt_in_len<P: PoolParams>(params: &P, eta: Seq<u8>, memo: Seq<u8>)
    ensures
        spec_decrypt_in_notes(params, eta, memo) matches Some(notes) ==> (spec_parse_memo_header(
            memo,
        ) matches Some((items_num, _)) && notes.len() == items_num - 1),
{
    if let Some((items_num, enc_type)) = spec_parse_memo_header(memo) {
        let sizes = params.spec_sizes();
        let num_size = sizes.num_size as int;
        let notes_num = items_num - 1;
        let hashes = memo.subrange(hashes_pos(num_size), hashes_pos(num_size) + notes_num * num_size);
        if let Some(ss_size) = crate::memo::spec_shared_secrets_size(enc_type, num_size, items_num as int) {
            let p = crate::decrypt::shared_secrets_pos(num_size, items_num as int);
            lemma_in_notes_len(
                params,
                eta,
                memo,
                p + ss_size + sizes.account_size + 16,
                hashes,
                0,
                notes_num,
                seq![],
            );
        }
    }
}

/// The sender reads back one note for each note that the memo header counts.
pub proof fn lemma_decrypt_out_len<P: PoolParams>(
    params: &P,
    eta: Seq<u8>,
    kappa: Seq<u8>,
    memo: Seq<u8>,
)
    ensures
        spec_decrypt_out(params, eta, kappa, memo) matches Some((_, notes)) ==> (
        spec_parse_memo_header(memo) matches Some((items_num, _)) && notes.len() == items_num - 1),
{
    if let Some((items_num, enc_type)) = spec_parse_memo_header(memo) {
        let sizes = params.spec_sizes();
        let num_size = sizes.num_size as int;
        let notes_num = items_num - 1;
        let hashes = memo.subrange(hashes_pos(num_size), hashes_pos(num_size) + notes_num * num_size);
        let (text, p) = crate::decrypt::spec_decrypt_shared_secrets(
            params,
            enc_type,
            eta,
            kappa,
            memo,
            crate::decrypt::shared_secrets_pos(num_size, items_num as int),
            items_num * 32 + 16,
        );
        if let Some(text) = text {
            lemma_out_notes_len(
                params,
                memo,
                p + sizes.account_size + 16,
                hashes,
                text,
                0,
                notes_num,
                seq![],
            );
        }
    }
}

/// A memo of plain type has no shared secrets: its sender reads nothing back.
pub proof fn lemma_plain_memo_not_decrypted<P: PoolParams>(
    params: &P,
    eta: Seq<u8>,
    kappa: Seq<u8>,
    memo: Seq<u8>,
)
    requires
        spec_parse_memo_header(memo) matches Some((_, t)) && t == MessageEncryptionType::Plain,
    ensures
        spec_decrypt_out(params, eta, kappa, memo) is None,
        spec_decrypt_in_notes(params, eta, memo) is None,
{
}

/// The notes that a sender reads from notes `i..count` match the memo's
/// hashes of the same index.
proof fn lemma_out_notes_hashes<P: PoolParams>(
    params: &P,
    memo: Seq<u8>,
    pos: int,
    text: Seq<u8>,
    i: int,
    count: int,
    acc: Seq<Seq<u8>>,
)
    requires
        params.spec_sizes().wf(),
        0 <= i <= count <= 0xffff,
        acc.len() == i,
        4 + params.spec_sizes().num_size + count * params.spec_sizes().num_size <= memo.len(),
        forall|j: int|
            0 <= j < acc.len() ==> params.spec_note_hash(#[trigger] acc[j]) == Some(
                memo_hash(memo, params.spec_sizes().num_size as int, j + 1),
            ),
    ensures
        spec_out_notes(
            params,
            memo,
            pos,
            memo.subrange(
                4 + params.spec_sizes().num_size,
                4 + params.spec_sizes().num_size + count * params.spec_sizes().num_size,
            ),
            text,
            i,
            count,
            acc,
        ) matches Some(notes) ==> forall|j: int|
            0 <= j < notes.len() ==> params.spec_note_hash(#[trigger] notes[j]) == Some(
                memo_hash(memo, params.spec_sizes().num_size as int, j + 1),
            ),
    decreases count - i,
{
    let num_size = params.spec_sizes().num_size as int;
    let hashes = memo.subrange(4 + num_size, 4 + num_size + count * num_size);
    if i < count {
        let key = crate::layout::key_at(text, i + 1);
        let (r, next) = spec_out_note_step(params, memo, pos, hashes, key, i);
        if let Some((note, _)) = r {
            lemma_note_hash_in_memo(memo, num_size, count, i);
            let acc2 = acc.push(note);
            assert forall|j: int| 0 <= j < acc2.len() implies params.spec_note_hash(#[trigger] acc2[j])
                == Some(memo_hash(memo, num_size, j + 1)) by {
                if j < acc.len() {
                    assert(acc2[j] == acc[j]);
                }
            }
            lemma_out_notes_hashes(params, memo, next, text, i + 1, count, acc2);
        }
    }
}

/// What the sender reads back from a memo matches the memo's hashes: the
/// account its account hash, and each note the hash of its index.
pub proof fn lemma_decrypt_out_matches_hashes<P: PoolParams>(
    params: &P,
    eta: Seq<u8>,
    kappa: Seq<u8>,
    memo: Seq<u8>,
)
    requires
        params.spec_sizes().wf(),
    ensures
        spec_decrypt_out(params, eta, kappa, memo) matches Some((account, notes)) ==> {
            &&& params.spec_account_hash(account) == Some(
                memo_hash(memo, params.spec_sizes().num_size as int, 0),
            )
            &&& forall|j: int|
                0 <= j < notes.len() ==> params.spec_note_hash(#[trigger] notes[j]) == Some(
                    memo_hash(memo, params.spec_sizes().num_size as int, j + 1),
                )
        },
{
    let sizes = params.spec_sizes();
    let num_size = sizes.num_size as int;
    if let Some((items_num, enc_type)) = spec_parse_memo_header(memo) {
        let count = items_num - 1;
        lemma_block_bound(count, num_size);
        if spec_decrypt_out(params, eta, kappa, memo) is Some {
            assert(memo.subrange(hashes_pos(num_size), hashes_pos(num_size) + count * num_size)
                == memo.subrange(4 + num_size, 4 + num_size + count * num_size));
            assert(memo_hash(memo, num_size, 0) =~= memo.subrange(4, 4 + num_size));
            let (text, p) = crate::decrypt::spec_decrypt_shared_secrets(
                params,
                enc_type,
                eta,
                kappa,
                memo,
                crate::decrypt::shared_secrets_pos(num_size, items_num as int),
                items_num * 32 + 16,
            );
            let text = text.unwrap();
            lemma_out_notes_hashes(
                params,
                memo,
                p + sizes.account_size + 16,
                text,
                0,
                count,
                Seq::<Seq<u8>>::empty(),
            );
        }
    }
}

/// The entries that a receiver reads from notes `i..count` match the memo's
/// hashes of the same index.
proof fn lemma_in_notes_hashes<P: PoolParams>(
    params: &P,
    eta: Seq<u8>,
    memo: Seq<u8>,
    pos: int,
    i: int,
    count: int,
    acc: Seq<Option<Seq<u8>>>,
)
    requires
        params.spec_sizes().wf(),
        0 <= i <= count <= 0xffff,
        acc.len() == i,
        4 + params.spec_sizes().num_size + count * params.spec_sizes().num_size <= memo.len(),
        forall|j: int|
            0 <= j < acc.len() ==> (#[trigger] acc[j] matches Some(note) ==> params.spec_note_hash(note)
                == Some(memo_hash(memo, params.spec_sizes().num_size as int, j + 1))),
    ensures
        ({
            let notes = spec_in_notes(
                params,
                eta,
                memo,
                pos,
                memo.subrange(
                    4 + params.spec_sizes().num_size,
                    4 + params.spec_sizes().num_size + count * params.spec_sizes().num_size,
                ),
                i,
                count,
                acc,
            );
            forall|j: int|
                0 <= j < notes.len() ==> (#[trigger] notes[j] matches Some(note)
                    ==> params.spec_note_hash(note) == Some(
                    memo_hash(memo, params.spec_sizes().num_size as int, j + 1),
                ))
        }),
    decreases count - i,
{
    let num_size = params.spec_sizes().num_size as int;
    let hashes = memo.subrange(4 + num_size, 4 + num_size + count * num_size);
    if i < count {
        let (r, next) = spec_in_note_step(params, eta, memo, pos, hashes, i);
        let entry = match r {
            Some((note, _, _)) => Some(note),
            None => None,
        };
        lemma_note_hash_in_memo(memo, num_size, count, i);
        let acc2 = acc.push(entry);
        assert forall|j: int| 0 <= j < acc2.len() implies (#[trigger] acc2[j] matches Some(note)
            ==> params.spec_note_hash(note) == Some(memo_hash(memo, num_size, j + 1))) by {
            if j < acc.len() {
                assert(acc2[j] == acc[j]);
            }
        }
        lemma_in_notes_hashes(params, eta, memo, next, i + 1, count, acc2);
        assert(spec_in_notes(params, eta, memo, pos, hashes, i, count, acc) == spec_in_notes(
            params,
            eta,
            memo,
            next,
            hashes,
            i + 1,
            count,
            acc2,
        ));
    } else {
        assert(spec_in_notes(params, eta, memo, pos, hashes, i, count, acc) == acc);
    }
}

/// Every note that a receiver reads from a memo matches the memo's hash of
/// that note.
pub proof fn lemma_decrypt_in_matches_hashes<P: PoolParams>(
    params: &P,
    eta: Seq<u8>,
    memo: Seq<u8>,
)
    requires
        params.spec_sizes().wf(),
    ensures
        spec_decrypt_in_notes(params, eta, memo) matches Some(notes) ==> forall|j: int|
            0 <= j < notes.len() ==> (#[trigger] notes[j] matches Some(note)
                ==> params.spec_note_hash(note) == Some(
                memo_hash(memo, params.spec_sizes().num_size as int, j + 1),
            )),
{
    let sizes = params.spec_sizes();
    let num_size = sizes.num_size as int;
    if let Some((items_num, enc_type)) = spec_parse_memo_header(memo) {
        let count = items_num - 1;
        lemma_block_bound(count, num_size);
        if spec_decrypt_in_notes(params, eta, memo) is Some {
            assert(memo.subrange(hashes_pos(num_size), hashes_pos(num_size) + count * num_size)
                == memo.subrange(4 + num_size, 4 + num_size + count * num_size));
            let ss_size = crate::memo::spec_shared_secrets_size(enc_type, num_size, items_num as int)
                .unwrap();
            let p = crate::decrypt::shared_secrets_pos(num_size, items_num as int);
            lemma_in_notes_hashes(
                params,
                eta,
                memo,
                p + ss_size + sizes.account_size + 16,
                0,
                count,
                Seq::<Option<Seq<u8>>>::empty(),
            );
        }
    }
}

/// The size of a well-formed memo of `items_num` items: header, hashes,
/// shared-secret block, encrypted account, and one block per note.
pub open spec fn spec_memo_size(
    sizes: crate::params::MemoSizes,
    items_num: int,
    enc_type: MessageEncryptionType,
) -> int {
    4 + items_num * sizes.num_size + crate::memo::spec_shared_secrets_size(
        enc_type,
        sizes.num_size as int,
        items_num,
    ).unwrap() + sizes.account_size + 16 + (items_num - 1) * crate::layout::note_stride(sizes)
}

/// Notes `i..count` read successfully by their sender occupy one note block
/// each from `pos`.
proof fn lemma_out_notes_span<P: PoolParams>(
    params: &P,
    memo: Seq<u8>,
    pos: int,
    hashes: Seq<u8>,
    text: Seq<u8>,
    i: int,
    count: int,
    acc: Seq<Seq<u8>>,
)
    requires
        i <= count,
        pos <= memo.len(),
    ensures
        spec_out_notes(params, memo, pos, hashes, text, i, count, acc) is Some ==> pos + (count - i)
            * crate::layout::note_stride(params.spec_sizes()) <= memo.len(),
    decreases count - i,
{
    let stride = crate::layout::note_stride(params.spec_sizes());
    if i < count {
        let key = crate::layout::key_at(text, i + 1);
        let (r, next) = spec_out_note_step(params, memo, pos, hashes, key, i);
        if let Some((note, _)) = r {
            lemma_out_notes_span(params, memo, next, hashes, text, i + 1, count, acc.push(note));
            assert(spec_out_notes(params, memo, pos, hashes, text, i, count, acc) == spec_out_notes(
                params,
                memo,
                next,
                hashes,
                text,
                i + 1,
                count,
                acc.push(note),
            ));
            assert(next == pos + stride);
            assert((count - i) * stride == (count - (i + 1)) * stride + stride) by (nonlinear_arith);
        }
    } else {
        assert((count - i) * stride == 0) by (nonlinear_arith)
            requires
                i == count,
        ;
    }
}

/// A memo that its sender reads back holds at least all the bytes that its
/// header announces.
pub proof fn lemma_decrypt_out_size<P: PoolParams>(
    params: &P,
    eta: Seq<u8>,
    kappa: Seq<u8>,
    memo: Seq<u8>,
)
    ensures
        spec_decrypt_out(params, eta, kappa, memo) is Some ==> (spec_parse_memo_header(memo) matches Some(
            (items_num, enc_type),
        ) && memo.len() >= spec_memo_size(params.spec_sizes(), items_num as int, enc_type)),
{
    if let Some((items_num, enc_type)) = spec_parse_memo_header(memo) {
        let sizes = params.spec_sizes();
        let num_size = sizes.num_size as int;
        let notes_num = items_num - 1;
        let hashes = memo.subrange(hashes_pos(num_size), hashes_pos(num_size) + notes_num * num_size);
        let (text, p) = crate::decrypt::spec_decrypt_shared_secrets(
            params,
            enc_type,
            eta,
            kappa,
            memo,
            crate::decrypt::shared_secrets_pos(num_size, items_num as int),
            items_num * 32 + 16,
        );
        if spec_decrypt_out(params, eta, kappa, memo) is Some {
            let text = text.unwrap();
            lemma_out_notes_span(
                params,
                memo,
                p + sizes.account_size + 16,
                hashes,
                text,
                0,
                notes_num,
                seq![],
            );
        }
    }
}

/// A memo of exactly the announced size with its last byte removed is
/// rejected by its sender.
pub proof fn lemma_truncated_memo_rejected<P: PoolParams>(
    params: &P,
    eta: Seq<u8>,
    kappa: Seq<u8>,
    memo: Seq<u8>,
)
    requires
        params.spec_sizes().wf(),
        spec_parse_memo_header(memo) matches Some((items_num, enc_type)) && enc_type
            != MessageEncryptionType::Plain && memo.len() == spec_memo_size(
            params.spec_sizes(),
            items_num as int,
            enc_type,
        ),
    ensures
        spec_decrypt_out(params, eta, kappa, memo.drop_last()) is None,
{
    let (items_num, enc_type) = spec_parse_memo_header(memo).unwrap();
    let short = memo.drop_last();
    let sizes = params.spec_sizes();
    assert(items_num * sizes.num_size >= 0) by (nonlinear_arith)
        requires
            items_num >= 0,
            sizes.num_size >= 0,
    ;
    assert((items_num - 1) * crate::layout::note_stride(sizes) >= 0) by (nonlinear_arith)
        requires
            items_num >= 1,
            crate::layout::note_stride(sizes) >= 0,
    ;
    assert(short.subrange(0, 4) =~= memo.subrange(0, 4));
    assert(short[0] == memo[0] && short[1] == memo[1] && short[2] == memo[2] && short[3] == memo[3]);
    assert(spec_parse_memo_header(short) == spec_parse_memo_header(memo));
    lemma_decrypt_out_size(params, eta, kappa, short);
}

/// A range that a memo holds reads the same after bytes are appended.
proof fn lemma_take_extends(memo: Seq<u8>, extra: Seq<u8>, pos: int, size: int)
    ensures
        spec_take(memo, pos, size) matches Some(x) ==> spec_take(memo + extra, pos, size) == Some(x),
{
    if spec_take(memo, pos, size) is Some {
        assert((memo + extra).subrange(pos, pos + size) =~= memo.subrange(pos, pos + size));
    }
}

/// A shared-secret block that decrypts reads the same after bytes are
/// appended to the memo.
proof fn lemma_shared_secrets_extend<P: PoolParams>(
    params: &P,
    enc_type: MessageEncryptionType,
    eta: Seq<u8>,
    kappa: Seq<u8>,
    memo: Seq<u8>,
    extra: Seq<u8>,
    pos: int,
    size: int,
)
    ensures
        spec_decrypt_shared_secrets(params, enc_type, eta, kappa, memo, pos, size).0 is Some
            ==> spec_decrypt_shared_secrets(params, enc_type, eta, kappa, memo + extra, pos, size)
            == spec_decrypt_shared_secrets(params, enc_type, eta, kappa, memo, pos, size),
{
    let num_size = params.spec_sizes().num_size as int;
    lemma_take_extends(memo, extra, pos, num_size);
    lemma_take_extends(memo, extra, pos + num_size, size);
    lemma_take_extends(memo, extra, pos, 24);
    lemma_take_extends(memo, extra, pos + 24, size);
}

/// Notes that their sender reads from a memo read the same after bytes are
/// appended to it.
proof fn lemma_out_notes_extend<P: PoolParams>(
    params: &P,
    memo: Seq<u8>,
    extra: Seq<u8>,
    pos: int,
    hashes: Seq<u8>,
    text: Seq<u8>,
    i: int,
    count: int,
    acc: Seq<Seq<u8>>,
)
    ensures
        spec_out_notes(params, memo, pos, hashes, text, i, count, acc) is Some ==> spec_out_notes(
            params,
            memo + extra,
            pos,
            hashes,
            text,
            i,
            count,
            acc,
        ) == spec_out_notes(params, memo, pos, hashes, text, i, count, acc),
    decreases count - i,
{
    if i < count {
        let num_size = params.spec_sizes().num_size as int;
        let ct_size = params.spec_sizes().note_size + 16;
        let key = crate::layout::key_at(text, i + 1);
        lemma_take_extends(memo, extra, pos, num_size);
        lemma_take_extends(memo, extra, pos + num_size, ct_size);
        let (r, next) = spec_out_note_step(params, memo, pos, hashes, key, i);
        if let Some((note, _)) = r {
            assert(spec_out_note_step(params, memo + extra, pos, hashes, key, i) == (r, next));
            lemma_out_notes_extend(params, memo, extra, next, hashes, text, i + 1, count, acc.push(note));
        }
    }
}

/// Bytes after what a memo's sender reads are ignored: a memo that reads
/// back reads back the same with any bytes appended.
pub proof fn lemma_decrypt_out_ignores_trailing_bytes<P: PoolParams>(
    params: &P,
    eta: Seq<u8>,
    kappa: Seq<u8>,
    memo: Seq<u8>,
    extra: Seq<u8>,
)
    ensures
        spec_decrypt_out(params, eta, kappa, memo) is Some ==> spec_decrypt_out(
            params,
            eta,
            kappa,
            memo + extra,
        ) == spec_decrypt_out(params, eta, kappa, memo),
{
    if spec_decrypt_out(params, eta, kappa, memo) is Some {
        let long = memo + extra;
        let (items_num, enc_type) = spec_parse_memo_header(memo).unwrap();
        assert(long[0] == memo[0] && long[1] == memo[1] && long[2] == memo[2] && long[3] == memo[3]);
        assert(spec_parse_memo_header(long) == spec_parse_memo_header(memo));
        let sizes = params.spec_sizes();
        let num_size = sizes.num_size as int;
        let notes_num = items_num - 1;
        lemma_take_extends(memo, extra, 4, num_size);
        lemma_take_extends(memo, extra, hashes_pos(num_size), notes_num * num_size);
        let hashes = memo.subrange(hashes_pos(num_size), hashes_pos(num_size) + notes_num * num_size);
        let ss_pos = crate::decrypt::shared_secrets_pos(num_size, items_num as int);
        lemma_shared_secrets_extend(
            params,
            enc_type,
            eta,
            kappa,
            memo,
            extra,
            ss_pos,
            items_num * 32 + 16,
        );
        let (text, p) = crate::decrypt::spec_decrypt_shared_secrets(
            params,
            enc_type,
            eta,
            kappa,
            memo,
            ss_pos,
            items_num * 32 + 16,
        );
        lemma_take_extends(memo, extra, p, sizes.account_size + 16);
        lemma_out_notes_extend(
            params,
            memo,
            extra,
            p + sizes.account_size + 16,
            hashes,
            text.unwrap(),
            0,
            notes_num,
            seq![],
        );
    }
}

/// Where the sender reads notes `i..count` back, the same reading returns a
/// chunk for each of them, indexed `i + 1..count + 1`.
proof fn lemma_out_chunks_all<P: PoolParams>(
    params: &P,
    memo: Seq<u8>,
    pos: int,
    hashes: Seq<u8>,
    text: Seq<u8>,
    i: int,
    count: int,
    notes_acc: Seq<Seq<u8>>,
    chunks_acc: Seq<(u64, Seq<u8>, Seq<u8>)>,
)
    requires
        0 <= i <= count <= 0xffff,
    ensures
        spec_out_notes(params, memo, pos, hashes, text, i, count, notes_acc) is Some ==> {
            let r = spec_out_chunks(params, memo, pos, hashes, text, i, count, chunks_acc);
            &&& r.len() == chunks_acc.len() + count - i
            &&& forall|j: int| 0 <= j < chunks_acc.len() ==> r[j] == chunks_acc[j]
            &&& forall|k: int|
                i <= k < count ==> (#[trigger] r[chunks_acc.len() + k - i]).0 == (k + 1) as u64
        },
    decreases count - i,
{
    if i < count && spec_out_notes(params, memo, pos, hashes, text, i, count, notes_acc) is Some {
        let key = crate::layout::key_at(text, i + 1);
        let (r, next) = spec_out_note_step(params, memo, pos, hashes, key, i);
        if let Some((note, ciphertext)) = r {
            assert(spec_out_notes(params, memo, next, hashes, text, i + 1, count, notes_acc.push(note))
                is Some);
            let chunks2 = chunks_acc.push(((i + 1) as u64, ciphertext, key));
            lemma_out_chunks_all(
                params,
                memo,
                next,
                hashes,
                text,
                i + 1,
                count,
                notes_acc.push(note),
                chunks2,
            );
            let res = spec_out_chunks(params, memo, pos, hashes, text, i, count, chunks_acc);
            assert(res == spec_out_chunks(params, memo, next, hashes, text, i + 1, count, chunks2));
            assert forall|k: int| i <= k < count implies (#[trigger] res[chunks_acc.len() + k - i]).0
                == (k + 1) as u64 by {
                if k == i {
                    assert(res[chunks2.len() - 1] == chunks2[chunks2.len() - 1]);
                } else {
                    assert(res[chunks2.len() + k - (i + 1)].0 == (k + 1) as u64);
                }
            }
            assert forall|j: int| 0 <= j < chunks_acc.len() implies res[j] == chunks_acc[j] by {
                assert(res[j] == chunks2[j]);
            }
        }
    }
}

/// Whenever the sender reads a memo back, the recovery of the decryption
/// keys returns every chunk: the account and each note, in order.
pub proof fn lemma_decrypt_out_then_all_chunks<P: PoolParams>(
    params: &P,
    eta: Seq<u8>,
    kappa: Seq<u8>,
    memo: Seq<u8>,
)
    ensures
        spec_decrypt_out(params, eta, kappa, memo) matches Some((_, notes)) ==> (spec_decryption_keys(
            params,
            eta,
            kappa,
            memo,
        ) matches Some(chunks) && chunks.len() == notes.len() + 1 && forall|j: int|
            0 <= j < chunks.len() ==> (#[trigger] chunks[j]).0 == j as u64),
{
    lemma_decrypt_out_len(params, eta, kappa, memo);
    if spec_decrypt_out(params, eta, kappa, memo) is Some {
        let (items_num, enc_type) = spec_parse_memo_header(memo).unwrap();
        let sizes = params.spec_sizes();
        let num_size = sizes.num_size as int;
        let notes_num = items_num - 1;
        let hashes = memo.subrange(hashes_pos(num_size), hashes_pos(num_size) + notes_num * num_size);
        let (text, p) = spec_decrypt_shared_secrets(
            params,
            enc_type,
            eta,
            kappa,
            memo,
            crate::decrypt::shared_secrets_pos(num_size, items_num as int),
            items_num * 32 + 16,
        );
        let text = text.unwrap();
        let ct_size = sizes.account_size + 16;
        let ciphertext = memo.subrange(p, p + ct_size);
        let first = seq![(0u64, ciphertext, crate::layout::key_at(text, 0))];
        lemma_out_chunks_all(params, memo, p + ct_size, hashes, text, 0, notes_num, seq![], first);
        let chunks = spec_decryption_keys(params, eta, kappa, memo).unwrap();
        assert(chunks == spec_out_chunks(params, memo, p + ct_size, hashes, text, 0, notes_num, first));
        assert forall|j: int| 0 <= j < chunks.len() implies (#[trigger] chunks[j]).0 == j as u64 by {
            if j == 0 {
                assert(chunks[0] == first[0]);
            } else {
                assert(chunks[1 + (j - 1) - 0].0 == ((j - 1) + 1) as u64);
            }
        }
    }
}

/// Single-use keys encrypt and decrypt with ChaCha20-Poly1305 under the
/// all-zero 12-byte nonce; a ciphertext shorter than a tag never decrypts.
pub proof fn lemma_constant_nonce_is_zero(key: Seq<u8>, data: Seq<u8>, ciphertext: Seq<u8>)
    ensures
        spec_encrypt_constant_nonce(key, data) == spec_chacha20poly1305_encrypt(
            key,
            Seq::new(12, |i: int| 0u8),
            data,
        ),
        ciphertext.len() >= 16 ==> spec_decrypt_constant_nonce(key, ciphertext)
            == spec_chacha20poly1305_decrypt(key, Seq::new(12, |i: int| 0u8), ciphertext),
        ciphertext.len() < 16 ==> spec_decrypt_constant_nonce(key, ciphertext) is None,
{
    assert(crate::symmetric::spec_encryption_nonce() =~= Seq::new(12, |i: int| 0u8));
}

/// What the decryption of one item returns: the ChaCha20-Poly1305
/// decryption under the all-zero nonce, kept only if it encodes an item of
/// the right kind (and, when validated, one with the given hash).
pub proof fn lemma_item_decryption<P: PoolParams>(
    params: &P,
    key: Seq<u8>,
    ciphertext: Seq<u8>,
    hash: Seq<u8>,
)
    ensures
        spec_decrypt_account_no_validate(params, key, ciphertext) matches Some(p) ==> (
        ciphertext.len() >= 16 && spec_chacha20poly1305_decrypt(
            key,
            Seq::new(12, |i: int| 0u8),
            ciphertext,
        ) == Some(p) && params.spec_account_hash(p) is Some),
        ciphertext.len() >= 16 ==> (spec_chacha20poly1305_decrypt(
            key,
            Seq::new(12, |i: int| 0u8),
            ciphertext,
        ) matches Some(p) ==> (params.spec_account_hash(p) is Some
            <==> spec_decrypt_account_no_validate(params, key, ciphertext) == Some(p))),
        spec_decrypt_note_no_validate(params, key, ciphertext) matches Some(p) ==> (ciphertext.len()
            >= 16 && spec_chacha20poly1305_decrypt(key, Seq::new(12, |i: int| 0u8), ciphertext)
            == Some(p) && params.spec_note_hash(p) is Some),
        ciphertext.len() >= 16 ==> (spec_chacha20poly1305_decrypt(
            key,
            Seq::new(12, |i: int| 0u8),
            ciphertext,
        ) matches Some(p) ==> (params.spec_note_hash(p) is Some
            <==> spec_decrypt_note_no_validate(params, key, ciphertext) == Some(p))),
        (ciphertext.len() < 16 || spec_chacha20poly1305_decrypt(
            key,
            Seq::new(12, |i: int| 0u8),
            ciphertext,
        ) is None) ==> spec_decrypt_account_no_validate(params, key, ciphertext) is None
            && spec_decrypt_note_no_validate(params, key, ciphertext) is None,
        spec_decrypt_account(params, key, ciphertext, hash) matches Some(p) ==> (ciphertext.len()
            >= 16 && spec_chacha20poly1305_decrypt(key, Seq::new(12, |i: int| 0u8), ciphertext)
            == Some(p) && params.spec_account_hash(p) == Some(hash)),
        ciphertext.len() >= 16 ==> (spec_chacha20poly1305_decrypt(
            key,
            Seq::new(12, |i: int| 0u8),
            ciphertext,
        ) matches Some(p) ==> (params.spec_account_hash(p) == Some(hash)
            <==> spec_decrypt_account(params, key, ciphertext, hash) == Some(p))),
        spec_decrypt_note(params, key, ciphertext, hash) matches Some(p) ==> (ciphertext.len()
            >= 16 && spec_chacha20poly1305_decrypt(key, Seq::new(12, |i: int| 0u8), ciphertext)
            == Some(p) && params.spec_note_hash(p) == Some(hash)),
        ciphertext.len() >= 16 ==> (spec_chacha20poly1305_decrypt(
            key,
            Seq::new(12, |i: int| 0u8),
            ciphertext,
        ) matches Some(p) ==> (params.spec_note_hash(p) == Some(hash) <==> spec_decrypt_note(
            params,
            key,
            ciphertext,
            hash,
        ) == Some(p))),
{
    lemma_constant_nonce_is_zero(key, Seq::empty(), ciphertext);
}

/// The header of a memo: the item count is the little-endian `u16` at
/// offset 0 and must not be 0; the encryption type is given by the
/// little-endian `u16` at offset 2: 0x0000 ECDH, 0x0100 plain, 0x0200
/// symmetric; any other code, or fewer than 4 bytes, is rejected.
pub proof fn lemma_header_fields(memo: Seq<u8>)
    ensures
        spec_parse_memo_header(memo) matches Some((n, t)) ==> {
            &&& memo.len() >= 4
            &&& n == memo[0] + 256 * memo[1]
            &&& n >= 1
            &&& (t == MessageEncryptionType::ECDH <==> memo[2] + 256 * memo[3] == 0)
            &&& (t == MessageEncryptionType::Plain <==> memo[2] + 256 * memo[3] == 0x0100)
            &&& (t == MessageEncryptionType::Symmetric <==> memo[2] + 256 * memo[3] == 0x0200)
        },
        (memo.len() >= 4 && memo[0] + 256 * memo[1] != 0 && (memo[2] + 256 * memo[3] == 0 || memo[2]
            + 256 * memo[3] == 0x0100 || memo[2] + 256 * memo[3] == 0x0200)) <==> spec_parse_memo_header(
            memo,
        ) is Some,
{
}

/// The chunk indices that the recovery of decryption keys returns from notes
/// `i..count` are above those already collected and strictly increasing.
proof fn lemma_chunks_increasing<P: PoolParams>(
    params: &P,
    eta: Seq<u8>,
    memo: Seq<u8>,
    pos: int,
    hashes: Seq<u8>,
    text: Seq<u8>,
    i: int,
    count: int,
    acc: Seq<(u64, Seq<u8>, Seq<u8>)>,
)
    requires
        0 <= i <= count <= 0xffff,
        forall|j: int, k: int| 0 <= j < k < acc.len() ==> acc[j].0 < acc[k].0,
        forall|j: int| 0 <= j < acc.len() ==> acc[j].0 <= i,
    ensures
        ({
            let r = spec_out_chunks(params, memo, pos, hashes, text, i, count, acc);
            forall|j: int, k: int| 0 <= j < k < r.len() ==> r[j].0 < r[k].0
        }),
        ({
            let r = spec_in_chunks(params, eta, memo, pos, hashes, i, count, acc);
            forall|j: int, k: int| 0 <= j < k < r.len() ==> r[j].0 < r[k].0
        }),
    decreases count - i,
{
    if i < count {
        let key = crate::layout::key_at(text, i + 1);
        let (r, next) = spec_out_note_step(params, memo, pos, hashes, key, i);
        let acc_out = match r {
            Some((_, ciphertext)) => acc.push(((i + 1) as u64, ciphertext, key)),
            None => acc,
        };
        let (q, next_in) = spec_in_note_step(params, eta, memo, pos, hashes, i);
        let acc_in = match q {
            Some((_, ciphertext, k)) => acc.push(((i + 1) as u64, ciphertext, k)),
            None => acc,
        };
        assert forall|j: int, k: int| 0 <= j < k < acc_out.len() implies acc_out[j].0 < acc_out[k].0 by {
            if k == acc.len() {
                assert(acc_out[j] == acc[j]);
            } else {
                assert(acc_out[j] == acc[j] && acc_out[k] == acc[k]);
            }
        }
        assert forall|j: int, k: int| 0 <= j < k < acc_in.len() implies acc_in[j].0 < acc_in[k].0 by {
            if k == acc.len() {
                assert(acc_in[j] == acc[j]);
            } else {
                assert(acc_in[j] == acc[j] && acc_in[k] == acc[k]);
            }
        }
        assert forall|j: int| 0 <= j < acc_out.len() implies acc_out[j].0 <= i + 1 by {
            if j < acc.len() {
                assert(acc_out[j] == acc[j]);
            }
        }
        assert forall|j: int| 0 <= j < acc_in.len() implies acc_in[j].0 <= i + 1 by {
            if j < acc.len() {
                assert(acc_in[j] == acc[j]);
            }
        }
        lemma_chunks_increasing(params, eta, memo, next, hashes, text, i + 1, count, acc_out);
        lemma_chunks_increasing(params, eta, memo, next_in, hashes, text, i + 1, count, acc_in);
        assert(spec_out_chunks(params, memo, pos, hashes, text, i, count, acc) == spec_out_chunks(
            params,
            memo,
            next,
            hashes,
            text,
            i + 1,
            count,
            acc_out,
        ));
        assert(spec_in_chunks(params, eta, memo, pos, hashes, i, count, acc) == spec_in_chunks(
            params,
            eta,
            memo,
            next_in,
            hashes,
            i + 1,
            count,
            acc_in,
        ));
    }
}

/// The chunks that the recovery of decryption keys returns, for the sender
/// or for a receiver, come in strictly increasing index order: no chunk is
/// returned twice.
pub proof fn lemma_decryption_keys_increasing<P: PoolParams>(
    params: &P,
    eta: Seq<u8>,
    kappa: Seq<u8>,
    memo: Seq<u8>,
)
    ensures
        spec_decryption_keys(params, eta, kappa, memo) matches Some(chunks) ==> forall|j: int, k: int|
            0 <= j < k < chunks.len() ==> (#[trigger] chunks[j]).0 < (#[trigger] chunks[k]).0,
{
    if let Some((items_num, enc_type)) = spec_parse_memo_header(memo) {
        let sizes = params.spec_sizes();
        let num_size = sizes.num_size as int;
        let notes_num = items_num - 1;
        let hashes = memo.subrange(hashes_pos(num_size), hashes_pos(num_size) + notes_num * num_size);
        let (text, p) = spec_decrypt_shared_secrets(
            params,
            enc_type,
            eta,
            kappa,
            memo,
            crate::decrypt::shared_secrets_pos(num_size, items_num as int),
            items_num * 32 + 16,
        );
        let ct_size = sizes.account_size + 16;
        match text {
            Some(text) => {
                let first = seq![(0u64, memo.subrange(p, p + ct_size), crate::layout::key_at(text, 0))];
                lemma_chunks_increasing(
                    params,
                    eta,
                    memo,
                    p + ct_size,
                    hashes,
                    text,
                    0,
                    notes_num,
                    first,
                );
            },
            None => {
                lemma_chunks_increasing(
                    params,
                    eta,
                    memo,
                    p + ct_size,
                    hashes,
                    Seq::empty(),
                    0,
                    notes_num,
                    Seq::empty(),
                );
            },
        }
    }
}

} // verus!
