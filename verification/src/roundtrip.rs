//! Proofs that the memos written by the encryption functions read back: by
//! their sender, and by the receiver of each note.
use crate::cipher::{spec_decrypt_account, spec_decrypt_note};
use crate::decrypt::{
    hashes_pos, shared_secrets_pos, spec_decrypt_in_notes, spec_decrypt_out,
    spec_decrypt_shared_secrets, spec_decryption_keys, spec_in_chunks, spec_in_notes,
    spec_out_chunks,
    spec_out_notes, vecs_view,
};
use crate::encrypt::{
    memo_items_valid, spec_encrypt, spec_encrypt_old, spec_memo, spec_note_blocks,
    spec_note_hashes, spec_note_keys, spec_sender_chunks, spec_shared_text, NoteEphemeralKey,
};
use crate::layout::{hash_at, key_at, lemma_flatten_uniform, lemma_item_in_block, note_stride};
use crate::memo::{
    spec_parse_memo_header, spec_shared_secrets_size, spec_take, spec_u16_le, spec_u16_le_bytes,
    spec_u32_le_bytes, MessageEncryptionType,
};
use crate::params::PoolParams;
use crate::symmetric::{
    spec_decrypt_constant_nonce, spec_encrypt_constant_nonce, spec_keccak256,
    spec_chacha20poly1305_encrypt, spec_decrypt_xchacha, spec_xchacha20poly1305_decrypt,
    spec_xchacha20poly1305_encrypt,
};
use vstd::prelude::*;

verus! {

/// The notes of a memo, as its sender reads them, when the notes region
/// holds one block per note, each decrypting under the matching key of the
/// shared-secret plaintext and matching its hash.
pub proof fn lemma_out_notes_read_back<P: PoolParams>(
    params: &P,
    memo: Seq<u8>,
    base: int,
    hashes: Seq<Seq<u8>>,
    text: Seq<u8>,
    blocks: Seq<Seq<u8>>,
    notes: Seq<Seq<u8>>,
    k: int,
)
    requires
        params.spec_sizes().wf(),
        0 <= k <= notes.len(),
        blocks.len() == notes.len(),
        hashes.len() == notes.len(),
        0 <= base,
        base + blocks.flatten().len() <= memo.len(),
        memo.subrange(base, base + blocks.flatten().len()) == blocks.flatten(),
        forall|i: int|
            0 <= i < notes.len() ==> (#[trigger] blocks[i]).len() == note_stride(params.spec_sizes()),
        forall|i: int|
            0 <= i < notes.len() ==> (#[trigger] hashes[i]).len() == params.spec_sizes().num_size,
        forall|i: int|
            0 <= i < notes.len() ==> params.spec_is_num(#[trigger] hashes[i])
                && params.spec_note_hash(notes[i]) == Some(hashes[i]),
        forall|i: int|
            0 <= i < notes.len() ==> spec_decrypt_constant_nonce(
                key_at(text, i + 1),
                (#[trigger] blocks[i]).subrange(
                    params.spec_sizes().num_size as int,
                    note_stride(params.spec_sizes()),
                ),
            ) == Some(notes[i]),
    ensures
        spec_out_notes(
            params,
            memo,
            base + k * note_stride(params.spec_sizes()),
            hashes.flatten(),
            text,
            k,
            notes.len() as int,
            notes.subrange(0, k),
        ) == Some(notes),
    decreases notes.len() - k,
{
    let sizes = params.spec_sizes();
    let num_size = sizes.num_size as int;
    let stride = note_stride(sizes);
    let count = notes.len() as int;
    if k >= count {
        assert(notes.subrange(0, k) =~= notes);
    } else {
        lemma_flatten_uniform(blocks, stride);
        lemma_flatten_uniform(hashes, num_size);
        lemma_item_in_block(k, count, stride);
        let pos = base + k * stride;
        let flat = blocks.flatten();
        let block = blocks[k];
        assert(flat.subrange(k * stride, k * stride + stride) == block);
        assert(memo.subrange(pos, pos + num_size) =~= block.subrange(0, num_size)) by {
            assert forall|j: int| 0 <= j < num_size implies memo.subrange(pos, pos + num_size)[j]
                == block.subrange(0, num_size)[j] by {
                assert(memo.subrange(base, base + flat.len())[k * stride + j] == memo[pos + j]);
                assert(flat.subrange(k * stride, k * stride + stride)[j] == flat[k * stride + j]);
            }
        }
        let ct_size = sizes.note_size + 16;
        assert(memo.subrange(pos + num_size, pos + num_size + ct_size) =~= block.subrange(
            num_size,
            stride,
        )) by {
            assert forall|j: int| 0 <= j < ct_size implies memo.subrange(
                pos + num_size,
                pos + num_size + ct_size,
            )[j] == block.subrange(num_size, stride)[j] by {
                assert(memo.subrange(base, base + flat.len())[k * stride + num_size + j] == memo[pos
                    + num_size + j]);
                assert(flat.subrange(k * stride, k * stride + stride)[num_size + j] == flat[k
                    * stride + num_size + j]);
            }
        }
        assert(hash_at(hashes.flatten(), num_size, k) == hashes[k]);
        assert(spec_take(memo, pos, num_size) is Some);
        assert(spec_take(memo, pos + num_size, ct_size) == Some(block.subrange(num_size, stride)));
        assert(spec_decrypt_note(params, key_at(text, k + 1), block.subrange(num_size, stride), hashes[k])
            == Some(notes[k]));
        assert(notes.subrange(0, k).push(notes[k]) =~= notes.subrange(0, k + 1));
        assert(pos + num_size + ct_size == base + (k + 1) * stride);
        lemma_out_notes_read_back(params, memo, base, hashes, text, blocks, notes, k + 1);
    }
}

/// The chunk of the `i`-th note block: its index, its ciphertext and the
/// matching key of the shared-secret plaintext.
pub open spec fn spec_note_chunk<P: PoolParams>(
    params: &P,
    blocks: Seq<Seq<u8>>,
    text: Seq<u8>,
    i: int,
) -> (u64, Seq<u8>, Seq<u8>) {
    (
        (i + 1) as u64,
        blocks[i].subrange(params.spec_sizes().num_size as int, note_stride(params.spec_sizes())),
        key_at(text, i + 1),
    )
}

/// The chunks of the notes of a memo, as its sender recovers them, under the
/// same conditions as [`lemma_out_notes_read_back`].
pub proof fn lemma_out_chunks_read_back<P: PoolParams>(
    params: &P,
    memo: Seq<u8>,
    base: int,
    hashes: Seq<Seq<u8>>,
    text: Seq<u8>,
    blocks: Seq<Seq<u8>>,
    notes: Seq<Seq<u8>>,
    k: int,
    acc: Seq<(u64, Seq<u8>, Seq<u8>)>,
)
    requires
        params.spec_sizes().wf(),
        0 <= k <= notes.len(),
        blocks.len() == notes.len(),
        hashes.len() == notes.len(),
        0 <= base,
        base + blocks.flatten().len() <= memo.len(),
        memo.subrange(base, base + blocks.flatten().len()) == blocks.flatten(),
        forall|i: int|
            0 <= i < notes.len() ==> (#[trigger] blocks[i]).len() == note_stride(params.spec_sizes()),
        forall|i: int|
            0 <= i < notes.len() ==> (#[trigger] hashes[i]).len() == params.spec_sizes().num_size,
        forall|i: int|
            0 <= i < notes.len() ==> params.spec_is_num(#[trigger] hashes[i])
                && params.spec_note_hash(notes[i]) == Some(hashes[i]),
        forall|i: int|
            0 <= i < notes.len() ==> spec_decrypt_constant_nonce(
                key_at(text, i + 1),
                (#[trigger] blocks[i]).subrange(
                    params.spec_sizes().num_size as int,
                    note_stride(params.spec_sizes()),
                ),
            ) == Some(notes[i]),
    ensures
        spec_out_chunks(
            params,
            memo,
            base + k * note_stride(params.spec_sizes()),
            hashes.flatten(),
            text,
            k,
            notes.len() as int,
            acc,
        ) == acc + Seq::new(
            (notes.len() - k) as nat,
            |j: int| spec_note_chunk(params, blocks, text, k + j),
        ),
    decreases notes.len() - k,
{
    let sizes = params.spec_sizes();
    let num_size = sizes.num_size as int;
    let stride = note_stride(sizes);
    let count = notes.len() as int;
    if k >= count {
        assert(acc + Seq::new(
            (notes.len() - k) as nat,
            |j: int| spec_note_chunk(params, blocks, text, k + j),
        ) =~= acc);
    } else {
        lemma_flatten_uniform(blocks, stride);
        lemma_flatten_uniform(hashes, num_size);
        lemma_item_in_block(k, count, stride);
        let pos = base + k * stride;
        let flat = blocks.flatten();
        let block = blocks[k];
        assert(flat.subrange(k * stride, k * stride + stride) == block);
        assert(memo.subrange(pos, pos + num_size) =~= block.subrange(0, num_size)) by {
            assert forall|j: int| 0 <= j < num_size implies memo.subrange(pos, pos + num_size)[j]
                == block.subrange(0, num_size)[j] by {
                assert(memo.subrange(base, base + flat.len())[k * stride + j] == memo[pos + j]);
                assert(flat.subrange(k * stride, k * stride + stride)[j] == flat[k * stride + j]);
            }
        }
        let ct_size = sizes.note_size + 16;
        assert(memo.subrange(pos + num_size, pos + num_size + ct_size) =~= block.subrange(
            num_size,
            stride,
        )) by {
            assert forall|j: int| 0 <= j < ct_size implies memo.subrange(
                pos + num_size,
                pos + num_size + ct_size,
            )[j] == block.subrange(num_size, stride)[j] by {
                assert(memo.subrange(base, base + flat.len())[k * stride + num_size + j] == memo[pos
                    + num_size + j]);
                assert(flat.subrange(k * stride, k * stride + stride)[num_size + j] == flat[k
                    * stride + num_size + j]);
            }
        }
        assert(hash_at(hashes.flatten(), num_size, k) == hashes[k]);
        assert(spec_decrypt_note(params, key_at(text, k + 1), block.subrange(num_size, stride), hashes[k])
            == Some(notes[k]));
        assert(pos + num_size + ct_size == base + (k + 1) * stride);
        let acc2 = acc.push(spec_note_chunk(params, blocks, text, k));
        lemma_out_chunks_read_back(params, memo, base, hashes, text, blocks, notes, k + 1, acc2);
        assert(acc2 + Seq::new(
            (notes.len() - (k + 1)) as nat,
            |j: int| spec_note_chunk(params, blocks, text, k + 1 + j),
        ) =~= acc + Seq::new(
            (notes.len() - k) as nat,
            |j: int| spec_note_chunk(params, blocks, text, k + j),
        ));
    }
}

/// A memo reads back, for its sender, as its account and notes when its
/// header, hashes, shared-secret block and item ciphertexts are consistent.
pub proof fn lemma_decrypt_out_read_back<P: PoolParams>(
    params: &P,
    eta: Seq<u8>,
    kappa: Seq<u8>,
    header: Seq<u8>,
    enc_type: MessageEncryptionType,
    account_hash: Seq<u8>,
    hashes: Seq<Seq<u8>>,
    shared: Seq<u8>,
    account_ciphertext: Seq<u8>,
    blocks: Seq<Seq<u8>>,
    text: Seq<u8>,
    account: Seq<u8>,
    notes: Seq<Seq<u8>>,
)
    requires
        params.spec_sizes().wf(),
        header.len() == 4,
        notes.len() + 1 <= 0xffff,
        spec_parse_memo_header(
            spec_memo(header, account_hash, hashes, shared, account_ciphertext, blocks),
        ) == Some(((notes.len() + 1) as usize, enc_type)),
        account_hash.len() == params.spec_sizes().num_size,
        params.spec_is_num(account_hash),
        params.spec_account_hash(account) == Some(account_hash),
        hashes.len() == notes.len(),
        blocks.len() == notes.len(),
        spec_decrypt_shared_secrets(
            params,
            enc_type,
            eta,
            kappa,
            spec_memo(header, account_hash, hashes, shared, account_ciphertext, blocks),
            shared_secrets_pos(params.spec_sizes().num_size as int, notes.len() + 1int),
            (notes.len() + 1int) * 32 + 16,
        ) == (
            Some(text),
            shared_secrets_pos(params.spec_sizes().num_size as int, notes.len() + 1int) + shared.len(),
        ),
        text.len() >= 32 * (notes.len() + 1),
        account_ciphertext.len() == params.spec_sizes().account_size + 16,
        spec_decrypt_constant_nonce(key_at(text, 0), account_ciphertext) == Some(account),
        forall|i: int|
            0 <= i < notes.len() ==> (#[trigger] blocks[i]).len() == note_stride(params.spec_sizes()),
        forall|i: int|
            0 <= i < notes.len() ==> (#[trigger] hashes[i]).len() == params.spec_sizes().num_size,
        forall|i: int|
            0 <= i < notes.len() ==> params.spec_is_num(#[trigger] hashes[i])
                && params.spec_note_hash(notes[i]) == Some(hashes[i]),
        forall|i: int|
            0 <= i < notes.len() ==> spec_decrypt_constant_nonce(
                key_at(text, i + 1),
                (#[trigger] blocks[i]).subrange(
                    params.spec_sizes().num_size as int,
                    note_stride(params.spec_sizes()),
                ),
            ) == Some(notes[i]),
    ensures
        spec_decrypt_out(
            params,
            eta,
            kappa,
            spec_memo(header, account_hash, hashes, shared, account_ciphertext, blocks),
        ) == Some((account, notes)),
        spec_decryption_keys(
            params,
            eta,
            kappa,
            spec_memo(header, account_hash, hashes, shared, account_ciphertext, blocks),
        ) == Some(
            seq![(0u64, account_ciphertext, key_at(text, 0))] + Seq::new(
                notes.len(),
                |i: int| spec_note_chunk(params, blocks, text, i),
            ),
        ),
{
    let sizes = params.spec_sizes();
    let num_size = sizes.num_size as int;
    let count = notes.len() as int;
    let memo = spec_memo(header, account_hash, hashes, shared, account_ciphertext, blocks);
    lemma_flatten_uniform(hashes, num_size);
    lemma_flatten_uniform(blocks, note_stride(sizes));
    let hf = hashes.flatten();
    let bf = blocks.flatten();
    assert((count + 1) * num_size == num_size + count * num_size) by (nonlinear_arith);
    let ss_pos = shared_secrets_pos(num_size, count + 1);
    assert(ss_pos == 4 + num_size + hf.len());
    let p = ss_pos + shared.len();
    let base = p + account_ciphertext.len();
    assert(memo.len() == base + bf.len());
    assert(memo.subrange(4, 4 + num_size) =~= account_hash);
    assert(memo.subrange(hashes_pos(num_size), hashes_pos(num_size) + count * num_size) =~= hf);
    assert(memo.subrange(p, p + sizes.account_size + 16) =~= account_ciphertext);
    assert(memo.subrange(base, base + bf.len()) =~= bf);
    assert(spec_decrypt_account(params, key_at(text, 0), account_ciphertext, account_hash) == Some(account));
    lemma_out_notes_read_back(params, memo, base, hashes, text, blocks, notes, 0);
    assert(notes.subrange(0, 0) =~= Seq::<Seq<u8>>::empty());
    lemma_out_chunks_read_back(
        params,
        memo,
        base,
        hashes,
        text,
        blocks,
        notes,
        0,
        seq![(0u64, account_ciphertext, key_at(text, 0))],
    );
    assert(Seq::new((notes.len() - 0) as nat, |j: int| spec_note_chunk(params, blocks, text, 0 + j))
        =~= Seq::new(notes.len(), |i: int| spec_note_chunk(params, blocks, text, i)));
}

/// The header of a symmetric memo of `items_num` items reads back.
pub proof fn lemma_u16_header_read_back(memo: Seq<u8>, items_num: int)
    requires
        1 <= items_num <= 0xffff,
        memo.len() >= 4,
        memo.subrange(0, 4) == spec_u16_le_bytes(items_num as u16) + spec_u16_le_bytes(0x0200),
    ensures
        spec_parse_memo_header(memo) == Some((items_num as usize, MessageEncryptionType::Symmetric)),
{
    assert(memo[0] == memo.subrange(0, 4)[0]);
    assert(memo[1] == memo.subrange(0, 4)[1]);
    assert(memo[2] == memo.subrange(0, 4)[2]);
    assert(memo[3] == memo.subrange(0, 4)[3]);
    assert(spec_u16_le(memo, 0) == items_num);
    assert(spec_u16_le(memo, 2) == 0x0200);
}

/// The header of an ECDH memo of `items_num` items, a little-endian `u32`,
/// reads back as the count and the ECDH type.
pub proof fn lemma_u32_header_read_back(memo: Seq<u8>, items_num: int)
    requires
        1 <= items_num <= 0xffff,
        memo.len() >= 4,
        memo.subrange(0, 4) == spec_u32_le_bytes(items_num as u32),
    ensures
        spec_parse_memo_header(memo) == Some((items_num as usize, MessageEncryptionType::ECDH)),
{
    assert(memo[0] == memo.subrange(0, 4)[0]);
    assert(memo[1] == memo.subrange(0, 4)[1]);
    assert(memo[2] == memo.subrange(0, 4)[2]);
    assert(memo[3] == memo.subrange(0, 4)[3]);
    assert(spec_u16_le(memo, 0) == items_num);
    assert(spec_u16_le(memo, 2) == 0);
}

/// The keys of the shared-secret plaintext: the account key first, then the
/// key of each note.
pub proof fn lemma_shared_text_keys(account_key: Seq<u8>, ephemeral: Seq<NoteEphemeralKey>)
    requires
        account_key.len() == 32,
        forall|i: int| 0 <= i < ephemeral.len() ==> (#[trigger] spec_note_keys(ephemeral)[i]).len() == 32,
    ensures
        spec_shared_text(account_key, ephemeral).len() == 32 * (ephemeral.len() + 1),
        key_at(spec_shared_text(account_key, ephemeral), 0) == account_key,
        forall|i: int|
            0 <= i < ephemeral.len() ==> key_at(spec_shared_text(account_key, ephemeral), i + 1)
                == #[trigger] spec_note_keys(ephemeral)[i],
{
    let keys = spec_note_keys(ephemeral);
    let text = spec_shared_text(account_key, ephemeral);
    assert forall|i: int| 0 <= i < keys.len() implies (#[trigger] keys[i]).len() == 32 by {
        assert(keys[i] == spec_note_keys(ephemeral)[i]);
    }
    lemma_flatten_uniform(keys, 32);
    assert(key_at(text, 0) =~= account_key);
    assert forall|i: int| 0 <= i < ephemeral.len() implies key_at(text, i + 1)
        == #[trigger] spec_note_keys(ephemeral)[i] by {
        assert(keys.flatten().subrange(i * 32, i * 32 + 32) == keys[i]);
        assert(key_at(text, i + 1) =~= keys.flatten().subrange(i * 32, i * 32 + 32));
    }
}

/// A memo written by `encrypt` reads back, for its sender, as its account
/// and notes, given what the encryption calls returned.
pub proof fn lemma_encrypt_read_back<P: PoolParams>(
    params: &P,
    eta: Seq<u8>,
    account_key: Seq<u8>,
    nonce: Seq<u8>,
    kappa: Seq<u8>,
    account: Seq<u8>,
    notes: Seq<Vec<u8>>,
    ephemeral: Seq<NoteEphemeralKey>,
)
    requires
        params.spec_sizes().wf(),
        memo_items_valid(params, account, notes, ephemeral),
        account_key.len() == 32,
        nonce.len() == 24,
        spec_xchacha20poly1305_encrypt(kappa, nonce, spec_shared_text(account_key, ephemeral)).len()
            == spec_shared_text(account_key, ephemeral).len() + 16,
        spec_decrypt_xchacha(
            kappa,
            nonce,
            spec_xchacha20poly1305_encrypt(kappa, nonce, spec_shared_text(account_key, ephemeral)),
        ) == Some(spec_shared_text(account_key, ephemeral)),
        spec_encrypt_constant_nonce(account_key, account).len() == account.len() + 16,
        spec_decrypt_constant_nonce(account_key, spec_encrypt_constant_nonce(account_key, account))
            == Some(account),
        forall|i: int| 0 <= i < notes.len() ==> (#[trigger] spec_note_keys(ephemeral)[i]).len() == 32,
        forall|i: int|
            0 <= i < notes.len() ==> {
                let key = #[trigger] spec_note_keys(ephemeral)[i];
                &&& spec_encrypt_constant_nonce(key, notes[i]@).len() == notes[i]@.len() + 16
                &&& spec_decrypt_constant_nonce(key, spec_encrypt_constant_nonce(key, notes[i]@))
                    == Some(notes[i]@)
            },
    ensures
        spec_decrypt_out(
            params,
            eta,
            kappa,
            spec_encrypt(params, account_key, nonce, kappa, account, notes, ephemeral),
        ) == Some((account, vecs_view(notes))),
        spec_decryption_keys(
            params,
            eta,
            kappa,
            spec_encrypt(params, account_key, nonce, kappa, account, notes, ephemeral),
        ) == Some(spec_sender_chunks(account_key, account, notes, ephemeral)),
{
    let sizes = params.spec_sizes();
    let num_size = sizes.num_size as int;
    let count = notes.len() as int;
    let n = count + 1;
    let header = spec_u16_le_bytes(n as u16) + spec_u16_le_bytes(0x0200);
    let account_hash = params.spec_account_hash(account).unwrap();
    let hashes = spec_note_hashes(params, notes);
    let text = spec_shared_text(account_key, ephemeral);
    let ss_ct = spec_xchacha20poly1305_encrypt(kappa, nonce, text);
    let shared = nonce + ss_ct;
    let account_ct = spec_encrypt_constant_nonce(account_key, account);
    let blocks = spec_note_blocks(notes, ephemeral);
    let memo = spec_memo(header, account_hash, hashes, shared, account_ct, blocks);
    let views = vecs_view(notes);
    assert(memo == spec_encrypt(params, account_key, nonce, kappa, account, notes, ephemeral));
    lemma_shared_text_keys(account_key, ephemeral);
    assert forall|i: int| 0 <= i < count implies (#[trigger] hashes[i]).len() == num_size
        && params.spec_is_num(hashes[i]) && params.spec_note_hash(views[i]) == Some(hashes[i]) by {
        assert(params.spec_note_hash(notes[i]@) is Some);
    }
    lemma_flatten_uniform(hashes, num_size);
    assert(memo.subrange(0, 4) =~= header);
    lemma_u16_header_read_back(memo, n);
    let ss_pos = shared_secrets_pos(num_size, n);
    assert(n * num_size == num_size + count * num_size) by (nonlinear_arith)
        requires
            n == count + 1,
    ;
    assert(memo.subrange(ss_pos, ss_pos + 24) =~= nonce);
    assert(memo.subrange(ss_pos + 24, ss_pos + 24 + n * 32 + 16) =~= ss_ct);
    assert(spec_decrypt_shared_secrets(
        params,
        MessageEncryptionType::Symmetric,
        eta,
        kappa,
        memo,
        ss_pos,
        n * 32 + 16,
    ) == (Some(text), ss_pos + shared.len()));
    assert forall|i: int| 0 <= i < count implies (#[trigger] blocks[i]).len() == note_stride(sizes)
        && spec_decrypt_constant_nonce(
        key_at(text, i + 1),
        blocks[i].subrange(num_size, note_stride(sizes)),
    ) == Some(views[i]) by {
        let key = spec_note_keys(ephemeral)[i];
        assert(ephemeral[i].a_pub@.len() == num_size);
        assert(notes[i]@.len() == sizes.note_size);
        assert(spec_decrypt_constant_nonce(key, spec_encrypt_constant_nonce(key, notes[i]@)) == Some(
            notes[i]@,
        ));
        assert(blocks[i].subrange(num_size, note_stride(sizes)) =~= spec_encrypt_constant_nonce(
            key,
            notes[i]@,
        ));
    }
    lemma_decrypt_out_read_back(
        params,
        eta,
        kappa,
        header,
        MessageEncryptionType::Symmetric,
        account_hash,
        hashes,
        shared,
        account_ct,
        blocks,
        text,
        account,
        views,
    );
    assert forall|i: int| 0 <= i < count implies #[trigger] spec_note_chunk(params, blocks, text, i)
        == (
        (i + 1) as u64,
        spec_encrypt_constant_nonce(spec_note_keys(ephemeral)[i], notes[i]@),
        spec_note_keys(ephemeral)[i],
    ) by {
        let key = spec_note_keys(ephemeral)[i];
        assert(ephemeral[i].a_pub@.len() == num_size);
        assert(blocks[i].subrange(num_size, note_stride(sizes)) =~= spec_encrypt_constant_nonce(
            key,
            notes[i]@,
        ));
    }
    assert(seq![(0u64, account_ct, key_at(text, 0))] + Seq::new(
        notes.len(),
        |i: int| spec_note_chunk(params, blocks, text, i),
    ) =~= spec_sender_chunks(account_key, account, notes, ephemeral));
}

/// A memo written by `_encrypt_old` reads back, for its sender, as its
/// account and notes, given what the encryption calls returned.
pub proof fn lemma_encrypt_old_read_back<P: PoolParams>(
    params: &P,
    eta: Seq<u8>,
    kappa: Seq<u8>,
    account_key: Seq<u8>,
    a_p_pub: Seq<u8>,
    account: Seq<u8>,
    notes: Seq<Vec<u8>>,
    ephemeral: Seq<NoteEphemeralKey>,
)
    requires
        params.spec_sizes().wf(),
        memo_items_valid(params, account, notes, ephemeral),
        account_key.len() == 32,
        a_p_pub.len() == params.spec_sizes().num_size,
        params.spec_ecdh(eta, a_p_pub) is Some,
        ({
            let key = spec_keccak256(params.spec_ecdh(eta, a_p_pub).unwrap());
            let text = spec_shared_text(account_key, ephemeral);
            &&& spec_encrypt_constant_nonce(key, text).len() == text.len() + 16
            &&& spec_decrypt_constant_nonce(key, spec_encrypt_constant_nonce(key, text)) == Some(text)
        }),
        spec_encrypt_constant_nonce(account_key, account).len() == account.len() + 16,
        spec_decrypt_constant_nonce(account_key, spec_encrypt_constant_nonce(account_key, account))
            == Some(account),
        forall|i: int| 0 <= i < notes.len() ==> (#[trigger] spec_note_keys(ephemeral)[i]).len() == 32,
        forall|i: int|
            0 <= i < notes.len() ==> {
                let key = #[trigger] spec_note_keys(ephemeral)[i];
                &&& spec_encrypt_constant_nonce(key, notes[i]@).len() == notes[i]@.len() + 16
                &&& spec_decrypt_constant_nonce(key, spec_encrypt_constant_nonce(key, notes[i]@))
                    == Some(notes[i]@)
            },
    ensures
        spec_decrypt_out(
            params,
            eta,
            kappa,
            spec_encrypt_old(
                params,
                params.spec_ecdh(eta, a_p_pub).unwrap(),
                account_key,
                a_p_pub,
                account,
                notes,
                ephemeral,
            ),
        ) == Some((account, vecs_view(notes))),
        spec_decryption_keys(
            params,
            eta,
            kappa,
            spec_encrypt_old(
                params,
                params.spec_ecdh(eta, a_p_pub).unwrap(),
                account_key,
                a_p_pub,
                account,
                notes,
                ephemeral,
            ),
        ) == Some(spec_sender_chunks(account_key, account, notes, ephemeral)),
{
    let sizes = params.spec_sizes();
    let num_size = sizes.num_size as int;
    let count = notes.len() as int;
    let n = count + 1;
    let x = params.spec_ecdh(eta, a_p_pub).unwrap();
    let header = spec_u32_le_bytes(n as u32);
    let account_hash = params.spec_account_hash(account).unwrap();
    let hashes = spec_note_hashes(params, notes);
    let text = spec_shared_text(account_key, ephemeral);
    let ss_ct = spec_encrypt_constant_nonce(spec_keccak256(x), text);
    let shared = a_p_pub + ss_ct;
    let account_ct = spec_encrypt_constant_nonce(account_key, account);
    let blocks = spec_note_blocks(notes, ephemeral);
    let memo = spec_memo(header, account_hash, hashes, shared, account_ct, blocks);
    let views = vecs_view(notes);
    assert(memo == spec_encrypt_old(params, x, account_key, a_p_pub, account, notes, ephemeral));
    lemma_shared_text_keys(account_key, ephemeral);
    assert forall|i: int| 0 <= i < count implies (#[trigger] hashes[i]).len() == num_size
        && params.spec_is_num(hashes[i]) && params.spec_note_hash(views[i]) == Some(hashes[i]) by {
        assert(params.spec_note_hash(notes[i]@) is Some);
    }
    lemma_flatten_uniform(hashes, num_size);
    assert(memo.subrange(0, 4) =~= header);
    lemma_u32_header_read_back(memo, n);
    let ss_pos = shared_secrets_pos(num_size, n);
    assert(n * num_size == num_size + count * num_size) by (nonlinear_arith)
        requires
            n == count + 1,
    ;
    assert(memo.subrange(ss_pos, ss_pos + num_size) =~= a_p_pub);
    assert(memo.subrange(ss_pos + num_size, ss_pos + num_size + n * 32 + 16) =~= ss_ct);
    assert(spec_decrypt_shared_secrets(
        params,
        MessageEncryptionType::ECDH,
        eta,
        kappa,
        memo,
        ss_pos,
        n * 32 + 16,
    ) == (Some(text), ss_pos + shared.len()));
    assert forall|i: int| 0 <= i < count implies (#[trigger] blocks[i]).len() == note_stride(sizes)
        && spec_decrypt_constant_nonce(
        key_at(text, i + 1),
        blocks[i].subrange(num_size, note_stride(sizes)),
    ) == Some(views[i]) by {
        let key = spec_note_keys(ephemeral)[i];
        assert(ephemeral[i].a_pub@.len() == num_size);
        assert(notes[i]@.len() == sizes.note_size);
        assert(spec_decrypt_constant_nonce(key, spec_encrypt_constant_nonce(key, notes[i]@)) == Some(
            notes[i]@,
        ));
        assert(blocks[i].subrange(num_size, note_stride(sizes)) =~= spec_encrypt_constant_nonce(
            key,
            notes[i]@,
        ));
    }
    lemma_decrypt_out_read_back(
        params,
        eta,
        kappa,
        header,
        MessageEncryptionType::ECDH,
        account_hash,
        hashes,
        shared,
        account_ct,
        blocks,
        text,
        account,
        views,
    );
    assert forall|i: int| 0 <= i < count implies #[trigger] spec_note_chunk(params, blocks, text, i)
        == (
        (i + 1) as u64,
        spec_encrypt_constant_nonce(spec_note_keys(ephemeral)[i], notes[i]@),
        spec_note_keys(ephemeral)[i],
    ) by {
        let key = spec_note_keys(ephemeral)[i];
        assert(ephemeral[i].a_pub@.len() == num_size);
        assert(blocks[i].subrange(num_size, note_stride(sizes)) =~= spec_encrypt_constant_nonce(
            key,
            notes[i]@,
        ));
    }
    assert(seq![(0u64, account_ct, key_at(text, 0))] + Seq::new(
        notes.len(),
        |i: int| spec_note_chunk(params, blocks, text, i),
    ) =~= spec_sender_chunks(account_key, account, notes, ephemeral));
}

/// What a receiver reads from the block of a note: the decryption of its
/// ciphertext under the key derived from the ECDH of `eta` with its
/// ephemeral public key, checked against its hash.
pub open spec fn spec_received_note<P: PoolParams>(
    params: &P,
    eta: Seq<u8>,
    block: Seq<u8>,
    hash: Seq<u8>,
) -> Option<Seq<u8>> {
    let num_size = params.spec_sizes().num_size as int;
    spec_decrypt_note(
        params,
        spec_keccak256(params.spec_ecdh(eta, block.subrange(0, num_size)).unwrap()),
        block.subrange(num_size, note_stride(params.spec_sizes())),
        hash,
    )
}

/// The notes of a memo, as a receiver reads them, when the notes region
/// holds one block per note and every ephemeral public key is a point.
pub proof fn lemma_in_notes_read_back<P: PoolParams>(
    params: &P,
    eta: Seq<u8>,
    memo: Seq<u8>,
    base: int,
    hashes: Seq<Seq<u8>>,
    blocks: Seq<Seq<u8>>,
    k: int,
    acc: Seq<Option<Seq<u8>>>,
)
    requires
        params.spec_sizes().wf(),
        0 <= k <= blocks.len(),
        acc.len() == k,
        hashes.len() == blocks.len(),
        0 <= base,
        base + blocks.flatten().len() <= memo.len(),
        memo.subrange(base, base + blocks.flatten().len()) == blocks.flatten(),
        forall|i: int|
            0 <= i < blocks.len() ==> (#[trigger] blocks[i]).len() == note_stride(params.spec_sizes()),
        forall|i: int|
            0 <= i < blocks.len() ==> (#[trigger] hashes[i]).len() == params.spec_sizes().num_size
                && params.spec_is_num(hashes[i]),
        forall|i: int|
            0 <= i < blocks.len() ==> params.spec_ecdh(
                eta,
                (#[trigger] blocks[i]).subrange(0, params.spec_sizes().num_size as int),
            ) is Some,
    ensures
        ({
            let r = spec_in_notes(
                params,
                eta,
                memo,
                base + k * note_stride(params.spec_sizes()),
                hashes.flatten(),
                k,
                blocks.len() as int,
                acc,
            );
            &&& r.len() == blocks.len()
            &&& forall|j: int| 0 <= j < k ==> r[j] == acc[j]
            &&& forall|i: int|
                k <= i < blocks.len() ==> r[i] == spec_received_note(
                    params,
                    eta,
                    #[trigger] blocks[i],
                    hashes[i],
                )
        }),
    decreases blocks.len() - k,
{
    let sizes = params.spec_sizes();
    let num_size = sizes.num_size as int;
    let stride = note_stride(sizes);
    let count = blocks.len() as int;
    if k >= count {
    } else {
        lemma_flatten_uniform(blocks, stride);
        lemma_flatten_uniform(hashes, num_size);
        lemma_item_in_block(k, count, stride);
        let pos = base + k * stride;
        let flat = blocks.flatten();
        let block = blocks[k];
        assert(flat.subrange(k * stride, k * stride + stride) == block);
        assert(memo.subrange(pos, pos + num_size) =~= block.subrange(0, num_size)) by {
            assert forall|j: int| 0 <= j < num_size implies memo.subrange(pos, pos + num_size)[j]
                == block.subrange(0, num_size)[j] by {
                assert(memo.subrange(base, base + flat.len())[k * stride + j] == memo[pos + j]);
                assert(flat.subrange(k * stride, k * stride + stride)[j] == flat[k * stride + j]);
            }
        }
        let ct_size = sizes.note_size + 16;
        assert(memo.subrange(pos + num_size, pos + num_size + ct_size) =~= block.subrange(
            num_size,
            stride,
        )) by {
            assert forall|j: int| 0 <= j < ct_size implies memo.subrange(
                pos + num_size,
                pos + num_size + ct_size,
            )[j] == block.subrange(num_size, stride)[j] by {
                assert(memo.subrange(base, base + flat.len())[k * stride + num_size + j] == memo[pos
                    + num_size + j]);
                assert(flat.subrange(k * stride, k * stride + stride)[num_size + j] == flat[k
                    * stride + num_size + j]);
            }
        }
        assert(hash_at(hashes.flatten(), num_size, k) == hashes[k]);
        assert(params.spec_ecdh(eta, block.subrange(0, num_size)) is Some);
        assert(pos + num_size + ct_size == base + (k + 1) * stride);
        let acc2 = acc.push(spec_received_note(params, eta, block, hashes[k]));
        lemma_in_notes_read_back(params, eta, memo, base, hashes, blocks, k + 1, acc2);
    }
}

/// A well-formed memo reads, for a receiver, as one entry per note: the
/// note as [`spec_received_note`] reads its block.
pub proof fn lemma_decrypt_in_read_back<P: PoolParams>(
    params: &P,
    eta: Seq<u8>,
    header: Seq<u8>,
    enc_type: MessageEncryptionType,
    account_hash: Seq<u8>,
    hashes: Seq<Seq<u8>>,
    shared: Seq<u8>,
    account_ciphertext: Seq<u8>,
    blocks: Seq<Seq<u8>>,
)
    requires
        params.spec_sizes().wf(),
        header.len() == 4,
        blocks.len() + 1 <= 0xffff,
        spec_parse_memo_header(
            spec_memo(header, account_hash, hashes, shared, account_ciphertext, blocks),
        ) == Some(((blocks.len() + 1) as usize, enc_type)),
        account_hash.len() == params.spec_sizes().num_size,
        hashes.len() == blocks.len(),
        spec_shared_secrets_size(
            enc_type,
            params.spec_sizes().num_size as int,
            blocks.len() + 1int,
        ) == Some(shared.len() as int),
        account_ciphertext.len() == params.spec_sizes().account_size + 16,
        forall|i: int|
            0 <= i < blocks.len() ==> (#[trigger] blocks[i]).len() == note_stride(params.spec_sizes()),
        forall|i: int|
            0 <= i < blocks.len() ==> (#[trigger] hashes[i]).len() == params.spec_sizes().num_size
                && params.spec_is_num(hashes[i]),
        forall|i: int|
            0 <= i < blocks.len() ==> params.spec_ecdh(
                eta,
                (#[trigger] blocks[i]).subrange(0, params.spec_sizes().num_size as int),
            ) is Some,
    ensures
        spec_decrypt_in_notes(
            params,
            eta,
            spec_memo(header, account_hash, hashes, shared, account_ciphertext, blocks),
        ) matches Some(r) && r.len() == blocks.len() && forall|i: int|
            0 <= i < blocks.len() ==> r[i] == spec_received_note(
                params,
                eta,
                #[trigger] blocks[i],
                hashes[i],
            ),
{
    let sizes = params.spec_sizes();
    let num_size = sizes.num_size as int;
    let count = blocks.len() as int;
    let memo = spec_memo(header, account_hash, hashes, shared, account_ciphertext, blocks);
    lemma_flatten_uniform(hashes, num_size);
    lemma_flatten_uniform(blocks, note_stride(sizes));
    let hf = hashes.flatten();
    let bf = blocks.flatten();
    assert((count + 1) * num_size == num_size + count * num_size) by (nonlinear_arith);
    let ss_pos = shared_secrets_pos(num_size, count + 1);
    assert(ss_pos == 4 + num_size + hf.len());
    let p = ss_pos + shared.len();
    let base = p + account_ciphertext.len();
    assert(memo.len() == base + bf.len());
    assert(memo.subrange(hashes_pos(num_size), hashes_pos(num_size) + count * num_size) =~= hf);
    assert(memo.subrange(base, base + bf.len()) =~= bf);
    lemma_in_notes_read_back(params, eta, memo, base, hashes, blocks, 0, seq![]);
}

/// What a receiver holding `eta` reads from a memo encrypting `notes`: one
/// entry per note, and the note itself wherever its shared point is the one
/// the receiver computes.
pub open spec fn spec_receiver_reads<P: PoolParams>(
    params: &P,
    eta: Seq<u8>,
    memo: Seq<u8>,
    notes: Seq<Vec<u8>>,
    ephemeral: Seq<NoteEphemeralKey>,
) -> bool {
    spec_decrypt_in_notes(params, eta, memo) matches Some(r) && r.len() == notes.len() && forall|
        i: int,
    |
        0 <= i < notes.len() && params.spec_ecdh(eta, ephemeral[i].a_pub@) == Some(
            ephemeral[i].shared_x@,
        ) ==> #[trigger] r[i] == Some(notes[i]@)
}

/// The notes of an encrypted memo reach every receiver whose shared point
/// matches, whatever the shared-secret block holds.
pub proof fn lemma_encrypted_notes_received<P: PoolParams>(
    params: &P,
    eta: Seq<u8>,
    header: Seq<u8>,
    enc_type: MessageEncryptionType,
    shared: Seq<u8>,
    account_key: Seq<u8>,
    account: Seq<u8>,
    notes: Seq<Vec<u8>>,
    ephemeral: Seq<NoteEphemeralKey>,
)
    requires
        params.spec_sizes().wf(),
        memo_items_valid(params, account, notes, ephemeral),
        header.len() == 4,
        spec_parse_memo_header(
            spec_memo(
                header,
                params.spec_account_hash(account).unwrap(),
                spec_note_hashes(params, notes),
                shared,
                spec_encrypt_constant_nonce(account_key, account),
                spec_note_blocks(notes, ephemeral),
            ),
        ) == Some(((notes.len() + 1) as usize, enc_type)),
        spec_shared_secrets_size(
            enc_type,
            params.spec_sizes().num_size as int,
            notes.len() + 1int,
        ) == Some(shared.len() as int),
        spec_encrypt_constant_nonce(account_key, account).len() == account.len() + 16,
        forall|i: int|
            0 <= i < notes.len() ==> {
                let key = #[trigger] spec_note_keys(ephemeral)[i];
                &&& spec_encrypt_constant_nonce(key, notes[i]@).len() == notes[i]@.len() + 16
                &&& spec_decrypt_constant_nonce(key, spec_encrypt_constant_nonce(key, notes[i]@))
                    == Some(notes[i]@)
            },
        forall|i: int|
            0 <= i < notes.len() ==> params.spec_ecdh(eta, #[trigger] ephemeral[i].a_pub@) is Some,
    ensures
        spec_receiver_reads(
            params,
            eta,
            spec_memo(
                header,
                params.spec_account_hash(account).unwrap(),
                spec_note_hashes(params, notes),
                shared,
                spec_encrypt_constant_nonce(account_key, account),
                spec_note_blocks(notes, ephemeral),
            ),
            notes,
            ephemeral,
        ),
{
    let sizes = params.spec_sizes();
    let num_size = sizes.num_size as int;
    let count = notes.len() as int;
    let hashes = spec_note_hashes(params, notes);
    let blocks = spec_note_blocks(notes, ephemeral);
    let account_hash = params.spec_account_hash(account).unwrap();
    let account_ct = spec_encrypt_constant_nonce(account_key, account);
    let memo = spec_memo(header, account_hash, hashes, shared, account_ct, blocks);
    assert forall|i: int| 0 <= i < count implies (#[trigger] hashes[i]).len() == num_size
        && params.spec_is_num(hashes[i]) by {
        assert(params.spec_note_hash(notes[i]@) is Some);
    }
    assert forall|i: int| 0 <= i < count implies (#[trigger] blocks[i]).len() == note_stride(sizes)
        && blocks[i].subrange(0, num_size) == ephemeral[i].a_pub@ && blocks[i].subrange(
        num_size,
        note_stride(sizes),
    ) == spec_encrypt_constant_nonce(spec_note_keys(ephemeral)[i], notes[i]@) by {
        let key = spec_note_keys(ephemeral)[i];
        assert(ephemeral[i].a_pub@.len() == num_size);
        assert(notes[i]@.len() == sizes.note_size);
        assert(spec_encrypt_constant_nonce(key, notes[i]@).len() == notes[i]@.len() + 16);
        assert(blocks[i].subrange(0, num_size) =~= ephemeral[i].a_pub@);
        assert(blocks[i].subrange(num_size, note_stride(sizes)) =~= spec_encrypt_constant_nonce(
            key,
            notes[i]@,
        ));
    }
    assert forall|i: int| 0 <= i < count implies params.spec_ecdh(
        eta,
        (#[trigger] blocks[i]).subrange(0, num_size),
    ) is Some by {
        assert(params.spec_ecdh(eta, ephemeral[i].a_pub@) is Some);
    }
    lemma_decrypt_in_read_back(
        params,
        eta,
        header,
        enc_type,
        account_hash,
        hashes,
        shared,
        account_ct,
        blocks,
    );
    let r = spec_decrypt_in_notes(params, eta, memo).unwrap();
    assert forall|i: int|
        0 <= i < count && params.spec_ecdh(eta, ephemeral[i].a_pub@) == Some(
            ephemeral[i].shared_x@,
        ) implies #[trigger] r[i] == Some(notes[i]@) by {
        let key = spec_note_keys(ephemeral)[i];
        assert(r[i] == spec_received_note(params, eta, blocks[i], hashes[i]));
        assert(params.spec_note_hash(notes[i]@) is Some);
        assert(spec_decrypt_constant_nonce(key, spec_encrypt_constant_nonce(key, notes[i]@)) == Some(
            notes[i]@,
        ));
    }
}

/// The chunk that a receiver recovers from the block of a note: its index,
/// its ciphertext, and the key derived from the ECDH of `eta` with its
/// ephemeral public key.
pub open spec fn spec_received_chunk<P: PoolParams>(
    params: &P,
    eta: Seq<u8>,
    blocks: Seq<Seq<u8>>,
    i: int,
) -> (u64, Seq<u8>, Seq<u8>) {
    let num_size = params.spec_sizes().num_size as int;
    (
        (i + 1) as u64,
        blocks[i].subrange(num_size, note_stride(params.spec_sizes())),
        spec_keccak256(params.spec_ecdh(eta, blocks[i].subrange(0, num_size)).unwrap()),
    )
}

/// The chunks that a receiver recovers from notes `k..count` of a memo whose
/// notes region holds one block per note, every ephemeral public key being a
/// point: exactly the chunks of the notes that it reads, each once.
pub proof fn lemma_in_chunks_read_back<P: PoolParams>(
    params: &P,
    eta: Seq<u8>,
    memo: Seq<u8>,
    base: int,
    hashes: Seq<Seq<u8>>,
    blocks: Seq<Seq<u8>>,
    k: int,
    acc: Seq<(u64, Seq<u8>, Seq<u8>)>,
)
    requires
        params.spec_sizes().wf(),
        0 <= k <= blocks.len() <= 0xffff,
        hashes.len() == blocks.len(),
        0 <= base,
        base + blocks.flatten().len() <= memo.len(),
        memo.subrange(base, base + blocks.flatten().len()) == blocks.flatten(),
        forall|i: int|
            0 <= i < blocks.len() ==> (#[trigger] blocks[i]).len() == note_stride(params.spec_sizes()),
        forall|i: int|
            0 <= i < blocks.len() ==> (#[trigger] hashes[i]).len() == params.spec_sizes().num_size
                && params.spec_is_num(hashes[i]),
        forall|i: int|
            0 <= i < blocks.len() ==> params.spec_ecdh(
                eta,
                (#[trigger] blocks[i]).subrange(0, params.spec_sizes().num_size as int),
            ) is Some,
    ensures
        ({
            let r = spec_in_chunks(
                params,
                eta,
                memo,
                base + k * note_stride(params.spec_sizes()),
                hashes.flatten(),
                k,
                blocks.len() as int,
                acc,
            );
            &&& r.len() >= acc.len()
            &&& forall|j: int| 0 <= j < acc.len() ==> r[j] == acc[j]
            &&& forall|j: int|
                acc.len() <= j < r.len() ==> k + 1 <= (#[trigger] r[j]).0 <= blocks.len() && r[j]
                    == spec_received_chunk(params, eta, blocks, r[j].0 - 1) && spec_received_note(
                    params,
                    eta,
                    blocks[r[j].0 - 1],
                    hashes[r[j].0 - 1],
                ) is Some
            &&& forall|i: int|
                k <= i < blocks.len() && spec_received_note(params, eta, blocks[i], hashes[i]) is Some
                    ==> exists|j: int| acc.len() <= j < r.len() && (#[trigger] r[j]).0 == (i + 1) as u64
        }),
    decreases blocks.len() - k,
{
    let sizes = params.spec_sizes();
    let num_size = sizes.num_size as int;
    let stride = note_stride(sizes);
    let count = blocks.len() as int;
    if k < count {
        lemma_flatten_uniform(blocks, stride);
        lemma_flatten_uniform(hashes, num_size);
        lemma_item_in_block(k, count, stride);
        let pos = base + k * stride;
        let flat = blocks.flatten();
        let block = blocks[k];
        assert(flat.subrange(k * stride, k * stride + stride) == block);
        assert(memo.subrange(pos, pos + num_size) =~= block.subrange(0, num_size)) by {
            assert forall|j: int| 0 <= j < num_size implies memo.subrange(pos, pos + num_size)[j]
                == block.subrange(0, num_size)[j] by {
                assert(memo.subrange(base, base + flat.len())[k * stride + j] == memo[pos + j]);
                assert(flat.subrange(k * stride, k * stride + stride)[j] == flat[k * stride + j]);
            }
        }
        let ct_size = sizes.note_size + 16;
        assert(memo.subrange(pos + num_size, pos + num_size + ct_size) =~= block.subrange(
            num_size,
            stride,
        )) by {
            assert forall|j: int| 0 <= j < ct_size implies memo.subrange(
                pos + num_size,
                pos + num_size + ct_size,
            )[j] == block.subrange(num_size, stride)[j] by {
                assert(memo.subrange(base, base + flat.len())[k * stride + num_size + j] == memo[pos
                    + num_size + j]);
                assert(flat.subrange(k * stride, k * stride + stride)[num_size + j] == flat[k
                    * stride + num_size + j]);
            }
        }
        assert(crate::layout::hash_at(hashes.flatten(), num_size, k) == hashes[k]);
        assert(params.spec_ecdh(eta, block.subrange(0, num_size)) is Some);
        assert(pos + num_size + ct_size == base + (k + 1) * stride);
        let received = spec_received_note(params, eta, block, hashes[k]);
        let chunk = spec_received_chunk(params, eta, blocks, k);
        let acc2 = if received is Some {
            acc.push(chunk)
        } else {
            acc
        };
        lemma_in_chunks_read_back(params, eta, memo, base, hashes, blocks, k + 1, acc2);
        let r = spec_in_chunks(params, eta, memo, pos, hashes.flatten(), k, count, acc);
        assert(r == spec_in_chunks(
            params,
            eta,
            memo,
            base + (k + 1) * stride,
            hashes.flatten(),
            k + 1,
            count,
            acc2,
        ));
        assert forall|j: int| 0 <= j < acc.len() implies r[j] == acc[j] by {
            assert(acc2[j] == acc[j]);
        }
        assert forall|j: int| acc.len() <= j < r.len() implies k + 1 <= (#[trigger] r[j]).0
            <= blocks.len() && r[j] == spec_received_chunk(params, eta, blocks, r[j].0 - 1)
            && spec_received_note(params, eta, blocks[r[j].0 - 1], hashes[r[j].0 - 1]) is Some by {
            if j < acc2.len() {
                assert(received is Some && j == acc.len());
                assert(r[j] == acc2[j]);
                assert(acc2[j] == chunk);
            }
        }
        assert forall|i: int|
            k <= i < blocks.len() && spec_received_note(params, eta, blocks[i], hashes[i]) is Some
                implies exists|j: int| acc.len() <= j < r.len() && (#[trigger] r[j]).0 == (i + 1) as u64 by {
            if i == k {
                assert(r[acc.len() as int] == acc2[acc.len() as int]);
                assert(acc.len() <= acc.len() < r.len() && r[acc.len() as int].0 == (i + 1) as u64);
            } else {
                assert(exists|j: int| acc2.len() <= j < r.len() && (#[trigger] r[j]).0 == (i + 1) as u64);
                let j = choose|j: int| acc2.len() <= j < r.len() && (#[trigger] r[j]).0 == (i + 1) as u64;
                assert(acc.len() <= j < r.len() && r[j].0 == (i + 1) as u64);
            }
        }
        assert(r.len() >= acc.len());
    } else {
        let r = spec_in_chunks(
            params,
            eta,
            memo,
            base + k * stride,
            hashes.flatten(),
            k,
            count,
            acc,
        );
        assert(r == acc);
    }
}

/// What a receiver holding `eta` recovers as chunks of a memo encrypting
/// `notes`: each chunk belongs to a note `i` (index `i + 1`), holds that
/// note's ChaCha20-Poly1305 ciphertext under the all-zero nonce and the key
/// that the receiver derives by ECDH with the note's ephemeral key; every note
/// whose shared point the receiver computes is among them; and no index
/// comes twice.
pub open spec fn spec_receiver_chunks(
    params_ecdh: spec_fn(Seq<u8>) -> Option<Seq<u8>>,
    chunks: Seq<(u64, Seq<u8>, Seq<u8>)>,
    notes: Seq<Vec<u8>>,
    ephemeral: Seq<NoteEphemeralKey>,
) -> bool {
    &&& forall|j: int|
        0 <= j < chunks.len() ==> {
            let i = (#[trigger] chunks[j]).0 - 1;
            &&& 0 <= i < notes.len()
            &&& chunks[j].1 == spec_chacha20poly1305_encrypt(
                spec_keccak256(ephemeral[i].shared_x@),
                Seq::new(12, |b: int| 0u8),
                notes[i]@,
            )
            &&& chunks[j].2 == spec_keccak256(params_ecdh(ephemeral[i].a_pub@).unwrap())
        }
    &&& forall|i: int|
        0 <= i < notes.len() && params_ecdh(ephemeral[i].a_pub@) == Some(ephemeral[i].shared_x@)
            ==> exists|j: int| 0 <= j < chunks.len() && (#[trigger] chunks[j]).0 == (i + 1) as u64
    &&& forall|j: int, k: int|
        0 <= j < k < chunks.len() ==> (#[trigger] chunks[j]).0 < (#[trigger] chunks[k]).0
}

/// Of a memo written by `encrypt`, a receiver whose `kappa_r` does not open
/// the shared-secret block recovers exactly the chunks of its notes, each
/// once, with the key that it derives.
pub proof fn lemma_encrypt_receiver_chunks<P: PoolParams>(
    params: &P,
    eta: Seq<u8>,
    kappa_r: Seq<u8>,
    account_key: Seq<u8>,
    nonce: Seq<u8>,
    kappa: Seq<u8>,
    account: Seq<u8>,
    notes: Seq<Vec<u8>>,
    ephemeral: Seq<NoteEphemeralKey>,
)
    requires
        memo_items_valid(params, account, notes, ephemeral),
        account_key.len() == 32,
        nonce.len() == 24,
        forall|i: int| 0 <= i < notes.len() ==> params.spec_ecdh(eta, #[trigger] ephemeral[i].a_pub@) is Some,
        spec_xchacha20poly1305_encrypt(kappa, nonce, spec_shared_text(account_key, ephemeral)).len()
            == spec_shared_text(account_key, ephemeral).len() + 16,
        spec_xchacha20poly1305_decrypt(
            kappa_r,
            nonce,
            spec_xchacha20poly1305_encrypt(kappa, nonce, spec_shared_text(account_key, ephemeral)),
        ) is None,
        spec_encrypt_constant_nonce(account_key, account).len() == account.len() + 16,
        forall|i: int| 0 <= i < notes.len() ==> (#[trigger] spec_note_keys(ephemeral)[i]).len() == 32,
        forall|i: int|
            0 <= i < notes.len() ==> {
                let key = #[trigger] spec_note_keys(ephemeral)[i];
                &&& spec_encrypt_constant_nonce(key, notes[i]@).len() == notes[i]@.len() + 16
                &&& spec_decrypt_constant_nonce(key, spec_encrypt_constant_nonce(key, notes[i]@))
                    == Some(notes[i]@)
            },
    ensures
        spec_decryption_keys(
            params,
            eta,
            kappa_r,
            spec_encrypt(params, account_key, nonce, kappa, account, notes, ephemeral),
        ) matches Some(chunks) && spec_receiver_chunks(
            |point: Seq<u8>| params.spec_ecdh(eta, point),
            chunks,
            notes,
            ephemeral,
        ),
{
    let sizes = params.spec_sizes();
    let num_size = sizes.num_size as int;
    let stride = note_stride(sizes);
    let count = notes.len() as int;
    let n = count + 1;
    let header = spec_u16_le_bytes(n as u16) + spec_u16_le_bytes(0x0200);
    let account_hash = params.spec_account_hash(account).unwrap();
    let hashes = spec_note_hashes(params, notes);
    let text = spec_shared_text(account_key, ephemeral);
    let ss_ct = spec_xchacha20poly1305_encrypt(kappa, nonce, text);
    let shared = nonce + ss_ct;
    let account_ct = spec_encrypt_constant_nonce(account_key, account);
    let blocks = spec_note_blocks(notes, ephemeral);
    let memo = spec_memo(header, account_hash, hashes, shared, account_ct, blocks);
    assert(memo == spec_encrypt(params, account_key, nonce, kappa, account, notes, ephemeral));
    lemma_shared_text_keys(account_key, ephemeral);
    assert forall|i: int| 0 <= i < count implies (#[trigger] hashes[i]).len() == num_size
        && params.spec_is_num(hashes[i]) by {
        assert(params.spec_note_hash(notes[i]@) is Some);
    }
    assert forall|i: int| 0 <= i < count implies (#[trigger] blocks[i]).len() == stride
        && blocks[i].subrange(0, num_size) == ephemeral[i].a_pub@ && blocks[i].subrange(
        num_size,
        stride,
    ) == spec_encrypt_constant_nonce(spec_note_keys(ephemeral)[i], notes[i]@) by {
        let key = spec_note_keys(ephemeral)[i];
        assert(ephemeral[i].a_pub@.len() == num_size);
        assert(notes[i]@.len() == sizes.note_size);
        assert(spec_encrypt_constant_nonce(key, notes[i]@).len() == notes[i]@.len() + 16);
        assert(blocks[i].subrange(0, num_size) =~= ephemeral[i].a_pub@);
        assert(blocks[i].subrange(num_size, stride) =~= spec_encrypt_constant_nonce(key, notes[i]@));
    }
    assert forall|i: int| 0 <= i < count implies params.spec_ecdh(
        eta,
        (#[trigger] blocks[i]).subrange(0, num_size),
    ) is Some by {
        assert(params.spec_ecdh(eta, ephemeral[i].a_pub@) is Some);
    }
    lemma_flatten_uniform(hashes, num_size);
    lemma_flatten_uniform(blocks, stride);
    let hf = hashes.flatten();
    let bf = blocks.flatten();
    assert(memo.subrange(0, 4) =~= header);
    lemma_u16_header_read_back(memo, n);
    assert(n * num_size == num_size + count * num_size) by (nonlinear_arith)
        requires
            n == count + 1,
    ;
    let ss_pos = shared_secrets_pos(num_size, n);
    assert(ss_pos == 4 + num_size + hf.len());
    assert(memo.subrange(4, 4 + num_size) =~= account_hash);
    assert(memo.subrange(hashes_pos(num_size), hashes_pos(num_size) + count * num_size) =~= hf);
    assert(memo.subrange(ss_pos, ss_pos + 24) =~= nonce);
    assert(memo.subrange(ss_pos + 24, ss_pos + 24 + n * 32 + 16) =~= ss_ct);
    assert(spec_decrypt_xchacha(kappa_r, nonce, ss_ct) is None);
    let p = ss_pos + shared.len();
    assert(spec_decrypt_shared_secrets(
        params,
        MessageEncryptionType::Symmetric,
        eta,
        kappa_r,
        memo,
        ss_pos,
        n * 32 + 16,
    ) == (None::<Seq<u8>>, p));
    let base = p + account_ct.len();
    assert(memo.len() == base + bf.len());
    assert(memo.subrange(p, p + sizes.account_size + 16) =~= account_ct);
    assert(memo.subrange(base, base + bf.len()) =~= bf);
    lemma_in_chunks_read_back(params, eta, memo, base, hashes, blocks, 0, seq![]);
    assert(0 * stride == 0);
    let chunks = spec_decryption_keys(params, eta, kappa_r, memo).unwrap();
    assert(chunks == spec_in_chunks(params, eta, memo, base, hf, 0, count, seq![]));
    crate::laws::lemma_decryption_keys_increasing(params, eta, kappa_r, memo);
    let ecdh = |point: Seq<u8>| params.spec_ecdh(eta, point);
    assert forall|j: int| 0 <= j < chunks.len() implies {
        let i = (#[trigger] chunks[j]).0 - 1;
        &&& 0 <= i < notes.len()
        &&& chunks[j].1 == spec_chacha20poly1305_encrypt(
            spec_keccak256(ephemeral[i].shared_x@),
            Seq::new(12, |b: int| 0u8),
            notes[i]@,
        )
        &&& chunks[j].2 == spec_keccak256(ecdh(ephemeral[i].a_pub@).unwrap())
    } by {
        let i = chunks[j].0 - 1;
        assert(chunks[j] == spec_received_chunk(params, eta, blocks, i));
        crate::laws::lemma_constant_nonce_is_zero(
            spec_note_keys(ephemeral)[i],
            notes[i]@,
            Seq::empty(),
        );
    }
    assert forall|i: int|
        0 <= i < notes.len() && ecdh(ephemeral[i].a_pub@) == Some(ephemeral[i].shared_x@)
            implies exists|j: int| 0 <= j < chunks.len() && (#[trigger] chunks[j]).0 == (i + 1) as u64 by {
        let key = spec_note_keys(ephemeral)[i];
        assert(params.spec_note_hash(notes[i]@) is Some);
        assert(spec_decrypt_constant_nonce(key, spec_encrypt_constant_nonce(key, notes[i]@)) == Some(
            notes[i]@,
        ));
        assert(spec_received_note(params, eta, blocks[i], hashes[i]) is Some);
    }
}

} // verus!
