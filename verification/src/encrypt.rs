//! Encryption of memos: the account and each note under a key of its own,
//! and those keys in a shared-secret block that only the sender can open.
use crate::cipher::{spec_decrypt_account, spec_decrypt_note};
use crate::laws::{lemma_truncated_memo_rejected, spec_memo_size};
use crate::decrypt::{spec_decrypt_out, spec_decryption_keys, vecs_view};
use crate::roundtrip::{
    lemma_encrypt_old_read_back, lemma_encrypt_read_back, lemma_encrypted_notes_received,
    lemma_encrypt_receiver_chunks, lemma_u16_header_read_back, lemma_u32_header_read_back,
    spec_receiver_chunks, spec_receiver_reads,
};
use crate::memo::{spec_u16_le_bytes, spec_u32_le_bytes, MessageEncryptionType};
use crate::layout::lemma_flatten_uniform;
use crate::params::PoolParams;
use crate::symmetric::{
    encrypt_chacha_constant_nonce, encrypt_xchacha, keccak256, message_fits,
    spec_chacha20poly1305_encrypt, spec_decrypt_constant_nonce, spec_encrypt_constant_nonce,
    spec_keccak256,
    spec_xchacha20poly1305_decrypt, spec_xchacha20poly1305_encrypt,
};
use vstd::prelude::*;

verus! {

/// The ephemeral key material of one note: the x coordinate of the public
/// key `a · G_d` written to the memo, and the x coordinate of the shared
/// point `a · P_d` with the note's receiver, from which the note key is
/// derived.
pub struct NoteEphemeralKey {
    pub a_pub: Vec<u8>,
    pub shared_x: Vec<u8>,
}

/// Appends `src` to `out`.
pub fn append_bytes(out: &mut Vec<u8>, src: &[u8])
    ensures
        final(out)@ == old(out)@ + src@,
{
    let ghost start = out@;
    let mut i: usize = 0;
    while i < src.len()
        invariant
            i <= src@.len(),
            out@ == start + src@.subrange(0, i as int),
        decreases src@.len() - i,
    {
        out.push(src[i]);
        i = i + 1;
        assert(out@ =~= start + src@.subrange(0, i as int));
    }
    assert(src@.subrange(0, src@.len() as int) =~= src@);
}

/// The encoded hashes of the notes.
pub open spec fn spec_note_hashes<P: PoolParams>(params: &P, notes: Seq<Vec<u8>>) -> Seq<Seq<u8>> {
    Seq::new(notes.len(), |i: int| params.spec_note_hash(notes[i]@).unwrap())
}

/// The key of each note: Keccak-256 of the x coordinate of its shared point.
pub open spec fn spec_note_keys(ephemeral: Seq<NoteEphemeralKey>) -> Seq<Seq<u8>> {
    Seq::new(ephemeral.len(), |i: int| spec_keccak256(ephemeral[i].shared_x@))
}

/// The block of each note: its ephemeral public key, then the note encrypted
/// under its key.
pub open spec fn spec_note_blocks(notes: Seq<Vec<u8>>, ephemeral: Seq<NoteEphemeralKey>) -> Seq<Seq<u8>> {
    Seq::new(
        notes.len(),
        |i: int|
            ephemeral[i].a_pub@ + spec_encrypt_constant_nonce(
                spec_keccak256(ephemeral[i].shared_x@),
                notes[i]@,
            ),
    )
}

/// The number of bytes of the blocks of the first `k` notes.
pub open spec fn spec_blocks_len(notes: Seq<Vec<u8>>, ephemeral: Seq<NoteEphemeralKey>, k: int) -> int
    decreases k,
{
    if k <= 0 {
        0
    } else {
        spec_blocks_len(notes, ephemeral, k - 1) + ephemeral[k - 1].a_pub@.len() + notes[k - 1]@.len()
            + 16
    }
}

/// When every note and ephemeral key has the pool's size, the note blocks
/// take one stride each.
proof fn lemma_blocks_len_uniform(
    notes: Seq<Vec<u8>>,
    ephemeral: Seq<NoteEphemeralKey>,
    sizes: crate::params::MemoSizes,
    k: int,
)
    requires
        0 <= k <= notes.len(),
        notes.len() == ephemeral.len(),
        forall|i: int| 0 <= i < notes.len() ==> (#[trigger] notes[i]@).len() == sizes.note_size,
        forall|i: int| 0 <= i < notes.len() ==> (#[trigger] ephemeral[i].a_pub@).len() == sizes.num_size,
    ensures
        spec_blocks_len(notes, ephemeral, k) == k * crate::layout::note_stride(sizes),
    decreases k,
{
    if k > 0 {
        lemma_blocks_len_uniform(notes, ephemeral, sizes, k - 1);
        assert(notes[k - 1]@.len() == sizes.note_size);
        assert(ephemeral[k - 1].a_pub@.len() == sizes.num_size);
        assert(k * crate::layout::note_stride(sizes) == (k - 1) * crate::layout::note_stride(sizes)
            + crate::layout::note_stride(sizes)) by (nonlinear_arith);
    } else {
        assert(k * crate::layout::note_stride(sizes) == 0) by (nonlinear_arith)
            requires
                k == 0,
        ;
    }
}

/// The plaintext of the shared-secret block: the account key, then the key
/// of each note.
pub open spec fn spec_shared_text(account_key: Seq<u8>, ephemeral: Seq<NoteEphemeralKey>) -> Seq<u8> {
    account_key + spec_note_keys(ephemeral).flatten()
}

/// A memo: the header, the account hash, the note hashes, the shared-secret
/// block, the encrypted account, and the block of each note.
pub open spec fn spec_memo(
    header: Seq<u8>,
    account_hash: Seq<u8>,
    note_hashes: Seq<Seq<u8>>,
    shared: Seq<u8>,
    account_ciphertext: Seq<u8>,
    note_blocks: Seq<Seq<u8>>,
) -> Seq<u8> {
    header + account_hash + note_hashes.flatten() + shared + account_ciphertext
        + note_blocks.flatten()
}

/// The memo that [`encrypt`] writes.
pub open spec fn spec_encrypt<P: PoolParams>(
    params: &P,
    account_key: Seq<u8>,
    nonce: Seq<u8>,
    kappa: Seq<u8>,
    account: Seq<u8>,
    notes: Seq<Vec<u8>>,
    ephemeral: Seq<NoteEphemeralKey>,
) -> Seq<u8> {
    spec_memo(
        spec_u16_le_bytes((notes.len() + 1) as u16) + spec_u16_le_bytes(0x0200),
        params.spec_account_hash(account).unwrap(),
        spec_note_hashes(params, notes),
        nonce + spec_xchacha20poly1305_encrypt(kappa, nonce, spec_shared_text(account_key, ephemeral)),
        spec_encrypt_constant_nonce(account_key, account),
        spec_note_blocks(notes, ephemeral),
    )
}

/// The memo that [`_encrypt_old`] writes, with `shared_x` the x coordinate
/// of the ECDH of `eta` with the ephemeral public key `a_p_pub`.
pub open spec fn spec_encrypt_old<P: PoolParams>(
    params: &P,
    shared_x: Seq<u8>,
    account_key: Seq<u8>,
    a_p_pub: Seq<u8>,
    account: Seq<u8>,
    notes: Seq<Vec<u8>>,
    ephemeral: Seq<NoteEphemeralKey>,
) -> Seq<u8> {
    spec_memo(
        spec_u32_le_bytes((notes.len() + 1) as u32),
        params.spec_account_hash(account).unwrap(),
        spec_note_hashes(params, notes),
        a_p_pub + spec_encrypt_constant_nonce(
            spec_keccak256(shared_x),
            spec_shared_text(account_key, ephemeral),
        ),
        spec_encrypt_constant_nonce(account_key, account),
        spec_note_blocks(notes, ephemeral),
    )
}

/// What the encryption of the items needs: every note has its ephemeral key
/// material, the account and every note encode an item, and every plaintext
/// fits the stream cipher.
pub open spec fn encryptable<P: PoolParams>(
    params: &P,
    account: Seq<u8>,
    notes: Seq<Vec<u8>>,
    ephemeral: Seq<NoteEphemeralKey>,
) -> bool {
    &&& notes.len() == ephemeral.len()
    &&& params.spec_account_hash(account) is Some
    &&& forall|i: int| 0 <= i < notes.len() ==> (#[trigger] params.spec_note_hash(notes[i]@)) is Some
    &&& message_fits(account.len())
    &&& forall|i: int| 0 <= i < notes.len() ==> message_fits((#[trigger] notes[i]@).len())
    &&& message_fits(32 * (notes.len() + 1))
}

/// The items as a pool encodes them (for a pool whose sizes are within
/// [`crate::params::MemoSizes::wf`]): the account and each note have their
/// encoded size and a hash that is a field element, each ephemeral public key
/// has the size of a field element, and the memo counts at most `u16::MAX`
/// items.
pub open spec fn memo_items_valid<P: PoolParams>(
    params: &P,
    account: Seq<u8>,
    notes: Seq<Vec<u8>>,
    ephemeral: Seq<NoteEphemeralKey>,
) -> bool {
    let sizes = params.spec_sizes();
    &&& sizes.wf()
    &&& notes.len() + 1 <= 0xffff
    &&& notes.len() == ephemeral.len()
    &&& account.len() == sizes.account_size
    &&& params.spec_account_hash(account) matches Some(h) && h.len() == sizes.num_size
        && params.spec_is_num(h)
    &&& forall|i: int| 0 <= i < notes.len() ==> (#[trigger] notes[i]@).len() == sizes.note_size
    &&& forall|i: int|
        0 <= i < notes.len() ==> ((#[trigger] params.spec_note_hash(notes[i]@)) matches Some(h)
            && h.len() == sizes.num_size && params.spec_is_num(h))
    &&& forall|i: int| 0 <= i < notes.len() ==> (#[trigger] ephemeral[i].a_pub@).len() == sizes.num_size
}

/// The chunks that the sender of a memo recovers: the encrypted account with
/// its key (index 0), then each encrypted note with its key (index `i + 1`).
pub open spec fn spec_sender_chunks(
    account_key: Seq<u8>,
    account: Seq<u8>,
    notes: Seq<Vec<u8>>,
    ephemeral: Seq<NoteEphemeralKey>,
) -> Seq<(u64, Seq<u8>, Seq<u8>)> {
    seq![(0u64, spec_encrypt_constant_nonce(account_key, account), account_key)] + Seq::new(
        notes.len(),
        |i: int|
            (
                (i + 1) as u64,
                spec_encrypt_constant_nonce(spec_note_keys(ephemeral)[i], notes[i]@),
                spec_note_keys(ephemeral)[i],
            ),
    )
}

/// The start of a symmetric memo, up to its shared-secret ciphertext: the
/// header, the hashes and the nonce. It does not depend on `kappa`.
pub open spec fn spec_encrypt_head<P: PoolParams>(
    params: &P,
    nonce: Seq<u8>,
    account: Seq<u8>,
    notes: Seq<Vec<u8>>,
) -> Seq<u8> {
    spec_u16_le_bytes((notes.len() + 1) as u16) + spec_u16_le_bytes(0x0200)
        + params.spec_account_hash(account).unwrap() + spec_note_hashes(params, notes).flatten()
        + nonce
}

/// The end of a memo, after its shared-secret block: the encrypted account
/// and the block of each note.
pub open spec fn spec_items_tail(
    account_key: Seq<u8>,
    account: Seq<u8>,
    notes: Seq<Vec<u8>>,
    ephemeral: Seq<NoteEphemeralKey>,
) -> Seq<u8> {
    spec_encrypt_constant_nonce(account_key, account) + spec_note_blocks(notes, ephemeral).flatten()
}

/// A chunk opens under its key: to the account (index 0) or to note
/// `index - 1`, each checked against its own hash.
pub open spec fn spec_chunk_opens<P: PoolParams>(
    params: &P,
    account: Seq<u8>,
    notes: Seq<Vec<u8>>,
    chunk: (u64, Seq<u8>, Seq<u8>),
) -> bool {
    if chunk.0 == 0 {
        spec_decrypt_account(params, chunk.2, chunk.1, params.spec_account_hash(account).unwrap())
            == Some(account)
    } else {
        spec_decrypt_note(
            params,
            chunk.2,
            chunk.1,
            params.spec_note_hash(notes[chunk.0 - 1]@).unwrap(),
        ) == Some(notes[chunk.0 - 1]@)
    }
}

/// Each chunk of the sender opens to its item, given what the encryption
/// calls returned.
proof fn lemma_sender_chunks_open<P: PoolParams>(
    params: &P,
    account_key: Seq<u8>,
    account: Seq<u8>,
    notes: Seq<Vec<u8>>,
    ephemeral: Seq<NoteEphemeralKey>,
)
    requires
        encryptable(params, account, notes, ephemeral),
        spec_decrypt_constant_nonce(account_key, spec_encrypt_constant_nonce(account_key, account))
            == Some(account),
        forall|i: int|
            0 <= i < notes.len() ==> {
                let key = #[trigger] spec_note_keys(ephemeral)[i];
                spec_decrypt_constant_nonce(key, spec_encrypt_constant_nonce(key, notes[i]@)) == Some(
                    notes[i]@,
                )
            },
    ensures
        forall|j: int|
            0 <= j < notes.len() + 1 ==> spec_chunk_opens(
                params,
                account,
                notes,
                #[trigger] spec_sender_chunks(account_key, account, notes, ephemeral)[j],
            ),
{
    let chunks = spec_sender_chunks(account_key, account, notes, ephemeral);
    assert forall|j: int| 0 <= j < notes.len() + 1 implies spec_chunk_opens(
        params,
        account,
        notes,
        #[trigger] chunks[j],
    ) by {
        if j > 0 {
            let i = j - 1;
            let key = spec_note_keys(ephemeral)[i];
            assert(spec_decrypt_constant_nonce(key, spec_encrypt_constant_nonce(key, notes[i]@))
                == Some(notes[i]@));
            assert(params.spec_note_hash(notes[i]@) is Some);
            assert(chunks[j].0 == j);
        }
    }
}

/// The item chunks at the end of a memo are ChaCha20-Poly1305 under the
/// all-zero 12-byte nonce: the account under the account key, then each note
/// (after its ephemeral key) under the Keccak-256 of its shared point.
proof fn lemma_tail_chunks(
    memo: Seq<u8>,
    start: int,
    account_key: Seq<u8>,
    account: Seq<u8>,
    notes: Seq<Vec<u8>>,
    ephemeral: Seq<NoteEphemeralKey>,
    sizes: crate::params::MemoSizes,
)
    requires
        0 <= start <= memo.len(),
        memo.subrange(start, memo.len() as int) == spec_items_tail(account_key, account, notes, ephemeral),
        spec_encrypt_constant_nonce(account_key, account).len() == account.len() + 16,
        notes.len() == ephemeral.len(),
        forall|i: int|
            0 <= i < notes.len() ==> {
                let key = #[trigger] spec_note_keys(ephemeral)[i];
                spec_encrypt_constant_nonce(key, notes[i]@).len() == notes[i]@.len() + 16
            },
    ensures
        memo.subrange(start, start + account.len() + 16) == spec_chacha20poly1305_encrypt(
            account_key,
            Seq::new(12, |i: int| 0u8),
            account,
        ),
        (forall|i: int| 0 <= i < notes.len() ==> (#[trigger] notes[i]@).len() == sizes.note_size)
            && (forall|i: int|
            0 <= i < notes.len() ==> (#[trigger] ephemeral[i].a_pub@).len() == sizes.num_size)
            ==> forall|i: int|
            0 <= i < notes.len() ==> memo.subrange(
                start + account.len() + 16 + i * crate::layout::note_stride(sizes) + sizes.num_size,
                start + account.len() + 16 + i * crate::layout::note_stride(sizes)
                    + crate::layout::note_stride(sizes),
            ) == spec_chacha20poly1305_encrypt(
                spec_keccak256(#[trigger] ephemeral[i].shared_x@),
                Seq::new(12, |j: int| 0u8),
                notes[i]@,
            ),
{
    let tail = memo.subrange(start, memo.len() as int);
    let act = spec_encrypt_constant_nonce(account_key, account);
    crate::laws::lemma_constant_nonce_is_zero(account_key, account, Seq::empty());
    assert(tail.len() == act.len() + spec_note_blocks(notes, ephemeral).flatten().len());
    assert(tail.len() == memo.len() - start);
    assert forall|j: int| 0 <= j < tail.len() implies #[trigger] tail[j] == memo[start + j] by {}
    assert(memo.subrange(start, start + account.len() + 16) =~= tail.subrange(0, act.len() as int));
    assert(tail.subrange(0, act.len() as int) =~= act);
    if (forall|i: int| 0 <= i < notes.len() ==> (#[trigger] notes[i]@).len() == sizes.note_size)
        && (forall|i: int|
        0 <= i < notes.len() ==> (#[trigger] ephemeral[i].a_pub@).len() == sizes.num_size) {
        let stride = crate::layout::note_stride(sizes);
        let blocks = spec_note_blocks(notes, ephemeral);
        let num_size = sizes.num_size as int;
        assert forall|i: int| 0 <= i < blocks.len() implies (#[trigger] blocks[i]).len() == stride by {
            let key = spec_note_keys(ephemeral)[i];
            assert(notes[i]@.len() == sizes.note_size);
            assert(ephemeral[i].a_pub@.len() == sizes.num_size);
            assert(spec_encrypt_constant_nonce(key, notes[i]@).len() == notes[i]@.len() + 16);
        }
        lemma_flatten_uniform(blocks, stride);
        let bf = blocks.flatten();
        assert forall|i: int| 0 <= i < notes.len() implies memo.subrange(
            start + account.len() + 16 + i * stride + num_size,
            start + account.len() + 16 + i * stride + stride,
        ) == spec_chacha20poly1305_encrypt(
            spec_keccak256(#[trigger] ephemeral[i].shared_x@),
            Seq::new(12, |j: int| 0u8),
            notes[i]@,
        ) by {
            let key = spec_keccak256(ephemeral[i].shared_x@);
            crate::laws::lemma_constant_nonce_is_zero(key, notes[i]@, Seq::empty());
            crate::layout::lemma_item_in_block(i, notes.len() as int, stride);
            assert(ephemeral[i].a_pub@.len() == num_size);
            assert(bf.subrange(i * stride, i * stride + stride) == blocks[i]);
            assert(blocks[i].subrange(num_size, stride) =~= spec_encrypt_constant_nonce(key, notes[i]@));
            assert(memo.subrange(
                start + account.len() + 16 + i * stride + num_size,
                start + account.len() + 16 + i * stride + stride,
            ) =~= blocks[i].subrange(num_size, stride)) by {
                assert forall|j: int| 0 <= j < stride - num_size implies memo.subrange(
                    start + account.len() + 16 + i * stride + num_size,
                    start + account.len() + 16 + i * stride + stride,
                )[j] == blocks[i].subrange(num_size, stride)[j] by {
                    assert(tail[act.len() + i * stride + num_size + j] == memo[start + account.len()
                        + 16 + i * stride + num_size + j]);
                    assert(tail[act.len() + i * stride + num_size + j] == bf[i * stride + num_size
                        + j]);
                    assert(bf.subrange(i * stride, i * stride + stride)[num_size + j] == bf[i
                        * stride + num_size + j]);
                }
            }
        }
    }
}

/// The encrypted items of a memo and the plaintext of its shared-secret
/// block: the account ciphertext, the key block, and the note ciphertexts.
struct EncryptedItems {
    account_ciphertext: Vec<u8>,
    text: Vec<u8>,
    note_ciphertexts: Vec<Vec<u8>>,
}

/// Encrypts the account and the notes, and collects the keys.
fn encrypt_items(
    account_key: &[u8; 32],
    account: &[u8],
    notes: &[Vec<u8>],
    ephemeral: &[NoteEphemeralKey],
) -> (r: EncryptedItems)
    requires
        notes@.len() == ephemeral@.len(),
        message_fits(account@.len()),
        forall|i: int| 0 <= i < notes@.len() ==> message_fits((#[trigger] notes@[i]@).len()),
    ensures
        r.account_ciphertext@ == spec_encrypt_constant_nonce(account_key@, account@),
        r.account_ciphertext@.len() == account@.len() + 16,
        spec_decrypt_constant_nonce(account_key@, r.account_ciphertext@) == Some(account@),
        r.text@ == spec_shared_text(account_key@, ephemeral@),
        forall|i: int| 0 <= i < notes@.len() ==> (#[trigger] spec_note_keys(ephemeral@)[i]).len() == 32,
        forall|i: int|
            0 <= i < notes@.len() ==> {
                let key = #[trigger] spec_note_keys(ephemeral@)[i];
                &&& spec_encrypt_constant_nonce(key, notes@[i]@).len() == notes@[i]@.len() + 16
                &&& spec_decrypt_constant_nonce(key, spec_encrypt_constant_nonce(key, notes@[i]@))
                    == Some(notes@[i]@)
            },
        r.text@.len() == 32 * (notes@.len() + 1),
        r.note_ciphertexts@.len() == notes@.len(),
        forall|i: int|
            0 <= i < notes@.len() ==> (#[trigger] r.note_ciphertexts@[i])@ == spec_encrypt_constant_nonce(
                spec_keccak256(ephemeral@[i].shared_x@),
                notes@[i]@,
            ),
        forall|i: int|
            0 <= i < notes@.len() ==> (#[trigger] r.note_ciphertexts@[i])@.len() == notes@[i]@.len()
                + 16,
{
    let account_ciphertext = encrypt_chacha_constant_nonce(account_key.as_slice(), account);
    let mut text: Vec<u8> = Vec::new();
    append_bytes(&mut text, account_key.as_slice());
    let mut note_ciphertexts: Vec<Vec<u8>> = Vec::new();
    let mut i: usize = 0;
    while i < notes.len()
        invariant
            i <= notes@.len(),
            notes@.len() == ephemeral@.len(),
            forall|j: int| 0 <= j < notes@.len() ==> message_fits((#[trigger] notes@[j]@).len()),
            text@ == account_key@ + spec_note_keys(ephemeral@).subrange(0, i as int).flatten(),
            text@.len() == 32 * (i + 1),
            note_ciphertexts@.len() == i,
            forall|j: int| 0 <= j < i ==> (#[trigger] spec_note_keys(ephemeral@)[j]).len() == 32,
            forall|j: int|
                0 <= j < i ==> {
                    let key = #[trigger] spec_note_keys(ephemeral@)[j];
                    &&& spec_encrypt_constant_nonce(key, notes@[j]@).len() == notes@[j]@.len() + 16
                    &&& spec_decrypt_constant_nonce(key, spec_encrypt_constant_nonce(key, notes@[j]@))
                        == Some(notes@[j]@)
                },
            forall|j: int|
                0 <= j < i ==> (#[trigger] note_ciphertexts@[j])@ == spec_encrypt_constant_nonce(
                    spec_keccak256(ephemeral@[j].shared_x@),
                    notes@[j]@,
                ),
            forall|j: int|
                0 <= j < i ==> (#[trigger] note_ciphertexts@[j])@.len() == notes@[j]@.len() + 16,
        decreases notes@.len() - i,
    {
        let key = keccak256(ephemeral[i].shared_x.as_slice());
        let ciphertext = encrypt_chacha_constant_nonce(key.as_slice(), notes[i].as_slice());
        proof {
            let keys = spec_note_keys(ephemeral@);
            assert(keys.subrange(0, i + 1) =~= keys.subrange(0, i as int).push(key@));
            keys.subrange(0, i as int).lemma_flatten_push(key@);
        }
        append_bytes(&mut text, key.as_slice());
        note_ciphertexts.push(ciphertext);
        i = i + 1;
    }
    assert(spec_note_keys(ephemeral@).subrange(0, notes@.len() as int) =~= spec_note_keys(ephemeral@));
    EncryptedItems { account_ciphertext, text, note_ciphertexts }
}

/// Writes the hashes of the account and of the notes after the header.
fn write_hashes<P: PoolParams>(
    res: &mut Vec<u8>,
    account: &[u8],
    notes: &[Vec<u8>],
    params: &P,
)
    requires
        params.spec_account_hash(account@) is Some,
        forall|i: int| 0 <= i < notes@.len() ==> (#[trigger] params.spec_note_hash(notes@[i]@)) is Some,
    ensures
        final(res)@ == old(res)@ + params.spec_account_hash(account@).unwrap() + spec_note_hashes(
            params,
            notes@,
        ).flatten(),
        final(res)@.len() == old(res)@.len() + params.spec_sizes().num_size * (notes@.len() + 1),
{
    let account_hash = params.account_hash(account).unwrap();
    append_bytes(res, account_hash.as_slice());
    let ghost start = res@;
    let mut i: usize = 0;
    while i < notes.len()
        invariant
            i <= notes@.len(),
            forall|j: int| 0 <= j < notes@.len() ==> (#[trigger] params.spec_note_hash(notes@[j]@)) is Some,
            res@ == start + spec_note_hashes(params, notes@).subrange(0, i as int).flatten(),
            start.len() == old(res)@.len() + params.spec_sizes().num_size,
            res@.len() == start.len() + params.spec_sizes().num_size * i,
        decreases notes@.len() - i,
    {
        let hash = params.note_hash(notes[i].as_slice()).unwrap();
        assert(params.spec_sizes().num_size * (i + 1) == params.spec_sizes().num_size * i
            + params.spec_sizes().num_size) by (nonlinear_arith);
        proof {
            let hashes = spec_note_hashes(params, notes@);
            assert(hashes.subrange(0, i + 1) =~= hashes.subrange(0, i as int).push(hash@));
            hashes.subrange(0, i as int).lemma_flatten_push(hash@);
        }
        append_bytes(res, hash.as_slice());
        i = i + 1;
    }
    assert(spec_note_hashes(params, notes@).subrange(0, notes@.len() as int) =~= spec_note_hashes(
        params,
        notes@,
    ));
    assert(params.spec_sizes().num_size * (notes@.len() + 1) == params.spec_sizes().num_size
        * notes@.len() + params.spec_sizes().num_size) by (nonlinear_arith);
}

/// Writes the encrypted account and the block of each note.
fn write_items(
    res: &mut Vec<u8>,
    items: &EncryptedItems,
    notes: &[Vec<u8>],
    ephemeral: &[NoteEphemeralKey],
)
    requires
        notes@.len() == ephemeral@.len(),
        items.note_ciphertexts@.len() == notes@.len(),
        forall|i: int|
            0 <= i < notes@.len() ==> (#[trigger] items.note_ciphertexts@[i])@ == spec_encrypt_constant_nonce(
                spec_keccak256(ephemeral@[i].shared_x@),
                notes@[i]@,
            ),
        forall|i: int|
            0 <= i < notes@.len() ==> (#[trigger] items.note_ciphertexts@[i])@.len() == notes@[i]@.len()
                + 16,
    ensures
        final(res)@ == old(res)@ + items.account_ciphertext@ + spec_note_blocks(notes@, ephemeral@).flatten(),
        final(res)@.len() == old(res)@.len() + items.account_ciphertext@.len() + spec_blocks_len(
            notes@,
            ephemeral@,
            notes@.len() as int,
        ),
{
    append_bytes(res, items.account_ciphertext.as_slice());
    let ghost start = res@;
    let mut i: usize = 0;
    while i < notes.len()
        invariant
            i <= notes@.len(),
            notes@.len() == ephemeral@.len(),
            items.note_ciphertexts@.len() == notes@.len(),
            forall|j: int|
                0 <= j < notes@.len() ==> (#[trigger] items.note_ciphertexts@[j])@ == spec_encrypt_constant_nonce(
                    spec_keccak256(ephemeral@[j].shared_x@),
                    notes@[j]@,
                ),
            res@ == start + spec_note_blocks(notes@, ephemeral@).subrange(0, i as int).flatten(),
            forall|j: int|
                0 <= j < notes@.len() ==> (#[trigger] items.note_ciphertexts@[j])@.len()
                    == notes@[j]@.len() + 16,
            start.len() == old(res)@.len() + items.account_ciphertext@.len(),
            res@.len() == start.len() + spec_blocks_len(notes@, ephemeral@, i as int),
        decreases notes@.len() - i,
    {
        let ghost before = res@;
        append_bytes(res, ephemeral[i].a_pub.as_slice());
        append_bytes(res, items.note_ciphertexts[i].as_slice());
        proof {
            let blocks = spec_note_blocks(notes@, ephemeral@);
            let block = blocks[i as int];
            assert(block == ephemeral@[i as int].a_pub@ + items.note_ciphertexts@[i as int]@);
            assert(blocks.subrange(0, i + 1) =~= blocks.subrange(0, i as int).push(block));
            blocks.subrange(0, i as int).lemma_flatten_push(block);
            assert(res@ =~= start + blocks.subrange(0, i + 1).flatten());
        }
        i = i + 1;
    }
    assert(spec_note_blocks(notes@, ephemeral@).subrange(0, notes@.len() as int) =~= spec_note_blocks(
        notes@,
        ephemeral@,
    ));
}

/// Encrypts a memo for the account and the notes of a transaction: each
/// item under its own key (the account under `account_key`, each note under
/// the key derived from its shared point), and those keys under `kappa` with
/// `nonce`.
#[verifier::spinoff_prover]
#[verifier::rlimit(60)]
pub fn encrypt<P: PoolParams>(
    account_key: &[u8; 32],
    nonce: &[u8; 24],
    kappa: &[u8; 32],
    account: &[u8],
    notes: &[Vec<u8>],
    ephemeral: &[NoteEphemeralKey],
    params: &P,
) -> (memo: Vec<u8>)
    requires
        encryptable(params, account@, notes@, ephemeral@),
    ensures
        memo@ == spec_encrypt(params, account_key@, nonce@, kappa@, account@, notes@, ephemeral@),
        memo@.len() == 4 + params.spec_sizes().num_size * (notes@.len() + 1) + 24 + (32 * (
        notes@.len() + 1) + 16) + (account@.len() + 16) + spec_blocks_len(
            notes@,
            ephemeral@,
            notes@.len() as int,
        ),
        memo@.subrange(0, 4 + params.spec_sizes().num_size * (notes@.len() + 1) + 24)
            == spec_encrypt_head(params, nonce@, account@, notes@),
        memo@.subrange(
            4 + params.spec_sizes().num_size * (notes@.len() + 1) + 24 + (32 * (notes@.len() + 1)
                + 16),
            memo@.len() as int,
        ) == spec_items_tail(account_key@, account@, notes@, ephemeral@),
        memo@.subrange(
            4 + params.spec_sizes().num_size * (notes@.len() + 1) + 24 + (32 * (notes@.len() + 1)
                + 16),
            4 + params.spec_sizes().num_size * (notes@.len() + 1) + 24 + (32 * (notes@.len() + 1)
                + 16) + account@.len() + 16,
        ) == spec_chacha20poly1305_encrypt(account_key@, Seq::new(12, |i: int| 0u8), account@),
        memo_items_valid(params, account@, notes@, ephemeral@) ==> forall|i: int|
            0 <= i < notes@.len() ==> memo@.subrange(
                4 + params.spec_sizes().num_size * (notes@.len() + 1) + 24 + (32 * (notes@.len() + 1)
                    + 16) + account@.len() + 16 + i * crate::layout::note_stride(params.spec_sizes())
                    + params.spec_sizes().num_size,
                4 + params.spec_sizes().num_size * (notes@.len() + 1) + 24 + (32 * (notes@.len() + 1)
                    + 16) + account@.len() + 16 + i * crate::layout::note_stride(params.spec_sizes())
                    + crate::layout::note_stride(params.spec_sizes()),
            ) == spec_chacha20poly1305_encrypt(
                spec_keccak256(#[trigger] ephemeral@[i].shared_x@),
                Seq::new(12, |j: int| 0u8),
                notes@[i]@,
            ),
        forall|j: int|
            0 <= j < notes@.len() + 1 ==> spec_chunk_opens(
                params,
                account@,
                notes@,
                #[trigger] spec_sender_chunks(account_key@, account@, notes@, ephemeral@)[j],
            ),
        memo_items_valid(params, account@, notes@, ephemeral@) ==> forall|eta: Seq<u8>|
            spec_decrypt_out(params, eta, kappa@, memo@) == Some((account@, vecs_view(notes@))),
        memo_items_valid(params, account@, notes@, ephemeral@) ==> forall|eta: Seq<u8>|
            spec_decryption_keys(params, eta, kappa@, memo@) == Some(
                spec_sender_chunks(account_key@, account@, notes@, ephemeral@),
            ),
        memo_items_valid(params, account@, notes@, ephemeral@) ==> forall|eta: Seq<u8>|
            (forall|i: int|
                0 <= i < notes@.len() ==> params.spec_ecdh(eta, #[trigger] ephemeral@[i].a_pub@) is Some)
                ==> spec_receiver_reads(params, eta, memo@, notes@, ephemeral@),
        memo_items_valid(params, account@, notes@, ephemeral@) ==> memo@.len() == spec_memo_size(
            params.spec_sizes(),
            notes@.len() + 1int,
            MessageEncryptionType::Symmetric,
        ),
        memo_items_valid(params, account@, notes@, ephemeral@) ==> forall|eta: Seq<u8>, kappa_r: Seq<u8>|
            #![trigger spec_decryption_keys(params, eta, kappa_r, memo@)]
            (forall|i: int|
                0 <= i < notes@.len() ==> params.spec_ecdh(eta, #[trigger] ephemeral@[i].a_pub@) is Some)
                && spec_xchacha20poly1305_decrypt(
                kappa_r,
                nonce@,
                memo@.subrange(4 + params.spec_sizes().num_size * (notes@.len() + 1) + 24, 4 + params.spec_sizes().num_size * (notes@.len() + 1) + 24 + 32 * (notes@.len() + 1) + 16),
            ) is None ==> (spec_decryption_keys(params, eta, kappa_r, memo@) matches Some(chunks)
                && spec_receiver_chunks(
                |point: Seq<u8>| params.spec_ecdh(eta, point),
                chunks,
                notes@,
                ephemeral@,
            )),
        memo_items_valid(params, account@, notes@, ephemeral@) ==> forall|eta: Seq<u8>|
            spec_decrypt_out(params, eta, kappa@, memo@.drop_last()) is None,
{
    let nozero_notes_num = notes.len();
    let items = encrypt_items(account_key, account, notes, ephemeral);
    let shared_ciphertext = encrypt_xchacha(kappa.as_slice(), nonce.as_slice(), items.text.as_slice());

    let mut res: Vec<u8> = Vec::new();
    let nozero_items_num = #[verifier::truncate] ((nozero_notes_num as u64 + 1) as u16);
    res.push((nozero_items_num % 256) as u8);
    res.push((nozero_items_num / 256) as u8);
    let enc_type = MessageEncryptionType::Symmetric.to_u16();
    res.push((enc_type % 256) as u8);
    res.push((enc_type / 256) as u8);
    assert(res@ =~= spec_u16_le_bytes((notes@.len() + 1) as u16) + spec_u16_le_bytes(0x0200));
    write_hashes(&mut res, account, notes, params);
    append_bytes(&mut res, nonce.as_slice());
    append_bytes(&mut res, shared_ciphertext.as_slice());
    write_items(&mut res, &items, notes, ephemeral);
    assert(res@ == spec_encrypt(params, account_key@, nonce@, kappa@, account@, notes@, ephemeral@));
    proof {
        let head_len = 4 + params.spec_sizes().num_size * (notes@.len() + 1) + 24;
        let shared_len = 32 * (notes@.len() + 1) + 16;
        assert(res@.subrange(0, head_len) =~= spec_encrypt_head(params, nonce@, account@, notes@));
        assert(res@.subrange(head_len + shared_len, res@.len() as int) =~= spec_items_tail(
            account_key@,
            account@,
            notes@,
            ephemeral@,
        ));
        lemma_sender_chunks_open(params, account_key@, account@, notes@, ephemeral@);
        lemma_tail_chunks(
            res@,
            head_len + shared_len,
            account_key@,
            account@,
            notes@,
            ephemeral@,
            params.spec_sizes(),
        );
        if memo_items_valid(params, account@, notes@, ephemeral@) {
            assert forall|eta: Seq<u8>|
                spec_decrypt_out(params, eta, kappa@, res@) == Some((account@, vecs_view(notes@)))
                    && spec_decryption_keys(params, eta, kappa@, res@) == Some(
                    spec_sender_chunks(account_key@, account@, notes@, ephemeral@),
                ) by {
                lemma_encrypt_read_back(
                    params,
                    eta,
                    account_key@,
                    nonce@,
                    kappa@,
                    account@,
                    notes@,
                    ephemeral@,
                );
            }
            let header = spec_u16_le_bytes((notes@.len() + 1) as u16) + spec_u16_le_bytes(0x0200);
            let shared = nonce@ + shared_ciphertext@;
            assert(res@.subrange(0, 4) =~= header);
            lemma_u16_header_read_back(res@, notes@.len() + 1int);
            lemma_blocks_len_uniform(notes@, ephemeral@, params.spec_sizes(), notes@.len() as int);
            assert(params.spec_sizes().num_size * (notes@.len() + 1) == (notes@.len() + 1)
                * params.spec_sizes().num_size) by (nonlinear_arith);
            assert(res@.len() == spec_memo_size(
                params.spec_sizes(),
                notes@.len() + 1int,
                MessageEncryptionType::Symmetric,
            ));
            assert forall|eta: Seq<u8>| spec_decrypt_out(params, eta, kappa@, res@.drop_last()) is None by {
                lemma_truncated_memo_rejected(params, eta, kappa@, res@);
            }
            assert(res@.subrange(4 + params.spec_sizes().num_size * (notes@.len() + 1) + 24, 4 + params.spec_sizes().num_size * (notes@.len() + 1) + 24 + 32 * (notes@.len() + 1) + 16)
                =~= shared_ciphertext@);
            assert forall|eta: Seq<u8>, kappa_r: Seq<u8>|
                #![trigger spec_decryption_keys(params, eta, kappa_r, res@)]
                (forall|i: int|
                    0 <= i < notes@.len() ==> params.spec_ecdh(eta, #[trigger] ephemeral@[i].a_pub@)
                        is Some) && spec_xchacha20poly1305_decrypt(
                    kappa_r,
                    nonce@,
                    res@.subrange(4 + params.spec_sizes().num_size * (notes@.len() + 1) + 24, 4 + params.spec_sizes().num_size * (notes@.len() + 1) + 24 + 32 * (notes@.len() + 1) + 16),
                ) is None implies (spec_decryption_keys(params, eta, kappa_r, res@) matches Some(chunks)
                && spec_receiver_chunks(
                |point: Seq<u8>| params.spec_ecdh(eta, point),
                chunks,
                notes@,
                ephemeral@,
            )) by {
                lemma_encrypt_receiver_chunks(
                    params,
                    eta,
                    kappa_r,
                    account_key@,
                    nonce@,
                    kappa@,
                    account@,
                    notes@,
                    ephemeral@,
                );
            }
            assert forall|eta: Seq<u8>|
                (forall|i: int|
                    0 <= i < notes@.len() ==> params.spec_ecdh(eta, #[trigger] ephemeral@[i].a_pub@)
                        is Some) implies spec_receiver_reads(params, eta, res@, notes@, ephemeral@) by {
                lemma_encrypted_notes_received(
                    params,
                    eta,
                    header,
                    MessageEncryptionType::Symmetric,
                    shared,
                    account_key@,
                    account@,
                    notes@,
                    ephemeral@,
                );
            }
        }
    }
    res
}

/// Deprecated but still in use on the old pools: encrypts a memo whose
/// shared-secret block is keyed by the ECDH of `eta` with the ephemeral public
/// key `a_p_pub`, so that the sender recovers it with `eta` alone.
#[verifier::spinoff_prover]
#[verifier::rlimit(40)]
pub fn _encrypt_old<P: PoolParams>(
    eta: &[u8],
    account_key: &[u8; 32],
    a_p_pub: &[u8],
    account: &[u8],
    notes: &[Vec<u8>],
    ephemeral: &[NoteEphemeralKey],
    params: &P,
) -> (memo: Vec<u8>)
    requires
        encryptable(params, account@, notes@, ephemeral@),
        params.spec_ecdh(eta@, a_p_pub@) is Some,
    ensures
        memo@ == spec_encrypt_old(
            params,
            params.spec_ecdh(eta@, a_p_pub@).unwrap(),
            account_key@,
            a_p_pub@,
            account@,
            notes@,
            ephemeral@,
        ),
        memo@.len() == 4 + params.spec_sizes().num_size * (notes@.len() + 1) + a_p_pub@.len() + (32
            * (notes@.len() + 1) + 16) + (account@.len() + 16) + spec_blocks_len(
            notes@,
            ephemeral@,
            notes@.len() as int,
        ),
        forall|j: int|
            0 <= j < notes@.len() + 1 ==> spec_chunk_opens(
                params,
                account@,
                notes@,
                #[trigger] spec_sender_chunks(account_key@, account@, notes@, ephemeral@)[j],
            ),
        memo@.subrange(
            4 + params.spec_sizes().num_size * (notes@.len() + 1) + a_p_pub@.len() + (32 * (notes@.len()
                + 1) + 16),
            4 + params.spec_sizes().num_size * (notes@.len() + 1) + a_p_pub@.len() + (32 * (notes@.len()
                + 1) + 16) + account@.len() + 16,
        ) == spec_chacha20poly1305_encrypt(account_key@, Seq::new(12, |i: int| 0u8), account@),
        memo_items_valid(params, account@, notes@, ephemeral@) ==> forall|i: int|
            0 <= i < notes@.len() ==> memo@.subrange(
                4 + params.spec_sizes().num_size * (notes@.len() + 1) + a_p_pub@.len() + (32 * (notes@.len()
                + 1) + 16) + account@.len() + 16 + i
                    * crate::layout::note_stride(params.spec_sizes()) + params.spec_sizes().num_size,
                4 + params.spec_sizes().num_size * (notes@.len() + 1) + a_p_pub@.len() + (32 * (notes@.len()
                + 1) + 16) + account@.len() + 16 + i
                    * crate::layout::note_stride(params.spec_sizes()) + crate::layout::note_stride(
                    params.spec_sizes(),
                ),
            ) == spec_chacha20poly1305_encrypt(
                spec_keccak256(#[trigger] ephemeral@[i].shared_x@),
                Seq::new(12, |j: int| 0u8),
                notes@[i]@,
            ),
        memo_items_valid(params, account@, notes@, ephemeral@) && a_p_pub@.len()
            == params.spec_sizes().num_size ==> forall|kappa: Seq<u8>|
            spec_decrypt_out(params, eta@, kappa, memo@) == Some((account@, vecs_view(notes@))),
        memo_items_valid(params, account@, notes@, ephemeral@) && a_p_pub@.len()
            == params.spec_sizes().num_size ==> forall|kappa: Seq<u8>|
            spec_decryption_keys(params, eta@, kappa, memo@) == Some(
                spec_sender_chunks(account_key@, account@, notes@, ephemeral@),
            ),
        memo_items_valid(params, account@, notes@, ephemeral@) && a_p_pub@.len()
            == params.spec_sizes().num_size ==> forall|eta_r: Seq<u8>|
            (forall|i: int|
                0 <= i < notes@.len() ==> params.spec_ecdh(eta_r, #[trigger] ephemeral@[i].a_pub@) is Some)
                ==> spec_receiver_reads(params, eta_r, memo@, notes@, ephemeral@),
        memo_items_valid(params, account@, notes@, ephemeral@) && a_p_pub@.len()
            == params.spec_sizes().num_size ==> memo@.len() == spec_memo_size(
            params.spec_sizes(),
            notes@.len() + 1int,
            MessageEncryptionType::ECDH,
        ),
        memo_items_valid(params, account@, notes@, ephemeral@) && a_p_pub@.len()
            == params.spec_sizes().num_size ==> forall|kappa: Seq<u8>|
            spec_decrypt_out(params, eta@, kappa, memo@.drop_last()) is None,
{
    let nozero_notes_num = notes.len();
    let items = encrypt_items(account_key, account, notes, ephemeral);
    let shared_x = params.ecdh(eta, a_p_pub).unwrap();
    let key = keccak256(shared_x.as_slice());
    let shared_ciphertext = encrypt_chacha_constant_nonce(key.as_slice(), items.text.as_slice());

    let mut res: Vec<u8> = Vec::new();
    let nozero_items_num = #[verifier::truncate] ((nozero_notes_num as u64 + 1) as u32);
    res.push((nozero_items_num % 256) as u8);
    res.push(((nozero_items_num / 256) % 256) as u8);
    res.push(((nozero_items_num / 65536) % 256) as u8);
    res.push((nozero_items_num / 16777216) as u8);
    assert(res@ =~= spec_u32_le_bytes((notes@.len() + 1) as u32));
    write_hashes(&mut res, account, notes, params);
    append_bytes(&mut res, a_p_pub);
    append_bytes(&mut res, shared_ciphertext.as_slice());
    write_items(&mut res, &items, notes, ephemeral);
    assert(res@ == spec_encrypt_old(
        params,
        shared_x@,
        account_key@,
        a_p_pub@,
        account@,
        notes@,
        ephemeral@,
    ));
    proof {
        lemma_sender_chunks_open(params, account_key@, account@, notes@, ephemeral@);
        let start = 4 + params.spec_sizes().num_size * (notes@.len() + 1) + a_p_pub@.len() + (32 * (
        notes@.len() + 1) + 16);
        assert(res@.subrange(start, res@.len() as int) =~= spec_items_tail(
            account_key@,
            account@,
            notes@,
            ephemeral@,
        ));
        lemma_tail_chunks(
            res@,
            start,
            account_key@,
            account@,
            notes@,
            ephemeral@,
            params.spec_sizes(),
        );
        if memo_items_valid(params, account@, notes@, ephemeral@) && a_p_pub@.len()
            == params.spec_sizes().num_size {
            assert forall|kappa: Seq<u8>|
                spec_decrypt_out(params, eta@, kappa, res@) == Some((account@, vecs_view(notes@)))
                    && spec_decryption_keys(params, eta@, kappa, res@) == Some(
                    spec_sender_chunks(account_key@, account@, notes@, ephemeral@),
                ) by {
                lemma_encrypt_old_read_back(
                    params,
                    eta@,
                    kappa,
                    account_key@,
                    a_p_pub@,
                    account@,
                    notes@,
                    ephemeral@,
                );
            }
            let header = spec_u32_le_bytes((notes@.len() + 1) as u32);
            let shared = a_p_pub@ + shared_ciphertext@;
            assert(res@.subrange(0, 4) =~= header);
            lemma_u32_header_read_back(res@, notes@.len() + 1int);
            lemma_blocks_len_uniform(notes@, ephemeral@, params.spec_sizes(), notes@.len() as int);
            assert(params.spec_sizes().num_size * (notes@.len() + 1) == (notes@.len() + 1)
                * params.spec_sizes().num_size) by (nonlinear_arith);
            assert(res@.len() == spec_memo_size(
                params.spec_sizes(),
                notes@.len() + 1int,
                MessageEncryptionType::ECDH,
            ));
            assert forall|kappa: Seq<u8>| spec_decrypt_out(params, eta@, kappa, res@.drop_last()) is None by {
                lemma_truncated_memo_rejected(params, eta@, kappa, res@);
            }
            assert forall|eta_r: Seq<u8>|
                (forall|i: int|
                    0 <= i < notes@.len() ==> params.spec_ecdh(eta_r, #[trigger] ephemeral@[i].a_pub@)
                        is Some) implies spec_receiver_reads(params, eta_r, res@, notes@, ephemeral@) by {
                lemma_encrypted_notes_received(
                    params,
                    eta_r,
                    header,
                    MessageEncryptionType::ECDH,
                    shared,
                    account_key@,
                    account@,
                    notes@,
                    ephemeral@,
                );
            }
        }
    }
    res
}

} // verus!
