//! Offsets and byte ranges of the memo layout, and the arithmetic facts
//! about them.
use crate::params::MemoSizes;
use vstd::prelude::*;

verus! {

/// The `k`-th 32-byte key of a block of keys.
pub open spec fn key_at(text: Seq<u8>, k: int) -> Seq<u8> {
    text.subrange(32 * k, 32 * k + 32)
}

/// The `i`-th encoded hash of a block of hashes of `num_size` bytes each.
pub open spec fn hash_at(hashes: Seq<u8>, num_size: int, i: int) -> Seq<u8> {
    hashes.subrange(i * num_size, i * num_size + num_size)
}

/// The bytes that one note occupies after the account: its ephemeral public
/// key, then its ciphertext with the tag.
pub open spec fn note_stride(sizes: MemoSizes) -> int {
    sizes.num_size + sizes.note_size + 16
}

/// `i * size + size <= count * size` for `i < count`: the `i`-th item of a
/// block of `count` items lies within it.
pub proof fn lemma_item_in_block(i: int, count: int, size: int)
    requires
        0 <= i < count,
        0 <= size,
    ensures
        0 <= i * size,
        i * size + size <= count * size,
        (i + 1) * size == i * size + size,
{
    assert(0 <= i * size) by (nonlinear_arith)
        requires
            0 <= i,
            0 <= size,
    ;
    assert((i + 1) * size == i * size + size) by (nonlinear_arith);
    assert((i + 1) * size <= count * size) by (nonlinear_arith)
        requires
            i + 1 <= count,
            0 <= size,
    ;
}

/// A block of up to `u16::MAX` items of at most 4096 bytes each fits in
/// 2^28 bytes.
pub proof fn lemma_block_bound(count: int, size: int)
    requires
        0 <= count <= 0xffff,
        0 <= size <= 4096,
    ensures
        0 <= count * size <= 0xffff * 4096,
{
    assert(0 <= count * size <= 0xffff * 4096) by (nonlinear_arith)
        requires
            0 <= count <= 0xffff,
            0 <= size <= 4096,
    ;
}

/// Concatenating blocks of `size` bytes each: the result has `count * size`
/// bytes and the `i`-th block stands at `i * size`.
pub proof fn lemma_flatten_uniform(blocks: Seq<Seq<u8>>, size: int)
    requires
        0 <= size,
        forall|i: int| 0 <= i < blocks.len() ==> (#[trigger] blocks[i]).len() == size,
    ensures
        blocks.flatten().len() == blocks.len() * size,
        forall|i: int|
            0 <= i < blocks.len() ==> blocks.flatten().subrange(i * size, i * size + size)
                == #[trigger] blocks[i],
    decreases blocks.len(),
{
    if blocks.len() == 0 {
    } else {
        let prefix = blocks.drop_last();
        let last = blocks.last();
        assert(prefix.push(last) =~= blocks);
        prefix.lemma_flatten_push(last);
        lemma_flatten_uniform(prefix, size);
        let count = blocks.len() as int;
        assert((count - 1) * size + size == count * size) by (nonlinear_arith);
        assert forall|i: int| 0 <= i < blocks.len() implies blocks.flatten().subrange(
            i * size,
            i * size + size,
        ) == #[trigger] blocks[i] by {
            if i < count - 1 {
                assert(prefix[i] == blocks[i]);
                lemma_item_in_block(i, count - 1, size);
                assert(blocks.flatten().subrange(i * size, i * size + size) =~= prefix.flatten().subrange(
                    i * size,
                    i * size + size,
                ));
            } else {
                assert(blocks.flatten().subrange(i * size, i * size + size) =~= last);
            }
        }
    }
}

} // verus!
