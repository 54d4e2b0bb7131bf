//! What the memo logic needs from the pool's field and curve parameters.
use vstd::prelude::*;

verus! {

/// Sizes in bytes of the encoded items of a pool: a field element, an
/// account and a note.
#[derive(Clone, Copy, Debug, PartialEq, Eq)]
pub struct MemoSizes {
    pub num_size: usize,
    pub account_size: usize,
    pub note_size: usize,
}

impl MemoSizes {
    /// Sizes small enough that every offset of a memo with up to `u16::MAX`
    /// items fits in a `usize` of 32 bits: a block of 65535 items of at most
    /// 4096 bytes each spans less than 2^28 bytes, so the sums of the memo
    /// offsets, each a few such blocks, stay below 2^32. Real pools use 32-byte
    /// field elements and accounts and notes of well under 4096 bytes.
    pub open spec fn wf(self) -> bool {
        &&& 1 <= self.num_size <= 4096
        &&& self.account_size <= 4096
        &&& self.note_size <= 4096
    }
}

/// The pool parameters: the field, the curve and the hashes of accounts and
/// notes. The memo logic is generic over them, as a pool is.
///
/// An implementation states what it computes through the spec functions; the
/// memo functions are proved against those statements, for every
/// implementation. Each spec function defaults to an unspecified function of
/// its arguments (and of the pool), so that an implementation written outside
/// verified code provides the executable methods only. Such an implementation
/// is trusted to be deterministic, so that each executable method computes
/// one function of its arguments that the spec function can stand for, and to
/// meet the stated bounds: sizes within [`MemoSizes::wf`] and hashes of
/// `num_size` bytes.
pub trait PoolParams {
    /// The encoded sizes of this pool's items.
    closed spec fn spec_sizes(&self) -> MemoSizes {
        (arbitrary::<spec_fn(&Self) -> MemoSizes>())(self)
    }

    /// Whether `bytes` encode a field element.
    closed spec fn spec_is_num(&self, bytes: Seq<u8>) -> bool {
        (arbitrary::<spec_fn(&Self, Seq<u8>) -> bool>())(self, bytes)
    }

    /// The encoded hash of the account encoded by `plain` (a field element of
    /// `num_size` bytes), or `None` when `plain` encodes no account.
    closed spec fn spec_account_hash(&self, plain: Seq<u8>) -> Option<Seq<u8>> {
        (arbitrary::<spec_fn(&Self, Seq<u8>) -> Option<Seq<u8>>>())(self, plain)
    }

    /// The encoded hash of the note encoded by `plain` (a field element of
    /// `num_size` bytes), or `None` when `plain` encodes no note.
    closed spec fn spec_note_hash(&self, plain: Seq<u8>) -> Option<Seq<u8>> {
        (arbitrary::<spec_fn(&Self, Seq<u8>) -> Option<Seq<u8>>>())(self, plain)
    }

    /// The encoded x coordinate of `secret · P`, where `P` is the subgroup
    /// point whose x coordinate `point` encodes; `None` when `point` encodes
    /// no field element or no subgroup point.
    closed spec fn spec_ecdh(&self, secret: Seq<u8>, point: Seq<u8>) -> Option<Seq<u8>> {
        (arbitrary::<spec_fn(&Self, Seq<u8>, Seq<u8>) -> Option<Seq<u8>>>())(self, secret, point)
    }

    fn sizes(&self) -> (sizes: MemoSizes)
        ensures
            sizes == self.spec_sizes(),
            sizes.wf(),
    ;

    fn is_num(&self, bytes: &[u8]) -> (b: bool)
        ensures
            b == self.spec_is_num(bytes@),
    ;

    fn account_hash(&self, plain: &[u8]) -> (hash: Option<Vec<u8>>)
        ensures
            match hash {
                Some(h) => self.spec_account_hash(plain@) == Some(h@) && h@.len()
                    == self.spec_sizes().num_size,
                None => self.spec_account_hash(plain@) is None,
            },
    ;

    fn note_hash(&self, plain: &[u8]) -> (hash: Option<Vec<u8>>)
        ensures
            match hash {
                Some(h) => self.spec_note_hash(plain@) == Some(h@) && h@.len()
                    == self.spec_sizes().num_size,
                None => self.spec_note_hash(plain@) is None,
            },
    ;

    fn ecdh(&self, secret: &[u8], point: &[u8]) -> (x: Option<Vec<u8>>)
        ensures
            match x {
                Some(v) => self.spec_ecdh(secret@, point@) == Some(v@),
                None => self.spec_ecdh(secret@, point@) is None,
            },
    ;
}

} // verus!
