# zeropool_memo

Encryption and decryption of the memos of shielded-pool transactions, verified
with Verus.

A memo carries the output account and the output notes of a transaction. Each
item is encrypted with ChaCha20-Poly1305 under a key of its own; the keys of
all items form a shared-secret block that only the sender can open, either
with XChaCha20-Poly1305 under the sender's `kappa` (symmetric memos) or under a
key agreed by ECDH with the sender's `eta` (older memos). A receiver of a note
derives the note key by ECDH with the note's ephemeral public key.

Layout of a memo:

    items: u16 LE | type: u16 LE | account hash | note hashes |
    shared-secret block | encrypted account | (ephemeral key | encrypted note)*

## Modules

- `memo`: the header, the encryption types and the reading of byte ranges.
- `symmetric`: Keccak-256 and the two AEAD constructions (calls into the
  `sha3` and `chacha20poly1305` crates behind trusted wrappers).
- `params`: the `PoolParams` trait, through which a pool supplies the sizes of
  its encoded items, the hashes of accounts and notes, and ECDH on its curve.
- `cipher`: decryption and hash validation of a single account or note.
- `encrypt`: writing memos (`encrypt`, `_encrypt_old`).
- `decrypt`: reading memos as the sender (`decrypt_out`), as a receiver
  (`decrypt_in`), and recovering every chunk with its key
  (`symcipher_decryption_keys`).
- `layout`, `roundtrip`, `laws`: the offset arithmetic, the proofs that written
  memos read back, and the properties that hold of every memo.

Accounts and notes are handled as their encodings (byte strings); decoding
them and hashing them is the pool's part, through `PoolParams`. The random
material of an encryption (the account key, the nonce, the ephemeral keys of
the notes) is given by the caller.
