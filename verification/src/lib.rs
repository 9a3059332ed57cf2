//! A binary Merkle-Patricia trie with path compression over 251-bit keys,
//! committing a key/value mapping to a single Pedersen root hash, together
//! with the content-addressed storage protocol that assigns each distinct
//! node hash exactly one storage index.

pub mod bytes;
pub mod err;
pub mod felt;
pub mod hashing;
pub mod trie;
pub mod commit;
pub mod accum;
pub mod retry;
