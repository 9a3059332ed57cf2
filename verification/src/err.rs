//! The error taxonomy of the trie core. Every fallible operation returns one
//! of these; nothing inside the core panics or retries.

use vstd::prelude::*;

verus! {

#[derive(Clone, Copy, Debug, PartialEq, Eq, Structural)]
pub enum TrieError {
    /// A key's dropped high-order bits were nonzero where the caller asked
    /// for a lossless encoding.
    InvalidKey,
    /// A key path does not have exactly `KEY_BITS` bits.
    InvalidKeyLength,
    /// A commit met a child reference whose hash was never assigned an index.
    UnresolvedChildReference,
}

} // verus!
