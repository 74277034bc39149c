//! The error taxonomy of the trie.

use vstd::prelude::*;

verus! {

/// Failures the trie surfaces to its callers. The trie never retries: a
/// failed mutation leaves a valid but partially-mutated instance that the
/// caller should discard in favour of the last known-good root.
#[derive(Clone, Copy, Debug, PartialEq, Eq, Structural)]
pub enum TrieError {
    /// A referenced hash is absent from the store, a persisted node violates
    /// an invariant, or two distinct nodes collide on one hash.
    StorageCorruption,
    /// An underlying transaction error surfaced by a caller-side store.
    /// No function of this library constructs it: it exists for callers
    /// that wrap a storage transport around the trie.
    StorageIo,
    /// A key whose bit length is not exactly the trie height.
    InvalidKey,
    /// A proof inconsistent with its key, value or root.
    InvalidProof,
}

} // verus!
