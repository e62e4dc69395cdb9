use vstd::prelude::*;

verus! {

/// Errors reported by the trie engine.
///
/// Looking up or deleting a key that is not present is a normal "not found"
/// result, never an error. These variants cover genuine failures: a failing
/// backing store, malformed canonical bytes, a digest whose node is missing
/// from the store, and a proof that does not check out against its root.
#[derive(Debug, PartialEq, Eq)]
pub enum TrieError {
    /// An opaque failure reported by the backing store.
    DB(String),
    /// A node's canonical serialization could not be parsed.
    Decoder,
    /// Malformed data outside the canonical node framing, such as a bad
    /// hex-prefix path encoding.
    InvalidData,
    /// A proof failed verification: wrong digest linkage, malformed entry,
    /// or a path inconsistent with the queried key.
    InvalidProof,
    /// A digest referenced by the trie was not found in the backing store.
    /// Carries the missing digest, the nibble path traversed so far, and
    /// the root digest the traversal started from, to aid diagnosis.
    MissingTrieNode {
        node_hash: Vec<u8>,
        traversed: Option<Vec<u8>>,
        root_hash: Option<Vec<u8>>,
        err_key: Option<Vec<u8>>,
    },
}

impl TrieError {
    /// A short description of the error kind.
    pub fn describe(&self) -> &'static str {
        match self {
            TrieError::DB(_) => "trie error: store failure",
            TrieError::Decoder => "trie error: decoder failure",
            TrieError::InvalidData => "trie error: invalid data",
            TrieError::InvalidProof => "trie error: invalid proof",
            TrieError::MissingTrieNode { .. } => "trie error: missing node",
        }
    }
}

/// The in-memory store never fails, so no operation ever constructs
/// this; the one variant exists only to satisfy the shape of an error
/// type.
#[derive(Debug)]
pub enum MemDBError {
    Unreachable,
}

} // verus!
