//! A Merkle Patricia Trie: a radix-16 authenticated key/value tree whose
//! root digest commits to every stored pair. Keys are walked one nibble
//! (4-bit unit) at a time; leaves and extensions carry hex-prefix encoded
//! paths; nodes are canonically serialized, hashed, and persisted by digest.

pub mod errors;
pub mod nibbles;
pub mod node;
pub mod codec;
pub mod db;
pub mod encoding;
pub mod hashing;
pub mod proofs;
pub mod trie;

pub use db::MemoryDB;
pub use errors::MemDBError;
pub use errors::TrieError;
pub use nibbles::Nibbles;
pub use proofs::decode_node;
pub use proofs::verify;
pub use trie::EthTrie;
