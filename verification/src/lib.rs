//! A byte-pair-encoding (BPE) text codec: a vocabulary of byte sequences with
//! integer ranks, a greedy pair-merge engine, encode/decode with special-token
//! handling, and an unstable-suffix resolver for speculative tokenization.
pub mod bytes;
pub mod codec;
pub mod laws;
pub mod loader;
pub mod merge;
pub mod segment;
pub mod unstable;
pub mod vocab;
pub mod wire;

pub use codec::CoreBPE;
pub use loader::load_bpe;
pub use merge::_byte_pair_merge;
pub use merge::byte_pair_encode;
pub use vocab::Vocab;
