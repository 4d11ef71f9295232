//! Verification of Ethereum block ranges and the reward logs they carry.
//!
//! The crate checks that a run of RLP-encoded block headers forms a parent-hash
//! chain, that designated receipts are included in their block's receipts trie,
//! and that each reward log commits to the fee entries handed in with it. The
//! per-asset fee totals are then summed into one public output.

pub mod builder;
pub mod bytes;
pub mod extractor;
pub mod fee_summary;
pub mod guest;
pub mod header_lens;
pub mod keccak;
pub mod lazy_header;
pub mod payload;
pub mod reader;
pub mod receipt_trie;
pub mod rlp;
pub mod sums;
pub mod trie_path;

pub use keccak::Keccak256;
pub use reader::Reader;
