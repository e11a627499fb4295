//! Scan-and-deduplicate engine: a content-addressed tree of scanned
//! filesystem entries, order-independent directory fingerprints,
//! cross-tree duplicate detection, and a prefix-redundancy filter.

pub mod fingerprint;
pub mod tree;
pub mod dup;
pub mod state;
