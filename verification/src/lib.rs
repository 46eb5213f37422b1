//! A sparse Merkle tree: an authenticated set of byte strings that commits
//! to everything inserted so far through a single 32-byte root digest.
//!
//! [`smt::Tree`] is the tree; [`store::NodeStore`] keeps its pairs of
//! children by digest. [`model`] says what an insertion computes,
//! [`shape`] unfolds a stored tree level by level, and [`laws`] and
//! [`history`] prove what holds of one insertion and of a run of them.

pub mod digest;
pub mod history;
pub mod laws;
pub mod model;
pub mod node;
pub mod path;
pub mod shape;
pub mod smt;
pub mod store;
