//! Anti-entropy core of a spatio-temporal store.
//!
//! Every node of a mesh keeps its observations under 20-byte keys, and a
//! Merkle octree per epoch over the Morton codes in those keys. Comparing two
//! forests finds the leaf cells in which two nodes disagree; exchanging the
//! rows of those cells makes them agree.
//!
//! - [`key`], [`cell`], [`bytes`]: keys, and the cells of the octree.
//! - [`digest`], [`tree`], [`forest`], [`model`]: the forest, and what it is
//!   mathematically.
//! - [`diff`]: where two forests disagree.
//! - [`seal`]: the record that a settled epoch is kept as.
//! - [`wire`], [`service`], [`round`]: a pull round between two nodes, from
//!   both sides.
//! - [`merge`]: taking in rows from a peer.
//! - [`payload`], [`fanout`]: requests of the data service, and who hears of an
//!   observation.
//! - [`laws`] and the modules named after it: what holds of it all together.
//! - [`lcg`], [`track`]: what the benchmarks and the demos compute.

pub mod bytes;
pub mod cell;
pub mod diff;
pub mod digest;
pub mod fanout;
pub mod forest;
pub mod key;
pub mod laws;
pub mod laws_converge;
pub mod laws_diff;
pub mod laws_effect;
pub mod laws_merge;
pub mod laws_pull;
pub mod laws_round;
pub mod laws_seal;
pub mod lcg;
pub mod merge;
pub mod model;
pub mod payload;
pub mod round;
pub mod seal;
pub mod service;
pub mod text;
pub mod track;
pub mod tree;
pub mod wire;

pub use diff::{diff_forests, DivergentLeaf};
pub use digest::item_digest;
pub use forest::MerkleForest;
pub use key::leaf_key_range;
pub use round::{SyncRound, SyncStats};
pub use service::SyncService;
pub use tree::NodeHash;
