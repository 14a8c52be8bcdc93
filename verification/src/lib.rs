//! A Kademlia-style distributed hash table node: a 32-bit XOR-metric
//! identity space, a line-oriented RPC wire codec, per-node routing,
//! record and provider tables, k-closest peer selection, and the dispatch
//! and lookup logic that drives peer discovery, content storage and
//! content retrieval.

pub mod data;
pub mod key;
pub mod kclosest;
pub mod node;
pub mod store;
pub mod wire;
