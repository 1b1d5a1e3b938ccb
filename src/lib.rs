pub mod digest;
pub mod laws;
pub mod node_index;
pub mod path_set;
pub mod tree;

pub use digest::{merge, Digest};
pub use node_index::{MerkleError, NodeIndex};
pub use path_set::{MerklePathSet, ValuePath};
