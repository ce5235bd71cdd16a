//! A fixed-height, sparsely populated Merkle tree with pluggable leaf
//! hashing, incremental leaf updates, inclusion-witness extraction, and
//! standalone witness verification producing a portable proof object.

pub mod traits;

mod hashable_string;
mod merkle_proof;
mod tree;

pub use traits::Hashable;
pub use traits::Merkle;
pub use traits::MerkleError;
pub use traits::ancestor_index;
pub use traits::fold_witness;
pub use traits::witness_step;
pub use traits::MAX_HEIGHT;
pub use traits::MIN_HEIGHT;
pub use traits::Witness;
pub use hashable_string::HashableString;
pub use hashable_string::blake3_str_digest;
pub use hashable_string::blake3_pair_digest;
pub use hashable_string::decimal_repr;
pub use merkle_proof::MerkleProof;
pub use merkle_proof::sibling_of;
pub use merkle_proof::sibling_changed;
pub use merkle_proof::compose_collision_free;
pub use merkle_proof::lemma_fold_append;
pub use merkle_proof::lemma_changed_leaf_changes_fold;
pub use merkle_proof::lemma_fold_sensitive_at;
pub use merkle_proof::lemma_changed_sibling_changes_fold;
pub use merkle_proof::tag_swapped;
pub use merkle_proof::lemma_distinct_roots_not_both_valid;
pub use merkle_proof::lemma_swapped_tag_changes_fold;
pub use tree::MerkleTree;
pub use tree::zero_hash_at;
