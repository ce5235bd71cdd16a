use vstd::prelude::*;
use vstd::arithmetic::power2::pow2;
use crate::merkle_proof::MerkleProof;

verus! {

/// The lowest height a tree can be built with.
pub const MIN_HEIGHT: usize = 8;

/// The greatest height a tree can be built with.
pub const MAX_HEIGHT: usize = 128;

/// The failure conditions of tree construction and of leaf-indexed
/// operations.
#[derive(Clone, Copy, Debug, PartialEq, Eq, Structural)]
pub enum MerkleError {
    /// The requested height lies outside the supported range.
    InvalidHeight,
    /// A leaf index is not below the tree's leaf count.
    IndexOutOfRange,
}

/// The position of the ancestor of leaf `index` at `level`: each step up the
/// tree halves the position.
pub open spec fn ancestor_index(index: int, level: nat) -> int {
    index / pow2(level) as int
}

/// A sibling hash on the path from a leaf to the root, tagged with the side
/// the current running hash takes when the two are composed: `Left(s)` means
/// the running hash is the left operand of the composition, `Right(s)` means
/// it is the right operand.
pub enum Witness<T> {
    Left(T),
    Right(T),
}

/// How leaf values of type `Self` are reduced to hash values of type `T`, and
/// how two hash values are composed into a parent hash.
///
/// The three spec functions are the mathematical model of the hashing scheme:
/// every implementor fixes what its executable methods compute, over the view
/// of the hash type, and the tree's contracts are stated in those terms.
pub trait Hashable<T: View>: Sized {
    /// The hash of this leaf value.
    spec fn spec_hash(&self) -> T::V;

    /// The hash of the canonical empty leaf.
    spec fn spec_zero_hash() -> T::V;

    /// The parent hash composed from a left and a right child hash.
    /// Order matters: a scheme used for order-sensitive Merkle proofs
    /// must not be commutative.
    spec fn spec_compose(left: T::V, right: T::V) -> T::V;

    /// Returns the canonical empty leaf.
    fn zero() -> (r: Self)
        ensures
            r.spec_hash() == Self::spec_zero_hash(),
    ;

    /// Reduces this leaf value to a hash value.
    fn hash(&self) -> (r: T)
        ensures
            r@ == self.spec_hash(),
    ;

    /// Composes two child hashes into a parent hash.
    fn compose_hash(left: &T, right: &T) -> (r: T)
        ensures
            r@ == Self::spec_compose(left@, right@),
    ;

    /// Decides equality of two hash values.
    fn eq_hash(left: &T, right: &T) -> (r: bool)
        ensures
            r == (left@ == right@),
    ;

    /// Duplicates a hash value.
    fn clone_hash(h: &T) -> (r: T)
        ensures
            r@ == h@,
    ;
}

/// The operations of a fixed-height Merkle tree holding hash values of type
/// `T` written by leaves of type `V`. The abstract spec functions fix what an
/// implementor's state means — its invariant, its height, and the hash each
/// node position resolves to — and the method contracts are stated over
/// them.
pub trait Merkle<T: View, V: Hashable<T>>: Sized {
    /// The invariant that construction establishes and every operation
    /// preserves.
    spec fn inv(&self) -> bool;

    /// The height fixed at construction; level `0` holds the leaves and
    /// level `height - 1` the single root.
    spec fn height(&self) -> int;

    /// The hash the node at `level`, position `index` resolves to, unwritten
    /// positions included.
    spec fn node(&self, level: int, index: int) -> T::V;

    /// What a witness extracted for leaf `index` holds: one element per
    /// level below the root; at each level the sibling of the leaf's
    /// ancestor, tagged `Left` when the ancestor sits at an even position
    /// (the running hash is the left operand) and `Right` when at an odd
    /// one.
    open spec fn witness_ok(&self, index: int, ws: Seq<Witness<T>>) -> bool {
        &&& ws.len() == self.height() - 1
        &&& forall|l: int|
            #![trigger ws[l]]
            0 <= l < ws.len() ==> {
                let j = ancestor_index(index, l as nat);
                if j % 2 == 0 {
                    ws[l] matches Witness::Left(s) && s@ == self.node(l, j + 1)
                } else {
                    ws[l] matches Witness::Right(s) && s@ == self.node(l, j - 1)
                }
            }
    }

    /// Creates a tree of the given height, or reports a height outside the
    /// supported range.
    fn new(height: usize) -> (r: Result<Self, MerkleError>)
        ensures
            match r {
                Ok(t) => {
                    &&& MIN_HEIGHT <= height <= MAX_HEIGHT
                    &&& t.inv()
                    &&& t.height() == height
                },
                Err(e) => {
                    &&& e == MerkleError::InvalidHeight
                    &&& !(MIN_HEIGHT <= height <= MAX_HEIGHT)
                },
            },
    ;

    /// Returns the hash at `level`, position `index`; an unwritten position
    /// reads as its level's default, for any index.
    fn get_node(&self, level: usize, index: u128) -> (r: &T)
        requires
            self.inv(),
            level < self.height(),
        ensures
            r@ == self.node(level as int, index as int),
    ;

    /// Returns the leaf hash at `index`: the node at level zero.
    fn get_leaf(&self, index: u128) -> (r: &T)
        requires
            self.inv(),
        ensures
            r@ == self.node(0, index as int),
    ;

    /// Returns the root hash: the single node of the top level.
    fn get_root(&self) -> (r: &T)
        requires
            self.inv(),
        ensures
            r@ == self.node(self.height() - 1, 0),
    ;

    /// Writes a leaf and recomputes its ancestors, or reports an
    /// out-of-range index and leaves the tree unchanged. Every other leaf
    /// keeps its value.
    fn set_leaf(&mut self, index: u128, leaf: &V) -> (r: Result<(), MerkleError>)
        requires
            old(self).inv(),
        ensures
            match r {
                Ok(()) => {
                    &&& (index as int) < pow2((old(self).height() - 1) as nat)
                    &&& final(self).inv()
                    &&& final(self).height() == old(self).height()
                    &&& final(self).node(0, index as int) == leaf.spec_hash()
                    &&& forall|j: int|
                        j != index as int ==> #[trigger] final(self).node(0, j) == old(self).node(
                            0,
                            j,
                        )
                },
                Err(e) => {
                    &&& e == MerkleError::IndexOutOfRange
                    &&& (index as int) >= pow2((old(self).height() - 1) as nat)
                    &&& *final(self) == *old(self)
                },
            },
    ;

    /// Extracts the inclusion witness for a leaf, or reports an out-of-range
    /// index.
    fn get_witness(&self, index: u128) -> (r: Result<Vec<Witness<T>>, MerkleError>)
        requires
            self.inv(),
        ensures
            match r {
                Ok(ws) => {
                    &&& (index as int) < pow2((self.height() - 1) as nat)
                    &&& self.witness_ok(index as int, ws@)
                },
                Err(e) => {
                    &&& e == MerkleError::IndexOutOfRange
                    &&& (index as int) >= pow2((self.height() - 1) as nat)
                },
            },
    ;

    /// Snapshots a proof for a leaf — its hash, the current root and the
    /// witness — or reports an out-of-range index with no partial result.
    fn get_merkle_proof(&self, index: u128) -> (r: Result<MerkleProof<T, V>, MerkleError>)
        requires
            self.inv(),
        ensures
            match r {
                Ok(p) => {
                    &&& (index as int) < pow2((self.height() - 1) as nat)
                    &&& p.leaf@ == self.node(0, index as int)
                    &&& p.root@ == self.node(self.height() - 1, 0)
                    &&& self.witness_ok(index as int, p.witness@)
                },
                Err(e) => {
                    &&& e == MerkleError::IndexOutOfRange
                    &&& (index as int) >= pow2((self.height() - 1) as nat)
                },
            },
    ;

    /// Returns how many leaves the tree addresses: `2^(height - 1)`.
    fn leaf_count(&self) -> (r: u128)
        requires
            self.inv(),
        ensures
            r as int == pow2((self.height() - 1) as nat),
    ;
}

/// One step of a witness fold: composes the running hash with the element's
/// sibling, on the side the tag dictates.
pub open spec fn witness_step<T: View, V: Hashable<T>>(current: T::V, w: Witness<T>) -> T::V {
    match w {
        Witness::Left(s) => V::spec_compose(current, s@),
        Witness::Right(s) => V::spec_compose(s@, current),
    }
}

/// The hash obtained by folding a witness over a starting hash, composing one
/// sibling per element in order: `Left(s)` puts the running hash on the left
/// of the composition, `Right(s)` on the right.
pub open spec fn fold_witness<T: View, V: Hashable<T>>(start: T::V, ws: Seq<Witness<T>>) -> T::V
    decreases ws.len(),
{
    if ws.len() == 0 {
        start
    } else {
        witness_step::<T, V>(fold_witness::<T, V>(start, ws.drop_last()), ws.last())
    }
}

} // verus!
