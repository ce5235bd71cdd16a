use vstd::prelude::*;
use vstd::arithmetic::power2::pow2;
use vstd::arithmetic::power2::lemma_pow2_adds;
use vstd::arithmetic::power2::lemma_pow2_strictly_increases;
use vstd::arithmetic::power2::lemma_pow2_unfold;
use vstd::arithmetic::power2::lemma2_to64;
use crate::traits::Hashable;
use crate::traits::Merkle;
use crate::traits::MerkleError;
use crate::traits::Witness;
use crate::traits::ancestor_index;
use crate::traits::fold_witness;
use crate::traits::MAX_HEIGHT;
use crate::traits::MIN_HEIGHT;
use crate::merkle_proof::MerkleProof;
use core::marker::PhantomData;
use std::collections::HashMap;

verus! {

broadcast use vstd::std_specs::hash::group_hash_axioms;

/// The hash of an all-empty subtree whose leaves sit `level` levels below its
/// root: the hash of the empty leaf at level zero, and the composition of two
/// equal empty-subtree hashes at every level above.
pub open spec fn zero_hash_at<T: View, V: Hashable<T>>(level: nat) -> T::V
    decreases level,
{
    if level == 0 {
        V::spec_zero_hash()
    } else {
        let below = zero_hash_at::<T, V>((level - 1) as nat);
        V::spec_compose(below, below)
    }
}

/// A fixed-height Merkle tree that stores, per level, only the nodes that
/// have been explicitly written; every other node resolves to the precomputed
/// hash of an all-empty subtree at its level. Level `0` holds leaves and
/// level `height - 1` holds the single root.
pub struct MerkleTree<T: View, V: Hashable<T>> {
    height: usize,
    nodes: HashMap<usize, HashMap<u128, T>>,
    zeroes: Vec<T>,
    _phantom: PhantomData<V>,
}

impl<T: View, V: Hashable<T>> MerkleTree<T, V> {
    /// The height fixed at construction.
    pub closed spec fn spec_height(&self) -> int {
        self.height as int
    }

    /// How many leaves the tree addresses: `2^(height - 1)`.
    pub open spec fn spec_leaf_count(&self) -> int {
        pow2((self.spec_height() - 1) as nat) as int
    }

    /// Whether the node at `level`, position `index` has been explicitly
    /// written.
    pub closed spec fn stored(&self, level: int, index: int) -> bool {
        &&& 0 <= level < self.height
        &&& 0 <= index < pow2((self.height - 1 - level) as nat)
        &&& self.nodes@.contains_key(level as usize)
        &&& self.nodes@[level as usize]@.contains_key(index as u128)
    }

    /// The hash written at a stored node.
    pub closed spec fn stored_val(&self, level: int, index: int) -> T::V {
        self.nodes@[level as usize]@[index as u128]@
    }

    /// The per-level default: the hash cached for an all-empty subtree rooted
    /// at `level`.
    pub closed spec fn spec_zero(&self, level: int) -> T::V {
        self.zeroes[level]@
    }

    /// The hash of the node at `level`, position `index`: the stored value if
    /// one was written, else the all-empty default of the level.
    pub open spec fn spec_node(&self, level: int, index: int) -> T::V {
        if self.stored(level, index) {
            self.stored_val(level, index)
        } else {
            self.spec_zero(level)
        }
    }

    /// The hash of the single node of the top level.
    pub open spec fn spec_root(&self) -> T::V {
        self.spec_node(self.spec_height() - 1, 0)
    }

    /// The structural part of the invariant: the height is in range, the
    /// zero cache has one entry per level, and every written node lies at a
    /// level below the height and at a position within that level's width.
    pub closed spec fn basic_inv(&self) -> bool {
        &&& MIN_HEIGHT <= self.height <= MAX_HEIGHT
        &&& self.zeroes.len() == self.height
        &&& forall|lu: usize| #[trigger] self.nodes@.contains_key(lu) ==> lu < self.height
        &&& forall|lu: usize, iu: u128|
            self.nodes@.contains_key(lu) && #[trigger] self.nodes@[lu]@.contains_key(iu)
                ==> (iu as int) < pow2((self.height - 1 - lu) as nat)
    }

    /// The zero cache holds the empty-leaf hash at level zero and, above it,
    /// the composition of the previous entry with itself.
    pub closed spec fn zero_cache_inv(&self) -> bool {
        &&& self.zeroes.len() == self.height
        &&& self.zeroes[0]@ == V::spec_zero_hash()
        &&& forall|l: int|
            1 <= l < self.height ==> #[trigger] self.zeroes[l]@ == V::spec_compose(
                self.zeroes[l - 1]@,
                self.zeroes[l - 1]@,
            )
    }

    /// The full representation invariant: besides the structural and
    /// zero-cache conditions, every written node above the leaf level holds
    /// the composition of its two children (each read as stored-or-default),
    /// and every written node below the top level has a written parent, so
    /// that defaults above a written region never go stale.
    pub closed spec fn wf(&self) -> bool {
        &&& self.basic_inv()
        &&& self.zero_cache_inv()
        &&& forall|l: int, i: int|
            #[trigger] self.stored(l, i) && 1 <= l ==> self.stored_val(l, i) == V::spec_compose(
                self.spec_node(l - 1, 2 * i),
                self.spec_node(l - 1, 2 * i + 1),
            )
        &&& forall|l: int, i: int|
            #[trigger] self.stored(l, i) && l < self.height - 1 ==> self.stored(l + 1, i / 2)
    }

    /// The invariant held while a leaf update walks up the tree, after the
    /// path has been rewritten up to level `k`: composition may be stale only
    /// at the path's ancestor one level above `k`, and only the path node at
    /// `k` itself may still lack a written parent.
    spec fn path_wf(&self, index: int, k: int) -> bool {
        &&& self.basic_inv()
        &&& self.zero_cache_inv()
        &&& forall|l: int, i: int|
            #[trigger] self.stored(l, i) && 1 <= l && !(l == k + 1 && i == ancestor_index(
                index,
                l as nat,
            )) ==> self.stored_val(l, i) == V::spec_compose(
                self.spec_node(l - 1, 2 * i),
                self.spec_node(l - 1, 2 * i + 1),
            )
        &&& forall|l: int, i: int|
            #[trigger] self.stored(l, i) && l < self.height - 1 && !(l == k && i == ancestor_index(
                index,
                l as nat,
            )) ==> self.stored(l + 1, i / 2)
    }

    /// Creates a tree of the given height with every node at its all-empty
    /// default, or reports that the height is out of range.
    pub fn new(height: usize) -> (r: Result<Self, MerkleError>)
        ensures
            match r {
                Ok(t) => {
                    &&& MIN_HEIGHT <= height <= MAX_HEIGHT
                    &&& t.wf()
                    &&& t.spec_height() == height
                    &&& forall|l: int, i: int| !t.stored(l, i)
                    &&& forall|l: int| 0 <= l < height ==> t.spec_zero(l) == zero_hash_at::<T, V>(
                        l as nat,
                    )
                },
                Err(e) => {
                    &&& e == MerkleError::InvalidHeight
                    &&& !(MIN_HEIGHT <= height <= MAX_HEIGHT)
                },
            },
    {
        if height < MIN_HEIGHT || height > MAX_HEIGHT {
            return Err(MerkleError::InvalidHeight);
        }
        let zero_leaf = V::zero();
        let mut zeroes: Vec<T> = Vec::with_capacity(height);
        zeroes.push(zero_leaf.hash());
        let mut l: usize = 1;
        while l < height
            invariant
                1 <= l <= height,
                zeroes.len() == l,
                zeroes[0]@ == V::spec_zero_hash(),
                forall|k: int|
                    1 <= k < l ==> #[trigger] zeroes[k]@ == V::spec_compose(
                        zeroes[k - 1]@,
                        zeroes[k - 1]@,
                    ),
                forall|k: int| 0 <= k < l ==> #[trigger] zeroes[k]@ == zero_hash_at::<T, V>(
                    k as nat,
                ),
            decreases height - l,
        {
            let parent = V::compose_hash(&zeroes[l - 1], &zeroes[l - 1]);
            zeroes.push(parent);
            l += 1;
        }
        let t = MerkleTree {
            height,
            nodes: HashMap::<usize, HashMap<u128, T>>::new(),
            zeroes,
            _phantom: PhantomData,
        };
        Ok(t)
    }

    /// Writes `hash` at `level`, position `index`, leaving every other node,
    /// the height and the zero cache unchanged.
    fn set_node(&mut self, level: usize, index: u128, hash: T)
        requires
            old(self).basic_inv(),
            level < old(self).spec_height(),
            (index as int) < pow2((old(self).spec_height() - 1 - level) as nat),
        ensures
            final(self).basic_inv(),
            final(self).spec_height() == old(self).spec_height(),
            final(self).zeroes == old(self).zeroes,
            final(self).stored(level as int, index as int),
            final(self).stored_val(level as int, index as int) == hash@,
            forall|l: int, i: int|
                #![trigger final(self).stored(l, i)]
                #![trigger old(self).stored(l, i)]
                !(l == level as int && i == index as int) ==> final(self).stored(l, i) == old(
                    self,
                ).stored(l, i) && (old(self).stored(l, i) ==> final(self).stored_val(l, i) == old(
                    self,
                ).stored_val(l, i)),
    {
        match self.nodes.remove(&level) {
            Some(mut merkle_level) => {
                merkle_level.insert(index, hash);
                self.nodes.insert(level, merkle_level);
            },
            None => {
                let mut merkle_level: HashMap<u128, T> = HashMap::new();
                merkle_level.insert(index, hash);
                self.nodes.insert(level, merkle_level);
            },
        }
        proof {
            assert forall|lu: usize| #[trigger] self.nodes@.contains_key(lu) implies lu
                < self.height by {
                if lu != level {
                    assert(old(self).nodes@.contains_key(lu));
                }
            }
            assert forall|lu: usize, iu: u128|
                self.nodes@.contains_key(lu) && #[trigger] self.nodes@[lu]@.contains_key(
                    iu,
                ) implies (iu as int) < pow2((self.height - 1 - lu) as nat) by {
                if lu == level {
                    if iu != index {
                        assert(old(self).nodes@.contains_key(lu));
                        assert(old(self).nodes@[lu]@.contains_key(iu));
                    }
                } else {
                    assert(old(self).nodes@.contains_key(lu));
                    assert(old(self).nodes@[lu] == self.nodes@[lu]);
                }
            }
            assert forall|l: int, i: int|
                !(l == level as int && i == index as int) implies #[trigger] self.stored(l, i)
                == #[trigger] old(self).stored(l, i) && (old(self).stored(l, i)
                ==> self.stored_val(l, i) == old(self).stored_val(l, i)) by {
                if 0 <= l < self.height && 0 <= i < pow2((self.height - 1 - l) as nat) {
                    if l == level as int {
                        lemma_pow2_le_u128_max((self.height - 1 - l) as nat);
                        assert((i as u128) != index);
                    }
                }
            }
        }
    }

    /// Writes a leaf: stores the leaf's hash at level zero, then recomputes
    /// every ancestor on the path to the root from its two children, each
    /// read as stored-or-default. An out-of-range index is reported and
    /// leaves the tree untouched. Every other leaf keeps its value.
    #[verifier::rlimit(100)]
    #[verifier::spinoff_prover]
    pub fn set_leaf(&mut self, index: u128, leaf: &V) -> (r: Result<(), MerkleError>)
        requires
            old(self).wf(),
        ensures
            final(self).spec_height() == old(self).spec_height(),
            forall|l: int| #[trigger] final(self).spec_zero(l) == old(self).spec_zero(l),
            match r {
                Ok(()) => {
                    &&& (index as int) < old(self).spec_leaf_count()
                    &&& final(self).wf()
                    &&& final(self).spec_node(0, index as int) == leaf.spec_hash()
                    &&& forall|l: int, j: int|
                        0 <= l < old(self).spec_height() && j != ancestor_index(
                            index as int,
                            l as nat,
                        ) ==> final(self).spec_node(l, j) == old(self).spec_node(l, j)
                },
                Err(e) => {
                    &&& e == MerkleError::IndexOutOfRange
                    &&& (index as int) >= old(self).spec_leaf_count()
                    &&& *final(self) == *old(self)
                },
            },
    {
        if index >= self.leaf_count() {
            return Err(MerkleError::IndexOutOfRange);
        }
        let ghost t0 = *self;
        let ghost idx = index as int;
        let ghost height = self.spec_height();
        let h = leaf.hash();
        self.set_node(0, index, h);
        proof {
            lemma_ancestor_zero(idx);
            lemma_ancestor_step(idx, 1);
            assert forall|l: int, i: int|
                #[trigger] self.stored(l, i) && 1 <= l && !(l == 1 && i == ancestor_index(
                    idx,
                    l as nat,
                )) implies self.stored_val(l, i) == V::spec_compose(
                self.spec_node(l - 1, 2 * i),
                self.spec_node(l - 1, 2 * i + 1),
            ) by {
                assert(t0.stored(l, i));
                if l == 1 {
                    if 2 * i == idx {
                        vstd::arithmetic::div_mod::lemma_div_multiples_vanish(i, 2);
                        assert(false);
                    }
                    if 2 * i + 1 == idx {
                        vstd::arithmetic::div_mod::lemma_div_multiples_vanish_fancy(i, 1, 2);
                        assert(false);
                    }
                }
                assert(self.spec_node(l - 1, 2 * i) == t0.spec_node(l - 1, 2 * i));
                assert(self.spec_node(l - 1, 2 * i + 1) == t0.spec_node(l - 1, 2 * i + 1));
            }
            assert forall|l: int, i: int|
                #[trigger] self.stored(l, i) && l < self.height - 1 && !(l == 0 && i
                    == ancestor_index(idx, l as nat)) implies self.stored(l + 1, i / 2) by {
                assert(t0.stored(l, i));
                assert(t0.stored(l + 1, i / 2));
            }
            assert(self.path_wf(idx, 0));
        }
        let mut current_index: u128 = index;
        let mut level: usize = 1;
        while level < self.height
            invariant
                t0 == *old(self),
                idx == index as int,
                height == self.spec_height(),
                t0.wf(),
                1 <= level <= height,
                self.spec_height() == t0.spec_height(),
                self.zeroes == t0.zeroes,
                idx < t0.spec_leaf_count(),
                current_index as int == ancestor_index(idx, (level - 1) as nat),
                self.path_wf(idx, level - 1),
                forall|l: int|
                    0 <= l < level ==> #[trigger] self.stored(l, ancestor_index(idx, l as nat)),
                self.spec_node(0, idx) == leaf.spec_hash(),
                forall|l: int, j: int|
                    #![trigger self.stored(l, j)]
                    #![trigger t0.stored(l, j)]
                    !(0 <= l < level && j == ancestor_index(idx, l as nat)) ==> self.stored(l, j)
                        == t0.stored(l, j) && (t0.stored(l, j) ==> self.stored_val(l, j)
                        == t0.stored_val(l, j)),
            decreases height - level,
        {
            let ghost s1 = *self;
            proof {
                lemma_ancestor_step(idx, level as nat);
                lemma_ancestor_bound(idx, level as nat, (height - 1) as nat + 1);
                lemma_ancestor_bound(idx, (level - 1) as nat, (height - 1) as nat + 1);
                lemma_pow2_le_u128_max((height - 1 - level) as nat);
            }
            current_index = current_index / 2;
            let ghost ci = current_index as int;
            let composed = {
                let left = self.get_node_raw(level - 1, current_index * 2);
                let right = self.get_node_raw(level - 1, current_index * 2 + 1);
                V::compose_hash(left, right)
            };
            self.set_node(level, current_index, composed);
            proof {
                let lvl = level as int;
                lemma_ancestor_step(idx, (level + 1) as nat);
                assert forall|l: int, i: int|
                    #[trigger] self.stored(l, i) && 1 <= l && !(l == lvl + 1 && i
                        == ancestor_index(idx, l as nat)) implies self.stored_val(l, i)
                    == V::spec_compose(
                    self.spec_node(l - 1, 2 * i),
                    self.spec_node(l - 1, 2 * i + 1),
                ) by {
                    if l == lvl && i == ci {
                        assert(self.stored_val(l, i) == composed@);
                        assert(self.spec_node(l - 1, 2 * i) == s1.spec_node(l - 1, 2 * i));
                        assert(self.spec_node(l - 1, 2 * i + 1) == s1.spec_node(l - 1, 2 * i + 1));
                    } else {
                        assert(s1.stored(l, i));
                        assert(self.stored_val(l, i) == s1.stored_val(l, i));
                        if l == lvl + 1 {
                            if 2 * i == ci {
                                vstd::arithmetic::div_mod::lemma_div_multiples_vanish(i, 2);
                                assert(false);
                            }
                            if 2 * i + 1 == ci {
                                vstd::arithmetic::div_mod::lemma_div_multiples_vanish_fancy(
                                    i,
                                    1,
                                    2,
                                );
                                assert(false);
                            }
                        }
                        assert(s1.stored_val(l, i) == V::spec_compose(
                            s1.spec_node(l - 1, 2 * i),
                            s1.spec_node(l - 1, 2 * i + 1),
                        ));
                        assert(self.spec_node(l - 1, 2 * i) == s1.spec_node(l - 1, 2 * i));
                        assert(self.spec_node(l - 1, 2 * i + 1) == s1.spec_node(l - 1, 2 * i + 1));
                    }
                }
                assert forall|l: int, i: int|
                    #[trigger] self.stored(l, i) && l < self.height - 1 && !(l == lvl && i
                        == ancestor_index(idx, l as nat)) implies self.stored(l + 1, i / 2) by {
                    if l == lvl - 1 && i == ancestor_index(idx, (level - 1) as nat) {
                        assert(self.stored(lvl, ci));
                    } else {
                        assert(s1.stored(l, i));
                        assert(s1.stored(l + 1, i / 2));
                        if !(l + 1 == lvl && i / 2 == ci) {
                            assert(self.stored(l + 1, i / 2));
                        }
                    }
                }
                assert(self.path_wf(idx, lvl));
                assert forall|l: int|
                    0 <= l < level + 1 implies #[trigger] self.stored(
                    l,
                    ancestor_index(idx, l as nat),
                ) by {
                    if l < lvl {
                        assert(s1.stored(l, ancestor_index(idx, l as nat)));
                    }
                }
            }
            level = level + 1;
        }
        proof {
            assert forall|l: int, i: int| #[trigger] self.stored(l, i) && 1 <= l implies self
                .stored_val(l, i) == V::spec_compose(
                self.spec_node(l - 1, 2 * i),
                self.spec_node(l - 1, 2 * i + 1),
            ) by {
                assert(l < height);
            }
            assert(self.wf());
            assert forall|l: int, j: int|
                0 <= l < height && j != ancestor_index(idx, l as nat) implies self.spec_node(l, j)
                == t0.spec_node(l, j) by {
                assert(self.stored(l, j) == t0.stored(l, j));
            }
        }
        Ok(())
    }

    /// Reads a node without assuming the composition part of the invariant;
    /// the structural part alone makes the read well defined.
    fn get_node_raw(&self, level: usize, index: u128) -> (r: &T)
        requires
            self.basic_inv(),
            level < self.spec_height(),
        ensures
            r@ == self.spec_node(level as int, index as int),
    {
        match self.nodes.get(&level) {
            Some(merkle_level) => match merkle_level.get(&index) {
                Some(node) => node,
                None => &self.zeroes[level],
            },
            None => &self.zeroes[level],
        }
    }

    /// Returns the hash at `level`, position `index`: the stored value if one
    /// was written, else the level's all-empty default. Never fails, for any
    /// position: an unwritten position legitimately reads as the default.
    pub fn get_node(&self, level: usize, index: u128) -> (r: &T)
        requires
            self.wf(),
            level < self.spec_height(),
        ensures
            r@ == self.spec_node(level as int, index as int),
    {
        self.get_node_raw(level, index)
    }

    /// Returns the leaf hash at `index`: the node at level zero.
    pub fn get_leaf(&self, index: u128) -> (r: &T)
        requires
            self.wf(),
        ensures
            r@ == self.spec_node(0, index as int),
    {
        self.get_node(0, index)
    }

    /// Returns the root hash: the single node of the top level.
    pub fn get_root(&self) -> (r: &T)
        requires
            self.wf(),
        ensures
            r@ == self.spec_root(),
    {
        let height = self.height;
        self.get_node(height - 1, 0)
    }

    /// Extracts the inclusion witness for a leaf: walks the levels from the
    /// leaf up to, but excluding, the root, recording at each the sibling of
    /// the current ancestor with its side tag, or reports an out-of-range
    /// index.
    pub fn get_witness(&self, index: u128) -> (r: Result<Vec<Witness<T>>, MerkleError>)
        requires
            self.wf(),
        ensures
            match r {
                Ok(ws) => {
                    &&& (index as int) < self.spec_leaf_count()
                    &&& self.witness_ok(index as int, ws@)
                },
                Err(e) => {
                    &&& e == MerkleError::IndexOutOfRange
                    &&& (index as int) >= self.spec_leaf_count()
                },
            },
    {
        if index >= self.leaf_count() {
            return Err(MerkleError::IndexOutOfRange);
        }
        let ghost idx = index as int;
        let mut witness: Vec<Witness<T>> = Vec::with_capacity(self.height - 1);
        let mut current_index: u128 = index;
        let mut level: usize = 0;
        proof {
            lemma_ancestor_zero(idx);
        }
        while level < self.height - 1
            invariant
                self.wf(),
                idx == index as int,
                0 <= level <= self.spec_height() - 1,
                idx < self.spec_leaf_count(),
                witness@.len() == level,
                current_index as int == ancestor_index(idx, level as nat),
                forall|l: int|
                    #![trigger witness@[l]]
                    0 <= l < level ==> {
                        let j = ancestor_index(idx, l as nat);
                        if j % 2 == 0 {
                            witness@[l] matches Witness::Left(s) && s@ == self.spec_node(l, j + 1)
                        } else {
                            witness@[l] matches Witness::Right(s) && s@ == self.spec_node(l, j - 1)
                        }
                    },
            decreases self.spec_height() - 1 - level,
        {
            proof {
                lemma_ancestor_bound(idx, level as nat, (self.spec_height() - 1) as nat + 1);
                lemma_pow2_le_u128_max((self.spec_height() - 1 - level) as nat);
                lemma_ancestor_step(idx, (level + 1) as nat);
            }
            if current_index % 2 == 0 {
                let sibling = V::clone_hash(self.get_node(level, current_index + 1));
                witness.push(Witness::Left(sibling));
            } else {
                let sibling = V::clone_hash(self.get_node(level, current_index - 1));
                witness.push(Witness::Right(sibling));
            }
            current_index = current_index / 2;
            level = level + 1;
        }
        Ok(witness)
    }

    /// Snapshots a complete proof for a leaf: its hash, the current root and
    /// the inclusion witness, or reports the same out-of-range condition as
    /// witness extraction, with no partial result.
    pub fn get_merkle_proof(&self, index: u128) -> (r: Result<MerkleProof<T, V>, MerkleError>)
        requires
            self.wf(),
        ensures
            match r {
                Ok(p) => {
                    &&& (index as int) < self.spec_leaf_count()
                    &&& p.leaf@ == self.spec_node(0, index as int)
                    &&& p.root@ == self.spec_root()
                    &&& self.witness_ok(index as int, p.witness@)
                },
                Err(e) => {
                    &&& e == MerkleError::IndexOutOfRange
                    &&& (index as int) >= self.spec_leaf_count()
                },
            },
    {
        let witness = match self.get_witness(index) {
            Ok(ws) => ws,
            Err(e) => {
                return Err(e);
            },
        };
        let leaf = V::clone_hash(self.get_leaf(index));
        let root = V::clone_hash(self.get_root());
        Ok(MerkleProof::new(leaf, root, witness))
    }

    /// Recomputes a root by folding the given witness over the leaf at
    /// `index` — the same left/right composition rule standalone validation
    /// uses — and compares it with the tree's current root.
    pub fn verify(&self, index: u128, merkle_witness: &Vec<Witness<T>>) -> (r: bool)
        requires
            self.wf(),
        ensures
            r == (fold_witness::<T, V>(self.spec_node(0, index as int), merkle_witness@)
                == self.spec_root()),
    {
        let leaf = self.get_leaf(index);
        let mut current = V::clone_hash(leaf);
        let root = self.get_root();
        let ghost start = self.spec_node(0, index as int);
        let mut k: usize = 0;
        proof {
            assert(merkle_witness@.take(0) =~= Seq::<Witness<T>>::empty());
        }
        while k < merkle_witness.len()
            invariant
                self.wf(),
                root@ == self.spec_root(),
                start == self.spec_node(0, index as int),
                0 <= k <= merkle_witness@.len(),
                current@ == fold_witness::<T, V>(start, merkle_witness@.take(k as int)),
            decreases merkle_witness@.len() - k,
        {
            proof {
                assert(merkle_witness@.take(k + 1).drop_last() =~= merkle_witness@.take(k as int));
            }
            current = match &merkle_witness[k] {
                Witness::Left(sibling) => V::compose_hash(&current, sibling),
                Witness::Right(sibling) => V::compose_hash(sibling, &current),
            };
            k = k + 1;
        }
        proof {
            assert(merkle_witness@.take(merkle_witness@.len() as int) =~= merkle_witness@);
        }
        V::eq_hash(&current, root)
    }

    /// In a well-formed tree every node above the leaf level is the
    /// composition of its two children: a written node by the invariant on
    /// stored nodes, an unwritten one because nothing written can hide below
    /// it and the default cache composes level by level.
    pub proof fn lemma_parent_composes(&self, level: int, index: int)
        requires
            self.wf(),
            0 <= level < self.spec_height() - 1,
            0 <= index,
        ensures
            self.spec_node(level + 1, index) == V::spec_compose(
                self.spec_node(level, 2 * index),
                self.spec_node(level, 2 * index + 1),
            ),
    {
        if !self.stored(level + 1, index) {
            if self.stored(level, 2 * index) {
                vstd::arithmetic::div_mod::lemma_div_multiples_vanish(index, 2);
                assert(self.stored(level + 1, index));
            }
            if self.stored(level, 2 * index + 1) {
                vstd::arithmetic::div_mod::lemma_div_multiples_vanish_fancy(index, 1, 2);
                assert(self.stored(level + 1, index));
            }
        }
    }

    /// Folding the first `k` witness elements over the leaf hash yields the
    /// hash of the leaf's ancestor at level `k`.
    proof fn lemma_fold_prefix(&self, index: int, ws: Seq<Witness<T>>, k: int)
        requires
            self.wf(),
            0 <= index < self.spec_leaf_count(),
            self.witness_ok(index, ws),
            0 <= k <= ws.len(),
        ensures
            fold_witness::<T, V>(self.spec_node(0, index), ws.take(k)) == self.spec_node(
                k,
                ancestor_index(index, k as nat),
            ),
        decreases k,
    {
        if k == 0 {
            lemma_ancestor_zero(index);
            assert(ws.take(0) =~= Seq::<Witness<T>>::empty());
        } else {
            self.lemma_fold_prefix(index, ws, k - 1);
            let j = ancestor_index(index, (k - 1) as nat);
            lemma_ancestor_bound(index, (k - 1) as nat, (self.spec_height() - 1) as nat + 1);
            lemma_ancestor_step(index, k as nat);
            vstd::arithmetic::div_mod::lemma_fundamental_div_mod(j, 2);
            vstd::arithmetic::div_mod::lemma_div_pos_is_pos(j, 2);
            assert(ws.take(k).drop_last() =~= ws.take(k - 1));
            self.lemma_parent_composes(k - 1, j / 2);
        }
    }

    /// Law: a witness extracted from a well-formed tree folds, from the leaf
    /// it was extracted for, exactly to the tree's current root — so
    /// tree-bound verification of a freshly extracted witness succeeds.
    pub proof fn lemma_witness_recomputes_root(&self, index: int, ws: Seq<Witness<T>>)
        requires
            self.wf(),
            0 <= index < self.spec_leaf_count(),
            self.witness_ok(index, ws),
        ensures
            fold_witness::<T, V>(self.spec_node(0, index), ws) == self.spec_root(),
    {
        self.lemma_fold_prefix(index, ws, ws.len() as int);
        assert(ws.take(ws.len() as int) =~= ws);
        vstd::arithmetic::div_mod::lemma_basic_div(
            index,
            pow2((self.spec_height() - 1) as nat) as int,
        );
    }

    /// Law: a proof snapshotted from a well-formed tree validates on its own:
    /// its witness folds from its leaf hash exactly to its claimed root.
    pub proof fn lemma_proof_self_consistent(&self, index: int, p: &MerkleProof<T, V>)
        requires
            self.wf(),
            0 <= index < self.spec_leaf_count(),
            p.leaf@ == self.spec_node(0, index),
            p.root@ == self.spec_root(),
            self.witness_ok(index, p.witness@),
        ensures
            p.spec_valid(),
    {
        self.lemma_witness_recomputes_root(index, p.witness@);
    }

    /// Law: in a well-formed tree the per-level default cache holds exactly
    /// the all-empty subtree hashes, so an unset leaf reads as the hash of
    /// the empty leaf and the root of a fresh tree as the all-empty hash of
    /// the top level.
    pub proof fn lemma_zero_defaults(&self, level: int)
        requires
            self.wf(),
            0 <= level < self.spec_height(),
        ensures
            self.spec_zero(level) == zero_hash_at::<T, V>(level as nat),
        decreases level,
    {
        if level > 0 {
            self.lemma_zero_defaults(level - 1);
        }
    }

    /// Returns how many leaves the tree addresses: `2^(height - 1)`.
    pub fn leaf_count(&self) -> (r: u128)
        requires
            self.wf(),
        ensures
            r as int == self.spec_leaf_count(),
    {
        proof {
            lemma_pow2_le_u128_max((self.height - 1) as nat);
        }
        let mut c: u128 = 1;
        let mut l: usize = 0;
        assert(c as int == pow2(0)) by {
            lemma2_to64();
        }
        while l < self.height - 1
            invariant
                self.wf(),
                0 <= l <= self.spec_height() - 1,
                c as int == pow2(l as nat),
            decreases self.spec_height() - 1 - l,
        {
            proof {
                lemma_pow2_unfold((l + 1) as nat);
                lemma_pow2_le_u128_max((l + 1) as nat);
            }
            c = c * 2;
            l += 1;
        }
        c
    }
}

impl<T: View, V: Hashable<T>> Merkle<T, V> for MerkleTree<T, V> {
    open spec fn inv(&self) -> bool {
        self.wf()
    }

    open spec fn height(&self) -> int {
        self.spec_height()
    }

    open spec fn node(&self, level: int, index: int) -> T::V {
        self.spec_node(level, index)
    }

    fn new(height: usize) -> (r: Result<Self, MerkleError>) {
        MerkleTree::new(height)
    }

    fn get_node(&self, level: usize, index: u128) -> (r: &T) {
        MerkleTree::get_node(self, level, index)
    }

    fn get_leaf(&self, index: u128) -> (r: &T) {
        MerkleTree::get_leaf(self, index)
    }

    fn get_root(&self) -> (r: &T) {
        MerkleTree::get_root(self)
    }

    fn set_leaf(&mut self, index: u128, leaf: &V) -> (r: Result<(), MerkleError>) {
        let res = MerkleTree::set_leaf(self, index, leaf);
        proof {
            lemma_ancestor_zero(index as int);
        }
        res
    }

    fn get_witness(&self, index: u128) -> (r: Result<Vec<Witness<T>>, MerkleError>) {
        MerkleTree::get_witness(self, index)
    }

    fn get_merkle_proof(&self, index: u128) -> (r: Result<MerkleProof<T, V>, MerkleError>) {
        MerkleTree::get_merkle_proof(self, index)
    }

    fn leaf_count(&self) -> (r: u128) {
        MerkleTree::leaf_count(self)
    }
}

/// Halving a leaf's ancestor position gives its ancestor one level higher.
proof fn lemma_ancestor_step(index: int, level: nat)
    requires
        0 <= index,
        1 <= level,
    ensures
        ancestor_index(index, (level - 1) as nat) / 2 == ancestor_index(index, level),
{
    lemma2_to64();
    lemma_pow2_adds((level - 1) as nat, 1);
    vstd::arithmetic::power2::lemma_pow2_pos((level - 1) as nat);
    vstd::arithmetic::div_mod::lemma_div_denominator(index, pow2((level - 1) as nat) as int, 2);
}

/// The ancestor of an in-range leaf position lies within its level's width,
/// and positions only shrink on the way up.
proof fn lemma_ancestor_bound(index: int, level: nat, height: nat)
    requires
        1 <= height,
        0 <= index < pow2((height - 1) as nat),
        level <= height - 1,
    ensures
        ancestor_index(index, level) < pow2((height - 1 - level) as nat),
        0 <= ancestor_index(index, level) <= index,
{
    vstd::arithmetic::power2::lemma_pow2_pos(level);
    lemma_pow2_adds(level, (height - 1 - level) as nat);
    vstd::arithmetic::div_mod::lemma_multiply_divide_lt(
        index,
        pow2(level) as int,
        pow2((height - 1 - level) as nat) as int,
    );
    vstd::arithmetic::div_mod::lemma_div_nonincreasing(index, pow2(level) as int);
    vstd::arithmetic::div_mod::lemma_div_pos_is_pos(index, pow2(level) as int);
}

/// At level zero a leaf is its own ancestor.
proof fn lemma_ancestor_zero(index: int)
    requires
        0 <= index,
    ensures
        ancestor_index(index, 0) == index,
{
    lemma2_to64();
    vstd::arithmetic::div_mod::lemma_div_basics(index);
}

/// Any power of two with an exponent of at most 127 fits in a `u128`.
proof fn lemma_pow2_le_u128_max(e: nat)
    requires
        e <= 127,
    ensures
        pow2(e) < u128::MAX,
{
    if e < 127 {
        lemma_pow2_strictly_increases(e, 127);
    }
    lemma_pow2_adds(64, 63);
    lemma2_to64();
    assert(pow2(63) == 0x8000000000000000) by {
        vstd::arithmetic::power2::lemma2_to64_rest();
    }
    assert(pow2(127) == 0x10000000000000000 * 0x8000000000000000);
    assert(pow2(127) < u128::MAX);
}

} // verus!
