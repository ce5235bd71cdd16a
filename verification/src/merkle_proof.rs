use vstd::prelude::*;
use core::marker::PhantomData;
use crate::traits::Hashable;
use crate::traits::Witness;
use crate::traits::fold_witness;
use crate::traits::witness_step;

verus! {

/// A self-contained inclusion proof: a leaf hash, a claimed root, and the
/// ordered sibling path from the leaf level up to the root. It carries no
/// reference to the tree that produced it, nor the leaf's index — the index's
/// parity at each level is replayed implicitly by the witness tags — and it
/// is validated on its own.
pub struct MerkleProof<T, V> {
    /// The hash of the leaf whose inclusion is claimed.
    pub leaf: T,
    /// The root the witness is claimed to attest to.
    pub root: T,
    /// The tagged sibling path, ordered from the leaf level upward.
    pub witness: Vec<Witness<T>>,
    /// Ties the proof to the hashing scheme that validates it.
    pub _phantom: PhantomData<V>,
}

impl<T: View, V: Hashable<T>> MerkleProof<T, V> {
    /// Whether the witness folds from the leaf hash exactly to the claimed
    /// root.
    pub open spec fn spec_valid(&self) -> bool {
        fold_witness::<T, V>(self.leaf@, self.witness@) == self.root@
    }

    /// Bundles a leaf hash, a claimed root and a witness into a proof.
    pub fn new(leaf: T, root: T, witness: Vec<Witness<T>>) -> (r: Self)
        ensures
            r.leaf == leaf,
            r.root == root,
            r.witness == witness,
    {
        MerkleProof { leaf, root, witness, _phantom: PhantomData }
    }

    /// Recomputes a candidate root by folding the witness over the leaf, one
    /// sibling per element in order, and compares it with the claimed root:
    /// true exactly when they agree. This is a pure function of the proof's
    /// three fields — no tree, index or other state takes part — and a false
    /// result is an ordinary outcome, not an error.
    pub fn is_valid(&self) -> (r: bool)
        ensures
            r == self.spec_valid(),
    {
        let ghost start = self.leaf@;
        let mut computed_hash = V::clone_hash(&self.leaf);
        let mut k: usize = 0;
        proof {
            assert(self.witness@.take(0) =~= Seq::<Witness<T>>::empty());
        }
        while k < self.witness.len()
            invariant
                start == self.leaf@,
                0 <= k <= self.witness@.len(),
                computed_hash@ == fold_witness::<T, V>(start, self.witness@.take(k as int)),
            decreases self.witness@.len() - k,
        {
            proof {
                assert(self.witness@.take(k + 1).drop_last() =~= self.witness@.take(k as int));
            }
            computed_hash = match &self.witness[k] {
                Witness::Left(sibling) => V::compose_hash(&computed_hash, sibling),
                Witness::Right(sibling) => V::compose_hash(sibling, &computed_hash),
            };
            k = k + 1;
        }
        proof {
            assert(self.witness@.take(self.witness@.len() as int) =~= self.witness@);
        }
        V::eq_hash(&computed_hash, &self.root)
    }
}

/// The sibling hash a witness element carries, whichever side it tags.
pub open spec fn sibling_of<T>(w: Witness<T>) -> T {
    match w {
        Witness::Left(s) => s,
        Witness::Right(s) => s,
    }
}

/// Whether two witness elements carry the same sibling under opposite tags.
pub open spec fn tag_swapped<T>(w1: Witness<T>, w2: Witness<T>) -> bool {
    match (w1, w2) {
        (Witness::Left(a), Witness::Right(b)) => a == b,
        (Witness::Right(a), Witness::Left(b)) => a == b,
        _ => false,
    }
}

/// Law: of two proofs that share their leaf hash and witness but claim
/// different roots, at most one validates; altering the claimed root of a
/// valid proof therefore always invalidates it.
pub proof fn lemma_distinct_roots_not_both_valid<T: View, V: Hashable<T>>(
    p1: &MerkleProof<T, V>,
    p2: &MerkleProof<T, V>,
)
    requires
        p1.leaf@ == p2.leaf@,
        p1.witness@ == p2.witness@,
        p1.root@ != p2.root@,
    ensures
        !(p1.spec_valid() && p2.spec_valid()),
{
}

/// Whether two witness elements carry the same tag but differing sibling
/// hashes.
pub open spec fn sibling_changed<T: View>(w1: Witness<T>, w2: Witness<T>) -> bool {
    match (w1, w2) {
        (Witness::Left(a), Witness::Left(b)) => a@ != b@,
        (Witness::Right(a), Witness::Right(b)) => a@ != b@,
        _ => false,
    }
}

/// Whether the hashing scheme's composition never collides: two compositions
/// agree only when both operands agree. No cryptographic hash can satisfy
/// this outright — collisions exist, they are merely infeasible to find — so
/// the sensitivity laws below carry it as an explicit hypothesis: they hold
/// except on colliding inputs.
pub open spec fn compose_collision_free<T: View, V: Hashable<T>>() -> bool {
    forall|a: T::V, b: T::V, c: T::V, d: T::V|
        #![trigger V::spec_compose(a, b), V::spec_compose(c, d)]
        V::spec_compose(a, b) == V::spec_compose(c, d) ==> a == c && b == d
}

/// Folding distributes over concatenation: the second part folds over the
/// result of the first.
pub proof fn lemma_fold_append<T: View, V: Hashable<T>>(
    start: T::V,
    first: Seq<Witness<T>>,
    second: Seq<Witness<T>>,
)
    ensures
        fold_witness::<T, V>(start, first + second) == fold_witness::<T, V>(
            fold_witness::<T, V>(start, first),
            second,
        ),
    decreases second.len(),
{
    if second.len() == 0 {
        assert(first + second =~= first);
    } else {
        lemma_fold_append::<T, V>(start, first, second.drop_last());
        assert((first + second).drop_last() =~= first + second.drop_last());
    }
}

/// Law: while composition does not collide, folding one witness over two
/// differing starting hashes gives two differing results — so changing the
/// leaf hash of a valid proof, keeping its witness, invalidates it.
pub proof fn lemma_changed_leaf_changes_fold<T: View, V: Hashable<T>>(
    start1: T::V,
    start2: T::V,
    ws: Seq<Witness<T>>,
)
    requires
        compose_collision_free::<T, V>(),
        start1 != start2,
    ensures
        fold_witness::<T, V>(start1, ws) != fold_witness::<T, V>(start2, ws),
    decreases ws.len(),
{
    if ws.len() > 0 {
        lemma_changed_leaf_changes_fold::<T, V>(start1, start2, ws.drop_last());
    }
}

/// Law: while composition does not collide, two witnesses of equal length
/// that agree everywhere but at one position, where their steps compose to
/// differing hashes, fold to differing results.
pub proof fn lemma_fold_sensitive_at<T: View, V: Hashable<T>>(
    start: T::V,
    ws1: Seq<Witness<T>>,
    ws2: Seq<Witness<T>>,
    k: int,
)
    requires
        compose_collision_free::<T, V>(),
        ws1.len() == ws2.len(),
        0 <= k < ws1.len(),
        forall|j: int| 0 <= j < ws1.len() && j != k ==> ws1[j] == ws2[j],
        ({
            let current = fold_witness::<T, V>(start, ws1.take(k));
            witness_step::<T, V>(current, ws1[k]) != witness_step::<T, V>(current, ws2[k])
        }),
    ensures
        fold_witness::<T, V>(start, ws1) != fold_witness::<T, V>(start, ws2),
{
    assert(ws1.take(k) =~= ws2.take(k));
    assert(ws1 =~= ws1.take(k + 1) + ws1.skip(k + 1));
    assert(ws2 =~= ws2.take(k + 1) + ws2.skip(k + 1));
    lemma_fold_append::<T, V>(start, ws1.take(k + 1), ws1.skip(k + 1));
    lemma_fold_append::<T, V>(start, ws2.take(k + 1), ws2.skip(k + 1));
    assert(ws1.take(k + 1).drop_last() =~= ws1.take(k));
    assert(ws2.take(k + 1).drop_last() =~= ws2.take(k));
    let current = fold_witness::<T, V>(start, ws1.take(k));
    let c1 = witness_step::<T, V>(current, ws1[k]);
    let c2 = witness_step::<T, V>(current, ws2[k]);
    assert(fold_witness::<T, V>(start, ws1.take(k + 1)) == c1);
    assert(fold_witness::<T, V>(start, ws2.take(k + 1)) == c2);
    assert(ws1.skip(k + 1) =~= ws2.skip(k + 1));
    lemma_changed_leaf_changes_fold::<T, V>(c1, c2, ws1.skip(k + 1));
}

/// Law: while composition does not collide, changing the sibling hash of any
/// single witness element, keeping its tag, changes the folded result — so
/// mutating one sibling of a valid proof invalidates it.
pub proof fn lemma_changed_sibling_changes_fold<T: View, V: Hashable<T>>(
    start: T::V,
    ws1: Seq<Witness<T>>,
    ws2: Seq<Witness<T>>,
    k: int,
)
    requires
        compose_collision_free::<T, V>(),
        ws1.len() == ws2.len(),
        0 <= k < ws1.len(),
        forall|j: int| 0 <= j < ws1.len() && j != k ==> ws1[j] == ws2[j],
        sibling_changed(ws1[k], ws2[k]),
    ensures
        fold_witness::<T, V>(start, ws1) != fold_witness::<T, V>(start, ws2),
{
    lemma_fold_sensitive_at::<T, V>(start, ws1, ws2, k);
}

/// Law: while composition does not collide, swapping the Left/Right tag of
/// any single witness element, keeping its sibling hash, changes the folded
/// result whenever composing the running hash with that sibling is
/// order-sensitive — validation against the same root then fails.
pub proof fn lemma_swapped_tag_changes_fold<T: View, V: Hashable<T>>(
    start: T::V,
    ws1: Seq<Witness<T>>,
    ws2: Seq<Witness<T>>,
    k: int,
)
    requires
        compose_collision_free::<T, V>(),
        ws1.len() == ws2.len(),
        0 <= k < ws1.len(),
        forall|j: int| 0 <= j < ws1.len() && j != k ==> ws1[j] == ws2[j],
        tag_swapped(ws1[k], ws2[k]),
        ({
            let current = fold_witness::<T, V>(start, ws1.take(k));
            let s = sibling_of(ws1[k]);
            V::spec_compose(current, s@) != V::spec_compose(s@, current)
        }),
    ensures
        fold_witness::<T, V>(start, ws1) != fold_witness::<T, V>(start, ws2),
{
    lemma_fold_sensitive_at::<T, V>(start, ws1, ws2, k);
}

} // verus!
