use vstd::prelude::*;
use crate::traits::Hashable;

verus! {

/// The 32-byte digest blake3 assigns to the bytes of a string.
pub uninterp spec fn blake3_str_digest(s: Seq<char>) -> Seq<u8>;

/// The 32-byte digest blake3 assigns to the concatenation of two byte
/// strings.
pub uninterp spec fn blake3_pair_digest(left: Seq<u8>, right: Seq<u8>) -> Seq<u8>;

/// The decimal digit string of an integer.
pub uninterp spec fn decimal_repr(v: int) -> Seq<char>;

/// Relies on blake3::hash over str::as_bytes: the digest is a pure function
/// of the input characters and is 32 bytes long.
#[verifier::external_body]
fn blake3_hash_str(s: &String) -> (r: Vec<u8>)
    ensures
        r@ == blake3_str_digest(s@),
        r@.len() == 32,
{
    blake3::hash(s.as_bytes()).as_bytes().to_vec()
}

/// Relies on blake3::Hasher::update and Hasher::finalize: feeding two byte
/// strings in order digests their concatenation, a pure function of those
/// bytes, 32 bytes long.
#[verifier::external_body]
fn blake3_hash_pair(left: &Vec<u8>, right: &Vec<u8>) -> (r: Vec<u8>)
    ensures
        r@ == blake3_pair_digest(left@, right@),
        r@.len() == 32,
{
    blake3::Hasher::new().update(left).update(right).finalize().as_bytes().to_vec()
}

/// Relies on i32::to_string: the decimal representation is a pure function of
/// the value.
#[verifier::external_body]
fn i32_to_string(value: i32) -> (r: String)
    ensures
        r@ == decimal_repr(value as int),
{
    value.to_string()
}

/// A string leaf for a blake3-hashed tree: the leaf hash is the blake3 digest
/// of the string's bytes, composition digests the two child hashes in order,
/// and the canonical empty leaf is the empty string.
pub struct HashableString(String);

impl View for HashableString {
    type V = Seq<char>;

    closed spec fn view(&self) -> Seq<char> {
        self.0@
    }
}

impl HashableString {
    /// Builds the leaf whose string is the decimal representation of `value`.
    pub fn from(value: i32) -> (r: Self)
        ensures
            r@ == decimal_repr(value as int),
    {
        HashableString(i32_to_string(value))
    }
}

impl Hashable<Vec<u8>> for HashableString {
    open spec fn spec_hash(&self) -> Seq<u8> {
        blake3_str_digest(self@)
    }

    open spec fn spec_zero_hash() -> Seq<u8> {
        blake3_str_digest(Seq::<char>::empty())
    }

    open spec fn spec_compose(left: Seq<u8>, right: Seq<u8>) -> Seq<u8> {
        blake3_pair_digest(left, right)
    }

    fn zero() -> (r: Self) {
        HashableString(String::new())
    }

    fn hash(&self) -> (r: Vec<u8>) {
        blake3_hash_str(&self.0)
    }

    fn compose_hash(left: &Vec<u8>, right: &Vec<u8>) -> (r: Vec<u8>) {
        blake3_hash_pair(left, right)
    }

    fn eq_hash(left: &Vec<u8>, right: &Vec<u8>) -> (r: bool) {
        if left.len() != right.len() {
            return false;
        }
        let mut i: usize = 0;
        while i < left.len()
            invariant
                left@.len() == right@.len(),
                0 <= i <= left@.len(),
                forall|j: int| 0 <= j < i ==> left@[j] == right@[j],
            decreases left@.len() - i,
        {
            if left[i] != right[i] {
                return false;
            }
            i = i + 1;
        }
        proof {
            assert(left@ =~= right@);
        }
        true
    }

    fn clone_hash(h: &Vec<u8>) -> (r: Vec<u8>) {
        let mut copy: Vec<u8> = Vec::with_capacity(h.len());
        let mut i: usize = 0;
        while i < h.len()
            invariant
                0 <= i <= h@.len(),
                copy@ == h@.take(i as int),
            decreases h@.len() - i,
        {
            copy.push(h[i]);
            proof {
                assert(copy@ =~= h@.take(i + 1));
            }
            i = i + 1;
        }
        proof {
            assert(h@.take(h@.len() as int) =~= h@);
        }
        copy
    }
}

} // verus!
