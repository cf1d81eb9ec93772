//! Leaf hashing and the pairwise combination step.
//!
//! Every digest is the 32-byte output of SHA-256.  A leaf digest hashes the
//! record behind a leaf domain tag; a parent digest hashes the two child
//! digests behind a node domain tag, so that leaves can never be confused
//! with interior nodes and swapping the children changes the result.

use vstd::prelude::*;

verus! {

/// The SHA-256 digest of a byte sequence, named but not written out: the
/// library never reasons about the hash's internals, only that it is a
/// fixed function of its input.
pub uninterp spec fn sha256_of(data: Seq<u8>) -> Seq<u8>;

/// Tag prepended to a record before hashing it into a leaf digest.
pub const LEAF_TAG: u8 = 0;

/// Tag prepended to a pair of child digests before hashing them into a
/// parent digest.
pub const NODE_TAG: u8 = 1;

/// The digest of the record `rec` as a leaf of the tree.
pub open spec fn hash_leaf_spec(rec: Seq<u8>) -> Seq<u8> {
    sha256_of(seq![LEAF_TAG] + rec)
}

/// The parent digest of the ordered pair of child digests `(a, b)`.
/// Order-sensitive: `a` is always the left child.
pub open spec fn combine_spec(a: Seq<u8>, b: Seq<u8>) -> Seq<u8> {
    sha256_of(seq![NODE_TAG] + a + b)
}

/// Relies on `sha2::Sha256` (through the `sha2::Digest` trait): the digest
/// is a function of the input bytes alone and is exactly 32 bytes long.
#[verifier::external_body]
fn sha256(data: &[u8]) -> (r: Vec<u8>)
    ensures
        r@ == sha256_of(data@),
        r@.len() == 32,
{
    <sha2::Sha256 as sha2::Digest>::digest(data).to_vec()
}

/// Hash a record into its leaf digest.
pub fn hash_leaf(rec: &[u8]) -> (r: Vec<u8>)
    ensures
        r@ == hash_leaf_spec(rec@),
        r@.len() == 32,
{
    let mut data: Vec<u8> = Vec::new();
    data.push(LEAF_TAG);
    let mut j: usize = 0;
    while j < rec.len()
        invariant
            j <= rec@.len(),
            data@ == seq![LEAF_TAG] + rec@.subrange(0, j as int),
        decreases rec@.len() - j,
    {
        data.push(rec[j]);
        proof {
            assert(rec@.subrange(0, j + 1) == rec@.subrange(0, j as int).push(rec@[j as int]));
        }
        j = j + 1;
    }
    proof {
        assert(rec@.subrange(0, rec@.len() as int) == rec@);
    }
    sha256(data.as_slice())
}

/// Combine two child digests into their parent digest; `a` is the left
/// child and `b` the right, and they are never swapped.
pub fn combine(a: &Vec<u8>, b: &Vec<u8>) -> (r: Vec<u8>)
    ensures
        r@ == combine_spec(a@, b@),
        r@.len() == 32,
{
    let mut data: Vec<u8> = Vec::new();
    data.push(NODE_TAG);
    let mut j: usize = 0;
    while j < a.len()
        invariant
            j <= a@.len(),
            data@ == seq![NODE_TAG] + a@.subrange(0, j as int),
        decreases a@.len() - j,
    {
        data.push(a[j]);
        proof {
            assert(a@.subrange(0, j + 1) == a@.subrange(0, j as int).push(a@[j as int]));
        }
        j = j + 1;
    }
    proof {
        assert(a@.subrange(0, a@.len() as int) == a@);
    }
    let mut k: usize = 0;
    while k < b.len()
        invariant
            k <= b@.len(),
            data@ == seq![NODE_TAG] + a@ + b@.subrange(0, k as int),
        decreases b@.len() - k,
    {
        data.push(b[k]);
        proof {
            assert(b@.subrange(0, k + 1) == b@.subrange(0, k as int).push(b@[k as int]));
        }
        k = k + 1;
    }
    proof {
        assert(b@.subrange(0, b@.len() as int) == b@);
    }
    sha256(data.as_slice())
}

/// Byte-for-byte equality of two digests.
pub fn digest_eq(a: &Vec<u8>, b: &Vec<u8>) -> (r: bool)
    ensures
        r == (a@ == b@),
{
    if a.len() != b.len() {
        proof {
            assert(a@ != b@);
        }
        return false;
    }
    let mut j: usize = 0;
    while j < a.len()
        invariant
            j <= a@.len(),
            a@.len() == b@.len(),
            forall|i: int| 0 <= i < j ==> a@[i] == b@[i],
        decreases a@.len() - j,
    {
        if a[j] != b[j] {
            proof {
                assert(a@[j as int] != b@[j as int]);
            }
            return false;
        }
        j = j + 1;
    }
    proof {
        assert(a@ =~= b@);
    }
    true
}

/// Copy a digest.
pub fn copy_digest(a: &Vec<u8>) -> (r: Vec<u8>)
    ensures
        r@ == a@,
{
    let mut out: Vec<u8> = Vec::new();
    let mut j: usize = 0;
    while j < a.len()
        invariant
            j <= a@.len(),
            out@ == a@.subrange(0, j as int),
        decreases a@.len() - j,
    {
        out.push(a[j]);
        proof {
            assert(a@.subrange(0, j + 1) == a@.subrange(0, j as int).push(a@[j as int]));
        }
        j = j + 1;
    }
    proof {
        assert(a@.subrange(0, a@.len() as int) == a@);
    }
    out
}

} // verus!
