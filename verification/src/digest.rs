//! The hashing primitive and its mathematical model.
//!
//! Every node identifier in the tree is the 32-byte digest of a byte string.
//! The digest itself is supplied by an outside hash implementation; its value
//! is modelled by the uninterpreted function [`digest_of`], of which the
//! contracts state only what the hash's documentation promises: the result
//! depends on the input bytes alone and is always 32 bytes long.

use sha2::Digest;
use vstd::prelude::*;

verus! {

/// The digest of a byte string, as the hash primitive computes it.
pub uninterp spec fn digest_of(input: Seq<u8>) -> Seq<u8>;

/// The digest of an internal node: the hash of the concatenation of its two
/// child digests, left first.
pub open spec fn combine(left: Seq<u8>, right: Seq<u8>) -> Seq<u8> {
    digest_of(left + right)
}

/// The concatenation of a sequence of scalar encodings, in sequence order.
pub open spec fn concat_scalars(scalars: Seq<Seq<u8>>) -> Seq<u8>
    decreases scalars.len(),
{
    if scalars.len() == 0 {
        Seq::empty()
    } else {
        concat_scalars(scalars.drop_last()) + scalars.last()
    }
}

/// The content hash of a leaf value: the digest of its concatenated scalar
/// encodings.
pub open spec fn element_digest(scalars: Seq<Seq<u8>>) -> Seq<u8> {
    digest_of(concat_scalars(scalars))
}

/// Relies on `sha2::Sha256` (through the `Digest` trait): the digest is a
/// function of the input bytes alone, and is always 32 bytes long.
#[verifier::external_body]
fn sha256(input: &[u8]) -> (r: Vec<u8>)
    ensures
        r@ == digest_of(input@),
        r@.len() == 32,
{
    sha2::Sha256::digest(input).to_vec()
}

/// Appends all of `src` to `dst`.
fn append_bytes(dst: &mut Vec<u8>, src: &Vec<u8>)
    ensures
        final(dst)@ == old(dst)@ + src@,
{
    let n = src.len();
    for i in 0..n
        invariant
            n == src@.len(),
            dst@ == old(dst)@ + src@.subrange(0, i as int),
    {
        dst.push(src[i]);
        proof {
            assert(src@.subrange(0, i + 1) == src@.subrange(0, i as int).push(src@[i as int]));
        }
    }
    proof {
        assert(src@.subrange(0, n as int) == src@);
    }
}

/// Compares two byte vectors for equality.
pub fn bytes_eq(a: &Vec<u8>, b: &Vec<u8>) -> (r: bool)
    ensures
        r == (a@ == b@),
{
    bytes_eq_slice(a.as_slice(), b.as_slice())
}

/// Compares two byte strings for equality.
pub fn bytes_eq_slice(a: &[u8], b: &[u8]) -> (r: bool)
    ensures
        r == (a@ == b@),
{
    if a.len() != b.len() {
        return false;
    }
    let n = a.len();
    for i in 0..n
        invariant
            n == a@.len(),
            n == b@.len(),
            forall|j: int| 0 <= j < i ==> a@[j] == b@[j],
    {
        if a[i] != b[i] {
            return false;
        }
    }
    proof {
        assert(a@ =~= b@);
    }
    true
}

/// Hashes the concatenation of two digests, producing the digest of the
/// internal node whose children they are.
pub fn combine_hashes(left: &Vec<u8>, right: &Vec<u8>) -> (r: Vec<u8>)
    ensures
        r@ == combine(left@, right@),
        r@.len() == 32,
{
    let mut buf: Vec<u8> = Vec::new();
    append_bytes(&mut buf, left);
    append_bytes(&mut buf, right);
    sha256(buf.as_slice())
}

/// Hashes the concatenation of a sequence of scalar encodings.
pub fn hash_scalars(scalars: &Vec<Vec<u8>>) -> (r: Vec<u8>)
    ensures
        r@ == element_digest(scalars.deep_view()),
        r@.len() == 32,
{
    let mut buf: Vec<u8> = Vec::new();
    let n = scalars.len();
    for i in 0..n
        invariant
            n == scalars@.len(),
            buf@ == concat_scalars(scalars.deep_view().subrange(0, i as int)),
    {
        append_bytes(&mut buf, &scalars[i]);
        proof {
            let dv = scalars.deep_view();
            assert(dv.subrange(0, i + 1).drop_last() == dv.subrange(0, i as int));
            assert(dv.subrange(0, i + 1).last() == scalars@[i as int]@);
        }
    }
    proof {
        assert(scalars.deep_view().subrange(0, n as int) == scalars.deep_view());
    }
    sha256(buf.as_slice())
}

} // verus!
