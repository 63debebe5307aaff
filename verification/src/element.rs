//! The value stored at a leaf.
//!
//! A leaf holds an ordered sequence of field-element scalars; the tree only
//! ever reads each scalar's deterministic, fixed-width canonical byte
//! encoding, so an [`Element`] carries those encodings as plain byte strings.
//! A caller working with a concrete field type converts each scalar to its
//! canonical representation before building an `Element`.

use vstd::prelude::*;

use crate::digest::{element_digest, hash_scalars};

verus! {

/// An ordered sequence of canonical scalar encodings stored at one leaf.
#[derive(Clone, Debug)]
pub struct Element {
    /// One byte string per scalar, each the scalar's canonical encoding.
    pub value: Vec<Vec<u8>>,
}

impl View for Element {
    type V = Seq<Seq<u8>>;

    open spec fn view(&self) -> Seq<Seq<u8>> {
        self.value.deep_view()
    }
}

/// The canonical encoding of the zero scalar: 32 zero bytes.
pub open spec fn zero_scalar() -> Seq<u8> {
    Seq::new(32, |i: int| 0u8)
}

impl Default for Element {
    /// The canonical empty leaf value: a single zero scalar.
    fn default() -> (r: Self)
        ensures
            r@ == seq![zero_scalar()],
    {
        let mut z: Vec<u8> = Vec::new();
        for i in 0..32usize
            invariant
                z@ == Seq::new(i as nat, |j: int| 0u8),
        {
            z.push(0u8);
            proof {
                assert(z@ == Seq::new((i + 1) as nat, |j: int| 0u8));
            }
        }
        let mut value: Vec<Vec<u8>> = Vec::new();
        value.push(z);
        let r = Element { value };
        proof {
            assert(r@ =~~= seq![zero_scalar()]);
        }
        r
    }
}

impl Element {
    /// The content hash of this leaf value: the digest of the concatenation
    /// of its scalar encodings, in sequence order.
    pub fn compute_hash(&self) -> (r: Vec<u8>)
        ensures
            r@ == element_digest(self@),
            r@.len() == 32,
    {
        hash_scalars(&self.value)
    }
}

} // verus!
