//! Self-contained membership proofs.
//!
//! A [`Proof`] carries the sibling digests extracted for one leaf, in
//! root-to-leaf order, and nothing else: holding only a claimed root, a bit
//! path, a leaf value and the proof, a verifier can recompute the root the
//! proof speaks for, with no access to any live tree.

use vstd::prelude::*;

use crate::digest::{bytes_eq_slice, combine_hashes, element_digest};
use crate::element::Element;
use crate::tree::ascend;

verus! {

/// An ordered sibling path: one digest per tree level, nearest the root
/// first.
pub struct Proof {
    /// The sibling digests, in root-to-leaf order.
    pub sibling_hashes: Vec<Vec<u8>>,
}

impl Proof {
    /// Recomputes the root that this sibling path proves for `element` at
    /// the leaf the bit path addresses: folds from the leaf upward, placing
    /// the running digest on the side each bit selects, exactly as a tree
    /// update hashes the same path.
    pub fn calculate_root(&self, bits_index: Vec<bool>, element: &Element) -> (r: Vec<u8>)
        requires
            bits_index@.len() == self.sibling_hashes@.len(),
        ensures
            r@ == ascend(element_digest(element@), bits_index@, self.sibling_hashes.deep_view()),
            r@.len() == 32,
    {
        let ghost leaf = element_digest(element@);
        let ghost sdv = self.sibling_hashes.deep_view();
        let k = bits_index.len();
        let mut current = element.compute_hash();
        proof {
            assert(bits_index@.skip(k as int) =~= Seq::<bool>::empty());
            assert(sdv.skip(k as int) =~= Seq::<Seq<u8>>::empty());
        }
        let mut j: usize = 0;
        while j < k
            invariant
                j <= k,
                k == bits_index@.len(),
                k == self.sibling_hashes@.len(),
                sdv == self.sibling_hashes.deep_view(),
                current@ == ascend(leaf, bits_index@.skip((k - j) as int), sdv.skip((k - j) as int)),
                current@.len() == 32,
            decreases k - j,
        {
            let idx = k - 1 - j;
            let ghost suffix_bits = bits_index@.skip(idx as int);
            let ghost suffix_sibs = sdv.skip(idx as int);
            proof {
                assert(suffix_bits.first() == bits_index@[idx as int]);
                assert(suffix_bits.drop_first() =~= bits_index@.skip(idx + 1));
                assert(suffix_sibs.first() == sdv[idx as int]);
                assert(suffix_sibs.drop_first() =~= sdv.skip(idx + 1));
                assert(self.sibling_hashes@[idx as int].deep_view() =~= self.sibling_hashes@[
                    idx as int
                ]@);
            }
            let bit = bits_index[idx];
            let sibling = &self.sibling_hashes[idx];
            let next = if bit {
                combine_hashes(sibling, &current)
            } else {
                combine_hashes(&current, sibling)
            };
            current = next;
            j += 1;
            proof {
                assert(current@ == ascend(leaf, suffix_bits, suffix_sibs));
            }
        }
        proof {
            assert(bits_index@.skip(0) =~= bits_index@);
            assert(sdv.skip(0) =~= sdv);
        }
        current
    }

    /// Whether this sibling path proves that `element` sits at the leaf the
    /// bit path addresses under the claimed root: true exactly when the
    /// recomputed root equals `root_hash`. A false answer is the expected
    /// negative outcome of the protocol, not an error.
    pub fn validate(&self, bits_index: Vec<bool>, element: &Element, root_hash: &[u8]) -> (r:
        bool)
        requires
            bits_index@.len() == self.sibling_hashes@.len(),
        ensures
            r == (ascend(element_digest(element@), bits_index@, self.sibling_hashes.deep_view())
                == root_hash@),
    {
        let current = self.calculate_root(bits_index, element);
        bytes_eq_slice(current.as_slice(), root_hash)
    }
}

} // verus!
