//! Conversion of a numeric leaf index into a bit path.
//!
//! A leaf of a tree of height `h` is addressed by `h` booleans, most
//! significant bit first; `true` selects the right child at the next level
//! down. An index with more significant bits than the path is long keeps only
//! its low-order bits.

use vstd::arithmetic::div_mod::{lemma_div_denominator, lemma_fundamental_div_mod};
use vstd::arithmetic::power2::{lemma_pow2_pos, lemma_pow2_unfold, pow2};
use vstd::prelude::*;

verus! {

/// The `depth` low-order bits of `index`, most significant first.
pub open spec fn index_bits(depth: nat, index: nat) -> Seq<bool>
    decreases depth,
{
    if depth == 0 {
        Seq::empty()
    } else {
        index_bits((depth - 1) as nat, index / 2).push(index % 2 == 1)
    }
}

/// The index that a bit path denotes, reading the bits most significant
/// first.
pub open spec fn bits_to_index(bits: Seq<bool>) -> nat
    decreases bits.len(),
{
    if bits.len() == 0 {
        0
    } else {
        2 * bits_to_index(bits.drop_last()) + if bits.last() {
            1nat
        } else {
            0nat
        }
    }
}

/// Round trip: reading the `depth`-bit path of an index back as a number,
/// most significant bit first, recovers the index modulo 2^`depth`.
pub proof fn lemma_bits_round_trip(depth: nat, index: nat)
    ensures
        bits_to_index(index_bits(depth, index)) == index % pow2(depth),
    decreases depth,
{
    if depth == 0 {
        assert(pow2(0) == 1) by {
            vstd::arithmetic::power2::lemma2_to64();
        }
    } else {
        lemma_bits_round_trip((depth - 1) as nat, index / 2);
        let n = index as int;
        let p = pow2((depth - 1) as nat) as int;
        let q = n / 2;
        lemma_pow2_pos((depth - 1) as nat);
        lemma_pow2_unfold(depth);
        lemma_fundamental_div_mod(n, 2);
        lemma_fundamental_div_mod(q, p);
        lemma_fundamental_div_mod(n, 2 * p);
        lemma_div_denominator(n, 2, p);
        assert((2 * p) * (n / (2 * p)) == 2 * (p * (q / p))) by {
            assert(n / (2 * p) == q / p);
            assert((2 * p) * (q / p) == 2 * (p * (q / p))) by (nonlinear_arith);
        }
        assert(2 * (q % p) + n % 2 == n % (2 * p));
        let s = index_bits((depth - 1) as nat, index / 2);
        let b = index % 2 == 1;
        assert(s.push(b).drop_last() =~= s);
        assert(bits_to_index(index_bits(depth, index)) == 2 * bits_to_index(s) + if b {
            1nat
        } else {
            0nat
        });
        assert(bits_to_index(s) == q % p);
        assert((if b {
            1nat
        } else {
            0nat
        }) == n % 2);
        assert(index % pow2(depth) == n % (2 * p));
    }
}

/// Converts a leaf index into its `depth`-bit path, most significant bit
/// first. An index with more than `depth` significant bits is truncated to
/// its low-order `depth` bits.
pub fn convert_to_bits(depth: usize, index: u64) -> (r: Vec<bool>)
    ensures
        r@ == index_bits(depth as nat, index as nat),
        r@.len() == depth,
    decreases depth,
{
    if depth == 0 {
        Vec::new()
    } else {
        let mut r = convert_to_bits(depth - 1, index / 2);
        r.push(index % 2 == 1);
        r
    }
}

} // verus!
