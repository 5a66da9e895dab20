//! Extraction of sub-byte fields from a byte by explicit bit positions.

use vstd::arithmetic::power2::{
    lemma2_to64, lemma_pow2_strictly_increases, lemma_pow2_unfold, pow2,
};
use vstd::prelude::*;

verus! {

/// The bit of `byte` at `pos`, where position 0 is the least significant.
pub open spec fn bit_at(byte: u8, pos: u8) -> u8 {
    (byte >> pos) & 1
}

/// The number spelled by the bits of `byte` at `positions`, the first
/// position giving the most significant bit of the result.
pub open spec fn bits_value(byte: u8, positions: Seq<u8>) -> int
    decreases positions.len(),
{
    if positions.len() == 0 {
        0
    } else {
        2 * bits_value(byte, positions.drop_last()) + bit_at(byte, positions.last())
    }
}

/// A field of `n` bits is a number below `2^n`.
pub proof fn lemma_bits_value_bound(byte: u8, positions: Seq<u8>)
    ensures
        0 <= bits_value(byte, positions) < pow2(positions.len()),
    decreases positions.len(),
{
    if positions.len() == 0 {
        lemma2_to64();
    } else {
        lemma_bits_value_bound(byte, positions.drop_last());
        let b = byte;
        let p = positions.last();
        assert((b >> p) & 1 <= 1) by (bit_vector);
        lemma_pow2_unfold(positions.len());
    }
}

/// Reads the bits of `byte` at `positions` as one number.
pub fn get_bits_value(byte: u8, positions: &[u8]) -> (value: u8)
    requires
        positions@.len() <= 8,
        forall|i: int| 0 <= i < positions@.len() ==> positions@[i] < 8,
    ensures
        value == bits_value(byte, positions@),
{
    let mut value: u8 = 0;
    let mut i: usize = 0;
    while i < positions.len()
        invariant
            i <= positions@.len() <= 8,
            forall|k: int| 0 <= k < positions@.len() ==> positions@[k] < 8,
            value == bits_value(byte, positions@.take(i as int)),
        decreases positions@.len() - i,
    {
        let pos = positions[i];
        let bit = (byte >> pos) & 1;
        proof {
            let done = positions@.take(i as int);
            lemma_bits_value_bound(byte, done);
            lemma2_to64();
            assert(pow2(done.len()) <= 128) by {
                lemma_pow2_strictly_increases(done.len(), 8);
                if done.len() < 7 {
                    lemma_pow2_strictly_increases(done.len(), 7);
                }
            }
            assert(positions@.take(i + 1).drop_last() == done);
            assert(bit <= 1) by (bit_vector)
                requires
                    bit == (byte >> pos) & 1,
            ;
            let v = value;
            assert((v << 1) | bit == 2 * v + bit) by (bit_vector)
                requires
                    v < 128,
                    bit <= 1,
            ;
        }
        value = (value << 1) | bit;
        i += 1;
    }
    proof {
        assert(positions@.take(i as int) == positions@);
    }
    value
}

} // verus!
