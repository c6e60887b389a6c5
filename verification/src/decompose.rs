//! Closed-form decomposition of the grid sum `n²/2`.
//!
//! Summing the fraction pattern over an `n×n` grid gives `n²/2`. For
//! even `n` the terms pair off and the value is the integer `n²/2`;
//! for odd `n` an unpaired middle diagonal remains, and the value is
//! kept as the exact rational `n²` over `2` instead of being rounded.

use vstd::prelude::*;

verus! {

/// The decomposition of `n²/2` as a sequence: a single integer when
/// `n` is even, the pair (numerator, denominator) when `n` is odd.
pub open spec fn decomposition(n: u64) -> Seq<u64> {
    if n % 2 == 0 {
        seq![((n * n) / 2) as u64]
    } else {
        seq![(n * n) as u64, 2u64]
    }
}

/// Returns the decomposition of `n²/2`: `[n²/2]` for even `n`, and
/// the numerator/denominator pair `[n², 2]` for odd `n`.
pub fn decompose(n: u64) -> (r: Vec<u64>)
    requires
        n * n <= u64::MAX,
    ensures
        r@ == decomposition(n),
        n % 2 == 0 ==> r@.len() == 1 && r@[0] == (n * n) / 2,
        n % 2 != 0 ==> r@.len() == 2 && r@[0] == n * n && r@[1] == 2,
{
    let square: u64 = n * n;
    if n % 2 == 0 {
        let mut r: Vec<u64> = Vec::new();
        r.push(square / 2);
        proof {
            assert(r@ =~= decomposition(n));
        }
        r
    } else {
        let mut r: Vec<u64> = Vec::new();
        r.push(square);
        r.push(2);
        proof {
            assert(r@ =~= decomposition(n));
        }
        r
    }
}

/// The decomposition is a function of `n` alone: any two sequences
/// meeting `decompose`'s postcondition for the same `n` are identical,
/// so repeated calls return identical results.
pub proof fn lemma_decompose_deterministic(n: u64, r1: Seq<u64>, r2: Seq<u64>)
    requires
        r1 == decomposition(n),
        r2 == decomposition(n),
    ensures
        r1 == r2,
{
}

} // verus!
