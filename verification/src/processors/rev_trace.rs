//! The automorphisms of the reverse trace: one for every halving of the
//! polynomial size, from the automorphism `X -> X^3` up to `X -> X^(N + 1)`.

use crate::bits::pow2_u64;
use crate::operations::operation::{floor_log2, log2_floor};
use vstd::arithmetic::div_mod::*;
use vstd::arithmetic::power2::*;
use vstd::prelude::*;

verus! {

/// The exponent of automorphism `j` of the reverse trace for polynomials of
/// `n` coefficients.
pub open spec fn trace_exponent(n: nat, j: nat) -> nat {
    n / pow2((log2_floor(n) - 1 - j) as nat) + 1
}

/// The exponents of the automorphisms of the reverse trace, in the order in
/// which they are applied.
pub fn trace_key_indices(polynomial_size: usize) -> (indices: Vec<usize>)
    requires
        0 < polynomial_size < usize::MAX,
    ensures
        indices.len() == log2_floor(polynomial_size as nat),
        forall|j: int|
            0 <= j < indices.len() ==> #[trigger] indices[j] == trace_exponent(
                polynomial_size as nat,
                j as nat,
            ),
{
    let log_polynomial_size = floor_log2(polynomial_size);
    let mut indices: Vec<usize> = Vec::with_capacity(log_polynomial_size);
    let mut i = log_polynomial_size;
    while i > 0
        invariant
            i <= log_polynomial_size,
            log_polynomial_size == log2_floor(polynomial_size as nat),
            log_polynomial_size < usize::BITS,
            0 < polynomial_size < usize::MAX,
            indices.len() == log_polynomial_size - i,
            forall|j: int|
                0 <= j < indices.len() ==> #[trigger] indices[j] == trace_exponent(
                    polynomial_size as nat,
                    j as nat,
                ),
        decreases i,
    {
        proof {
            vstd::bits::lemma_usize_pow2_no_overflow((i - 1) as nat);
            lemma_pow2_pos((i - 1) as nat);
            lemma_div_is_ordered_by_denominator(
                polynomial_size as int,
                1,
                pow2((i - 1) as nat) as int,
            );
        }
        let step = pow2_u64((i - 1) as u64) as usize;
        let k = polynomial_size / step + 1;
        indices.push(k);
        i -= 1;
    }
    indices
}

} // verus!
