//! Polynomials modulo `X^N + 1` with words as coefficients.

use crate::bits::{lemma_word_sub, word_sub};
use vstd::arithmetic::div_mod::*;
use vstd::prelude::*;

verus! {

/// Coefficient `i` of the polynomial `input` times `X^degree`, modulo
/// `X^N + 1`: a coefficient of the input moved up by the degree, with its sign
/// changed once for every time it passes the top.
pub open spec fn monomial_product_coefficient(input: Seq<u64>, degree: nat, i: int) -> nat {
    let n = input.len() as int;
    let r = degree as int % n;
    let odd = (degree as int / n) % 2 == 1;
    let source = if i < r {
        input[n - r + i]
    } else {
        input[i - r]
    };
    if (i < r) != odd {
        word_sub(0, source as nat)
    } else {
        source as nat
    }
}

/// Writes to `output` the polynomial `input * X^degree - input`, modulo
/// `X^N + 1` and with wrapping coefficients.
pub fn polynomial_wrapping_monic_monomial_mul_and_subtract(
    output: &mut Vec<u64>,
    input: &Vec<u64>,
    monomial_degree: usize,
)
    requires
        old(output).len() == input.len(),
        input.len() > 0,
    ensures
        final(output).len() == input.len(),
        forall|i: int|
            0 <= i < input.len() ==> #[trigger] final(output)[i] == word_sub(
                monomial_product_coefficient(input@, monomial_degree as nat, i),
                input[i] as nat,
            ),
{
    let polynomial_size = input.len();
    let remaining_degree = monomial_degree % polynomial_size;
    let full_cycles_count = monomial_degree / polynomial_size;
    let odd = full_cycles_count % 2 == 1;
    let mut i: usize = 0;
    while i < polynomial_size
        invariant
            i <= polynomial_size,
            polynomial_size == input.len(),
            output.len() == input.len(),
            remaining_degree == monomial_degree % polynomial_size,
            remaining_degree < polynomial_size,
            odd == ((monomial_degree as int / polynomial_size as int) % 2 == 1),
            forall|j: int|
                0 <= j < i ==> #[trigger] output[j] == word_sub(
                    monomial_product_coefficient(input@, monomial_degree as nat, j),
                    input[j] as nat,
                ),
        decreases polynomial_size - i,
    {
        let source = if i < remaining_degree {
            input[polynomial_size - remaining_degree + i]
        } else {
            input[i - remaining_degree]
        };
        let moved = if (i < remaining_degree) != odd {
            proof {
                lemma_word_sub(0, source);
            }
            0u64.wrapping_sub(source)
        } else {
            source
        };
        proof {
            lemma_word_sub(moved, input[i as int]);
        }
        output.set(i, moved.wrapping_sub(input[i]));
        i += 1;
    }
}

} // verus!
