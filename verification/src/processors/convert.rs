//! What the conversion of a rotated accumulator into an encrypted selector
//! bit decides: which monomial multiples of the accumulator are added up
//! before the sample is extracted, and the offset that moves the extracted
//! sign to a binary digit.
//!
//! Selector bit `i` of a chunk, the most significant first, is the parity of
//! the chunk's first `i + 1` digits. The accumulator holds the sign pattern
//! of the first digit; the parities of more digits are sums of its monomial
//! multiples.

use crate::bits::pow2_u64;
use vstd::arithmetic::mul::*;
use vstd::arithmetic::power2::*;
use vstd::prelude::*;

verus! {

/// One monomial multiple in a sum: the degree of the monomial, and whether
/// the multiple is subtracted.
#[derive(Debug, Clone, Copy, PartialEq, Eq, Structural)]
pub struct Term {
    pub degree: usize,
    pub subtract: bool,
}

/// A term that is added.
pub open spec fn plus(degree: nat) -> Term {
    Term { degree: degree as usize, subtract: false }
}

/// A term that is subtracted.
pub open spec fn minus(degree: nat) -> Term {
    Term { degree: degree as usize, subtract: true }
}

/// The sum for selector bit `bit_idx_from_msb` of a chunk of four digits,
/// for polynomials of `n` coefficients.
pub open spec fn extraction_pattern(bit_idx_from_msb: nat, n: nat) -> Seq<Term> {
    if bit_idx_from_msb == 0 {
        seq![plus(0)]
    } else if bit_idx_from_msb == 1 {
        seq![plus(3 * (n / 2))]
    } else if bit_idx_from_msb == 2 {
        seq![plus(0), plus(5 * (n / 4)), minus(7 * (n / 4))]
    } else {
        seq![
            plus(3 * (n / 8)),
            minus(7 * (n / 8)),
            plus(9 * (n / 8)),
            plus(12 * (n / 8)),
            minus(13 * (n / 8)),
        ]
    }
}

/// The monomial multiples of the accumulator that make up selector bit
/// `bit_idx_from_msb`, in the order in which they are added up.
pub fn extraction_terms(bit_idx_from_msb: usize, polynomial_size: usize) -> (terms: Vec<Term>)
    requires
        bit_idx_from_msb <= 3,
        polynomial_size <= usize::MAX / 2,
    ensures
        terms@ == extraction_pattern(bit_idx_from_msb as nat, polynomial_size as nat),
{
    let mut terms: Vec<Term> = Vec::new();
    if bit_idx_from_msb == 0 {
        terms.push(Term { degree: 0, subtract: false });
    } else if bit_idx_from_msb == 1 {
        let unit = polynomial_size / 2;
        terms.push(Term { degree: 3 * unit, subtract: false });
    } else if bit_idx_from_msb == 2 {
        let unit = polynomial_size / 4;
        terms.push(Term { degree: 0, subtract: false });
        terms.push(Term { degree: 5 * unit, subtract: false });
        terms.push(Term { degree: 7 * unit, subtract: true });
    } else {
        let unit = polynomial_size / 8;
        terms.push(Term { degree: 3 * unit, subtract: false });
        terms.push(Term { degree: 7 * unit, subtract: true });
        terms.push(Term { degree: 9 * unit, subtract: false });
        terms.push(Term { degree: 12 * unit, subtract: false });
        terms.push(Term { degree: 13 * unit, subtract: true });
    }
    proof {
        assert(terms@ =~= extraction_pattern(bit_idx_from_msb as nat, polynomial_size as nat));
    }
    terms
}

/// The offset that is added to the sample extracted for level `cur_level`,
/// the first level being level one: half the scale of the level, which moves
/// minus and plus half the scale to zero and the scale.
pub fn scale_offset(cur_level: usize, cbs_base_log: usize) -> (offset: u64)
    requires
        cur_level * cbs_base_log <= 63,
    ensures
        offset == pow2((63 - cur_level * cbs_base_log) as nat),
{
    proof {
        lemma_mul_nonnegative(cur_level as int, cbs_base_log as int);
    }
    let log_scale = 64 - cur_level * cbs_base_log;
    pow2_u64((log_scale - 1) as u64)
}

} // verus!
