//! The blind rotation of a bootstrapping that yields several levels at
//! once: the accumulator that holds the scaled sign pattern for a group of
//! levels, and its rotation by a ciphertext that has been switched to
//! monomial degrees.
//!
//! The bootstrapping key is held as a list of encrypted bits, one for every
//! word of the small key.

use crate::bits::{lemma_word_sub, pow2_u64, word_sub};
use crate::ciphertext::{trivial_encryption, trivial_glwe};
use crate::primitives::{
    external_product_value,
    external_product_add, fft_size, monomial_div, monomial_quotient_coefficient, selector_count,
    selector_glwe_size, selector_polynomial_size, steers, SelectorBits,
};
use crate::utils::tools::{
    monomial_product_coefficient, polynomial_wrapping_monic_monomial_mul_and_subtract,
};
use tfhe::core_crypto::prelude::Fft;
use vstd::arithmetic::div_mod::*;
use vstd::arithmetic::mul::*;
use vstd::arithmetic::power2::*;
use vstd::prelude::*;

verus! {

/// How many accumulators the levels need: one for every `lut_count` levels,
/// the last for those that are left.
pub open spec fn accumulator_count(cbs_level: nat, lut_count: nat) -> nat {
    (cbs_level + lut_count - 1) as nat / lut_count
}

/// The level that place `i` of accumulator `acc_idx` serves, the first level
/// being level one: the places take the levels of the group in turn.
pub open spec fn accumulator_level(acc_idx: nat, lut_count: nat, i: nat) -> nat {
    acc_idx * lut_count + i % lut_count + 1
}

/// Coefficient `j` of accumulator `acc_idx`: half the scale of the level of
/// its place, positive in the first half box and negative elsewhere, the
/// whole turned left by half a box.
pub open spec fn accumulator_word(
    acc_idx: nat,
    lut_count: nat,
    base_log: nat,
    half_box: nat,
    n: nat,
    j: int,
) -> nat {
    let i = ((j + half_box) % (n as int)) as nat;
    let unit = pow2((63 - accumulator_level(acc_idx, lut_count, i) * base_log) as nat);
    if i < half_box {
        unit
    } else {
        word_sub(0, unit)
    }
}

/// The plaintext polynomial of accumulator `acc_idx`.
pub open spec fn accumulator_polynomial(
    acc_idx: nat,
    lut_count: nat,
    base_log: nat,
    half_box: nat,
    n: nat,
) -> Seq<u64> {
    Seq::new(n, |j: int| accumulator_word(acc_idx, lut_count, base_log, half_box, n, j) as u64)
}

/// The levels of accumulator `acc_idx` that a polynomial of `n` coefficients
/// has places for leave at least one digit of the word.
pub open spec fn accumulator_fits(acc_idx: nat, lut_count: nat, base_log: nat, n: nat) -> bool {
    let used = if n < lut_count {
        n
    } else {
        lut_count
    };
    &&& lut_count > 0
    &&& acc_idx * lut_count + lut_count <= usize::MAX
    &&& (acc_idx * lut_count + used) * base_log <= 63
}

/// The plaintext polynomial of accumulator `acc_idx`.
pub fn many_lut_accumulator(
    acc_idx: usize,
    lut_count: usize,
    cbs_base_log: usize,
    polynomial_size: usize,
    half_box_size: usize,
) -> (accumulator: Vec<u64>)
    requires
        half_box_size <= polynomial_size,
        accumulator_fits(
            acc_idx as nat,
            lut_count as nat,
            cbs_base_log as nat,
            polynomial_size as nat,
        ),
    ensures
        accumulator.len() == polynomial_size,
        forall|j: int|
            0 <= j < polynomial_size ==> #[trigger] accumulator[j] == accumulator_word(
                acc_idx as nat,
                lut_count as nat,
                cbs_base_log as nat,
                half_box_size as nat,
                polynomial_size as nat,
                j,
            ),
{
    let mut accumulator: Vec<u64> = Vec::with_capacity(polynomial_size);
    proof {
        lemma_mul_nonnegative(acc_idx as int, lut_count as int);
    }
    let first = acc_idx * lut_count;
    let mut j: usize = 0;
    while j < polynomial_size
        invariant
            j <= polynomial_size,
            half_box_size <= polynomial_size,
            first == acc_idx * lut_count,
            accumulator_fits(
                acc_idx as nat,
                lut_count as nat,
                cbs_base_log as nat,
                polynomial_size as nat,
            ),
            accumulator.len() == j,
            forall|t: int|
                0 <= t < j ==> #[trigger] accumulator[t] == accumulator_word(
                    acc_idx as nat,
                    lut_count as nat,
                    cbs_base_log as nat,
                    half_box_size as nat,
                    polynomial_size as nat,
                    t,
                ),
        decreases polynomial_size - j,
    {
        let i = if j < polynomial_size - half_box_size {
            j + half_box_size
        } else {
            j - (polynomial_size - half_box_size)
        };
        let k = i % lut_count;
        proof {
            if j < polynomial_size - half_box_size {
                lemma_small_mod(i as nat, polynomial_size as nat);
            } else {
                lemma_fundamental_div_mod_converse(
                    j + half_box_size,
                    polynomial_size as int,
                    1,
                    i as int,
                );
            }
            lemma_mod_bound(i as int, lut_count as int);
            if polynomial_size < lut_count {
                lemma_small_mod(i as nat, lut_count as nat);
            }
            let used: int = if polynomial_size < lut_count {
                polynomial_size as int
            } else {
                lut_count as int
            };
            lemma_mul_inequality(first + k + 1, first + used, cbs_base_log as int);
        }
        let level = first + k + 1;
        let shift = 63 - level * cbs_base_log;
        let unit = pow2_u64(shift as u64);
        let word = if i < half_box_size {
            unit
        } else {
            proof {
                lemma_word_sub(0, unit);
            }
            0u64.wrapping_sub(unit)
        };
        accumulator.push(word);
        j += 1;
    }
    accumulator
}

/// Polynomial `p` of a ciphertext whose polynomials have `n` coefficients.
fn polynomial_of(glwe: &Vec<u64>, p: usize, n: usize) -> (poly: Vec<u64>)
    requires
        p * n + n <= glwe.len(),
    ensures
        poly@ == glwe@.subrange(p * n, p * n + n),
{
    proof {
        lemma_mul_nonnegative(p as int, n as int);
    }
    let start = p * n;
    let mut poly: Vec<u64> = Vec::with_capacity(n);
    let mut i: usize = 0;
    while i < n
        invariant
            i <= n,
            start + n <= glwe.len(),
            poly@ == glwe@.subrange(start as int, start + i),
        decreases n - i,
    {
        poly.push(glwe[start + i]);
        proof {
            assert(poly@ =~= glwe@.subrange(start as int, start + i + 1));
        }
        i += 1;
    }
    poly
}

/// Writes polynomial `p` of a ciphertext.
fn put_polynomial(glwe: &mut Vec<u64>, p: usize, poly: &Vec<u64>)
    requires
        p * poly.len() + poly.len() <= old(glwe).len(),
    ensures
        final(glwe).len() == old(glwe).len(),
        forall|i: int|
            0 <= i < final(glwe).len() ==> #[trigger] final(glwe)[i] == (if p * poly.len() <= i < p
                * poly.len() + poly.len() {
                poly[i - p * poly.len()]
            } else {
                old(glwe)[i]
            }),
{
    proof {
        lemma_mul_nonnegative(p as int, poly.len() as int);
    }
    let n = poly.len();
    let start = p * n;
    let mut i: usize = 0;
    while i < n
        invariant
            i <= n,
            n == poly.len(),
            start == p * n,
            start + n <= glwe.len(),
            glwe.len() == old(glwe).len(),
            forall|t: int|
                0 <= t < glwe.len() ==> #[trigger] glwe[t] == (if start <= t < start + i {
                    poly[t - start]
                } else {
                    old(glwe)[t]
                }),
        decreases n - i,
    {
        glwe.set(start + i, poly[i]);
        i += 1;
    }
}

/// Word `i` of a ciphertext whose polynomials, of `n` coefficients each,
/// have all been divided by `X^degree`.
pub open spec fn divided_word(glwe: Seq<u64>, n: nat, degree: nat, i: int) -> nat {
    let p = i / (n as int);
    monomial_quotient_coefficient(glwe.subrange(p * n, p * n + n), degree, i % (n as int))
}

/// Whether the key can rotate a ciphertext of `glwe_len` words with the
/// plan `fft`.
pub fn can_rotate(bsk: &SelectorBits, fft: &Fft, glwe_len: usize) -> (ok: bool)
    ensures
        ok == steers(*bsk, *fft, glwe_len as nat),
{
    let n = bsk.polynomial_size();
    let size = bsk.glwe_size();
    if n == 0 || n % 8 != 0 || size == 0 || fft_size(fft) != n || bsk.base_log() == 0
        || bsk.level_count() == 0 {
        return false;
    }
    let fits = match size.checked_mul(n) {
        Some(len) => len == glwe_len,
        None => false,
    };
    let digits = match bsk.base_log().checked_mul(bsk.level_count()) {
        Some(d) => d < 64,
        None => false,
    };
    fits && digits
}

/// A ciphertext whose polynomials, of `n` coefficients each, have all been
/// divided by `X^degree`.
pub open spec fn divided(glwe: Seq<u64>, n: nat, degree: nat) -> Seq<u64> {
    Seq::new(glwe.len(), |i: int| divided_word(glwe, n, degree, i) as u64)
}

/// Word `i` of a ciphertext times `X^degree` less the ciphertext, polynomial
/// by polynomial.
pub open spec fn moved_less_itself_word(glwe: Seq<u64>, n: nat, degree: nat, i: int) -> nat {
    let p = i / (n as int);
    word_sub(
        monomial_product_coefficient(glwe.subrange(p * n, p * n + n), degree, i % (n as int)),
        glwe[i] as nat,
    )
}

/// A ciphertext times `X^degree` less the ciphertext, polynomial by
/// polynomial.
pub open spec fn moved_less_itself(glwe: Seq<u64>, n: nat, degree: nat) -> Seq<u64> {
    Seq::new(glwe.len(), |i: int| moved_less_itself_word(glwe, n, degree, i) as u64)
}

/// The accumulator after the first `steps` mask degrees: the accumulator
/// divided by `X^body`, and then for every mask degree in turn the external
/// product of the encrypted key bit with the accumulator times the monomial
/// of that degree less the accumulator, added to the accumulator.
pub open spec fn rotated(
    lut: Seq<u64>,
    body: nat,
    mask: Seq<usize>,
    bsk: SelectorBits,
    fft: Fft,
    steps: nat,
) -> Seq<u64>
    decreases steps,
{
    let n = selector_polynomial_size(bsk);
    if steps == 0 {
        divided(lut, n, body)
    } else {
        let before = rotated(lut, body, mask, bsk, fft, (steps - 1) as nat);
        external_product_value(
            before,
            bsk,
            (steps - 1) as nat,
            moved_less_itself(before, n, mask[steps - 1] as nat),
            fft,
        )
    }
}

/// How many mask degrees a rotation goes through: those that the key has a
/// bit for.
pub open spec fn rotation_steps(mask: Seq<usize>, bsk: SelectorBits) -> nat {
    if mask.len() < selector_count(bsk) {
        mask.len()
    } else {
        selector_count(bsk)
    }
}

/// Rotates an accumulator by a ciphertext that has been switched to
/// monomial degrees: every polynomial is divided by `X^body`, and then, for
/// every mask degree that the key has a bit for, the accumulator times the
/// monomial of that degree less the accumulator is multiplied by the
/// encrypted key bit and added to the accumulator.
pub fn blind_rotate_local_assign_after_ms(
    body: usize,
    mask: &Vec<usize>,
    bsk: &SelectorBits,
    lut: &mut Vec<u64>,
    fft: &Fft,
)
    requires
        steers(*bsk, *fft, old(lut).len() as nat),
    ensures
        final(lut).len() == old(lut).len(),
        final(lut)@ == rotated(
            old(lut)@,
            body as nat,
            mask@,
            *bsk,
            *fft,
            rotation_steps(mask@, *bsk),
        ),
{
    let n = bsk.polynomial_size();
    let size = bsk.glwe_size();
    let ghost start = lut@;
    let mut p: usize = 0;
    while p < size
        invariant
            p <= size,
            n > 0,
            lut.len() == size * n,
            lut.len() == start.len(),
            forall|i: int|
                0 <= i < p * n ==> #[trigger] lut[i] == divided_word(start, n as nat, body as nat, i),
            forall|i: int| p * n <= i < lut.len() ==> #[trigger] lut[i] == start[i],
        decreases size - p,
    {
        proof {
            lemma_mul_inequality((p + 1) as int, size as int, n as int);
            lemma_mul_is_distributive_add_other_way(n as int, p as int, 1);
            lemma_mul_nonnegative(p as int, n as int);
        }
        let poly = polynomial_of(lut, p, n);
        let quotient = monomial_div(&poly, body);
        let ghost before = lut@;
        put_polynomial(lut, p, &quotient);
        proof {
            assert(poly@ =~= start.subrange(p * n, p * n + n));
            assert forall|i: int| 0 <= i < (p + 1) * n implies #[trigger] lut[i] == divided_word(
                start,
                n as nat,
                body as nat,
                i,
            ) by {
                if i >= p * n {
                    lemma_fundamental_div_mod_converse(i, n as int, p as int, i - p * n);
                    assert(lut[i] == quotient[i - p * n]);
                } else {
                    assert(lut[i] == before[i]);
                }
            }
        }
        p += 1;
    }
    proof {
        assert(lut@ =~= divided(start, n as nat, body as nat));
    }
    let count = bsk.count();
    let steps = if mask.len() < count {
        mask.len()
    } else {
        count
    };
    let mut ct1: Vec<u64> = vec![0u64; lut.len()];
    let mut k: usize = 0;
    while k < steps
        invariant
            k <= steps,
            steps <= mask.len(),
            steps <= selector_count(*bsk),
            n > 0,
            n == selector_polynomial_size(*bsk),
            size == selector_glwe_size(*bsk),
            lut.len() == size * n,
            ct1.len() == lut.len(),
            lut.len() == start.len(),
            steers(*bsk, *fft, lut.len() as nat),
            lut@ == rotated(start, body as nat, mask@, *bsk, *fft, k as nat),
        decreases steps - k,
    {
        let ghost held = lut@;
        let mut p: usize = 0;
        while p < size
            invariant
                p <= size,
                n > 0,
                lut.len() == size * n,
                ct1.len() == lut.len(),
                k < mask.len(),
                lut@ == held,
                forall|i: int|
                    0 <= i < p * n ==> #[trigger] ct1[i] == moved_less_itself_word(
                        held,
                        n as nat,
                        mask[k as int] as nat,
                        i,
                    ),
            decreases size - p,
        {
            proof {
                lemma_mul_inequality((p + 1) as int, size as int, n as int);
                lemma_mul_is_distributive_add_other_way(n as int, p as int, 1);
                lemma_mul_nonnegative(p as int, n as int);
            }
            let poly = polynomial_of(lut, p, n);
            let mut moved: Vec<u64> = vec![0u64; n];
            polynomial_wrapping_monic_monomial_mul_and_subtract(&mut moved, &poly, mask[k]);
            let ghost earlier = ct1@;
            put_polynomial(&mut ct1, p, &moved);
            proof {
                assert forall|i: int| 0 <= i < (p + 1) * n implies #[trigger] ct1[i]
                    == moved_less_itself_word(held, n as nat, mask[k as int] as nat, i) by {
                    if i >= p * n {
                        lemma_fundamental_div_mod_converse(i, n as int, p as int, i - p * n);
                        assert(ct1[i] == moved[i - p * n]);
                        assert(poly@[i - p * n] == held[i]);
                    } else {
                        assert(ct1[i] == earlier[i]);
                    }
                }
            }
            p += 1;
        }
        proof {
            assert(ct1@ =~= moved_less_itself(held, n as nat, mask[k as int] as nat));
        }
        let sum = external_product_add(lut, bsk, k, &ct1, fft);
        *lut = sum;
        k += 1;
    }
}

/// What `pbs_many_lut_after_ms_before_extract` asks: a key that can rotate
/// with the plan, a box size and a count of levels per accumulator that can
/// be computed, and levels that all leave a digit of the word.
pub open spec fn rotation_fits(
    bsk: SelectorBits,
    fft: Fft,
    log_lut_count: nat,
    cbs_base_log: nat,
    cbs_level: nat,
    num_extract_bits: nat,
) -> bool {
    let n = selector_polynomial_size(bsk);
    let lut_count = pow2(log_lut_count);
    let groups = accumulator_count(cbs_level, lut_count);
    &&& steers(bsk, fft, selector_glwe_size(bsk) * n)
    &&& selector_glwe_size(bsk) * n <= usize::MAX
    &&& log_lut_count < usize::BITS
    &&& num_extract_bits + 1 < usize::BITS
    &&& cbs_level + lut_count <= usize::MAX
    &&& forall|g: nat| g < groups ==> #[trigger] accumulator_fits(g, lut_count, cbs_base_log, n)
}

/// The accumulators before a group all fit where the group's does.
proof fn lemma_accumulator_fits_below(g: nat, last: nat, lut_count: nat, base_log: nat, n: nat)
    requires
        g <= last,
        accumulator_fits(last, lut_count, base_log, n),
    ensures
        accumulator_fits(g, lut_count, base_log, n),
{
    let used: nat = if n < lut_count {
        n
    } else {
        lut_count
    };
    lemma_mul_inequality(g as int, last as int, lut_count as int);
    lemma_mul_inequality(
        (g * lut_count + used) as int,
        (last * lut_count + used) as int,
        base_log as int,
    );
}

/// Whether the accumulators can be made and rotated.
pub fn can_run_rotation(
    fourier_bsk: &SelectorBits,
    fft: &Fft,
    log_lut_count: usize,
    cbs_base_log: usize,
    cbs_level: usize,
    num_extract_bits: usize,
) -> (ok: bool)
    ensures
        ok == rotation_fits(
            *fourier_bsk,
            *fft,
            log_lut_count as nat,
            cbs_base_log as nat,
            cbs_level as nat,
            num_extract_bits as nat,
        ),
{
    let n = fourier_bsk.polynomial_size();
    let size = fourier_bsk.glwe_size();
    let len = match size.checked_mul(n) {
        Some(len) => len,
        None => {
            return false;
        },
    };
    if !can_rotate(fourier_bsk, fft, len) || log_lut_count >= usize::BITS as usize
        || num_extract_bits >= usize::BITS as usize - 1 {
        return false;
    }
    proof {
        vstd::bits::lemma_usize_pow2_no_overflow(log_lut_count as nat);
        lemma_pow2_pos(log_lut_count as nat);
    }
    let lut_count = pow2_u64(log_lut_count as u64) as usize;
    if cbs_level > usize::MAX - lut_count {
        return false;
    }
    let groups = (cbs_level + lut_count - 1) / lut_count;
    if groups == 0 {
        return true;
    }
    let last = groups - 1;
    let used = if n < lut_count {
        n
    } else {
        lut_count
    };
    proof {
        lemma_fundamental_div_mod((cbs_level + lut_count - 1) as int, lut_count as int);
        lemma_mul_is_commutative(lut_count as int, groups as int);
        lemma_mul_is_distributive_add_other_way(lut_count as int, last as int, 1);
        lemma_mul_nonnegative(last as int, lut_count as int);
    }
    let total = last * lut_count + used;
    let ok = match total.checked_mul(cbs_base_log) {
        Some(digits) => digits <= 63,
        None => false,
    };
    proof {
        if ok {
            assert forall|g: nat| g < groups implies #[trigger] accumulator_fits(
                g,
                lut_count as nat,
                cbs_base_log as nat,
                n as nat,
            ) by {
                lemma_accumulator_fits_below(
                    g,
                    last as nat,
                    lut_count as nat,
                    cbs_base_log as nat,
                    n as nat,
                );
            }
        } else {
            assert(!accumulator_fits(
                last as nat,
                lut_count as nat,
                cbs_base_log as nat,
                n as nat,
            ));
        }
    }
    ok
}

/// The accumulators of a bootstrapping that yields `cbs_level` levels,
/// `2^log_lut_count` of them from one rotation: for every group of levels its
/// accumulator, trivially encrypted and rotated by the switched ciphertext.
/// The ciphertext of a level is the accumulator of its group divided by the
/// monomial whose degree is the level's place in the group.
pub fn pbs_many_lut_after_ms_before_extract(
    body: usize,
    mask: &Vec<usize>,
    fourier_bsk: &SelectorBits,
    fft: &Fft,
    log_lut_count: usize,
    cbs_base_log: usize,
    cbs_level: usize,
    num_extract_bits: usize,
) -> (accumulators: Vec<Vec<u64>>)
    requires
        rotation_fits(
            *fourier_bsk,
            *fft,
            log_lut_count as nat,
            cbs_base_log as nat,
            cbs_level as nat,
            num_extract_bits as nat,
        ),
    ensures
        accumulators.len() == accumulator_count(cbs_level as nat, pow2(log_lut_count as nat)),
        forall|g: int|
            0 <= g < accumulators.len() ==> (#[trigger] accumulators[g]).len()
                == selector_glwe_size(*fourier_bsk) * selector_polynomial_size(*fourier_bsk),
        forall|g: int|
            0 <= g < accumulators.len() ==> (#[trigger] accumulators[g])@ == rotated(
                trivial_encryption(
                    accumulator_polynomial(
                        g as nat,
                        pow2(log_lut_count as nat),
                        cbs_base_log as nat,
                        selector_polynomial_size(*fourier_bsk) / pow2((num_extract_bits + 1) as nat),
                        selector_polynomial_size(*fourier_bsk),
                    ),
                    selector_glwe_size(*fourier_bsk),
                ),
                body as nat,
                mask@,
                *fourier_bsk,
                *fft,
                rotation_steps(mask@, *fourier_bsk),
            ),
{
    let polynomial_size = fourier_bsk.polynomial_size();
    let glwe_size = fourier_bsk.glwe_size();
    proof {
        vstd::bits::lemma_usize_pow2_no_overflow(log_lut_count as nat);
        vstd::bits::lemma_usize_pow2_no_overflow((num_extract_bits + 1) as nat);
        lemma_pow2_pos(log_lut_count as nat);
        lemma_pow2_pos((num_extract_bits + 1) as nat);
    }
    let box_size = pow2_u64((num_extract_bits + 1) as u64) as usize;
    let half_box_size = polynomial_size / box_size;
    let lut_count = pow2_u64(log_lut_count as u64) as usize;
    let groups = (cbs_level + lut_count - 1) / lut_count;
    let mut accumulators: Vec<Vec<u64>> = Vec::with_capacity(groups);
    let mut acc_idx: usize = 0;
    while acc_idx < groups
        invariant
            acc_idx <= groups,
            groups == accumulator_count(cbs_level as nat, lut_count as nat),
            lut_count == pow2(log_lut_count as nat),
            half_box_size == polynomial_size as nat / pow2((num_extract_bits + 1) as nat),
            half_box_size <= polynomial_size,
            polynomial_size == selector_polynomial_size(*fourier_bsk),
            glwe_size == selector_glwe_size(*fourier_bsk),
            rotation_fits(
                *fourier_bsk,
                *fft,
                log_lut_count as nat,
                cbs_base_log as nat,
                cbs_level as nat,
                num_extract_bits as nat,
            ),
            accumulators.len() == acc_idx,
            forall|g: int|
                0 <= g < acc_idx ==> (#[trigger] accumulators[g]).len() == glwe_size
                    * polynomial_size,
            forall|g: int|
                0 <= g < acc_idx ==> (#[trigger] accumulators[g])@ == rotated(
                    trivial_encryption(
                        accumulator_polynomial(
                            g as nat,
                            lut_count as nat,
                            cbs_base_log as nat,
                            half_box_size as nat,
                            polynomial_size as nat,
                        ),
                        glwe_size as nat,
                    ),
                    body as nat,
                    mask@,
                    *fourier_bsk,
                    *fft,
                    rotation_steps(mask@, *fourier_bsk),
                ),
        decreases groups - acc_idx,
    {
        proof {
            assert(accumulator_fits(
                acc_idx as nat,
                lut_count as nat,
                cbs_base_log as nat,
                polynomial_size as nat,
            ));
        }
        let accumulator = many_lut_accumulator(
            acc_idx,
            lut_count,
            cbs_base_log,
            polynomial_size,
            half_box_size,
        );
        let mut local_accumulator = trivial_glwe(&accumulator, glwe_size);
        proof {
            assert(accumulator@ =~= accumulator_polynomial(
                acc_idx as nat,
                lut_count as nat,
                cbs_base_log as nat,
                half_box_size as nat,
                polynomial_size as nat,
            ));
        }
        blind_rotate_local_assign_after_ms(body, mask, fourier_bsk, &mut local_accumulator, fft);
        accumulators.push(local_accumulator);
        acc_idx += 1;
    }
    accumulators
}

} // verus!
