//! The modulus switch before a blind rotation: every word of an LWE
//! ciphertext is rounded to a monomial degree, and what the rounding of the
//! mask words leaves over is summed up and half of it taken off the body
//! before the body is rounded.

use crate::bits::{
    lemma_word_add, lemma_word_sub, pow2_u64, shift_down, shift_up, word_add, word_sub,
};
use vstd::arithmetic::div_mod::*;
use vstd::arithmetic::mul::*;
use vstd::arithmetic::power2::*;
use vstd::prelude::*;

verus! {

/// `x * 2^k` modulo `2^64`.
pub open spec fn moved_up(x: nat, k: nat) -> nat {
    (x * pow2(k)) % pow2(64)
}

/// A word moved up by `offset` places and then rounded to its top
/// `log_n + 1 - lut_count_log` digits: divided by the scale and rounded to
/// the nearest.
pub open spec fn rounded(input: nat, log_n: nat, offset: nat, lut_count_log: nat) -> nat {
    (moved_up(input, offset) / pow2((62 - log_n + lut_count_log) as nat) + 1) / 2
}

/// The monomial degree that a word is switched to: the rounded word with
/// `lut_count_log` clear digits below it.
pub open spec fn switched(input: nat, log_n: nat, offset: nat, lut_count_log: nat) -> nat {
    rounded(input, log_n, offset, lut_count_log) * pow2(lut_count_log)
}

/// What the rounding of a mask word leaves over: the word less its rounded
/// form moved back up.
pub open spec fn rounding_bias(input: nat, log_n: nat, offset: nat, lut_count_log: nat) -> nat {
    word_sub(
        input,
        moved_up(
            rounded(input, log_n, offset, lut_count_log),
            (63 - log_n + lut_count_log - offset) as nat,
        ),
    )
}

/// Half of a word read as a signed number, rounded towards zero.
pub open spec fn signed_half(x: nat) -> nat {
    if x < pow2(63) {
        x / 2
    } else {
        word_sub(0, ((pow2(64) - x) / 2) as nat)
    }
}

/// The biases of the first `k` words summed up modulo `2^64`.
pub open spec fn bias_sum(
    input: Seq<u64>,
    k: nat,
    log_n: nat,
    offset: nat,
    lut_count_log: nat,
) -> nat
    decreases k,
{
    if k == 0 {
        0
    } else {
        word_add(
            bias_sum(input, (k - 1) as nat, log_n, offset, lut_count_log),
            rounding_bias(input[k - 1] as nat, log_n, offset, lut_count_log),
        )
    }
}

/// The parameters under which no shift of the switch leaves the word: a
/// scale of at least two, and degrees that fit a machine word.
pub open spec fn switchable(log_n: nat, offset: nat, lut_count_log: nat) -> bool {
    &&& log_n <= 62
    &&& log_n + 1 < usize::BITS
    &&& lut_count_log < log_n + 2
    &&& lut_count_log < log_n + 1 + offset
    &&& 1 <= 62 - log_n + lut_count_log
    &&& offset <= 63 - log_n + lut_count_log
    &&& offset < 64
}

/// Whether a ciphertext can be switched under these parameters.
pub fn can_switch(log_n: usize, offset: usize, lut_count_log: usize) -> (ok: bool)
    ensures
        ok == switchable(log_n as nat, offset as nat, lut_count_log as nat),
{
    log_n <= 62 && log_n + 1 < usize::BITS as usize && lut_count_log < log_n + 2 && offset < 64
        && lut_count_log < log_n + 1 + offset && 1 <= 62 - log_n + lut_count_log && offset <= 63
        - log_n + lut_count_log
}

/// A rounded word has at most `log_n + 1 - lut_count_log` digits and one
/// more value: the top of the range is not wrapped round.
proof fn lemma_rounded_bound(input: nat, log_n: nat, offset: nat, lut_count_log: nat)
    requires
        switchable(log_n, offset, lut_count_log),
    ensures
        rounded(input, log_n, offset, lut_count_log) <= pow2(
            (log_n + 1 - lut_count_log) as nat,
        ),
        switched(input, log_n, offset, lut_count_log) <= pow2(log_n + 1),
        pow2(log_n + 1) <= usize::MAX,
        pow2(log_n + 1) <= u64::MAX,
{
    let s = (62 - log_n + lut_count_log) as nat;
    let t = (log_n + 1 - lut_count_log) as nat;
    let x = moved_up(input, offset);
    lemma_pow2_pos(64);
    lemma_pow2_pos(s);
    lemma_pow2_pos(t);
    lemma_pow2_pos(lut_count_log);
    lemma_mod_bound((input * pow2(offset)) as int, pow2(64) as int);
    lemma_pow2_adds(s, (t + 1) as nat);
    lemma_pow2_unfold((t + 1) as nat);
    lemma_mul_is_commutative(pow2(s) as int, pow2((t + 1) as nat) as int);
    lemma_multiply_divide_lt(x as int, pow2(s) as int, pow2((t + 1) as nat) as int);
    lemma_pow2_adds(t, lut_count_log);
    lemma_mul_inequality(
        rounded(input, log_n, offset, lut_count_log) as int,
        pow2(t) as int,
        pow2(lut_count_log) as int,
    );
    vstd::bits::lemma_usize_pow2_no_overflow(log_n + 1);
    vstd::bits::lemma_u64_pow2_no_overflow(log_n + 1);
}

/// A word rounded: moved up, divided by the scale and rounded to the
/// nearest.
fn round_word(input: u64, log_n: usize, offset: usize, lut_count_log: usize) -> (output: u64)
    requires
        switchable(log_n as nat, offset as nat, lut_count_log as nat),
    ensures
        output == rounded(input as nat, log_n as nat, offset as nat, lut_count_log as nat),
{
    let mut output = shift_up(input, offset as u64);
    output = shift_down(output, (64 - log_n - 2 + lut_count_log) as u64);
    proof {
        let s = (62 - log_n + lut_count_log) as nat;
        lemma_pow2_pos(s);
        lemma_pow2_pos(64);
        lemma_pow2_strictly_increases(0, s);
        lemma2_to64();
        lemma_mod_bound((input as nat * pow2(offset as nat)) as int, pow2(64) as int);
        lemma_div_is_ordered_by_denominator(
            moved_up(input as nat, offset as nat) as int,
            2,
            pow2(s) as int,
        );
    }
    output += 1;
    output / 2
}

/// The monomial degree of one mask word and the bias of its rounding.
pub fn fast_low_noise_pbs_modulus_switch_mask(
    input: u64,
    log_n: usize,
    offset: usize,
    lut_count_log: usize,
) -> (switch: (usize, u64))
    requires
        switchable(log_n as nat, offset as nat, lut_count_log as nat),
    ensures
        switch.0 == switched(input as nat, log_n as nat, offset as nat, lut_count_log as nat),
        switch.1 == rounding_bias(
            input as nat,
            log_n as nat,
            offset as nat,
            lut_count_log as nat,
        ),
{
    let output = round_word(input, log_n, offset, lut_count_log);
    let back = shift_up(output, (64 - log_n - 1 + lut_count_log - offset) as u64);
    let bias = input.wrapping_sub(back);
    proof {
        lemma_rounded_bound(input as nat, log_n as nat, offset as nat, lut_count_log as nat);
        lemma_pow2_pos(lut_count_log as nat);
        vstd::bits::lemma_u64_pow2_no_overflow(lut_count_log as nat);
        lemma2_to64();
        lemma_word_sub(input, back);
    }
    let degree = output * pow2_u64(lut_count_log as u64);
    (degree as usize, bias)
}

/// Half of a word read as a signed number, rounded towards zero.
pub fn signed_div2(x: u64) -> (half: u64)
    ensures
        half == signed_half(x as nat),
{
    proof {
        lemma2_to64();
        lemma_pow2_unfold(64);
    }
    if x < 0x8000_0000_0000_0000 {
        x / 2
    } else {
        let magnitude = (u64::MAX - x) + 1;
        proof {
            lemma_word_sub(0, magnitude / 2);
        }
        0u64.wrapping_sub(magnitude / 2)
    }
}

/// The monomial degree of the body word, once half of the summed bias of the
/// mask has been taken off it.
pub fn fast_low_noise_pbs_modulus_switch_body(
    input: u64,
    bias: u64,
    log_n: usize,
    offset: usize,
    lut_count_log: usize,
) -> (degree: usize)
    requires
        switchable(log_n as nat, offset as nat, lut_count_log as nat),
    ensures
        degree == switched(
            word_sub(input as nat, signed_half(bias as nat)),
            log_n as nat,
            offset as nat,
            lut_count_log as nat,
        ),
{
    let half = signed_div2(bias);
    let corrected = input.wrapping_sub(half);
    proof {
        lemma_word_sub(input, half);
        lemma_rounded_bound(corrected as nat, log_n as nat, offset as nat, lut_count_log as nat);
        lemma_pow2_pos(lut_count_log as nat);
    }
    let output = round_word(corrected, log_n, offset, lut_count_log);
    let degree = output * pow2_u64(lut_count_log as u64);
    degree as usize
}

/// The modulus switch of an LWE ciphertext for polynomials of `2^log_n`
/// coefficients: the monomial degrees of its mask words and that of its body,
/// the last word.
pub fn fast_low_noise_pbs_modulus_switch(
    input: &Vec<u64>,
    log_n: usize,
    offset: usize,
    lut_count_log: usize,
) -> (switch: (Vec<usize>, usize))
    requires
        input.len() >= 1,
        switchable(log_n as nat, offset as nat, lut_count_log as nat),
    ensures
        switch.0.len() == input.len() - 1,
        forall|i: int|
            0 <= i < switch.0.len() ==> #[trigger] switch.0[i] == switched(
                input[i] as nat,
                log_n as nat,
                offset as nat,
                lut_count_log as nat,
            ),
        switch.1 == switched(
            word_sub(
                input[input.len() - 1] as nat,
                signed_half(
                    bias_sum(
                        input@,
                        (input.len() - 1) as nat,
                        log_n as nat,
                        offset as nat,
                        lut_count_log as nat,
                    ),
                ),
            ),
            log_n as nat,
            offset as nat,
            lut_count_log as nat,
        ),
{
    let dimension = input.len() - 1;
    let mut bias_acc: u64 = 0;
    let mut mask: Vec<usize> = Vec::with_capacity(dimension);
    let mut i: usize = 0;
    while i < dimension
        invariant
            i <= dimension,
            dimension == input.len() - 1,
            switchable(log_n as nat, offset as nat, lut_count_log as nat),
            mask.len() == i,
            bias_acc == bias_sum(
                input@,
                i as nat,
                log_n as nat,
                offset as nat,
                lut_count_log as nat,
            ),
            forall|j: int|
                0 <= j < i ==> #[trigger] mask[j] == switched(
                    input[j] as nat,
                    log_n as nat,
                    offset as nat,
                    lut_count_log as nat,
                ),
        decreases dimension - i,
    {
        let (output, bias) = fast_low_noise_pbs_modulus_switch_mask(
            input[i],
            log_n,
            offset,
            lut_count_log,
        );
        mask.push(output);
        proof {
            lemma_word_add(bias_acc, bias);
        }
        bias_acc = bias_acc.wrapping_add(bias);
        i += 1;
    }
    let body = fast_low_noise_pbs_modulus_switch_body(
        input[dimension],
        bias_acc,
        log_n,
        offset,
        lut_count_log,
    );
    (mask, body)
}

} // verus!
