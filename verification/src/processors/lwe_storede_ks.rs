//! Keyswitching with the stored key: the words that the small key shares
//! with the large one are taken over, and for every other mask word the
//! encryptions that its decomposition terms select are subtracted.

use crate::bits::{
    lemma_word_add, lemma_word_sub, low_bits, pow2_u64, shift_down, word_add, word_sub,
};
use crate::primitives::{mask_key_product, phase};
use crate::processors::lwe_stored_ksk::LweStoredReusedKeyswitchKey;
use vstd::arithmetic::div_mod::*;
use vstd::arithmetic::mul::*;
use vstd::arithmetic::power2::*;
use vstd::prelude::*;

verus! {

/// The state of a decomposition and the term it has just given.
pub struct DecompositionStep {
    pub term: nat,
    pub state: nat,
}

/// One level of the signed decomposition in base `2^base_log`: the lowest
/// digit of the state is taken off, and where it is in the upper half of the
/// base it stands for a negative term and one is carried into the rest.
pub open spec fn decompose_step(state: nat, base_log: nat) -> DecompositionStep {
    let base = pow2(base_log);
    let digit = state % base;
    if digit >= base / 2 {
        DecompositionStep { term: word_sub(digit, base), state: word_add(state / base, 1) }
    } else {
        DecompositionStep { term: digit, state: state / base }
    }
}

/// The state of the decomposition after `k` levels.
pub open spec fn decomposition_state(start: nat, base_log: nat, k: nat) -> nat
    decreases k,
{
    if k == 0 {
        start
    } else {
        decompose_step(decomposition_state(start, base_log, (k - 1) as nat), base_log).state
    }
}

/// Term `k` of the decomposition, the term of the lowest level being term
/// zero.
pub open spec fn decomposition_term(start: nat, base_log: nat, k: nat) -> nat {
    decompose_step(decomposition_state(start, base_log, k), base_log).term
}

/// The word rounded to its top `level_count * base_log` digits: what the
/// decomposition starts from.
pub open spec fn closest_representable(input: nat, base_log: nat, level_count: nat) -> nat {
    (input / pow2((63 - level_count * base_log) as nat) + 1) / 2
}

/// The signed number that a term stands for.
pub open spec fn term_value(term: nat) -> int {
    if term < pow2(63) {
        term as int
    } else {
        term - pow2(64)
    }
}

/// The terms of the first `k` levels put together again, each with the
/// weight of its level.
pub open spec fn recomposed(start: nat, base_log: nat, k: nat) -> int
    decreases k,
{
    if k == 0 {
        0
    } else {
        recomposed(start, base_log, (k - 1) as nat) + term_value(
            decomposition_term(start, base_log, (k - 1) as nat),
        ) * pow2(((k - 1) * base_log) as nat)
    }
}

/// One level takes apart what it is given: the state is the new state times
/// the base plus the term, the term lies in the balanced range of the base,
/// and the new state is no larger than half the old one plus one.
pub proof fn lemma_decompose_step(state: nat, base_log: nat)
    requires
        1 <= base_log <= 63,
        state < pow2(63),
    ensures
        ({
            let step = decompose_step(state, base_log);
            &&& state == step.state * pow2(base_log) + term_value(step.term)
            &&& -(pow2(base_log) / 2) <= term_value(step.term) < pow2(base_log) / 2
            &&& step.state <= state / 2 + 1
            &&& step.state < pow2(63)
        }),
{
    let base = pow2(base_log);
    let digit = state % base;
    lemma_pow2_pos(base_log);
    lemma_pow2_unfold(base_log);
    lemma_pow2_pos((base_log - 1) as nat);
    if base_log < 63 {
        lemma_pow2_strictly_increases(base_log, 63);
    }
    lemma_pow2_unfold(64);
    lemma2_to64();
    lemma_fundamental_div_mod(state as int, base as int);
    lemma_mod_bound(state as int, base as int);
    lemma_mul_is_commutative(base as int, (state / base) as int);
    lemma_div_is_ordered_by_denominator(state as int, 2, base as int);
    assert(state / base <= state / 2);
    if digit >= base / 2 {
        lemma_small_mod((state / base + 1) as nat, pow2(64));
        lemma_fundamental_div_mod_converse_mod(
            digit - base,
            pow2(64) as int,
            -1,
            pow2(64) + digit - base,
        );
        lemma_mul_is_distributive_add_other_way(base as int, (state / base) as int, 1);
    }
}

/// The terms recompose: after `k` levels, the terms with their weights and
/// what is left of the state, with the weight of the next level, make up the
/// word that the decomposition started from.
pub proof fn lemma_recomposed(start: nat, base_log: nat, k: nat)
    requires
        1 <= base_log <= 63,
        start < pow2(63),
    ensures
        start == recomposed(start, base_log, k) + decomposition_state(start, base_log, k) * pow2(
            k * base_log,
        ),
        decomposition_state(start, base_log, k) < pow2(63),
    decreases k,
{
    if k == 0 {
        lemma2_to64();
        assert(0 * base_log == 0);
    } else {
        let j = (k - 1) as nat;
        lemma_recomposed(start, base_log, j);
        let state = decomposition_state(start, base_log, j);
        lemma_decompose_step(state, base_log);
        let step = decompose_step(state, base_log);
        let weight = pow2(j * base_log) as int;
        assert(k * base_log == j * base_log + base_log) by (nonlinear_arith)
            requires
                j == k - 1,
        ;
        lemma_pow2_adds(j * base_log, base_log);
        assert(state * weight == step.state * (pow2(base_log) * weight) + term_value(step.term)
            * weight) by (nonlinear_arith)
            requires
                state == step.state * pow2(base_log) + term_value(step.term),
        ;
        lemma_mul_is_commutative(pow2(base_log) as int, weight);
    }
}

/// Takes one term off the state of a decomposition.
fn my_decompose_one_level(base_log: usize, state: &mut u64, mod_b_mask: u64) -> (res: u64)
    requires
        1 <= base_log <= 63,
        mod_b_mask == pow2(base_log as nat) - 1,
    ensures
        res == decompose_step(*old(state) as nat, base_log as nat).term,
        *final(state) == decompose_step(*old(state) as nat, base_log as nat).state,
{
    proof {
        lemma_pow2_pos(base_log as nat);
        lemma_pow2_unfold(base_log as nat);
        lemma_pow2_pos((base_log - 1) as nat);
        if base_log < 63 {
            lemma_pow2_strictly_increases(base_log as nat, 63);
        }
        lemma_pow2_unfold(64);
        lemma2_to64();
        vstd::bits::lemma_u64_pow2_no_overflow(base_log as nat);
        lemma_mod_bound(*state as int, pow2(base_log as nat) as int);
    }
    let res = low_bits(*state, base_log as u64);
    let rest = shift_down(*state, base_log as u64);
    let sign_bit = shift_down(res, (base_log - 1) as u64);
    proof {
        let half = pow2((base_log - 1) as nat) as int;
        lemma_fundamental_div_mod(res as int, half);
        lemma_mod_bound(res as int, half);
        lemma_multiply_divide_lt(res as int, half, 2);
        lemma_mul_is_commutative(half, sign_bit as int);
        assert(pow2(base_log as nat) / 2 == half);
        assert(sign_bit == res as int / half);
        assert(sign_bit < 2);
        if res >= half {
            lemma_div_is_ordered(half, res as int, half);
            lemma_div_by_self(half);
        } else {
            lemma_basic_div(res as int, half);
        }
        assert((sign_bit == 1) == (res >= half));
    }
    if sign_bit == 1 {
        proof {
            lemma_word_add(rest, 1);
            lemma_word_sub(res, pow2_u64_value(base_log as nat));
        }
        *state = rest.wrapping_add(1);
        res.wrapping_sub(pow2_u64(base_log as u64))
    } else {
        *state = rest;
        res
    }
}

/// `2^n` as a word of the model.
pub open spec fn pow2_u64_value(n: nat) -> u64 {
    pow2(n) as u64
}

/// The terms of the signed decomposition of a word rounded to its top
/// `level_count * base_log` digits, the term of the lowest level first.
pub fn decompose_to_vev(input: u64, base_log: usize, level_count: usize) -> (terms: Vec<u64>)
    requires
        1 <= base_log <= 63,
        level_count * base_log <= 63,
        level_count * base_log == 63 ==> input < u64::MAX,
    ensures
        terms.len() == level_count,
        forall|i: int|
            0 <= i < level_count ==> #[trigger] terms[i] == decomposition_term(
                closest_representable(input as nat, base_log as nat, level_count as nat),
                base_log as nat,
                i as nat,
            ),
{
    proof {
        lemma_pow2_pos(base_log as nat);
        vstd::bits::lemma_u64_pow2_no_overflow(base_log as nat);
        lemma_mul_nonnegative(level_count as int, base_log as int);
    }
    let mod_b_mask = pow2_u64(base_log as u64) - 1;
    let non_rep_bit_count: usize = 64 - level_count * base_log;
    let shift = non_rep_bit_count - 1;
    let mut state = shift_down(input, shift as u64);
    proof {
        lemma_pow2_pos(shift as nat);
        lemma2_to64();
        if shift > 0 {
            lemma_pow2_strictly_increases(0, shift as nat);
            lemma_div_is_ordered_by_denominator(input as int, 2, pow2(shift as nat) as int);
        }
    }
    state += 1;
    state = state / 2;
    let ghost start = state as nat;
    let mut decomposition_terms: Vec<u64> = Vec::with_capacity(level_count);
    let mut k: usize = 0;
    while k < level_count
        invariant
            k <= level_count,
            1 <= base_log <= 63,
            mod_b_mask == pow2(base_log as nat) - 1,
            start == closest_representable(input as nat, base_log as nat, level_count as nat),
            state == decomposition_state(start, base_log as nat, k as nat),
            decomposition_terms.len() == k,
            forall|i: int|
                0 <= i < k ==> #[trigger] decomposition_terms[i] == decomposition_term(
                    start,
                    base_log as nat,
                    i as nat,
                ),
        decreases level_count - k,
    {
        let value = my_decompose_one_level(base_log, &mut state, mod_b_mask);
        decomposition_terms.push(value);
        k += 1;
    }
    decomposition_terms
}

/// The place within its level of the encryption that a term selects: the
/// term moved into the range from zero to the base.
pub open spec fn term_place(term: nat, base_log: nat) -> nat {
    word_add(term, pow2(base_log) / 2)
}

/// The ciphertext that the key holds at place `index` of block `k`.
pub open spec fn key_ciphertext(key: LweStoredReusedKeyswitchKey, k: nat, index: nat) -> Seq<u64> {
    key.data@.subrange(
        (k * key.block_size() + index * key.output_lwe_size) as int,
        (k * key.block_size() + index * key.output_lwe_size + key.output_lwe_size) as int,
    )
}

/// The ciphertext that mask word `k` beyond the small key selects at level
/// `l`, the levels counted from the highest term down.
pub open spec fn selected(
    key: LweStoredReusedKeyswitchKey,
    input: Seq<u64>,
    k: nat,
    l: nat,
) -> Seq<u64> {
    let base_log = key.decomp_base_log as nat;
    let levels = key.decomp_level_count as nat;
    let word = input[(key.output_lwe_size - 1 + k) as int] as nat;
    let term = decomposition_term(
        closest_representable(word, base_log, levels),
        base_log,
        (levels - 1 - l) as nat,
    );
    key_ciphertext(key, k, l * pow2(base_log) + term_place(term, base_log))
}

/// One ciphertext less another, word by word.
pub open spec fn subtracted(from: Seq<u64>, what: Seq<u64>) -> Seq<u64> {
    Seq::new(from.len(), |j: int| word_sub(from[j] as nat, what[j] as nat) as u64)
}

/// What keyswitching starts from: the mask words that the two keys share
/// (zero where the input has none), and the body.
pub open spec fn taken_over(input: Seq<u64>, output_lwe_size: nat) -> Seq<u64> {
    Seq::new(
        output_lwe_size,
        |j: int|
            if j + 1 == output_lwe_size {
                input[input.len() - 1]
            } else if j < input.len() {
                input[j]
            } else {
                0
            },
    )
}

/// The output after the first `steps` subtractions: mask word by mask word,
/// and for each word level by level.
pub open spec fn keyswitched(
    key: LweStoredReusedKeyswitchKey,
    input: Seq<u64>,
    steps: nat,
) -> Seq<u64>
    decreases steps,
{
    if steps == 0 {
        taken_over(input, key.output_lwe_size as nat)
    } else {
        let done = (steps - 1) as nat;
        subtracted(
            keyswitched(key, input, done),
            selected(
                key,
                input,
                done / (key.decomp_level_count as nat),
                done % (key.decomp_level_count as nat),
            ),
        )
    }
}

/// How many mask words are switched: those beyond the small key, as far as
/// the key has blocks for them.
pub open spec fn switched_words(key: LweStoredReusedKeyswitchKey) -> nat {
    let blocks = key.data.len() as nat / key.block_size();
    let beyond = if key.input_lwe_size >= key.output_lwe_size {
        (key.input_lwe_size - key.output_lwe_size) as nat
    } else {
        0
    };
    if blocks < beyond {
        blocks
    } else {
        beyond
    }
}

/// The place that a term selects lies within the base.
proof fn lemma_term_place(state: nat, base_log: nat)
    requires
        1 <= base_log <= 63,
    ensures
        term_place(decompose_step(state, base_log).term, base_log) < pow2(base_log),
{
    let base = pow2(base_log);
    let digit = state % base;
    lemma_pow2_pos(base_log);
    lemma_pow2_unfold(base_log);
    if base_log < 63 {
        lemma_pow2_strictly_increases(base_log, 63);
    }
    lemma_pow2_unfold(64);
    lemma2_to64();
    lemma_mod_bound(state as int, base as int);
    if digit >= base / 2 {
        lemma_fundamental_div_mod_converse_mod(
            digit - base,
            pow2(64) as int,
            -1,
            pow2(64) + digit - base,
        );
        lemma_fundamental_div_mod_converse_mod(
            pow2(64) + digit - base + base / 2,
            pow2(64) as int,
            1,
            digit - base / 2,
        );
    } else {
        lemma_small_mod(digit + base / 2, pow2(64));
    }
}

/// What a keyswitch asks: a well-formed key, ciphertexts of the sizes that
/// the key is for, and a decomposition that fits a word; where it leaves no
/// digit to round by, the words that are switched must not round up out of
/// the word.
pub open spec fn keyswitch_fits(
    key: LweStoredReusedKeyswitchKey,
    input: Seq<u64>,
    output_len: nat,
) -> bool {
    &&& key.wf()
    &&& input.len() == key.input_lwe_size
    &&& output_len == key.output_lwe_size
    &&& 1 <= key.decomp_base_log <= 63
    &&& key.decomp_level_count * key.decomp_base_log <= 63
    &&& key.decomp_level_count * key.decomp_base_log == 63 ==> forall|k: int|
        0 <= k < switched_words(key) ==> #[trigger] input[key.output_lwe_size - 1 + k] < u64::MAX
}

/// Whether a ciphertext can be switched into one of `output_len` words.
pub fn can_keyswitch(key: &LweStoredReusedKeyswitchKey, input: &Vec<u64>, output_len: usize) -> (ok:
    bool)
    ensures
        ok == keyswitch_fits(*key, input@, output_len as nat),
{
    if !key.is_well_formed() || input.len() != key.input_lwe_size || output_len
        != key.output_lwe_size || key.decomp_base_log < 1 || key.decomp_base_log > 63 {
        return false;
    }
    let digits = match key.decomp_level_count.checked_mul(key.decomp_base_log) {
        Some(digits) => digits,
        None => {
            return false;
        },
    };
    if digits != 63 {
        return digits < 63;
    }
    let block = key.input_key_element_encrypted_size();
    let blocks = key.data.len() / block;
    let beyond = if key.input_lwe_size >= key.output_lwe_size {
        key.input_lwe_size - key.output_lwe_size
    } else {
        0
    };
    let words = if blocks < beyond {
        blocks
    } else {
        beyond
    };
    let mut k: usize = 0;
    while k < words
        invariant
            k <= words,
            words == switched_words(*key),
            words + key.output_lwe_size <= key.input_lwe_size || words == 0,
            key.output_lwe_size >= 1,
            input.len() == key.input_lwe_size,
            key.decomp_level_count * key.decomp_base_log == 63,
            forall|j: int| 0 <= j < k ==> #[trigger] input[key.output_lwe_size - 1 + j] < u64::MAX,
        decreases words - k,
    {
        if input[key.output_lwe_size - 1 + k] == u64::MAX {
            proof {
                let at = k as int;
                assert(0 <= at < switched_words(*key));
                assert(!(input@[key.output_lwe_size - 1 + at] < u64::MAX));
                assert(key.decomp_level_count * key.decomp_base_log == 63);
            }
            return false;
        }
        k += 1;
    }
    true
}

/// Switches an LWE ciphertext under the large key to one under the small
/// key.
pub fn stored_reused_keyswitch_lwe_ciphertext(
    lwe_keyswitch_key: &LweStoredReusedKeyswitchKey,
    input_lwe_ciphertext: &Vec<u64>,
    output_lwe_ciphertext: &mut Vec<u64>,
)
    requires
        keyswitch_fits(
            *lwe_keyswitch_key,
            input_lwe_ciphertext@,
            old(output_lwe_ciphertext).len() as nat,
        ),
    ensures
        final(output_lwe_ciphertext)@ == keyswitched(
            *lwe_keyswitch_key,
            input_lwe_ciphertext@,
            (switched_words(*lwe_keyswitch_key) * lwe_keyswitch_key.decomp_level_count) as nat,
        ),
{
    let out_size = lwe_keyswitch_key.output_lwe_size;
    let in_size = lwe_keyswitch_key.input_lwe_size;
    let base_log = lwe_keyswitch_key.decomp_base_log;
    let levels = lwe_keyswitch_key.decomp_level_count;
    let ghost key = *lwe_keyswitch_key;
    let ghost input = input_lwe_ciphertext@;
    let mut j: usize = 0;
    while j < out_size
        invariant
            j <= out_size,
            in_size >= 1,
            out_size >= 1,
            in_size == input_lwe_ciphertext.len(),
            output_lwe_ciphertext.len() == out_size,
            forall|i: int|
                0 <= i < j ==> #[trigger] output_lwe_ciphertext[i] == taken_over(
                    input_lwe_ciphertext@,
                    out_size as nat,
                )[i],
        decreases out_size - j,
    {
        let word = if j + 1 == out_size {
            input_lwe_ciphertext[in_size - 1]
        } else if j < in_size {
            input_lwe_ciphertext[j]
        } else {
            0
        };
        output_lwe_ciphertext.set(j, word);
        j += 1;
    }
    proof {
        assert(output_lwe_ciphertext@ =~= keyswitched(key, input, 0));
        vstd::bits::lemma_u64_pow2_no_overflow(base_log as nat);
        vstd::bits::lemma_usize_pow2_no_overflow(base_log as nat);
        lemma_pow2_pos(base_log as nat);
        lemma_pow2_unfold(base_log as nat);
    }
    let decomposition_base = pow2_u64(base_log as u64) as usize;
    let block = lwe_keyswitch_key.input_key_element_encrypted_size();
    let blocks = lwe_keyswitch_key.data.len() / block;
    let beyond = if in_size >= out_size {
        in_size - out_size
    } else {
        0
    };
    let words = if blocks < beyond {
        blocks
    } else {
        beyond
    };
    proof {
        lemma_fundamental_div_mod(lwe_keyswitch_key.data.len() as int, block as int);
        lemma_mul_is_commutative(block as int, blocks as int);
        assert(block == (levels * decomposition_base) * out_size) by {
            lemma_mul_is_associative(out_size as int, levels as int, decomposition_base as int);
            lemma_mul_is_commutative(out_size as int, (levels * decomposition_base) as int);
        }
        lemma_mul_nonnegative(levels as int, decomposition_base as int);
        assert(0 * levels == 0);
    }
    let mut k: usize = 0;
    while k < words
        invariant
            k <= words,
            words == switched_words(key),
            words <= blocks,
            words + out_size <= in_size || words == 0,
            key == *lwe_keyswitch_key,
            input == input_lwe_ciphertext@,
            key.wf(),
            out_size == key.output_lwe_size,
            in_size == key.input_lwe_size,
            in_size == input_lwe_ciphertext.len(),
            base_log == key.decomp_base_log,
            levels == key.decomp_level_count,
            1 <= base_log <= 63,
            levels * base_log <= 63,
            levels * base_log == 63 ==> forall|j: int|
                0 <= j < words ==> #[trigger] input[out_size - 1 + j] < u64::MAX,
            decomposition_base == pow2(base_log as nat),
            block == key.block_size(),
            block == (levels * decomposition_base) * out_size,
            0 <= levels * decomposition_base,
            blocks * block == key.data.len(),
            output_lwe_ciphertext.len() == out_size,
            output_lwe_ciphertext@ == keyswitched(key, input, (k * levels) as nat),
        decreases words - k,
    {
        let input_mask_element = input_lwe_ciphertext[out_size - 1 + k];
        let decomposition_item = decompose_to_vev(input_mask_element, base_log, levels);
        proof {
            lemma_mul_inequality((k + 1) as int, blocks as int, block as int);
            lemma_mul_is_distributive_add_other_way(block as int, k as int, 1);
            lemma_mul_nonnegative(k as int, block as int);
            lemma_mul_nonnegative(k as int, levels as int);
            lemma_mul_is_distributive_add_other_way(levels as int, k as int, 1);
        }
        let mut l_idx: usize = 0;
        while l_idx < levels
            invariant
                l_idx <= levels,
                k < words,
                key == *lwe_keyswitch_key,
                input == input_lwe_ciphertext@,
                out_size == key.output_lwe_size,
                out_size >= 1,
                base_log == key.decomp_base_log,
                levels == key.decomp_level_count,
                1 <= base_log <= 63,
                decomposition_base == pow2(base_log as nat),
                block == key.block_size(),
                block == (levels * decomposition_base) * out_size,
                0 <= levels * decomposition_base,
                0 <= k * block,
                0 <= k * levels,
                (k + 1) * levels == k * levels + levels,
                k * block + block <= key.data.len(),
                out_size - 1 + k < input.len(),
                input_mask_element == input[out_size - 1 + k],
                decomposition_item.len() == levels,
                forall|i: int|
                    0 <= i < levels ==> #[trigger] decomposition_item[i] == decomposition_term(
                        closest_representable(
                            input_mask_element as nat,
                            base_log as nat,
                            levels as nat,
                        ),
                        base_log as nat,
                        i as nat,
                    ),
                output_lwe_ciphertext.len() == out_size,
                output_lwe_ciphertext@ == keyswitched(key, input, (k * levels + l_idx) as nat),
            decreases levels - l_idx,
        {
            let decomposed = decomposition_item[levels - 1 - l_idx];
            let half = (decomposition_base / 2) as u64;
            proof {
                lemma_term_place(
                    decomposition_state(
                        closest_representable(
                            input_mask_element as nat,
                            base_log as nat,
                            levels as nat,
                        ),
                        base_log as nat,
                        (levels - 1 - l_idx) as nat,
                    ),
                    base_log as nat,
                );
                lemma_word_add(decomposed, half);
            }
            let base_idx = decomposed.wrapping_add(half) as usize;
            proof {
                lemma_mul_inequality((l_idx + 1) as int, levels as int, decomposition_base as int);
                lemma_mul_is_distributive_add_other_way(
                    decomposition_base as int,
                    l_idx as int,
                    1,
                );
                lemma_mul_nonnegative(l_idx as int, decomposition_base as int);
                let index = (l_idx * decomposition_base + base_idx) as int;
                lemma_mul_inequality(1, out_size as int, (levels * decomposition_base) as int);
                lemma_mul_is_commutative(out_size as int, (levels * decomposition_base) as int);
                assert(levels * decomposition_base <= block);
                assert(index < levels * decomposition_base);
                lemma_mul_inequality(index + 1, (levels * decomposition_base) as int, out_size as int);
                lemma_mul_is_distributive_add_other_way(out_size as int, index, 1);
                lemma_mul_nonnegative(index, out_size as int);
                lemma_fundamental_div_mod_converse(
                    (k * levels + l_idx) as int,
                    levels as int,
                    k as int,
                    l_idx as int,
                );
            }
            let index = l_idx * decomposition_base + base_idx;
            let start = k * block + index * out_size;
            let ghost before = output_lwe_ciphertext@;
            let ghost chosen = selected(key, input, k as nat, l_idx as nat);
            proof {
                assert(chosen == key.data@.subrange(start as int, start + out_size));
            }
            let mut j: usize = 0;
            while j < out_size
                invariant
                    j <= out_size,
                    key == *lwe_keyswitch_key,
                    start + out_size <= key.data.len(),
                    chosen == key.data@.subrange(start as int, start + out_size),
                    before.len() == out_size,
                    output_lwe_ciphertext.len() == out_size,
                    forall|i: int|
                        0 <= i < j ==> #[trigger] output_lwe_ciphertext[i] == subtracted(
                            before,
                            chosen,
                        )[i],
                    forall|i: int| j <= i < out_size ==> #[trigger] output_lwe_ciphertext[i] == before[i],
                decreases out_size - j,
            {
                let from = output_lwe_ciphertext[j];
                let what = lwe_keyswitch_key.data[start + j];
                proof {
                    lemma_word_sub(from, what);
                    assert(chosen[j as int] == what);
                }
                output_lwe_ciphertext.set(j, from.wrapping_sub(what));
                j += 1;
            }
            proof {
                assert(output_lwe_ciphertext@ =~= subtracted(before, chosen));
            }
            l_idx += 1;
        }
        k += 1;
    }
}

/// The products of a difference with the key and of its two ciphertexts
/// agree modulo `2^64`.
proof fn lemma_product_of_difference(key: Seq<u64>, x: Seq<u64>, y: Seq<u64>, upto: nat)
    requires
        x.len() == y.len(),
        upto <= key.len() < x.len(),
    ensures
        mask_key_product(key, subtracted(x, y), upto) % (pow2(64) as int) == (mask_key_product(
            key,
            x,
            upto,
        ) - mask_key_product(key, y, upto)) % (pow2(64) as int),
    decreases upto,
{
    let m = pow2(64) as int;
    lemma_pow2_pos(64);
    if upto > 0 {
        let j = (upto - 1) as int;
        lemma_product_of_difference(key, x, y, (upto - 1) as nat);
        let d = subtracted(x, y);
        let before = mask_key_product(key, d, (upto - 1) as nat);
        let bx = mask_key_product(key, x, (upto - 1) as nat);
        let by = mask_key_product(key, y, (upto - 1) as nat);
        lemma2_to64();
        lemma_mod_bound(x[j] - y[j], m);
        assert(d[j] == (x[j] - y[j]) % m);
        lemma_mul_mod_noop_left(x[j] - y[j], key[j] as int, m);
        let term = d[j] * key[j];
        let wide = (x[j] - y[j]) * key[j];
        assert(term % m == wide % m);
        assert(wide == x[j] * key[j] - y[j] * key[j]) by (nonlinear_arith)
            requires
                wide == (x[j] - y[j]) * key[j],
        ;
        lemma_add_mod_noop(before, term, m);
        lemma_add_mod_noop(bx - by, wide, m);
    }
}

/// The difference of two LWE ciphertexts decrypts to the difference of what
/// they decrypt to, modulo `2^64`.
pub proof fn lemma_phase_of_difference(key: Seq<u64>, x: Seq<u64>, y: Seq<u64>)
    requires
        x.len() == key.len() + 1,
        y.len() == key.len() + 1,
    ensures
        phase(key, subtracted(x, y)) == (phase(key, x) - phase(key, y)) % (pow2(64) as int),
{
    let m = pow2(64) as int;
    lemma_pow2_pos(64);
    lemma2_to64();
    let n = key.len() as int;
    let d = subtracted(x, y);
    lemma_product_of_difference(key, x, y, key.len());
    let md = mask_key_product(key, d, key.len());
    let mx = mask_key_product(key, x, key.len());
    let my = mask_key_product(key, y, key.len());
    lemma_mod_bound(x[n] - y[n], m);
    assert(d[n] == (x[n] - y[n]) % m);
    lemma_sub_mod_noop(x[n] - y[n], md, m);
    lemma_sub_mod_noop(x[n] - y[n], mx - my, m);
    lemma_mod_twice(x[n] - y[n], m);
    lemma_sub_mod_noop(d[n] as int, md, m);
    assert((d[n] - md) % m == ((x[n] - y[n]) - (mx - my)) % m);
    lemma_sub_mod_noop(x[n] - mx, y[n] - my, m);
}

/// The ciphertext that a switched word selects at a level lies within the
/// key and has the size of the output.
proof fn lemma_selected_length(key: LweStoredReusedKeyswitchKey, input: Seq<u64>, k: nat, l: nat)
    requires
        keyswitch_fits(key, input, key.output_lwe_size as nat),
        k < switched_words(key),
        l < key.decomp_level_count,
    ensures
        selected(key, input, k, l).len() == key.output_lwe_size,
{
    let base_log = key.decomp_base_log as nat;
    let levels = key.decomp_level_count as nat;
    let out = key.output_lwe_size as int;
    let base = pow2(base_log) as int;
    let block = key.block_size() as int;
    let blocks = key.data.len() as int / block;
    let word = input[(key.output_lwe_size - 1 + k) as int] as nat;
    let start = closest_representable(word, base_log, levels);
    lemma_term_place(
        decomposition_state(start, base_log, (levels - 1 - l) as nat),
        base_log,
    );
    lemma_pow2_pos(base_log);
    let place = term_place(decomposition_term(start, base_log, (levels - 1 - l) as nat), base_log)
        as int;
    let index = l * base + place;
    lemma_mul_inequality((l + 1) as int, levels as int, base);
    lemma_mul_is_distributive_add_other_way(base, l as int, 1);
    lemma_mul_nonnegative(l as int, base);
    assert(index < levels * base);
    assert(block == (levels * base) * out) by {
        lemma_mul_is_associative(out, levels as int, base);
        lemma_mul_is_commutative(out, (levels * base) as int);
    }
    lemma_mul_inequality(index + 1, (levels * base) as int, out);
    lemma_mul_is_distributive_add_other_way(out, index, 1);
    lemma_mul_nonnegative(index, out);
    lemma_fundamental_div_mod(key.data.len() as int, block);
    lemma_mul_is_commutative(block, blocks);
    lemma_mul_inequality((k + 1) as int, blocks, block);
    lemma_mul_is_distributive_add_other_way(block, k as int, 1);
    lemma_mul_nonnegative(k as int, block);
}

/// The switched ciphertext has the size of the output after every step.
proof fn lemma_keyswitched_length(key: LweStoredReusedKeyswitchKey, input: Seq<u64>, steps: nat)
    ensures
        keyswitched(key, input, steps).len() == key.output_lwe_size,
    decreases steps,
{
    if steps > 0 {
        lemma_keyswitched_length(key, input, (steps - 1) as nat);
    }
}

/// The plaintexts, under the small key, of the ciphertexts that the first
/// `steps` subtractions take from the key, summed up.
pub open spec fn selected_phases(
    key: LweStoredReusedKeyswitchKey,
    small: Seq<u64>,
    input: Seq<u64>,
    steps: nat,
) -> int
    decreases steps,
{
    if steps == 0 {
        0
    } else {
        let done = (steps - 1) as nat;
        selected_phases(key, small, input, done) + phase(
            small,
            selected(
                key,
                input,
                done / (key.decomp_level_count as nat),
                done % (key.decomp_level_count as nat),
            ),
        )
    }
}

/// What a switched ciphertext decrypts to under the small key: what the
/// words taken over decrypt to, less what the ciphertexts taken from the key
/// decrypt to, modulo `2^64`. What is taken over holds the body of the input
/// and the mask words that the keys share; the ciphertexts of the key stand
/// for the words beyond, term by term.
pub proof fn lemma_keyswitch_decrypts(
    key: LweStoredReusedKeyswitchKey,
    small: Seq<u64>,
    input: Seq<u64>,
    steps: nat,
)
    requires
        keyswitch_fits(key, input, key.output_lwe_size as nat),
        small.len() + 1 == key.output_lwe_size,
        steps <= switched_words(key) * key.decomp_level_count,
    ensures
        phase(small, keyswitched(key, input, steps)) == (phase(
            small,
            taken_over(input, key.output_lwe_size as nat),
        ) - selected_phases(key, small, input, steps)) % (pow2(64) as int),
    decreases steps,
{
    let m = pow2(64) as int;
    lemma_pow2_pos(64);
    let start = taken_over(input, key.output_lwe_size as nat);
    if steps == 0 {
        lemma2_to64();
        lemma_mod_twice(start[small.len() as int] - mask_key_product(small, start, small.len()), m);
    } else {
        let done = (steps - 1) as nat;
        let levels = key.decomp_level_count as nat;
        let words = switched_words(key);
        assert(levels > 0) by {
            if levels == 0 {
                lemma_mul_basics(words as int);
            }
        }
        lemma_mul_inequality(done as int, (words * levels - 1) as int, 1);
        assert(done / levels < words) by {
            lemma_mul_is_commutative(words as int, levels as int);
            lemma_multiply_divide_lt(done as int, levels as int, words as int);
        }
        lemma_mod_bound(done as int, levels as int);
        lemma_mul_nonnegative(words as int, levels as int);
        lemma_keyswitch_decrypts(key, small, input, done);
        let before = keyswitched(key, input, done);
        let taken = selected(key, input, done / levels, done % levels);
        lemma_keyswitched_length(key, input, done);
        lemma_selected_length(key, input, done / levels, done % levels);
        lemma_phase_of_difference(small, before, taken);
        let sum = selected_phases(key, small, input, done);
        lemma_sub_mod_noop(phase(small, start) - sum, phase(small, taken), m);
        lemma_mod_twice(phase(small, start) - sum, m);
        lemma_mod_twice(taken[small.len() as int] - mask_key_product(small, taken, small.len()), m);
        lemma_sub_mod_noop(phase(small, before), phase(small, taken), m);
    }
}

} // verus!
