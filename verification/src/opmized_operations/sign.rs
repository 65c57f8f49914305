//! The sign of a difference: the comparison tree run with three values that
//! stand for one, zero and minus one, the outcome read once for every
//! output chunk.

use crate::ciphertext::{trivial_encryption, trivial_glwe, zero_ciphertext, zero_words};
use crate::layout::chunk_of;
use crate::operations::operation::OperandType;
use crate::opmized_operations::compare::{
    can_run_tree, comparison_circuit, comparison_gates, tree_fits,
};
use crate::opmized_operations::tree::{
    relation_of, run_encrypted, run_selections, words_of, Relation, EQUAL, GREATER, LESS, SLOTS,
};
use crate::primitives::{
    fft_polynomial_size, sample_extract, sample_extract_value, selector_count,
    selector_glwe_size, selector_polynomial_size, shape_of, SelectorBits, SelectorShape,
};
use tfhe::core_crypto::prelude::Fft;
use vstd::arithmetic::div_mod::*;
use vstd::arithmetic::mul::*;
use vstd::arithmetic::power2::*;
use vstd::prelude::*;

verus! {

/// The sign of `a - b` as a word of `w` digits: one, zero, or all ones for
/// minus one.
pub open spec fn sign_value(a: nat, b: nat, w: nat) -> nat {
    match relation_of(a, b) {
        Relation::Greater => 1,
        Relation::Equal => 0,
        Relation::Less => (pow2(w) - 1) as nat,
    }
}

/// Coefficient `i` of the polynomial that stands for an outcome: the chunk
/// that the output chunk `i` places from the least significant end is to
/// hold.
pub open spec fn sign_coefficient(r: Relation, i: nat) -> nat {
    match r {
        Relation::Greater => if i == 0 {
            1
        } else {
            0
        },
        Relation::Equal => 0,
        Relation::Less => 15,
    }
}

/// A word of all ones, cut after its `s` lowest digits, is two words of all
/// ones.
proof fn lemma_ones_split(t: nat, s: nat)
    requires
        s <= t,
    ensures
        pow2(t) - 1 == (pow2((t - s) as nat) - 1) * pow2(s) + (pow2(s) - 1),
{
    lemma_pow2_adds((t - s) as nat, s);
    lemma_mul_is_distributive_sub_other_way(pow2(s) as int, pow2((t - s) as nat) as int, 1);
}

/// Every chunk of a word of all ones is all ones.
proof fn lemma_ones_chunk(w: nat, k: nat, n: nat, m: nat)
    requires
        m > 0,
        w == n * m,
        k < n,
    ensures
        chunk_of((pow2(w) - 1) as nat, k, n, m) == pow2(m) - 1,
{
    let s = ((n - 1 - k) * m) as nat;
    assert(s + m <= w) by (nonlinear_arith)
        requires
            s == (n - 1 - k) * m,
            w == n * m,
            k < n,
            m > 0,
    ;
    let t = (w - s) as nat;
    lemma_pow2_pos(s);
    lemma_pow2_pos(m);
    lemma_pow2_pos(t);
    lemma_pow2_pos((t - m) as nat);
    lemma_ones_split(w, s);
    lemma_fundamental_div_mod_converse(pow2(w) - 1, pow2(s) as int, pow2(t) - 1, pow2(s) - 1);
    lemma_ones_split(t, m);
    lemma_fundamental_div_mod_converse(
        pow2(t) - 1,
        pow2(m) as int,
        pow2((t - m) as nat) - 1,
        pow2(m) - 1,
    );
}

/// The chunks of the sign are the coefficients of the polynomial that stands
/// for the outcome: output chunk `k`, counted from the most significant end,
/// holds coefficient `n - 1 - k`.
pub proof fn lemma_sign_chunks(a: nat, b: nat, w: nat, k: nat)
    requires
        w % 4 == 0,
        k < w / 4,
    ensures
        chunk_of(sign_value(a, b, w), k, w / 4, 4) == sign_coefficient(
            relation_of(a, b),
            (w / 4 - 1 - k) as nat,
        ),
{
    let n = w / 4;
    let s = ((n - 1 - k) * 4) as nat;
    lemma2_to64();
    lemma_pow2_pos(s);
    lemma_fundamental_div_mod(w as int, 4);
    let v = sign_value(a, b, w);
    assert(chunk_of(v, k, n, 4) == (v / pow2(s)) % pow2(4));
    match relation_of(a, b) {
        Relation::Greater => {
            if k + 1 == n {
                assert(s == 0);
                assert(1int / 1 == 1);
                lemma_small_mod(1, 16);
            } else {
                assert(s >= 4);
                lemma_pow2_strictly_increases(0, s);
                lemma_basic_div(1, pow2(s) as int);
                lemma_small_mod(0, 16);
            }
        },
        Relation::Equal => {
            lemma_div_basics_1(pow2(s) as int);
            lemma_small_mod(0, 16);
        },
        Relation::Less => {
            vstd::arithmetic::mul::lemma_mul_is_commutative(4, n as int);
            lemma_ones_chunk(w, k, n, 4);
        },
    }
}

/// The scaled coefficients, `count` of each, of the three polynomials that
/// stand for "greater", "equal" and "less": one in the lowest place, zero
/// everywhere, fifteen everywhere, each in the top four digits of its
/// coefficient.
pub fn sign_constants(count: usize) -> (polynomials: (Vec<u64>, Vec<u64>, Vec<u64>))
    ensures
        polynomials.0.len() == count,
        polynomials.1.len() == count,
        polynomials.2.len() == count,
        forall|i: int|
            0 <= i < count ==> #[trigger] polynomials.0[i] == sign_coefficient(
                Relation::Greater,
                i as nat,
            ) * 0x1000_0000_0000_0000,
        forall|i: int|
            0 <= i < count ==> #[trigger] polynomials.1[i] == sign_coefficient(
                Relation::Equal,
                i as nat,
            ) * 0x1000_0000_0000_0000,
        forall|i: int|
            0 <= i < count ==> #[trigger] polynomials.2[i] == sign_coefficient(
                Relation::Less,
                i as nat,
            ) * 0x1000_0000_0000_0000,
{
    let encoded_msg_0000: u64 = 0;
    let encoded_msg_0001: u64 = 0x1000_0000_0000_0000;
    let encoded_msg_1111: u64 = 0xf000_0000_0000_0000;
    let mut greater: Vec<u64> = vec![encoded_msg_0000; count];
    if count > 0 {
        greater.set(0, encoded_msg_0001);
    }
    let equal: Vec<u64> = vec![encoded_msg_0000; count];
    let less: Vec<u64> = vec![encoded_msg_1111; count];
    (greater, equal, less)
}

/// What the sign asks beyond what the tree asks: no more output chunks than
/// a polynomial has coefficients.
pub open spec fn sign_fits(shape: SelectorShape, plan_size: nat, lwe_outs: Seq<Vec<u64>>) -> bool {
    &&& tree_fits(OperandType::CipherPlain, shape, plan_size, lwe_outs)
    &&& lwe_outs.len() <= shape.polynomial_size
}

/// What the sign asks of its arguments.
pub open spec fn sign_ready(bits: SelectorBits, fft: Fft, lwe_outs: Seq<Vec<u64>>) -> bool {
    sign_fits(shape_of(bits), fft_polynomial_size(fft), lwe_outs)
}

/// Whether the sign can be run on these arguments.
pub fn can_run_sign(bits: &SelectorBits, fft: &Fft, lwe_outs: &Vec<Vec<u64>>) -> (ok: bool)
    ensures
        ok == sign_ready(*bits, *fft, lwe_outs@),
{
    can_run_tree(OperandType::CipherPlain, bits, fft, lwe_outs) && lwe_outs.len()
        <= bits.polynomial_size()
}

/// Every output is a sample of the ciphertext `glwe`: the output `k` places
/// from the least significant end that of coefficient `k`.
pub open spec fn samples_of(outputs: Seq<Vec<u64>>, glwe: Seq<u64>, polynomial_size: nat) -> bool {
    forall|i: int|
        0 <= i < outputs.len() ==> (#[trigger] outputs[i])@ == sample_extract_value(
            glwe,
            polynomial_size,
            (outputs.len() - 1 - i) as nat,
        )
}

/// The plaintext polynomial of `n` coefficients that stands for the sign of
/// a relation: its coefficients in the top four digits of their words.
pub open spec fn sign_polynomial(relation: Relation, n: nat) -> Seq<u64> {
    Seq::new(n, |i: int| (sign_coefficient(relation, i as nat) * 0x1000_0000_0000_0000) as u64)
}

/// The registers that the tree of the sign starts from: the trivial
/// encryptions of the polynomials that stand for one, zero and minus one, and
/// zero ciphertexts for the candidates.
pub open spec fn sign_registers(n: nat, k: nat) -> Seq<Seq<u64>> {
    Seq::new(
        SLOTS as nat,
        |s: int|
            if s == GREATER {
                trivial_encryption(sign_polynomial(Relation::Greater, n), k)
            } else if s == EQUAL {
                trivial_encryption(sign_polynomial(Relation::Equal, n), k)
            } else if s == LESS {
                trivial_encryption(sign_polynomial(Relation::Less, n), k)
            } else {
                zero_words(k * n)
            },
    )
}

/// The ciphertext of the sign once the tree has run on the selector bits:
/// the register of the running outcome after all selections.
pub open spec fn sign_state(immediate: nat, bits: SelectorBits, fft: Fft) -> Seq<u64> {
    run_selections(
        comparison_gates(OperandType::CipherPlain, immediate, selector_count(bits)),
        sign_registers(selector_polynomial_size(bits), selector_glwe_size(bits)),
        bits,
        fft,
    )[EQUAL as int]
}

/// What the sign leaves in the output ciphertexts: as many as before and of
/// the same length, every one a sample of the ciphertext `glwe`.
pub open spec fn sign_outputs(
    before: Seq<Vec<u64>>,
    after: Seq<Vec<u64>>,
    polynomial_size: nat,
    glwe: Seq<u64>,
) -> bool {
    &&& after.len() == before.len()
    &&& forall|i: int| 0 <= i < after.len() ==> (#[trigger] after[i]).len() == before[i].len()
    &&& samples_of(after, glwe, polynomial_size)
}

/// The sign of the difference of an encrypted operand and the constant
/// `immediate`: the comparison tree run with the polynomials that stand for
/// one, zero and minus one, its outcome read once for every output chunk.
pub fn sign(input: &SelectorBits, lwe_outs: &mut Vec<Vec<u64>>, immediate: usize, fft: &Fft)
    requires
        sign_ready(*input, *fft, old(lwe_outs)@),
    ensures
        sign_outputs(
            old(lwe_outs)@,
            final(lwe_outs)@,
            selector_polynomial_size(*input),
            sign_state(immediate as nat, *input, *fft),
        ),
{
    let n = input.polynomial_size();
    let k = input.glwe_size();
    let bits = input.count();
    let gates = comparison_circuit(OperandType::CipherPlain, immediate, bits);
    let constants = sign_constants(n);
    proof {
        assert(constants.0@ =~= sign_polynomial(Relation::Greater, n as nat));
        assert(constants.1@ =~= sign_polynomial(Relation::Equal, n as nat));
        assert(constants.2@ =~= sign_polynomial(Relation::Less, n as nat));
    }
    let greater = trivial_glwe(&constants.0, k);
    let equiv = trivial_glwe(&constants.1, k);
    let less = trivial_glwe(&constants.2, k);
    let blank = zero_ciphertext(k * n);
    let mut regs: Vec<Vec<u64>> = Vec::new();
    regs.push(greater);
    regs.push(equiv);
    regs.push(less);
    let ghost start = sign_registers(n as nat, k as nat);
    let mut s: usize = 3;
    while s < SLOTS
        invariant
            3 <= s <= SLOTS,
            regs.len() == s,
            blank.len() == k * n,
            blank@ == zero_words((k * n) as nat),
            forall|i: int| 0 <= i < s ==> (#[trigger] regs[i]).len() == k * n,
            start.len() == SLOTS,
            forall|i: int| 3 <= i < SLOTS ==> #[trigger] start[i] == zero_words((k * n) as nat),
            forall|i: int| 0 <= i < s ==> (#[trigger] regs[i])@ == start[i],
        decreases SLOTS - s,
    {
        regs.push(blank.clone());
        s += 1;
    }
    proof {
        assert(words_of(regs@) =~= start);
    }
    let out = run_encrypted(&gates, regs, input, fft);
    proof {
        assert(words_of(out@)[EQUAL as int] == out@[EQUAL as int]@);
        assert(out@[EQUAL as int]@ == sign_state(immediate as nat, *input, *fft));
        assert(out@[EQUAL as int].len() == k * n);
        lemma_mul_is_distributive_sub_other_way(n as int, k as int, 1);
        lemma_fundamental_div_mod_converse_mod((k * n) as int, n as int, k as int, 0);
        lemma_mul_inequality(1, k as int, n as int);
    }
    write_sign_chunks(&out[EQUAL], n, lwe_outs);
}

/// Writes the chunks that the ciphertext `state` holds in its lowest
/// coefficients: into every output ciphertext the sample of the coefficient
/// of its place, the last output being that of the constant term.
pub fn write_sign_chunks(state: &Vec<u64>, polynomial_size: usize, lwe_outs: &mut Vec<Vec<u64>>)
    requires
        polynomial_size > 0,
        state.len() >= polynomial_size,
        state.len() % polynomial_size == 0,
        old(lwe_outs).len() <= polynomial_size,
        forall|j: int|
            0 <= j < old(lwe_outs).len() ==> (#[trigger] old(lwe_outs)[j]).len() == state.len()
                - polynomial_size + 1,
    ensures
        sign_outputs(old(lwe_outs)@, final(lwe_outs)@, polynomial_size as nat, state@),
{
    let count = lwe_outs.len();
    let mut i: usize = 0;
    while i < count
        invariant
            i <= count,
            count == old(lwe_outs).len(),
            count <= polynomial_size,
            polynomial_size > 0,
            state.len() >= polynomial_size,
            state.len() % polynomial_size == 0,
            lwe_outs.len() == count,
            forall|j: int|
                0 <= j < count ==> (#[trigger] old(lwe_outs)[j]).len() == state.len()
                    - polynomial_size + 1,
            forall|j: int|
                0 <= j < count ==> (#[trigger] lwe_outs[j]).len() == old(lwe_outs)[j].len(),
            forall|j: int|
                0 <= j < i ==> (#[trigger] lwe_outs[j])@ == sample_extract_value(
                    state@,
                    polynomial_size as nat,
                    (count - 1 - j) as nat,
                ),
        decreases count - i,
    {
        let sample = sample_extract(state, polynomial_size, count - 1 - i);
        lwe_outs.set(i, sample);
        i += 1;
    }
    proof {
        assert(samples_of(lwe_outs@, state@, polynomial_size as nat));
    }
}

} // verus!
