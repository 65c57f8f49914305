//! What the outputs of the evaluators decrypt to. The evaluators compute on
//! ciphertexts with the selection and lookup primitives; what those
//! primitives give has a name and no more. Here stands what follows once the
//! primitives do what they are for: the chunk of the operation's result, and
//! the truth value of the relation.

use crate::ciphertext::{
    glwe_phase, lemma_sample_decrypts, lemma_trivial_decrypts, trivial_encryption,
};
use crate::layout::chunk_of;
use crate::operations::cipher_lut::output_offset;
use crate::ciphertext::zero_words;
use crate::layout::recombine;
use crate::operations::manager::{decoded, encoded, lemma_decode_encode, OperationManager};
use crate::opmized_operations::compare::tree_outputs;
use crate::primitives::mask_key_product;
use crate::operations::operand::ArithmeticOp;
use crate::operations::operation::{lookup_result, OperandType, Operation};
use crate::opmized_operations::compare::{
    comparison_result, comparison_selectors, comparison_state, lemma_comparison_reads,
    relation_truth, tree_registers, TRUTH_SCALE,
};
use crate::opmized_operations::tree::{pick, relation_of, Relation, EQUAL, GREATER, LESS, SLOTS};
use crate::primitives::{
    cmux_value, phase, sample_extract_value, selector_count, selector_glwe_size,
    selector_polynomial_size, SelectorBits,
};
use crate::operations::operation::selector_width;
use crate::opmized_operations::sign::{
    lemma_sign_chunks, sign_coefficient, sign_polynomial, sign_registers, sign_state, sign_value,
};
use tfhe::core_crypto::prelude::Fft;
use vstd::arithmetic::div_mod::*;
use vstd::arithmetic::mul::*;
use vstd::arithmetic::power2::*;
use vstd::prelude::*;

verus! {

/// An output of the lookup decrypts to its chunk of the result, wherever the
/// packed lookup has found the addressed coefficient. For the operation
/// compiled for polynomials of `n` coefficients and chunks of `m` digits in
/// their plaintexts: if the ciphertext `found` decrypts, at the offset of
/// output `k`, to the coefficient that the lookup reads at the masked
/// selector index `s`, with a noise below half the scale added, then the
/// sample of `found` at that offset, which is what the lookup leaves as
/// output `k`, decrypts and rounds to chunk `k` of the result of the
/// operation on the operands that `s` stands for.
pub proof fn lemma_lookup_decrypts(
    operation: Operation,
    n: nat,
    m: nat,
    key: Seq<u64>,
    found: Seq<u64>,
    k: nat,
    s: nat,
    noise: int,
)
    requires
        0 < m < 64,
        0 < operation.chunk_size <= m,
        operation.compiled_for(n, pow2((64 - m) as nat) as u64),
        k < operation.output_count(),
        s < operation.table_length(),
        n > 0,
        key.len() % n == 0,
        found.len() == key.len() + n,
        output_offset(
            k,
            operation.lut_pack_size as nat,
            operation.output_count(),
            operation.table_length(),
        ) < n,
        -pow2((63 - m) as nat) <= noise < pow2((63 - m) as nat),
        glwe_phase(
            key,
            found,
            n,
            output_offset(
                k,
                operation.lut_pack_size as nat,
                operation.output_count(),
                operation.table_length(),
            ),
        ) == (operation.lookup_coefficient(k, s) + noise) % (pow2(64) as int),
    ensures
        decoded(
            phase(
                key,
                sample_extract_value(
                    found,
                    n,
                    output_offset(
                        k,
                        operation.lut_pack_size as nat,
                        operation.output_count(),
                        operation.table_length(),
                    ),
                ),
            ) as nat,
            m,
        ) == chunk_of(
            lookup_result(
                operation.op,
                operation.op_type,
                operation.constant(),
                s,
                operation.bit_width,
                operation.chunk_size as nat,
            ),
            k,
            operation.output_count(),
            operation.chunk_size as nat,
        ),
{
    let offset = output_offset(
        k,
        operation.lut_pack_size as nat,
        operation.output_count(),
        operation.table_length(),
    );
    let result = lookup_result(
        operation.op,
        operation.op_type,
        operation.constant(),
        s,
        operation.bit_width,
        operation.chunk_size as nat,
    );
    let size = operation.chunk_size as nat;
    let chunk = chunk_of(result, k, operation.output_count(), size);
    let scale = pow2((64 - m) as nat);
    lemma_sample_decrypts(key, found, n, offset);
    lemma_pow2_pos(size);
    lemma_mod_bound(
        (result / pow2(((operation.output_count() - 1 - k) * size) as nat)) as int,
        pow2(size) as int,
    );
    if size < m {
        lemma_pow2_strictly_increases(size, m);
    }
    lemma_pow2_strictly_increases((64 - m) as nat, 64);
    lemma2_to64();
    assert(scale as u64 == scale);
    assert(operation.lookup_coefficient(k, s) == scale * chunk);
    lemma_mul_is_commutative(scale as int, chunk as int);
    assert(encoded(chunk, m) == operation.lookup_coefficient(k, s));
    lemma_decode_encode(chunk, noise, m);
}

/// The reading of a ciphertext of the tree: the truth value that its
/// constant term decrypts and rounds to.
pub open spec fn truth_read(key: Seq<u64>, n: nat) -> spec_fn(Seq<u64>) -> nat {
    |ct: Seq<u64>| decoded(glwe_phase(key, ct, n, 0) as nat, 4)
}

/// The output of the comparison decrypts to the truth value of the relation,
/// wherever the selection primitive selects. Read a ciphertext as the truth
/// value that its constant term decrypts and rounds to. If the primitive, on
/// valid ciphertexts and on every encrypted bit, gives a valid ciphertext
/// that reads as the source which the selector bit of the operands picks, and
/// the registers that the tree starts from are valid, then the ciphertext
/// that the comparison leaves decrypts and rounds to one where the relation
/// holds of the operands and to zero where it does not.
pub proof fn lemma_comparison_decrypts(
    op_type: OperandType,
    immediate: nat,
    op: ArithmeticOp,
    a: nat,
    b: nat,
    w: nat,
    key: Seq<u64>,
    bits: SelectorBits,
    fft: Fft,
    valid: spec_fn(Seq<u64>) -> bool,
)
    requires
        w % 4 == 0,
        2 * w <= usize::MAX,
        a < pow2(w),
        b < pow2(w),
        op_type == OperandType::CipherPlain ==> b == immediate % pow2(w),
        op_type == OperandType::PlainCipher ==> a == immediate % pow2(w),
        selector_count(bits) == selector_width(op_type, w),
        selector_polynomial_size(bits) > 0,
        selector_glwe_size(bits) >= 1,
        key.len() == (selector_glwe_size(bits) - 1) * selector_polynomial_size(bits),
        forall|ct: Seq<u64>| #[trigger]
            valid(ct) ==> ct.len() == key.len() + selector_polynomial_size(bits),
        forall|i: int|
            0 <= i < SLOTS ==> valid(
                #[trigger] tree_registers(
                    (relation_truth(op).0 * TRUTH_SCALE) as u64,
                    (relation_truth(op).1 * TRUTH_SCALE) as u64,
                    (relation_truth(op).2 * TRUTH_SCALE) as u64,
                    selector_polynomial_size(bits),
                    selector_glwe_size(bits),
                )[i],
            ),
        forall|x: Seq<u64>, y: Seq<u64>, k: nat|
            k < selector_width(op_type, w) && valid(x) && valid(y) ==> {
                &&& valid(#[trigger] cmux_value(x, y, bits, k, fft))
                &&& truth_read(key, selector_polynomial_size(bits))(
                    cmux_value(x, y, bits, k, fft),
                ) == (if comparison_selectors(op_type, a, b, w)[k as int] {
                    truth_read(key, selector_polynomial_size(bits))(y)
                } else {
                    truth_read(key, selector_polynomial_size(bits))(x)
                })
            },
    ensures
        decoded(phase(key, comparison_result(op_type, immediate, op, bits, fft)) as nat, 4)
            == pick(
            relation_of(a, b),
            relation_truth(op).0,
            relation_truth(op).1,
            relation_truth(op).2,
        ),
{
    let n = selector_polynomial_size(bits);
    let k = selector_glwe_size(bits);
    let truth = relation_truth(op);
    let greater = (truth.0 * TRUTH_SCALE) as u64;
    let equal = (truth.1 * TRUTH_SCALE) as u64;
    let less = (truth.2 * TRUTH_SCALE) as u64;
    let regs = tree_registers(greater, equal, less, n, k);
    let read = truth_read(key, n);
    lemma2_to64();
    assert(w == crate::opmized_operations::compare::operand_width(op_type, selector_count(bits)));
    lemma_comparison_reads(op_type, immediate, a, b, w, regs, bits, fft, read, valid);
    let state = comparison_state(op_type, immediate, op, bits, fft);
    assert(valid(state));
    lemma_mod_multiples_basic((k - 1) as int, n as int);
    lemma_sample_decrypts(key, state, n, 0);
    lemma_truth_register(key, truth.0, n, k);
    lemma_truth_register(key, truth.1, n, k);
    lemma_truth_register(key, truth.2, n, k);
    assert(regs[GREATER as int] == trivial_encryption(Seq::new(n, |i: int| greater), k));
    assert(regs[EQUAL as int] == trivial_encryption(Seq::new(n, |i: int| equal), k));
    assert(regs[LESS as int] == trivial_encryption(Seq::new(n, |i: int| less), k));
}

/// The register that stands for a truth value reads as that value.
proof fn lemma_truth_register(key: Seq<u64>, truth: nat, n: nat, k: nat)
    requires
        truth <= 1,
        n > 0,
        k >= 1,
        key.len() == (k - 1) * n,
    ensures
        truth_read(key, n)(
            trivial_encryption(Seq::new(n, |i: int| (truth * TRUTH_SCALE) as u64), k),
        ) == truth,
{
    let body = Seq::new(n, |i: int| (truth * TRUTH_SCALE) as u64);
    lemma_trivial_decrypts(key, body, k, 0);
    lemma2_to64();
    lemma_pow2_adds(32, 28);
    lemma_pow2_pos(59);
    assert(TRUTH_SCALE == pow2(60));
    assert(truth * TRUTH_SCALE == encoded(truth, 4)) by (nonlinear_arith)
        requires
            encoded(truth, 4) == truth * pow2(60),
            TRUTH_SCALE == pow2(60),
    ;
    lemma_decode_encode(truth, 0, 4);
    lemma_small_mod(encoded(truth, 4), pow2(64));
}

/// The reading of a ciphertext at coefficient `c`: the chunk that the
/// coefficient decrypts and rounds to.
pub open spec fn chunk_read(key: Seq<u64>, n: nat, c: nat) -> spec_fn(Seq<u64>) -> nat {
    |ct: Seq<u64>| decoded(glwe_phase(key, ct, n, c) as nat, 4)
}

/// The register that stands for the sign of a relation reads, at every
/// coefficient, as the chunk of the sign that the coefficient holds.
proof fn lemma_sign_register(key: Seq<u64>, relation: Relation, n: nat, k: nat, c: nat)
    requires
        c < n,
        k >= 1,
        key.len() == (k - 1) * n,
    ensures
        chunk_read(key, n, c)(trivial_encryption(sign_polynomial(relation, n), k))
            == sign_coefficient(relation, c),
{
    let body = sign_polynomial(relation, n);
    let value = sign_coefficient(relation, c);
    lemma_trivial_decrypts(key, body, k, c);
    lemma2_to64();
    lemma_pow2_adds(32, 28);
    lemma_pow2_pos(59);
    assert(value <= 15);
    assert(value * 0x1000_0000_0000_0000 == encoded(value, 4)) by (nonlinear_arith)
        requires
            encoded(value, 4) == value * pow2(60),
            0x1000_0000_0000_0000 == pow2(60),
    ;
    assert(encoded(value, 4) < pow2(64)) by (nonlinear_arith)
        requires
            encoded(value, 4) == value * pow2(60),
            value <= 15,
            pow2(60) == 0x1000_0000_0000_0000,
            pow2(64) == 0x1_0000_0000_0000_0000,
    ;
    lemma_decode_encode(value, 0, 4);
    lemma_small_mod(encoded(value, 4), pow2(64));
}

/// The outputs of the sign decrypt to the chunks of the sign, wherever the
/// selection primitive selects. Read a ciphertext at a coefficient as the
/// chunk that the coefficient decrypts and rounds to. If the primitive, on
/// valid ciphertexts and on every encrypted bit, gives a valid ciphertext
/// that reads at the coefficient of output `i` as the source which the
/// selector bit of the operand picks, and the registers that the tree starts
/// from are valid, then output `i` of the sign of `a` less the constant
/// decrypts and rounds to chunk `i` of one, of zero or of the word of all
/// ones, as `a` is greater than, equal to or less than the constant.
pub proof fn lemma_sign_decrypts(
    immediate: nat,
    a: nat,
    b: nat,
    w: nat,
    key: Seq<u64>,
    bits: SelectorBits,
    fft: Fft,
    valid: spec_fn(Seq<u64>) -> bool,
    i: nat,
)
    requires
        w % 4 == 0,
        2 * w <= usize::MAX,
        a < pow2(w),
        b == immediate % pow2(w),
        i < w / 4,
        w / 4 <= selector_polynomial_size(bits),
        selector_count(bits) == w,
        selector_glwe_size(bits) >= 1,
        key.len() == (selector_glwe_size(bits) - 1) * selector_polynomial_size(bits),
        forall|ct: Seq<u64>| #[trigger]
            valid(ct) ==> ct.len() == key.len() + selector_polynomial_size(bits),
        forall|s: int|
            0 <= s < SLOTS ==> valid(
                #[trigger] sign_registers(
                    selector_polynomial_size(bits),
                    selector_glwe_size(bits),
                )[s],
            ),
        forall|x: Seq<u64>, y: Seq<u64>, k: nat|
            k < w && valid(x) && valid(y) ==> {
                &&& valid(#[trigger] cmux_value(x, y, bits, k, fft))
                &&& chunk_read(key, selector_polynomial_size(bits), (w / 4 - 1 - i) as nat)(
                    cmux_value(x, y, bits, k, fft),
                ) == (if comparison_selectors(OperandType::CipherPlain, a, b, w)[k as int] {
                    chunk_read(key, selector_polynomial_size(bits), (w / 4 - 1 - i) as nat)(y)
                } else {
                    chunk_read(key, selector_polynomial_size(bits), (w / 4 - 1 - i) as nat)(x)
                })
            },
    ensures
        decoded(
            phase(
                key,
                sample_extract_value(
                    sign_state(immediate, bits, fft),
                    selector_polynomial_size(bits),
                    (w / 4 - 1 - i) as nat,
                ),
            ) as nat,
            4,
        ) == chunk_of(sign_value(a, b, w), i, w / 4, 4),
{
    let n = selector_polynomial_size(bits);
    let k = selector_glwe_size(bits);
    let c = (w / 4 - 1 - i) as nat;
    let regs = sign_registers(n, k);
    let read = chunk_read(key, n, c);
    lemma_comparison_reads(
        OperandType::CipherPlain,
        immediate,
        a,
        b,
        w,
        regs,
        bits,
        fft,
        read,
        valid,
    );
    let state = sign_state(immediate, bits, fft);
    assert(valid(state));
    lemma_mod_multiples_basic((k - 1) as int, n as int);
    lemma_sample_decrypts(key, state, n, c);
    lemma_sign_register(key, Relation::Greater, n, k, c);
    lemma_sign_register(key, Relation::Equal, n, k, c);
    lemma_sign_register(key, Relation::Less, n, k, c);
    assert(regs[GREATER as int] == trivial_encryption(sign_polynomial(Relation::Greater, n), k));
    assert(regs[EQUAL as int] == trivial_encryption(sign_polynomial(Relation::Equal, n), k));
    assert(regs[LESS as int] == trivial_encryption(sign_polynomial(Relation::Less, n), k));
    lemma_sign_chunks(a, b, w, i);
}

/// The product of the mask of a zero ciphertext with a key is zero.
proof fn lemma_zero_product(key: Seq<u64>, n: nat, upto: nat)
    requires
        upto <= key.len() < n,
    ensures
        mask_key_product(key, zero_words(n), upto) == 0,
    decreases upto,
{
    if upto > 0 {
        lemma_zero_product(key, n, (upto - 1) as nat);
        assert(zero_words(n)[upto - 1] * key[upto - 1] == 0) by (nonlinear_arith)
            requires
                zero_words(n)[upto - 1] == 0,
        ;
    }
}

/// Chunks that are all zero but the last make the word that the last one is.
proof fn lemma_recombine_last(chunks: Seq<nat>, m: nat)
    requires
        chunks.len() > 0,
        forall|c: int| 0 <= c < chunks.len() - 1 ==> #[trigger] chunks[c] == 0,
    ensures
        recombine(chunks, m) == chunks.last(),
    decreases chunks.len(),
{
    let front = chunks.drop_last();
    if front.len() > 0 {
        assert forall|c: int| 0 <= c < front.len() - 1 implies #[trigger] front[c] == 0 by {
            assert(front[c] == chunks[c]);
        }
        lemma_recombine_last(front, m);
        assert(front.last() == chunks[chunks.len() - 2]);
        assert(recombine(front, m) == 0);
    } else {
        assert(recombine(front, m) == 0);
    }
    lemma_mul_basics(pow2(m) as int);
    assert(recombine(chunks, m) == recombine(front, m) * pow2(m) + chunks.last());
}

/// A register that the comparison has written reads as the truth value:
/// where the chunks of register `index` are zero ciphertexts but the last,
/// as the comparison leaves them, and the last decrypts and rounds to
/// `truth`, the register reads as `truth`. With `lemma_comparison_decrypts`
/// this is one where the relation holds of the operands and zero where it
/// does not.
pub proof fn lemma_truth_reads_back(
    manager: OperationManager,
    index: int,
    before: Seq<Vec<u64>>,
    result: Seq<u64>,
    truth: nat,
)
    requires
        manager.wf(),
        0 <= index < manager.lwe_lists.len(),
        manager.params.message_size() == 4,
        tree_outputs(before, manager.lwe_lists[index]@, result),
        decoded(phase(manager.glwe_sk@, result) as nat, 4) == truth,
    ensures
        recombine(manager.register_chunks(index), 4) == truth,
{
    let key = manager.glwe_sk@;
    let register = manager.lwe_lists[index]@;
    let chunks = manager.register_chunks(index);
    assert(crate::operations::manager::register_shaped(
        manager.lwe_lists@[index]@,
        manager.chunks(),
        (key.len() + 1) as nat,
    ));
    lemma2_to64();
    lemma_pow2_adds(32, 27);
    lemma_pow2_adds(32, 28);
    assert forall|c: int| 0 <= c < chunks.len() - 1 implies #[trigger] chunks[c] == 0 by {
        let n = before[c].len() as nat;
        assert(register[c]@ == zero_words(n));
        assert(n == key.len() + 1);
        lemma_zero_product(key, n, key.len());
        lemma_small_mod(0, pow2(64));
        lemma_pow2_pos(59);
        lemma_pow2_pos(60);
        lemma_basic_div(pow2(59) as int, pow2(60) as int);
        lemma_small_mod(0, pow2(4));
    }
    lemma_recombine_last(chunks, 4);
}

} // verus!
