//! The comparison tree of the ordering relations: which selections it makes
//! for each kind of operands, and that it answers with the truth value of
//! the relation.

use crate::bits::{all_digits, as_bools, bit, bit_at, digit, lemma_bit_of_mod, to_bits};
use crate::operations::mask_chunk::{
    encode_bits, lemma_selector_bits, mask_encode, masking_chunk_msb, selector_bits,
};
use crate::operations::operand::{op_value, ArithmeticOp};
use crate::operations::operation::{is_relation, selector_width, OperandType};
use crate::opmized_operations::tree::{
    build_tree, control_value, control_values, controls_fit, gates_fit, lemma_tree_compares,
    lemma_tree_fits, lemma_tree_gates, pick, relation_of, run_gates, tree_gates, Control, Gate,
    EQUAL, GREATER, LESS, SLOTS,
};
use crate::ciphertext::{
    constant_polynomial, trivial_encryption, trivial_glwe, zero_ciphertext, zero_words,
};
use crate::opmized_operations::tree::{
    lemma_selections_read, run_encrypted, run_selections, words_of,
};
use crate::primitives::{
    cmux_value, fft_polynomial_size, fft_size, join_selectors, joined_selectors, sample_extract,
    sample_extract_value, selector_base_log,
    selector_count, selector_glwe_size, selector_level_count, selector_polynomial_size, shape_of,
    shape_steers, SelectorBits, SelectorShape,
};
use tfhe::core_crypto::prelude::Fft;
use vstd::arithmetic::div_mod::*;
use vstd::arithmetic::mul::*;
use vstd::arithmetic::power2::*;
use vstd::prelude::*;

verus! {

/// How many places make one group of the tree: the number of selector bits
/// that one chunk yields.
pub const GROUP_SIZE: usize = 4;

/// The truth values of a relation for "greater", "equal" and "less".
pub open spec fn relation_truth(op: ArithmeticOp) -> (nat, nat, nat) {
    match op {
        ArithmeticOp::GT => (1, 0, 0),
        ArithmeticOp::GTE => (1, 1, 0),
        ArithmeticOp::LT => (0, 0, 1),
        ArithmeticOp::LTE => (0, 1, 1),
        ArithmeticOp::EQ => (0, 1, 0),
        _ => (0, 0, 0),
    }
}

/// The truth values of a relation for "greater", "equal" and "less".
pub fn relation_values(op: ArithmeticOp) -> (values: (u64, u64, u64))
    ensures
        values.0 == relation_truth(op).0,
        values.1 == relation_truth(op).1,
        values.2 == relation_truth(op).2,
{
    match op {
        ArithmeticOp::GT => (1, 0, 0),
        ArithmeticOp::GTE => (1, 1, 0),
        ArithmeticOp::LT => (0, 0, 1),
        ArithmeticOp::LTE => (0, 1, 1),
        ArithmeticOp::EQ => (0, 1, 0),
        _ => (0, 0, 0),
    }
}

/// The truth value picked for how `a` stands to `b` is the value of the
/// relation on `a` and `b`.
pub proof fn lemma_relation_truth(op: ArithmeticOp, a: nat, b: nat, w: nat)
    requires
        is_relation(op),
    ensures
        pick(
            relation_of(a, b),
            relation_truth(op).0,
            relation_truth(op).1,
            relation_truth(op).2,
        ) == op_value(op, a, b, w),
{
}

/// The selector bits of a word known in the clear, the most significant
/// first: what the bootstrapping of its chunks would yield.
pub fn encode_vec_nibbles(input: usize, length: usize) -> (vec: Vec<usize>)
    requires
        length % 4 == 0,
        length <= usize::BITS,
    ensures
        vec.len() == length,
        all_digits(vec@),
        as_bools(vec@) == selector_bits(input as nat, 4, length as nat),
{
    let masked = masking_chunk_msb(input, GROUP_SIZE, length);
    let mut vec: Vec<usize> = Vec::with_capacity(length);
    let mut i: usize = 0;
    while i < length
        invariant
            i <= length,
            length <= usize::BITS,
            masked == mask_encode(input as nat, 4, length as nat),
            vec.len() == i,
            forall|k: int|
                0 <= k < i ==> #[trigger] vec[k] == digit(
                    bit(masked as nat, (length - 1 - k) as nat),
                ),
        decreases length - i,
    {
        vec.push(bit_at(masked as u64, (length - 1 - i) as u64) as usize);
        i += 1;
    }
    proof {
        assert(as_bools(vec@) =~= selector_bits(input as nat, 4, length as nat));
    }
    vec
}

/// The controls of one operand, listed from the least significant place.
/// An encrypted operand takes them from the selector list, where its bits
/// stand from place `base` on, the most significant first; a plain operand
/// has the selector bits of its value.
pub open spec fn operand_controls(encrypted: bool, base: nat, value: nat, w: nat) -> Seq<Control> {
    Seq::new(
        w,
        |q: int|
            if encrypted {
                Control::Encrypted((base + w - 1 - q) as usize)
            } else {
                Control::Plain(encode_bits(to_bits(value, w), 4)[q])
            },
    )
}

/// The controls of an encrypted operand, listed from the least significant
/// place.
pub fn encrypted_controls(base: usize, w: usize) -> (controls: Vec<Control>)
    requires
        base + w <= usize::MAX,
    ensures
        controls@ == operand_controls(true, base as nat, 0, w as nat),
{
    let mut controls: Vec<Control> = Vec::with_capacity(w);
    let mut q: usize = 0;
    while q < w
        invariant
            q <= w,
            base + w <= usize::MAX,
            controls.len() == q,
            forall|k: int|
                0 <= k < q ==> #[trigger] controls[k] == Control::Encrypted(
                    (base + w - 1 - k) as usize,
                ),
        decreases w - q,
    {
        controls.push(Control::Encrypted(base + (w - 1 - q)));
        q += 1;
    }
    proof {
        assert(controls@ =~= operand_controls(true, base as nat, 0, w as nat));
    }
    controls
}

/// The controls of an operand known in the clear, listed from the least
/// significant place.
pub fn plain_controls(immediate: usize, w: usize) -> (controls: Vec<Control>)
    requires
        w % 4 == 0,
        w <= usize::BITS,
    ensures
        controls@ == operand_controls(false, 0, immediate as nat, w as nat),
{
    let plain_bits = encode_vec_nibbles(immediate, w);
    let mut controls: Vec<Control> = Vec::with_capacity(w);
    let mut q: usize = 0;
    while q < w
        invariant
            q <= w,
            plain_bits.len() == w,
            all_digits(plain_bits@),
            as_bools(plain_bits@) == selector_bits(immediate as nat, 4, w as nat),
            controls.len() == q,
            forall|k: int|
                0 <= k < q ==> #[trigger] controls[k] == Control::Plain(
                    encode_bits(to_bits(immediate as nat, w as nat), 4)[k],
                ),
        decreases w - q,
    {
        proof {
            lemma_selector_bits(immediate as nat, 4, w as nat, q as nat);
            assert(as_bools(plain_bits@)[w - 1 - q] == (plain_bits[w - 1 - q] != 0));
        }
        controls.push(Control::Plain(plain_bits[w - 1 - q] != 0));
        q += 1;
    }
    proof {
        assert(controls@ =~= operand_controls(false, 0, immediate as nat, w as nat));
    }
    controls
}

/// The controls of the first operand of a comparison.
pub open spec fn first_controls(op_type: OperandType, immediate: nat, w: nat) -> Seq<Control> {
    operand_controls(op_type != OperandType::PlainCipher, 0, immediate, w)
}

/// The controls of the second operand of a comparison. Where both operands
/// are encrypted, the selector bits of the second follow those of the first.
pub open spec fn second_controls(op_type: OperandType, immediate: nat, w: nat) -> Seq<Control> {
    operand_controls(
        op_type != OperandType::CipherPlain,
        if op_type == OperandType::BothCipher {
            w
        } else {
            0
        },
        immediate,
        w,
    )
}

/// The selections of the comparison tree on words of `w` digits.
pub open spec fn comparison_gates(op_type: OperandType, immediate: nat, w: nat) -> Seq<Gate> {
    tree_gates(
        first_controls(op_type, immediate, w),
        second_controls(op_type, immediate, w),
        4,
        w,
    )
}

/// The selections of the comparison tree on words of `w` digits, for the
/// given kind of operands and, where one operand is plain, its value.
pub fn comparison_circuit(op_type: OperandType, immediate: usize, w: usize) -> (gates: Vec<Gate>)
    requires
        w % 4 == 0,
        w <= usize::BITS,
    ensures
        gates@ == comparison_gates(op_type, immediate as nat, w as nat),
        gates_fit(gates@, SLOTS as nat, selector_width(op_type, w as nat)),
{
    let first = match op_type {
        OperandType::PlainCipher => plain_controls(immediate, w),
        _ => encrypted_controls(0, w),
    };
    let second = match op_type {
        OperandType::BothCipher => encrypted_controls(w, w),
        OperandType::CipherPlain => plain_controls(immediate, w),
        OperandType::PlainCipher => encrypted_controls(0, w),
    };
    proof {
        let n = selector_width(op_type, w as nat);
        assert(first@ =~= first_controls(op_type, immediate as nat, w as nat));
        assert(second@ =~= second_controls(op_type, immediate as nat, w as nat));
        assert(controls_fit(first@, n));
        assert(controls_fit(second@, n));
        lemma_tree_fits(first@, second@, 4, w as nat, n);
    }
    build_tree(&first, &second, GROUP_SIZE)
}

/// The selector bits that the tree is run on: those of the encrypted
/// operands, the first operand's before the second's.
pub open spec fn comparison_selectors(op_type: OperandType, a: nat, b: nat, w: nat) -> Seq<bool> {
    match op_type {
        OperandType::BothCipher => selector_bits(a, 4, w) + selector_bits(b, 4, w),
        OperandType::CipherPlain => selector_bits(a, 4, w),
        OperandType::PlainCipher => selector_bits(b, 4, w),
    }
}

/// The controls of an operand take the masked digits of its value.
proof fn lemma_operand_control_values(
    encrypted: bool,
    base: nat,
    value: nat,
    w: nat,
    sel: Seq<bool>,
)
    requires
        base + w <= usize::MAX,
        encrypted ==> base + w <= sel.len(),
        encrypted ==> forall|i: int|
            0 <= i < w ==> sel[base + i] == #[trigger] selector_bits(value, 4, w)[i],
    ensures
        control_values(operand_controls(encrypted, base, value, w), sel) == encode_bits(
            to_bits(value, w),
            4,
        ),
{
    let controls = operand_controls(encrypted, base, value, w);
    let masked = encode_bits(to_bits(value, w), 4);
    assert forall|q: int| 0 <= q < w implies control_value(controls[q], sel) == masked[q] by {
        if encrypted {
            lemma_selector_bits(value, 4, w, q as nat);
            assert(sel[base + (w - 1 - q)] == selector_bits(value, 4, w)[w - 1 - q]);
        }
    }
    assert(control_values(controls, sel) =~= masked);
}

/// The comparison tree is right. Run on the selector bits of the encrypted
/// operands, with any three values in the registers for "greater", "equal"
/// and "less", it leaves in the register of the running outcome the value
/// for how `a` stands to `b`. A plain operand is the constant reduced to the
/// width.
pub proof fn lemma_comparison_circuit<T>(
    op_type: OperandType,
    immediate: nat,
    a: nat,
    b: nat,
    w: nat,
    regs: Seq<T>,
)
    requires
        w % 4 == 0,
        2 * w <= usize::MAX,
        a < pow2(w),
        b < pow2(w),
        op_type == OperandType::CipherPlain ==> b == immediate % pow2(w),
        op_type == OperandType::PlainCipher ==> a == immediate % pow2(w),
        regs.len() == SLOTS,
    ensures
        run_gates(
            comparison_gates(op_type, immediate, w),
            regs,
            comparison_selectors(op_type, a, b, w),
        )[EQUAL as int] == pick(
            relation_of(a, b),
            regs[GREATER as int],
            regs[EQUAL as int],
            regs[LESS as int],
        ),
{
    let sel = comparison_selectors(op_type, a, b, w);
    let ca = first_controls(op_type, immediate, w);
    let cb = second_controls(op_type, immediate, w);
    assert(to_bits(immediate % pow2(w), w) =~= to_bits(immediate, w)) by {
        assert forall|i: int| 0 <= i < w implies #[trigger] to_bits(immediate % pow2(w), w)[i]
            == to_bits(immediate, w)[i] by {
            lemma_bit_of_mod(immediate, w, i as nat);
        }
    }
    match op_type {
        OperandType::BothCipher => {
            lemma_operand_control_values(true, 0, a, w, sel);
            lemma_operand_control_values(true, w, b, w, sel);
        },
        OperandType::CipherPlain => {
            lemma_operand_control_values(true, 0, a, w, sel);
            lemma_operand_control_values(false, 0, immediate, w, sel);
        },
        OperandType::PlainCipher => {
            lemma_operand_control_values(false, 0, immediate, w, sel);
            lemma_operand_control_values(true, 0, b, w, sel);
        },
    }
    assert(operand_controls(true, 0, a, w) =~= operand_controls(true, 0, immediate, w));
    assert(operand_controls(true, 0, b, w) =~= operand_controls(true, 0, immediate, w));
    assert(operand_controls(true, w, b, w) =~= operand_controls(true, w, immediate, w));
    lemma_tree_gates(ca, cb, 4, w, regs, sel);
    lemma_small_mod(0, 4);
    lemma_tree_compares(
        a,
        b,
        w,
        4,
        regs[GREATER as int],
        regs[EQUAL as int],
        regs[LESS as int],
    );
}

/// The width of the operands that a list of `count` selector bits stands
/// for: half the bits belong to each operand where both are encrypted.
pub open spec fn operand_width(op_type: OperandType, count: nat) -> nat {
    if op_type == OperandType::BothCipher {
        count / 2
    } else {
        count
    }
}

/// What the tree asks of selector bits of a shape, of the polynomial size
/// of the transform plan and of the output ciphertexts: selector bits for
/// whole groups of every encrypted operand, a transform plan of their
/// polynomial size, and at least one output ciphertext, each of the length
/// that sample extraction yields.
pub open spec fn tree_fits(
    op_type: OperandType,
    shape: SelectorShape,
    plan_size: nat,
    lwe_outs: Seq<Vec<u64>>,
) -> bool {
    let n = shape.polynomial_size;
    let k = shape.glwe_size;
    let count = shape.count;
    &&& shape_steers(shape, plan_size, k * n)
    &&& k * n <= usize::MAX
    &&& count == selector_width(op_type, operand_width(op_type, count))
    &&& operand_width(op_type, count) % 4 == 0
    &&& operand_width(op_type, count) <= usize::BITS
    &&& lwe_outs.len() > 0
    &&& forall|i: int| 0 <= i < lwe_outs.len() ==> (#[trigger] lwe_outs[i]).len() == (k - 1) * n + 1
}

/// What the tree asks of its arguments.
pub open spec fn tree_ready(
    op_type: OperandType,
    bits: SelectorBits,
    fft: Fft,
    lwe_outs: Seq<Vec<u64>>,
) -> bool {
    tree_fits(op_type, shape_of(bits), fft_polynomial_size(fft), lwe_outs)
}

/// The comparison tree on ciphertexts answers with the ciphertext of the
/// relation, wherever the selection primitive selects. Given a reading of
/// ciphertexts and the ciphertexts that count as valid: if the primitive, on
/// valid ciphertexts and on every encrypted bit, gives a valid ciphertext
/// that reads as the source which the selector bit of the operands picks,
/// then the outcome of the tree, run from any valid registers, reads as the
/// register of "greater", of "equal" or of "less" as the first operand stands
/// to the second.
pub proof fn lemma_comparison_reads<T>(
    op_type: OperandType,
    immediate: nat,
    a: nat,
    b: nat,
    w: nat,
    regs: Seq<Seq<u64>>,
    bits: SelectorBits,
    fft: Fft,
    read: spec_fn(Seq<u64>) -> T,
    valid: spec_fn(Seq<u64>) -> bool,
)
    requires
        w % 4 == 0,
        2 * w <= usize::MAX,
        a < pow2(w),
        b < pow2(w),
        op_type == OperandType::CipherPlain ==> b == immediate % pow2(w),
        op_type == OperandType::PlainCipher ==> a == immediate % pow2(w),
        regs.len() == SLOTS,
        forall|i: int| 0 <= i < regs.len() ==> valid(#[trigger] regs[i]),
        forall|x: Seq<u64>, y: Seq<u64>, k: nat|
            k < selector_width(op_type, w) && valid(x) && valid(y) ==> {
                &&& valid(#[trigger] cmux_value(x, y, bits, k, fft))
                &&& read(cmux_value(x, y, bits, k, fft)) == (if comparison_selectors(
                    op_type,
                    a,
                    b,
                    w,
                )[k as int] {
                    read(y)
                } else {
                    read(x)
                })
            },
    ensures
        valid(run_selections(comparison_gates(op_type, immediate, w), regs, bits, fft)[EQUAL as int]),
        read(run_selections(comparison_gates(op_type, immediate, w), regs, bits, fft)[EQUAL as int])
            == pick(
            relation_of(a, b),
            read(regs[GREATER as int]),
            read(regs[EQUAL as int]),
            read(regs[LESS as int]),
        ),
{
    let gates = comparison_gates(op_type, immediate, w);
    let sel = comparison_selectors(op_type, a, b, w);
    let first = first_controls(op_type, immediate, w);
    let second = second_controls(op_type, immediate, w);
    assert(sel.len() == selector_width(op_type, w));
    assert(controls_fit(first, sel.len()));
    assert(controls_fit(second, sel.len()));
    lemma_tree_fits(first, second, 4, w, sel.len());
    lemma_selections_read(gates, regs, bits, fft, sel, read, valid);
    let readings = regs.map_values(read);
    lemma_comparison_circuit(op_type, immediate, a, b, w, readings);
    let out = run_selections(gates, regs, bits, fft);
    assert(out.map_values(read)[EQUAL as int] == read(out[EQUAL as int]));
    assert(readings[GREATER as int] == read(regs[GREATER as int]));
    assert(readings[EQUAL as int] == read(regs[EQUAL as int]));
    assert(readings[LESS as int] == read(regs[LESS as int]));
}

/// Whether the tree can be run on selector bits of the given shape.
fn shape_fits(
    op_type: OperandType,
    count: usize,
    k: usize,
    n: usize,
    base_log: usize,
    level_count: usize,
    plan_size: usize,
    lwe_outs: &Vec<Vec<u64>>,
) -> (ok: bool)
    ensures
        ok == tree_fits(
            op_type,
            (SelectorShape {
                count: count as nat,
                glwe_size: k as nat,
                polynomial_size: n as nat,
                base_log: base_log as nat,
                level_count: level_count as nat,
            }),
            plan_size as nat,
            lwe_outs@,
        ),
{
    if n == 0 || n % 8 != 0 || k == 0 || plan_size != n || lwe_outs.len() == 0 || base_log == 0
        || level_count == 0 {
        return false;
    }
    let glwe_len = match k.checked_mul(n) {
        Some(v) => v,
        None => {
            return false;
        },
    };
    let decomposed = match base_log.checked_mul(level_count) {
        Some(v) => v,
        None => {
            return false;
        },
    };
    if decomposed >= 64 {
        return false;
    }
    let w = match op_type {
        OperandType::BothCipher => count / 2,
        _ => count,
    };
    let both = match op_type {
        OperandType::BothCipher => true,
        _ => false,
    };
    if (both && count % 2 != 0) || w % 4 != 0 || w > usize::BITS as usize {
        return false;
    }
    proof {
        lemma_mul_is_distributive_sub_other_way(n as int, k as int, 1);
        lemma_mul_nonnegative((k - 1) as int, n as int);
    }
    let lwe_len = (k - 1) * n + 1;
    let mut i: usize = 0;
    while i < lwe_outs.len()
        invariant
            i <= lwe_outs.len(),
            lwe_len == (k - 1) * n + 1,
            forall|j: int| 0 <= j < i ==> (#[trigger] lwe_outs[j]).len() == lwe_len,
        decreases lwe_outs.len() - i,
    {
        if lwe_outs[i].len() != lwe_len {
            proof {
                assert(lwe_outs@[i as int].len() != (k - 1) * n + 1);
            }
            return false;
        }
        i += 1;
    }
    true
}

/// Whether the tree can be run on these arguments.
pub fn can_run_tree(
    op_type: OperandType,
    bits: &SelectorBits,
    fft: &Fft,
    lwe_outs: &Vec<Vec<u64>>,
) -> (ok: bool)
    ensures
        ok == tree_ready(op_type, *bits, *fft, lwe_outs@),
{
    shape_fits(
        op_type,
        bits.count(),
        bits.glwe_size(),
        bits.polynomial_size(),
        bits.base_log(),
        bits.level_count(),
        fft_size(fft),
        lwe_outs,
    )
}

/// The plaintext that stands for the truth value one.
pub const TRUTH_SCALE: u64 = 0x1000_0000_0000_0000;

/// The registers that the tree starts from: the trivial encryptions of the
/// three values that stand for "greater", "equal" and "less", each value in
/// every coefficient, and zero ciphertexts for the candidates.
pub open spec fn tree_registers(greater: u64, equal: u64, less: u64, n: nat, k: nat) -> Seq<
    Seq<u64>,
> {
    Seq::new(
        SLOTS as nat,
        |s: int|
            if s == GREATER {
                trivial_encryption(Seq::new(n, |i: int| greater), k)
            } else if s == EQUAL {
                trivial_encryption(Seq::new(n, |i: int| equal), k)
            } else if s == LESS {
                trivial_encryption(Seq::new(n, |i: int| less), k)
            } else {
                zero_words(k * n)
            },
    )
}

/// The ciphertext of the outcome once the comparison tree has run on the
/// selector bits: the register of the running outcome after all selections.
pub open spec fn comparison_state(
    op_type: OperandType,
    immediate: nat,
    op: ArithmeticOp,
    bits: SelectorBits,
    fft: Fft,
) -> Seq<u64> {
    let truth = relation_truth(op);
    run_selections(
        comparison_gates(op_type, immediate, operand_width(op_type, selector_count(bits))),
        tree_registers(
            (truth.0 * TRUTH_SCALE) as u64,
            (truth.1 * TRUTH_SCALE) as u64,
            (truth.2 * TRUTH_SCALE) as u64,
            selector_polynomial_size(bits),
            selector_glwe_size(bits),
        ),
        bits,
        fft,
    )[EQUAL as int]
}

/// The LWE ciphertext of the truth value: the sample of the outcome at the
/// constant term.
pub open spec fn comparison_result(
    op_type: OperandType,
    immediate: nat,
    op: ArithmeticOp,
    bits: SelectorBits,
    fft: Fft,
) -> Seq<u64> {
    sample_extract_value(
        comparison_state(op_type, immediate, op, bits, fft),
        selector_polynomial_size(bits),
        0,
    )
}

/// What the tree leaves in the output ciphertexts: as many as before and of
/// the same length, all but the last being zero and the last being
/// `result`.
pub open spec fn tree_outputs(before: Seq<Vec<u64>>, after: Seq<Vec<u64>>, result: Seq<u64>) -> bool {
    &&& after.len() == before.len()
    &&& after.len() > 0
    &&& forall|i: int| 0 <= i < after.len() ==> (#[trigger] after[i]).len() == before[i].len()
    &&& forall|i: int|
        0 <= i < after.len() - 1 ==> (#[trigger] after[i])@ == zero_words(before[i].len() as nat)
    &&& after[after.len() - 1]@ == result
}

/// Runs the comparison tree on selector bits and writes the truth value of
/// the relation into the last output ciphertext, zero into the others.
fn compare_tree(
    op_type: OperandType,
    immediate: usize,
    input: &SelectorBits,
    lwe_outs: &mut Vec<Vec<u64>>,
    op: ArithmeticOp,
    fft: &Fft,
)
    requires
        tree_ready(op_type, *input, *fft, old(lwe_outs)@),
    ensures
        tree_outputs(
            old(lwe_outs)@,
            final(lwe_outs)@,
            comparison_result(op_type, immediate as nat, op, *input, *fft),
        ),
{
    let n = input.polynomial_size();
    let k = input.glwe_size();
    let count = input.count();
    let w = match op_type {
        OperandType::BothCipher => count / 2,
        _ => count,
    };
    let gates = comparison_circuit(op_type, immediate, w);
    let values = relation_values(op);
    let encoded_msg_1: u64 = TRUTH_SCALE;
    let greater_plain = constant_polynomial(values.0 * encoded_msg_1, n);
    let equiv_plain = constant_polynomial(values.1 * encoded_msg_1, n);
    let less_plain = constant_polynomial(values.2 * encoded_msg_1, n);
    proof {
        assert(greater_plain@ =~= Seq::new(n as nat, |i: int| (values.0 * encoded_msg_1) as u64));
        assert(equiv_plain@ =~= Seq::new(n as nat, |i: int| (values.1 * encoded_msg_1) as u64));
        assert(less_plain@ =~= Seq::new(n as nat, |i: int| (values.2 * encoded_msg_1) as u64));
    }
    let greater = trivial_glwe(&greater_plain, k);
    let equiv = trivial_glwe(&equiv_plain, k);
    let less = trivial_glwe(&less_plain, k);
    let blank = zero_ciphertext(k * n);
    let mut regs: Vec<Vec<u64>> = Vec::new();
    regs.push(greater);
    regs.push(equiv);
    regs.push(less);
    let ghost start = tree_registers(
        (values.0 * encoded_msg_1) as u64,
        (values.1 * encoded_msg_1) as u64,
        (values.2 * encoded_msg_1) as u64,
        n as nat,
        k as nat,
    );
    let mut s: usize = 3;
    while s < SLOTS
        invariant
            3 <= s <= SLOTS,
            regs.len() == s,
            blank.len() == k * n,
            blank@ == zero_words((k * n) as nat),
            forall|i: int| 0 <= i < s ==> (#[trigger] regs[i]).len() == k * n,
            start.len() == SLOTS,
            forall|i: int| 3 <= i < SLOTS ==> #[trigger] start[i] == zero_words((k * n) as nat),
            forall|i: int| 0 <= i < s ==> (#[trigger] regs[i])@ == start[i],
        decreases SLOTS - s,
    {
        regs.push(blank.clone());
        s += 1;
    }
    proof {
        assert(words_of(regs@) =~= start);
    }
    let out = run_encrypted(&gates, regs, input, fft);
    proof {
        assert(words_of(out@)[EQUAL as int] == out@[EQUAL as int]@);
        assert(out@[EQUAL as int].len() == k * n);
        lemma_mul_is_distributive_sub_other_way(n as int, k as int, 1);
        lemma_fundamental_div_mod_converse_mod((k * n) as int, n as int, k as int, 0);
        lemma_mul_inequality(1, k as int, n as int);
    }
    write_truth_value(&out[EQUAL], n, lwe_outs);
}

/// Writes the truth value that the ciphertext `state` holds at its constant
/// term: its sample into the last output ciphertext, zero into the others.
pub fn write_truth_value(state: &Vec<u64>, polynomial_size: usize, lwe_outs: &mut Vec<Vec<u64>>)
    requires
        polynomial_size > 0,
        state.len() >= polynomial_size,
        state.len() % polynomial_size == 0,
        old(lwe_outs).len() > 0,
        old(lwe_outs)[old(lwe_outs).len() - 1].len() == state.len() - polynomial_size + 1,
    ensures
        tree_outputs(
            old(lwe_outs)@,
            final(lwe_outs)@,
            sample_extract_value(state@, polynomial_size as nat, 0),
        ),
{
    let result = sample_extract(state, polynomial_size, 0);
    let last = lwe_outs.len() - 1;
    let mut i: usize = 0;
    while i < last
        invariant
            i <= last,
            last == old(lwe_outs).len() - 1,
            lwe_outs.len() == old(lwe_outs).len(),
            forall|j: int|
                0 <= j < lwe_outs.len() ==> (#[trigger] lwe_outs[j]).len() == old(lwe_outs)[j].len(),
            forall|j: int|
                0 <= j < i ==> (#[trigger] lwe_outs[j])@ == zero_words(
                    old(lwe_outs)[j].len() as nat,
                ),
        decreases last - i,
    {
        let len = lwe_outs[i].len();
        lwe_outs.set(i, zero_ciphertext(len));
        i += 1;
    }
    lwe_outs.set(last, result);
}

/// The comparison of two encrypted operands. The selector bits of the
/// first operand come first in `input`, those of the second follow.
pub fn opmized_compare_bothcipher(
    input: &SelectorBits,
    lwe_outs: &mut Vec<Vec<u64>>,
    op: ArithmeticOp,
    fft: &Fft,
)
    requires
        tree_ready(OperandType::BothCipher, *input, *fft, old(lwe_outs)@),
    ensures
        tree_outputs(
            old(lwe_outs)@,
            final(lwe_outs)@,
            comparison_result(OperandType::BothCipher, 0, op, *input, *fft),
        ),
{
    compare_tree(OperandType::BothCipher, 0, input, lwe_outs, op, fft);
}

/// The comparison of an encrypted operand with a constant: the operand comes
/// first in the relation.
pub fn opmized_compare_cipherplain(
    input: &SelectorBits,
    lwe_outs: &mut Vec<Vec<u64>>,
    op: ArithmeticOp,
    immediate: usize,
    fft: &Fft,
)
    requires
        tree_ready(OperandType::CipherPlain, *input, *fft, old(lwe_outs)@),
    ensures
        tree_outputs(
            old(lwe_outs)@,
            final(lwe_outs)@,
            comparison_result(OperandType::CipherPlain, immediate as nat, op, *input, *fft),
        ),
{
    compare_tree(OperandType::CipherPlain, immediate, input, lwe_outs, op, fft);
}

/// The comparison of a constant with an encrypted operand: the constant comes
/// first in the relation.
pub fn opmized_compare_plaincipher(
    input: &SelectorBits,
    lwe_outs: &mut Vec<Vec<u64>>,
    op: ArithmeticOp,
    immediate: usize,
    fft: &Fft,
)
    requires
        tree_ready(OperandType::PlainCipher, *input, *fft, old(lwe_outs)@),
    ensures
        tree_outputs(
            old(lwe_outs)@,
            final(lwe_outs)@,
            comparison_result(OperandType::PlainCipher, immediate as nat, op, *input, *fft),
        ),
{
    compare_tree(OperandType::PlainCipher, immediate, input, lwe_outs, op, fft);
}

/// The shape of the list that holds the selector bits of `first` followed by
/// those of `second`.
pub open spec fn pair_shape(first: SelectorBits, second: SelectorBits) -> SelectorShape {
    SelectorShape {
        count: selector_count(first) + selector_count(second),
        glwe_size: selector_glwe_size(first),
        polynomial_size: selector_polynomial_size(first),
        base_log: selector_base_log(first),
        level_count: selector_level_count(first),
    }
}

/// What the comparison of two encrypted operands asks of their two lists of
/// selector bits: lists of the same sizes, and together what the tree asks.
pub open spec fn pair_ready(input: Seq<SelectorBits>, fft: Fft, lwe_outs: Seq<Vec<u64>>) -> bool {
    &&& input.len() >= 2
    &&& selector_glwe_size(input[0]) == selector_glwe_size(input[1])
    &&& selector_polynomial_size(input[0]) == selector_polynomial_size(input[1])
    &&& selector_base_log(input[0]) == selector_base_log(input[1])
    &&& selector_level_count(input[0]) == selector_level_count(input[1])
    &&& tree_fits(
        OperandType::BothCipher,
        pair_shape(input[0], input[1]),
        fft_polynomial_size(fft),
        lwe_outs,
    )
}

/// Whether two encrypted operands can be compared on these arguments.
pub fn can_compare(input: &Vec<SelectorBits>, fft: &Fft, lwe_outs: &Vec<Vec<u64>>) -> (ok: bool)
    ensures
        ok == pair_ready(input@, *fft, lwe_outs@),
{
    if input.len() < 2 {
        return false;
    }
    let first = &input[0];
    let second = &input[1];
    if first.glwe_size() != second.glwe_size() || first.polynomial_size()
        != second.polynomial_size() || first.base_log() != second.base_log()
        || first.level_count() != second.level_count() {
        return false;
    }
    let count = match first.count().checked_add(second.count()) {
        Some(count) => count,
        None => {
            return false;
        },
    };
    shape_fits(
        OperandType::BothCipher,
        count,
        first.glwe_size(),
        first.polynomial_size(),
        first.base_log(),
        first.level_count(),
        fft_size(fft),
        lwe_outs,
    )
}

/// The comparison of two encrypted operands, each with a list of selector
/// bits of its own: `input[0]` holds those of the first operand, `input[1]`
/// those of the second.
pub fn opmized_compare(
    input: &Vec<SelectorBits>,
    lwe_outs: &mut Vec<Vec<u64>>,
    op: ArithmeticOp,
    fft: &Fft,
)
    requires
        pair_ready(input@, *fft, old(lwe_outs)@),
    ensures
        tree_outputs(
            old(lwe_outs)@,
            final(lwe_outs)@,
            comparison_result(
                OperandType::BothCipher,
                0,
                op,
                joined_selectors(
                    input[0],
                    selector_count(input[0]),
                    input[1],
                    selector_count(input[1]),
                ),
                *fft,
            ),
        ),
{
    let first = input[0].count();
    let second = input[1].count();
    let joined = join_selectors(&input[0], first, &input[1], second, first + second);
    opmized_compare_bothcipher(&joined, lwe_outs, op, fft);
}

} // verus!
