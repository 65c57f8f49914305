//! One operation of the engine: an opcode with its operand kind, resolved
//! once to the way it is evaluated and, for table lookups, compiled to its
//! packed polynomial tables.

use crate::layout::chunk_of;
use crate::bits::pow2_u64;
use crate::operations::cipher_lut::{
    generate_lut_from_vecs_auto, group_count, group_length, lemma_packing_serves_every_output,
    lookup_group_size, output_group, output_offset, pack_capacity, pack_factor, same_length,
    scalable,
};
use crate::primitives::{
    blind_rotate_value, cmux_tree_value,
    blind_rotate, cmux_tree, fft_polynomial_size, fft_size, sample_extract,
    sample_extract_value, selector_count, selector_glwe_size, selector_polynomial_size, shape_of,
    shape_steers, steers, SelectorBits, SelectorShape,
};
use tfhe::core_crypto::prelude::Fft;
use crate::operations::operand::{op_value, supported_width, ArithmeticOp};
use crate::operations::plain_lut::{
    build_split_lut_tables, build_split_lut_tables_cipher_plain,
    build_split_lut_tables_plain_cipher, cipher_cipher_entry, cipher_plain_entry,
    lemma_unmask_selector_index, plain_cipher_entry, selector_index, total_width, unmasked_index,
};
use crate::operations::mask_chunk::{lemma_mask_round_trip, mask_encode};
use vstd::arithmetic::div_mod::*;
use vstd::arithmetic::mul::*;
use vstd::arithmetic::power2::*;
use vstd::prelude::*;

verus! {

/// Which operands of an operation are encrypted.
#[derive(Debug, Clone, Copy, PartialEq, Eq, Structural)]
pub enum OperandType {
    BothCipher,
    PlainCipher,
    CipherPlain,
}

/// The way an operation is evaluated.
#[derive(Debug, Clone, Copy, PartialEq, Eq, Structural)]
pub enum EvaluationPath {
    /// The output register becomes a copy of the input register.
    Move,
    /// The selection tree with the three sign values.
    Sign,
    /// The selection tree with the truth values of an ordering relation.
    Comparison,
    /// A lookup in the compiled tables.
    GenericLookup,
}

/// The opcodes that stand for an ordering relation.
pub open spec fn is_relation(op: ArithmeticOp) -> bool {
    op == ArithmeticOp::GT || op == ArithmeticOp::GTE || op == ArithmeticOp::LT || op
        == ArithmeticOp::LTE || op == ArithmeticOp::EQ
}

/// The evaluation path of an opcode at a width: a move is a copy, the sign
/// has its own tree, an ordering relation on words of 16 digits or more goes
/// through the comparison tree, and everything else is a table lookup.
pub open spec fn evaluation_path(op: ArithmeticOp, bit_width: nat) -> EvaluationPath {
    if op == ArithmeticOp::MOVE {
        EvaluationPath::Move
    } else if op == ArithmeticOp::SIGN {
        EvaluationPath::Sign
    } else if is_relation(op) && bit_width >= 16 {
        EvaluationPath::Comparison
    } else {
        EvaluationPath::GenericLookup
    }
}

/// How many selector bits address the tables of an operation.
pub open spec fn selector_width(op_type: OperandType, bit_width: nat) -> nat {
    if op_type == OperandType::BothCipher {
        2 * bit_width
    } else {
        bit_width
    }
}

/// The result of an operation on the operands that the masked selector
/// index `s` stands for.
pub open spec fn lookup_result(
    op: ArithmeticOp,
    op_type: OperandType,
    immediate: nat,
    s: nat,
    w: usize,
    m: nat,
) -> nat {
    match op_type {
        OperandType::BothCipher => cipher_cipher_entry(
            op,
            unmasked_index(s, seq![w, w], m),
            w as nat,
        ),
        OperandType::CipherPlain => cipher_plain_entry(
            op,
            unmasked_index(s, seq![w], m),
            immediate,
            w as nat,
        ),
        OperandType::PlainCipher => plain_cipher_entry(
            op,
            unmasked_index(s, seq![w], m),
            immediate,
            w as nat,
        ),
    }
}

pub struct Operation {
    pub op: ArithmeticOp,
    pub op_type: OperandType,
    pub bit_width: usize,
    pub chunk_size: usize,
    /// The packed polynomial tables, one list of coefficients per group.
    pub cipher_lut: Vec<Vec<u64>>,
    /// How many tables share one polynomial.
    pub lut_pack_size: usize,
    pub immediate: Option<usize>,
}

impl Operation {
    /// The way this operation is evaluated.
    pub open spec fn path(&self) -> EvaluationPath {
        evaluation_path(self.op, self.bit_width as nat)
    }

    /// How many output chunks the operation has.
    pub open spec fn output_count(&self) -> nat {
        (self.bit_width / self.chunk_size) as nat
    }

    /// How many entries each of its tables has.
    pub open spec fn table_length(&self) -> nat {
        pow2(selector_width(self.op_type, self.bit_width as nat))
    }

    /// The constant operand, or zero where there is none.
    pub open spec fn constant(&self) -> nat {
        match self.immediate {
            Some(v) => v as nat,
            None => 0,
        }
    }

    /// The tables of a lookup operation are compiled for polynomials of
    /// `poly_size` coefficients and the scale `delta`: for every output
    /// chunk `k` and every masked selector index `s`, the coefficient that the
    /// lookup reads is `delta` times chunk `k` of the operation's result.
    pub open spec fn compiled_for(&self, poly_size: nat, delta: u64) -> bool {
        let total = self.output_count();
        let len = self.table_length();
        let pack = self.lut_pack_size as nat;
        &&& pack == pack_factor(poly_size, len)
        &&& self.cipher_lut.len() == group_count(total, poly_size, len)
        &&& forall|g: int|
            0 <= g < self.cipher_lut.len() ==> (#[trigger] self.cipher_lut[g]).len()
                == group_length(poly_size, len)
        &&& forall|k: nat, s: nat|
            k < total && s < len ==> #[trigger] self.lookup_coefficient(k, s) == delta * chunk_of(
                lookup_result(
                    self.op,
                    self.op_type,
                    self.constant(),
                    s,
                    self.bit_width,
                    self.chunk_size as nat,
                ),
                k,
                total,
                self.chunk_size as nat,
            )
    }

    /// The coefficient that the lookup for output chunk `k` reads at the
    /// masked selector index `s`.
    pub open spec fn lookup_coefficient(&self, k: nat, s: nat) -> int {
        let total = self.output_count();
        let pack = self.lut_pack_size as nat;
        self.cipher_lut[output_group(k, pack, total) as int][(output_offset(
            k,
            pack,
            total,
            self.table_length(),
        ) + s) as int] as int
    }

    /// What `new` asks of the parameters of a lookup operation: a width that
    /// the chunk size divides, tables that fit in memory, a constant where an
    /// operand is plain, and a scale under which every chunk fits in a
    /// coefficient.
    pub open spec fn compilable(
        op_type: OperandType,
        bit_width: usize,
        chunk_size: usize,
        poly_size: usize,
        delta: u64,
        immediate: Option<usize>,
    ) -> bool {
        &&& supported_width(bit_width as nat)
        &&& chunk_size > 0
        &&& bit_width % chunk_size == 0
        &&& poly_size > 0
        &&& selector_width(op_type, bit_width as nat) < usize::BITS
        &&& pow2(selector_width(op_type, bit_width as nat)) + poly_size <= usize::MAX
        &&& (op_type != OperandType::BothCipher ==> immediate.is_some())
        &&& (pow2(chunk_size as nat) - 1) * delta <= u64::MAX
    }

    /// Whether the tables of a lookup can be compiled.
    pub fn can_compile(
        op_type: OperandType,
        bit_width: usize,
        chunk_size: usize,
        poly_size: usize,
        delta: u64,
        immediate: Option<usize>,
    ) -> (ok: bool)
        ensures
            ok == Self::compilable(op_type, bit_width, chunk_size, poly_size, delta, immediate),
    {
        if !(bit_width == 8 || bit_width == 16 || bit_width == 32) || chunk_size == 0
            || chunk_size > bit_width || bit_width % chunk_size != 0 || poly_size == 0 {
            proof {
                if chunk_size > bit_width && bit_width > 0 {
                    lemma_small_mod(bit_width as nat, chunk_size as nat);
                }
            }
            return false;
        }
        let both = matches!(op_type, OperandType::BothCipher);
        let width: usize = if both {
            2 * bit_width
        } else {
            bit_width
        };
        if width >= usize::BITS as usize {
            return false;
        }
        proof {
            vstd::bits::lemma_usize_pow2_no_overflow(width as nat);
        }
        let entries = pow2_u64(width as u64) as usize;
        if entries > usize::MAX - poly_size {
            return false;
        }
        if !both && immediate.is_none() {
            return false;
        }
        proof {
            lemma_pow2_pos(chunk_size as nat);
        }
        let top = pow2_u64(chunk_size as u64) - 1;
        top.checked_mul(delta).is_some()
    }

    /// Resolves the evaluation path of the opcode and, for a table lookup,
    /// compiles the tables.
    pub fn new(
        op: ArithmeticOp,
        op_type: OperandType,
        bit_width: usize,
        chunk_size: usize,
        poly_size: usize,
        delta: u64,
        immediate: Option<usize>,
    ) -> (operation: Self)
        requires
            evaluation_path(op, bit_width as nat) == EvaluationPath::GenericLookup
                ==> Self::compilable(op_type, bit_width, chunk_size, poly_size, delta, immediate),
        ensures
            operation.op == op,
            operation.op_type == op_type,
            operation.bit_width == bit_width,
            operation.chunk_size == chunk_size,
            operation.immediate == immediate,
            operation.path() == EvaluationPath::GenericLookup ==> operation.compiled_for(
                poly_size as nat,
                delta,
            ),
            operation.path() != EvaluationPath::GenericLookup ==> operation.cipher_lut.len() == 0
                && operation.lut_pack_size == 0,
    {
        if matches!(op, ArithmeticOp::MOVE | ArithmeticOp::SIGN) {
            Operation {
                op,
                op_type,
                bit_width,
                chunk_size,
                cipher_lut: Vec::new(),
                lut_pack_size: 0,
                immediate,
            }
        } else if matches!(
            op,
            ArithmeticOp::GT | ArithmeticOp::GTE | ArithmeticOp::LT | ArithmeticOp::LTE
                | ArithmeticOp::EQ
        ) && bit_width >= 16 {
            Operation {
                op,
                op_type,
                bit_width,
                chunk_size,
                cipher_lut: Vec::new(),
                lut_pack_size: 0,
                immediate,
            }
        } else {
            let ghost total = (bit_width / chunk_size) as nat;
            let ghost constant: nat = match immediate {
                Some(v) => v as nat,
                None => 0,
            };
            proof {
                lemma_fundamental_div_mod(bit_width as int, chunk_size as int);
                lemma_mul_is_commutative(chunk_size as int, total as int);
                assert(total > 0) by {
                    if total == 0 {
                        assert(0 * chunk_size == 0);
                    }
                }
                assert(total <= bit_width) by {
                    lemma_mul_inequality(1, chunk_size as int, total as int);
                    lemma_mul_is_commutative(chunk_size as int, total as int);
                }
            }
            let plain_lut = match op_type {
                OperandType::BothCipher => {
                    let widths = vec![bit_width, bit_width];
                    proof {
                        assert(widths@ =~= seq![bit_width, bit_width]);
                        assert(total_width(widths@) == 2 * bit_width) by {
                            reveal_with_fuel(crate::operations::plain_lut::offset_of, 3);
                        }
                    }
                    build_split_lut_tables(bit_width, widths, chunk_size, &op)
                },
                OperandType::PlainCipher => {
                    let widths = vec![bit_width];
                    proof {
                        assert(widths@ =~= seq![bit_width]);
                        assert(total_width(widths@) == bit_width) by {
                            reveal_with_fuel(crate::operations::plain_lut::offset_of, 2);
                        }
                    }
                    build_split_lut_tables_plain_cipher(
                        bit_width,
                        immediate.unwrap(),
                        widths,
                        chunk_size,
                        &op,
                    )
                },
                OperandType::CipherPlain => {
                    let widths = vec![bit_width];
                    proof {
                        assert(widths@ =~= seq![bit_width]);
                        assert(total_width(widths@) == bit_width) by {
                            reveal_with_fuel(crate::operations::plain_lut::offset_of, 2);
                        }
                    }
                    build_split_lut_tables_cipher_plain(
                        bit_width,
                        immediate.unwrap(),
                        widths,
                        chunk_size,
                        &op,
                    )
                },
            };
            let ghost len = pow2(selector_width(op_type, bit_width as nat));
            proof {
                assert(same_length(plain_lut@, len));
                assert forall|k: int, s: int|
                    0 <= k < plain_lut.len() && 0 <= s < len implies #[trigger] plain_lut[k][s]
                    == chunk_of(
                    lookup_result(op, op_type, constant, s as nat, bit_width, chunk_size as nat),
                    k as nat,
                    total,
                    chunk_size as nat,
                ) by {}
                lemma_pow2_pos(chunk_size as nat);
                lemma_pow2_pos(selector_width(op_type, bit_width as nat));
                assert(plain_lut.len() < len) by {
                    lemma2_to64();
                    if 8 < selector_width(op_type, bit_width as nat) {
                        lemma_pow2_strictly_increases(
                            8,
                            selector_width(op_type, bit_width as nat),
                        );
                    }
                }
                assert(scalable(plain_lut@, delta)) by {
                    assert forall|k: int, s: int|
                        0 <= k < plain_lut.len() && 0 <= s < plain_lut[k].len()
                        implies #[trigger] plain_lut[k][s] * delta <= u64::MAX by {
                        let v = lookup_result(
                            op,
                            op_type,
                            constant,
                            s as nat,
                            bit_width,
                            chunk_size as nat,
                        );
                        lemma_mod_bound(
                            (v / pow2(((total - 1 - k) * chunk_size) as nat)) as int,
                            pow2(chunk_size as nat) as int,
                        );
                        lemma_mul_inequality(
                            plain_lut[k][s] as int,
                            pow2(chunk_size as nat) - 1,
                            delta as int,
                        );
                    }
                }
            }
            let (cipher_lut, lut_pack_size) = generate_lut_from_vecs_auto(
                plain_lut.as_slice(),
                poly_size,
                delta,
            );
            let operation = Operation {
                op,
                op_type,
                bit_width,
                chunk_size,
                cipher_lut,
                lut_pack_size,
                immediate,
            };
            proof {
                assert forall|k: nat, s: nat|
                    k < total && s < len implies #[trigger] operation.lookup_coefficient(k, s)
                    == delta * chunk_of(
                    lookup_result(op, op_type, constant, s, bit_width, chunk_size as nat),
                    k,
                    total,
                    chunk_size as nat,
                ) by {
                    lemma_packing_serves_every_output(
                        plain_lut@,
                        delta,
                        poly_size as nat,
                        len,
                        k,
                        s,
                    );
                    lemma_mul_is_commutative(delta as int, plain_lut[k as int][s as int] as int);
                }
            }
            operation
        }
    }
}

/// A compiled lookup operation answers with the operation's result: for
/// operands `a` and `b`, the coefficient that the lookup for output chunk
/// `k` reads at the index addressed by the operands' selector bits is `delta`
/// times chunk `k` of `op(a, b)`.
pub proof fn lemma_lookup_finds_result(
    operation: Operation,
    poly_size: nat,
    delta: u64,
    a: nat,
    b: nat,
    k: nat,
)
    requires
        operation.op_type == OperandType::BothCipher,
        operation.chunk_size > 0,
        operation.compiled_for(poly_size, delta),
        a < pow2(operation.bit_width as nat),
        b < pow2(operation.bit_width as nat),
        k < operation.output_count(),
    ensures
        operation.lookup_coefficient(
            k,
            selector_index(a, b, operation.bit_width as nat, operation.chunk_size as nat),
        ) == delta * chunk_of(
            op_value(operation.op, a, b, operation.bit_width as nat),
            k,
            operation.output_count(),
            operation.chunk_size as nat,
        ),
{
    let w = operation.bit_width;
    let m = operation.chunk_size as nat;
    let p = pow2(w as nat);
    let s = selector_index(a, b, w as nat, m);
    lemma_unmask_selector_index(a, b, w, m);
    lemma_pow2_pos(w as nat);
    lemma_mul_is_commutative(a as int, p as int);
    lemma_fundamental_div_mod_converse((a * p + b) as int, p as int, a as int, b as int);
    assert(s < operation.table_length());
}

/// The same for an operation with a constant operand: the coefficient read
/// at the index addressed by the selector bits of `a` is `delta` times chunk
/// `k` of `op(a, c)`, or of `op(c, a)` where the constant comes first, `c`
/// being the constant reduced to the width.
pub proof fn lemma_lookup_finds_result_with_constant(
    operation: Operation,
    poly_size: nat,
    delta: u64,
    a: nat,
    k: nat,
)
    requires
        operation.op_type != OperandType::BothCipher,
        operation.chunk_size > 0,
        operation.compiled_for(poly_size, delta),
        a < pow2(operation.bit_width as nat),
        k < operation.output_count(),
    ensures
        operation.lookup_coefficient(
            k,
            mask_encode(a, operation.chunk_size as nat, operation.bit_width as nat),
        ) == delta * chunk_of(
            if operation.op_type == OperandType::CipherPlain {
                op_value(
                    operation.op,
                    a,
                    operation.constant() % pow2(operation.bit_width as nat),
                    operation.bit_width as nat,
                )
            } else {
                op_value(
                    operation.op,
                    operation.constant() % pow2(operation.bit_width as nat),
                    a,
                    operation.bit_width as nat,
                )
            },
            k,
            operation.output_count(),
            operation.chunk_size as nat,
        ),
{
    let w = operation.bit_width;
    let m = operation.chunk_size as nat;
    let widths = seq![w];
    let s = mask_encode(a, m, w as nat);
    lemma_mask_round_trip(a, m, w as nat);
    lemma_small_mod(a, pow2(w as nat));
    assert(pow2(0) == 1) by {
        lemma2_to64();
    }
    assert(unmasked_index(s, widths, m) == a) by {
        assert(crate::operations::plain_lut::offset_of(widths, 0) == 0);
        assert(s as int / 1 == s);
        lemma_small_mod(s, pow2(w as nat));
        assert(crate::operations::plain_lut::block_at(s, widths, 0) == s);
        assert(crate::operations::plain_lut::blockwise(s, widths, m, true, 0) == 0);
        assert(crate::operations::plain_lut::blockwise(s, widths, m, true, 1) == 0
            + crate::operations::plain_lut::block_transform(s, m, w as nat, true) * pow2(0));
    }
    assert(s < operation.table_length());
}

/// The evaluation path of an opcode at a width.
pub fn path_of(op: ArithmeticOp, bit_width: usize) -> (path: EvaluationPath)
    ensures
        path == evaluation_path(op, bit_width as nat),
{
    if matches!(op, ArithmeticOp::MOVE) {
        EvaluationPath::Move
    } else if matches!(op, ArithmeticOp::SIGN) {
        EvaluationPath::Sign
    } else if matches!(
        op,
        ArithmeticOp::GT | ArithmeticOp::GTE | ArithmeticOp::LT | ArithmeticOp::LTE
            | ArithmeticOp::EQ
    ) && bit_width >= 16 {
        EvaluationPath::Comparison
    } else {
        EvaluationPath::GenericLookup
    }
}

/// The base-two logarithm of `x`, rounded down; zero for zero.
pub open spec fn log2_floor(x: nat) -> nat
    decreases x,
{
    if x <= 1 {
        0
    } else {
        1 + log2_floor(x / 2)
    }
}

/// `x` is a power of two.
pub open spec fn is_power_of_two(x: nat) -> bool {
    x == pow2(log2_floor(x))
}

/// The logarithm of a positive number lies between the powers of two that
/// enclose the number.
pub proof fn lemma_log2_floor(x: nat)
    requires
        x > 0,
    ensures
        pow2(log2_floor(x)) <= x < 2 * pow2(log2_floor(x)),
    decreases x,
{
    if x <= 1 {
        lemma2_to64();
    } else {
        lemma_log2_floor(x / 2);
        lemma_pow2_unfold(log2_floor(x));
    }
}

/// The logarithm of a power of two is its exponent.
pub proof fn lemma_log2_of_pow2(t: nat)
    ensures
        log2_floor(pow2(t)) == t,
        is_power_of_two(pow2(t)),
    decreases t,
{
    lemma2_to64();
    if t > 0 {
        lemma_pow2_unfold(t);
        lemma_pow2_pos((t - 1) as nat);
        lemma_log2_of_pow2((t - 1) as nat);
        assert(pow2(t) / 2 == pow2((t - 1) as nat));
    }
}

/// The base-two logarithm of a positive number, rounded down.
pub fn floor_log2(x: usize) -> (k: usize)
    requires
        x > 0,
    ensures
        k == log2_floor(x as nat),
        k < usize::BITS,
{
    let mut rest = x;
    let mut k: usize = 0;
    proof {
        lemma_log2_floor(x as nat);
        if log2_floor(x as nat) >= usize::BITS {
            lemma2_to64();
            if log2_floor(x as nat) > usize::BITS {
                lemma_pow2_strictly_increases(usize::BITS as nat, log2_floor(x as nat));
            }
        }
    }
    while rest > 1
        invariant
            rest > 0,
            log2_floor(x as nat) == k + log2_floor(rest as nat),
            log2_floor(x as nat) < usize::BITS,
        decreases rest,
    {
        rest = rest / 2;
        k += 1;
    }
    k
}

/// The shape of the polynomial lists of a lookup operation, for polynomials
/// of `n` coefficients where `n` is a power of two: a list holds a power of
/// two of polynomials, and no more than the selector bits can address.
pub proof fn lemma_group_shape(n: nat, sel: nat)
    requires
        n > 0,
        is_power_of_two(n),
    ensures
        group_length(n, pow2(sel)) % n == 0,
        group_length(n, pow2(sel)) >= n,
        is_power_of_two(group_length(n, pow2(sel)) / n),
        log2_floor(group_length(n, pow2(sel)) / n) <= sel,
        pack_capacity(n, pow2(sel)) >= 1 ==> pack_capacity(n, pow2(sel)) * pow2(sel) <= n,
{
    let j = log2_floor(n);
    let len = pow2(sel);
    lemma_pow2_pos(sel);
    lemma2_to64();
    if pack_capacity(n, len) >= 1 {
        lemma_mod_self_0(n as int);
        lemma_div_by_self(n as int);
        lemma_log2_of_pow2(0);
        lemma_fundamental_div_mod(n as int, len as int);
        lemma_mod_bound(n as int, len as int);
        lemma_mul_is_commutative(len as int, n as int / (len as int));
    } else {
        assert(len > n) by {
            if len <= n {
                lemma_div_is_ordered(len as int, n as int, len as int);
                lemma_div_by_self(len as int);
            }
        }
        assert(j < sel) by {
            if j >= sel {
                if j > sel {
                    lemma_pow2_strictly_increases(sel, j);
                }
            }
        }
        let t = (sel - j) as nat;
        lemma_pow2_adds(t, j);
        lemma_pow2_pos(t);
        lemma_fundamental_div_mod_converse((len + n - 1) as int, n as int, pow2(t) as int, n - 1);
        lemma_mul_is_commutative(pow2(t) as int, n as int);
        lemma_mod_multiples_basic(pow2(t) as int, n as int);
        lemma_div_multiples_vanish(pow2(t) as int, n as int);
        lemma_log2_of_pow2(t);
        lemma_mul_inequality(1, pow2(t) as int, n as int);
    }
}

/// What a packed lookup asks of its arguments: a list of a power of two of
/// whole polynomials, no more than the selector bits can address, and a
/// transform plan of the polynomial size.
pub open spec fn packing_ready(lut_len: nat, bits: SelectorBits, fft: Fft) -> bool {
    let n = selector_polynomial_size(bits);
    let k = selector_glwe_size(bits);
    &&& steers(bits, fft, k * n)
    &&& k * n <= usize::MAX
    &&& lut_len >= n
    &&& lut_len % n == 0
    &&& is_power_of_two(lut_len / n)
    &&& log2_floor(lut_len / n) <= selector_count(bits)
}

/// Writes the outputs that one packed lookup serves: from the ciphertext
/// `found`, for every output of the group that begins at output `first`, the
/// sample at the offset of its table, the tables lying `lut_size`
/// coefficients apart. The other outputs stay as they are.
pub fn extract_group(
    found: &Vec<u64>,
    polynomial_size: usize,
    first: usize,
    group_size: usize,
    lut_size: usize,
    lwe_outs: &mut Vec<Vec<u64>>,
)
    requires
        polynomial_size > 0,
        found.len() >= polynomial_size,
        found.len() % polynomial_size == 0,
        group_size > 0,
        (group_size - 1) * lut_size < polynomial_size,
        first + group_size <= usize::MAX,
    ensures
        final(lwe_outs).len() == old(lwe_outs).len(),
        forall|j: int|
            0 <= j < final(lwe_outs).len() ==> #[trigger] final(lwe_outs)[j] == old(lwe_outs)[j]
                || first <= j < first + group_size,
        forall|j: int|
            0 <= j < final(lwe_outs).len() && first <= j < first + group_size ==> (
            #[trigger] final(lwe_outs)[j])@ == sample_extract_value(
                found@,
                polynomial_size as nat,
                ((j - first) * lut_size) as nat,
            ),
        forall|j: int|
            0 <= j < final(lwe_outs).len() && first <= j < first + group_size ==> (
            #[trigger] final(lwe_outs)[j]).len() == found.len() - polynomial_size + 1,
{
    let mut i: usize = 0;
    while i < group_size && first + i < lwe_outs.len()
        invariant
            i <= group_size,
            polynomial_size > 0,
            found.len() >= polynomial_size,
            found.len() % polynomial_size == 0,
            (group_size - 1) * lut_size < polynomial_size,
            first + group_size <= usize::MAX,
            lwe_outs.len() == old(lwe_outs).len(),
            forall|j: int|
                0 <= j < lwe_outs.len() ==> #[trigger] lwe_outs[j] == old(lwe_outs)[j] || first
                    <= j < first + i,
            forall|j: int|
                0 <= j < lwe_outs.len() && first <= j < first + i ==> (#[trigger] lwe_outs[j])@
                    == sample_extract_value(
                    found@,
                    polynomial_size as nat,
                    ((j - first) * lut_size) as nat,
                ),
            forall|j: int|
                0 <= j < lwe_outs.len() && first <= j < first + i ==> (#[trigger] lwe_outs[j]).len()
                    == found.len() - polynomial_size + 1,
        decreases group_size - i,
    {
        proof {
            lemma_mul_inequality(i as int, (group_size - 1) as int, lut_size as int);
            lemma_mul_nonnegative(i as int, lut_size as int);
        }
        let sample = sample_extract(found, polynomial_size, i * lut_size);
        lwe_outs.set(first + i, sample);
        i += 1;
    }
}

/// The ciphertext that a packed lookup in a list of polynomials gives: the
/// selection tree on the leading selector bits, one for every halving of the
/// list, and then the blind rotation on the selector bits that follow.
pub open spec fn packed_lookup_value(lut: Seq<u64>, bits: SelectorBits, fft: Fft) -> Seq<u64> {
    let layers = log2_floor(lut.len() / selector_polynomial_size(bits));
    blind_rotate_value(cmux_tree_value(lut, bits, layers, fft), bits, layers, fft)
}

/// Whether a packed lookup in a list of `lut_len` coefficients can be run on
/// these arguments.
pub fn can_pack(lut_len: usize, bits: &SelectorBits, fft: &Fft) -> (ok: bool)
    ensures
        ok == packing_ready(lut_len as nat, *bits, *fft),
{
    let n = bits.polynomial_size();
    let k = bits.glwe_size();
    if n == 0 || n % 8 != 0 || k == 0 || fft_size(fft) != n || lut_len < n || lut_len % n != 0
        || bits.base_log() == 0 || bits.level_count() == 0 {
        return false;
    }
    if k.checked_mul(n).is_none() {
        return false;
    }
    match bits.base_log().checked_mul(bits.level_count()) {
        Some(v) => {
            if v >= 64 {
                return false;
            }
        },
        None => {
            return false;
        },
    }
    let polynomial_count = lut_len / n;
    proof {
        lemma_fundamental_div_mod(lut_len as int, n as int);
        lemma_mul_is_commutative(n as int, polynomial_count as int);
        if polynomial_count == 0 {
            lemma_mul_basics(n as int);
        }
        lemma_log2_floor(polynomial_count as nat);
    }
    let log = floor_log2(polynomial_count);
    pow2_u64(log as u64) == polynomial_count as u64 && log <= bits.count()
}

/// The lookup in one polynomial list, before any sample is taken: the
/// leading selector bits pick one polynomial of the list, the remaining
/// ones rotate it so that the entry they address comes to lie at coefficient
/// zero.
pub fn horizontal_vertical_packing_without_extract(
    lut: &Vec<u64>,
    ggsw_list: &SelectorBits,
    fft: &Fft,
) -> (glwe: Vec<u64>)
    requires
        packing_ready(lut.len() as nat, *ggsw_list, *fft),
    ensures
        glwe@ == packed_lookup_value(lut@, *ggsw_list, *fft),
        glwe.len() == selector_glwe_size(*ggsw_list) * selector_polynomial_size(*ggsw_list),
{
    let polynomial_size = ggsw_list.polynomial_size();
    let polynomial_count = lut.len() / polynomial_size;
    proof {
        lemma_fundamental_div_mod(lut.len() as int, polynomial_size as int);
        lemma_mul_is_commutative(polynomial_size as int, polynomial_count as int);
        assert(polynomial_count > 0) by {
            if polynomial_count == 0 {
                lemma_mul_basics(polynomial_size as int);
            }
        }
    }
    let log_lut_number = floor_log2(polynomial_count);
    let log_number_of_luts_for_cmux_tree = if log_lut_number > ggsw_list.count() {
        0
    } else {
        log_lut_number
    };
    let cmux_tree_lut_res = cmux_tree(lut, ggsw_list, log_number_of_luts_for_cmux_tree, fft);
    blind_rotate(&cmux_tree_lut_res, ggsw_list, log_number_of_luts_for_cmux_tree, fft)
}

impl Operation {
    /// The polynomial lists have the shape that packing for polynomials of
    /// `poly_size` coefficients gives.
    pub open spec fn packed_for(&self, poly_size: nat) -> bool {
        let total = self.output_count();
        let len = self.table_length();
        &&& self.path() == EvaluationPath::GenericLookup
        &&& supported_width(self.bit_width as nat)
        &&& self.chunk_size > 0
        &&& self.bit_width % self.chunk_size == 0
        &&& selector_width(self.op_type, self.bit_width as nat) < usize::BITS
        &&& len + poly_size <= usize::MAX
        &&& self.lut_pack_size as nat == pack_factor(poly_size, len)
        &&& self.cipher_lut.len() == group_count(total, poly_size, len)
        &&& forall|g: int|
            0 <= g < self.cipher_lut.len() ==> (#[trigger] self.cipher_lut[g]).len()
                == group_length(poly_size, len)
    }

    /// What the lookup asks of selector bits of a shape, of the polynomial
    /// size of the transform plan and of the output ciphertexts: tables
    /// packed for the polynomial size of the selector bits, which is a power
    /// of two; one selector bit for every digit of the encrypted operands;
    /// and one output ciphertext for every chunk, of the length that sample
    /// extraction yields.
    pub open spec fn lookup_fits(
        &self,
        shape: SelectorShape,
        plan_size: nat,
        lwe_outs: Seq<Vec<u64>>,
    ) -> bool {
        let n = shape.polynomial_size;
        let k = shape.glwe_size;
        &&& self.packed_for(n)
        &&& shape_steers(shape, plan_size, k * n)
        &&& k * n <= usize::MAX
        &&& is_power_of_two(n)
        &&& shape.count == selector_width(self.op_type, self.bit_width as nat)
        &&& lwe_outs.len() == self.output_count()
        &&& forall|i: int|
            0 <= i < lwe_outs.len() ==> (#[trigger] lwe_outs[i]).len() == (k - 1) * n + 1
    }

    /// What the lookup asks of its arguments.
    pub open spec fn lookup_ready(&self, bits: SelectorBits, fft: Fft, lwe_outs: Seq<Vec<u64>>)
        -> bool {
        self.lookup_fits(shape_of(bits), fft_polynomial_size(fft), lwe_outs)
    }

    /// Whether the lookup can be run on these arguments.
    pub fn can_lookup(&self, bits: &SelectorBits, fft: &Fft, lwe_outs: &Vec<Vec<u64>>) -> (ok: bool)
        ensures
            ok == self.lookup_ready(*bits, *fft, lwe_outs@),
    {
        let n = bits.polynomial_size();
        let k = bits.glwe_size();
        let both = match self.op_type {
            OperandType::BothCipher => true,
            _ => false,
        };
        let generic = match path_of(self.op, self.bit_width) {
            EvaluationPath::GenericLookup => true,
            _ => false,
        };
        if !generic || !(self.bit_width == 8 || self.bit_width == 16 || self.bit_width == 32)
            || self.chunk_size == 0 || self.bit_width % self.chunk_size != 0 {
            return false;
        }
        let sel = if both {
            2 * self.bit_width
        } else {
            self.bit_width
        };
        if sel >= usize::BITS as usize || n == 0 || n % 8 != 0 || k == 0 || fft_size(fft) != n
            || bits.count() != sel || bits.base_log() == 0 || bits.level_count() == 0 {
            return false;
        }
        proof {
            vstd::bits::lemma_u64_pow2_no_overflow(sel as nat);
            vstd::bits::lemma_usize_pow2_no_overflow(sel as nat);
            lemma_pow2_pos(sel as nat);
        }
        let len = pow2_u64(sel as u64) as usize;
        if len > usize::MAX - n || k.checked_mul(n).is_none() {
            return false;
        }
        match bits.base_log().checked_mul(bits.level_count()) {
            Some(v) => {
                if v >= 64 {
                    return false;
                }
            },
            None => {
                return false;
            },
        }
        proof {
            lemma_log2_floor(n as nat);
            lemma_fundamental_div_mod(self.bit_width as int, self.chunk_size as int);
            lemma_mul_is_commutative(
                self.chunk_size as int,
                (self.bit_width / self.chunk_size) as int,
            );
            lemma_mul_inequality(1, self.chunk_size as int, (self.bit_width / self.chunk_size) as int);
            if self.bit_width / self.chunk_size == 0 {
                lemma_mul_basics(self.chunk_size as int);
            }
            lemma_div_nonincreasing(n as int, len as int);
            lemma_fundamental_div_mod((len + n - 1) as int, n as int);
            lemma_mod_bound((len + n - 1) as int, n as int);
            lemma_mul_is_commutative(n as int, (len + n - 1) as int / (n as int));
            lemma_mul_is_distributive_sub_other_way(n as int, k as int, 1);
            lemma_mul_nonnegative((k - 1) as int, n as int);
            lemma2_to64();
            if 8 < sel {
                lemma_pow2_strictly_increases(8, sel as nat);
            }
        }
        let total = self.bit_width / self.chunk_size;
        let cap = n / len;
        let pack = if cap < 1 {
            1
        } else {
            cap
        };
        let groups = (total + pack - 1) / pack;
        let group_len = if cap < 1 {
            ((len + n - 1) / n) * n
        } else {
            n
        };
        if pow2_u64(floor_log2(n) as u64) != n as u64 || self.lut_pack_size != pack
            || self.cipher_lut.len() != groups || lwe_outs.len() != total {
            return false;
        }
        let mut g: usize = 0;
        while g < self.cipher_lut.len()
            invariant
                g <= self.cipher_lut.len(),
                n == selector_polynomial_size(*bits),
                group_len == group_length(n as nat, self.table_length()),
                forall|j: int| 0 <= j < g ==> (#[trigger] self.cipher_lut[j]).len() == group_len,
            decreases self.cipher_lut.len() - g,
        {
            if self.cipher_lut[g].len() != group_len {
                proof {
                    assert(self.cipher_lut@[g as int].len() != group_length(
                        n as nat,
                        self.table_length(),
                    ));
                }
                return false;
            }
            g += 1;
        }
        let lwe_len = (k - 1) * n + 1;
        let mut i: usize = 0;
        while i < lwe_outs.len()
            invariant
                i <= lwe_outs.len(),
                n == selector_polynomial_size(*bits),
                k == selector_glwe_size(*bits),
                lwe_len == (k - 1) * n + 1,
                forall|j: int| 0 <= j < i ==> (#[trigger] lwe_outs[j]).len() == lwe_len,
            decreases lwe_outs.len() - i,
        {
            if lwe_outs[i].len() != lwe_len {
                proof {
                    assert(lwe_outs@[i as int].len() != (k - 1) * n + 1);
                }
                return false;
            }
            i += 1;
        }
        true
    }

    /// The ciphertexts that the packed lookups in the polynomial lists of the
    /// operation give, one for every list.
    pub open spec fn lookups(&self, bits: SelectorBits, fft: Fft) -> Seq<Seq<u64>> {
        Seq::new(
            self.cipher_lut.len() as nat,
            |g: int| packed_lookup_value(self.cipher_lut[g]@, bits, fft),
        )
    }

    /// What the lookup leaves in the output ciphertexts: one for every
    /// chunk, whatever the pack factor. Each is a sample of the ciphertext
    /// `found` in its polynomial list, taken at the offset of its table in
    /// the list.
    pub open spec fn lookup_outputs(
        &self,
        before: Seq<Vec<u64>>,
        after: Seq<Vec<u64>>,
        found: Seq<Seq<u64>>,
        polynomial_size: nat,
    ) -> bool {
        let total = self.output_count();
        let pack = self.lut_pack_size as nat;
        &&& after.len() == before.len()
        &&& found.len() == self.cipher_lut.len()
        &&& forall|i: int| 0 <= i < after.len() ==> (#[trigger] after[i]).len() == before[i].len()
        &&& forall|i: int|
            0 <= i < after.len() ==> (#[trigger] after[i])@ == sample_extract_value(
                found[output_group(i as nat, pack, total) as int],
                polynomial_size,
                output_offset(i as nat, pack, total, self.table_length()),
            )
    }

    /// The lookup of a compiled operation: one packed lookup for every
    /// polynomial list, and from its result one sample for every output chunk
    /// whose table the list holds.
    pub fn vertical_packing_multi_lookup(
        &self,
        lwe_outs: &mut Vec<Vec<u64>>,
        ggsw_list: &SelectorBits,
        fft: &Fft,
    )
        requires
            self.lookup_ready(*ggsw_list, *fft, old(lwe_outs)@),
        ensures
            self.lookup_outputs(
                old(lwe_outs)@,
                final(lwe_outs)@,
                self.lookups(*ggsw_list, *fft),
                selector_polynomial_size(*ggsw_list),
            ),
    {
        let n = ggsw_list.polynomial_size();
        let k = ggsw_list.glwe_size();
        let lut_input_size = match self.op_type {
            OperandType::BothCipher => self.bit_width * 2,
            OperandType::PlainCipher => self.bit_width,
            OperandType::CipherPlain => self.bit_width,
        };
        let lut_pack_size = self.lut_pack_size;
        let lut_num = self.bit_width / self.chunk_size;
        let group_size = if lut_pack_size < lut_num {
            lut_pack_size
        } else {
            lut_num
        };
        let ghost total = self.output_count();
        let ghost len = self.table_length();
        let ghost pack = lut_pack_size as nat;
        proof {
            vstd::bits::lemma_u64_pow2_no_overflow(lut_input_size as nat);
            vstd::bits::lemma_usize_pow2_no_overflow(lut_input_size as nat);
            lemma_group_shape(n as nat, lut_input_size as nat);
            lemma_pow2_pos(lut_input_size as nat);
            lemma_fundamental_div_mod(self.bit_width as int, self.chunk_size as int);
            lemma_mul_is_commutative(self.chunk_size as int, lut_num as int);
            assert(lut_num > 0) by {
                if lut_num == 0 {
                    lemma_mul_basics(self.chunk_size as int);
                }
            }
            lemma_mul_is_distributive_sub_other_way(n as int, k as int, 1);
            lemma_fundamental_div_mod_converse_mod((k * n) as int, n as int, k as int, 0);
            lemma_mul_inequality(1, k as int, n as int);
        }
        let lut_size = pow2_u64(lut_input_size as u64) as usize;
        let ghost before = lwe_outs@;
        let ghost mut found: Seq<Seq<u64>> = Seq::empty();
        let mut g: usize = 0;
        while g < self.cipher_lut.len()
            invariant
                g <= self.cipher_lut.len(),
                self.lookup_ready(*ggsw_list, *fft, before),
                n == selector_polynomial_size(*ggsw_list),
                k == selector_glwe_size(*ggsw_list),
                n > 0,
                k * n >= n,
                (k * n) % (n as int) == 0,
                k * n - n + 1 == (k - 1) * n + 1,
                total == self.output_count(),
                len == self.table_length(),
                pack == self.lut_pack_size,
                lut_size == len,
                lut_num == total,
                lut_num > 0,
                group_size == lookup_group_size(pack, total),
                group_size > 0,
                group_length(n as nat, len) % (n as nat) == 0,
                group_length(n as nat, len) >= n,
                is_power_of_two(group_length(n as nat, len) / (n as nat)),
                log2_floor(group_length(n as nat, len) / (n as nat)) <= selector_count(*ggsw_list),
                pack_capacity(n as nat, len) >= 1 ==> pack_capacity(n as nat, len) * len <= n,
                lwe_outs.len() == before.len(),
                found.len() == g,
                forall|j: int|
                    0 <= j < g ==> #[trigger] found[j] == packed_lookup_value(
                        self.cipher_lut[j]@,
                        *ggsw_list,
                        *fft,
                    ),
                forall|i: int| 0 <= i < lwe_outs.len() ==> (#[trigger] lwe_outs[i]).len() == before[i].len(),
                forall|i: int|
                    0 <= i < lwe_outs.len() && i < g * group_size ==> (#[trigger] lwe_outs[i])@
                        == sample_extract_value(
                        found[output_group(i as nat, pack, total) as int],
                        n as nat,
                        output_offset(i as nat, pack, total, len),
                    ),
            decreases self.cipher_lut.len() - g,
        {
            proof {
                assert(self.cipher_lut@[g as int].len() == group_length(n as nat, len));
            }
            let temp = horizontal_vertical_packing_without_extract(
                &self.cipher_lut[g],
                ggsw_list,
                fft,
            );
            let ghost earlier = found;
            proof {
                found = found.push(temp@);
                lemma_mul_nonnegative(g as int, group_size as int);
                lemma_mul_is_distributive_add_other_way(group_size as int, g as int, 1);
                let groups = self.cipher_lut.len() as int;
                let cap = pack_factor(n as nat, len) as int;
                let x = (total + cap - 1) as int;
                lemma_fundamental_div_mod(x, cap);
                lemma_mod_bound(x, cap);
                lemma_mul_is_commutative(cap, groups);
                assert(g * group_size <= lut_num) by {
                    if pack < total {
                        lemma_mul_inequality(g as int, groups - 1, cap);
                        lemma_mul_is_distributive_sub_other_way(cap, groups, 1);
                    } else {
                        assert(groups == 1) by {
                            if groups > 1 {
                                lemma_mul_inequality(2, groups, cap);
                            }
                            if groups < 1 {
                                lemma_mul_basics(cap);
                            }
                        }
                        lemma_mul_basics(group_size as int);
                    }
                }
                assert forall|j: int|
                    0 <= j < lwe_outs.len() && j < g * group_size implies (#[trigger] lwe_outs[j])@
                    == sample_extract_value(
                    found[output_group(j as nat, pack, total) as int],
                    n as nat,
                    output_offset(j as nat, pack, total, len),
                ) by {
                    lemma_mul_is_commutative(g as int, group_size as int);
                    lemma_multiply_divide_lt(j, group_size as int, g as int);
                    lemma_div_pos_is_pos(j, group_size as int);
                }
            }
            let ghost held = lwe_outs@;
            proof {
                if pack_capacity(n as nat, len) >= 1 {
                    lemma_mul_inequality(
                        group_size as int,
                        pack_capacity(n as nat, len) as int,
                        len as int,
                    );
                    lemma_mul_is_distributive_sub_other_way(len as int, group_size as int, 1);
                } else {
                    lemma_mul_basics(len as int);
                }
                lemma_pow2_pos(lut_input_size as nat);
            }
            extract_group(&temp, n, g * group_size, group_size, lut_size, lwe_outs);
            proof {
                assert forall|j: int|
                    0 <= j < lwe_outs.len() && j < (g + 1) * group_size implies (#[trigger] lwe_outs[j])@
                    == sample_extract_value(
                    found[output_group(j as nat, pack, total) as int],
                    n as nat,
                    output_offset(j as nat, pack, total, len),
                ) by {
                    if j >= g * group_size {
                        lemma_fundamental_div_mod_converse(
                            j,
                            group_size as int,
                            g as int,
                            j - g * group_size,
                        );
                    } else {
                        assert(lwe_outs[j] == held[j]);
                    }
                }
                assert forall|j: int| 0 <= j < lwe_outs.len() implies (#[trigger] lwe_outs[j]).len()
                    == before[j].len() by {
                    if g * group_size <= j < g * group_size + group_size {
                    } else {
                        assert(lwe_outs[j] == held[j]);
                    }
                }
            }
            g += 1;
        }
        proof {
            let groups = self.cipher_lut.len() as int;
            let x = (total + pack_factor(n as nat, len) - 1) as int;
            let cap = pack_factor(n as nat, len) as int;
            lemma_fundamental_div_mod(x, cap);
            lemma_mod_bound(x, cap);
            lemma_mul_is_commutative(cap, groups);
            assert(groups * group_size >= total) by {
                if pack < total {
                    assert(group_size == cap);
                } else {
                    assert(groups >= 1) by {
                        if groups < 1 {
                            lemma_mul_basics(cap);
                        }
                    }
                    lemma_mul_inequality(1, groups, group_size as int);
                }
            }
            assert(found =~= self.lookups(*ggsw_list, *fft));
            assert(self.lookup_outputs(before, lwe_outs@, found, n as nat));
        }
    }

    /// The lookup as the engine calls it. The polynomial lists do not depend
    /// on one another; here they are looked up one after the other, as in
    /// `vertical_packing_multi_lookup`, with the same outputs.
    pub fn parallel_vertical_packing_multi_lookup(
        &self,
        lwe_outs: &mut Vec<Vec<u64>>,
        ggsw_list: &SelectorBits,
        fft: &Fft,
    )
        requires
            self.lookup_ready(*ggsw_list, *fft, old(lwe_outs)@),
        ensures
            self.lookup_outputs(
                old(lwe_outs)@,
                final(lwe_outs)@,
                self.lookups(*ggsw_list, *fft),
                selector_polynomial_size(*ggsw_list),
            ),
    {
        self.vertical_packing_multi_lookup(lwe_outs, ggsw_list, fft);
    }
}

} // verus!
