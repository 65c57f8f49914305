//! The plain side of the table compiler: the truth table of an opcode, its
//! re-indexing by the masking transform, and its split into one table per
//! output chunk.

use crate::bits::{lemma_fits_usize, low_bits, pow2_u64, shift_down};
use crate::layout::{chunk_of, lemma_recombine_split, recombine, split_high_to_low};
use crate::operations::mask_chunk::{
    lemma_mask_round_trip, lemma_unmask_round_trip, mask_decode, mask_encode, masking_chunk_msb,
    masking_chunk_msb_decode,
};
use crate::operations::operand::{lemma_op_value_bound, op_value, supported_width, ArithmeticOp};
use vstd::arithmetic::div_mod::*;
use vstd::arithmetic::mul::*;
use vstd::arithmetic::power2::*;
use vstd::prelude::*;

verus! {

/// The entry at index `i` of the table of a two-operand opcode: the first
/// operand is read from the upper `w` digits of the index, the second from
/// the lower `w` digits, so that `table[a * 2^w + b] = op(a, b)`.
pub open spec fn cipher_cipher_entry(op: ArithmeticOp, i: nat, w: nat) -> nat {
    op_value(op, i / pow2(w), i % pow2(w), w)
}

/// The entry at index `i` of the table of an opcode whose second operand is
/// the constant `immediate`.
pub open spec fn cipher_plain_entry(op: ArithmeticOp, i: nat, immediate: nat, w: nat) -> nat {
    op_value(op, i % pow2(w), immediate % pow2(w), w)
}

/// The entry at index `i` of the table of an opcode whose first operand is
/// the constant `immediate`.
pub open spec fn plain_cipher_entry(op: ArithmeticOp, i: nat, immediate: nat, w: nat) -> nat {
    op_value(op, immediate % pow2(w), i % pow2(w), w)
}

/// The summed width of the first `k` blocks.
pub open spec fn offset_of(widths: Seq<usize>, k: nat) -> nat
    decreases k,
{
    if k == 0 {
        0
    } else {
        offset_of(widths, (k - 1) as nat) + widths[k - 1] as nat
    }
}

/// The summed width of all blocks.
pub open spec fn total_width(widths: Seq<usize>) -> nat {
    offset_of(widths, widths.len())
}

/// Block `k` of the index `i`: the blocks lie side by side from the low end,
/// block `k` having `widths[k]` digits.
pub open spec fn block_at(i: nat, widths: Seq<usize>, k: nat) -> nat {
    (i / pow2(offset_of(widths, k))) % pow2(widths[k as int] as nat)
}

/// The masked form of a block, or the block whose masked form it is.
pub open spec fn block_transform(v: nat, m: nat, w: nat, decode: bool) -> nat {
    if decode {
        mask_decode(v, m, w)
    } else {
        mask_encode(v, m, w)
    }
}

/// The index `i` with each of its first `k` blocks transformed in place, and
/// nothing above them.
pub open spec fn blockwise(i: nat, widths: Seq<usize>, m: nat, decode: bool, k: nat) -> nat
    decreases k,
{
    if k == 0 {
        0
    } else {
        let j = (k - 1) as nat;
        blockwise(i, widths, m, decode, j) + block_transform(
            block_at(i, widths, j),
            m,
            widths[j as int] as nat,
            decode,
        ) * pow2(offset_of(widths, j))
    }
}

/// The index `i` with every block unmasked in place.
pub open spec fn unmasked_index(i: nat, widths: Seq<usize>, m: nat) -> nat {
    blockwise(i, widths, m, true, widths.len())
}

/// The index `i` with every block masked in place.
pub open spec fn masked_index(i: nat, widths: Seq<usize>, m: nat) -> nat {
    blockwise(i, widths, m, false, widths.len())
}

/// Offsets grow with the number of blocks.
pub proof fn lemma_offset_monotone(widths: Seq<usize>, j: nat, k: nat)
    requires
        j <= k,
    ensures
        offset_of(widths, j) <= offset_of(widths, k),
    decreases k,
{
    if j < k {
        lemma_offset_monotone(widths, j, (k - 1) as nat);
    }
}

/// A number below `2^a`, moved up by `b` digits, leaves room for `2^b` below
/// `2^(a+b)`.
proof fn lemma_shifted_bound(x: nat, a: nat, b: nat)
    requires
        x < pow2(a),
    ensures
        x * pow2(b) + pow2(b) <= pow2(a + b),
{
    lemma_pow2_adds(a, b);
    lemma_pow2_pos(b);
    assert((x + 1) * pow2(b) <= pow2(a) * pow2(b)) by {
        lemma_mul_inequality((x + 1) as int, pow2(a) as int, pow2(b) as int);
    }
    assert((x + 1) * pow2(b) == x * pow2(b) + pow2(b)) by {
        lemma_mul_is_distributive_add_other_way(pow2(b) as int, x as int, 1);
    }
}

/// A transformed block has as many digits as the block.
proof fn lemma_block_transform_bound(v: nat, m: nat, w: nat, decode: bool)
    requires
        m > 0,
    ensures
        block_transform(v, m, w, decode) < pow2(w),
{
    if decode {
        lemma_unmask_round_trip(v, m, w);
    } else {
        lemma_mask_round_trip(v, m, w);
    }
}

/// The first `k` transformed blocks fill the digits below their offset.
pub proof fn lemma_blockwise_bound(i: nat, widths: Seq<usize>, m: nat, decode: bool, k: nat)
    requires
        m > 0,
        k <= widths.len(),
    ensures
        blockwise(i, widths, m, decode, k) < pow2(offset_of(widths, k)),
    decreases k,
{
    if k == 0 {
        lemma2_to64();
    } else {
        let j = (k - 1) as nat;
        lemma_blockwise_bound(i, widths, m, decode, j);
        let w = widths[j as int] as nat;
        lemma_block_transform_bound(block_at(i, widths, j), m, w, decode);
        lemma_shifted_bound(
            block_transform(block_at(i, widths, j), m, w, decode),
            w,
            offset_of(widths, j),
        );
    }
}

/// The summed width of the blocks.
fn sum_widths(widths: &[usize]) -> (total: usize)
    requires
        total_width(widths@) <= usize::MAX,
    ensures
        total == total_width(widths@),
{
    let mut total: usize = 0;
    let mut k: usize = 0;
    while k < widths.len()
        invariant
            k <= widths.len(),
            total == offset_of(widths@, k as nat),
            total_width(widths@) <= usize::MAX,
        decreases widths.len() - k,
    {
        proof {
            lemma_offset_monotone(widths@, (k + 1) as nat, widths@.len());
        }
        total += widths[k];
        k += 1;
    }
    total
}

/// The index `i` with each block masked, or unmasked, in place.
fn transform_index(i: usize, widths: &[usize], chunk_size: usize, decode: bool) -> (r: usize)
    requires
        widths.len() > 0 ==> chunk_size > 0,
        total_width(widths@) < usize::BITS,
    ensures
        r == blockwise(i as nat, widths@, chunk_size as nat, decode, widths@.len()),
        r < pow2(total_width(widths@)),
{
    let mut acc: u64 = i as u64;
    let mut out: u64 = 0;
    let mut offset: usize = 0;
    let mut k: usize = 0;
    proof {
        lemma2_to64();
    }
    while k < widths.len()
        invariant
            k <= widths.len(),
            widths.len() > 0 ==> chunk_size > 0,
            total_width(widths@) < usize::BITS,
            offset == offset_of(widths@, k as nat),
            acc == i as nat / pow2(offset as nat),
            out == blockwise(i as nat, widths@, chunk_size as nat, decode, k as nat),
            out < pow2(offset as nat),
        decreases widths.len() - k,
    {
        let bits = widths[k];
        proof {
            lemma_offset_monotone(widths@, (k + 1) as nat, widths@.len());
            lemma_pow2_pos(bits as nat);
            lemma_pow2_pos(offset as nat);
            lemma_mod_bound(acc as int, pow2(bits as nat) as int);
        }
        let block = low_bits(acc, bits as u64);
        proof {
            lemma_fits_usize(block as nat, bits as nat);
        }
        let moved = if decode {
            masking_chunk_msb_decode(block as usize, chunk_size, bits)
        } else {
            masking_chunk_msb(block as usize, chunk_size, bits)
        };
        proof {
            lemma_block_transform_bound(block as nat, chunk_size as nat, bits as nat, decode);
            lemma_shifted_bound(moved as nat, bits as nat, offset as nat);
            vstd::bits::lemma_u64_pow2_no_overflow((offset + bits) as nat);
            lemma_pow2_adds(offset as nat, bits as nat);
            lemma_div_denominator(i as int, pow2(offset as nat) as int, pow2(bits as nat) as int);
        }
        out = out + (moved as u64) * pow2_u64(offset as u64);
        acc = shift_down(acc, bits as u64);
        offset += bits;
        k += 1;
    }
    proof {
        lemma_fits_usize(out as nat, offset as nat);
    }
    out as usize
}

/// The blocks of an index whose first `k` blocks were transformed in place
/// are the transformed blocks.
proof fn lemma_block_of_blockwise(
    i: nat,
    widths: Seq<usize>,
    m: nat,
    decode: bool,
    k: nat,
    j: nat,
)
    requires
        m > 0,
        j < k <= widths.len(),
    ensures
        block_at(blockwise(i, widths, m, decode, k), widths, j) == block_transform(
            block_at(i, widths, j),
            m,
            widths[j as int] as nat,
            decode,
        ),
    decreases k,
{
    let last = (k - 1) as nat;
    let before = blockwise(i, widths, m, decode, last);
    let width = widths[last as int] as nat;
    let entry = block_transform(block_at(i, widths, last), m, width, decode);
    let off = offset_of(widths, last);
    let unit = pow2(off) as int;
    lemma_blockwise_bound(i, widths, m, decode, last);
    lemma_block_transform_bound(block_at(i, widths, last), m, width, decode);
    lemma_pow2_pos(off);
    let whole = blockwise(i, widths, m, decode, k) as int;
    assert(whole == before + entry * unit);
    if j == last {
        lemma_mul_is_commutative(entry as int, unit);
        lemma_fundamental_div_mod_converse(whole, unit, entry as int, before as int);
        lemma_small_mod(entry, pow2(width));
    } else {
        lemma_block_of_blockwise(i, widths, m, decode, last, j);
        let low = offset_of(widths, j);
        let wj = widths[j as int] as nat;
        lemma_offset_monotone(widths, j + 1, last);
        assert(offset_of(widths, j + 1) == low + wj);
        let rest = (off - low - wj) as nat;
        lemma_pow2_adds(low, wj);
        lemma_pow2_adds(low + wj, rest);
        lemma_pow2_pos(low);
        lemma_pow2_pos(wj);
        lemma_pow2_pos(rest);
        let pl = pow2(low) as int;
        let pw = pow2(wj) as int;
        let pr = pow2(rest) as int;
        let carried = entry * pr;
        assert(entry * unit == (carried * pw) * pl) by (nonlinear_arith)
            requires
                unit == (pl * pw) * pr,
                carried == entry * pr,
        ;
        lemma_fundamental_div_mod(before as int, pl);
        lemma_mod_bound(before as int, pl);
        let q = before as int / pl;
        assert(whole == pl * (q + carried * pw) + before as int % pl) by (nonlinear_arith)
            requires
                whole == before + (carried * pw) * pl,
                before == pl * q + before as int % pl,
        ;
        lemma_mul_nonnegative(entry as int, pr);
        lemma_mul_nonnegative(carried, pw);
        lemma_div_pos_is_pos(before as int, pl);
        lemma_fundamental_div_mod_converse(whole, pl, q + carried * pw, before as int % pl);
        lemma_mul_is_commutative(carried, pw);
        lemma_mod_multiples_vanish(carried, q, pw);
    }
}

/// Transforming every block of an index and then transforming the first
/// `k` blocks back gives the lowest digits of the index, as many as those
/// blocks have: masking and unmasking undo each other block by block.
pub proof fn lemma_blockwise_round_trip(i: nat, widths: Seq<usize>, m: nat, decode: bool, k: nat)
    requires
        widths.len() > 0 ==> m > 0,
        k <= widths.len(),
    ensures
        blockwise(
            blockwise(i, widths, m, decode, widths.len()),
            widths,
            m,
            !decode,
            k,
        ) == i % pow2(offset_of(widths, k)),
    decreases k,
{
    if k == 0 {
        lemma2_to64();
    } else {
        let j = (k - 1) as nat;
        let there = blockwise(i, widths, m, decode, widths.len());
        lemma_blockwise_round_trip(i, widths, m, decode, j);
        lemma_block_of_blockwise(i, widths, m, decode, widths.len(), j);
        let width = widths[j as int] as nat;
        let block = block_at(i, widths, j);
        let off = offset_of(widths, j);
        lemma_pow2_pos(off);
        lemma_pow2_pos(width);
        lemma_mod_bound((i / pow2(off)) as int, pow2(width) as int);
        if decode {
            lemma_unmask_round_trip(block, m, width);
        } else {
            lemma_mask_round_trip(block, m, width);
        }
        lemma_small_mod(block, pow2(width));
        assert(block_transform(block_transform(block, m, width, decode), m, width, !decode)
            == block);
        lemma_pow2_adds(off, width);
        lemma_mod_breakdown(i as int, pow2(off) as int, pow2(width) as int);
        lemma_mul_is_commutative(pow2(off) as int, block as int);
    }
}


/// The table `plain_lut` read through a transform of the index, block by
/// block.
fn adjust_with(plain_lut: &[usize], widths: &[usize], chunk_size: usize, decode: bool) -> (lut:
    Vec<usize>)
    requires
        widths.len() > 0 ==> chunk_size > 0,
        total_width(widths@) < usize::BITS,
        plain_lut.len() >= pow2(total_width(widths@)),
    ensures
        lut.len() == pow2(total_width(widths@)),
        forall|i: int|
            0 <= i < lut.len() ==> #[trigger] lut[i] == plain_lut[blockwise(
                i as nat,
                widths@,
                chunk_size as nat,
                decode,
                widths@.len(),
            ) as int],
        forall|x: int, back: bool|
            back != decode && 0 <= x < lut.len() ==> {
                &&& #[trigger] blockwise(x as nat, widths@, chunk_size as nat, back, widths@.len())
                    < lut.len()
                &&& lut[blockwise(x as nat, widths@, chunk_size as nat, back, widths@.len()) as int]
                    == plain_lut[x]
            },
{
    let total_bits = sum_widths(widths);
    proof {
        vstd::bits::lemma_u64_pow2_no_overflow(total_bits as nat);
        vstd::bits::lemma_usize_pow2_no_overflow(total_bits as nat);
    }
    let lut_input_size = pow2_u64(total_bits as u64) as usize;
    let mut lut: Vec<usize> = Vec::new();
    let mut i: usize = 0;
    while i < lut_input_size
        invariant
            i <= lut_input_size,
            lut_input_size == pow2(total_width(widths@)),
            widths.len() > 0 ==> chunk_size > 0,
            total_width(widths@) < usize::BITS,
            plain_lut.len() >= pow2(total_width(widths@)),
            lut.len() == i,
            forall|j: int|
                0 <= j < i ==> #[trigger] lut[j] == plain_lut[blockwise(
                    j as nat,
                    widths@,
                    chunk_size as nat,
                    decode,
                    widths@.len(),
                ) as int],
        decreases lut_input_size - i,
    {
        let source = transform_index(i, widths, chunk_size, decode);
        lut.push(plain_lut[source]);
        i += 1;
    }
    proof {
        let m = chunk_size as nat;
        let n = widths@.len();
        assert forall|x: int, back: bool| back != decode && 0 <= x < lut.len() implies {
            &&& #[trigger] blockwise(x as nat, widths@, m, back, n) < lut.len()
            &&& lut[blockwise(x as nat, widths@, m, back, n) as int] == plain_lut[x]
        } by {
            let there = blockwise(x as nat, widths@, m, back, n);
            if n > 0 {
                lemma_blockwise_bound(x as nat, widths@, m, back, n);
            } else {
                lemma2_to64();
            }
            lemma_blockwise_round_trip(x as nat, widths@, m, back, n);
            lemma_small_mod(x as nat, pow2(total_width(widths@)));
            assert(blockwise(there, widths@, m, decode, n) == x);
            assert(lut[there as int] == plain_lut[blockwise(there, widths@, m, decode, n) as int]);
        }
    }
    lut
}

/// The truth table of a two-operand opcode on words of `plain_log` digits:
/// `2^(2 * plain_log)` entries, with `table[a * 2^plain_log + b] = op(a, b)`.
pub fn get_plain_cipher_cipher(plain_log: usize, op: &ArithmeticOp) -> (lut: Vec<usize>)
    requires
        supported_width(plain_log as nat),
        2 * plain_log < usize::BITS,
    ensures
        lut.len() == pow2((2 * plain_log) as nat),
        forall|i: int|
            0 <= i < lut.len() ==> #[trigger] lut[i] == cipher_cipher_entry(
                *op,
                i as nat,
                plain_log as nat,
            ),
{
    proof {
        vstd::bits::lemma_usize_pow2_no_overflow((2 * plain_log) as nat);
        lemma_pow2_adds(plain_log as nat, plain_log as nat);
        lemma_pow2_pos(plain_log as nat);
    }
    let lut_input_size = pow2_u64(2 * plain_log as u64) as usize;
    let mut lut: Vec<usize> = Vec::with_capacity(lut_input_size);
    let mut i: usize = 0;
    while i < lut_input_size
        invariant
            i <= lut_input_size,
            supported_width(plain_log as nat),
            lut_input_size == pow2((2 * plain_log) as nat),
            lut_input_size == pow2(plain_log as nat) * pow2(plain_log as nat),
            pow2(plain_log as nat) > 0,
            lut.len() == i,
            forall|j: int|
                0 <= j < i ==> #[trigger] lut[j] == cipher_cipher_entry(
                    *op,
                    j as nat,
                    plain_log as nat,
                ),
        decreases lut_input_size - i,
    {
        let first = shift_down(i as u64, plain_log as u64);
        let second = low_bits(i as u64, plain_log as u64);
        proof {
            lemma_mod_bound(i as int, pow2(plain_log as nat) as int);
            lemma_multiply_divide_lt(
                i as int,
                pow2(plain_log as nat) as int,
                pow2(plain_log as nat) as int,
            );
        }
        let result = op.compute(first, second, plain_log);
        proof {
            lemma_fits_usize(result as nat, plain_log as nat);
        }
        lut.push(result as usize);
        i += 1;
    }
    lut
}

/// The truth table of an opcode whose second operand is the constant
/// `immediate`: `2^plain_log` entries, with `table[a] = op(a, immediate)`.
pub fn get_plain_lut_cipher_plain(plain_log: usize, immediate: usize, op: &ArithmeticOp) -> (lut:
    Vec<usize>)
    requires
        supported_width(plain_log as nat),
        plain_log < usize::BITS,
    ensures
        lut.len() == pow2(plain_log as nat),
        forall|i: int|
            0 <= i < lut.len() ==> #[trigger] lut[i] == cipher_plain_entry(
                *op,
                i as nat,
                immediate as nat,
                plain_log as nat,
            ),
{
    proof {
        vstd::bits::lemma_usize_pow2_no_overflow(plain_log as nat);
    }
    let lut_input_size = pow2_u64(plain_log as u64) as usize;
    let mut lut: Vec<usize> = Vec::with_capacity(lut_input_size);
    let mut i: usize = 0;
    while i < lut_input_size
        invariant
            i <= lut_input_size,
            supported_width(plain_log as nat),
            lut_input_size == pow2(plain_log as nat),
            lut.len() == i,
            forall|j: int|
                0 <= j < i ==> #[trigger] lut[j] == cipher_plain_entry(
                    *op,
                    j as nat,
                    immediate as nat,
                    plain_log as nat,
                ),
        decreases lut_input_size - i,
    {
        let result = op.compute_cipher_plain(i, immediate, plain_log);
        lut.push(result);
        i += 1;
    }
    lut
}

/// The truth table of an opcode whose first operand is the constant
/// `immediate`: `2^plain_log` entries, with `table[b] = op(immediate, b)`.
pub fn get_plain_lut_plain_cipher(plain_log: usize, immediate: usize, op: &ArithmeticOp) -> (lut:
    Vec<usize>)
    requires
        supported_width(plain_log as nat),
        plain_log < usize::BITS,
    ensures
        lut.len() == pow2(plain_log as nat),
        forall|i: int|
            0 <= i < lut.len() ==> #[trigger] lut[i] == plain_cipher_entry(
                *op,
                i as nat,
                immediate as nat,
                plain_log as nat,
            ),
{
    proof {
        vstd::bits::lemma_usize_pow2_no_overflow(plain_log as nat);
    }
    let lut_input_size = pow2_u64(plain_log as u64) as usize;
    let mut lut: Vec<usize> = Vec::with_capacity(lut_input_size);
    let mut i: usize = 0;
    while i < lut_input_size
        invariant
            i <= lut_input_size,
            supported_width(plain_log as nat),
            lut_input_size == pow2(plain_log as nat),
            lut.len() == i,
            forall|j: int|
                0 <= j < i ==> #[trigger] lut[j] == plain_cipher_entry(
                    *op,
                    j as nat,
                    immediate as nat,
                    plain_log as nat,
                ),
        decreases lut_input_size - i,
    {
        let result = op.compute_plain_cipher(i, immediate, plain_log);
        lut.push(result);
        i += 1;
    }
    lut
}

/// The table that, read at a plain index, gives what `plain_lut` holds at
/// the masked form of that index: `adjusted[i] = plain_lut[masked(i)]`, each
/// block of the index masked on its own. Read the other way round, every
/// entry of `plain_lut` stands in it at the unmasked form of its index.
pub fn adjust_lut_with_masking(plain_lut: &[usize], input_bitwidths: &[usize], chunk_size: usize)
    -> (lut: Vec<usize>)
    requires
        input_bitwidths.len() > 0 ==> chunk_size > 0,
        total_width(input_bitwidths@) < usize::BITS,
        plain_lut.len() >= pow2(total_width(input_bitwidths@)),
    ensures
        lut.len() == pow2(total_width(input_bitwidths@)),
        forall|i: int|
            0 <= i < lut.len() ==> #[trigger] lut[i] == plain_lut[masked_index(
                i as nat,
                input_bitwidths@,
                chunk_size as nat,
            ) as int],
        forall|x: int|
            0 <= x < lut.len() ==> {
                &&& #[trigger] unmasked_index(x as nat, input_bitwidths@, chunk_size as nat)
                    < lut.len()
                &&& lut[unmasked_index(x as nat, input_bitwidths@, chunk_size as nat) as int]
                    == plain_lut[x]
            },
{
    let lut = adjust_with(plain_lut, input_bitwidths, chunk_size, false);
    proof {
        assert forall|x: int| 0 <= x < lut.len() implies {
            &&& #[trigger] unmasked_index(x as nat, input_bitwidths@, chunk_size as nat)
                < lut.len()
            &&& lut[unmasked_index(x as nat, input_bitwidths@, chunk_size as nat) as int]
                == plain_lut[x]
        } by {
            let there = blockwise(
                x as nat,
                input_bitwidths@,
                chunk_size as nat,
                true,
                input_bitwidths@.len(),
            );
            assert(there < lut.len());
        }
    }
    lut
}

/// The table that, read at a masked index, gives what `plain_lut` holds at
/// the plain index: `adjusted[s] = plain_lut[unmasked(s)]`, each block of the
/// index unmasked on its own. This is the table that the selector bits of
/// the operands address: every entry of `plain_lut` stands in it at the
/// masked form of its index, `adjusted[masked(x)] = plain_lut[x]`.
pub fn adjust_lut_with_masking_decode(
    plain_lut: &[usize],
    input_bitwidths: &[usize],
    chunk_size: usize,
) -> (lut: Vec<usize>)
    requires
        input_bitwidths.len() > 0 ==> chunk_size > 0,
        total_width(input_bitwidths@) < usize::BITS,
        plain_lut.len() >= pow2(total_width(input_bitwidths@)),
    ensures
        lut.len() == pow2(total_width(input_bitwidths@)),
        forall|i: int|
            0 <= i < lut.len() ==> #[trigger] lut[i] == plain_lut[unmasked_index(
                i as nat,
                input_bitwidths@,
                chunk_size as nat,
            ) as int],
        forall|x: int|
            0 <= x < lut.len() ==> {
                &&& #[trigger] masked_index(x as nat, input_bitwidths@, chunk_size as nat)
                    < lut.len()
                &&& lut[masked_index(x as nat, input_bitwidths@, chunk_size as nat) as int]
                    == plain_lut[x]
            },
{
    let lut = adjust_with(plain_lut, input_bitwidths, chunk_size, true);
    proof {
        assert forall|x: int| 0 <= x < lut.len() implies {
            &&& #[trigger] masked_index(x as nat, input_bitwidths@, chunk_size as nat) < lut.len()
            &&& lut[masked_index(x as nat, input_bitwidths@, chunk_size as nat) as int]
                == plain_lut[x]
        } by {
            let there = blockwise(
                x as nat,
                input_bitwidths@,
                chunk_size as nat,
                false,
                input_bitwidths@.len(),
            );
            assert(there < lut.len());
        }
    }
    lut
}

/// One table per output chunk, the most significant chunk first: table `k`
/// holds, at every index, chunk `k` of the entry of `adjusted_lut`.
pub fn split_adjusted_lut_by_chunk(adjusted_lut: &[usize], plain_log: usize, chunk_size: usize)
    -> (tables: Vec<Vec<usize>>)
    requires
        chunk_size > 0,
        plain_log % chunk_size == 0,
    ensures
        tables.len() == plain_log / chunk_size,
        forall|k: int|
            0 <= k < tables.len() ==> (#[trigger] tables[k]).len() == adjusted_lut.len(),
        forall|k: int, j: int|
            0 <= k < tables.len() && 0 <= j < adjusted_lut.len() ==> #[trigger] tables[k][j]
                == chunk_of(
                adjusted_lut[j] as nat,
                k as nat,
                (plain_log / chunk_size) as nat,
                chunk_size as nat,
            ),
{
    let segments = plain_log / chunk_size;
    let len = adjusted_lut.len();
    let mut tables: Vec<Vec<usize>> = Vec::with_capacity(segments);
    let mut k: usize = 0;
    while k < segments
        invariant
            k <= segments,
            chunk_size > 0,
            segments == plain_log / chunk_size,
            len == adjusted_lut.len(),
            tables.len() == k,
            forall|s: int| 0 <= s < k ==> (#[trigger] tables[s]).len() == len,
            forall|s: int, j: int|
                0 <= s < k && 0 <= j < len ==> #[trigger] tables[s][j] == chunk_of(
                    adjusted_lut[j] as nat,
                    s as nat,
                    segments as nat,
                    chunk_size as nat,
                ),
        decreases segments - k,
    {
        proof {
            lemma_fundamental_div_mod(plain_log as int, chunk_size as int);
            lemma_mul_is_commutative(chunk_size as int, segments as int);
            lemma_mul_inequality((segments - 1 - k) as int, segments as int, chunk_size as int);
            lemma_mul_nonnegative((segments - 1 - k) as int, chunk_size as int);
        }
        let shift = (segments - 1 - k) * chunk_size;
        let mut table: Vec<usize> = Vec::with_capacity(len);
        let mut j: usize = 0;
        while j < len
            invariant
                j <= len,
                len == adjusted_lut.len(),
                shift == (segments - 1 - k) * chunk_size,
                table.len() == j,
                forall|t: int|
                    0 <= t < j ==> #[trigger] table[t] == chunk_of(
                        adjusted_lut[t] as nat,
                        k as nat,
                        segments as nat,
                        chunk_size as nat,
                    ),
            decreases len - j,
        {
            let value = adjusted_lut[j];
            let chunk = low_bits(shift_down(value as u64, shift as u64), chunk_size as u64);
            proof {
                lemma_pow2_pos(shift as nat);
                lemma_pow2_pos(chunk_size as nat);
                lemma_div_nonincreasing(value as int, pow2(shift as nat) as int);
                lemma_mod_decreases(
                    (value as nat / pow2(shift as nat)) as nat,
                    pow2(chunk_size as nat),
                );
            }
            table.push(chunk as usize);
            j += 1;
        }
        tables.push(table);
        k += 1;
    }
    tables
}

/// What the tables hold at the index `s`, one chunk from every table, the
/// most significant chunk first.
pub open spec fn table_column(tables: Seq<Vec<usize>>, s: nat) -> Seq<nat> {
    Seq::new(tables.len(), |k: int| tables[k][s as int] as nat)
}

/// What the compiled tables of a two-operand opcode hold: table `k`, read at
/// the masked index `s`, gives chunk `k` of the opcode's result on the
/// operands that `s` stands for.
pub open spec fn compiled_entry(
    op: ArithmeticOp,
    s: nat,
    widths: Seq<usize>,
    w: nat,
    m: nat,
    k: nat,
) -> nat {
    chunk_of(cipher_cipher_entry(op, unmasked_index(s, widths, m), w), k, w / m, m)
}

/// The compiled tables of a two-operand opcode: its truth table, re-indexed
/// so that masked selector bits address it, and split into one table per
/// output chunk, most significant chunk first. For two operands of the full
/// width, the chunks that the tables hold at the index of the masked
/// operands, the first operand in the upper half, put together are the
/// result of the opcode on the operands.
pub fn build_split_lut_tables(
    plain_log: usize,
    input_bitwidths: Vec<usize>,
    chunk_size: usize,
    op: &ArithmeticOp,
) -> (tables: Vec<Vec<usize>>)
    requires
        supported_width(plain_log as nat),
        2 * plain_log < usize::BITS,
        chunk_size > 0,
        plain_log % chunk_size == 0,
        total_width(input_bitwidths@) <= 2 * plain_log,
    ensures
        tables.len() == plain_log / chunk_size,
        forall|k: int|
            0 <= k < tables.len() ==> (#[trigger] tables[k]).len() == pow2(
                total_width(input_bitwidths@),
            ),
        forall|k: int, s: int|
            0 <= k < tables.len() && 0 <= s < pow2(total_width(input_bitwidths@))
                ==> #[trigger] tables[k][s] == compiled_entry(
                *op,
                s as nat,
                input_bitwidths@,
                plain_log as nat,
                chunk_size as nat,
                k as nat,
            ),
        input_bitwidths@ == seq![plain_log, plain_log] ==> forall|a: nat, b: nat|
            a < pow2(plain_log as nat) && b < pow2(plain_log as nat) ==> {
                &&& #[trigger] selector_index(a, b, plain_log as nat, chunk_size as nat) < pow2(
                    (2 * plain_log) as nat,
                )
                &&& recombine(
                    table_column(
                        tables@,
                        selector_index(a, b, plain_log as nat, chunk_size as nat),
                    ),
                    chunk_size as nat,
                ) == op_value(*op, a, b, plain_log as nat)
            },
{
    let plain_lut = get_plain_cipher_cipher(plain_log, op);
    proof {
        if total_width(input_bitwidths@) < 2 * plain_log {
            lemma_pow2_strictly_increases(
                total_width(input_bitwidths@),
                (2 * plain_log) as nat,
            );
        }
    }
    let adjusted_lut = adjust_lut_with_masking_decode(
        plain_lut.as_slice(),
        input_bitwidths.as_slice(),
        chunk_size,
    );
    proof {
        assert forall|s: int| 0 <= s < adjusted_lut.len() implies #[trigger] adjusted_lut[s]
            == cipher_cipher_entry(
            *op,
            unmasked_index(s as nat, input_bitwidths@, chunk_size as nat),
            plain_log as nat,
        ) by {
            lemma_blockwise_bound(
                s as nat,
                input_bitwidths@,
                chunk_size as nat,
                true,
                input_bitwidths@.len(),
            );
        }
    }
    let tables = split_adjusted_lut_by_chunk(adjusted_lut.as_slice(), plain_log, chunk_size);
    proof {
        if input_bitwidths@ == seq![plain_log, plain_log] {
            let w = plain_log as nat;
            let m = chunk_size as nat;
            assert(total_width(input_bitwidths@) == 2 * plain_log) by {
                reveal_with_fuel(offset_of, 3);
            }
            assert forall|a: nat, b: nat|
                a < pow2(plain_log as nat) && b < pow2(plain_log as nat) implies {
                &&& #[trigger] selector_index(a, b, plain_log as nat, chunk_size as nat) < pow2(
                    (2 * plain_log) as nat,
                )
                &&& recombine(
                    table_column(
                        tables@,
                        selector_index(a, b, plain_log as nat, chunk_size as nat),
                    ),
                    chunk_size as nat,
                ) == op_value(*op, a, b, plain_log as nat)
            } by {
                let s = selector_index(a, b, w, m);
                lemma_unmask_selector_index(a, b, plain_log, m);
                lemma_lut_correct(*op, a, b, plain_log, m);
                assert(table_column(tables@, s) =~= Seq::new(
                    w / m,
                    |k: int| compiled_entry(*op, s, seq![plain_log, plain_log], w, m, k as nat),
                ));
            }
        }
    }
    tables
}

/// The compiled tables of an opcode whose second operand is the constant
/// `immediate`: table `k`, read at the masked index `s`, gives chunk `k` of
/// `op(a, immediate)` for the operand `a` that `s` stands for.
pub fn build_split_lut_tables_cipher_plain(
    plain_log: usize,
    immediate: usize,
    input_bitwidths: Vec<usize>,
    chunk_size: usize,
    op: &ArithmeticOp,
) -> (tables: Vec<Vec<usize>>)
    requires
        supported_width(plain_log as nat),
        plain_log < usize::BITS,
        chunk_size > 0,
        plain_log % chunk_size == 0,
        total_width(input_bitwidths@) <= plain_log,
    ensures
        tables.len() == plain_log / chunk_size,
        forall|k: int|
            0 <= k < tables.len() ==> (#[trigger] tables[k]).len() == pow2(
                total_width(input_bitwidths@),
            ),
        forall|k: int, s: int|
            0 <= k < tables.len() && 0 <= s < pow2(total_width(input_bitwidths@))
                ==> #[trigger] tables[k][s] == chunk_of(
                cipher_plain_entry(
                    *op,
                    unmasked_index(s as nat, input_bitwidths@, chunk_size as nat),
                    immediate as nat,
                    plain_log as nat,
                ),
                k as nat,
                (plain_log / chunk_size) as nat,
                chunk_size as nat,
            ),
{
    let plain_lut = get_plain_lut_cipher_plain(plain_log, immediate, op);
    proof {
        if total_width(input_bitwidths@) < plain_log {
            lemma_pow2_strictly_increases(total_width(input_bitwidths@), plain_log as nat);
        }
    }
    let adjusted_lut = adjust_lut_with_masking_decode(
        plain_lut.as_slice(),
        input_bitwidths.as_slice(),
        chunk_size,
    );
    proof {
        assert forall|s: int| 0 <= s < adjusted_lut.len() implies #[trigger] adjusted_lut[s]
            == cipher_plain_entry(
            *op,
            unmasked_index(s as nat, input_bitwidths@, chunk_size as nat),
            immediate as nat,
            plain_log as nat,
        ) by {
            lemma_blockwise_bound(
                s as nat,
                input_bitwidths@,
                chunk_size as nat,
                true,
                input_bitwidths@.len(),
            );
        }
    }
    split_adjusted_lut_by_chunk(adjusted_lut.as_slice(), plain_log, chunk_size)
}

/// The compiled tables of an opcode whose first operand is the constant
/// `immediate`: table `k`, read at the masked index `s`, gives chunk `k` of
/// `op(immediate, b)` for the operand `b` that `s` stands for.
pub fn build_split_lut_tables_plain_cipher(
    plain_log: usize,
    immediate: usize,
    input_bitwidths: Vec<usize>,
    chunk_size: usize,
    op: &ArithmeticOp,
) -> (tables: Vec<Vec<usize>>)
    requires
        supported_width(plain_log as nat),
        plain_log < usize::BITS,
        chunk_size > 0,
        plain_log % chunk_size == 0,
        total_width(input_bitwidths@) <= plain_log,
    ensures
        tables.len() == plain_log / chunk_size,
        forall|k: int|
            0 <= k < tables.len() ==> (#[trigger] tables[k]).len() == pow2(
                total_width(input_bitwidths@),
            ),
        forall|k: int, s: int|
            0 <= k < tables.len() && 0 <= s < pow2(total_width(input_bitwidths@))
                ==> #[trigger] tables[k][s] == chunk_of(
                plain_cipher_entry(
                    *op,
                    unmasked_index(s as nat, input_bitwidths@, chunk_size as nat),
                    immediate as nat,
                    plain_log as nat,
                ),
                k as nat,
                (plain_log / chunk_size) as nat,
                chunk_size as nat,
            ),
{
    let plain_lut = get_plain_lut_plain_cipher(plain_log, immediate, op);
    proof {
        if total_width(input_bitwidths@) < plain_log {
            lemma_pow2_strictly_increases(total_width(input_bitwidths@), plain_log as nat);
        }
    }
    let adjusted_lut = adjust_lut_with_masking_decode(
        plain_lut.as_slice(),
        input_bitwidths.as_slice(),
        chunk_size,
    );
    proof {
        assert forall|s: int| 0 <= s < adjusted_lut.len() implies #[trigger] adjusted_lut[s]
            == plain_cipher_entry(
            *op,
            unmasked_index(s as nat, input_bitwidths@, chunk_size as nat),
            immediate as nat,
            plain_log as nat,
        ) by {
            lemma_blockwise_bound(
                s as nat,
                input_bitwidths@,
                chunk_size as nat,
                true,
                input_bitwidths@.len(),
            );
        }
    }
    split_adjusted_lut_by_chunk(adjusted_lut.as_slice(), plain_log, chunk_size)
}

/// The index that the selector bits of two operands address: the masked first
/// operand in the upper `w` digits, the masked second operand in the lower.
pub open spec fn selector_index(a: nat, b: nat, w: nat, m: nat) -> nat {
    mask_encode(a, m, w) * pow2(w) + mask_encode(b, m, w)
}

/// Unmasking the index that two operands address gives the plain index of
/// the pair.
pub proof fn lemma_unmask_selector_index(a: nat, b: nat, w: usize, m: nat)
    requires
        m > 0,
        a < pow2(w as nat),
        b < pow2(w as nat),
    ensures
        unmasked_index(selector_index(a, b, w as nat, m), seq![w, w], m) == a * pow2(w as nat) + b,
        selector_index(a, b, w as nat, m) < pow2((2 * w) as nat),
{
    let widths = seq![w, w];
    let p = pow2(w as nat);
    let ea = mask_encode(a, m, w as nat);
    let eb = mask_encode(b, m, w as nat);
    let s = selector_index(a, b, w as nat, m);
    lemma_mask_round_trip(a, m, w as nat);
    lemma_mask_round_trip(b, m, w as nat);
    lemma_small_mod(a, p);
    lemma_small_mod(b, p);
    lemma_pow2_pos(w as nat);
    assert(pow2(0) == 1) by {
        lemma2_to64();
    }
    assert(offset_of(widths, 0) == 0);
    assert(offset_of(widths, 1) == w) by {
        reveal_with_fuel(offset_of, 2);
    }
    lemma_fundamental_div_mod_converse(s as int, p as int, ea as int, eb as int);
    assert(block_at(s, widths, 0) == eb) by {
        assert(s as int / 1 == s);
    }
    assert(block_at(s, widths, 1) == ea) by {
        lemma_small_mod(ea, p);
    }
    assert(blockwise(s, widths, m, true, 2) == b + a * p) by {
        reveal_with_fuel(blockwise, 3);
    }
    lemma_pow2_adds(w as nat, w as nat);
    assert(s < p * p) by {
        lemma_mul_inequality((ea + 1) as int, p as int, p as int);
        lemma_mul_is_distributive_add_other_way(p as int, ea as int, 1);
    }
}

/// The compiled tables are right: for every opcode and every pair of
/// operands, the tables read at the index that the operands' selector bits
/// address hold the chunks of `op(a, b)`, and those chunks put together are
/// `op(a, b)`.
pub proof fn lemma_lut_correct(op: ArithmeticOp, a: nat, b: nat, w: usize, m: nat)
    requires
        supported_width(w as nat),
        m > 0,
        (w as nat) % m == 0,
        a < pow2(w as nat),
        b < pow2(w as nat),
    ensures
        cipher_cipher_entry(
            op,
            unmasked_index(selector_index(a, b, w as nat, m), seq![w, w], m),
            w as nat,
        ) == op_value(op, a, b, w as nat),
        Seq::new(
            (w as nat) / m,
            |k: int| compiled_entry(op, selector_index(a, b, w as nat, m), seq![w, w], w as nat, m, k as nat),
        ) == split_high_to_low(op_value(op, a, b, w as nat), (w as nat) / m, m),
        recombine(split_high_to_low(op_value(op, a, b, w as nat), (w as nat) / m, m), m)
            == op_value(op, a, b, w as nat),
{
    let p = pow2(w as nat);
    let n = (w as nat) / m;
    let v = op_value(op, a, b, w as nat);
    lemma_op_value_bound(op, a, b, w as nat);
    lemma_unmask_selector_index(a, b, w, m);
    lemma_pow2_pos(w as nat);
    lemma_mul_is_commutative(a as int, p as int);
    lemma_fundamental_div_mod_converse((a * p + b) as int, p as int, a as int, b as int);
    assert(Seq::new(
        n,
        |k: int| compiled_entry(op, selector_index(a, b, w as nat, m), seq![w, w], w as nat, m, k as nat),
    ) =~= split_high_to_low(v, n, m));
    lemma_recombine_split(v, n, m);
    lemma_fundamental_div_mod(w as int, m as int);
    lemma_mul_is_commutative(m as int, n as int);
    lemma_small_mod(v, p);
}

} // verus!
