//! The registers of the engine and its straight-line plan: how a word is
//! cut into chunks for loading and put together again on reading, how a chunk
//! is scaled into a plaintext and rounded back, and which step does what.

use crate::bits::{lemma_fits_usize, low_bits, pow2_u64, shift_down};
use crate::layout::{
    chunk_count, chunk_of, chunks_fit, lemma_chunks_cover, lemma_split_fits,
    lemma_split_recombine_round_trip, recombine, split_value,
};
use crate::operations::operand::ArithmeticOp;
use crate::operations::operation::{evaluation_path, EvaluationPath, OperandType, Operation};
use crate::opmized_operations::compare::{
    can_run_tree, comparison_result, opmized_compare_bothcipher, opmized_compare_cipherplain,
    opmized_compare_plaincipher, tree_fits, tree_outputs,
};
use crate::opmized_operations::sign::{can_run_sign, sign, sign_fits, sign_outputs, sign_state};
use crate::operations::operation::path_of;
use crate::primitives::{
    decrypt_chunk, encrypt_chunk, encrypts, fft_polynomial_size, join_selectors,
    joined_selectors, noise_limit, noisy, phase,
    selector_base_log, selector_count, selector_glwe_size, selector_level_count,
    selector_polynomial_size, shape_of, Encryptor, SelectorBits, SelectorShape,
};
use crate::utils::parms::ProcessorParam;
use tfhe::core_crypto::prelude::Fft;
use vstd::arithmetic::div_mod::*;
use vstd::arithmetic::mul::*;
use vstd::arithmetic::power2::*;
use vstd::prelude::*;

verus! {

/// One step of a plan: the operation to run, the registers it reads and the
/// register it writes.
pub struct Step {
    pub op_index: usize,
    pub input_indices: Vec<usize>,
    pub output_index: usize,
}

/// A step as a value of the model.
#[verifier::ext_equal]
pub struct StepView {
    pub op_index: usize,
    pub input_indices: Seq<usize>,
    pub output_index: usize,
}

impl View for Step {
    type V = StepView;

    open spec fn view(&self) -> StepView {
        StepView {
            op_index: self.op_index,
            input_indices: self.input_indices@,
            output_index: self.output_index,
        }
    }
}

/// The steps of a plan as values of the model.
pub open spec fn plan_view(plan: Seq<Step>) -> Seq<StepView> {
    Seq::new(plan.len(), |i: int| plan[i]@)
}

impl Step {
    pub fn new(op_index: usize, input_indices: Vec<usize>, output_index: usize) -> (step: Self)
        ensures
            step@ == (StepView { op_index, input_indices: input_indices@, output_index }),
    {
        Step { op_index, input_indices, output_index }
    }
}

/// The chunks as numbers of the model.
pub open spec fn chunk_values(chunks: Seq<u64>) -> Seq<nat> {
    Seq::new(chunks.len(), |i: int| chunks[i] as nat)
}

/// The number of chunks, counted without the sum that could overflow.
proof fn lemma_chunk_count(w: nat, m: nat)
    requires
        w > 0,
        m > 0,
    ensures
        chunk_count(w, m) == (w - 1) / (m as int) + 1,
{
    let q = (w - 1) / (m as int);
    lemma_fundamental_div_mod(w - 1, m as int);
    lemma_mod_bound(w - 1, m as int);
    lemma_mul_is_commutative(m as int, q);
    lemma_mul_is_distributive_add_other_way(m as int, q, 1);
    lemma_fundamental_div_mod_converse_div(
        (w + m - 1) as int,
        m as int,
        q + 1,
        (w - 1) % (m as int),
    );
}

/// The chunks of the lowest `data_len` digits of `value`, each of
/// `message_size` digits, the most significant chunk first: as many as the
/// width asks for, each within its digits, and put together again they are
/// those lowest digits.
pub fn split_bits_high_to_low(value: usize, data_len: usize, message_size: usize) -> (chunks: Vec<
    u64,
>)
    requires
        message_size > 0,
        data_len > 0,
        data_len <= usize::BITS,
    ensures
        chunk_values(chunks@) == split_value(
            value as nat,
            data_len as nat,
            message_size as nat,
        ),
        chunks.len() == chunk_count(data_len as nat, message_size as nat),
        chunks_fit(chunk_values(chunks@), message_size as nat),
        recombine(chunk_values(chunks@), message_size as nat) == value as nat % pow2(
            data_len as nat,
        ),
{
    let val = low_bits(value as u64, data_len as u64);
    let num_chunks = (data_len - 1) / message_size + 1;
    proof {
        lemma_chunk_count(data_len as nat, message_size as nat);
        lemma_chunks_cover(data_len as nat, message_size as nat);
    }
    let mut chunks: Vec<u64> = Vec::with_capacity(num_chunks);
    let mut p: usize = 0;
    while p < num_chunks
        invariant
            p <= num_chunks,
            message_size > 0,
            num_chunks == chunk_count(data_len as nat, message_size as nat),
            num_chunks * message_size < data_len + message_size,
            val == value as nat % pow2(data_len as nat),
            chunks.len() == p,
            forall|k: int|
                0 <= k < p ==> #[trigger] chunks[k] == chunk_of(
                    val as nat,
                    k as nat,
                    num_chunks as nat,
                    message_size as nat,
                ),
        decreases num_chunks - p,
    {
        let i = num_chunks - 1 - p;
        proof {
            lemma_mul_inequality(i as int, num_chunks - 1, message_size as int);
            lemma_mul_is_distributive_sub_other_way(message_size as int, num_chunks as int, 1);
            lemma_mul_nonnegative(i as int, message_size as int);
        }
        let shift = i * message_size;
        let chunk_val = low_bits(shift_down(val, shift as u64), message_size as u64);
        chunks.push(chunk_val);
        p += 1;
    }
    proof {
        assert(chunk_values(chunks@) =~= split_value(
            value as nat,
            data_len as nat,
            message_size as nat,
        ));
        lemma_split_fits(val as nat, num_chunks as nat, message_size as nat);
        lemma_split_recombine_round_trip(value as nat, data_len as nat, message_size as nat);
    }
    chunks
}

/// The word made of `chunks`, the most significant first, each of
/// `message_size` digits.
pub fn recombine_chunks(chunks: &[u64], message_size: usize) -> (value: usize)
    requires
        message_size < usize::BITS,
        chunks.len() * message_size <= usize::BITS,
        chunks_fit(chunk_values(chunks@), message_size as nat),
    ensures
        value == recombine(chunk_values(chunks@), message_size as nat),
{
    let mut result: u64 = 0;
    let mut i: usize = 0;
    let ghost all = chunk_values(chunks@);
    proof {
        lemma2_to64();
    }
    while i < chunks.len()
        invariant
            i <= chunks.len(),
            message_size < usize::BITS,
            chunks.len() * message_size <= usize::BITS,
            all == chunk_values(chunks@),
            chunks_fit(all, message_size as nat),
            result == recombine(all.subrange(0, i as int), message_size as nat),
            result < pow2((i * message_size) as nat),
        decreases chunks.len() - i,
    {
        let chunk = chunks[i];
        proof {
            let m = message_size as nat;
            let done = (i * message_size) as nat;
            lemma2_to64();
            lemma_mul_nonnegative(i as int, message_size as int);
            assert(all.subrange(0, i + 1).drop_last() =~= all.subrange(0, i as int));
            assert(all[i as int] == chunk);
            assert((i + 1) * message_size == i * message_size + message_size) by {
                lemma_mul_is_distributive_add_other_way(message_size as int, i as int, 1);
            }
            assert((i + 1) * message_size <= chunks.len() * message_size) by {
                lemma_mul_inequality((i + 1) as int, chunks.len() as int, message_size as int);
            }
            lemma_pow2_adds(done, m);
            lemma_pow2_pos(m);
            assert((result + 1) * pow2(m) <= pow2(done) * pow2(m)) by {
                lemma_mul_inequality((result + 1) as int, pow2(done) as int, pow2(m) as int);
            }
            assert((result + 1) * pow2(m) == result * pow2(m) + pow2(m)) by {
                lemma_mul_is_distributive_add_other_way(pow2(m) as int, result as int, 1);
            }
            if done + m < 64 {
                vstd::bits::lemma_u64_pow2_no_overflow(done + m);
            }
        }
        result = result * pow2_u64(message_size as u64) + chunk;
        i += 1;
    }
    proof {
        assert(all.subrange(0, chunks.len() as int) =~= all);
        lemma_mul_nonnegative(chunks.len() as int, message_size as int);
        if chunks.len() * message_size < usize::BITS {
            lemma_pow2_strictly_increases(
                (chunks.len() * message_size) as nat,
                usize::BITS as nat,
            );
        }
        lemma_fits_usize(result as nat, usize::BITS as nat);
    }
    result as usize
}

/// The plaintext that stands for a chunk: the chunk in the top `message_size`
/// digits of the word.
pub open spec fn encoded(chunk: nat, message_size: nat) -> nat {
    chunk * pow2((64 - message_size) as nat)
}

/// The chunk that a plaintext stands for: the plaintext divided by the scale
/// and rounded to the nearest, the top of the range wrapping round to zero.
pub open spec fn decoded(plain: nat, message_size: nat) -> nat {
    ((plain + pow2((63 - message_size) as nat)) / pow2((64 - message_size) as nat)) % pow2(
        message_size,
    )
}

/// Scales a chunk into a plaintext.
pub fn encode_chunk(chunk: u64, message_size: usize) -> (plain: u64)
    requires
        0 < message_size <= 64,
        chunk < pow2(message_size as nat),
    ensures
        plain == encoded(chunk as nat, message_size as nat),
{
    let shift = (64 - message_size) as u64;
    proof {
        lemma2_to64();
        lemma_pow2_adds(message_size as nat, shift as nat);
        lemma_pow2_pos(shift as nat);
        assert((chunk + 1) * pow2(shift as nat) <= pow2(message_size as nat) * pow2(
            shift as nat,
        )) by {
            lemma_mul_inequality(
                (chunk + 1) as int,
                pow2(message_size as nat) as int,
                pow2(shift as nat) as int,
            );
        }
        assert((chunk + 1) * pow2(shift as nat) == chunk * pow2(shift as nat) + pow2(
            shift as nat,
        )) by {
            lemma_mul_is_distributive_add_other_way(pow2(shift as nat) as int, chunk as int, 1);
        }
    }
    chunk * pow2_u64(shift)
}

/// Rounds a plaintext back to the chunk it stands for.
pub fn decode_chunk(plain: u64, message_size: usize) -> (chunk: u64)
    requires
        0 < message_size < 63,
    ensures
        chunk == decoded(plain as nat, message_size as nat),
        chunk < pow2(message_size as nat),
{
    let m = message_size as u64;
    let half = pow2_u64(63 - m);
    let top = shift_down(plain, 63 - m);
    proof {
        lemma2_to64();
        lemma_pow2_pos((63 - m) as nat);
        lemma_pow2_pos(m as nat);
        lemma_pow2_unfold((64 - m) as nat);
        lemma_pow2_adds((m + 1) as nat, (63 - m) as nat);
        assert(top < pow2((m + 1) as nat)) by {
            lemma_mul_is_commutative(
                pow2((63 - m) as nat) as int,
                pow2((m + 1) as nat) as int,
            );
            lemma_multiply_divide_lt(
                plain as int,
                pow2((63 - m) as nat) as int,
                pow2((m + 1) as nat) as int,
            );
        }
        vstd::bits::lemma_u64_pow2_no_overflow((m + 1) as nat);
        assert((plain + half) / pow2((64 - m) as nat) as int == (top + 1) / 2) by {
            lemma_hoist_over_denominator(plain as int, 1, half as nat);
            lemma_div_denominator((plain + half) as int, half as int, 2);
            lemma_mul_is_commutative(half as int, 2);
        }
        lemma_mod_bound(((top + 1) / 2) as int, pow2(m as nat) as int);
    }
    low_bits((top + 1) / 2, m)
}

/// Rounding undoes scaling, whatever noise below half the scale has been
/// added on the way: the plaintext of `chunk`, moved by `noise` and wrapped
/// round at `2^64`, is rounded back to `chunk`.
pub proof fn lemma_decode_encode(chunk: nat, noise: int, message_size: nat)
    requires
        0 < message_size < 64,
        chunk < pow2(message_size),
        -pow2((63 - message_size) as nat) <= noise < pow2((63 - message_size) as nat),
    ensures
        decoded(
            ((encoded(chunk, message_size) + noise) % (pow2(64) as int)) as nat,
            message_size,
        ) == chunk,
{
    let m = message_size;
    let scale = pow2((64 - m) as nat) as int;
    let half = pow2((63 - m) as nat) as int;
    let range = pow2(m) as int;
    let whole = pow2(64) as int;
    lemma_pow2_pos((63 - m) as nat);
    lemma_pow2_pos(m);
    lemma_pow2_unfold((64 - m) as nat);
    lemma_pow2_adds(m, (64 - m) as nat);
    let x = encoded(chunk, m) + noise;
    assert(chunk * scale <= (range - 1) * scale) by {
        lemma_mul_inequality(chunk as int, range - 1, scale);
    }
    assert((range - 1) * scale == whole - scale) by {
        lemma_mul_is_distributive_sub_other_way(scale, range, 1);
    }
    assert(0 <= chunk * scale) by {
        lemma_mul_nonnegative(chunk as int, scale);
    }
    if x >= 0 {
        lemma_small_mod(x as nat, whole as nat);
        lemma_fundamental_div_mod_converse(x + half, scale, chunk as int, noise + half);
        lemma_small_mod(chunk, range as nat);
    } else {
        assert(chunk == 0) by {
            if chunk > 0 {
                lemma_mul_inequality(1, chunk as int, scale);
            }
        }
        assert(encoded(chunk, m) == 0) by {
            lemma_mul_basics(scale);
        }
        assert(-1 * whole + (whole + x) == x);
        lemma_fundamental_div_mod_converse_mod(x, whole, -1, whole + x);
        lemma_mul_is_commutative(range, scale);
        assert(whole + x + half == range * scale + (noise + half));
        lemma_fundamental_div_mod_converse(whole + x + half, scale, range, noise + half);
        lemma_mod_self_0(range);
    }
}

/// The summed number of selector bits of the first `k` lists.
pub open spec fn selectors_total(lists: Seq<SelectorBits>, k: nat) -> nat
    decreases k,
{
    if k == 0 {
        0
    } else {
        selectors_total(lists, (k - 1) as nat) + selector_count(lists[k - 1])
    }
}

/// All lists have the sizes of the first.
pub open spec fn selectors_alike(lists: Seq<SelectorBits>) -> bool {
    forall|i: int|
        0 <= i < lists.len() ==> {
            &&& selector_glwe_size(#[trigger] lists[i]) == selector_glwe_size(lists[0])
            &&& selector_polynomial_size(lists[i]) == selector_polynomial_size(lists[0])
            &&& selector_base_log(lists[i]) == selector_base_log(lists[0])
            &&& selector_level_count(lists[i]) == selector_level_count(lists[0])
        }
}

/// How many of the lists a step takes: all of them where both operands are
/// encrypted, else the first half, which belongs to the first operand.
pub open spec fn lists_taken(count: nat, is_both_cipher: bool) -> nat {
    if is_both_cipher {
        count
    } else {
        count / 2
    }
}

/// The shape of the list that joins the lists a step takes: their summed
/// count, and the sizes of the first.
pub open spec fn joined_shape(lists: Seq<SelectorBits>, is_both_cipher: bool) -> SelectorShape {
    SelectorShape {
        count: selectors_total(lists, lists_taken(lists.len(), is_both_cipher)),
        glwe_size: selector_glwe_size(lists[0]),
        polynomial_size: selector_polynomial_size(lists[0]),
        base_log: selector_base_log(lists[0]),
        level_count: selector_level_count(lists[0]),
    }
}

/// The list that joins the first `k` lists in order: the list of no selector
/// bits, and then one list after the other put behind what is joined.
pub open spec fn joined_list(lists: Seq<SelectorBits>, k: nat) -> SelectorBits
    decreases k,
{
    if k == 0 {
        joined_selectors(lists[0], 0, lists[0], 0)
    } else {
        let before = joined_list(lists, (k - 1) as nat);
        joined_selectors(
            before,
            selector_count(before),
            lists[k - 1],
            selector_count(lists[k - 1]),
        )
    }
}

/// The summed number of selector bits of the lists a step takes, where it
/// fits a machine word.
pub fn count_selectors(lists: &Vec<SelectorBits>, is_both_cipher: bool) -> (total: Option<usize>)
    ensures
        match total {
            Some(t) => t == selectors_total(
                lists@,
                lists_taken(lists.len() as nat, is_both_cipher),
            ),
            None => selectors_total(lists@, lists_taken(lists.len() as nat, is_both_cipher))
                > usize::MAX,
        },
{
    let taken = if is_both_cipher {
        lists.len()
    } else {
        lists.len() / 2
    };
    let mut total: usize = 0;
    let mut i: usize = 0;
    while i < taken
        invariant
            i <= taken <= lists.len(),
            taken == lists_taken(lists.len() as nat, is_both_cipher),
            total == selectors_total(lists@, i as nat),
        decreases taken - i,
    {
        match total.checked_add(lists[i].count()) {
            Some(t) => {
                total = t;
            },
            None => {
                proof {
                    lemma_selectors_total_grows(lists@, (i + 1) as nat, taken as nat);
                }
                return None;
            },
        }
        i += 1;
    }
    Some(total)
}

/// Whether all lists have the sizes of the first.
pub fn check_selectors_alike(lists: &Vec<SelectorBits>) -> (ok: bool)
    ensures
        ok == selectors_alike(lists@),
{
    let mut i: usize = 0;
    while i < lists.len()
        invariant
            i <= lists.len(),
            forall|j: int|
                0 <= j < i ==> {
                    &&& selector_glwe_size(#[trigger] lists[j]) == selector_glwe_size(lists[0])
                    &&& selector_polynomial_size(lists[j]) == selector_polynomial_size(lists[0])
                    &&& selector_base_log(lists[j]) == selector_base_log(lists[0])
                    &&& selector_level_count(lists[j]) == selector_level_count(lists[0])
                },
        decreases lists.len() - i,
    {
        if lists[i].glwe_size() != lists[0].glwe_size() || lists[i].polynomial_size()
            != lists[0].polynomial_size() || lists[i].base_log() != lists[0].base_log()
            || lists[i].level_count() != lists[0].level_count() {
            proof {
                let witness = lists@[i as int];
                assert(!(selector_glwe_size(witness) == selector_glwe_size(lists[0])
                    && selector_polynomial_size(witness) == selector_polynomial_size(lists[0])
                    && selector_base_log(witness) == selector_base_log(lists[0])
                    && selector_level_count(witness) == selector_level_count(lists[0])));
            }
            return false;
        }
        i += 1;
    }
    true
}

/// The selector bits of one step in one list: those of all the chunk lists
/// where both operands are encrypted, else those of the first half of the
/// lists.
pub fn concat_ggsw_lists(lists: &Vec<SelectorBits>, is_both_cipher: bool) -> (all: SelectorBits)
    requires
        lists.len() > 0,
        selectors_alike(lists@),
        selectors_total(lists@, lists_taken(lists.len() as nat, is_both_cipher)) <= usize::MAX,
    ensures
        all == joined_list(lists@, lists_taken(lists.len() as nat, is_both_cipher)),
        shape_of(all) == joined_shape(lists@, is_both_cipher),
{
    let taken = if is_both_cipher {
        lists.len()
    } else {
        lists.len() / 2
    };
    let mut all = join_selectors(&lists[0], 0, &lists[0], 0, 0);
    let mut i: usize = 0;
    while i < taken
        invariant
            i <= taken <= lists.len(),
            lists.len() > 0,
            selectors_alike(lists@),
            selectors_total(lists@, taken as nat) <= usize::MAX,
            all == joined_list(lists@, i as nat),
            selector_count(all) == selectors_total(lists@, i as nat),
            selector_glwe_size(all) == selector_glwe_size(lists[0]),
            selector_polynomial_size(all) == selector_polynomial_size(lists[0]),
            selector_base_log(all) == selector_base_log(lists[0]),
            selector_level_count(all) == selector_level_count(lists[0]),
        decreases taken - i,
    {
        proof {
            lemma_selectors_total_grows(lists@, (i + 1) as nat, taken as nat);
        }
        let held = all.count();
        let more = lists[i].count();
        all = join_selectors(&all, held, &lists[i], more, held + more);
        i += 1;
    }
    all
}

/// The total grows with the number of lists.
proof fn lemma_selectors_total_grows(lists: Seq<SelectorBits>, j: nat, k: nat)
    requires
        j <= k,
    ensures
        selectors_total(lists, j) <= selectors_total(lists, k),
    decreases k,
{
    if j < k {
        lemma_selectors_total_grows(lists, j, (k - 1) as nat);
    }
}

/// The engine: its operations, its plan and its registers, with what it needs
/// to load and to read them.
pub struct OperationManager {
    pub operations: Vec<Operation>,
    pub execution_plan: Vec<Step>,
    pub fft: Fft,
    pub encryptor: Encryptor,
    pub params: ProcessorParam,
    /// The secret key, as the LWE key under which the chunks are encrypted.
    pub glwe_sk: Vec<u64>,
    /// The registers: each a list of chunks, the most significant first, each
    /// chunk an LWE ciphertext.
    pub lwe_lists: Vec<Vec<Vec<u64>>>,
    pub data_len: usize,
}

/// The registers all have `chunks` chunks of `lwe_len` words.
pub open spec fn registers_shaped(lwe_lists: Seq<Vec<Vec<u64>>>, chunks: nat, lwe_len: nat) -> bool {
    forall|r: int|
        0 <= r < lwe_lists.len() ==> register_shaped((#[trigger] lwe_lists[r])@, chunks, lwe_len)
}

/// A register has `chunks` chunks of `lwe_len` words.
pub open spec fn register_shaped(register: Seq<Vec<u64>>, chunks: nat, lwe_len: nat) -> bool {
    &&& register.len() == chunks
    &&& forall|c: int| 0 <= c < register.len() ==> (#[trigger] register[c]).len() == lwe_len
}

/// The scale of a chunk in its plaintext, as a word.
pub open spec fn scale_of(message_size: nat) -> nat {
    pow2((64 - message_size) as nat)
}

impl OperationManager {
    /// How many chunks a register has.
    pub open spec fn chunks(&self) -> nat {
        chunk_count(self.data_len as nat, self.params.message_size() as nat)
    }

    /// The parameters fit together: chunks that can be rounded back, words
    /// that fit a machine word chunk by chunk, and a key of as many words as
    /// the GLWE dimension and the polynomial size give.
    pub open spec fn configured(params: ProcessorParam, data_len: usize, key_len: nat) -> bool {
        &&& 0 < params.message_size() < 63
        &&& params.message_size() < usize::BITS
        &&& 0 < data_len <= usize::BITS
        &&& chunk_count(data_len as nat, params.message_size() as nat) * params.message_size()
            <= usize::BITS
        &&& 0 < key_len < usize::MAX
        &&& key_len == params.glwe_dimension() * params.polynomial_size()
    }

    /// The invariant of the engine: fitting parameters, registers of one
    /// shape, and every lookup operation compiled for the engine's width,
    /// chunk size, polynomial size and scale.
    pub open spec fn wf(&self) -> bool {
        &&& Self::configured(self.params, self.data_len, self.glwe_sk.len() as nat)
        &&& registers_shaped(self.lwe_lists@, self.chunks(), (self.glwe_sk.len() + 1) as nat)
        &&& forall|i: int|
            0 <= i < self.operations.len() ==> self.operation_fits(#[trigger] self.operations[i])
    }

    /// An operation belongs to this engine.
    pub open spec fn operation_fits(&self, operation: Operation) -> bool {
        &&& operation.bit_width == self.data_len
        &&& operation.chunk_size == self.params.extract_size()
        &&& operation.path() == EvaluationPath::GenericLookup ==> {
            &&& operation.packed_for(self.params.polynomial_size() as nat)
            &&& operation.compiled_for(
                self.params.polynomial_size() as nat,
                scale_of(self.params.message_size() as nat) as u64,
            )
        }
    }

    /// Whether the parameters fit together.
    pub fn can_configure(params: &ProcessorParam, data_len: usize, key_len: usize) -> (ok: bool)
        ensures
            ok == Self::configured(*params, data_len, key_len as nat),
    {
        let m = params.message_size();
        if m == 0 || m >= 63 || m >= usize::BITS as usize || data_len == 0
            || data_len > usize::BITS as usize || key_len == 0 || key_len == usize::MAX {
            return false;
        }
        let chunks = (data_len - 1) / m + 1;
        proof {
            lemma_chunk_count(data_len as nat, m as nat);
        }
        let covered = match chunks.checked_mul(m) {
            Some(total) => total <= usize::BITS as usize,
            None => false,
        };
        let product = params.glwe_dimension().checked_mul(params.polynomial_size());
        covered && match product {
            Some(len) => len == key_len,
            None => false,
        }
    }

    /// An engine with `mem_size` registers of `data_len` binary digits, every
    /// chunk of every register a fresh encryption of zero, and neither
    /// operations nor a plan.
    pub fn new(
        param: ProcessorParam,
        mem_size: usize,
        data_len: usize,
        glwe_sk: Vec<u64>,
        encryptor: Encryptor,
        fft: Fft,
    ) -> (manager: Self)
        requires
            Self::configured(param, data_len, glwe_sk.len() as nat),
        ensures
            manager.wf(),
            manager.params == param,
            manager.data_len == data_len,
            manager.glwe_sk == glwe_sk,
            manager.fft == fft,
            manager.lwe_lists.len() == mem_size,
            manager.operations.len() == 0,
            manager.execution_plan.len() == 0,
            forall|r: int, c: int|
                0 <= r < manager.lwe_lists.len() && 0 <= c < manager.chunks() ==> encrypts(
                    manager.glwe_sk@,
                    (#[trigger] manager.lwe_lists[r][c])@,
                    0,
                    noise_limit(encryptor),
                ),
            noise_limit(manager.encryptor) == noise_limit(encryptor),
    {
        let mut encryptor = encryptor;
        let message_size = param.message_size();
        let chunks = (data_len - 1) / message_size + 1;
        proof {
            lemma_chunk_count(data_len as nat, message_size as nat);
        }
        let lwe = encrypt_chunk(&glwe_sk, 0, &mut encryptor);
        let mut lwe_list: Vec<Vec<u64>> = Vec::with_capacity(chunks);
        let mut c: usize = 0;
        while c < chunks
            invariant
                c <= chunks,
                lwe.len() == glwe_sk.len() + 1,
                lwe_list.len() == c,
                forall|j: int| 0 <= j < c ==> (#[trigger] lwe_list[j]).len() == lwe.len(),
                forall|j: int| 0 <= j < c ==> (#[trigger] lwe_list[j])@ == lwe@,
            decreases chunks - c,
        {
            lwe_list.push(lwe.clone());
            c += 1;
        }
        let mut lwe_lists: Vec<Vec<Vec<u64>>> = Vec::with_capacity(mem_size);
        let mut r: usize = 0;
        while r < mem_size
            invariant
                r <= mem_size,
                lwe_lists.len() == r,
                register_shaped(lwe_list@, chunks as nat, (glwe_sk.len() + 1) as nat),
                registers_shaped(lwe_lists@, chunks as nat, (glwe_sk.len() + 1) as nat),
                forall|j: int| 0 <= j < chunks ==> (#[trigger] lwe_list[j])@ == lwe@,
                forall|q: int, j: int|
                    0 <= q < r && 0 <= j < chunks ==> (#[trigger] lwe_lists[q][j])@ == lwe@,
            decreases mem_size - r,
        {
            let register = copy_register(&lwe_list);
            lwe_lists.push(register);
            r += 1;
        }
        OperationManager {
            operations: Vec::new(),
            execution_plan: Vec::new(),
            fft,
            encryptor,
            params: param,
            glwe_sk,
            lwe_lists,
            data_len,
        }
    }

    /// The scale of a chunk in its plaintext.
    fn delta(&self) -> (delta: u64)
        requires
            0 < self.params.message_size() < 64,
        ensures
            delta == scale_of(self.params.message_size() as nat),
    {
        pow2_u64((64 - self.params.message_size()) as u64)
    }

    /// What `add_operation` asks where the opcode is a table lookup at this
    /// engine's width: that the tables can be compiled.
    pub open spec fn can_add(
        &self,
        op: ArithmeticOp,
        op_type: OperandType,
        immediate: Option<usize>,
    ) -> bool {
        evaluation_path(op, self.data_len as nat) == EvaluationPath::GenericLookup
            ==> Operation::compilable(
            op_type,
            self.data_len,
            self.params.extract_size(),
            self.params.polynomial_size(),
            scale_of(self.params.message_size() as nat) as u64,
            immediate,
        )
    }

    /// Whether an operation can be added.
    pub fn accepts(&self, op: ArithmeticOp, op_type: OperandType, immediate: Option<usize>) -> (ok:
        bool)
        requires
            self.wf(),
        ensures
            ok == self.can_add(op, op_type, immediate),
    {
        match path_of(op, self.data_len) {
            EvaluationPath::GenericLookup => Operation::can_compile(
                op_type,
                self.data_len,
                self.params.extract_size(),
                self.params.polynomial_size(),
                self.delta(),
                immediate,
            ),
            _ => true,
        }
    }

    /// Compiles an operation and appends it; returns its index.
    pub fn add_operation(
        &mut self,
        op: ArithmeticOp,
        op_type: OperandType,
        immediate: Option<usize>,
    ) -> (index: usize)
        requires
            old(self).wf(),
            old(self).can_add(op, op_type, immediate),
        ensures
            final(self).wf(),
            index == old(self).operations.len(),
            final(self).operations.len() == index + 1,
            forall|i: int| 0 <= i < index ==> final(self).operations[i] == old(self).operations[i],
            final(self).operations[index as int].op == op,
            final(self).operations[index as int].op_type == op_type,
            final(self).operations[index as int].immediate == immediate,
            final(self).execution_plan == old(self).execution_plan,
            final(self).lwe_lists == old(self).lwe_lists,
            final(self).params == old(self).params,
            final(self).data_len == old(self).data_len,
            final(self).glwe_sk == old(self).glwe_sk,
            final(self).fft == old(self).fft,
    {
        let delta = self.delta();
        proof {
            vstd::bits::lemma_u64_pow2_no_overflow((64 - self.params.message_size()) as nat);
        }
        let operand = Operation::new(
            op,
            op_type,
            self.data_len,
            self.params.extract_size(),
            self.params.polynomial_size(),
            delta,
            immediate,
        );
        let index = self.operations.len();
        self.operations.push(operand);
        proof {
            assert forall|i: int| 0 <= i < self.operations.len() implies self.operation_fits(
                #[trigger] self.operations[i],
            ) by {
                if i < index {
                    assert(self.operations[i] == old(self).operations[i]);
                    assert(old(self).operation_fits(old(self).operations[i]));
                }
            }
        }
        index
    }

    /// Compiles and appends the operations in order.
    pub fn add_operatoins(&mut self, ops: Vec<(ArithmeticOp, OperandType, Option<usize>)>)
        requires
            old(self).wf(),
            forall|i: int|
                0 <= i < ops.len() ==> old(self).can_add(
                    (#[trigger] ops[i]).0,
                    ops[i].1,
                    ops[i].2,
                ),
        ensures
            final(self).wf(),
            final(self).operations.len() == old(self).operations.len() + ops.len(),
            forall|i: int|
                0 <= i < old(self).operations.len() ==> final(self).operations[i] == old(
                    self,
                ).operations[i],
            forall|i: int|
                0 <= i < ops.len() ==> {
                    &&& (#[trigger] final(self).operations[old(self).operations.len() + i]).op
                        == ops[i].0
                    &&& final(self).operations[old(self).operations.len() + i].op_type == ops[i].1
                    &&& final(self).operations[old(self).operations.len() + i].immediate
                        == ops[i].2
                },
            final(self).execution_plan == old(self).execution_plan,
            final(self).lwe_lists == old(self).lwe_lists,
            final(self).params == old(self).params,
            final(self).data_len == old(self).data_len,
    {
        let ghost start = self.operations.len();
        let mut i: usize = 0;
        while i < ops.len()
            invariant
                i <= ops.len(),
                self.wf(),
                start == old(self).operations.len(),
                self.operations.len() == start + i,
                self.params == old(self).params,
                self.data_len == old(self).data_len,
                self.execution_plan == old(self).execution_plan,
                self.lwe_lists == old(self).lwe_lists,
                forall|j: int|
                    0 <= j < ops.len() ==> old(self).can_add(
                        (#[trigger] ops[j]).0,
                        ops[j].1,
                        ops[j].2,
                    ),
                forall|j: int|
                    0 <= j < start ==> self.operations[j] == old(self).operations[j],
                forall|j: int|
                    0 <= j < i ==> {
                        &&& (#[trigger] self.operations[start + j]).op == ops[j].0
                        &&& self.operations[start + j].op_type == ops[j].1
                        &&& self.operations[start + j].immediate == ops[j].2
                    },
            decreases ops.len() - i,
        {
            let (op, op_type, immediate) = ops[i];
            proof {
                assert(old(self).can_add(ops[i as int].0, ops[i as int].1, ops[i as int].2));
            }
            self.add_operation(op, op_type, immediate);
            i += 1;
        }
    }

    /// Takes the operation at `index` out; those behind it move up.
    pub fn remove_operation(&mut self, index: usize)
        requires
            old(self).wf(),
            index < old(self).operations.len(),
        ensures
            final(self).wf(),
            final(self).operations@ == old(self).operations@.remove(index as int),
            final(self).execution_plan == old(self).execution_plan,
            final(self).lwe_lists == old(self).lwe_lists,
            final(self).params == old(self).params,
            final(self).data_len == old(self).data_len,
    {
        self.operations.remove(index);
        proof {
            assert forall|i: int| 0 <= i < self.operations.len() implies self.operation_fits(
                #[trigger] self.operations[i],
            ) by {
                if i < index {
                    assert(self.operations[i] == old(self).operations[i]);
                    assert(old(self).operation_fits(old(self).operations[i]));
                } else {
                    assert(self.operations[i] == old(self).operations[i + 1]);
                    assert(old(self).operation_fits(old(self).operations[i + 1]));
                }
            }
        }
    }

    /// Replaces the plan.
    pub fn set_execution_plan(&mut self, plan: Vec<Step>)
        ensures
            final(self).execution_plan == plan,
            final(self).operations == old(self).operations,
            final(self).lwe_lists == old(self).lwe_lists,
            final(self).params == old(self).params,
            final(self).data_len == old(self).data_len,
            final(self).glwe_sk == old(self).glwe_sk,
            final(self).fft == old(self).fft,
            old(self).wf() ==> final(self).wf(),
    {
        self.execution_plan = plan;
    }

    /// Cuts the lowest digits of `data` into chunks and writes fresh
    /// encryptions of them into register `index`. The other registers stay
    /// as they are.
    pub fn load_data(&mut self, data: usize, index: usize)
        requires
            old(self).wf(),
            index < old(self).lwe_lists.len(),
        ensures
            final(self).wf(),
            final(self).lwe_lists.len() == old(self).lwe_lists.len(),
            forall|r: int|
                0 <= r < final(self).lwe_lists.len() && r != index ==> final(self).lwe_lists[r]
                    == old(self).lwe_lists[r],
            final(self).operations == old(self).operations,
            final(self).execution_plan == old(self).execution_plan,
            final(self).params == old(self).params,
            final(self).data_len == old(self).data_len,
            final(self).glwe_sk == old(self).glwe_sk,
            final(self).fft == old(self).fft,
            final(self).lwe_lists[index as int].len() == old(self).chunks(),
            forall|c: int|
                0 <= c < old(self).chunks() ==> encrypts(
                    final(self).glwe_sk@,
                    (#[trigger] final(self).lwe_lists[index as int][c])@,
                    encoded(
                        split_value(
                            data as nat,
                            old(self).data_len as nat,
                            old(self).params.message_size() as nat,
                        )[c],
                        old(self).params.message_size() as nat,
                    ),
                    noise_limit(old(self).encryptor),
                ),
            noise_limit(final(self).encryptor) == noise_limit(old(self).encryptor),
    {
        let message_size = self.params.message_size();
        let chunks = split_bits_high_to_low(data, self.data_len, message_size);
        proof {
            lemma_split_fits(
                data as nat % pow2(self.data_len as nat),
                self.chunks(),
                message_size as nat,
            );
            assert(chunks.len() == chunk_values(chunks@).len());
        }
        let mut register: Vec<Vec<u64>> = Vec::with_capacity(chunks.len());
        let mut c: usize = 0;
        while c < chunks.len()
            invariant
                c <= chunks.len(),
                0 < message_size <= 64,
                0 < self.glwe_sk.len() < usize::MAX,
                self.operations == old(self).operations,
                self.execution_plan == old(self).execution_plan,
                self.params == old(self).params,
                self.data_len == old(self).data_len,
                self.glwe_sk == old(self).glwe_sk,
                self.fft == old(self).fft,
                self.lwe_lists == old(self).lwe_lists,
                chunks_fit(chunk_values(chunks@), message_size as nat),
                register.len() == c,
                forall|j: int|
                    0 <= j < c ==> (#[trigger] register[j]).len() == self.glwe_sk.len() + 1,
                noise_limit(self.encryptor) == noise_limit(old(self).encryptor),
                forall|j: int|
                    0 <= j < c ==> encrypts(
                        self.glwe_sk@,
                        (#[trigger] register[j])@,
                        encoded(chunks[j] as nat, message_size as nat),
                        noise_limit(old(self).encryptor),
                    ),
            decreases chunks.len() - c,
        {
            proof {
                assert(chunk_values(chunks@)[c as int] == chunks[c as int]);
            }
            let plain = encode_chunk(chunks[c], message_size);
            let lwe = encrypt_chunk(&self.glwe_sk, plain, &mut self.encryptor);
            register.push(lwe);
            c += 1;
        }
        let ghost written = register@;
        self.lwe_lists.set(index, register);
        proof {
            assert(self.lwe_lists@[index as int]@ == written);
            assert forall|c: int| 0 <= c < old(self).chunks() implies encrypts(
                self.glwe_sk@,
                (#[trigger] self.lwe_lists[index as int][c])@,
                encoded(
                    split_value(data as nat, self.data_len as nat, message_size as nat)[c],
                    message_size as nat,
                ),
                noise_limit(old(self).encryptor),
            ) by {
                assert(chunk_values(chunks@)[c] == chunks[c]);
                assert(self.lwe_lists[index as int][c] == written[c]);
            }
            assert forall|r: int| 0 <= r < self.lwe_lists.len() implies register_shaped(
                (#[trigger] self.lwe_lists@[r])@,
                self.chunks(),
                (self.glwe_sk.len() + 1) as nat,
            ) by {
                if r != index {
                    assert(self.lwe_lists@[r] == old(self).lwe_lists@[r]);
                    assert(register_shaped(
                        old(self).lwe_lists@[r]@,
                        old(self).chunks(),
                        (old(self).glwe_sk.len() + 1) as nat,
                    ));
                }
            }
            assert forall|i: int| 0 <= i < self.operations.len() implies self.operation_fits(
                #[trigger] self.operations[i],
            ) by {
                assert(old(self).operation_fits(old(self).operations[i]));
            }
        }
    }

    /// The chunks that the ciphertexts of register `index` decrypt to, each
    /// rounded back from its plaintext.
    pub open spec fn register_chunks(&self, index: int) -> Seq<nat> {
        Seq::new(
            self.lwe_lists[index].len() as nat,
            |c: int|
                decoded(
                    phase(self.glwe_sk@, self.lwe_lists[index][c]@) as nat,
                    self.params.message_size() as nat,
                ),
        )
    }

    /// A register reads back as the word that was loaded while the noise of
    /// every chunk stays below half the scale: where the chunks of register
    /// `index` decrypt to the plaintexts of the chunks of `value`, each with a
    /// noise in that range added, the chunks put together are the lowest
    /// `data_len` digits of `value`.
    pub proof fn lemma_reads_back(&self, index: int, value: nat, noise: Seq<int>)
        requires
            self.wf(),
            0 <= index < self.lwe_lists.len(),
            noise.len() == self.chunks(),
            forall|c: int|
                0 <= c < self.chunks() ==> {
                    &&& -pow2((63 - self.params.message_size()) as nat) <= #[trigger] noise[c]
                        < pow2((63 - self.params.message_size()) as nat)
                    &&& phase(self.glwe_sk@, self.lwe_lists[index][c]@) == (encoded(
                        split_value(
                            value,
                            self.data_len as nat,
                            self.params.message_size() as nat,
                        )[c],
                        self.params.message_size() as nat,
                    ) + noise[c]) % (pow2(64) as int)
                },
        ensures
            recombine(self.register_chunks(index), self.params.message_size() as nat) == value
                % pow2(self.data_len as nat),
    {
        let m = self.params.message_size() as nat;
        let w = self.data_len as nat;
        let chunks = split_value(value, w, m);
        lemma_split_fits(value % pow2(w), chunk_count(w, m), m);
        assert(register_shaped(self.lwe_lists@[index]@, self.chunks(), (self.glwe_sk.len() + 1) as nat));
        assert forall|c: int| 0 <= c < self.chunks() implies #[trigger] self.register_chunks(
            index,
        )[c] == chunks[c] by {
            let _ = noise[c];
            lemma_decode_encode(chunks[c], noise[c], m);
        }
        assert(self.register_chunks(index) =~= chunks);
        lemma_split_recombine_round_trip(value, w, m);
    }

    /// What was loaded reads back while the noise of the encryptor stays
    /// below half the scale: where every chunk of register `index` is an
    /// encryption of the chunk of `value` with a noise of at most `limit`, as
    /// `load_data` leaves it, and `limit` is below half the scale, the chunks
    /// put together are the lowest `data_len` digits of `value`.
    pub proof fn lemma_loaded_reads_back(&self, index: int, value: nat, limit: nat)
        requires
            self.wf(),
            0 <= index < self.lwe_lists.len(),
            limit < pow2((63 - self.params.message_size()) as nat),
            forall|c: int|
                0 <= c < self.chunks() ==> encrypts(
                    self.glwe_sk@,
                    (#[trigger] self.lwe_lists[index][c])@,
                    encoded(
                        split_value(
                            value,
                            self.data_len as nat,
                            self.params.message_size() as nat,
                        )[c],
                        self.params.message_size() as nat,
                    ),
                    limit,
                ),
        ensures
            recombine(self.register_chunks(index), self.params.message_size() as nat) == value
                % pow2(self.data_len as nat),
    {
        let m = self.params.message_size() as nat;
        let chunks = split_value(value, self.data_len as nat, m);
        let key = self.glwe_sk@;
        let noise = Seq::new(
            self.chunks(),
            |c: int|
                choose|noise: int|
                    -limit <= noise <= limit && #[trigger] noisy(encoded(chunks[c], m), noise)
                        == phase(key, self.lwe_lists[index][c]@),
        );
        assert forall|c: int| 0 <= c < self.chunks() implies {
            &&& -pow2((63 - m) as nat) <= #[trigger] noise[c] < pow2((63 - m) as nat)
            &&& phase(key, self.lwe_lists[index][c]@) == (encoded(chunks[c], m) + noise[c]) % (pow2(
                64,
            ) as int)
        } by {
            assert(encrypts(key, self.lwe_lists[index][c]@, encoded(chunks[c], m), limit));
        }
        self.lemma_reads_back(index, value, noise);
    }

    /// A fresh register reads as zero while the noise of the encryptor stays
    /// below half the scale: where every chunk of register `index` is an
    /// encryption of zero with a noise of at most `limit`, as `new` leaves
    /// it, and `limit` is below half the scale, the chunks put together are
    /// zero.
    pub proof fn lemma_fresh_reads_zero(&self, index: int, limit: nat)
        requires
            self.wf(),
            0 <= index < self.lwe_lists.len(),
            limit < pow2((63 - self.params.message_size()) as nat),
            forall|c: int|
                0 <= c < self.chunks() ==> encrypts(
                    self.glwe_sk@,
                    (#[trigger] self.lwe_lists[index][c])@,
                    0,
                    limit,
                ),
        ensures
            recombine(self.register_chunks(index), self.params.message_size() as nat) == 0,
    {
        let m = self.params.message_size() as nat;
        let w = self.data_len as nat;
        lemma_pow2_pos(w);
        lemma_small_mod(0, pow2(w));
        lemma_split_fits(0, chunk_count(w, m), m);
        assert forall|c: int| 0 <= c < self.chunks() implies encoded(
            #[trigger] split_value(0, w, m)[c],
            m,
        ) == 0 by {
            let shift = pow2(((chunk_count(w, m) - 1 - c) * m) as nat);
            lemma_pow2_pos(((chunk_count(w, m) - 1 - c) * m) as nat);
            lemma_pow2_pos(m);
            lemma_div_basics(shift as int);
            lemma_small_mod(0, pow2(m));
            lemma_mul_basics(pow2((64 - m) as nat) as int);
        }
        self.lemma_loaded_reads_back(index, 0, limit);
    }

    /// Decrypts the chunks of register `index`, rounds each back and puts
    /// them together: the word that the register holds.
    pub fn get_data(&self, index: usize) -> (value: usize)
        requires
            self.wf(),
            index < self.lwe_lists.len(),
        ensures
            value == recombine(
                self.register_chunks(index as int),
                self.params.message_size() as nat,
            ),
    {
        let message_size = self.params.message_size();
        let lwe_list = &self.lwe_lists[index];
        proof {
            assert(register_shaped(
                self.lwe_lists@[index as int]@,
                self.chunks(),
                (self.glwe_sk.len() + 1) as nat,
            ));
        }
        let mut chunks: Vec<u64> = Vec::with_capacity(lwe_list.len());
        let mut c: usize = 0;
        while c < lwe_list.len()
            invariant
                c <= lwe_list.len(),
                0 < message_size < 63,
                message_size == self.params.message_size(),
                0 < self.glwe_sk.len(),
                lwe_list == self.lwe_lists[index as int],
                forall|j: int|
                    0 <= j < lwe_list.len() ==> (#[trigger] lwe_list[j]).len()
                        == self.glwe_sk.len() + 1,
                chunks.len() == c,
                forall|j: int|
                    0 <= j < c ==> #[trigger] chunks[j] == self.register_chunks(index as int)[j],
            decreases lwe_list.len() - c,
        {
            let plain = decrypt_chunk(&self.glwe_sk, &lwe_list[c]);
            chunks.push(decode_chunk(plain, message_size));
            c += 1;
        }
        proof {
            assert(chunk_values(chunks@) =~= self.register_chunks(index as int));
            assert forall|j: int| 0 <= j < chunks.len() implies #[trigger] chunk_values(
                chunks@,
            )[j] < pow2(message_size as nat) by {
                lemma_pow2_pos(message_size as nat);
                lemma_mod_bound(
                    ((phase(self.glwe_sk@, lwe_list[j]@) as nat + pow2(
                        (63 - message_size) as nat,
                    )) / pow2((64 - message_size) as nat)) as int,
                    pow2(message_size as nat) as int,
                );
            }
        }
        recombine_chunks(chunks.as_slice(), message_size)
    }

    /// The operation of step `i`.
    pub open spec fn step_operation(&self, i: int) -> Operation {
        self.operations[self.execution_plan[i].op_index as int]
    }

    /// Step `i` exists, and names an operation and registers of the engine:
    /// one input register, and a second one where both operands are
    /// encrypted and the step is no move.
    pub open spec fn step_valid(&self, i: int) -> bool {
        &&& 0 <= i < self.execution_plan.len()
        &&& self.execution_plan[i].op_index < self.operations.len()
        &&& self.execution_plan[i].output_index < self.lwe_lists.len()
        &&& self.execution_plan[i].input_indices.len() >= 1
        &&& self.execution_plan[i].input_indices[0] < self.lwe_lists.len()
        &&& (self.step_operation(i).path() != EvaluationPath::Move && self.step_operation(
            i,
        ).op_type == OperandType::BothCipher) ==> {
            &&& self.execution_plan[i].input_indices.len() >= 2
            &&& self.execution_plan[i].input_indices[1] < self.lwe_lists.len()
        }
    }

    /// Whether a step takes the selector bits of two operands. The sign takes
    /// those of one, whatever its operand kind says.
    pub open spec fn takes_both(operation: Operation) -> bool {
        operation.path() != EvaluationPath::Sign && operation.op_type == OperandType::BothCipher
    }

    /// Step `i` can be executed on the selector bits `lists`, one list for
    /// every chunk of the input registers: the step is valid, and unless it
    /// is a move, the lists are alike and their join is what the evaluator of
    /// the step asks for, with a constant where the evaluator needs one.
    pub open spec fn step_ready(&self, i: int, lists: Seq<SelectorBits>) -> bool {
        &&& self.step_valid(i)
        &&& self.step_operation(i).path() != EvaluationPath::Move ==> {
            let operation = self.step_operation(i);
            let shape = joined_shape(lists, Self::takes_both(operation));
            let plan_size = fft_polynomial_size(self.fft);
            let outputs = self.lwe_lists[self.execution_plan[i].output_index as int]@;
            &&& lists.len() > 0
            &&& selectors_alike(lists)
            &&& shape.count <= usize::MAX
            &&& match operation.path() {
                EvaluationPath::Move => true,
                EvaluationPath::Sign => operation.immediate.is_some() && sign_fits(
                    shape,
                    plan_size,
                    outputs,
                ),
                EvaluationPath::Comparison => (operation.op_type != OperandType::BothCipher
                    ==> operation.immediate.is_some()) && tree_fits(
                    operation.op_type,
                    shape,
                    plan_size,
                    outputs,
                ),
                EvaluationPath::GenericLookup => operation.lookup_fits(shape, plan_size, outputs),
            }
        }
    }

    /// What step `i` has done to its output register, given the registers
    /// before: a move has copied the input register; the other paths have
    /// left what their evaluators leave.
    pub open spec fn step_effect(
        &self,
        i: int,
        lists: Seq<SelectorBits>,
        before: Seq<Vec<Vec<u64>>>,
    ) -> bool {
        let operation = self.step_operation(i);
        let step = self.execution_plan[i];
        let old_register = before[step.output_index as int]@;
        let register = self.lwe_lists[step.output_index as int]@;
        let n = selector_polynomial_size(lists[0]);
        let all = Self::step_selectors(operation, lists);
        match operation.path() {
            EvaluationPath::Move => {
                &&& register.len() == before[step.input_indices[0] as int].len()
                &&& forall|c: int|
                    0 <= c < register.len() ==> (#[trigger] register[c])@
                        == before[step.input_indices[0] as int][c]@
            },
            EvaluationPath::Sign => sign_outputs(
                old_register,
                register,
                n,
                sign_state(operation.constant(), all, self.fft),
            ),
            EvaluationPath::Comparison => tree_outputs(
                old_register,
                register,
                comparison_result(
                    operation.op_type,
                    Self::relation_constant(operation),
                    operation.op,
                    all,
                    self.fft,
                ),
            ),
            EvaluationPath::GenericLookup => operation.lookup_outputs(
                old_register,
                register,
                operation.lookups(all, self.fft),
                n,
            ),
        }
    }

    /// The selector bits that the evaluator of a step is run on: the lists
    /// that the step takes, joined in order.
    pub open spec fn step_selectors(operation: Operation, lists: Seq<SelectorBits>) -> SelectorBits {
        joined_list(lists, lists_taken(lists.len(), Self::takes_both(operation)))
    }

    /// The constant that a comparison is run with: the immediate of the
    /// operation where one operand is plain, and zero where none is.
    pub open spec fn relation_constant(operation: Operation) -> nat {
        if operation.op_type == OperandType::BothCipher {
            0
        } else {
            operation.constant()
        }
    }

    /// Whether step `i` is valid.
    pub fn check_step(&self, i: usize) -> (valid: bool)
        ensures
            valid == self.step_valid(i as int),
    {
        if i >= self.execution_plan.len() {
            return false;
        }
        let step = &self.execution_plan[i];
        if step.op_index >= self.operations.len() || step.output_index >= self.lwe_lists.len()
            || step.input_indices.len() < 1 || step.input_indices[0] >= self.lwe_lists.len() {
            return false;
        }
        let operation = &self.operations[step.op_index];
        let is_move = match path_of(operation.op, operation.bit_width) {
            EvaluationPath::Move => true,
            _ => false,
        };
        let both = match operation.op_type {
            OperandType::BothCipher => true,
            _ => false,
        };
        if !is_move && both {
            step.input_indices.len() >= 2 && step.input_indices[1] < self.lwe_lists.len()
        } else {
            true
        }
    }

    /// The registers whose chunks have to be bootstrapped into selector bits
    /// before step `i` can be executed, in the order in which their selector
    /// bits are expected: none for a move or a step that is not valid, else
    /// the first input register and, where the step takes two encrypted
    /// operands, the second.
    pub fn step_inputs(&self, i: usize) -> (registers: Vec<usize>)
        ensures
            registers@ == (if !self.step_valid(i as int) || self.step_operation(i as int).path()
                == EvaluationPath::Move {
                Seq::<usize>::empty()
            } else if self.step_operation(i as int).op_type == OperandType::BothCipher {
                seq![
                    self.execution_plan[i as int].input_indices[0],
                    self.execution_plan[i as int].input_indices[1],
                ]
            } else {
                seq![self.execution_plan[i as int].input_indices[0]]
            }),
    {
        let mut registers: Vec<usize> = Vec::new();
        if !self.check_step(i) {
            return registers;
        }
        let step = &self.execution_plan[i];
        let operation = &self.operations[step.op_index];
        let is_move = match path_of(operation.op, operation.bit_width) {
            EvaluationPath::Move => true,
            _ => false,
        };
        if is_move {
            return registers;
        }
        registers.push(step.input_indices[0]);
        let both = match operation.op_type {
            OperandType::BothCipher => true,
            _ => false,
        };
        if both {
            registers.push(step.input_indices[1]);
        }
        proof {
            if both {
                assert(registers@ =~= seq![
                    self.execution_plan[i as int].input_indices[0],
                    self.execution_plan[i as int].input_indices[1],
                ]);
            } else {
                assert(registers@ =~= seq![self.execution_plan[i as int].input_indices[0]]);
            }
        }
        registers
    }

    /// Executes step `i` of the plan on the selector bits of its operands:
    /// `selectors` holds one list for every chunk, those of the first input
    /// register first. A move needs none. The step is executed where it is
    /// ready, and then only its output register changes; else nothing
    /// changes. Where an evaluator has run, the list it ran on has the count
    /// and the sizes of the lists that the step takes.
    pub fn execute_step(&mut self, i: usize, selectors: &Vec<SelectorBits>) -> (done: bool)
        requires
            old(self).wf(),
        ensures
            done == old(self).step_ready(i as int, selectors@),
            final(self).wf(),
            final(self).operations == old(self).operations,
            final(self).execution_plan == old(self).execution_plan,
            final(self).params == old(self).params,
            final(self).data_len == old(self).data_len,
            final(self).glwe_sk == old(self).glwe_sk,
            final(self).fft == old(self).fft,
            final(self).lwe_lists.len() == old(self).lwe_lists.len(),
            !done ==> final(self).lwe_lists == old(self).lwe_lists,
            done ==> forall|r: int|
                0 <= r < final(self).lwe_lists.len() && r != old(self).execution_plan[i as int].output_index
                    ==> final(self).lwe_lists[r] == old(self).lwe_lists[r],
            done ==> final(self).step_effect(i as int, selectors@, old(self).lwe_lists@),
            done && old(self).step_operation(i as int).path() != EvaluationPath::Move ==> shape_of(
                Self::step_selectors(old(self).step_operation(i as int), selectors@),
            ) == joined_shape(selectors@, Self::takes_both(old(self).step_operation(i as int))),
    {
        if !self.check_step(i) {
            return false;
        }
        let op_index = self.execution_plan[i].op_index;
        let output_index = self.execution_plan[i].output_index;
        let input_index = self.execution_plan[i].input_indices[0];
        let op = self.operations[op_index].op;
        let op_type = self.operations[op_index].op_type;
        let immediate = self.operations[op_index].immediate;
        let path = path_of(op, self.operations[op_index].bit_width);
        proof {
            assert(register_shaped(
                self.lwe_lists@[output_index as int]@,
                self.chunks(),
                (self.glwe_sk.len() + 1) as nat,
            ));
            assert(register_shaped(
                self.lwe_lists@[input_index as int]@,
                self.chunks(),
                (self.glwe_sk.len() + 1) as nat,
            ));
        }
        let mut register = copy_register(&self.lwe_lists[output_index]);
        let ghost old_register = self.lwe_lists@[output_index as int]@;
        proof {
            assert(register@.len() == old_register.len());
        }
        match path {
            EvaluationPath::Move => {
                register = copy_register(&self.lwe_lists[input_index]);
            },
            _ => {
                let both = match (path, op_type) {
                    (EvaluationPath::Sign, _) => false,
                    (_, OperandType::BothCipher) => true,
                    _ => false,
                };
                if selectors.len() == 0 || !check_selectors_alike(selectors) {
                    return false;
                }
                if count_selectors(selectors, both).is_none() {
                    return false;
                }
                let input = concat_ggsw_lists(selectors, both);
                proof {
                    assert forall|c: int| 0 <= c < register@.len() implies (#[trigger] register@[c]).len()
                        == old_register[c].len() by {
                        assert(register@[c]@ == old_register[c]@);
                    }
                    assert forall|c: int| 0 <= c < register@.len() implies (#[trigger] old_register[c]).len()
                        == register@[c].len() by {
                        assert(register@[c]@ == old_register[c]@);
                    }
                    assert(tree_fits(
                        op_type,
                        shape_of(input),
                        fft_polynomial_size(self.fft),
                        register@,
                    ) == tree_fits(
                        op_type,
                        shape_of(input),
                        fft_polynomial_size(self.fft),
                        old_register,
                    ));
                    assert(tree_fits(
                        OperandType::CipherPlain,
                        shape_of(input),
                        fft_polynomial_size(self.fft),
                        register@,
                    ) == tree_fits(
                        OperandType::CipherPlain,
                        shape_of(input),
                        fft_polynomial_size(self.fft),
                        old_register,
                    ));
                    assert(sign_fits(shape_of(input), fft_polynomial_size(self.fft), register@)
                        == sign_fits(
                        shape_of(input),
                        fft_polynomial_size(self.fft),
                        old_register,
                    ));
                    assert(self.operations[op_index as int].lookup_fits(
                        shape_of(input),
                        fft_polynomial_size(self.fft),
                        register@,
                    ) == self.operations[op_index as int].lookup_fits(
                        shape_of(input),
                        fft_polynomial_size(self.fft),
                        old_register,
                    ));
                }
                let ghost start = register@;
                match path {
                    EvaluationPath::Sign => {
                        match immediate {
                            Some(constant) => {
                                if !can_run_sign(&input, &self.fft, &register) {
                                    return false;
                                }
                                sign(&input, &mut register, constant, &self.fft);
                            },
                            None => {
                                return false;
                            },
                        }
                    },
                    EvaluationPath::Comparison => {
                        if !can_run_tree(op_type, &input, &self.fft, &register) {
                            return false;
                        }
                        match op_type {
                            OperandType::BothCipher => {
                                opmized_compare_bothcipher(&input, &mut register, op, &self.fft);
                            },
                            OperandType::CipherPlain => {
                                match immediate {
                                    Some(constant) => {
                                        opmized_compare_cipherplain(
                                            &input,
                                            &mut register,
                                            op,
                                            constant,
                                            &self.fft,
                                        );
                                    },
                                    None => {
                                        return false;
                                    },
                                }
                            },
                            OperandType::PlainCipher => {
                                match immediate {
                                    Some(constant) => {
                                        opmized_compare_plaincipher(
                                            &input,
                                            &mut register,
                                            op,
                                            constant,
                                            &self.fft,
                                        );
                                    },
                                    None => {
                                        return false;
                                    },
                                }
                            },
                        }
                    },
                    _ => {
                        if !self.operations[op_index].can_lookup(&input, &self.fft, &register) {
                            return false;
                        }
                        self.operations[op_index].parallel_vertical_packing_multi_lookup(
                            &mut register,
                            &input,
                            &self.fft,
                        );
                    },
                }
                proof {
                    let n = selector_polynomial_size(selectors@[0]);
                    assert forall|c: int| 0 <= c < start.len() implies start[c].len()
                        == old_register[c].len() by {
                        assert(start[c]@ == old_register[c]@);
                    }
                    let operation = self.operations[op_index as int];
                    assert(input == Self::step_selectors(operation, selectors@));
                    assert(shape_of(Self::step_selectors(operation, selectors@)) == joined_shape(
                        selectors@,
                        Self::takes_both(operation),
                    ));
                    assert(selector_polynomial_size(input) == n);
                    match path {
                        EvaluationPath::Sign => {
                            assert(sign_outputs(
                                old_register,
                                register@,
                                n,
                                sign_state(operation.constant(), input, self.fft),
                            ));
                        },
                        EvaluationPath::Comparison => {
                            let result = comparison_result(
                                op_type,
                                Self::relation_constant(operation),
                                op,
                                input,
                                self.fft,
                            );
                            assert(tree_outputs(start, register@, result));
                            assert(tree_outputs(old_register, register@, result)) by {
                                assert forall|c: int| 0 <= c < register@.len() - 1 implies (
                                #[trigger] register@[c])@ == crate::ciphertext::zero_words(
                                    old_register[c].len() as nat,
                                ) by {
                                    assert(register@[c]@ == crate::ciphertext::zero_words(
                                        start[c].len() as nat,
                                    ));
                                }
                            }
                        },
                        _ => {
                            let found = operation.lookups(input, self.fft);
                            assert(operation.lookup_outputs(start, register@, found, n));
                            assert(operation.lookup_outputs(old_register, register@, found, n));
                        },
                    }
                }
            },
        }
        proof {
            assert(register_shaped(register@, self.chunks(), (self.glwe_sk.len() + 1) as nat)) by {
                assert forall|c: int| 0 <= c < register@.len() implies (#[trigger] register@[c]).len()
                    == self.glwe_sk.len() + 1 by {
                    if path == EvaluationPath::Move {
                        assert(register@[c]@ == self.lwe_lists@[input_index as int]@[c]@);
                    } else {
                        assert(register@[c].len() == old_register[c].len());
                    }
                }
            }
        }
        let ghost all = Self::step_selectors(self.operations[op_index as int], selectors@);
        let ghost effect = match path {
            EvaluationPath::Move => true,
            EvaluationPath::Sign => sign_outputs(
                old_register,
                register@,
                selector_polynomial_size(selectors@[0]),
                sign_state(self.operations[op_index as int].constant(), all, self.fft),
            ),
            EvaluationPath::Comparison => tree_outputs(
                old_register,
                register@,
                comparison_result(
                    op_type,
                    Self::relation_constant(self.operations[op_index as int]),
                    op,
                    all,
                    self.fft,
                ),
            ),
            EvaluationPath::GenericLookup => self.operations[op_index as int].lookup_outputs(
                old_register,
                register@,
                self.operations[op_index as int].lookups(all, self.fft),
                selector_polynomial_size(selectors@[0]),
            ),
        };
        proof {
            assert(effect);
        }
        self.lwe_lists.set(output_index, register);
        proof {
            assert(self.step_operation(i as int) == old(self).operations[op_index as int]);
            assert(self.lwe_lists@[output_index as int]@ == register@);
            assert(self.step_effect(i as int, selectors@, old(self).lwe_lists@));
            assert forall|r: int| 0 <= r < self.lwe_lists.len() implies register_shaped(
                (#[trigger] self.lwe_lists@[r])@,
                self.chunks(),
                (self.glwe_sk.len() + 1) as nat,
            ) by {
                if r != output_index {
                    assert(self.lwe_lists@[r] == old(self).lwe_lists@[r]);
                    assert(register_shaped(
                        old(self).lwe_lists@[r]@,
                        old(self).chunks(),
                        (old(self).glwe_sk.len() + 1) as nat,
                    ));
                }
            }
            assert forall|j: int| 0 <= j < self.operations.len() implies self.operation_fits(
                #[trigger] self.operations[j],
            ) by {
                assert(old(self).operation_fits(old(self).operations[j]));
            }
        }
        true
    }
}

/// The chunks of a register paired with the chunks of a value, the most
/// significant first.
pub fn map_chunks_to_lwe<'a>(
    lwe_lists: &'a Vec<Vec<Vec<u64>>>,
    list_index: usize,
    value: usize,
    data_len: usize,
    message_size: usize,
) -> (pairs: Vec<(&'a Vec<u64>, u64)>)
    requires
        message_size > 0,
        0 < data_len <= usize::BITS,
        list_index < lwe_lists.len(),
        lwe_lists[list_index as int].len() == chunk_count(data_len as nat, message_size as nat),
    ensures
        pairs.len() == lwe_lists[list_index as int].len(),
        forall|c: int|
            0 <= c < pairs.len() ==> *(#[trigger] pairs[c]).0 == lwe_lists[list_index as int][c],
        Seq::new(pairs.len() as nat, |c: int| pairs[c].1 as nat) == split_value(
            value as nat,
            data_len as nat,
            message_size as nat,
        ),
{
    let chunks = split_bits_high_to_low(value, data_len, message_size);
    let lwe_vec = &lwe_lists[list_index];
    proof {
        assert(chunk_values(chunks@).len() == chunks.len());
        lemma_split_fits(
            value as nat % pow2(data_len as nat),
            chunk_count(data_len as nat, message_size as nat),
            message_size as nat,
        );
    }
    let mut pairs: Vec<(&'a Vec<u64>, u64)> = Vec::with_capacity(chunks.len());
    let mut c: usize = 0;
    while c < chunks.len()
        invariant
            c <= chunks.len(),
            chunks.len() == lwe_vec.len(),
            pairs.len() == c,
            forall|j: int|
                0 <= j < c ==> *(#[trigger] pairs[j]).0 == lwe_vec[j] && pairs[j].1 == chunks[j],
        decreases chunks.len() - c,
    {
        pairs.push((&lwe_vec[c], chunks[c]));
        c += 1;
    }
    proof {
        assert(Seq::new(pairs.len() as nat, |c: int| pairs[c].1 as nat) =~= chunk_values(
            chunks@,
        ));
    }
    pairs
}

/// A copy of a register.
fn copy_register(register: &Vec<Vec<u64>>) -> (copy: Vec<Vec<u64>>)
    ensures
        copy.len() == register.len(),
        forall|c: int| 0 <= c < copy.len() ==> (#[trigger] copy[c])@ == register[c]@,
{
    let mut copy: Vec<Vec<u64>> = Vec::with_capacity(register.len());
    let mut c: usize = 0;
    while c < register.len()
        invariant
            c <= register.len(),
            copy.len() == c,
            forall|j: int| 0 <= j < c ==> (#[trigger] copy[j])@ == register[j]@,
        decreases register.len() - c,
    {
        copy.push(register[c].clone());
        c += 1;
    }
    copy
}

} // verus!
