//! The keyswitching key from a large key to a small key that shares its
//! first words with the large one. Only the words that the small key lacks
//! need switching, and for each of them the key stores an encryption of
//! every multiple that a decomposition term can ask for, so that switching
//! is a lookup and a subtraction.

use crate::bits::{lemma_word_sub, pow2_u64, shift_up};
use crate::primitives::{encrypt_list, encrypts, noise_limit, Encryptor};
use crate::processors::lwe_storede_ks::key_ciphertext;
use vstd::arithmetic::div_mod::*;
use vstd::arithmetic::mul::*;
use vstd::arithmetic::power2::*;
use vstd::prelude::*;

verus! {

/// How many words the encryptions for one word of the large key take up: for
/// every level and every term of the base, one ciphertext under the small
/// key.
pub open spec fn element_size(level_count: nat, base_log: nat, output_lwe_size: nat) -> nat {
    output_lwe_size * level_count * pow2(base_log)
}

/// How many words the encryptions for one word of the large key take up.
pub fn lwe_keyswitch_key_input_key_element_encrypted_size(
    decomp_level_count: usize,
    decomp_base_log: usize,
    output_lwe_size: usize,
) -> (size: usize)
    requires
        decomp_base_log < usize::BITS,
        element_size(
            decomp_level_count as nat,
            decomp_base_log as nat,
            output_lwe_size as nat,
        ) <= usize::MAX,
    ensures
        size == element_size(
            decomp_level_count as nat,
            decomp_base_log as nat,
            output_lwe_size as nat,
        ),
{
    proof {
        lemma_pow2_pos(decomp_base_log as nat);
        lemma_mul_nonnegative(output_lwe_size as int, decomp_level_count as int);
        lemma_mul_inequality(
            1,
            pow2(decomp_base_log as nat) as int,
            (output_lwe_size * decomp_level_count) as int,
        );
        lemma_mul_is_commutative(
            pow2(decomp_base_log as nat) as int,
            (output_lwe_size * decomp_level_count) as int,
        );
        vstd::bits::lemma_u64_pow2_no_overflow(decomp_base_log as nat);
        vstd::bits::lemma_usize_pow2_no_overflow(decomp_base_log as nat);
    }
    output_lwe_size * decomp_level_count * (pow2_u64(decomp_base_log as u64) as usize)
}

pub struct LweStoredReusedKeyswitchKey {
    pub data: Vec<u64>,
    pub decomp_base_log: usize,
    pub decomp_level_count: usize,
    pub input_lwe_size: usize,
    pub output_lwe_size: usize,
    pub lwe_size_diff: usize,
}

/// What describes a keyswitching key beside its words.
#[derive(Clone, Copy)]
pub struct LweStoredReusedKeyswitchKeyCreationMetadata(
    pub usize,
    pub usize,
    pub usize,
    pub usize,
    pub usize,
);

impl LweStoredReusedKeyswitchKey {
    /// How many words the encryptions for one word of the large key take up
    /// in this key.
    pub open spec fn block_size(&self) -> nat {
        element_size(
            self.decomp_level_count as nat,
            self.decomp_base_log as nat,
            self.output_lwe_size as nat,
        )
    }

    /// The key holds whole blocks, at least one, of a size that fits a
    /// machine word, and its ciphertexts have a body.
    pub open spec fn wf(&self) -> bool {
        &&& self.data.len() > 0
        &&& self.decomp_base_log < usize::BITS
        &&& 0 < self.block_size() <= usize::MAX
        &&& self.data.len() as nat % self.block_size() == 0
        &&& self.input_lwe_size >= 1
        &&& self.output_lwe_size >= 1
    }

    /// Whether the key is well formed.
    pub fn is_well_formed(&self) -> (ok: bool)
        ensures
            ok == self.wf(),
    {
        if self.data.len() == 0 || self.decomp_base_log >= usize::BITS as usize
            || self.input_lwe_size < 1 || self.output_lwe_size < 1 {
            return false;
        }
        proof {
            lemma_pow2_pos(self.decomp_base_log as nat);
            vstd::bits::lemma_usize_pow2_no_overflow(self.decomp_base_log as nat);
            lemma_mul_nonnegative(self.output_lwe_size as int, self.decomp_level_count as int);
        }
        let base = pow2_u64(self.decomp_base_log as u64) as usize;
        let rows = match self.output_lwe_size.checked_mul(self.decomp_level_count) {
            Some(rows) => rows,
            None => {
                proof {
                    lemma_mul_inequality(
                        1,
                        base as int,
                        self.output_lwe_size * self.decomp_level_count,
                    );
                    lemma_mul_is_commutative(
                        base as int,
                        self.output_lwe_size * self.decomp_level_count,
                    );
                }
                return false;
            },
        };
        match rows.checked_mul(base) {
            Some(block) => block > 0 && self.data.len() % block == 0,
            None => false,
        }
    }

    /// A key over the given words.
    pub fn from_container(
        container: Vec<u64>,
        decomp_base_log: usize,
        decomp_level_count: usize,
        input_lwe_size: usize,
        output_lwe_size: usize,
        lwe_size_diff: usize,
    ) -> (key: Self)
        requires
            container.len() > 0,
            decomp_base_log < usize::BITS,
            0 < element_size(
                decomp_level_count as nat,
                decomp_base_log as nat,
                output_lwe_size as nat,
            ) <= usize::MAX,
            container.len() as nat % element_size(
                decomp_level_count as nat,
                decomp_base_log as nat,
                output_lwe_size as nat,
            ) == 0,
        ensures
            key.data == container,
            key.decomp_base_log == decomp_base_log,
            key.decomp_level_count == decomp_level_count,
            key.input_lwe_size == input_lwe_size,
            key.output_lwe_size == output_lwe_size,
            key.lwe_size_diff == lwe_size_diff,
    {
        LweStoredReusedKeyswitchKey {
            data: container,
            decomp_base_log,
            decomp_level_count,
            input_lwe_size,
            output_lwe_size,
            lwe_size_diff,
        }
    }

    /// A key filled with one word, for keys of the given dimensions.
    pub fn new(
        fill_with: u64,
        decomp_base_log: usize,
        decomp_level_count: usize,
        input_key_lwe_dimension: usize,
        output_key_lwe_dimension: usize,
    ) -> (key: Self)
        requires
            decomp_base_log < usize::BITS,
            output_key_lwe_dimension < input_key_lwe_dimension < usize::MAX,
            0 < element_size(
                decomp_level_count as nat,
                decomp_base_log as nat,
                (output_key_lwe_dimension + 1) as nat,
            ),
            (input_key_lwe_dimension - output_key_lwe_dimension) * element_size(
                decomp_level_count as nat,
                decomp_base_log as nat,
                (output_key_lwe_dimension + 1) as nat,
            ) <= usize::MAX,
        ensures
            key.wf(),
            key.data.len() == (input_key_lwe_dimension - output_key_lwe_dimension)
                * key.block_size(),
            forall|i: int| 0 <= i < key.data.len() ==> #[trigger] key.data[i] == fill_with,
            key.decomp_base_log == decomp_base_log,
            key.decomp_level_count == decomp_level_count,
            key.input_lwe_size == input_key_lwe_dimension + 1,
            key.output_lwe_size == output_key_lwe_dimension + 1,
            key.lwe_size_diff == input_key_lwe_dimension - output_key_lwe_dimension,
    {
        let diff = input_key_lwe_dimension - output_key_lwe_dimension;
        proof {
            let block = element_size(
                decomp_level_count as nat,
                decomp_base_log as nat,
                (output_key_lwe_dimension + 1) as nat,
            );
            lemma_mul_inequality(1, diff as int, block as int);
            lemma_mul_is_commutative(diff as int, block as int);
            lemma_mod_multiples_basic(diff as int, block as int);
        }
        let block = lwe_keyswitch_key_input_key_element_encrypted_size(
            decomp_level_count,
            decomp_base_log,
            output_key_lwe_dimension + 1,
        );
        let len = diff * block;
        Self::from_container(
            vec![fill_with; len],
            decomp_base_log,
            decomp_level_count,
            input_key_lwe_dimension + 1,
            output_key_lwe_dimension + 1,
            diff,
        )
    }

    /// How many words the encryptions for one word of the large key take up
    /// in this key.
    pub fn input_key_element_encrypted_size(&self) -> (size: usize)
        requires
            self.wf(),
        ensures
            size == self.block_size(),
    {
        lwe_keyswitch_key_input_key_element_encrypted_size(
            self.decomp_level_count,
            self.decomp_base_log,
            self.output_lwe_size,
        )
    }

    pub fn decomposition_base_log(&self) -> (value: usize)
        ensures
            value == self.decomp_base_log,
    {
        self.decomp_base_log
    }

    pub fn decomposition_level_count(&self) -> (value: usize)
        ensures
            value == self.decomp_level_count,
    {
        self.decomp_level_count
    }

    /// The dimension of the large key.
    pub fn input_key_lwe_dimension(&self) -> (value: usize)
        requires
            self.input_lwe_size >= 1,
        ensures
            value == self.input_lwe_size - 1,
    {
        self.input_lwe_size - 1
    }

    /// The dimension of the small key.
    pub fn output_key_lwe_dimension(&self) -> (value: usize)
        requires
            self.output_lwe_size >= 1,
        ensures
            value == self.output_lwe_size - 1,
    {
        self.output_lwe_size - 1
    }

    pub fn output_lwe_size(&self) -> (value: usize)
        ensures
            value == self.output_lwe_size,
    {
        self.output_lwe_size
    }

    pub fn input_lwe_size(&self) -> (value: usize)
        ensures
            value == self.input_lwe_size,
    {
        self.input_lwe_size
    }

    pub fn lwe_size_diff(&self) -> (value: usize)
        ensures
            value == self.lwe_size_diff,
    {
        self.lwe_size_diff
    }

    /// The words of the key.
    pub fn as_ref(&self) -> (words: &[u64])
        ensures
            words@ == self.data@,
    {
        self.data.as_slice()
    }

    /// The ciphertexts of the key, one after the other: for every word of
    /// the large key beyond the small key, its block of ciphertexts under the
    /// small key.
    pub fn as_lwe_ciphertext_list(&self) -> (list: Vec<Vec<u64>>)
        requires
            self.wf(),
        ensures
            list.len() == self.data.len() as int / (self.output_lwe_size as int),
            forall|i: int|
                0 <= i < list.len() ==> (#[trigger] list[i])@ == self.data@.subrange(
                    i * self.output_lwe_size,
                    i * self.output_lwe_size + self.output_lwe_size,
                ),
    {
        let size = self.output_lwe_size;
        let count = self.data.len() / size;
        proof {
            lemma_fundamental_div_mod(self.data.len() as int, size as int);
            lemma_mul_is_commutative(size as int, count as int);
        }
        let mut list: Vec<Vec<u64>> = Vec::with_capacity(count);
        let mut i: usize = 0;
        while i < count
            invariant
                i <= count,
                size == self.output_lwe_size,
                size >= 1,
                count * size <= self.data.len(),
                list.len() == i,
                forall|j: int|
                    0 <= j < i ==> (#[trigger] list[j])@ == self.data@.subrange(
                        j * size,
                        j * size + size,
                    ),
            decreases count - i,
        {
            proof {
                lemma_mul_inequality((i + 1) as int, count as int, size as int);
                lemma_mul_is_distributive_add_other_way(size as int, i as int, 1);
                lemma_mul_nonnegative(i as int, size as int);
            }
            let start = i * size;
            let mut ciphertext: Vec<u64> = Vec::with_capacity(size);
            let mut t: usize = 0;
            while t < size
                invariant
                    t <= size,
                    start + size <= self.data.len(),
                    ciphertext@ == self.data@.subrange(start as int, start + t),
                decreases size - t,
            {
                ciphertext.push(self.data[start + t]);
                proof {
                    assert(ciphertext@ =~= self.data@.subrange(start as int, start + t + 1));
                }
                t += 1;
            }
            list.push(ciphertext);
            i += 1;
        }
        list
    }

    /// The words of the key, the key given up.
    pub fn into_container(self) -> (words: Vec<u64>)
        ensures
            words == self.data,
    {
        self.data
    }

    /// What describes the key beside its words.
    pub fn get_self_view_creation_metadata(&self) -> (meta:
        LweStoredReusedKeyswitchKeyCreationMetadata)
        ensures
            meta.0 == self.decomp_base_log,
            meta.1 == self.decomp_level_count,
            meta.2 == self.input_lwe_size,
            meta.3 == self.output_lwe_size,
            meta.4 == self.lwe_size_diff,
    {
        LweStoredReusedKeyswitchKeyCreationMetadata(
            self.decomp_base_log,
            self.decomp_level_count,
            self.input_lwe_size,
            self.output_lwe_size,
            self.lwe_size_diff,
        )
    }

    /// A key over the given words, described by `meta`.
    pub fn create_from(from: Vec<u64>, meta: LweStoredReusedKeyswitchKeyCreationMetadata) -> (key:
        Self)
        requires
            from.len() > 0,
            meta.0 < usize::BITS,
            0 < element_size(meta.1 as nat, meta.0 as nat, meta.3 as nat) <= usize::MAX,
            from.len() as nat % element_size(meta.1 as nat, meta.0 as nat, meta.3 as nat) == 0,
        ensures
            key.data == from,
            key.decomp_base_log == meta.0,
            key.decomp_level_count == meta.1,
            key.input_lwe_size == meta.2,
            key.output_lwe_size == meta.3,
            key.lwe_size_diff == meta.4,
    {
        Self::from_container(from, meta.0, meta.1, meta.2, meta.3, meta.4)
    }
}

/// A key that owns its words.
pub type LweStoredReusedKeyswitchKeyOwned = LweStoredReusedKeyswitchKey;

/// The word that stands for the signed number `t`.
pub open spec fn signed_word(t: int) -> nat {
    (t % (pow2(64) as int)) as nat
}

/// The plaintext that the key holds an encryption of at place `index` of the
/// block of one word of the large key: the word, times the term `t` that the
/// place within its level stands for, scaled to the level.
pub open spec fn block_plaintext(key_element: u64, base_log: nat, index: nat) -> nat {
    let base = pow2(base_log);
    let level = index / base;
    let t = (index % base) as int - (base / 2) as int;
    ((signed_word(t) * (key_element as nat)) * pow2((64 - base_log * (level + 1)) as nat)) % pow2(
        64,
    )
}

/// The word that stands for a signed number.
fn int_to_scalar(t: i64) -> (word: u64)
    ensures
        word == signed_word(t as int),
{
    proof {
        lemma2_to64();
    }
    if t >= 0 {
        proof {
            lemma_small_mod(t as nat, pow2(64));
        }
        t as u64
    } else {
        let magnitude: u64 = if t == i64::MIN {
            0x8000_0000_0000_0000
        } else {
            (-t) as u64
        };
        proof {
            lemma_word_sub(0, magnitude);
        }
        0u64.wrapping_sub(magnitude)
    }
}

/// The plaintexts of the block of one word of the large key, a binary
/// digit: for every level and every term of the base, the word times the
/// term, scaled to the level.
pub fn decomposition_plaintexts(key_element: u64, decomp_base_log: usize, decomp_level_count: usize)
    -> (buffer: Vec<u64>)
    requires
        key_element <= 1,
        1 <= decomp_base_log < 63,
        decomp_base_log < usize::BITS,
        decomp_base_log * decomp_level_count <= 64,
        decomp_level_count * pow2(decomp_base_log as nat) <= usize::MAX,
    ensures
        buffer.len() == decomp_level_count * pow2(decomp_base_log as nat),
        forall|i: int|
            0 <= i < buffer.len() ==> #[trigger] buffer[i] == block_plaintext(
                key_element,
                decomp_base_log as nat,
                i as nat,
            ),
{
    proof {
        vstd::bits::lemma_u64_pow2_no_overflow(decomp_base_log as nat);
        vstd::bits::lemma_usize_pow2_no_overflow(decomp_base_log as nat);
        lemma_pow2_pos(decomp_base_log as nat);
        lemma_pow2_strictly_increases(decomp_base_log as nat, 63);
        lemma2_to64();
        lemma_pow2_unfold(64);
        lemma_pow2_unfold(decomp_base_log as nat);
    }
    let decomp_base = pow2_u64(decomp_base_log as u64) as usize;
    let base_half = (decomp_base / 2) as i64;
    let mut buffer: Vec<u64> = Vec::new();
    let mut level_idx: usize = 0;
    while level_idx < decomp_level_count
        invariant
            level_idx <= decomp_level_count,
            key_element <= 1,
            1 <= decomp_base_log < 63,
            decomp_base_log * decomp_level_count <= 64,
            decomp_level_count * pow2(decomp_base_log as nat) <= usize::MAX,
            decomp_base == pow2(decomp_base_log as nat),
            0 < decomp_base < 0x8000_0000_0000_0000,
            base_half == decomp_base / 2,
            2 * base_half == decomp_base,
            buffer.len() == level_idx * decomp_base,
            forall|i: int|
                0 <= i < buffer.len() ==> #[trigger] buffer[i] == block_plaintext(
                    key_element,
                    decomp_base_log as nat,
                    i as nat,
                ),
        decreases decomp_level_count - level_idx,
    {
        proof {
            lemma_mul_inequality(
                (level_idx + 1) as int,
                decomp_level_count as int,
                decomp_base_log as int,
            );
            lemma_mul_is_commutative(decomp_base_log as int, decomp_level_count as int);
            lemma_mul_is_commutative(decomp_base_log as int, (level_idx + 1) as int);
            lemma_mul_strictly_positive(decomp_base_log as int, (level_idx + 1) as int);
            lemma_mul_is_distributive_add_other_way(decomp_base as int, level_idx as int, 1);
            lemma_mul_inequality(
                (level_idx + 1) as int,
                decomp_level_count as int,
                decomp_base as int,
            );
        }
        let shift = 64 - decomp_base_log * (level_idx + 1);
        let mut place: usize = 0;
        while place < decomp_base
            invariant
                place <= decomp_base,
                level_idx < decomp_level_count,
                key_element <= 1,
                decomp_base == pow2(decomp_base_log as nat),
                0 < decomp_base < 0x8000_0000_0000_0000,
                base_half == decomp_base / 2,
                2 * base_half == decomp_base,
                shift == 64 - decomp_base_log * (level_idx + 1),
                shift < 64,
                (level_idx + 1) * decomp_base <= usize::MAX,
                (level_idx + 1) * decomp_base == level_idx * decomp_base + decomp_base,
                buffer.len() == level_idx * decomp_base + place,
                forall|i: int|
                    0 <= i < buffer.len() ==> #[trigger] buffer[i] == block_plaintext(
                        key_element,
                        decomp_base_log as nat,
                        i as nat,
                    ),
            decreases decomp_base - place,
        {
            let t = place as i64 - base_half;
            let tt = int_to_scalar(t);
            let scaled = if key_element == 0 {
                0
            } else {
                tt
            };
            proof {
                lemma_fundamental_div_mod_converse(
                    (level_idx * decomp_base + place) as int,
                    decomp_base as int,
                    level_idx as int,
                    place as int,
                );
                lemma_mul_basics(signed_word(t as int) as int);
            }
            buffer.push(shift_up(scaled, shift as u64));
            place += 1;
        }
        level_idx += 1;
    }
    buffer
}

/// The large key continues the small one: the words of the small key are the
/// first words of the large key, and the words beyond are binary digits.
pub open spec fn key_reused(input_lwe_sk: Seq<u64>, output_lwe_sk: Seq<u64>) -> bool {
    &&& output_lwe_sk.len() <= input_lwe_sk.len()
    &&& forall|i: int| 0 <= i < output_lwe_sk.len() ==> #[trigger] input_lwe_sk[i] == output_lwe_sk[i]
    &&& forall|i: int| output_lwe_sk.len() <= i < input_lwe_sk.len() ==> #[trigger] input_lwe_sk[i] <= 1
}

/// Whether the large key continues the small one.
pub fn is_reused_key(input_lwe_sk: &Vec<u64>, output_lwe_sk: &Vec<u64>) -> (ok: bool)
    ensures
        ok == key_reused(input_lwe_sk@, output_lwe_sk@),
{
    if output_lwe_sk.len() > input_lwe_sk.len() {
        return false;
    }
    let mut i: usize = 0;
    while i < input_lwe_sk.len()
        invariant
            i <= input_lwe_sk.len(),
            output_lwe_sk.len() <= input_lwe_sk.len(),
            forall|j: int|
                0 <= j < i && j < output_lwe_sk.len() ==> #[trigger] input_lwe_sk[j]
                    == output_lwe_sk[j],
            forall|j: int| output_lwe_sk.len() <= j < i ==> #[trigger] input_lwe_sk[j] <= 1,
        decreases input_lwe_sk.len() - i,
    {
        if i < output_lwe_sk.len() {
            if input_lwe_sk[i] != output_lwe_sk[i] {
                return false;
            }
        } else if input_lwe_sk[i] > 1 {
            return false;
        }
        i += 1;
    }
    true
}

/// What making a keyswitching key asks: a small key that the large key
/// continues by at least one word, a decomposition that fits a word, and a
/// key that fits the machine.
pub open spec fn generation_fits(
    input_lwe_sk: Seq<u64>,
    output_lwe_sk: Seq<u64>,
    decomp_base_log: nat,
    decomp_level_count: nat,
) -> bool {
    &&& 0 < output_lwe_sk.len() < input_lwe_sk.len() < usize::MAX
    &&& key_reused(input_lwe_sk, output_lwe_sk)
    &&& 1 <= decomp_base_log < 63
    &&& decomp_base_log < usize::BITS
    &&& 0 < decomp_level_count
    &&& decomp_base_log * decomp_level_count <= 64
    &&& (input_lwe_sk.len() - output_lwe_sk.len()) * element_size(
        decomp_level_count,
        decomp_base_log,
        (output_lwe_sk.len() + 1) as nat,
    ) <= usize::MAX
}

/// Whether a keyswitching key can be made.
pub fn can_generate(
    input_lwe_sk: &Vec<u64>,
    output_lwe_sk: &Vec<u64>,
    decomp_base_log: usize,
    decomp_level_count: usize,
) -> (ok: bool)
    ensures
        ok == generation_fits(
            input_lwe_sk@,
            output_lwe_sk@,
            decomp_base_log as nat,
            decomp_level_count as nat,
        ),
{
    if output_lwe_sk.len() == 0 || output_lwe_sk.len() >= input_lwe_sk.len()
        || input_lwe_sk.len() == usize::MAX || decomp_base_log < 1 || decomp_base_log >= 63
        || decomp_base_log >= usize::BITS as usize || decomp_level_count == 0 {
        return false;
    }
    if !is_reused_key(input_lwe_sk, output_lwe_sk) {
        return false;
    }
    let digits = match decomp_base_log.checked_mul(decomp_level_count) {
        Some(digits) => digits <= 64,
        None => false,
    };
    if !digits {
        return false;
    }
    proof {
        lemma_pow2_pos(decomp_base_log as nat);
        vstd::bits::lemma_usize_pow2_no_overflow(decomp_base_log as nat);
        lemma_mul_strictly_positive((output_lwe_sk.len() + 1) as int, decomp_level_count as int);
    }
    let base = pow2_u64(decomp_base_log as u64) as usize;
    let diff = input_lwe_sk.len() - output_lwe_sk.len();
    let rows = match (output_lwe_sk.len() + 1).checked_mul(decomp_level_count) {
        Some(rows) => rows,
        None => {
            proof {
                let rows = (output_lwe_sk.len() + 1) * decomp_level_count;
                lemma_mul_inequality(1, base as int, rows);
                lemma_mul_is_commutative(base as int, rows);
                lemma_mul_strictly_positive(rows, base as int);
                lemma_mul_inequality(1, diff as int, rows * base);
            }
            return false;
        },
    };
    let block = match rows.checked_mul(base) {
        Some(block) => block,
        None => {
            proof {
                lemma_mul_strictly_positive(rows as int, base as int);
                lemma_mul_inequality(1, diff as int, rows * base);
            }
            return false;
        },
    };
    diff.checked_mul(block).is_some()
}

/// How many blocks of a key are filled: one for every word of the large key
/// beyond the small key, as far as the key has blocks.
pub open spec fn filled_blocks(key: LweStoredReusedKeyswitchKey, beyond: nat) -> nat {
    let blocks = key.data.len() as nat / key.block_size();
    if blocks < beyond {
        blocks
    } else {
        beyond
    }
}

/// Fills a keyswitching key: for every word of the large key beyond the small
/// key, in order, the encryptions under the small key of its block of
/// plaintexts. The key keeps its shape. In every block that is filled, the
/// ciphertext at every place is an encryption of the plaintext of that place
/// for the block's word of the large key, with a noise within the limit of
/// the encryptor; the blocks beyond stay as they are.
pub fn generate_lwe_stored_reused_keyswitch_key(
    input_lwe_sk: &Vec<u64>,
    output_lwe_sk: &Vec<u64>,
    lwe_keyswitch_key: &mut LweStoredReusedKeyswitchKey,
    encryptor: &mut Encryptor,
)
    requires
        old(lwe_keyswitch_key).wf(),
        output_lwe_sk.len() > 0,
        old(lwe_keyswitch_key).input_lwe_size == input_lwe_sk.len() + 1,
        old(lwe_keyswitch_key).output_lwe_size == output_lwe_sk.len() + 1,
        key_reused(input_lwe_sk@, output_lwe_sk@),
        1 <= old(lwe_keyswitch_key).decomp_base_log < 63,
        old(lwe_keyswitch_key).decomp_base_log * old(lwe_keyswitch_key).decomp_level_count <= 64,
    ensures
        final(lwe_keyswitch_key).wf(),
        final(lwe_keyswitch_key).data.len() == old(lwe_keyswitch_key).data.len(),
        final(lwe_keyswitch_key).decomp_base_log == old(lwe_keyswitch_key).decomp_base_log,
        final(lwe_keyswitch_key).decomp_level_count == old(lwe_keyswitch_key).decomp_level_count,
        final(lwe_keyswitch_key).input_lwe_size == old(lwe_keyswitch_key).input_lwe_size,
        final(lwe_keyswitch_key).output_lwe_size == old(lwe_keyswitch_key).output_lwe_size,
        final(lwe_keyswitch_key).lwe_size_diff == old(lwe_keyswitch_key).lwe_size_diff,
        forall|k: nat, index: nat|
            k < filled_blocks(
                *old(lwe_keyswitch_key),
                (input_lwe_sk.len() - output_lwe_sk.len()) as nat,
            ) && index < old(lwe_keyswitch_key).decomp_level_count * pow2(
                old(lwe_keyswitch_key).decomp_base_log as nat,
            ) ==> encrypts(
                output_lwe_sk@,
                #[trigger] key_ciphertext(*final(lwe_keyswitch_key), k, index),
                block_plaintext(
                    input_lwe_sk[output_lwe_sk.len() + k],
                    old(lwe_keyswitch_key).decomp_base_log as nat,
                    index,
                ),
                noise_limit(*old(encryptor)),
            ),
        forall|i: int|
            filled_blocks(
                *old(lwe_keyswitch_key),
                (input_lwe_sk.len() - output_lwe_sk.len()) as nat,
            ) * old(lwe_keyswitch_key).block_size() <= i < final(lwe_keyswitch_key).data.len()
                ==> #[trigger] final(lwe_keyswitch_key).data[i] == old(lwe_keyswitch_key).data[i],
        noise_limit(*final(encryptor)) == noise_limit(*old(encryptor)),
{
    let n = output_lwe_sk.len();
    let decomp_base_log = lwe_keyswitch_key.decomp_base_log;
    let decomp_level_count = lwe_keyswitch_key.decomp_level_count;
    let block = lwe_keyswitch_key.input_key_element_encrypted_size();
    let blocks = lwe_keyswitch_key.data.len() / block;
    proof {
        lemma_pow2_pos(decomp_base_log as nat);
        let per = (decomp_level_count * pow2(decomp_base_log as nat)) as int;
        assert(block == (n + 1) * per) by {
            lemma_mul_is_associative(
                (n + 1) as int,
                decomp_level_count as int,
                pow2(decomp_base_log as nat) as int,
            );
        }
        lemma_mul_nonnegative(decomp_level_count as int, pow2(decomp_base_log as nat) as int);
        assert(per <= block) by {
            lemma_mul_inequality(1, (n + 1) as int, per);
        }
        lemma_mul_is_commutative((n + 1) as int, per);
        assert(per > 0) by {
            if per == 0 {
                lemma_mul_basics((n + 1) as int);
            }
        }
        lemma_fundamental_div_mod(lwe_keyswitch_key.data.len() as int, block as int);
        lemma_mul_is_commutative(block as int, blocks as int);
    }
    let ghost limit = noise_limit(*encryptor);
    let ghost per = decomp_level_count * pow2(decomp_base_log as nat);
    let mut k: usize = 0;
    while k < blocks && n + k < input_lwe_sk.len()
        invariant
            k <= blocks,
            blocks == old(lwe_keyswitch_key).data.len() as nat / old(
                lwe_keyswitch_key,
            ).block_size(),
            block == old(lwe_keyswitch_key).block_size(),
            per == decomp_level_count * pow2(decomp_base_log as nat),
            block == per * (n + 1),
            old(lwe_keyswitch_key).output_lwe_size == n + 1,
            noise_limit(*encryptor) == limit,
            forall|b: nat, index: nat|
                b < k && index < per ==> encrypts(
                    output_lwe_sk@,
                    #[trigger] key_ciphertext(*lwe_keyswitch_key, b, index),
                    block_plaintext(input_lwe_sk[n + b], decomp_base_log as nat, index),
                    limit,
                ),
            forall|i: int|
                k * block <= i < lwe_keyswitch_key.data.len()
                    ==> #[trigger] lwe_keyswitch_key.data[i] == old(lwe_keyswitch_key).data[i],
            n == output_lwe_sk.len(),
            n > 0,
            n + k <= input_lwe_sk.len(),
            decomp_base_log < usize::BITS,
            key_reused(input_lwe_sk@, output_lwe_sk@),
            1 <= decomp_base_log < 63,
            decomp_base_log * decomp_level_count <= 64,
            block > 0,
            blocks * block == lwe_keyswitch_key.data.len(),
            block == decomp_level_count * pow2(decomp_base_log as nat) * (n + 1),
            0 < decomp_level_count * pow2(decomp_base_log as nat) <= usize::MAX,
            lwe_keyswitch_key.data.len() == old(lwe_keyswitch_key).data.len(),
            lwe_keyswitch_key.decomp_base_log == old(lwe_keyswitch_key).decomp_base_log,
            lwe_keyswitch_key.decomp_level_count == old(lwe_keyswitch_key).decomp_level_count,
            lwe_keyswitch_key.input_lwe_size == old(lwe_keyswitch_key).input_lwe_size,
            lwe_keyswitch_key.output_lwe_size == old(lwe_keyswitch_key).output_lwe_size,
            lwe_keyswitch_key.lwe_size_diff == old(lwe_keyswitch_key).lwe_size_diff,
        decreases blocks - k,
    {
        let input_key_element = input_lwe_sk[n + k];
        let decomposition_plaintexts_buffer = decomposition_plaintexts(
            input_key_element,
            decomp_base_log,
            decomp_level_count,
        );
        let encrypted = encrypt_list(output_lwe_sk, &decomposition_plaintexts_buffer, encryptor);
        proof {
            lemma_mul_inequality((k + 1) as int, blocks as int, block as int);
            lemma_mul_is_distributive_add_other_way(block as int, k as int, 1);
            lemma_mul_nonnegative(k as int, block as int);
        }
        let start = k * block;
        let ghost before = *lwe_keyswitch_key;
        let mut i: usize = 0;
        while i < block
            invariant
                i <= block,
                start + block <= lwe_keyswitch_key.data.len(),
                encrypted.len() == block,
                before.data.len() == lwe_keyswitch_key.data.len(),
                forall|t: int|
                    0 <= t < lwe_keyswitch_key.data.len() ==> #[trigger] lwe_keyswitch_key.data[t]
                        == (if start <= t < start + i {
                        encrypted[t - start]
                    } else {
                        before.data[t]
                    }),
                lwe_keyswitch_key.data.len() == old(lwe_keyswitch_key).data.len(),
                lwe_keyswitch_key.decomp_base_log == old(lwe_keyswitch_key).decomp_base_log,
                lwe_keyswitch_key.decomp_level_count == old(lwe_keyswitch_key).decomp_level_count,
                lwe_keyswitch_key.input_lwe_size == old(lwe_keyswitch_key).input_lwe_size,
                lwe_keyswitch_key.output_lwe_size == old(lwe_keyswitch_key).output_lwe_size,
                lwe_keyswitch_key.lwe_size_diff == old(lwe_keyswitch_key).lwe_size_diff,
            decreases block - i,
        {
            lwe_keyswitch_key.data.set(start + i, encrypted[i]);
            i += 1;
        }
        proof {
            let size = (n + 1) as int;
            assert forall|b: nat, index: nat| b < k + 1 && index < per implies encrypts(
                output_lwe_sk@,
                #[trigger] key_ciphertext(*lwe_keyswitch_key, b, index),
                block_plaintext(input_lwe_sk[n + b], decomp_base_log as nat, index),
                limit,
            ) by {
                lemma_mul_inequality((index + 1) as int, per as int, size);
                lemma_mul_is_distributive_add_other_way(size, index as int, 1);
                lemma_mul_nonnegative(index as int, size);
                lemma_mul_nonnegative(b as int, block as int);
                lemma_mul_inequality((b + 1) as int, blocks as int, block as int);
                lemma_mul_is_distributive_add_other_way(block as int, b as int, 1);
                let from = b * block + index * size;
                assert(lwe_keyswitch_key.block_size() == block);
                assert(before.block_size() == block);
                assert(lwe_keyswitch_key.output_lwe_size == size);
                assert(before.output_lwe_size == size);
                assert(index * size + size <= block);
                assert(from + size <= lwe_keyswitch_key.data.len());
                if b < k {
                    lemma_mul_inequality((b + 1) as int, k as int, block as int);
                    lemma_mul_is_distributive_add_other_way(block as int, b as int, 1);
                    assert(key_ciphertext(*lwe_keyswitch_key, b, index) =~= key_ciphertext(
                        before,
                        b,
                        index,
                    ));
                } else {
                    assert(key_ciphertext(*lwe_keyswitch_key, b, index) =~= encrypted@.subrange(
                        index * size,
                        index * size + n + 1,
                    ));
                    assert(decomposition_plaintexts_buffer[index as int] == block_plaintext(
                        input_key_element,
                        decomp_base_log as nat,
                        index,
                    ));
                }
            }
        }
        k += 1;
    }
}

/// A keyswitching key from the large key to the small key that it continues,
/// made and filled: it has a block for every word of the large key beyond the
/// small key, and in every block the ciphertext at every place is an
/// encryption of the plaintext of that place for the block's word, with a
/// noise within the limit of the encryptor.
pub fn allocate_and_generate_new_stored_reused_lwe_keyswitch_key(
    input_lwe_sk: &Vec<u64>,
    output_lwe_sk: &Vec<u64>,
    decomp_base_log: usize,
    decomp_level_count: usize,
    encryptor: &mut Encryptor,
) -> (key: LweStoredReusedKeyswitchKeyOwned)
    requires
        generation_fits(
            input_lwe_sk@,
            output_lwe_sk@,
            decomp_base_log as nat,
            decomp_level_count as nat,
        ),
    ensures
        key.wf(),
        key.data.len() == (input_lwe_sk.len() - output_lwe_sk.len()) * key.block_size(),
        key.decomp_base_log == decomp_base_log,
        key.decomp_level_count == decomp_level_count,
        key.input_lwe_size == input_lwe_sk.len() + 1,
        key.output_lwe_size == output_lwe_sk.len() + 1,
        key.lwe_size_diff == input_lwe_sk.len() - output_lwe_sk.len(),
        forall|k: nat, index: nat|
            k < input_lwe_sk.len() - output_lwe_sk.len() && index < decomp_level_count * pow2(
                decomp_base_log as nat,
            ) ==> encrypts(
                output_lwe_sk@,
                #[trigger] key_ciphertext(key, k, index),
                block_plaintext(
                    input_lwe_sk[output_lwe_sk.len() + k],
                    decomp_base_log as nat,
                    index,
                ),
                noise_limit(*old(encryptor)),
            ),
        noise_limit(*final(encryptor)) == noise_limit(*old(encryptor)),
{
    proof {
        lemma_pow2_pos(decomp_base_log as nat);
        lemma_mul_strictly_positive(
            (output_lwe_sk.len() + 1) as int,
            decomp_level_count as int,
        );
        lemma_mul_strictly_positive(
            ((output_lwe_sk.len() + 1) * decomp_level_count) as int,
            pow2(decomp_base_log as nat) as int,
        );
    }
    let mut new_lwe_keyswitch_key = LweStoredReusedKeyswitchKey::new(
        0,
        decomp_base_log,
        decomp_level_count,
        input_lwe_sk.len(),
        output_lwe_sk.len(),
    );
    proof {
        let diff = (input_lwe_sk.len() - output_lwe_sk.len()) as int;
        let block = new_lwe_keyswitch_key.block_size() as int;
        lemma_div_multiples_vanish(diff, block);
        lemma_mul_is_commutative(diff, block);
        assert(filled_blocks(new_lwe_keyswitch_key, diff as nat) == diff);
    }
    generate_lwe_stored_reused_keyswitch_key(
        input_lwe_sk,
        output_lwe_sk,
        &mut new_lwe_keyswitch_key,
        encryptor,
    );
    new_lwe_keyswitch_key
}

} // verus!
