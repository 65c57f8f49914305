//! The homomorphic primitives that the engine calls: selection by an
//! encrypted bit, lookup in a packed table, sample extraction, encryption and
//! decryption of one chunk. They are taken from `tfhe` and trusted; what each
//! is trusted for stands in its contract.
//!
//! What a selection, an external product or a lookup gives is a function of
//! its arguments and of the transform plan, too long to write down: it has a
//! name here, and the contracts of the evaluators speak of that name. Sample
//! extraction, the division by a monomial and decryption are stated word for
//! word. Encryption draws its mask and noise at random: it is trusted to give
//! a ciphertext that decrypts to the plaintext plus a noise within the limit
//! of the encryptor, a limit that has a name and no value here.
//!
//! Ciphertexts and keys are held as their sequences of words. An LWE
//! ciphertext under a key of `n` words has `n + 1` words, the last being its
//! body. A GLWE ciphertext has one polynomial for each of its mask places and
//! one for its body, the body last. The moduli are native throughout.

use tfhe::core_crypto::algorithms::polynomial_algorithms::polynomial_wrapping_monic_monomial_div;
use tfhe::core_crypto::fft_impl::fft64::c64;
use tfhe::core_crypto::fft_impl::fft64::crypto::ggsw::{
    add_external_product_assign, add_external_product_assign_scratch,
};
use tfhe::core_crypto::fft_impl::fft64::crypto::wop_pbs::{
    blind_rotate_assign, blind_rotate_assign_scratch, cmux_tree_memory_optimized,
    cmux_tree_memory_optimized_scratch, vertical_packing, vertical_packing_scratch,
};
use tfhe::core_crypto::prelude::{
    cmux_assign_mem_optimized, cmux_assign_mem_optimized_requirement, decrypt_lwe_ciphertext,
    encrypt_lwe_ciphertext, encrypt_lwe_ciphertext_list, extract_lwe_sample_from_glwe_ciphertext,
    ActivatedRandomGenerator, CiphertextModulus, ComputationBuffers, EncryptionRandomGenerator,
    Fft, FourierGgswCiphertextList, GlweCiphertext, LweCiphertext, LweCiphertextList,
    LweSecretKey, LweSize, MonomialDegree, Plaintext, PlaintextList, Polynomial, PolynomialList,
    PolynomialSize, StandardDev,
};
use crate::bits::word_sub;
use vstd::arithmetic::power2::*;
use vstd::prelude::*;

verus! {

/// The plan of the negacyclic transform for one polynomial size.
#[verifier::external_type_specification]
#[verifier::external_body]
pub struct ExFft(Fft);

/// A list of encrypted bits in the transform domain, each one a ciphertext
/// that can steer a selection: the selector bits that bootstrapping yields,
/// or the bits of the small key that make up a bootstrapping key.
#[verifier::external_body]
pub struct SelectorBits {
    pub list: FourierGgswCiphertextList<Vec<c64>>,
}

/// What encryption draws on: the source of masks and noise, and the spread
/// of the noise. The source is taken to be one made by
/// `EncryptionRandomGenerator::new`, whose supply of bytes is not used up; a
/// generator forked from another has a bound, and encryption stops the
/// program where it is reached.
#[verifier::external_body]
pub struct Encryptor {
    pub generator: EncryptionRandomGenerator<ActivatedRandomGenerator>,
    pub noise: StandardDev,
}

/// How many selector bits the list holds.
pub uninterp spec fn selector_count(bits: SelectorBits) -> nat;

/// How many polynomials a GLWE ciphertext has that the selector bits can
/// steer.
pub uninterp spec fn selector_glwe_size(bits: SelectorBits) -> nat;

/// How many coefficients each of those polynomials has.
pub uninterp spec fn selector_polynomial_size(bits: SelectorBits) -> nat;

/// The logarithm of the base in which the selector bits decompose what they
/// steer.
pub uninterp spec fn selector_base_log(bits: SelectorBits) -> nat;

/// Into how many levels they decompose it.
pub uninterp spec fn selector_level_count(bits: SelectorBits) -> nat;

/// The polynomial size that a transform plan was made for.
pub uninterp spec fn fft_polynomial_size(fft: Fft) -> nat;

/// Word `j` of the LWE ciphertext that sample extraction makes of
/// coefficient `nth` of a GLWE ciphertext. The body is coefficient `nth` of
/// the body polynomial. Every mask polynomial is read backwards from
/// coefficient `nth`, and what is read beyond coefficient zero, from the top
/// of the polynomial down, has its sign changed.
pub open spec fn sample_extract_word(glwe: Seq<u64>, polynomial_size: nat, nth: nat, j: int) -> nat {
    let n = polynomial_size as int;
    let mask_len = glwe.len() - n;
    if j >= mask_len {
        glwe[mask_len + nth] as nat
    } else {
        let opposite = n - nth - 1;
        let i = (j % n + opposite) % n;
        let source = glwe[(j / n) * n + (n - 1 - i)];
        if i < opposite {
            word_sub(0, source as nat)
        } else {
            source as nat
        }
    }
}

/// The LWE ciphertext that sample extraction makes of coefficient `nth` of a
/// GLWE ciphertext.
pub open spec fn sample_extract_value(glwe: Seq<u64>, polynomial_size: nat, nth: nat) -> Seq<u64> {
    Seq::new(
        (glwe.len() - polynomial_size + 1) as nat,
        |j: int| sample_extract_word(glwe, polynomial_size, nth, j) as u64,
    )
}

/// The ciphertext that the selection primitive gives for two ciphertexts,
/// the encrypted bit at place `index` and a transform plan.
pub uninterp spec fn cmux_value(
    if_clear: Seq<u64>,
    if_set: Seq<u64>,
    bits: SelectorBits,
    index: nat,
    fft: Fft,
) -> Seq<u64>;

/// The ciphertext that the external product gives: `out` plus the product of
/// `glwe` with the encrypted bit at place `index`, under a transform plan.
pub uninterp spec fn external_product_value(
    out: Seq<u64>,
    bits: SelectorBits,
    index: nat,
    glwe: Seq<u64>,
    fft: Fft,
) -> Seq<u64>;

/// The ciphertext that the selection tree gives for a list of polynomials
/// and the first `layers` encrypted bits, under a transform plan.
pub uninterp spec fn cmux_tree_value(lut: Seq<u64>, bits: SelectorBits, layers: nat, fft: Fft) -> Seq<
    u64,
>;

/// The ciphertext that the blind rotation gives for a ciphertext and the
/// encrypted bits from place `skip` on, under a transform plan.
pub uninterp spec fn blind_rotate_value(glwe: Seq<u64>, bits: SelectorBits, skip: nat, fft: Fft) -> Seq<
    u64,
>;

/// The LWE ciphertext that vertical packing gives for a list of polynomials
/// and the encrypted bits, under a transform plan.
pub uninterp spec fn vertical_packing_value(lut: Seq<u64>, bits: SelectorBits, fft: Fft) -> Seq<u64>;

/// The list that holds the first `take_first` selector bits of one list
/// followed by the first `take_second` selector bits of another.
pub uninterp spec fn joined_selectors(
    first: SelectorBits,
    take_first: nat,
    second: SelectorBits,
    take_second: nat,
) -> SelectorBits;

/// The sum of the products of the first `k` mask words with the key words.
pub open spec fn mask_key_product(key: Seq<u64>, ciphertext: Seq<u64>, k: nat) -> int
    decreases k,
{
    if k == 0 {
        0
    } else {
        mask_key_product(key, ciphertext, (k - 1) as nat) + ciphertext[k - 1] * key[k - 1]
    }
}

/// The plaintext of an LWE ciphertext: its body less the product of its mask
/// with the key, modulo `2^64`.
pub open spec fn phase(key: Seq<u64>, ciphertext: Seq<u64>) -> int {
    (ciphertext[key.len() as int] - mask_key_product(key, ciphertext, key.len())) % (pow2(64) as int)
}

/// The largest noise, as a signed word, that an encryption with this
/// encryptor can add to its plaintext: a limit that the spread of its noise
/// sets, whatever the generator draws. It has a name and no value here:
/// nothing computes it, and it is never more than half the range of a word.
/// What the noise has to stay below for a chunk to be read back is half the
/// scale of the chunk.
pub uninterp spec fn noise_limit(encryptor: Encryptor) -> nat;

/// A plaintext with a noise added, modulo `2^64`.
pub open spec fn noisy(plain: nat, noise: int) -> int {
    (plain + noise) % (pow2(64) as int)
}

/// The ciphertext is an encryption of `plain` under the key with a noise of
/// at most `limit`: it has one word more than the key, and it decrypts to the
/// plaintext with such a noise added.
pub open spec fn encrypts(key: Seq<u64>, ciphertext: Seq<u64>, plain: nat, limit: nat) -> bool {
    &&& ciphertext.len() == key.len() + 1
    &&& exists|noise: int|
        -limit <= noise <= limit && #[trigger] noisy(plain, noise) == phase(key, ciphertext)
}

impl SelectorBits {
    /// `FourierGgswCiphertextList::count`: the number of selector bits.
    #[verifier::external_body]
    pub(crate) fn count(&self) -> (n: usize)
        ensures
            n == selector_count(*self),
    {
        self.list.count()
    }

    /// `FourierGgswCiphertextList::glwe_size`, as a number.
    #[verifier::external_body]
    pub(crate) fn glwe_size(&self) -> (n: usize)
        ensures
            n == selector_glwe_size(*self),
    {
        self.list.glwe_size().0
    }

    /// `FourierGgswCiphertextList::polynomial_size`, as a number.
    #[verifier::external_body]
    pub(crate) fn polynomial_size(&self) -> (n: usize)
        ensures
            n == selector_polynomial_size(*self),
    {
        self.list.polynomial_size().0
    }

    /// `FourierGgswCiphertextList::decomposition_base_log`, as a number.
    #[verifier::external_body]
    pub(crate) fn base_log(&self) -> (n: usize)
        ensures
            n == selector_base_log(*self),
    {
        self.list.decomposition_base_log().0
    }

    /// `FourierGgswCiphertextList::decomposition_level_count`, as a number.
    #[verifier::external_body]
    pub(crate) fn level_count(&self) -> (n: usize)
        ensures
            n == selector_level_count(*self),
    {
        self.list.decomposition_level_count().0
    }
}

/// `FftView::polynomial_size`: the polynomial size that the plan was made
/// for.
#[verifier::external_body]
pub(crate) fn fft_size(fft: &Fft) -> (n: usize)
    ensures
        n == fft_polynomial_size(*fft),
{
    fft.as_view().polynomial_size().0
}

/// The numbers that describe a list of selector bits.
pub struct SelectorShape {
    pub count: nat,
    pub glwe_size: nat,
    pub polynomial_size: nat,
    pub base_log: nat,
    pub level_count: nat,
}

/// The numbers that describe the list `bits`.
pub open spec fn shape_of(bits: SelectorBits) -> SelectorShape {
    SelectorShape {
        count: selector_count(bits),
        glwe_size: selector_glwe_size(bits),
        polynomial_size: selector_polynomial_size(bits),
        base_log: selector_base_log(bits),
        level_count: selector_level_count(bits),
    }
}

/// Selector bits of this shape can steer GLWE ciphertexts of `glwe_len`
/// words with a transform plan for polynomials of `plan_size` coefficients:
/// the sizes agree, the polynomial size is a multiple of eight, as the
/// vectorised transform of four complex words at a time asks, and the
/// decomposition has at least one level of at least one digit and fits a
/// word.
pub open spec fn shape_steers(shape: SelectorShape, plan_size: nat, glwe_len: nat) -> bool {
    &&& shape.polynomial_size > 0
    &&& shape.polynomial_size % 8 == 0
    &&& shape.glwe_size > 0
    &&& plan_size == shape.polynomial_size
    &&& glwe_len == shape.glwe_size * shape.polynomial_size
    &&& shape.base_log > 0
    &&& shape.level_count > 0
    &&& shape.base_log * shape.level_count < 64
}

/// The selector bits can steer GLWE ciphertexts of `glwe_len` words with the
/// plan `fft`.
pub open spec fn steers(bits: SelectorBits, fft: Fft, glwe_len: nat) -> bool {
    shape_steers(shape_of(bits), fft_polynomial_size(fft), glwe_len)
}

/// `cmux_assign_mem_optimized`, on copies of the two ciphertexts and with a
/// buffer of the size that `cmux_assign_mem_optimized_requirement` gives: the
/// ciphertext that selector bit `index` selects, `if_set` where the bit is
/// set and `if_clear` where it is clear. Its words are a function of the two
/// ciphertexts, the encrypted bit and the transform plan; the contract gives
/// them a name and states their number.
#[verifier::external_body]
pub(crate) fn cmux_select(
    if_clear: &Vec<u64>,
    if_set: &Vec<u64>,
    bits: &SelectorBits,
    index: usize,
    fft: &Fft,
) -> (selected: Vec<u64>)
    requires
        index < selector_count(*bits),
        steers(*bits, *fft, if_clear.len() as nat),
        if_set.len() == if_clear.len(),
    ensures
        selected@ == cmux_value(if_clear@, if_set@, *bits, index as nat, *fft),
        selected.len() == if_clear.len(),
{
    let n = bits.list.polynomial_size();
    let native = CiphertextModulus::new_native();
    let mut ct0 = GlweCiphertext::from_container(if_clear.clone(), n, native);
    let mut ct1 = GlweCiphertext::from_container(if_set.clone(), n, native);
    let ggsw = bits.list.as_view().into_ggsw_iter().nth(index).unwrap();
    let view = fft.as_view();
    let need = cmux_assign_mem_optimized_requirement::<u64>(bits.list.glwe_size(), n, view);
    let mut buffer = ComputationBuffers::new();
    buffer.resize(need.unwrap().unaligned_bytes_required());
    cmux_assign_mem_optimized(&mut ct0, &mut ct1, &ggsw, view, buffer.stack());
    ct0.into_container()
}

/// `add_external_product_assign`, on a copy of `out` and with a buffer of the
/// size that `add_external_product_assign_scratch` gives: `out` plus the
/// external product of `glwe` with the encrypted bit at place `index`. Its
/// words are a function of the two ciphertexts, the encrypted bit and the
/// transform plan; the contract gives them a name and states their number.
#[verifier::external_body]
pub(crate) fn external_product_add(
    out: &Vec<u64>,
    bits: &SelectorBits,
    index: usize,
    glwe: &Vec<u64>,
    fft: &Fft,
) -> (sum: Vec<u64>)
    requires
        index < selector_count(*bits),
        steers(*bits, *fft, out.len() as nat),
        glwe.len() == out.len(),
    ensures
        sum@ == external_product_value(out@, *bits, index as nat, glwe@, *fft),
        sum.len() == out.len(),
{
    let n = bits.list.polynomial_size();
    let native = CiphertextModulus::new_native();
    let mut acc = GlweCiphertext::from_container(out.clone(), n, native);
    let term = GlweCiphertext::from_container(glwe.as_slice(), n, native);
    let ggsw = bits.list.as_view().into_ggsw_iter().nth(index).unwrap();
    let view = fft.as_view();
    let need = add_external_product_assign_scratch::<u64>(bits.list.glwe_size(), n, view);
    let mut buffer = ComputationBuffers::new();
    buffer.resize(need.unwrap().unaligned_bytes_required());
    add_external_product_assign(acc.as_mut_view(), ggsw, term.as_view(), view, buffer.stack());
    acc.into_container()
}

/// Coefficient `i` of the polynomial `input` divided by `X^degree`, modulo
/// `X^N + 1`: a coefficient of the input moved down by the degree, with its
/// sign changed once for every time it passes the bottom.
pub open spec fn monomial_quotient_coefficient(input: Seq<u64>, degree: nat, i: int) -> nat {
    let n = input.len() as int;
    let r = degree as int % n;
    let odd = (degree as int / n) % 2 == 1;
    let source = if i < n - r {
        input[i + r]
    } else {
        input[i - (n - r)]
    };
    if (i < n - r) == odd {
        word_sub(0, source as nat)
    } else {
        source as nat
    }
}

/// `polynomial_wrapping_monic_monomial_div`, into a fresh polynomial: the
/// input divided by `X^degree` modulo `X^N + 1`, coefficient by coefficient
/// as the function's source moves and negates them.
#[verifier::external_body]
pub(crate) fn monomial_div(input: &Vec<u64>, degree: usize) -> (output: Vec<u64>)
    requires
        input.len() > 0,
    ensures
        output.len() == input.len(),
        forall|i: int|
            0 <= i < input.len() ==> #[trigger] output[i] == monomial_quotient_coefficient(
                input@,
                degree as nat,
                i,
            ),
{
    let mut words = vec![0u64; input.len()];
    let mut output = Polynomial::from_container(words.as_mut_slice());
    let source = Polynomial::from_container(input.as_slice());
    polynomial_wrapping_monic_monomial_div(&mut output, &source, MonomialDegree(degree));
    words
}

/// `cmux_tree_memory_optimized`, on the first `layers` selector bits and with
/// a buffer of the size that `cmux_tree_memory_optimized_scratch` gives: the
/// GLWE ciphertext of the polynomial of `lut` that those bits address, the
/// first bit being the most significant. Its words are a function of the
/// list, the encrypted bits and the transform plan; the contract gives them a
/// name and states their number.
#[verifier::external_body]
pub(crate) fn cmux_tree(lut: &Vec<u64>, bits: &SelectorBits, layers: usize, fft: &Fft) -> (glwe:
    Vec<u64>)
    requires
        layers <= selector_count(*bits),
        layers < 64,
        steers(
            *bits,
            *fft,
            selector_glwe_size(*bits) * selector_polynomial_size(*bits),
        ),
        lut.len() == pow2(layers as nat) * selector_polynomial_size(*bits),
    ensures
        glwe@ == cmux_tree_value(lut@, *bits, layers as nat, *fft),
        glwe.len() == selector_glwe_size(*bits) * selector_polynomial_size(*bits),
{
    let (n, size) = (bits.list.polynomial_size(), bits.list.glwe_size());
    let native = CiphertextModulus::new_native();
    let mut out = GlweCiphertext::new(0u64, size, n, native);
    let table = PolynomialList::from_container(lut.as_slice(), n);
    let (first, _) = bits.list.as_view().split_at(layers);
    let view = fft.as_view();
    let need = cmux_tree_memory_optimized_scratch::<u64>(size, n, layers, view);
    let mut buffer = ComputationBuffers::new();
    buffer.resize(need.unwrap().unaligned_bytes_required());
    cmux_tree_memory_optimized(out.as_mut_view(), table, first, view, buffer.stack());
    out.into_container()
}

/// `blind_rotate_assign`, on a copy of the ciphertext, with the selector bits
/// from place `skip` on and a buffer of the size that
/// `blind_rotate_assign_scratch` gives: the ciphertext with its polynomials
/// divided by the monomial whose degree those bits spell, the last bit being
/// the least significant. Its words are a function of the ciphertext, the
/// encrypted bits and the transform plan; the contract gives them a name and
/// states their number.
#[verifier::external_body]
pub(crate) fn blind_rotate(glwe: &Vec<u64>, bits: &SelectorBits, skip: usize, fft: &Fft) -> (rotated:
    Vec<u64>)
    requires
        skip <= selector_count(*bits),
        steers(*bits, *fft, glwe.len() as nat),
    ensures
        rotated@ == blind_rotate_value(glwe@, *bits, skip as nat, *fft),
        rotated.len() == glwe.len(),
{
    let (n, size) = (bits.list.polynomial_size(), bits.list.glwe_size());
    let native = CiphertextModulus::new_native();
    let mut out = GlweCiphertext::from_container(glwe.clone(), n, native);
    let (_, rest) = bits.list.as_view().split_at(skip);
    let view = fft.as_view();
    let need = blind_rotate_assign_scratch::<u64>(size, n, view);
    let mut buffer = ComputationBuffers::new();
    buffer.resize(need.unwrap().unaligned_bytes_required());
    blind_rotate_assign(out.as_mut_view(), rest, view, buffer.stack());
    out.into_container()
}

/// `vertical_packing`, into a fresh LWE ciphertext and with a buffer of the
/// size that `vertical_packing_scratch` gives: the LWE ciphertext of the
/// entry of `lut` that the selector bits address, the first bit being the
/// most significant. The leading `layers` bits pick a polynomial, the others
/// a coefficient. Its words are a function of the list, the encrypted bits
/// and the transform plan; the contract gives them a name and states their
/// number.
#[verifier::external_body]
pub(crate) fn vertical_pack(lut: &Vec<u64>, bits: &SelectorBits, layers: usize, fft: &Fft) -> (lwe:
    Vec<u64>)
    requires
        layers <= selector_count(*bits),
        layers < 64,
        steers(
            *bits,
            *fft,
            selector_glwe_size(*bits) * selector_polynomial_size(*bits),
        ),
        lut.len() == pow2(layers as nat) * selector_polynomial_size(*bits),
    ensures
        lwe@ == vertical_packing_value(lut@, *bits, *fft),
        lwe.len() == (selector_glwe_size(*bits) - 1) * selector_polynomial_size(*bits) + 1,
{
    let (n, size) = (bits.list.polynomial_size(), bits.list.glwe_size());
    let native = CiphertextModulus::new_native();
    let len = (size.0 - 1) * n.0 + 1;
    let mut out = vec![0u64; len];
    let lwe = LweCiphertext::from_container(out.as_mut_slice(), native);
    let table = PolynomialList::from_container(lut.as_slice(), n);
    let (all, view) = (bits.list.as_view(), fft.as_view());
    let count = table.polynomial_count();
    let need = vertical_packing_scratch::<u64>(size, n, count, all.count(), view);
    let mut buffer = ComputationBuffers::new();
    buffer.resize(need.unwrap().unaligned_bytes_required());
    vertical_packing(table, lwe, all, view, buffer.stack());
    out
}

/// `extract_lwe_sample_from_glwe_ciphertext`, into a fresh LWE ciphertext:
/// the LWE ciphertext of coefficient `nth` of the plaintext polynomial, word
/// for word as the function's source copies, reverses, negates and turns the
/// mask polynomials. It has one word for every mask coefficient and one for
/// the body, and its body is coefficient `nth` of the body polynomial.
#[verifier::external_body]
pub(crate) fn sample_extract(glwe: &Vec<u64>, polynomial_size: usize, nth: usize) -> (lwe: Vec<
    u64,
>)
    requires
        polynomial_size > 0,
        glwe.len() >= polynomial_size,
        glwe.len() % polynomial_size == 0,
        nth < polynomial_size,
    ensures
        lwe@ == sample_extract_value(glwe@, polynomial_size as nat, nth as nat),
        lwe.len() == glwe.len() - polynomial_size + 1,
        lwe[lwe.len() - 1] == glwe[glwe.len() - polynomial_size + nth],
{
    let native = CiphertextModulus::new_native();
    let input = GlweCiphertext::from_container(
        glwe.as_slice(),
        PolynomialSize(polynomial_size),
        native,
    );
    let len = glwe.len() - polynomial_size + 1;
    let mut out = vec![0u64; len];
    let mut lwe = LweCiphertext::from_container(out.as_mut_slice(), native);
    extract_lwe_sample_from_glwe_ciphertext(&input, &mut lwe, MonomialDegree(nth));
    out
}

/// `decrypt_lwe_ciphertext`: the plaintext of the ciphertext under the key,
/// noise included.
#[verifier::external_body]
pub(crate) fn decrypt_chunk(key: &Vec<u64>, ciphertext: &Vec<u64>) -> (plain: u64)
    requires
        key.len() > 0,
        ciphertext.len() == key.len() + 1,
    ensures
        plain == phase(key@, ciphertext@),
{
    let secret = LweSecretKey::from_container(key.as_slice());
    let native = CiphertextModulus::new_native();
    let input = LweCiphertext::from_container(ciphertext.as_slice(), native);
    decrypt_lwe_ciphertext(&secret, &input).0
}

/// `encrypt_lwe_ciphertext`, into a fresh LWE ciphertext: an encryption of
/// the plaintext under the key, with a mask and noise drawn from the
/// encryptor. The function draws the mask and one word of noise and sets the
/// body to the product of mask and key plus the plaintext plus the noise, so
/// the ciphertext decrypts to the plaintext plus the noise. The mask and the
/// noise are random; the noise is within the limit of the encryptor, which
/// the call leaves as it was.
#[verifier::external_body]
pub(crate) fn encrypt_chunk(key: &Vec<u64>, plain: u64, encryptor: &mut Encryptor) -> (ciphertext:
    Vec<u64>)
    requires
        key.len() > 0,
        key.len() < usize::MAX,
    ensures
        ciphertext.len() == key.len() + 1,
        encrypts(key@, ciphertext@, plain as nat, noise_limit(*old(encryptor))),
        noise_limit(*final(encryptor)) == noise_limit(*old(encryptor)),
{
    let secret = LweSecretKey::from_container(key.as_slice());
    let native = CiphertextModulus::new_native();
    let len = key.len() + 1;
    let mut out = vec![0u64; len];
    let mut lwe = LweCiphertext::from_container(out.as_mut_slice(), native);
    encrypt_lwe_ciphertext(
        &secret,
        &mut lwe,
        Plaintext(plain),
        encryptor.noise,
        &mut encryptor.generator,
    );
    out
}

/// `encrypt_lwe_ciphertext_list`, into a fresh list of LWE ciphertexts: one
/// encryption for every plaintext, in order, each of one word more than the
/// key, with masks and noise drawn from the encryptor. The function forks the
/// generator once for every plaintext and refuses to fork it for none. Every
/// ciphertext is made as a single encryption is: it decrypts to its plaintext
/// plus a noise within the limit of the encryptor, which the call leaves as
/// it was. The masks and the noise are random. Every fork has a supply of
/// bytes measured for its draws; the sampler of the noise may throw draws
/// away, so the supply can run out and stop the program, with a chance that
/// is negligible.
#[verifier::external_body]
pub(crate) fn encrypt_list(key: &Vec<u64>, plaintexts: &Vec<u64>, encryptor: &mut Encryptor) -> (list:
    Vec<u64>)
    requires
        key.len() > 0,
        plaintexts.len() > 0,
        plaintexts.len() * (key.len() + 1) <= usize::MAX,
    ensures
        list.len() == plaintexts.len() * (key.len() + 1),
        forall|i: int|
            0 <= i < plaintexts.len() ==> encrypts(
                key@,
                #[trigger] list@.subrange(i * (key.len() + 1), i * (key.len() + 1) + key.len() + 1),
                plaintexts[i] as nat,
                noise_limit(*old(encryptor)),
            ),
        noise_limit(*final(encryptor)) == noise_limit(*old(encryptor)),
{
    let secret = LweSecretKey::from_container(key.as_slice());
    let native = CiphertextModulus::new_native();
    let len = plaintexts.len() * (key.len() + 1);
    let mut out = vec![0u64; len];
    let size = LweSize(key.len() + 1);
    let mut list = LweCiphertextList::from_container(out.as_mut_slice(), size, native);
    let encoded = PlaintextList::from_container(plaintexts.as_slice());
    encrypt_lwe_ciphertext_list(
        &secret,
        &mut list,
        &encoded,
        encryptor.noise,
        &mut encryptor.generator,
    );
    out
}

/// `FourierGgswCiphertextList::new`, on the words of the first `take_first`
/// selector bits of one list followed by those of the first `take_second`
/// selector bits of another, each taken with `split_at`: the list of those
/// selector bits in that order, `total` of them, with the sizes of the first
/// list. The list is a function of the two lists and the two counts; the
/// contract gives it a name and states its count and sizes.
#[verifier::external_body]
pub(crate) fn join_selectors(
    first: &SelectorBits,
    take_first: usize,
    second: &SelectorBits,
    take_second: usize,
    total: usize,
) -> (joined: SelectorBits)
    requires
        take_first <= selector_count(*first),
        take_second <= selector_count(*second),
        total == take_first + take_second,
        selector_glwe_size(*first) == selector_glwe_size(*second),
        selector_polynomial_size(*first) == selector_polynomial_size(*second),
        selector_base_log(*first) == selector_base_log(*second),
        selector_level_count(*first) == selector_level_count(*second),
    ensures
        joined == joined_selectors(*first, take_first as nat, *second, take_second as nat),
        selector_count(joined) == total,
        selector_glwe_size(joined) == selector_glwe_size(*first),
        selector_polynomial_size(joined) == selector_polynomial_size(*first),
        selector_base_log(joined) == selector_base_log(*first),
        selector_level_count(joined) == selector_level_count(*first),
{
    let (a, _) = first.list.as_view().split_at(take_first);
    let (b, _) = second.list.as_view().split_at(take_second);
    SelectorBits {
        list: FourierGgswCiphertextList::new(
            [a.data(), b.data()].concat(),
            total,
            first.list.glwe_size(),
            first.list.polynomial_size(),
            first.list.decomposition_base_log(),
            first.list.decomposition_level_count(),
        ),
    }
}

} // verus!
