//! Ciphertexts that need no key: the zero ciphertext, and the trivial
//! encryption of a plaintext polynomial, whose mask is zero and whose body is
//! the plaintext. And what a GLWE ciphertext decrypts to: coefficient by
//! coefficient what the samples extracted from it decrypt to.

use crate::bits::word_sub;
use crate::primitives::{mask_key_product, phase, sample_extract_value, sample_extract_word};
use vstd::arithmetic::div_mod::*;
use vstd::arithmetic::mul::*;
use vstd::arithmetic::power2::*;
use vstd::prelude::*;

verus! {

/// `n` zero words.
pub open spec fn zero_words(n: nat) -> Seq<u64> {
    Seq::new(n, |i: int| 0u64)
}

/// The trivial GLWE encryption of the plaintext polynomial `body`, with
/// `glwe_size` polynomials: zero mask polynomials, then the body.
pub open spec fn trivial_encryption(body: Seq<u64>, glwe_size: nat) -> Seq<u64> {
    zero_words(((glwe_size - 1) * body.len()) as nat) + body
}

/// An LWE ciphertext of `n` words that encrypts zero under every key, or a
/// zero polynomial.
pub fn zero_ciphertext(n: usize) -> (words: Vec<u64>)
    ensures
        words@ == zero_words(n as nat),
{
    let words = vec![0u64; n];
    proof {
        assert(words@ =~= zero_words(n as nat));
    }
    words
}

/// The polynomial of `n` coefficients that are all `value`.
pub fn constant_polynomial(value: u64, n: usize) -> (words: Vec<u64>)
    ensures
        words.len() == n,
        forall|i: int| 0 <= i < n ==> #[trigger] words[i] == value,
{
    vec![value; n]
}

/// The trivial GLWE encryption of a plaintext polynomial.
pub fn trivial_glwe(body: &Vec<u64>, glwe_size: usize) -> (glwe: Vec<u64>)
    requires
        glwe_size > 0,
        glwe_size * body.len() <= usize::MAX,
    ensures
        glwe@ == trivial_encryption(body@, glwe_size as nat),
        glwe.len() == glwe_size * body.len(),
{
    proof {
        lemma_mul_is_distributive_sub_other_way(body.len() as int, glwe_size as int, 1);
        lemma_mul_nonnegative((glwe_size - 1) as int, body.len() as int);
    }
    let mut glwe = zero_ciphertext((glwe_size - 1) * body.len());
    let ghost mask = glwe@;
    let mut i: usize = 0;
    while i < body.len()
        invariant
            i <= body.len(),
            glwe@ == mask + body@.subrange(0, i as int),
        decreases body.len() - i,
    {
        glwe.push(body[i]);
        proof {
            assert(glwe@ =~= mask + body@.subrange(0, i + 1));
        }
        i += 1;
    }
    proof {
        assert(body@.subrange(0, body.len() as int) =~= body@);
    }
    glwe
}

/// Term `j` of the product of the mask of a GLWE ciphertext with the key at
/// coefficient `c`: key word `j`, coefficient `t` of its polynomial, meets
/// coefficient `c - t` of the mask polynomial, or beyond coefficient zero
/// coefficient `n + c - t` with the sign changed, as `X^n` is minus one.
pub open spec fn glwe_mask_term(key: Seq<u64>, glwe: Seq<u64>, n: nat, c: nat, j: int) -> int {
    let p = j / (n as int);
    let t = j % (n as int);
    if t <= c {
        glwe[p * n + c - t] * key[j]
    } else {
        -(glwe[p * n + n + c - t] * key[j])
    }
}

/// The sum of the first `upto` terms of the product of the mask with the key
/// at coefficient `c`.
pub open spec fn glwe_mask_product(key: Seq<u64>, glwe: Seq<u64>, n: nat, c: nat, upto: nat) -> int
    decreases upto,
{
    if upto == 0 {
        0
    } else {
        glwe_mask_product(key, glwe, n, c, (upto - 1) as nat) + glwe_mask_term(
            key,
            glwe,
            n,
            c,
            upto - 1,
        )
    }
}

/// Coefficient `c` of the plaintext polynomial of a GLWE ciphertext under a
/// key: coefficient `c` of the body less that of the product of the mask
/// with the key, modulo `2^64`.
pub open spec fn glwe_phase(key: Seq<u64>, glwe: Seq<u64>, n: nat, c: nat) -> int {
    (glwe[(key.len() + c) as int] - glwe_mask_product(key, glwe, n, c, key.len())) % (pow2(64) as int)
}

/// A word of the sample times its key word is the term of the product, modulo
/// `2^64`.
proof fn lemma_sample_term(key: Seq<u64>, glwe: Seq<u64>, n: nat, c: nat, j: int)
    requires
        n > 0,
        c < n,
        key.len() % n == 0,
        glwe.len() == key.len() + n,
        0 <= j < key.len(),
    ensures
        sample_extract_word(glwe, n, c, j) < pow2(64),
        (sample_extract_word(glwe, n, c, j) * key[j]) % (pow2(64) as int) == glwe_mask_term(
            key,
            glwe,
            n,
            c,
            j,
        ) % (pow2(64) as int),
{
    let m = pow2(64) as int;
    lemma_pow2_pos(64);
    let p = j / (n as int);
    let t = j % (n as int);
    lemma_fundamental_div_mod(j, n as int);
    lemma_mod_bound(j, n as int);
    lemma_mul_is_commutative(n as int, p);
    let opposite = n - c - 1;
    assert(p >= 0) by {
        lemma_div_pos_is_pos(j, n as int);
    }
    assert(p * n + n <= key.len()) by {
        lemma_fundamental_div_mod(key.len() as int, n as int);
        lemma_mul_is_commutative(n as int, (key.len() / n) as int);
        if p >= key.len() / n {
            lemma_mul_inequality((key.len() / n) as int, p, n as int);
        }
        lemma_mul_inequality(p + 1, (key.len() / n) as int, n as int);
        lemma_mul_is_distributive_add_other_way(n as int, p, 1);
    }
    lemma2_to64();
    if t <= c {
        lemma_small_mod((t + opposite) as nat, n);
        assert(sample_extract_word(glwe, n, c, j) == glwe[p * n + c - t]);
    } else {
        lemma_fundamental_div_mod_converse(t + opposite, n as int, 1, t - c - 1);
        let source = glwe[p * n + n + c - t] as int;
        assert(sample_extract_word(glwe, n, c, j) == word_sub(0, source as nat));
        let negated = word_sub(0, source as nat) as int;
        assert(negated == (0 - source) % m);
        lemma_mod_bound(0 - source, m);
        lemma_mul_mod_noop_left(0 - source, key[j] as int, m);
        assert((0 - source) * key[j] == -(source * key[j])) by (nonlinear_arith);
    }
}

/// The products of the sample with the key and of the mask with the key
/// agree modulo `2^64`, term by term.
proof fn lemma_sample_products(key: Seq<u64>, glwe: Seq<u64>, n: nat, c: nat, upto: nat)
    requires
        n > 0,
        c < n,
        key.len() % n == 0,
        glwe.len() == key.len() + n,
        upto <= key.len(),
    ensures
        mask_key_product(key, sample_extract_value(glwe, n, c), upto) % (pow2(64) as int)
            == glwe_mask_product(key, glwe, n, c, upto) % (pow2(64) as int),
    decreases upto,
{
    let m = pow2(64) as int;
    lemma_pow2_pos(64);
    if upto > 0 {
        let j = (upto - 1) as int;
        let lwe = sample_extract_value(glwe, n, c);
        lemma_sample_products(key, glwe, n, c, (upto - 1) as nat);
        lemma_sample_term(key, glwe, n, c, j);
        let before = mask_key_product(key, lwe, (upto - 1) as nat);
        let other = glwe_mask_product(key, glwe, n, c, (upto - 1) as nat);
        let word = sample_extract_word(glwe, n, c, j);
        lemma2_to64();
        assert(lwe[j] == word);
        let x = lwe[j] * key[j];
        let y = glwe_mask_term(key, glwe, n, c, j);
        lemma_add_mod_noop(before, x, m);
        lemma_add_mod_noop(other, y, m);
    }
}

/// The sample extracted at coefficient `c` decrypts to coefficient `c` of
/// what the GLWE ciphertext decrypts to: under a key of whole polynomials of
/// `n` coefficients, the plaintext of the sample is coefficient `c` of the
/// plaintext polynomial.
pub proof fn lemma_sample_decrypts(key: Seq<u64>, glwe: Seq<u64>, n: nat, c: nat)
    requires
        n > 0,
        c < n,
        key.len() % n == 0,
        glwe.len() == key.len() + n,
    ensures
        phase(key, sample_extract_value(glwe, n, c)) == glwe_phase(key, glwe, n, c),
{
    let m = pow2(64) as int;
    lemma_pow2_pos(64);
    let lwe = sample_extract_value(glwe, n, c);
    lemma_sample_products(key, glwe, n, c, key.len());
    let body = glwe[(key.len() + c) as int] as int;
    assert(lwe[key.len() as int] == glwe[(key.len() + c) as int]) by {
        lemma2_to64();
    }
    let a = mask_key_product(key, lwe, key.len());
    let b = glwe_mask_product(key, glwe, n, c, key.len());
    lemma_sub_mod_noop_right(body, a, m);
    lemma_sub_mod_noop_right(body, b, m);
}

/// The mask of a trivial encryption adds nothing to the product with a key.
proof fn lemma_trivial_product(key: Seq<u64>, body: Seq<u64>, glwe_size: nat, c: nat, upto: nat)
    requires
        body.len() > 0,
        c < body.len(),
        glwe_size >= 1,
        key.len() == (glwe_size - 1) * body.len(),
        upto <= key.len(),
    ensures
        glwe_mask_product(key, trivial_encryption(body, glwe_size), body.len(), c, upto) == 0,
    decreases upto,
{
    if upto > 0 {
        let n = body.len();
        let j = (upto - 1) as int;
        lemma_trivial_product(key, body, glwe_size, c, (upto - 1) as nat);
        let glwe = trivial_encryption(body, glwe_size);
        let p = j / (n as int);
        let t = j % (n as int);
        lemma_fundamental_div_mod(j, n as int);
        lemma_mod_bound(j, n as int);
        lemma_mul_is_commutative(n as int, p);
        lemma_div_pos_is_pos(j, n as int);
        assert(p * n + n <= key.len()) by {
            lemma_mul_is_commutative((glwe_size - 1) as int, n as int);
            if p >= glwe_size - 1 {
                lemma_mul_inequality((glwe_size - 1) as int, p, n as int);
            }
            lemma_mul_inequality(p + 1, (glwe_size - 1) as int, n as int);
            lemma_mul_is_distributive_add_other_way(n as int, p, 1);
        }
        if t <= c {
            assert(glwe[p * n + c - t] == 0);
        } else {
            assert(glwe[p * n + n + c - t] == 0);
        }
        assert(glwe_mask_term(key, glwe, n, c, j) == 0) by (nonlinear_arith)
            requires
                glwe_mask_term(key, glwe, n, c, j) == (if t <= c {
                    glwe[p * n + c - t] * key[j]
                } else {
                    -(glwe[p * n + n + c - t] * key[j])
                }),
                t <= c ==> glwe[p * n + c - t] == 0,
                t > c ==> glwe[p * n + n + c - t] == 0,
        ;
    }
}

/// A trivial encryption decrypts to its plaintext under every key.
pub proof fn lemma_trivial_decrypts(key: Seq<u64>, body: Seq<u64>, glwe_size: nat, c: nat)
    requires
        body.len() > 0,
        c < body.len(),
        glwe_size >= 1,
        key.len() == (glwe_size - 1) * body.len(),
    ensures
        glwe_phase(key, trivial_encryption(body, glwe_size), body.len(), c) == body[c as int],
{
    lemma_trivial_product(key, body, glwe_size, c, key.len());
    lemma2_to64();
    lemma_small_mod(body[c as int] as nat, pow2(64));
}

} // verus!
