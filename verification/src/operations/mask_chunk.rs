//! The masking transform: inside every chunk of a word, each binary digit is
//! replaced by the exclusive or of itself and all higher digits of the chunk.
//! This is the form in which selector bits reach the lookup tables, so the
//! table compiler has to apply it and undo it exactly.

use crate::bits::{
    all_digits, as_bools, bit, bit_at, digit, from_bits, lemma_bit_from_bits, lemma_bit_of_div,
    lemma_bit_of_mod,
    lemma_fits_usize, lemma_from_bits_bound, lemma_from_bits_to_bits, lemma_to_bits_from_bits, lemma_xor_digits,
    low_bits, shift_down, to_bits,
};
use vstd::arithmetic::div_mod::*;
use vstd::arithmetic::mul::*;
use vstd::arithmetic::power2::*;
use vstd::prelude::*;
use vstd::slice::slice_subrange;

verus! {

/// The exclusive or of the digits `s[lo..hi]`.
pub open spec fn parity(s: Seq<bool>, lo: int, hi: int) -> bool
    decreases hi - lo,
{
    if lo >= hi {
        false
    } else {
        s[lo] != parity(s, lo + 1, hi)
    }
}

/// One past the last position of the chunk that holds position `p`, in a
/// word of `w` digits cut into chunks of `m` digits from the low end. The
/// last chunk is shorter where `m` does not divide `w`.
pub open spec fn chunk_end(p: int, m: int, w: int) -> int {
    let end = p - p % m + m;
    if end < w {
        end
    } else {
        w
    }
}

/// The masked form of the digits `s`: position `p` holds the exclusive or of
/// the digits from `p` up to the end of its chunk.
pub open spec fn encode_bits(s: Seq<bool>, m: nat) -> Seq<bool> {
    Seq::new(s.len(), |p: int| parity(s, p, chunk_end(p, m as int, s.len() as int)))
}

/// The digits whose masked form is `c`: each position is combined with its
/// upper neighbour, except the top position of a chunk, which stands as it is.
pub open spec fn decode_bits(c: Seq<bool>, m: nat) -> Seq<bool> {
    Seq::new(
        c.len(),
        |p: int|
            if p + 1 < chunk_end(p, m as int, c.len() as int) {
                c[p] != c[p + 1]
            } else {
                c[p]
            },
    )
}

/// The masked form of the lowest `w` digits of `v`, with chunks of `m` digits.
pub open spec fn mask_encode(v: nat, m: nat, w: nat) -> nat {
    from_bits(encode_bits(to_bits(v, w), m))
}

/// The word whose masked form is given by the lowest `w` digits of `v`.
pub open spec fn mask_decode(v: nat, m: nat, w: nat) -> nat {
    from_bits(decode_bits(to_bits(v, w), m))
}

/// For a sequence of machine words: each position combined with its upper
/// neighbour by exclusive or, the last position unchanged.
pub open spec fn xor_neighbours(code: Seq<usize>) -> Seq<usize> {
    Seq::new(
        code.len(),
        |i: int|
            if i + 1 < code.len() {
                code[i] ^ code[i + 1]
            } else {
                code[i]
            },
    )
}

/// The words of `s` below position `k`, each shifted up by its position and
/// joined by inclusive or.
pub open spec fn or_shifted(s: Seq<usize>, k: nat) -> usize
    decreases k,
{
    if k == 0 {
        0
    } else {
        or_shifted(s, (k - 1) as nat) | (s[k - 1] << ((k - 1) as usize))
    }
}

/// Taking one more digit at the top into a parity.
pub proof fn lemma_parity_extend(s: Seq<bool>, lo: int, hi: int)
    requires
        lo <= hi,
    ensures
        parity(s, lo, hi + 1) == (parity(s, lo, hi) != s[hi]),
    decreases hi - lo,
{
    if lo < hi {
        lemma_parity_extend(s, lo + 1, hi);
    } else {
        assert(parity(s, lo + 1, hi + 1) == false);
    }
}

/// A parity depends only on the digits it ranges over, wherever they stand.
pub proof fn lemma_parity_shift(s: Seq<bool>, t: Seq<bool>, lo: int, hi: int, off: int)
    requires
        forall|j: int| lo <= j < hi ==> t[j] == s[off + j],
    ensures
        parity(t, lo, hi) == parity(s, off + lo, off + hi),
    decreases hi - lo,
{
    if lo < hi {
        lemma_parity_shift(s, t, lo + 1, hi, off);
    }
}

/// Positions of one chunk share their chunk end, and it lies above them.
pub proof fn lemma_chunk_end(p: int, m: int, w: int)
    requires
        0 <= p < w,
        0 < m,
    ensures
        p < chunk_end(p, m, w) <= w,
        chunk_end(p, m, w) <= p + m,
        p + 1 < chunk_end(p, m, w) ==> chunk_end(p + 1, m, w) == chunk_end(p, m, w),
{
    lemma_mod_pos_bound(p, m);
    if p + 1 < chunk_end(p, m, w) {
        let r = p % m;
        lemma_fundamental_div_mod(p, m);
        lemma_mul_is_commutative(m, p / m);
        assert(r + 1 < m);
        lemma_fundamental_div_mod_converse_mod(p + 1, m, p / m, r + 1);
    }
}

/// The chunk end of a position given by its chunk's start and its place in
/// the chunk.
pub proof fn lemma_chunk_end_at(start: int, i: int, m: int, w: int)
    requires
        0 <= start,
        start % m == 0,
        0 <= i < m,
        start + i < w,
    ensures
        chunk_end(start + i, m, w) == (if start + m < w {
            start + m
        } else {
            w
        }),
{
    lemma_fundamental_div_mod(start, m);
    lemma_mul_is_commutative(m, start / m);
    lemma_fundamental_div_mod_converse_mod(start + i, m, start / m, i);
}

/// Unmasking a masked word gives the word back.
pub proof fn lemma_decode_encode_bits(s: Seq<bool>, m: nat)
    requires
        m > 0,
    ensures
        decode_bits(encode_bits(s, m), m) == s,
{
    let e = encode_bits(s, m);
    let w = s.len() as int;
    assert forall|p: int| 0 <= p < w implies decode_bits(e, m)[p] == s[p] by {
        lemma_chunk_end(p, m as int, w);
        let end = chunk_end(p, m as int, w);
        if p + 1 < end {
            assert(e[p + 1] == parity(s, p + 1, end));
        } else {
            assert(parity(s, p + 1, end) == false);
        }
    }
    assert(decode_bits(e, m) =~= s);
}

/// Inside one chunk, the parity of the unmasked digits from `p` up is the
/// masked digit at `p`.
proof fn lemma_parity_of_decoded(c: Seq<bool>, m: nat, p: int)
    requires
        m > 0,
        0 <= p < c.len(),
    ensures
        parity(decode_bits(c, m), p, chunk_end(p, m as int, c.len() as int)) == c[p],
    decreases c.len() - p,
{
    let w = c.len() as int;
    let d = decode_bits(c, m);
    let end = chunk_end(p, m as int, w);
    lemma_chunk_end(p, m as int, w);
    if p + 1 < end {
        lemma_parity_of_decoded(c, m, p + 1);
    } else {
        assert(parity(d, p + 1, end) == false);
    }
}

/// Masking an unmasked word gives the word back.
pub proof fn lemma_encode_decode_bits(c: Seq<bool>, m: nat)
    requires
        m > 0,
    ensures
        encode_bits(decode_bits(c, m), m) == c,
{
    let d = decode_bits(c, m);
    assert forall|p: int| 0 <= p < c.len() implies encode_bits(d, m)[p] == c[p] by {
        lemma_parity_of_decoded(c, m, p);
    }
    assert(encode_bits(d, m) =~= c);
}

/// Masking and then unmasking a word returns its lowest `w` digits, for
/// every chunk size and width.
pub proof fn lemma_mask_round_trip(v: nat, m: nat, w: nat)
    requires
        m > 0,
    ensures
        mask_decode(mask_encode(v, m, w), m, w) == v % pow2(w),
        mask_encode(v, m, w) < pow2(w),
{
    let s = to_bits(v, w);
    let e = encode_bits(s, m);
    lemma_to_bits_from_bits(e);
    lemma_decode_encode_bits(s, m);
    lemma_from_bits_to_bits(v, w);
    lemma_from_bits_bound(e);
}

/// Unmasking and then masking a word returns its lowest `w` digits: the two
/// transforms are inverse to each other on both sides.
pub proof fn lemma_unmask_round_trip(v: nat, m: nat, w: nat)
    requires
        m > 0,
    ensures
        mask_encode(mask_decode(v, m, w), m, w) == v % pow2(w),
        mask_decode(v, m, w) < pow2(w),
{
    let c = to_bits(v, w);
    let d = decode_bits(c, m);
    lemma_to_bits_from_bits(d);
    lemma_encode_decode_bits(c, m);
    lemma_from_bits_to_bits(v, w);
    lemma_from_bits_bound(d);
}

/// The selector bits of a word: the binary digits of its masked form, the most
/// significant first.
pub open spec fn selector_bits(v: nat, m: nat, w: nat) -> Seq<bool> {
    Seq::new(w, |i: int| bit(mask_encode(v, m, w), (w - 1 - i) as nat))
}

/// Where the chunk size divides the width, the chunk of position `q` ends at
/// the next multiple of the chunk size.
pub proof fn lemma_chunk_end_aligned(q: int, m: int, w: int)
    requires
        0 < m,
        0 <= q < w,
        w % m == 0,
    ensures
        chunk_end(q, m, w) == q - q % m + m,
        (q + 1) % m != 0 ==> q + 1 < chunk_end(q, m, w),
        (q + 1) % m == 0 ==> q + 1 == chunk_end(q, m, w),
{
    let r = q % m;
    let k = q / m;
    let n = w / m;
    lemma_fundamental_div_mod(q, m);
    lemma_fundamental_div_mod(w, m);
    lemma_mod_pos_bound(q, m);
    lemma_mul_is_commutative(m, k);
    lemma_mul_is_commutative(m, n);
    assert(k < n) by {
        if k >= n {
            lemma_mul_inequality(n, k, m);
        }
    }
    assert((k + 1) * m <= n * m) by {
        lemma_mul_inequality(k + 1, n, m);
    }
    assert((k + 1) * m == k * m + m) by {
        lemma_mul_is_distributive_add_other_way(m, k, 1);
    }
    if r + 1 < m {
        lemma_fundamental_div_mod_converse_mod(q + 1, m, k, r + 1);
    } else {
        lemma_fundamental_div_mod_converse_mod(q + 1, m, k + 1, 0);
    }
}

/// How the digits of a word are read off its masked form: a digit is the
/// masked digit at its place combined with the masked digit above, and at
/// the top of a chunk it is the masked digit itself.
pub proof fn lemma_masked_neighbours(v: nat, m: nat, w: nat, q: nat)
    requires
        m > 0,
        w % m == 0,
        q < w,
    ensures
        ({
            let s = encode_bits(to_bits(v, w), m);
            bit(v, q) == (if (q + 1) % m != 0 {
                s[q as int] != s[q as int + 1]
            } else {
                s[q as int]
            })
        }),
{
    let s = encode_bits(to_bits(v, w), m);
    lemma_decode_encode_bits(to_bits(v, w), m);
    lemma_chunk_end_aligned(q as int, m as int, w as int);
    assert(decode_bits(s, m)[q as int] == to_bits(v, w)[q as int]);
}

/// The selector bits of a word are the digits of its masked form.
pub proof fn lemma_selector_bits(v: nat, m: nat, w: nat, q: nat)
    requires
        q < w,
    ensures
        selector_bits(v, m, w)[w - 1 - q] == encode_bits(to_bits(v, w), m)[q as int],
{
    lemma_bit_from_bits(encode_bits(to_bits(v, w), m), q);
}

/// Where every word of `code` is a single digit, combining neighbours is the
/// unmasking of one chunk.
pub proof fn lemma_xor_neighbours_digits(code: Seq<usize>)
    requires
        all_digits(code),
    ensures
        all_digits(xor_neighbours(code)),
        as_bools(xor_neighbours(code)) == decode_bits(as_bools(code), code.len()),
{
    let x = xor_neighbours(code);
    let n = code.len() as int;
    assert forall|i: int| 0 <= i < n implies #[trigger] x[i] <= 1 && (x[i] != 0) == decode_bits(
        as_bools(code),
        code.len(),
    )[i] by {
        lemma_small_mod(i as nat, n as nat);
        assert(chunk_end(i, n, n) == n);
        if i + 1 < n {
            lemma_xor_digits(code[i], code[i + 1]);
        }
    }
    assert(as_bools(x) =~= decode_bits(as_bools(code), code.len()));
}

/// Joining a digit at position `k` onto a number below `2^k`.
proof fn lemma_or_digit(n: usize, b: usize, k: usize)
    requires
        k < usize::BITS,
        n < pow2(k as nat),
        b <= 1,
    ensures
        n | (b << k) == n + b * pow2(k as nat),
        n + b * pow2(k as nat) <= usize::MAX,
{
    vstd::bits::lemma_usize_pow2_no_overflow(k as nat);
    vstd::bits::lemma_usize_shl_is_mul(1, k);
    let one = 1usize << k;
    assert(n + pow2(k as nat) <= usize::MAX) by {
        lemma_pow2_unfold((k + 1) as nat);
        if k + 1 < usize::BITS {
            vstd::bits::lemma_usize_pow2_no_overflow((k + 1) as nat);
        } else {
            lemma2_to64();
        }
    }
    if b == 0 {
        assert(0usize << k == 0) by (bit_vector);
        assert(n | 0 == n) by (bit_vector);
    } else {
        assert(n < one ==> (n | one) == n + one) by (bit_vector)
            requires
                one == 1usize << k,
        ;
    }
}

/// Where every word of `s` is a single digit, joining the shifted words
/// writes the number with those digits.
pub proof fn lemma_or_shifted_digits(s: Seq<usize>, k: nat)
    requires
        all_digits(s),
        k <= s.len(),
        k <= usize::BITS,
    ensures
        or_shifted(s, k) == from_bits(as_bools(s).subrange(0, k as int)),
    decreases k,
{
    let b = as_bools(s).subrange(0, k as int);
    if k > 0 {
        let j = (k - 1) as nat;
        lemma_or_shifted_digits(s, j);
        assert(b.drop_last() =~= as_bools(s).subrange(0, j as int));
        lemma_from_bits_bound(b.drop_last());
        lemma_or_digit(or_shifted(s, j), s[j as int], j as usize);
        assert(s[j as int] <= 1);
    }
}

/// The masked digits of one chunk: entry `i` is the exclusive or of the
/// binary digits `i..chunk_size` of `input`.
pub fn masked_bit_extraction(input: usize, chunk_size: usize) -> (result: Vec<usize>)
    ensures
        result.len() == chunk_size,
        all_digits(result@),
        as_bools(result@) == encode_bits(to_bits(input as nat, chunk_size as nat), chunk_size as nat),
{
    let ghost s = to_bits(input as nat, chunk_size as nat);
    let mut result: Vec<usize> = vec![0; chunk_size];
    let mut i: usize = 0;
    while i < chunk_size
        invariant
            i <= chunk_size,
            result.len() == chunk_size,
            s == to_bits(input as nat, chunk_size as nat),
            forall|k: int| 0 <= k < i ==> #[trigger] result[k] <= 1 && (result[k] != 0) == parity(
                s,
                k,
                chunk_size as int,
            ),
        decreases chunk_size - i,
    {
        let mut xor_sum: usize = bit_at(input as u64, i as u64) as usize;
        proof {
            assert(parity(s, i as int, i + 1) == s[i as int]) by {
                assert(parity(s, i + 1, i + 1) == false);
            }
        }
        let mut j: usize = i + 1;
        while j < chunk_size
            invariant
                i < j <= chunk_size,
                s == to_bits(input as nat, chunk_size as nat),
                xor_sum <= 1,
                (xor_sum != 0) == parity(s, i as int, j as int),
            decreases chunk_size - j,
        {
            let b = bit_at(input as u64, j as u64) as usize;
            proof {
                lemma_xor_digits(xor_sum, b);
                lemma_parity_extend(s, i as int, j as int);
            }
            xor_sum ^= b;
            j += 1;
        }
        result.set(i, xor_sum);
        i += 1;
    }
    proof {
        let e = encode_bits(s, chunk_size as nat);
        assert forall|k: int| 0 <= k < chunk_size implies as_bools(result@)[k] == e[k] by {
            if chunk_size > 0 {
                lemma_small_mod(k as nat, chunk_size as nat);
            }
        }
        assert(as_bools(result@) =~= e);
    }
    result
}

/// Undoes the masking of one chunk: each entry is combined with its upper
/// neighbour by exclusive or, the last entry is kept.
pub fn masked_bit_extraction_decode(code: &[usize]) -> (bits: Vec<usize>)
    ensures
        bits@ == xor_neighbours(code@),
        all_digits(code@) ==> all_digits(bits@) && as_bools(bits@) == decode_bits(
            as_bools(code@),
            code@.len(),
        ),
{
    let n = code.len();
    let mut bits: Vec<usize> = vec![0; n];
    if n == 0 {
        proof {
            assert(bits@ =~= xor_neighbours(code@));
            assert(as_bools(bits@) =~= decode_bits(as_bools(code@), code@.len()));
        }
        return bits;
    }
    let mut i: usize = 0;
    while i < n - 1
        invariant
            n == code.len(),
            n > 0,
            i <= n - 1,
            bits.len() == n,
            forall|k: int| 0 <= k < i ==> bits[k] == code[k] ^ code[k + 1],
        decreases n - i,
    {
        bits.set(i, code[i] ^ code[i + 1]);
        i += 1;
    }
    bits.set(n - 1, code[n - 1]);
    proof {
        assert(bits@ =~= xor_neighbours(code@));
        if all_digits(code@) {
            lemma_xor_neighbours_digits(code@);
        }
    }
    bits
}

/// The masked form of the lowest `total_bits` digits of `input`, taken in
/// chunks of `chunk_size` digits from the low end.
pub fn masking_chunk_msb(input: usize, chunk_size: usize, total_bits: usize) -> (masked: usize)
    requires
        chunk_size > 0,
        total_bits <= usize::BITS,
    ensures
        masked == mask_encode(input as nat, chunk_size as nat, total_bits as nat),
{
    let ghost s = to_bits(input as nat, total_bits as nat);
    let ghost e = encode_bits(s, chunk_size as nat);
    let mut output_bits: Vec<usize> = Vec::new();
    let mut shift: usize = 0;
    while shift < total_bits
        invariant
            chunk_size > 0,
            total_bits <= usize::BITS,
            shift <= total_bits,
            shift % chunk_size == 0 || shift == total_bits,
            s == to_bits(input as nat, total_bits as nat),
            e == encode_bits(s, chunk_size as nat),
            output_bits.len() == shift,
            all_digits(output_bits@),
            as_bools(output_bits@) == e.subrange(0, shift as int),
        decreases total_bits - shift,
    {
        let rest = total_bits - shift;
        let bits_in_chunk = if chunk_size < rest {
            chunk_size
        } else {
            rest
        };
        let chunk_value = low_bits(shift_down(input as u64, shift as u64), bits_in_chunk as u64);
        proof {
            lemma_pow2_pos(bits_in_chunk as nat);
            lemma_mod_bound(
                (input as nat / pow2(shift as nat)) as int,
                pow2(bits_in_chunk as nat) as int,
            );
            lemma_fits_usize(chunk_value as nat, bits_in_chunk as nat);
        }
        let encoded = masked_bit_extraction(chunk_value as usize, bits_in_chunk);
        let ghost before = output_bits@;
        let ghost t = to_bits(chunk_value as nat, bits_in_chunk as nat);
        proof {
            assert forall|j: int| 0 <= j < bits_in_chunk implies t[j] == s[shift + j] by {
                lemma_bit_of_mod(
                    input as nat / pow2(shift as nat),
                    bits_in_chunk as nat,
                    j as nat,
                );
                lemma_bit_of_div(input as nat, shift as nat, j as nat);
            }
            assert forall|i: int| 0 <= i < bits_in_chunk implies (encoded[i] != 0) == e[shift
                + i] by {
                lemma_chunk_end_at(shift as int, i, chunk_size as int, total_bits as int);
                lemma_small_mod(i as nat, bits_in_chunk as nat);
                lemma_parity_shift(s, t, i, bits_in_chunk as int, shift as int);
                assert(as_bools(encoded@)[i] == encode_bits(t, bits_in_chunk as nat)[i]);
            }
        }
        let mut i: usize = 0;
        while i < bits_in_chunk
            invariant
                i <= bits_in_chunk,
                encoded.len() == bits_in_chunk,
                all_digits(encoded@),
                output_bits@ == before + encoded@.subrange(0, i as int),
            decreases bits_in_chunk - i,
        {
            output_bits.push(encoded[i]);
            proof {
                assert(output_bits@ =~= before + encoded@.subrange(0, i + 1));
            }
            i += 1;
        }
        proof {
            assert(encoded@.subrange(0, bits_in_chunk as int) =~= encoded@);
            assert(as_bools(output_bits@) =~= e.subrange(0, shift + bits_in_chunk));
            if chunk_size < rest {
                lemma_mod_adds(shift as int, chunk_size as int, chunk_size as int);
                lemma_mod_self_0(chunk_size as int);
            }
        }
        if chunk_size < rest {
            shift += chunk_size;
        } else {
            shift = total_bits;
        }
    }
    proof {
        assert(e.subrange(0, total_bits as int) =~= e);
    }
    vec_to_usize(output_bits.as_slice())
}

/// The word whose masked form is given by the lowest `total_bits` digits of
/// `encoded`, with chunks of `chunk_size` digits from the low end.
pub fn masking_chunk_msb_decode(encoded: usize, chunk_size: usize, total_bits: usize) -> (plain:
    usize)
    requires
        chunk_size > 0,
        total_bits <= usize::BITS,
    ensures
        plain == mask_decode(encoded as nat, chunk_size as nat, total_bits as nat),
{
    let output_bits = usize_to_vec(encoded, total_bits);
    let ghost c = to_bits(encoded as nat, total_bits as nat);
    let ghost d = decode_bits(c, chunk_size as nat);
    let mut input_bits: Vec<usize> = Vec::new();
    let mut offset: usize = 0;
    while offset < total_bits
        invariant
            chunk_size > 0,
            total_bits <= usize::BITS,
            offset <= total_bits,
            offset % chunk_size == 0 || offset == total_bits,
            output_bits.len() == total_bits,
            all_digits(output_bits@),
            as_bools(output_bits@) == c,
            d == decode_bits(c, chunk_size as nat),
            input_bits.len() == offset,
            all_digits(input_bits@),
            as_bools(input_bits@) == d.subrange(0, offset as int),
        decreases total_bits - offset,
    {
        let rest = total_bits - offset;
        let bits_in_chunk = if chunk_size < rest {
            chunk_size
        } else {
            rest
        };
        let code_slice = slice_subrange(output_bits.as_slice(), offset, offset + bits_in_chunk);
        let decoded_chunk = masked_bit_extraction_decode(code_slice);
        let ghost before = input_bits@;
        proof {
            assert(all_digits(code_slice@)) by {
                assert forall|i: int| 0 <= i < code_slice@.len() implies #[trigger] code_slice@[i]
                    <= 1 by {
                    assert(code_slice@[i] == output_bits@[offset + i]);
                }
            }
            let cc = as_bools(code_slice@);
            assert forall|i: int| 0 <= i < bits_in_chunk implies (decoded_chunk[i] != 0) == d[offset
                + i] by {
                lemma_chunk_end_at(offset as int, i, chunk_size as int, total_bits as int);
                lemma_small_mod(i as nat, bits_in_chunk as nat);
                assert(chunk_end(i, bits_in_chunk as int, bits_in_chunk as int) == bits_in_chunk);
                assert(as_bools(decoded_chunk@)[i] == decode_bits(cc, bits_in_chunk as nat)[i]);
                assert(cc[i] == c[offset + i]);
                if i + 1 < bits_in_chunk {
                    assert(cc[i + 1] == c[offset + i + 1]);
                }
            }
        }
        let mut i: usize = 0;
        while i < bits_in_chunk
            invariant
                i <= bits_in_chunk,
                decoded_chunk.len() == bits_in_chunk,
                all_digits(decoded_chunk@),
                input_bits@ == before + decoded_chunk@.subrange(0, i as int),
            decreases bits_in_chunk - i,
        {
            input_bits.push(decoded_chunk[i]);
            proof {
                assert(input_bits@ =~= before + decoded_chunk@.subrange(0, i + 1));
            }
            i += 1;
        }
        proof {
            assert(decoded_chunk@.subrange(0, bits_in_chunk as int) =~= decoded_chunk@);
            assert(as_bools(input_bits@) =~= d.subrange(0, offset + bits_in_chunk));
            if chunk_size < rest {
                lemma_mod_adds(offset as int, chunk_size as int, chunk_size as int);
                lemma_mod_self_0(chunk_size as int);
            }
        }
        if chunk_size < rest {
            offset += chunk_size;
        } else {
            offset = total_bits;
        }
    }
    proof {
        assert(d.subrange(0, total_bits as int) =~= d);
    }
    vec_to_usize(input_bits.as_slice())
}

/// The lowest `len` binary digits of `n`, least significant first.
pub fn usize_to_vec(n: usize, len: usize) -> (bits: Vec<usize>)
    ensures
        bits.len() == len,
        all_digits(bits@),
        as_bools(bits@) == to_bits(n as nat, len as nat),
{
    let mut bits: Vec<usize> = vec![0; len];
    let mut i: usize = 0;
    while i < len
        invariant
            i <= len,
            bits.len() == len,
            forall|k: int| 0 <= k < i ==> #[trigger] bits[k] == digit(bit(n as nat, k as nat)),
            forall|k: int| i <= k < len ==> #[trigger] bits[k] == 0,
        decreases len - i,
    {
        bits.set(i, bit_at(n as u64, i as u64) as usize);
        i += 1;
    }
    proof {
        assert(as_bools(bits@) =~= to_bits(n as nat, len as nat));
    }
    bits
}

/// The word written by `bits`, least significant first: each entry is shifted
/// up by its position and joined to the rest by inclusive or. Where every entry
/// is a single digit, this is the number with those binary digits.
pub fn vec_to_usize(bits: &[usize]) -> (n: usize)
    requires
        bits.len() <= usize::BITS,
    ensures
        n == or_shifted(bits@, bits@.len()),
        all_digits(bits@) ==> n == from_bits(as_bools(bits@)),
{
    let mut n: usize = 0;
    let mut i: usize = 0;
    while i < bits.len()
        invariant
            i <= bits.len(),
            bits.len() <= usize::BITS,
            n == or_shifted(bits@, i as nat),
        decreases bits.len() - i,
    {
        n |= bits[i] << i;
        i += 1;
    }
    proof {
        if all_digits(bits@) {
            lemma_or_shifted_digits(bits@, bits@.len());
            assert(as_bools(bits@).subrange(0, bits@.len() as int) =~= as_bools(bits@));
        }
    }
    n
}

} // verus!
