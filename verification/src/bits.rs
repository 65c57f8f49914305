//! Binary digits of natural numbers, and how the machine's shifts and masks
//! read and write them.

use vstd::arithmetic::div_mod::*;
use vstd::arithmetic::mul::*;
use vstd::arithmetic::power2::*;
use vstd::prelude::*;

verus! {

/// The binary digit of `v` at position `i`, counted from the least
/// significant end.
pub open spec fn bit(v: nat, i: nat) -> bool {
    (v / pow2(i)) % 2 == 1
}

/// `1` for a set digit and `0` for a clear one.
pub open spec fn digit(b: bool) -> nat {
    if b {
        1
    } else {
        0
    }
}

/// The number whose binary digits, least significant first, are `s`.
pub open spec fn from_bits(s: Seq<bool>) -> nat
    decreases s.len(),
{
    if s.len() == 0 {
        0
    } else {
        from_bits(s.drop_last()) + digit(s.last()) * pow2((s.len() - 1) as nat)
    }
}

/// The lowest `n` binary digits of `v`, least significant first.
pub open spec fn to_bits(v: nat, n: nat) -> Seq<bool> {
    Seq::new(n, |i: int| bit(v, i as nat))
}

/// Every entry of `s` is `0` or `1`.
pub open spec fn all_digits(s: Seq<usize>) -> bool {
    forall|i: int| 0 <= i < s.len() ==> #[trigger] s[i] <= 1
}

/// The digits of `s` read as truth values.
pub open spec fn as_bools(s: Seq<usize>) -> Seq<bool> {
    Seq::new(s.len(), |i: int| s[i] != 0)
}

/// A number made of `n` digits is below `2^n`.
pub proof fn lemma_from_bits_bound(s: Seq<bool>)
    ensures
        from_bits(s) < pow2(s.len()),
    decreases s.len(),
{
    if s.len() == 0 {
        lemma2_to64();
    } else {
        lemma_from_bits_bound(s.drop_last());
        lemma_pow2_unfold(s.len());
    }
}

/// Adding a digit above all the digits of `x` leaves the lower digits alone.
proof fn lemma_bit_add_high(x: nat, d: bool, k: nat, i: nat)
    requires
        x < pow2(k),
    ensures
        bit(x + digit(d) * pow2(k), i) == (if i < k {
            bit(x, i)
        } else {
            i == k && d
        }),
{
    let y = x + digit(d) * pow2(k);
    lemma_pow2_pos(i);
    lemma_pow2_pos(k);
    if i < k {
        let t = pow2((k - i - 1) as nat);
        lemma_pow2_adds(i, (k - i) as nat);
        lemma_pow2_unfold((k - i) as nat);
        let j = digit(d) * (2 * t);
        assert(j * pow2(i) == digit(d) * pow2(k)) by {
            lemma_mul_is_associative(digit(d) as int, (2 * t) as int, pow2(i) as int);
            lemma_mul_is_commutative((2 * t) as int, pow2(i) as int);
        }
        lemma_hoist_over_denominator(x as int, j as int, pow2(i));
        assert(y as int / pow2(i) as int == x as int / pow2(i) as int + 2 * (digit(d) * t)) by {
            lemma_mul_is_associative(digit(d) as int, 2, t as int);
            lemma_mul_is_commutative(digit(d) as int, 2);
            lemma_mul_is_associative(2, digit(d) as int, t as int);
        }
    } else if i == k {
        lemma_fundamental_div_mod_converse(y as int, pow2(k) as int, digit(d) as int, x as int);
    } else {
        lemma_pow2_unfold((k + 1) as nat);
        if k + 1 < i {
            lemma_pow2_strictly_increases((k + 1) as nat, i);
        }
        lemma_basic_div(y as int, pow2(i) as int);
    }
}

/// The digit of `from_bits(s)` at position `i` is `s[i]`, and clear beyond
/// the end of `s`.
pub proof fn lemma_bit_from_bits(s: Seq<bool>, i: nat)
    ensures
        bit(from_bits(s), i) == (i < s.len() && s[i as int]),
    decreases s.len(),
{
    if s.len() == 0 {
        lemma_pow2_pos(i);
        lemma_basic_div(0, pow2(i) as int);
    } else {
        let k = (s.len() - 1) as nat;
        lemma_from_bits_bound(s.drop_last());
        lemma_bit_add_high(from_bits(s.drop_last()), s.last(), k, i);
        if i < k {
            lemma_bit_from_bits(s.drop_last(), i);
        }
    }
}

/// Reading back the digits of `from_bits(s)` gives `s`.
pub proof fn lemma_to_bits_from_bits(s: Seq<bool>)
    ensures
        to_bits(from_bits(s), s.len()) == s,
{
    assert forall|i: int| 0 <= i < s.len() implies to_bits(from_bits(s), s.len())[i] == s[i] by {
        lemma_bit_from_bits(s, i as nat);
    }
    assert(to_bits(from_bits(s), s.len()) =~= s);
}

/// The lowest `n` digits of `v` make up `v` modulo `2^n`.
pub proof fn lemma_from_bits_to_bits(v: nat, n: nat)
    ensures
        from_bits(to_bits(v, n)) == v % pow2(n),
    decreases n,
{
    if n == 0 {
        lemma2_to64();
    } else {
        let m = (n - 1) as nat;
        assert(to_bits(v, n).drop_last() =~= to_bits(v, m));
        lemma_from_bits_to_bits(v, m);
        lemma_pow2_pos(m);
        lemma_pow2_unfold(n);
        lemma_mod_breakdown(v as int, pow2(m) as int, 2);
        lemma_mul_is_commutative(pow2(m) as int, 2);
        lemma_mul_is_commutative(pow2(m) as int, ((v / pow2(m)) % 2) as int);
    }
}

/// Reducing modulo `2^n` clears the digits from position `n` on.
pub proof fn lemma_bit_of_mod(v: nat, n: nat, i: nat)
    ensures
        bit(v % pow2(n), i) == (i < n && bit(v, i)),
{
    lemma_from_bits_to_bits(v, n);
    lemma_bit_from_bits(to_bits(v, n), i);
}

/// Dividing by `2^s` moves every digit down by `s` positions.
pub proof fn lemma_bit_of_div(v: nat, s: nat, i: nat)
    ensures
        bit(v / pow2(s), i) == bit(v, s + i),
{
    lemma_pow2_pos(s);
    lemma_pow2_pos(i);
    lemma_pow2_adds(s, i);
    lemma_div_denominator(v as int, pow2(s) as int, pow2(i) as int);
}

/// A number of at most as many digits as a machine word has fits in one.
pub proof fn lemma_fits_usize(v: nat, n: nat)
    requires
        v < pow2(n),
        n <= usize::BITS,
    ensures
        v <= usize::MAX,
{
    if n < usize::BITS {
        vstd::bits::lemma_usize_pow2_no_overflow(n);
    } else {
        lemma2_to64();
    }
}

/// `2^n` as a machine word.
pub fn pow2_u64(n: u64) -> (r: u64)
    requires
        n < 64,
    ensures
        r == pow2(n as nat),
{
    proof {
        vstd::bits::lemma_u64_pow2_no_overflow(n as nat);
        vstd::bits::lemma_u64_shl_is_mul(1, n);
    }
    1u64 << n
}

/// The digits of `x` from position `shift` on: `x / 2^shift`.
pub fn shift_down(x: u64, shift: u64) -> (r: u64)
    ensures
        r == x as nat / pow2(shift as nat),
{
    if shift >= 64 {
        proof {
            lemma2_to64();
            if shift > 64 {
                lemma_pow2_strictly_increases(64, shift as nat);
            }
            lemma_basic_div(x as int, pow2(shift as nat) as int);
        }
        0
    } else {
        proof {
            vstd::bits::lemma_u64_shr_is_div(x, shift);
        }
        x >> shift
    }
}

/// The lowest `n` digits of `x`: `x mod 2^n`.
pub fn low_bits(x: u64, n: u64) -> (r: u64)
    ensures
        r == x as nat % pow2(n as nat),
{
    if n >= 64 {
        proof {
            lemma2_to64();
            if n > 64 {
                lemma_pow2_strictly_increases(64, n as nat);
            }
            lemma_small_mod(x as nat, pow2(n as nat));
        }
        x
    } else {
        proof {
            lemma_pow2_pos(n as nat);
        }
        let mask = pow2_u64(n) - 1;
        proof {
            vstd::bits::lemma_u64_low_bits_mask_is_mod(x, n as nat);
            vstd::bits::lemma_u64_pow2_no_overflow(n as nat);
        }
        x & mask
    }
}

/// The digits of `x` moved up by `shift` places, those that leave the word
/// dropped: `x * 2^shift` modulo `2^64`.
pub fn shift_up(x: u64, shift: u64) -> (r: u64)
    requires
        shift < 64,
    ensures
        r == (x as nat * pow2(shift as nat)) % pow2(64),
{
    if shift == 0 {
        proof {
            lemma2_to64();
            lemma_small_mod(x as nat, pow2(64));
        }
        x
    } else {
        let kept = low_bits(x, 64 - shift);
        proof {
            let b = pow2(shift as nat) as int;
            let c = pow2((64 - shift) as nat) as int;
            lemma_pow2_pos(shift as nat);
            lemma_pow2_pos((64 - shift) as nat);
            lemma_pow2_adds(shift as nat, (64 - shift) as nat);
            lemma2_to64();
            lemma_truncate_middle(x as int, b, c);
            lemma_mod_bound(x as int, c);
            lemma_mul_strict_inequality(kept as int, c, b);
            lemma_mul_is_commutative(c, b);
            lemma_mul_is_commutative(kept as int, b);
            lemma_mul_is_commutative(x as int, b);
            lemma_mul_nonnegative(kept as int, b);
            vstd::bits::lemma_u64_pow2_no_overflow(shift as nat);
        }
        kept * pow2_u64(shift)
    }
}

/// Reads one binary digit of a machine word.
pub fn bit_at(x: u64, i: u64) -> (r: u64)
    ensures
        r == digit(bit(x as nat, i as nat)),
{
    let y = shift_down(x, i);
    let r = y & 1;
    proof {
        assert(y & 1 == y % 2) by (bit_vector);
    }
    r
}

/// The difference of two words modulo `2^64`.
pub open spec fn word_sub(x: nat, y: nat) -> nat {
    ((x - y) % (pow2(64) as int)) as nat
}

/// The sum of two words modulo `2^64`.
pub open spec fn word_add(x: nat, y: nat) -> nat {
    (x + y) % pow2(64)
}

/// The machine's wrapping difference is the difference modulo `2^64`.
pub proof fn lemma_word_sub(x: u64, y: u64)
    ensures
        x.wrapping_sub(y) == word_sub(x as nat, y as nat),
{
    lemma2_to64();
    if x >= y {
        lemma_small_mod((x - y) as nat, pow2(64));
    } else {
        lemma_fundamental_div_mod_converse_mod(x - y, pow2(64) as int, -1, pow2(64) + x - y);
    }
}

/// The machine's wrapping sum is the sum modulo `2^64`.
pub proof fn lemma_word_add(x: u64, y: u64)
    ensures
        x.wrapping_add(y) == word_add(x as nat, y as nat),
{
    lemma2_to64();
    if x + y < pow2(64) {
        lemma_small_mod((x + y) as nat, pow2(64));
    } else {
        lemma_fundamental_div_mod_converse_mod(x + y, pow2(64) as int, 1, x + y - pow2(64));
    }
}

/// On single digits, the machine's exclusive or is inequality.
pub proof fn lemma_xor_digits(a: usize, b: usize)
    requires
        a <= 1,
        b <= 1,
    ensures
        a ^ b <= 1,
        (a ^ b != 0) == ((a != 0) != (b != 0)),
{
    assert(a <= 1 && b <= 1 ==> (a ^ b) <= 1 && ((a ^ b != 0) == ((a != 0) != (b != 0))))
        by (bit_vector);
}

} // verus!
