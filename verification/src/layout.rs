//! The chunk layout of a register: a word of `w` binary digits is held as
//! `ceil(w / m)` chunks of `m` digits each, the most significant chunk first.

use vstd::arithmetic::div_mod::*;
use vstd::arithmetic::mul::*;
use vstd::arithmetic::power2::*;
use vstd::prelude::*;

verus! {

/// How many chunks of `m` digits hold a word of `w` digits.
pub open spec fn chunk_count(w: nat, m: nat) -> nat {
    ((w + m - 1) / (m as int)) as nat
}

/// The chunk at place `p`, counted from the most significant end, when `v`
/// is cut into `n` chunks of `m` digits.
pub open spec fn chunk_of(v: nat, p: nat, n: nat, m: nat) -> nat {
    (v / pow2(((n - 1 - p) * m) as nat)) % pow2(m)
}

/// The `n` chunks of `v`, most significant first.
pub open spec fn split_high_to_low(v: nat, n: nat, m: nat) -> Seq<nat> {
    Seq::new(n, |p: int| chunk_of(v, p as nat, n, m))
}

/// The chunks of the lowest `w` digits of `v`, most significant first.
pub open spec fn split_value(v: nat, w: nat, m: nat) -> Seq<nat> {
    split_high_to_low(v % pow2(w), chunk_count(w, m), m)
}

/// The word made of `chunks`, most significant first, each of `m` digits.
pub open spec fn recombine(chunks: Seq<nat>, m: nat) -> nat
    decreases chunks.len(),
{
    if chunks.len() == 0 {
        0
    } else {
        recombine(chunks.drop_last(), m) * pow2(m) + chunks.last()
    }
}

/// Every entry of `chunks` has at most `m` digits.
pub open spec fn chunks_fit(chunks: Seq<nat>, m: nat) -> bool {
    forall|p: int| 0 <= p < chunks.len() ==> #[trigger] chunks[p] < pow2(m)
}

/// The chunks of a word fit, and there are `n` of them.
pub proof fn lemma_split_fits(v: nat, n: nat, m: nat)
    ensures
        split_high_to_low(v, n, m).len() == n,
        chunks_fit(split_high_to_low(v, n, m), m),
{
    lemma_pow2_pos(m);
    assert forall|p: int| 0 <= p < n implies #[trigger] split_high_to_low(v, n, m)[p] < pow2(
        m,
    ) by {
        lemma_mod_bound((v / pow2(((n - 1 - p) * m) as nat)) as int, pow2(m) as int);
    }
}

/// Putting the `n` chunks of `v` together again gives `v` modulo `2^(n*m)`.
pub proof fn lemma_recombine_split(v: nat, n: nat, m: nat)
    ensures
        recombine(split_high_to_low(v, n, m), m) == v % pow2(n * m),
    decreases n,
{
    let s = split_high_to_low(v, n, m);
    if n == 0 {
        lemma2_to64();
    } else {
        let k = (n - 1) as nat;
        let u = v / pow2(m);
        lemma_pow2_pos(m);
        lemma_pow2_pos(k * m);
        assert(s.drop_last() =~= split_high_to_low(u, k, m)) by {
            assert forall|p: int| 0 <= p < k implies s[p] == chunk_of(u, p as nat, k, m) by {
                let e = ((k - 1 - p) * m) as nat;
                assert((n - 1 - p) * m == m + e) by (nonlinear_arith)
                    requires
                        e == (k - 1 - p) * m,
                        k == n - 1,
                ;
                lemma_pow2_adds(m, e);
                lemma_pow2_pos(e);
                lemma_div_denominator(v as int, pow2(m) as int, pow2(e) as int);
            }
        }
        assert(s.last() == v % pow2(m)) by {
            assert(s.last() == chunk_of(v, k, n, m));
            assert(((n - 1 - k) * m) as nat == 0nat) by (nonlinear_arith)
                requires
                    k == n - 1,
            ;
            assert(pow2(0) == 1) by {
                lemma2_to64();
            }
            assert(v as int / 1 == v);
        }
        lemma_recombine_split(u, k, m);
        assert(n * m == m + k * m) by (nonlinear_arith)
            requires
                k == n - 1,
        ;
        lemma_pow2_adds(m, k * m);
        lemma_mod_breakdown(v as int, pow2(m) as int, pow2(k * m) as int);
        lemma_mul_is_commutative(pow2(m) as int, (u % pow2(k * m)) as int);
    }
}

/// The chunks of a word cover all its digits.
pub proof fn lemma_chunks_cover(w: nat, m: nat)
    requires
        m > 0,
    ensures
        w <= chunk_count(w, m) * m,
        chunk_count(w, m) * m < w + m,
        w % m == 0 ==> chunk_count(w, m) * m == w,
{
    let x = (w + m - 1) as int;
    lemma_fundamental_div_mod(x, m as int);
    lemma_mod_bound(x, m as int);
    lemma_mul_is_commutative(m as int, x / (m as int));
    if w % m == 0 {
        lemma_fundamental_div_mod(w as int, m as int);
        lemma_mul_is_commutative(m as int, w as int / (m as int));
        lemma_fundamental_div_mod_converse_div(x, m as int, w as int / (m as int), m - 1);
    }
}

/// Cutting a word of `w` digits into chunks and putting them together again
/// gives the word back, for every chunk size.
pub proof fn lemma_split_recombine_round_trip(v: nat, w: nat, m: nat)
    requires
        m > 0,
    ensures
        recombine(split_value(v, w, m), m) == v % pow2(w),
{
    let n = chunk_count(w, m);
    let x = v % pow2(w);
    lemma_recombine_split(x, n, m);
    lemma_chunks_cover(w, m);
    lemma_pow2_pos(w);
    lemma_mod_bound(v as int, pow2(w) as int);
    if w < n * m {
        lemma_pow2_strictly_increases(w, n * m);
    }
    lemma_small_mod(x, pow2(n * m));
}

} // verus!
