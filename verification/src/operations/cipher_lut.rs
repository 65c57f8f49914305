//! The polynomial side of the table compiler: the tables of one operation
//! scaled into polynomial coefficients, several tables sharing one
//! polynomial where its size allows.

use crate::operations::operation::{floor_log2, packing_ready};
use crate::primitives::{
    selector_glwe_size, selector_polynomial_size, vertical_pack, vertical_packing_value,
    SelectorBits,
};
use tfhe::core_crypto::prelude::Fft;
use vstd::arithmetic::div_mod::*;
use vstd::arithmetic::mul::*;
use vstd::prelude::*;

verus! {

/// Every table has `len` entries.
pub open spec fn same_length(tables: Seq<Vec<usize>>, len: nat) -> bool {
    forall|t: int| 0 <= t < tables.len() ==> (#[trigger] tables[t]).len() == len
}

/// Every entry of every table, scaled by `delta`, fits in a coefficient.
pub open spec fn scalable(tables: Seq<Vec<usize>>, delta: u64) -> bool {
    forall|t: int, j: int|
        0 <= t < tables.len() && 0 <= j < tables[t].len() ==> #[trigger] tables[t][j] * delta
            <= u64::MAX
}

/// How many tables of `len` entries one polynomial of `n` coefficients holds.
pub open spec fn pack_capacity(n: nat, len: nat) -> nat {
    n / len
}

/// How many tables share a polynomial: the capacity, or one where a table
/// is larger than a polynomial.
pub open spec fn pack_factor(n: nat, len: nat) -> nat {
    if pack_capacity(n, len) < 1 {
        1
    } else {
        pack_capacity(n, len)
    }
}

/// How many polynomial lists hold `total` tables.
pub open spec fn group_count(total: nat, n: nat, len: nat) -> nat {
    let cap = pack_factor(n, len);
    ((total + cap - 1) / (cap as int)) as nat
}

/// How many coefficients one polynomial list has: one polynomial where
/// tables are packed, else as many polynomials as one table needs.
pub open spec fn group_length(n: nat, len: nat) -> nat {
    if pack_capacity(n, len) < 1 {
        (((len + n - 1) / (n as int)) * n) as nat
    } else {
        n
    }
}

/// Coefficient `c` of the polynomial list of one table on its own: the
/// scaled entry, and zero beyond the table's end.
pub open spec fn single_coefficient(table: Seq<usize>, delta: u64, c: int) -> int {
    if c < table.len() {
        table[c] * delta
    } else {
        0
    }
}

/// Coefficient `c` of polynomial list `g`. With capacity `cap >= 1`, slot
/// `s` of the list, the coefficients from `s * len` on, holds table
/// `g * cap + s`; what lies beyond the last table is zero.
pub open spec fn packed_coefficient(
    tables: Seq<Vec<usize>>,
    delta: u64,
    n: nat,
    len: nat,
    g: int,
    c: int,
) -> int {
    let cap = pack_capacity(n, len) as int;
    if cap < 1 {
        single_coefficient(tables[g]@, delta, c)
    } else {
        let s = c / (len as int);
        let t = g * cap + s;
        if s < cap && t < tables.len() {
            tables[t][c % (len as int)] * delta
        } else {
            0
        }
    }
}

/// The place of entry `j` of slot `s`.
proof fn lemma_slot_index(s: int, j: int, len: int)
    requires
        0 <= s,
        0 <= j < len,
    ensures
        (s * len + j) / len == s,
        (s * len + j) % len == j,
        0 <= s * len,
{
    lemma_fundamental_div_mod_converse(s * len + j, len, s, j);
    lemma_mul_nonnegative(s, len);
}

/// The scaled coefficients of one table, padded with zeros to whole
/// polynomials of `n` coefficients.
fn scale_single(table: &Vec<usize>, n: usize, delta: u64) -> (flat: Vec<u64>)
    requires
        n > 0,
        table.len() + n <= usize::MAX,
        forall|j: int| 0 <= j < table.len() ==> #[trigger] table[j] * delta <= u64::MAX,
    ensures
        flat.len() == ((table.len() + n - 1) / (n as int)) * n,
        forall|c: int| 0 <= c < flat.len() ==> #[trigger] flat[c] == single_coefficient(
            table@,
            delta,
            c,
        ),
{
    let table_len = table.len();
    let num_poly = (table_len + n - 1) / n;
    proof {
        lemma_fundamental_div_mod((table_len + n - 1) as int, n as int);
        lemma_mod_bound((table_len + n - 1) as int, n as int);
        lemma_mul_is_commutative(n as int, num_poly as int);
    }
    let total = num_poly * n;
    let mut flat: Vec<u64> = Vec::with_capacity(total);
    let mut idx: usize = 0;
    while idx < total
        invariant
            idx <= total,
            table_len == table.len(),
            flat.len() == idx,
            forall|j: int| 0 <= j < table.len() ==> #[trigger] table[j] * delta <= u64::MAX,
            forall|c: int| 0 <= c < idx ==> #[trigger] flat[c] == single_coefficient(
                table@,
                delta,
                c,
            ),
        decreases total - idx,
    {
        let val = if idx < table_len {
            (table[idx] as u64) * delta
        } else {
            0
        };
        flat.push(val);
        idx += 1;
    }
    flat
}

/// One polynomial list per table, without packing: the scaled entries of the
/// table, padded with zeros to whole polynomials.
pub fn generate_lut_from_vecs(tables: &[Vec<usize>], polynomial_size: usize, delta: u64) -> (result:
    Vec<Vec<u64>>)
    requires
        polynomial_size > 0,
        scalable(tables@, delta),
        forall|t: int|
            0 <= t < tables.len() ==> (#[trigger] tables[t]).len() + polynomial_size
                <= usize::MAX,
    ensures
        result.len() == tables.len(),
        forall|t: int|
            0 <= t < result.len() ==> (#[trigger] result[t]).len() == ((tables[t].len()
                + polynomial_size - 1) / (polynomial_size as int)) * polynomial_size,
        forall|t: int, c: int|
            0 <= t < result.len() && 0 <= c < result[t].len() ==> #[trigger] result[t][c]
                == single_coefficient(tables[t]@, delta, c),
{
    let mut result: Vec<Vec<u64>> = Vec::with_capacity(tables.len());
    let mut t: usize = 0;
    while t < tables.len()
        invariant
            t <= tables.len(),
            polynomial_size > 0,
            scalable(tables@, delta),
            forall|u: int|
                0 <= u < tables.len() ==> (#[trigger] tables[u]).len() + polynomial_size
                    <= usize::MAX,
            result.len() == t,
            forall|u: int|
                0 <= u < t ==> (#[trigger] result[u]).len() == ((tables[u].len() + polynomial_size
                    - 1) / (polynomial_size as int)) * polynomial_size,
            forall|u: int, c: int|
                0 <= u < t && 0 <= c < result[u].len() ==> #[trigger] result[u][c]
                    == single_coefficient(tables[u]@, delta, c),
        decreases tables.len() - t,
    {
        proof {
            assert forall|j: int| 0 <= j < tables[t as int].len() implies #[trigger] tables[t as int][j]
                * delta <= u64::MAX by {
                assert(tables@[t as int][j] * delta <= u64::MAX);
            }
        }
        let flat = scale_single(&tables[t], polynomial_size, delta);
        result.push(flat);
        t += 1;
    }
    result
}

/// One polynomial holding up to `cap` tables side by side: slot `s` holds
/// table `first + s`.
fn pack_group(tables: &[Vec<usize>], n: usize, table_len: usize, cap: usize, g: usize, delta: u64)
    -> (flat: Vec<u64>)
    requires
        table_len > 0,
        cap == pack_capacity(n as nat, table_len as nat),
        cap >= 1,
        same_length(tables@, table_len as nat),
        scalable(tables@, delta),
        g * cap < tables.len(),
    ensures
        flat.len() == n,
        forall|c: int| 0 <= c < n ==> #[trigger] flat[c] == packed_coefficient(
            tables@,
            delta,
            n as nat,
            table_len as nat,
            g as int,
            c,
        ),
{
    let total_tables = tables.len();
    let mut flat: Vec<u64> = vec![0u64; n];
    proof {
        lemma_fundamental_div_mod(n as int, table_len as int);
        lemma_mod_bound(n as int, table_len as int);
        lemma_mul_is_commutative(table_len as int, cap as int);
        assert(cap * table_len <= n);
        assert(g * cap >= 0) by {
            lemma_mul_nonnegative(g as int, cap as int);
        }
    }
    let first = g * cap;
    let mut s: usize = 0;
    let mut slot_base: usize = 0;
    while s < cap && first + s < total_tables
        invariant
            s <= cap,
            table_len > 0,
            cap * table_len <= n,
            cap == pack_capacity(n as nat, table_len as nat),
            slot_base == s * table_len,
            first == g * cap,
            first + s <= total_tables,
            total_tables == tables.len(),
            same_length(tables@, table_len as nat),
            scalable(tables@, delta),
            flat.len() == n,
            forall|c: int|
                0 <= c < slot_base ==> #[trigger] flat[c] == packed_coefficient(
                    tables@,
                    delta,
                    n as nat,
                    table_len as nat,
                    g as int,
                    c,
                ),
            forall|c: int| slot_base <= c < n ==> #[trigger] flat[c] == 0,
        decreases cap - s,
    {
        let table = &tables[first + s];
        proof {
            assert(tables@[first + s].len() == table_len);
            assert((s + 1) * table_len <= cap * table_len) by {
                lemma_mul_inequality((s + 1) as int, cap as int, table_len as int);
            }
            assert((s + 1) * table_len == s * table_len + table_len) by {
                lemma_mul_is_distributive_add_other_way(table_len as int, s as int, 1);
            }
        }
        let mut j: usize = 0;
        while j < table_len
            invariant
                j <= table_len,
                table_len > 0,
                s < cap,
                cap == pack_capacity(n as nat, table_len as nat),
                slot_base == s * table_len,
                slot_base + table_len <= n,
                first == g * cap,
                first + s < tables.len(),
                table == tables@[first + s],
                table.len() == table_len,
                same_length(tables@, table_len as nat),
                scalable(tables@, delta),
                flat.len() == n,
                forall|c: int|
                    0 <= c < slot_base + j ==> #[trigger] flat[c] == packed_coefficient(
                        tables@,
                        delta,
                        n as nat,
                        table_len as nat,
                        g as int,
                        c,
                    ),
                forall|c: int| slot_base + j <= c < n ==> #[trigger] flat[c] == 0,
            decreases table_len - j,
        {
            proof {
                lemma_slot_index(s as int, j as int, table_len as int);
                assert(tables@[first + s][j as int] * delta <= u64::MAX);
            }
            flat.set(slot_base + j, (table[j] as u64) * delta);
            j += 1;
        }
        slot_base += table_len;
        s += 1;
    }
    proof {
        assert forall|c: int| slot_base <= c < n implies packed_coefficient(
            tables@,
            delta,
            n as nat,
            table_len as nat,
            g as int,
            c,
        ) == 0 by {
            let q = c / (table_len as int);
            lemma_fundamental_div_mod(c, table_len as int);
            lemma_mod_bound(c, table_len as int);
            lemma_mul_is_commutative(table_len as int, q);
            if q < s {
                lemma_mul_inequality(q + 1, s as int, table_len as int);
                lemma_mul_is_distributive_add_other_way(table_len as int, q, 1);
            }
            assert(q >= s);
        }
    }
    flat
}

/// The polynomial lists of the tables of one operation, and how many tables
/// share a polynomial.
///
/// Where a polynomial of `polynomial_size` coefficients holds at least one
/// whole table, consecutive tables are packed side by side, `capacity` to a
/// polynomial; else every table gets a polynomial list of its own and the
/// factor is one.
pub fn generate_lut_from_vecs_auto(tables: &[Vec<usize>], polynomial_size: usize, delta: u64)
    -> (result: (Vec<Vec<u64>>, usize))
    requires
        tables.len() > 0,
        tables[0].len() > 0,
        same_length(tables@, tables[0].len() as nat),
        polynomial_size > 0,
        scalable(tables@, delta),
        tables[0].len() + polynomial_size <= usize::MAX,
        tables.len() + polynomial_size <= usize::MAX,
    ensures
        result.1 == pack_factor(polynomial_size as nat, tables[0].len() as nat),
        result.0.len() == group_count(
            tables.len() as nat,
            polynomial_size as nat,
            tables[0].len() as nat,
        ),
        forall|g: int|
            0 <= g < result.0.len() ==> (#[trigger] result.0[g]).len() == group_length(
                polynomial_size as nat,
                tables[0].len() as nat,
            ),
        forall|g: int, c: int|
            0 <= g < result.0.len() && 0 <= c < result.0[g].len() ==> #[trigger] result.0[g][c]
                == packed_coefficient(
                tables@,
                delta,
                polynomial_size as nat,
                tables[0].len() as nat,
                g,
                c,
            ),
{
    let table_len = tables[0].len();
    let n = polynomial_size;
    let per_poly_capacity = n / table_len;
    if per_poly_capacity < 1 {
        let mut result: Vec<Vec<u64>> = Vec::with_capacity(tables.len());
        let mut t: usize = 0;
        while t < tables.len()
            invariant
                t <= tables.len(),
                n > 0,
                n == polynomial_size,
                table_len == tables[0].len(),
                table_len + n <= usize::MAX,
                pack_capacity(n as nat, table_len as nat) < 1,
                same_length(tables@, table_len as nat),
                scalable(tables@, delta),
                result.len() == t,
                forall|u: int|
                    0 <= u < t ==> (#[trigger] result[u]).len() == group_length(
                        n as nat,
                        table_len as nat,
                    ),
                forall|u: int, c: int|
                    0 <= u < t && 0 <= c < result[u].len() ==> #[trigger] result[u][c]
                        == packed_coefficient(tables@, delta, n as nat, table_len as nat, u, c),
            decreases tables.len() - t,
        {
            proof {
                assert(tables@[t as int].len() == table_len);
                assert forall|j: int| 0 <= j < tables[t as int].len() implies #[trigger] tables[t as int][j]
                    * delta <= u64::MAX by {
                    assert(tables@[t as int][j] * delta <= u64::MAX);
                }
            }
            let flat = scale_single(&tables[t], n, delta);
            result.push(flat);
            t += 1;
        }
        proof {
            assert(group_count(tables.len() as nat, n as nat, table_len as nat) == tables.len());
        }
        return (result, 1);
    }
    let total_tables = tables.len();
    proof {
        lemma_div_nonincreasing(n as int, table_len as int);
    }
    let num_groups = (total_tables + per_poly_capacity - 1) / per_poly_capacity;
    let mut result: Vec<Vec<u64>> = Vec::with_capacity(num_groups);
    let mut g: usize = 0;
    while g < num_groups
        invariant
            g <= num_groups,
            n == polynomial_size,
            table_len == tables[0].len(),
            table_len > 0,
            per_poly_capacity == pack_capacity(n as nat, table_len as nat),
            per_poly_capacity >= 1,
            total_tables == tables.len(),
            total_tables + per_poly_capacity - 1 <= usize::MAX,
            num_groups == (total_tables + per_poly_capacity - 1) / (per_poly_capacity as int),
            same_length(tables@, table_len as nat),
            scalable(tables@, delta),
            result.len() == g,
            forall|u: int| 0 <= u < g ==> (#[trigger] result[u]).len() == n,
            forall|u: int, c: int|
                0 <= u < g && 0 <= c < n ==> #[trigger] result[u][c] == packed_coefficient(
                    tables@,
                    delta,
                    n as nat,
                    table_len as nat,
                    u,
                    c,
                ),
        decreases num_groups - g,
    {
        proof {
            let x = (total_tables + per_poly_capacity - 1) as int;
            lemma_fundamental_div_mod(x, per_poly_capacity as int);
            lemma_mod_bound(x, per_poly_capacity as int);
            lemma_mul_is_commutative(per_poly_capacity as int, num_groups as int);
            lemma_mul_inequality((g + 1) as int, num_groups as int, per_poly_capacity as int);
            lemma_mul_is_distributive_add_other_way(per_poly_capacity as int, g as int, 1);
        }
        let flat = pack_group(tables, n, table_len, per_poly_capacity, g, delta);
        result.push(flat);
        g += 1;
    }
    (result, per_poly_capacity)
}

/// How many outputs one packed lookup serves: the pack factor, or the
/// number of tables where there are fewer.
pub open spec fn lookup_group_size(pack: nat, total: nat) -> nat {
    if pack < total {
        pack
    } else {
        total
    }
}

/// The polynomial list that serves output `k`.
pub open spec fn output_group(k: nat, pack: nat, total: nat) -> nat {
    k / lookup_group_size(pack, total)
}

/// The coefficient at which the table of output `k` starts in its
/// polynomial list.
pub open spec fn output_offset(k: nat, pack: nat, total: nat, len: nat) -> nat {
    (k % lookup_group_size(pack, total)) * len
}

/// Whatever the pack factor, every output is served: output `k` finds its
/// own table, entry by entry, at its offset in its polynomial list, and the
/// polynomial lists are exactly those that the outputs need.
pub proof fn lemma_packing_serves_every_output(
    tables: Seq<Vec<usize>>,
    delta: u64,
    n: nat,
    len: nat,
    k: nat,
    j: nat,
)
    requires
        len > 0,
        n > 0,
        same_length(tables, len),
        k < tables.len(),
        j < len,
    ensures
        output_group(k, pack_factor(n, len), tables.len()) < group_count(tables.len(), n, len),
        output_offset(k, pack_factor(n, len), tables.len(), len) + j < group_length(n, len),
        packed_coefficient(
            tables,
            delta,
            n,
            len,
            output_group(k, pack_factor(n, len), tables.len()) as int,
            (output_offset(k, pack_factor(n, len), tables.len(), len) + j) as int,
        ) == tables[k as int][j as int] * delta,
{
    let total = tables.len();
    let pack = pack_factor(n, len);
    let cap = pack_capacity(n, len);
    let gs = lookup_group_size(pack, total);
    let g = output_group(k, pack, total);
    let s = k % gs;
    lemma_fundamental_div_mod(k as int, gs as int);
    lemma_mod_bound(k as int, gs as int);
    lemma_mul_is_commutative(gs as int, g as int);
    lemma_slot_index(s as int, j as int, len as int);
    let x = (total + pack - 1) as int;
    lemma_fundamental_div_mod(x, pack as int);
    lemma_mod_bound(x, pack as int);
    lemma_mul_is_commutative(pack as int, x / (pack as int));
    if cap < 1 {
        assert(gs == 1);
        assert(k as int / 1 == k && k as int % 1 == 0);
        assert(g == k && s == 0);
        assert(group_count(total, n, len) == total);
        lemma_fundamental_div_mod((len + n - 1) as int, n as int);
        lemma_mod_bound((len + n - 1) as int, n as int);
        lemma_mul_is_commutative(n as int, (len + n - 1) as int / (n as int));
        assert(0 * len == 0);
    } else {
        lemma_fundamental_div_mod(n as int, len as int);
        lemma_mod_bound(n as int, len as int);
        lemma_mul_is_commutative(len as int, cap as int);
        assert((s + 1) * len <= cap * len) by {
            lemma_mul_inequality((s + 1) as int, cap as int, len as int);
        }
        assert((s + 1) * len == s * len + len) by {
            lemma_mul_is_distributive_add_other_way(len as int, s as int, 1);
        }
        if pack < total {
            assert(g * cap + s == k);
            if g >= x / (pack as int) {
                lemma_mul_inequality(x / (pack as int), g as int, pack as int);
            }
        } else {
            assert(g == 0 && s == k) by {
                lemma_small_mod(k, total);
                lemma_basic_div(k as int, total as int);
            }
            assert(0 * cap == 0);
            lemma_div_pos_is_pos(x, pack as int);
            if x / (pack as int) == 0 {
                assert(x < pack);
            }
        }
    }
}

/// The lookup in one polynomial list: the LWE ciphertext of the entry that
/// the selector bits address, written to `lwe_out`.
pub fn tfhe_vertical_packing_lookup(
    lut: &Vec<u64>,
    lwe_out: &mut Vec<u64>,
    ggsw_list: &SelectorBits,
    fft: &Fft,
    lut_input_size: usize,
)
    requires
        packing_ready(lut.len() as nat, *ggsw_list, *fft),
    ensures
        final(lwe_out)@ == vertical_packing_value(lut@, *ggsw_list, *fft),
        final(lwe_out).len() == (selector_glwe_size(*ggsw_list) - 1) * selector_polynomial_size(
            *ggsw_list,
        ) + 1,
{
    let polynomial_size = ggsw_list.polynomial_size();
    let polynomial_count = lut.len() / polynomial_size;
    proof {
        lemma_fundamental_div_mod(lut.len() as int, polynomial_size as int);
        lemma_mul_is_commutative(polynomial_size as int, polynomial_count as int);
        if polynomial_count == 0 {
            lemma_mul_basics(polynomial_size as int);
        }
    }
    let layers = floor_log2(polynomial_count);
    *lwe_out = vertical_pack(lut, ggsw_list, layers, fft);
}

/// The lookup in each of the polynomial lists in turn, on the same selector
/// bits: output `i` is the lookup in list `i`.
pub fn tfhe_vertical_packing_multi_lookup(
    luts: &Vec<Vec<u64>>,
    lwe_outs: &mut Vec<Vec<u64>>,
    ggsw_list: &SelectorBits,
    fft: &Fft,
    lut_input_size: usize,
)
    requires
        luts.len() == old(lwe_outs).len(),
        forall|i: int|
            0 <= i < luts.len() ==> packing_ready(
                (#[trigger] luts[i]).len() as nat,
                *ggsw_list,
                *fft,
            ),
    ensures
        final(lwe_outs).len() == old(lwe_outs).len(),
        forall|i: int|
            0 <= i < final(lwe_outs).len() ==> (#[trigger] final(lwe_outs)[i])@
                == vertical_packing_value(luts[i]@, *ggsw_list, *fft),
        forall|i: int|
            0 <= i < final(lwe_outs).len() ==> (#[trigger] final(lwe_outs)[i]).len() == (
            selector_glwe_size(*ggsw_list) - 1) * selector_polynomial_size(*ggsw_list) + 1,
{
    let mut i: usize = 0;
    while i < luts.len()
        invariant
            i <= luts.len(),
            lwe_outs.len() == luts.len(),
            forall|j: int|
                0 <= j < luts.len() ==> packing_ready(
                    (#[trigger] luts[j]).len() as nat,
                    *ggsw_list,
                    *fft,
                ),
            forall|j: int|
                0 <= j < i ==> (#[trigger] lwe_outs[j]).len() == (selector_glwe_size(*ggsw_list)
                    - 1) * selector_polynomial_size(*ggsw_list) + 1,
            forall|j: int|
                0 <= j < i ==> (#[trigger] lwe_outs[j])@ == vertical_packing_value(
                    luts[j]@,
                    *ggsw_list,
                    *fft,
                ),
        decreases luts.len() - i,
    {
        let mut lwe_out: Vec<u64> = Vec::new();
        proof {
            assert(packing_ready(luts@[i as int].len() as nat, *ggsw_list, *fft));
        }
        tfhe_vertical_packing_lookup(&luts[i], &mut lwe_out, ggsw_list, fft, lut_input_size);
        lwe_outs.set(i, lwe_out);
        i += 1;
    }
}

} // verus!
