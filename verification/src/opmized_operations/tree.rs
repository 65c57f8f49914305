//! The selection tree as a list of two-way selections, and what it computes.
//!
//! The tree consumes the selector bits of two operands from the least
//! significant end. A selector bit is not a digit of its operand but the
//! exclusive or of that digit and all higher digits of its chunk, so at
//! each level the tree cannot know the two digits it compares: it keeps two
//! candidate outcomes, one for either parity of what lies above, and the
//! next level picks between them.

use crate::bits::{bit, lemma_from_bits_bound, lemma_from_bits_to_bits, to_bits, digit};
use crate::operations::mask_chunk::{encode_bits, lemma_masked_neighbours};
use crate::primitives::{cmux_value, cmux_select, selector_count, steers, SelectorBits};
use tfhe::core_crypto::prelude::Fft;
use vstd::arithmetic::div_mod::*;
use vstd::arithmetic::power2::*;
use vstd::prelude::*;

verus! {

/// How two words stand to each other.
#[derive(Debug, Clone, Copy, PartialEq, Eq, Structural)]
pub enum Relation {
    Greater,
    Equal,
    Less,
}

/// How `a` stands to `b`.
pub open spec fn relation_of(a: nat, b: nat) -> Relation {
    if a > b {
        Relation::Greater
    } else if a == b {
        Relation::Equal
    } else {
        Relation::Less
    }
}

/// The value that stands for a relation.
pub open spec fn pick<T>(r: Relation, g: T, e: T, l: T) -> T {
    match r {
        Relation::Greater => g,
        Relation::Equal => e,
        Relation::Less => l,
    }
}

/// The outcome of comparing the lowest `hi` digits of `a` and `b`: decided by
/// the highest place where they differ, and `e` where they do not.
pub open spec fn compare_digits<T>(a: nat, b: nat, hi: nat, g: T, e: T, l: T) -> T
    decreases hi,
{
    if hi == 0 {
        e
    } else {
        let q = (hi - 1) as nat;
        if bit(a, q) != bit(b, q) {
            if bit(a, q) {
                g
            } else {
                l
            }
        } else {
            compare_digits(a, b, q, g, e, l)
        }
    }
}

/// Comparing digit by digit is comparing the numbers.
pub proof fn lemma_compare_digits<T>(a: nat, b: nat, w: nat, g: T, e: T, l: T)
    ensures
        compare_digits(a, b, w, g, e, l) == pick(relation_of(a % pow2(w), b % pow2(w)), g, e, l),
    decreases w,
{
    lemma_from_bits_to_bits(a, w);
    lemma_from_bits_to_bits(b, w);
    if w == 0 {
    } else {
        let q = (w - 1) as nat;
        lemma_compare_digits(a, b, q, g, e, l);
        lemma_from_bits_to_bits(a, q);
        lemma_from_bits_to_bits(b, q);
        assert(to_bits(a, w).drop_last() =~= to_bits(a, q));
        assert(to_bits(b, w).drop_last() =~= to_bits(b, q));
        lemma_from_bits_bound(to_bits(a, q));
        lemma_from_bits_bound(to_bits(b, q));
        assert(pow2(q) * 1 == pow2(q));
    }
}

/// The candidate outcome for clear parity above: the operand whose selector
/// bit is set is the greater.
pub open spec fn select_normal<T>(both_clear: T, both_set: T, a: bool, b: bool, g: T, l: T) -> T {
    if a {
        if b {
            both_set
        } else {
            g
        }
    } else {
        if b {
            l
        } else {
            both_clear
        }
    }
}

/// The candidate outcome for set parity above: the digits are the selector
/// bits flipped, so the operand whose selector bit is set is the lesser.
pub open spec fn select_mirrored<T>(both_clear: T, both_set: T, a: bool, b: bool, g: T, l: T) -> T {
    if a {
        if b {
            both_set
        } else {
            l
        }
    } else {
        if b {
            g
        } else {
            both_clear
        }
    }
}

/// What the tree holds between two levels: the outcome of the groups
/// finished so far, and the two candidates of the group under way.
pub struct TreeState<T> {
    pub running: T,
    pub normal: T,
    pub mirrored: T,
}

/// The state of the tree after the `p` lowest places, on the masked digits
/// `sa` and `sb` of the operands (least significant first) with groups of `m`
/// places.
pub open spec fn tree_fold<T>(sa: Seq<bool>, sb: Seq<bool>, m: nat, p: nat, g: T, e: T, l: T)
    -> TreeState<T>
    decreases p,
{
    if p == 0 {
        TreeState { running: e, normal: e, mirrored: e }
    } else {
        let q = (p - 1) as nat;
        let s = tree_fold(sa, sb, m, q, g, e, l);
        let first = q % m == 0;
        let both_clear = if first {
            s.running
        } else {
            s.normal
        };
        let both_set = if first {
            s.running
        } else {
            s.mirrored
        };
        let n0 = select_normal(both_clear, both_set, sa[q as int], sb[q as int], g, l);
        let n1 = select_mirrored(both_clear, both_set, sa[q as int], sb[q as int], g, l);
        if p % m == 0 {
            TreeState { running: n0, normal: n0, mirrored: n1 }
        } else {
            TreeState { running: s.running, normal: n0, mirrored: n1 }
        }
    }
}

/// The candidate that the tree holds after place `p - 1`, for parity `v`
/// above: decided at that place where the selector bits differ, else the
/// outcome of the digits below.
pub open spec fn candidate<T>(
    a: nat,
    b: nat,
    sa: Seq<bool>,
    sb: Seq<bool>,
    p: nat,
    v: bool,
    g: T,
    e: T,
    l: T,
) -> T {
    let q = (p - 1) as nat;
    if sa[q as int] != sb[q as int] {
        if sa[q as int] != v {
            g
        } else {
            l
        }
    } else {
        compare_digits(a, b, q, g, e, l)
    }
}

/// What the tree holds after `p` places on the masked digits of `a` and `b`:
/// between groups, the outcome of comparing the `p` lowest digits; inside a
/// group, the two candidates.
pub proof fn lemma_tree_fold<T>(a: nat, b: nat, w: nat, m: nat, p: nat, g: T, e: T, l: T)
    requires
        m > 0,
        w % m == 0,
        p <= w,
    ensures
        ({
            let sa = encode_bits(to_bits(a, w), m);
            let sb = encode_bits(to_bits(b, w), m);
            let s = tree_fold(sa, sb, m, p, g, e, l);
            if p % m == 0 {
                s.running == compare_digits(a, b, p, g, e, l)
            } else {
                &&& s.normal == candidate(a, b, sa, sb, p, false, g, e, l)
                &&& s.mirrored == candidate(a, b, sa, sb, p, true, g, e, l)
            }
        }),
    decreases p,
{
    let sa = encode_bits(to_bits(a, w), m);
    let sb = encode_bits(to_bits(b, w), m);
    if p == 0 {
        lemma_small_mod(0, m);
    } else {
        let q = (p - 1) as nat;
        lemma_tree_fold(a, b, w, m, q, g, e, l);
        lemma_mod_successor(q, m);
        lemma_masked_neighbours(a, m, w, q);
        lemma_masked_neighbours(b, m, w, q);
        let s = tree_fold(sa, sb, m, q, g, e, l);
        let t = tree_fold(sa, sb, m, p, g, e, l);
        let x = sa[q as int];
        let y = sb[q as int];
        let both_clear = if q % m == 0 {
            s.running
        } else {
            s.normal
        };
        let both_set = if q % m == 0 {
            s.running
        } else {
            s.mirrored
        };
        let below = compare_digits(a, b, q, g, e, l);
        assert(t.normal == select_normal(both_clear, both_set, x, y, g, l));
        assert(t.mirrored == select_mirrored(both_clear, both_set, x, y, g, l));
        assert(x == y ==> (if x {
            both_set
        } else {
            both_clear
        }) == below) by {
            if q % m != 0 {
                lemma_small_mod(0, m);
                let r = (q - 1) as nat;
                lemma_mod_successor(r, m);
                lemma_masked_neighbours(a, m, w, r);
                lemma_masked_neighbours(b, m, w, r);
                assert(bit(a, r) == (sa[r as int] != x));
                assert(bit(b, r) == (sb[r as int] != y));
                assert(s.normal == candidate(a, b, sa, sb, q, false, g, e, l));
                assert(s.mirrored == candidate(a, b, sa, sb, q, true, g, e, l));
                assert(below == (if bit(a, r) != bit(b, r) {
                    if bit(a, r) {
                        g
                    } else {
                        l
                    }
                } else {
                    compare_digits(a, b, r, g, e, l)
                }));
            }
        }
        if p % m == 0 {
            assert(bit(a, q) == x);
            assert(bit(b, q) == y);
            assert(t.running == t.normal);
            assert(compare_digits(a, b, p, g, e, l) == (if bit(a, q) != bit(b, q) {
                if bit(a, q) {
                    g
                } else {
                    l
                }
            } else {
                below
            }));
        } else {
            assert(candidate(a, b, sa, sb, p, false, g, e, l) == (if x != y {
                if x != false {
                    g
                } else {
                    l
                }
            } else {
                below
            }));
            assert(candidate(a, b, sa, sb, p, true, g, e, l) == (if x != y {
                if x != true {
                    g
                } else {
                    l
                }
            } else {
                below
            }));
        }
    }
}

/// The remainder of the next number.
proof fn lemma_mod_successor(q: nat, m: nat)
    requires
        m > 0,
    ensures
        (q + 1) % m == (if q % m + 1 == m {
            0
        } else {
            q % m + 1
        }),
{
    lemma_fundamental_div_mod(q as int, m as int);
    lemma_mod_bound(q as int, m as int);
    vstd::arithmetic::mul::lemma_mul_is_commutative(m as int, q as int / (m as int));
    if q % m + 1 == m {
        vstd::arithmetic::mul::lemma_mul_is_distributive_add_other_way(
            m as int,
            q as int / (m as int),
            1,
        );
        lemma_fundamental_div_mod_converse_mod((q + 1) as int, m as int, q as int / (m as int) + 1, 0);
    } else {
        lemma_fundamental_div_mod_converse_mod(
            (q + 1) as int,
            m as int,
            q as int / (m as int),
            (q % m + 1) as int,
        );
    }
}

/// The tree computes the comparison: after all places of words of `w`
/// digits, it holds `g` where `a > b`, `e` where `a == b` and `l` where
/// `a < b`.
pub proof fn lemma_tree_compares<T>(a: nat, b: nat, w: nat, m: nat, g: T, e: T, l: T)
    requires
        m > 0,
        w % m == 0,
        a < pow2(w),
        b < pow2(w),
    ensures
        tree_fold(
            encode_bits(to_bits(a, w), m),
            encode_bits(to_bits(b, w), m),
            m,
            w,
            g,
            e,
            l,
        ).running == pick(relation_of(a, b), g, e, l),
{
    lemma_tree_fold(a, b, w, m, w, g, e, l);
    lemma_compare_digits(a, b, w, g, e, l);
    lemma_small_mod(a, pow2(w));
    lemma_small_mod(b, pow2(w));
}

/// The register of the value for "greater".
pub const GREATER: usize = 0;

/// The register of the running outcome; it starts as the value for "equal".
pub const EQUAL: usize = 1;

/// The register of the value for "less".
pub const LESS: usize = 2;

/// The registers of the candidates of even levels: normal, mirrored.
pub const EVEN_NORMAL: usize = 3;

pub const EVEN_MIRRORED: usize = 4;

/// The registers of the candidates of odd levels: normal, mirrored.
pub const ODD_NORMAL: usize = 5;

pub const ODD_MIRRORED: usize = 6;

/// The two scratch registers of a level.
pub const MID_0: usize = 7;

pub const MID_1: usize = 8;

/// How many registers the tree works on.
pub const SLOTS: usize = 9;

/// Where a selection takes its control bit from: a place in the list of
/// encrypted selector bits, or a bit known in the clear.
#[derive(Debug, Clone, Copy, PartialEq, Eq, Structural)]
pub enum Control {
    Encrypted(usize),
    Plain(bool),
}

/// One two-way selection: register `target` becomes register `if_set` where
/// the control bit is set, and register `if_clear` where it is clear.
#[derive(Debug, Clone, Copy, PartialEq, Eq, Structural)]
pub struct Gate {
    pub control: Control,
    pub if_clear: usize,
    pub if_set: usize,
    pub target: usize,
}

/// The control bit under the selector bits `sel`.
pub open spec fn control_value(c: Control, sel: Seq<bool>) -> bool {
    match c {
        Control::Encrypted(i) => sel[i as int],
        Control::Plain(b) => b,
    }
}

/// The registers after one selection.
pub open spec fn apply_gate<T>(gate: Gate, regs: Seq<T>, sel: Seq<bool>) -> Seq<T> {
    regs.update(
        gate.target as int,
        if control_value(gate.control, sel) {
            regs[gate.if_set as int]
        } else {
            regs[gate.if_clear as int]
        },
    )
}

/// The registers after the selections `gates`, in order.
pub open spec fn run_gates<T>(gates: Seq<Gate>, regs: Seq<T>, sel: Seq<bool>) -> Seq<T>
    decreases gates.len(),
{
    if gates.len() == 0 {
        regs
    } else {
        apply_gate(gates.last(), run_gates(gates.drop_last(), regs, sel), sel)
    }
}

/// Every selection reads and writes one of `slots` registers and takes its
/// encrypted control from one of `selectors` places.
pub open spec fn gates_fit(gates: Seq<Gate>, slots: nat, selectors: nat) -> bool {
    forall|i: int|
        0 <= i < gates.len() ==> {
            &&& (#[trigger] gates[i]).if_clear < slots
            &&& gates[i].if_set < slots
            &&& gates[i].target < slots
            &&& (gates[i].control matches Control::Encrypted(k) ==> k < selectors)
        }
}

/// Every encrypted control lies in one of `selectors` places.
pub open spec fn controls_fit(controls: Seq<Control>, selectors: nat) -> bool {
    forall|i: int|
        0 <= i < controls.len() ==> ((#[trigger] controls[i]) matches Control::Encrypted(k) ==> k
            < selectors)
}

/// The registers that level `j` of a group writes its candidates to.
pub open spec fn candidate_slots(j: nat) -> (usize, usize) {
    if j % 2 == 0 {
        (EVEN_NORMAL, EVEN_MIRRORED)
    } else {
        (ODD_NORMAL, ODD_MIRRORED)
    }
}

/// The registers that level `j` of a group reads its candidates from: the
/// running outcome at the first level, else what the level below wrote.
pub open spec fn source_slots(j: nat) -> (usize, usize) {
    if j == 0 {
        (EQUAL, EQUAL)
    } else {
        candidate_slots((j - 1) as nat)
    }
}

/// The three selections that make one candidate: two on the bit of the second
/// operand, one on the bit of the first.
pub open spec fn candidate_gates(
    a: Control,
    b: Control,
    j: nat,
    decided_set: usize,
    decided_clear: usize,
    target: usize,
) -> Seq<Gate> {
    let (both_clear, both_set) = source_slots(j);
    seq![
        Gate { control: b, if_clear: decided_set, if_set: both_set, target: MID_1 },
        Gate { control: b, if_clear: both_clear, if_set: decided_clear, target: MID_0 },
        Gate { control: a, if_clear: MID_0, if_set: MID_1, target: target },
    ]
}

/// The selections of level `j` of a group, on the controls `a` and `b` of its
/// place: the mirrored candidate and the normal one, or at the last level of
/// the group the normal one alone, written to the running outcome.
pub open spec fn level_gates(a: Control, b: Control, j: nat, last: bool) -> Seq<Gate> {
    if last {
        candidate_gates(a, b, j, GREATER, LESS, EQUAL)
    } else {
        candidate_gates(a, b, j, LESS, GREATER, candidate_slots(j).1) + candidate_gates(
            a,
            b,
            j,
            GREATER,
            LESS,
            candidate_slots(j).0,
        )
    }
}

/// The selections of the tree for the `p` lowest places, the controls being
/// listed from the least significant place, with groups of `m` places.
pub open spec fn tree_gates(ca: Seq<Control>, cb: Seq<Control>, m: nat, p: nat) -> Seq<Gate>
    decreases p,
{
    if p == 0 {
        Seq::empty()
    } else {
        let q = (p - 1) as nat;
        tree_gates(ca, cb, m, q) + level_gates(ca[q as int], cb[q as int], q % m, p % m == 0)
    }
}

/// Running one list of selections after another.
pub proof fn lemma_run_concat<T>(x: Seq<Gate>, y: Seq<Gate>, regs: Seq<T>, sel: Seq<bool>)
    ensures
        run_gates(x + y, regs, sel) == run_gates(y, run_gates(x, regs, sel), sel),
    decreases y.len(),
{
    if y.len() == 0 {
        assert(x + y =~= x);
    } else {
        lemma_run_concat(x, y.drop_last(), regs, sel);
        assert((x + y).drop_last() =~= x + y.drop_last());
    }
}

/// What the three selections of one candidate leave in the registers.
proof fn lemma_candidate_gates<T>(
    a: Control,
    b: Control,
    j: nat,
    decided_set: usize,
    decided_clear: usize,
    target: usize,
    regs: Seq<T>,
    sel: Seq<bool>,
)
    requires
        regs.len() == SLOTS,
        decided_set < MID_0,
        decided_clear < MID_0,
        target < MID_0,
    ensures
        ({
            let out = run_gates(
                candidate_gates(a, b, j, decided_set, decided_clear, target),
                regs,
                sel,
            );
            let (both_clear, both_set) = source_slots(j);
            let va = control_value(a, sel);
            let vb = control_value(b, sel);
            &&& out.len() == SLOTS
            &&& out[target as int] == (if va {
                if vb {
                    regs[both_set as int]
                } else {
                    regs[decided_set as int]
                }
            } else {
                if vb {
                    regs[decided_clear as int]
                } else {
                    regs[both_clear as int]
                }
            })
            &&& forall|i: int| 0 <= i < MID_0 && i != target ==> out[i] == regs[i]
        }),
{
    let gates = candidate_gates(a, b, j, decided_set, decided_clear, target);
    let g0 = gates[0];
    let g1 = gates[1];
    let g2 = gates[2];
    let r0 = apply_gate(g0, regs, sel);
    let r1 = apply_gate(g1, r0, sel);
    let r2 = apply_gate(g2, r1, sel);
    let s1 = gates.drop_last();
    let s0 = s1.drop_last();
    assert(s0.drop_last() =~= Seq::<Gate>::empty());
    assert(run_gates(s0.drop_last(), regs, sel) == regs);
    assert(run_gates(s0, regs, sel) == r0);
    assert(run_gates(s1, regs, sel) == r1);
    assert(run_gates(gates, regs, sel) == r2);
}

/// What one level leaves in the registers: the candidates of its place, made
/// from the candidates below.
pub proof fn lemma_level_gates<T>(
    a: Control,
    b: Control,
    j: nat,
    last: bool,
    regs: Seq<T>,
    sel: Seq<bool>,
)
    requires
        regs.len() == SLOTS,
    ensures
        ({
            let out = run_gates(level_gates(a, b, j, last), regs, sel);
            let (both_clear, both_set) = source_slots(j);
            let va = control_value(a, sel);
            let vb = control_value(b, sel);
            let n0 = select_normal(
                regs[both_clear as int],
                regs[both_set as int],
                va,
                vb,
                regs[GREATER as int],
                regs[LESS as int],
            );
            let n1 = select_mirrored(
                regs[both_clear as int],
                regs[both_set as int],
                va,
                vb,
                regs[GREATER as int],
                regs[LESS as int],
            );
            &&& out.len() == SLOTS
            &&& out[GREATER as int] == regs[GREATER as int]
            &&& out[LESS as int] == regs[LESS as int]
            &&& if last {
                out[EQUAL as int] == n0
            } else {
                &&& out[EQUAL as int] == regs[EQUAL as int]
                &&& out[candidate_slots(j).0 as int] == n0
                &&& out[candidate_slots(j).1 as int] == n1
            }
        }),
{
    if last {
        lemma_candidate_gates(a, b, j, GREATER, LESS, EQUAL, regs, sel);
    } else {
        let first = candidate_gates(a, b, j, LESS, GREATER, candidate_slots(j).1);
        let second = candidate_gates(a, b, j, GREATER, LESS, candidate_slots(j).0);
        lemma_candidate_gates(a, b, j, LESS, GREATER, candidate_slots(j).1, regs, sel);
        let mid = run_gates(first, regs, sel);
        lemma_candidate_gates(a, b, j, GREATER, LESS, candidate_slots(j).0, mid, sel);
        lemma_run_concat(first, second, regs, sel);
    }
}

/// The control bits of a list of controls.
pub open spec fn control_values(controls: Seq<Control>, sel: Seq<bool>) -> Seq<bool> {
    Seq::new(controls.len(), |i: int| control_value(controls[i], sel))
}

/// The selections of the tree perform the fold: after the `p` lowest places
/// the register of the running outcome holds the running outcome, and inside
/// a group the candidate registers of the last level hold the candidates.
pub proof fn lemma_tree_gates<T>(
    ca: Seq<Control>,
    cb: Seq<Control>,
    m: nat,
    p: nat,
    regs: Seq<T>,
    sel: Seq<bool>,
)
    requires
        m > 0,
        ca.len() == cb.len(),
        p <= ca.len(),
        regs.len() == SLOTS,
    ensures
        ({
            let out = run_gates(tree_gates(ca, cb, m, p), regs, sel);
            let s = tree_fold(
                control_values(ca, sel),
                control_values(cb, sel),
                m,
                p,
                regs[GREATER as int],
                regs[EQUAL as int],
                regs[LESS as int],
            );
            &&& out.len() == SLOTS
            &&& out[GREATER as int] == regs[GREATER as int]
            &&& out[LESS as int] == regs[LESS as int]
            &&& out[EQUAL as int] == s.running
            &&& p % m != 0 ==> {
                &&& out[candidate_slots(((p - 1) as nat) % m).0 as int] == s.normal
                &&& out[candidate_slots(((p - 1) as nat) % m).1 as int] == s.mirrored
            }
        }),
    decreases p,
{
    if p == 0 {
        lemma_small_mod(0, m);
    } else {
        let q = (p - 1) as nat;
        let j = q % m;
        lemma_tree_gates(ca, cb, m, q, regs, sel);
        lemma_mod_successor(q, m);
        let before = run_gates(tree_gates(ca, cb, m, q), regs, sel);
        lemma_level_gates(ca[q as int], cb[q as int], j, p % m == 0, before, sel);
        lemma_run_concat(
            tree_gates(ca, cb, m, q),
            level_gates(ca[q as int], cb[q as int], j, p % m == 0),
            regs,
            sel,
        );
        if j != 0 {
            lemma_small_mod(0, m);
            lemma_mod_successor((q - 1) as nat, m);
        }
    }
}

/// One selection.
fn gate(control: Control, if_clear: usize, if_set: usize, target: usize) -> (g: Gate)
    ensures
        g == (Gate { control, if_clear, if_set, target }),
{
    Gate { control, if_clear, if_set, target }
}

/// Appends the three selections of one candidate.
fn push_candidate(
    gates: &mut Vec<Gate>,
    a: Control,
    b: Control,
    j: usize,
    decided_set: usize,
    decided_clear: usize,
    target: usize,
)
    ensures
        final(gates)@ == old(gates)@ + candidate_gates(
            a,
            b,
            j as nat,
            decided_set,
            decided_clear,
            target,
        ),
{
    let (both_clear, both_set) = if j == 0 {
        (EQUAL, EQUAL)
    } else if (j - 1) % 2 == 0 {
        (EVEN_NORMAL, EVEN_MIRRORED)
    } else {
        (ODD_NORMAL, ODD_MIRRORED)
    };
    gates.push(gate(b, decided_set, both_set, MID_1));
    gates.push(gate(b, both_clear, decided_clear, MID_0));
    gates.push(gate(a, MID_0, MID_1, target));
    proof {
        assert(gates@ =~= old(gates)@ + candidate_gates(
            a,
            b,
            j as nat,
            decided_set,
            decided_clear,
            target,
        ));
    }
}

/// Appends the selections of one level.
fn push_level(gates: &mut Vec<Gate>, a: Control, b: Control, j: usize, last: bool)
    ensures
        final(gates)@ == old(gates)@ + level_gates(a, b, j as nat, last),
{
    if last {
        push_candidate(gates, a, b, j, GREATER, LESS, EQUAL);
    } else {
        let (normal, mirrored) = if j % 2 == 0 {
            (EVEN_NORMAL, EVEN_MIRRORED)
        } else {
            (ODD_NORMAL, ODD_MIRRORED)
        };
        let ghost start = gates@;
        push_candidate(gates, a, b, j, LESS, GREATER, mirrored);
        push_candidate(gates, a, b, j, GREATER, LESS, normal);
        proof {
            assert(gates@ =~= start + level_gates(a, b, j as nat, last));
        }
    }
}

/// The selections of one level fit the registers, and its encrypted controls
/// are the two that it was given.
proof fn lemma_level_fits(a: Control, b: Control, j: nat, last: bool, selectors: nat)
    requires
        a matches Control::Encrypted(k) ==> k < selectors,
        b matches Control::Encrypted(k) ==> k < selectors,
    ensures
        gates_fit(level_gates(a, b, j, last), SLOTS as nat, selectors),
{
    let gates = level_gates(a, b, j, last);
    if last {
        assert(gates.len() == 3);
    } else {
        assert(gates.len() == 6);
    }
}

/// The selections of the tree fit the registers and the selector bits.
pub proof fn lemma_tree_fits(ca: Seq<Control>, cb: Seq<Control>, m: nat, p: nat, selectors: nat)
    requires
        ca.len() == cb.len(),
        p <= ca.len(),
        controls_fit(ca, selectors),
        controls_fit(cb, selectors),
    ensures
        gates_fit(tree_gates(ca, cb, m, p), SLOTS as nat, selectors),
    decreases p,
{
    if p > 0 {
        let q = (p - 1) as nat;
        lemma_tree_fits(ca, cb, m, q, selectors);
        assert(ca[q as int] matches Control::Encrypted(k) ==> k < selectors);
        assert(cb[q as int] matches Control::Encrypted(k) ==> k < selectors);
        lemma_level_fits(ca[q as int], cb[q as int], q % m, p % m == 0, selectors);
    }
}

/// The selections of the tree on the controls `first` and `second` of the two
/// operands, each listed from the least significant place, with groups of
/// `group` places.
pub fn build_tree(first: &Vec<Control>, second: &Vec<Control>, group: usize) -> (gates: Vec<Gate>)
    requires
        group > 0,
        first.len() == second.len(),
    ensures
        gates@ == tree_gates(first@, second@, group as nat, first@.len()),
{
    let mut gates: Vec<Gate> = Vec::new();
    let mut p: usize = 0;
    let mut j: usize = 0;
    proof {
        lemma_small_mod(0, group as nat);
    }
    while p < first.len()
        invariant
            group > 0,
            first.len() == second.len(),
            p <= first.len(),
            j == p % group,
            gates@ == tree_gates(first@, second@, group as nat, p as nat),
        decreases first.len() - p,
    {
        proof {
            lemma_mod_successor(p as nat, group as nat);
        }
        let last = j + 1 == group;
        push_level(&mut gates, first[p], second[p], j, last);
        if last {
            j = 0;
        } else {
            j += 1;
        }
        p += 1;
    }
    gates
}

/// Runs the selections on plain values: the reference for what the tree
/// computes on encrypted ones.
pub fn run_plain(gates: &Vec<Gate>, regs: Vec<u64>, selectors: &Vec<bool>) -> (out: Vec<u64>)
    requires
        gates_fit(gates@, regs.len() as nat, selectors.len() as nat),
    ensures
        out@ == run_gates(gates@, regs@, selectors@),
{
    let mut out = regs;
    let mut i: usize = 0;
    while i < gates.len()
        invariant
            i <= gates.len(),
            out.len() == regs.len(),
            gates_fit(gates@, regs.len() as nat, selectors.len() as nat),
            out@ == run_gates(gates@.subrange(0, i as int), regs@, selectors@),
        decreases gates.len() - i,
    {
        let g = gates[i];
        let set = match g.control {
            Control::Encrypted(k) => selectors[k],
            Control::Plain(b) => b,
        };
        let value = if set {
            out[g.if_set]
        } else {
            out[g.if_clear]
        };
        proof {
            assert(gates@.subrange(0, i + 1).drop_last() =~= gates@.subrange(0, i as int));
        }
        out.set(g.target, value);
        i += 1;
    }
    proof {
        assert(gates@.subrange(0, gates.len() as int) =~= gates@);
    }
    out
}

/// Every register is a GLWE ciphertext of `len` words.
pub open spec fn registers_sized(regs: Seq<Vec<u64>>, len: nat) -> bool {
    forall|i: int| 0 <= i < regs.len() ==> (#[trigger] regs[i]).len() == len
}

/// The words of every register.
pub open spec fn words_of(regs: Seq<Vec<u64>>) -> Seq<Seq<u64>> {
    Seq::new(regs.len(), |i: int| regs[i]@)
}

/// The ciphertexts after one selection: on an encrypted control the target
/// becomes what the selection primitive gives for the two sources, on a plain
/// control it becomes the source that the control picks.
pub open spec fn select_encrypted(
    gate: Gate,
    regs: Seq<Seq<u64>>,
    bits: SelectorBits,
    fft: Fft,
) -> Seq<Seq<u64>> {
    regs.update(
        gate.target as int,
        match gate.control {
            Control::Encrypted(k) => cmux_value(
                regs[gate.if_clear as int],
                regs[gate.if_set as int],
                bits,
                k as nat,
                fft,
            ),
            Control::Plain(b) => if b {
                regs[gate.if_set as int]
            } else {
                regs[gate.if_clear as int]
            },
        },
    )
}

/// The ciphertexts after the selections `gates`, in order.
pub open spec fn run_selections(
    gates: Seq<Gate>,
    regs: Seq<Seq<u64>>,
    bits: SelectorBits,
    fft: Fft,
) -> Seq<Seq<u64>>
    decreases gates.len(),
{
    if gates.len() == 0 {
        regs
    } else {
        select_encrypted(gates.last(), run_selections(gates.drop_last(), regs, bits, fft), bits, fft)
    }
}

/// The selections on ciphertexts read as the selections on what the
/// ciphertexts stand for, wherever the selection primitive selects: given a
/// reading of ciphertexts, the ciphertexts that count as valid, and the
/// selector bits `sel` that the encrypted bits stand for, if the primitive
/// on valid ciphertexts gives a valid ciphertext that reads as the source
/// that the bit picks, then running the selections on valid ciphertexts and
/// reading the registers gives what running them on the readings gives.
pub proof fn lemma_selections_read<T>(
    gates: Seq<Gate>,
    regs: Seq<Seq<u64>>,
    bits: SelectorBits,
    fft: Fft,
    sel: Seq<bool>,
    read: spec_fn(Seq<u64>) -> T,
    valid: spec_fn(Seq<u64>) -> bool,
)
    requires
        gates_fit(gates, regs.len(), sel.len()),
        forall|i: int| 0 <= i < regs.len() ==> valid(#[trigger] regs[i]),
        forall|a: Seq<u64>, b: Seq<u64>, k: nat|
            k < sel.len() && valid(a) && valid(b) ==> {
                &&& valid(#[trigger] cmux_value(a, b, bits, k, fft))
                &&& read(cmux_value(a, b, bits, k, fft)) == (if sel[k as int] {
                    read(b)
                } else {
                    read(a)
                })
            },
    ensures
        run_selections(gates, regs, bits, fft).len() == regs.len(),
        forall|i: int|
            0 <= i < regs.len() ==> valid(#[trigger] run_selections(gates, regs, bits, fft)[i]),
        run_selections(gates, regs, bits, fft).map_values(read) == run_gates(
            gates,
            regs.map_values(read),
            sel,
        ),
    decreases gates.len(),
{
    if gates.len() > 0 {
        let before = gates.drop_last();
        let gate = gates.last();
        lemma_selections_read(before, regs, bits, fft, sel, read, valid);
        let mid = run_selections(before, regs, bits, fft);
        let plain = run_gates(before, regs.map_values(read), sel);
        assert(mid.map_values(read) == plain);
        assert(plain[gate.if_set as int] == read(mid[gate.if_set as int]));
        assert(plain[gate.if_clear as int] == read(mid[gate.if_clear as int]));
        assert(valid(mid[gate.if_set as int]) && valid(mid[gate.if_clear as int]));
        assert(select_encrypted(gate, mid, bits, fft).map_values(read) =~= apply_gate(
            gate,
            plain,
            sel,
        ));
    } else {
        assert(regs.map_values(read).len() == regs.len());
    }
}

/// Runs the selections on GLWE ciphertexts: a selection on an encrypted
/// control is made by the selection primitive, a selection on a plain
/// control is a copy. The registers keep their number and their size.
pub(crate) fn run_encrypted(
    gates: &Vec<Gate>,
    regs: Vec<Vec<u64>>,
    bits: &SelectorBits,
    fft: &Fft,
) -> (out: Vec<Vec<u64>>)
    requires
        gates_fit(gates@, regs.len() as nat, selector_count(*bits)),
        regs.len() > 0,
        registers_sized(regs@, regs[0].len() as nat),
        steers(*bits, *fft, regs[0].len() as nat),
    ensures
        out.len() == regs.len(),
        registers_sized(out@, regs[0].len() as nat),
        words_of(out@) == run_selections(gates@, words_of(regs@), *bits, *fft),
{
    let ghost len = regs[0].len() as nat;
    let ghost slots = regs.len() as nat;
    let ghost start = words_of(regs@);
    let mut out = regs;
    let mut i: usize = 0;
    while i < gates.len()
        invariant
            i <= gates.len(),
            out.len() == slots,
            gates_fit(gates@, slots, selector_count(*bits)),
            registers_sized(out@, len),
            steers(*bits, *fft, len),
            words_of(out@) == run_selections(gates@.subrange(0, i as int), start, *bits, *fft),
        decreases gates.len() - i,
    {
        let g = gates[i];
        let ghost before = words_of(out@);
        proof {
            assert(out@[g.if_clear as int].len() == len);
            assert(out@[g.if_set as int].len() == len);
            assert(before[g.if_clear as int] == out@[g.if_clear as int]@);
            assert(before[g.if_set as int] == out@[g.if_set as int]@);
        }
        let value = match g.control {
            Control::Encrypted(k) => cmux_select(&out[g.if_clear], &out[g.if_set], bits, k, fft),
            Control::Plain(b) => {
                if b {
                    out[g.if_set].clone()
                } else {
                    out[g.if_clear].clone()
                }
            },
        };
        out.set(g.target, value);
        proof {
            assert(gates@.subrange(0, i + 1).drop_last() =~= gates@.subrange(0, i as int));
            assert(words_of(out@) =~= select_encrypted(g, before, *bits, *fft));
        }
        i += 1;
    }
    proof {
        assert(gates@.subrange(0, gates.len() as int) =~= gates@);
    }
    out
}

} // verus!
