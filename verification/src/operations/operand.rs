//! The opcodes and what each of them computes on plain words.

use crate::bits::{digit, low_bits, pow2_u64, shift_down};
use vstd::arithmetic::div_mod::*;
use vstd::arithmetic::mul::*;
use vstd::arithmetic::power2::*;
use vstd::prelude::*;

verus! {

#[derive(Debug, Clone, Copy, PartialEq, Eq, Hash, Structural)]
pub enum ArithmeticOp {
    Add,
    Sub,
    Mul,
    Mulh,
    Div,
    Mod,
    EQ,
    GT,
    LT,
    GTE,
    LTE,
    MAX,
    MIN,
    RL,
    RR,
    SL,
    SR,
    OR,
    AND,
    XOR,
    NAND,
    NOT,
    MOVE,
    CSEL,
    GTEO,
    SIGN,
}

/// The word widths that the opcodes are defined on.
pub open spec fn supported_width(w: nat) -> bool {
    w == 8 || w == 16 || w == 32
}

/// `a` turned left by `r` places in a word of `w` digits.
pub open spec fn rotate_left_value(a: nat, r: nat, w: nat) -> nat {
    (a * pow2(r)) % pow2(w) + a / pow2((w - r) as nat)
}

/// `a` turned right by `r` places in a word of `w` digits.
pub open spec fn rotate_right_value(a: nat, r: nat, w: nat) -> nat {
    a / pow2(r) + (a * pow2((w - r) as nat)) % pow2(w)
}

/// What `op` yields on the words `a` and `b` of `w` binary digits.
///
/// Sums, differences and products wrap around at `2^w`. Division and
/// remainder by zero yield zero. Shift and rotation amounts are taken
/// modulo `w`. Comparisons yield `1` or `0`.
pub open spec fn op_value(op: ArithmeticOp, a: nat, b: nat, w: nat) -> nat {
    let m = pow2(w);
    match op {
        ArithmeticOp::Add => (a + b) % m,
        ArithmeticOp::Sub => ((a + m - b) % (m as int)) as nat,
        ArithmeticOp::Mul => (a * b) % m,
        ArithmeticOp::Mulh => (a * b) / m,
        ArithmeticOp::Div => if b == 0 {
            0
        } else {
            a / b
        },
        ArithmeticOp::Mod => if b == 0 {
            0
        } else {
            a % b
        },
        ArithmeticOp::EQ => digit(a == b),
        ArithmeticOp::GT => digit(a > b),
        ArithmeticOp::LT => digit(a < b),
        ArithmeticOp::GTE => digit(a >= b),
        ArithmeticOp::GTEO => digit(a >= b),
        ArithmeticOp::LTE => digit(a <= b),
        ArithmeticOp::MAX => if a >= b {
            a
        } else {
            b
        },
        ArithmeticOp::MIN => if a <= b {
            a
        } else {
            b
        },
        ArithmeticOp::RL => rotate_left_value(a, b % w, w),
        ArithmeticOp::RR => rotate_right_value(a, b % w, w),
        ArithmeticOp::SL => (a * pow2(b % w)) % m,
        ArithmeticOp::SR => a / pow2(b % w),
        ArithmeticOp::OR => ((a as u64) | (b as u64)) as nat,
        ArithmeticOp::AND => ((a as u64) & (b as u64)) as nat,
        ArithmeticOp::XOR => ((a as u64) ^ (b as u64)) as nat,
        ArithmeticOp::NAND => (m - 1 - ((a as u64) & (b as u64))) as nat,
        ArithmeticOp::NOT => (m - 1 - a) as nat,
        ArithmeticOp::MOVE => a,
        ArithmeticOp::CSEL => a,
        ArithmeticOp::SIGN => a,
    }
}

/// The digit-wise operations stay inside the word.
proof fn lemma_bitwise_bound(a: u64, b: u64, mask: u64)
    requires
        mask == 0xff || mask == 0xffff || mask == 0xffff_ffff,
        a <= mask,
        b <= mask,
    ensures
        a | b <= mask,
        a & b <= mask,
        a ^ b <= mask,
{
    assert((mask == 0xff || mask == 0xffff || mask == 0xffff_ffff) && a <= mask && b <= mask ==> (a
        | b) <= mask && (a & b) <= mask && (a ^ b) <= mask) by (bit_vector);
}

/// The two halves of a turned word do not meet: the turned word is below `2^w`.
proof fn lemma_rotate_bound(a: nat, r: nat, w: nat)
    requires
        r < w,
        a < pow2(w),
    ensures
        rotate_left_value(a, r, w) < pow2(w),
        a * pow2(r) < pow2(w) * pow2(r),
{
    let p = pow2(r) as int;
    let q = pow2((w - r) as nat) as int;
    let m = pow2(w) as int;
    lemma_pow2_pos(r);
    lemma_pow2_pos((w - r) as nat);
    lemma_pow2_adds((w - r) as nat, r);
    let hi = a as int / q;
    let lo = a as int % q;
    lemma_fundamental_div_mod(a as int, q);
    lemma_mod_bound(a as int, q);
    assert(hi < p) by {
        lemma_multiply_divide_lt(a as int, q, p);
    }
    assert(a * p == m * hi + lo * p) by (nonlinear_arith)
        requires
            a == q * hi + lo,
            m == q * p,
    ;
    assert(lo * p <= (q - 1) * p) by {
        lemma_mul_inequality(lo, q - 1, p);
    }
    assert((q - 1) * p == m - p) by (nonlinear_arith)
        requires
            m == q * p,
    ;
    assert(0 <= lo * p) by {
        lemma_mul_nonnegative(lo, p);
    }
    lemma_mul_is_commutative(m, hi);
    lemma_fundamental_div_mod_converse_mod(a * p, m, hi, lo * p);
    assert(a * p < m * p) by {
        lemma_mul_strict_inequality(a as int, m, p);
    }
}

/// Turning by no places changes nothing.
proof fn lemma_rotate_right_zero(a: nat, w: nat)
    ensures
        rotate_right_value(a, 0, w) == a,
{
    assert(pow2(0) == 1) by {
        lemma2_to64();
    }
    lemma_pow2_pos(w);
    lemma_mod_multiples_basic(a as int, pow2(w) as int);
    assert(a as int / 1 == a);
    assert((a * pow2(w)) % pow2(w) == 0);
}

/// Turning right by `r` is turning left by `w - r`.
proof fn lemma_rotate_right_bound(a: nat, r: nat, w: nat)
    requires
        r < w,
        a < pow2(w),
    ensures
        rotate_right_value(a, r, w) < pow2(w),
{
    if r == 0 {
        lemma_rotate_right_zero(a, w);
    } else {
        lemma_rotate_bound(a, (w - r) as nat, w);
    }
}

/// Every opcode yields a word of `w` digits on words of `w` digits.
pub proof fn lemma_op_value_bound(op: ArithmeticOp, a: nat, b: nat, w: nat)
    requires
        supported_width(w),
        a < pow2(w),
        b < pow2(w),
    ensures
        op_value(op, a, b, w) < pow2(w),
{
    let m = pow2(w);
    lemma2_to64();
    assert(m == 0x100 || m == 0x1_0000 || m == 0x1_0000_0000);
    match op {
        ArithmeticOp::Mul => {
            lemma_mod_bound((a * b) as int, m as int);
        },
        ArithmeticOp::Mulh => {
            assert(a * b < m * m) by (nonlinear_arith)
                requires
                    a < m,
                    b < m,
            ;
            lemma_multiply_divide_lt((a * b) as int, m as int, m as int);
        },
        ArithmeticOp::Div => {
            if b != 0 {
                lemma_div_nonincreasing(a as int, b as int);
            }
        },
        ArithmeticOp::Mod => {
            if b != 0 {
                lemma_mod_bound(a as int, b as int);
            }
        },
        ArithmeticOp::RL => {
            lemma_rotate_bound(a, b % w, w);
        },
        ArithmeticOp::RR => {
            lemma_rotate_right_bound(a, b % w, w);
        },
        ArithmeticOp::SL => {
            lemma_mod_bound((a * pow2(b % w)) as int, m as int);
        },
        ArithmeticOp::SR => {
            lemma_pow2_pos(b % w);
            lemma_div_nonincreasing(a as int, pow2(b % w) as int);
        },
        ArithmeticOp::OR | ArithmeticOp::AND | ArithmeticOp::XOR | ArithmeticOp::NAND => {
            lemma_bitwise_bound(a as u64, b as u64, (m - 1) as u64);
        },
        _ => {},
    }
}

/// `2^w` for a supported width, with its value known.
fn modulus(w: u64) -> (m: u64)
    requires
        supported_width(w as nat),
    ensures
        m == pow2(w as nat),
        m == 0x100 || m == 0x1_0000 || m == 0x1_0000_0000,
{
    proof {
        lemma2_to64();
    }
    pow2_u64(w)
}

/// The product of two words of at most 32 digits fits in 64.
proof fn lemma_product_fits(a: u64, b: u64, m: u64)
    requires
        a < m,
        b < m,
        m <= 0x1_0000_0000,
    ensures
        a * b < m * m,
        a * b <= u64::MAX,
{
    assert(a * b <= (m - 1) * (m - 1) && (m - 1) * (m - 1) < m * m && (m - 1) * (m - 1)
        <= 0xffff_ffff * 0xffff_ffff) by (nonlinear_arith)
        requires
            a < m,
            b < m,
            m <= 0x1_0000_0000,
    ;
}

fn wrapping_product(a: u64, b: u64, w: u64) -> (r: u64)
    requires
        supported_width(w as nat),
        a < pow2(w as nat),
        b < pow2(w as nat),
    ensures
        r == (a as nat * b as nat) % pow2(w as nat),
        r < pow2(w as nat),
{
    let m = modulus(w);
    proof {
        lemma_product_fits(a, b, m);
    }
    (a * b) % m
}

fn high_product(a: u64, b: u64, w: u64) -> (r: u64)
    requires
        supported_width(w as nat),
        a < pow2(w as nat),
        b < pow2(w as nat),
    ensures
        r == (a as nat * b as nat) / pow2(w as nat),
        r < pow2(w as nat),
{
    let m = modulus(w);
    proof {
        lemma_product_fits(a, b, m);
        lemma_multiply_divide_lt((a * b) as int, m as int, m as int);
    }
    (a * b) / m
}

fn rotate_left(a: u64, r: u64, w: u64) -> (res: u64)
    requires
        supported_width(w as nat),
        a < pow2(w as nat),
        r < w,
    ensures
        res == rotate_left_value(a as nat, r as nat, w as nat),
        res < pow2(w as nat),
{
    let m = modulus(w);
    let p = pow2_u64(r);
    proof {
        lemma_rotate_bound(a as nat, r as nat, w as nat);
        lemma_pow2_strictly_increases(r as nat, w as nat);
        lemma_product_fits(a, p, m);
    }
    low_bits(a * p, w) + shift_down(a, w - r)
}

fn rotate_right(a: u64, r: u64, w: u64) -> (res: u64)
    requires
        supported_width(w as nat),
        a < pow2(w as nat),
        r < w,
    ensures
        res == rotate_right_value(a as nat, r as nat, w as nat),
        res < pow2(w as nat),
{
    let m = modulus(w);
    if r == 0 {
        proof {
            lemma_rotate_right_zero(a as nat, w as nat);
        }
        a
    } else {
        let l = w - r;
        let p = pow2_u64(l);
        proof {
            lemma_rotate_bound(a as nat, l as nat, w as nat);
            lemma_pow2_strictly_increases(l as nat, w as nat);
            lemma_product_fits(a, p, m);
        }
        shift_down(a, r) + low_bits(a * p, w)
    }
}

fn shift_left(a: u64, r: u64, w: u64) -> (res: u64)
    requires
        supported_width(w as nat),
        a < pow2(w as nat),
        r < w,
    ensures
        res == (a as nat * pow2(r as nat)) % pow2(w as nat),
        res < pow2(w as nat),
{
    let m = modulus(w);
    let p = pow2_u64(r);
    proof {
        lemma_pow2_strictly_increases(r as nat, w as nat);
        lemma_product_fits(a, p, m);
        lemma_mod_bound((a * p) as int, m as int);
    }
    low_bits(a * p, w)
}

fn shift_right(a: u64, r: u64, w: u64) -> (res: u64)
    requires
        supported_width(w as nat),
        a < pow2(w as nat),
    ensures
        res == a as nat / pow2(r as nat),
        res < pow2(w as nat),
{
    proof {
        lemma_pow2_pos(r as nat);
        lemma_div_nonincreasing(a as int, pow2(r as nat) as int);
    }
    shift_down(a, r)
}

fn truth(b: bool) -> (r: u64)
    ensures
        r == digit(b),
{
    if b {
        1
    } else {
        0
    }
}

impl ArithmeticOp {
    /// Applies the opcode to two words of `bit_width` binary digits.
    pub fn compute(&self, a: u64, b: u64, bit_width: usize) -> (r: u64)
        requires
            supported_width(bit_width as nat),
            a < pow2(bit_width as nat),
            b < pow2(bit_width as nat),
        ensures
            r == op_value(*self, a as nat, b as nat, bit_width as nat),
            r < pow2(bit_width as nat),
    {
        let w = bit_width as u64;
        let m = modulus(w);
        proof {
            lemma_bitwise_bound(a, b, (m - 1) as u64);
        }
        match self {
            ArithmeticOp::Add => (a + b) % m,
            ArithmeticOp::Sub => (a + m - b) % m,
            ArithmeticOp::Mul => wrapping_product(a, b, w),
            ArithmeticOp::Mulh => high_product(a, b, w),
            ArithmeticOp::Div => {
                if b == 0 {
                    0
                } else {
                    proof {
                        lemma_div_nonincreasing(a as int, b as int);
                    }
                    a / b
                }
            },
            ArithmeticOp::Mod => {
                if b == 0 {
                    0
                } else {
                    a % b
                }
            },
            ArithmeticOp::EQ => truth(a == b),
            ArithmeticOp::GT => truth(a > b),
            ArithmeticOp::LT => truth(a < b),
            ArithmeticOp::GTE => truth(a >= b),
            ArithmeticOp::GTEO => truth(a >= b),
            ArithmeticOp::LTE => truth(a <= b),
            ArithmeticOp::MAX => {
                if a >= b {
                    a
                } else {
                    b
                }
            },
            ArithmeticOp::MIN => {
                if a <= b {
                    a
                } else {
                    b
                }
            },
            ArithmeticOp::RL => rotate_left(a, b % w, w),
            ArithmeticOp::RR => rotate_right(a, b % w, w),
            ArithmeticOp::SL => shift_left(a, b % w, w),
            ArithmeticOp::SR => shift_right(a, b % w, w),
            ArithmeticOp::OR => a | b,
            ArithmeticOp::AND => a & b,
            ArithmeticOp::XOR => a ^ b,
            ArithmeticOp::NAND => m - 1 - (a & b),
            ArithmeticOp::NOT => m - 1 - a,
            ArithmeticOp::MOVE => a,
            ArithmeticOp::CSEL => a,
            ArithmeticOp::SIGN => a,
        }
    }

    /// Applies the opcode to the two operands packed in `input`: the first in
    /// the lowest `bitwidth` digits, the second in the `bitwidth` digits above.
    pub fn compute_split(&self, input: usize, bitwidth: usize) -> (r: usize)
        requires
            supported_width(bitwidth as nat),
        ensures
            r == op_value(
                *self,
                input as nat % pow2(bitwidth as nat),
                (input as nat / pow2(bitwidth as nat)) % pow2(bitwidth as nat),
                bitwidth as nat,
            ),
            r < pow2(bitwidth as nat),
    {
        let w = bitwidth as u64;
        let a = low_bits(input as u64, w);
        let b = low_bits(shift_down(input as u64, w), w);
        proof {
            lemma2_to64();
            lemma_mod_bound(input as int, pow2(w as nat) as int);
            lemma_mod_bound((input as nat / pow2(w as nat)) as int, pow2(w as nat) as int);
        }
        self.compute(a, b, bitwidth) as usize
    }

    /// Applies the opcode to an operand and a constant, both reduced to
    /// `bitwidth` digits: the operand comes first.
    pub fn compute_cipher_plain(&self, input: usize, immediate: usize, bitwidth: usize) -> (r:
        usize)
        requires
            supported_width(bitwidth as nat),
        ensures
            r == op_value(
                *self,
                input as nat % pow2(bitwidth as nat),
                immediate as nat % pow2(bitwidth as nat),
                bitwidth as nat,
            ),
            r < pow2(bitwidth as nat),
    {
        let w = bitwidth as u64;
        let a = low_bits(input as u64, w);
        let b = low_bits(immediate as u64, w);
        proof {
            lemma2_to64();
            lemma_mod_bound(input as int, pow2(w as nat) as int);
            lemma_mod_bound(immediate as int, pow2(w as nat) as int);
        }
        self.compute(a, b, bitwidth) as usize
    }

    /// Applies the opcode to a constant and an operand, both reduced to
    /// `bitwidth` digits: the constant comes first.
    pub fn compute_plain_cipher(&self, input: usize, immediate: usize, bitwidth: usize) -> (r:
        usize)
        requires
            supported_width(bitwidth as nat),
        ensures
            r == op_value(
                *self,
                immediate as nat % pow2(bitwidth as nat),
                input as nat % pow2(bitwidth as nat),
                bitwidth as nat,
            ),
            r < pow2(bitwidth as nat),
    {
        let w = bitwidth as u64;
        let a = low_bits(immediate as u64, w);
        let b = low_bits(input as u64, w);
        proof {
            lemma2_to64();
            lemma_mod_bound(input as int, pow2(w as nat) as int);
            lemma_mod_bound(immediate as int, pow2(w as nat) as int);
        }
        self.compute(a, b, bitwidth) as usize
    }
}

} // verus!
