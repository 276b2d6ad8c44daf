//! The closed set of binary operators a graph node may carry, and their
//! semantics on canonical field elements.
//!
//! `eval_op` is the single semantic authority: the recorder, the constant
//! folding pass and the evaluator all agree with it. Arithmetic operators
//! work modulo the prime; comparisons, logical and bitwise operators work on
//! the integer lifts and return canonical values.

use vstd::prelude::*;
use vstd::arithmetic::power2::pow2;
use vstd::arithmetic::power2::lemma_pow2_adds;
use vstd::arithmetic::power2::lemma_pow2_pos;
use vstd::arithmetic::div_mod::lemma_mod_bound;
use vstd::arithmetic::div_mod::lemma_mul_mod_noop_left;
use vstd::arithmetic::div_mod::lemma_div_is_ordered_by_denominator;
use vstd::arithmetic::div_mod::lemma_basic_div;
use vstd::arithmetic::div_mod::lemma_mod_multiples_basic;
use vstd::arithmetic::div_mod::lemma_mod_multiples_vanish;
use crate::field::lemma_bases_are_pow2;
use crate::field::lemma_high_limbs_large;
use crate::field::{
    Felt,
    p,
    b256,
    pow_nat,
    band_nat,
    bor_nat,
    bxor_nat,
    modulus,
    modulus_minus_two,
    mod_add,
    mod_mul,
    mod_pow,
    int_div,
    int_rem,
    wrapping_sub,
    bit_and,
    bit_or,
    bit_xor,
    shl_wrapping,
    shr_wrapping,
    felt_lt,
    lemma_p_bounds,
    lemma_band_nat_le_left,
};

verus! {

/// A binary operator of the expression graph.
#[derive(Clone, Copy, Debug, PartialEq, Eq, Structural)]
pub enum Operation {
    Mul,
    Add,
    Sub,
    Div,
    Idiv,
    Mod,
    Pow,
    Eq,
    Neq,
    Lt,
    Gt,
    Leq,
    Geq,
    Land,
    Lor,
    Shl,
    Shr,
    Band,
    Bor,
    Bxor,
}

/// Whether the operator is defined on the given operand values: division
/// and remainder need a nonzero divisor.
pub open spec fn eval_ok(op: Operation, a: nat, b: nat) -> bool {
    match op {
        Operation::Div => b != 0,
        Operation::Idiv => b != 0,
        Operation::Mod => b != 0,
        _ => true,
    }
}

/// The value of `op` on canonical operand values `a` and `b`. Division is
/// multiplication by the Fermat inverse; comparisons and logical operators
/// yield zero or one; shifts and bitwise operators work on the integer
/// lifts and reduce the result.
pub open spec fn eval_op(op: Operation, a: nat, b: nat) -> nat {
    match op {
        Operation::Mul => (a * b) % p(),
        Operation::Add => (a + b) % p(),
        Operation::Sub => (((a + p()) - b) % (p() as int)) as nat,
        Operation::Div => if b == 0 {
            0
        } else {
            (a * (pow_nat(b, (p() - 2) as nat) % p())) % p()
        },
        Operation::Idiv => if b == 0 {
            0
        } else {
            a / b
        },
        Operation::Mod => if b == 0 {
            0
        } else {
            a % b
        },
        Operation::Pow => pow_nat(a, b) % p(),
        Operation::Eq => if a == b {
            1
        } else {
            0
        },
        Operation::Neq => if a != b {
            1
        } else {
            0
        },
        Operation::Lt => if a < b {
            1
        } else {
            0
        },
        Operation::Gt => if a > b {
            1
        } else {
            0
        },
        Operation::Leq => if a <= b {
            1
        } else {
            0
        },
        Operation::Geq => if a >= b {
            1
        } else {
            0
        },
        Operation::Land => if a != 0 && b != 0 {
            1
        } else {
            0
        },
        Operation::Lor => if a != 0 || b != 0 {
            1
        } else {
            0
        },
        Operation::Shl => ((a * pow2(b)) % b256()) % p(),
        Operation::Shr => a / pow2(b),
        Operation::Band => band_nat(a, b),
        Operation::Bor => bor_nat(a, b) % p(),
        Operation::Bxor => bxor_nat(a, b) % p(),
    }
}

/// The value of an operator on canonical operands is canonical.
pub proof fn lemma_eval_op_canonical(op: Operation, a: nat, b: nat)
    requires
        a < p(),
        b < p(),
    ensures
        eval_op(op, a, b) < p(),
{
    lemma_p_bounds();
    match op {
        Operation::Mul => {
            lemma_mod_bound((a * b) as int, p() as int);
        },
        Operation::Add => {
            lemma_mod_bound((a + b) as int, p() as int);
        },
        Operation::Sub => {
            lemma_mod_bound((a + p() - b) as int, p() as int);
        },
        Operation::Div => {
            if b != 0 {
                lemma_mod_bound((a * (pow_nat(b, (p() - 2) as nat) % p())) as int, p() as int);
            }
        },
        Operation::Idiv => {
            if b != 0 {
                lemma_div_is_ordered_by_denominator(a as int, 1, b as int);
            }
        },
        Operation::Mod => {
            if b != 0 {
                lemma_mod_bound(a as int, b as int);
            }
        },
        Operation::Pow => {
            lemma_mod_bound(pow_nat(a, b) as int, p() as int);
        },
        Operation::Shl => {
            lemma_mod_bound(((a * pow2(b)) % b256()) as int, p() as int);
        },
        Operation::Shr => {
            lemma_pow2_pos(b);
            lemma_div_is_ordered_by_denominator(a as int, 1, pow2(b) as int);
        },
        Operation::Band => {
            lemma_band_nat_le_left(a, b);
        },
        Operation::Bor => {
            lemma_mod_bound(bor_nat(a, b) as int, p() as int);
        },
        Operation::Bxor => {
            lemma_mod_bound(bxor_nat(a, b) as int, p() as int);
        },
        _ => {},
    }
}

/// An error of witness generation.
#[derive(Debug)]
pub enum Error {
    /// A serialized graph whose framing or indices are broken.
    MalformedGraph,
    /// A named input that the graph does not declare; carries the name.
    UnknownInput(String),
    /// A named input whose declared and provided lengths differ; carries
    /// the declared and the provided length.
    SizeMismatch(usize, usize),
    /// Division or remainder by zero during evaluation.
    Arithmetic,
    /// A provided input value at or above the prime; such values are
    /// rejected rather than silently reduced.
    InputOutOfRange,
}

/// Evaluates `op` on the canonical elements `a` and `b`; fails exactly on
/// division or remainder by zero.
pub fn eval(op: Operation, a: &Felt, b: &Felt) -> (r: Result<Felt, Error>)
    requires
        a.is_canonical(),
        b.is_canonical(),
    ensures
        match r {
            Ok(v) => eval_ok(op, a.as_nat(), b.as_nat()) && v.as_nat() == eval_op(
                op,
                a.as_nat(),
                b.as_nat(),
            ) && v.is_canonical(),
            Err(e) => !eval_ok(op, a.as_nat(), b.as_nat()) && (e matches Error::Arithmetic),
        },
{
    proof {
        lemma_p_bounds();
        lemma_eval_op_canonical(op, a.as_nat(), b.as_nat());
    }
    let m = modulus();
    match op {
        Operation::Mul => Ok(mod_mul(a, b, &m)),
        Operation::Add => Ok(mod_add(a, b, &m)),
        Operation::Sub => {
            let d = wrapping_sub(&m, b);
            proof {
                crate::field::lemma_as_nat_bound(*b);
                let x = (p() - b.as_nat()) as int;
                lemma_mod_multiples_vanish(1, x, b256() as int);
                vstd::arithmetic::div_mod::lemma_small_mod(x as nat, b256());
                assert(d.as_nat() == p() - b.as_nat());
            }
            Ok(mod_add(a, &d, &m))
        },
        Operation::Div => {
            if b.is_zero() {
                Err(Error::Arithmetic)
            } else {
                let e = modulus_minus_two();
                let inv = mod_pow(b, &e, &m);
                Ok(mod_mul(a, &inv, &m))
            }
        },
        Operation::Idiv => {
            if b.is_zero() {
                Err(Error::Arithmetic)
            } else {
                Ok(int_div(a, b))
            }
        },
        Operation::Mod => {
            if b.is_zero() {
                Err(Error::Arithmetic)
            } else {
                Ok(int_rem(a, b))
            }
        },
        Operation::Pow => Ok(mod_pow(a, b, &m)),
        Operation::Eq => {
            let eq = !felt_lt(a, b) && !felt_lt(b, a);
            Ok(if eq {
                Felt::one()
            } else {
                Felt::zero()
            })
        },
        Operation::Neq => {
            let eq = !felt_lt(a, b) && !felt_lt(b, a);
            Ok(if eq {
                Felt::zero()
            } else {
                Felt::one()
            })
        },
        Operation::Lt => Ok(
            if felt_lt(a, b) {
                Felt::one()
            } else {
                Felt::zero()
            },
        ),
        Operation::Gt => Ok(
            if felt_lt(b, a) {
                Felt::one()
            } else {
                Felt::zero()
            },
        ),
        Operation::Leq => Ok(
            if felt_lt(b, a) {
                Felt::zero()
            } else {
                Felt::one()
            },
        ),
        Operation::Geq => Ok(
            if felt_lt(a, b) {
                Felt::zero()
            } else {
                Felt::one()
            },
        ),
        Operation::Land => {
            let az = a.is_zero();
            let bz = b.is_zero();
            Ok(if !az && !bz {
                Felt::one()
            } else {
                Felt::zero()
            })
        },
        Operation::Lor => {
            let az = a.is_zero();
            let bz = b.is_zero();
            Ok(if !az || !bz {
                Felt::one()
            } else {
                Felt::zero()
            })
        },
        Operation::Shl => Ok(shift_left(a, b, &m)),
        Operation::Shr => Ok(shift_right(a, b)),
        Operation::Band => Ok(bit_and(a, b)),
        Operation::Bor => {
            let v = bit_or(a, b);
            Ok(int_rem(&v, &m))
        },
        Operation::Bxor => {
            let v = bit_xor(a, b);
            Ok(int_rem(&v, &m))
        },
    }
}

/// Left shift of `a` by the value of `b`, reduced modulo the prime. A shift
/// of 256 or more bits leaves nothing of the value.
fn shift_left(a: &Felt, b: &Felt, m: &Felt) -> (r: Felt)
    requires
        a.is_canonical(),
        m.as_nat() == p(),
    ensures
        r.as_nat() == eval_op(Operation::Shl, a.as_nat(), b.as_nat()),
{
    proof {
        lemma_p_bounds();
    }
    if b.l1 != 0 || b.l2 != 0 || b.l3 != 0 || b.l0 >= 256 {
        proof {
            if b.l1 != 0 || b.l2 != 0 || b.l3 != 0 {
                lemma_high_limbs_large(*b);
            }
            lemma_shl_overflow(a.as_nat(), *b);
        }
        Felt::zero()
    } else {
        let s = shl_wrapping(a, b.l0);
        proof {
            assert(b.as_nat() == b.l0 as nat);
        }
        int_rem(&s, m)
    }
}

/// A shift by 256 or more bits clears a 256-bit value.
proof fn lemma_shl_overflow(a: nat, b: Felt)
    requires
        a < p(),
        b.as_nat() >= 256,
    ensures
        eval_op(Operation::Shl, a, b.as_nat()) == 0,
{
    lemma_p_bounds();
    lemma_bases_are_pow2();
    let e = b.as_nat();
    lemma_pow2_adds((e - 256) as nat, 256);
    lemma_pow2_pos((e - 256) as nat);
    // a * pow2(e) is a multiple of 2^256, so the inner remainder is zero.
    let k = a * pow2((e - 256) as nat);
    assert(a * pow2(e) == k * b256()) by {
        vstd::arithmetic::mul::lemma_mul_is_associative(
            a as int,
            pow2((e - 256) as nat) as int,
            b256() as int,
        );
    }
    lemma_mod_multiples_basic(k as int, b256() as int);
}

/// Right shift of `a` by the value of `b`. A shift of 256 or more bits
/// leaves nothing of a 256-bit value.
fn shift_right(a: &Felt, b: &Felt) -> (r: Felt)
    requires
        a.is_canonical(),
    ensures
        r.as_nat() == eval_op(Operation::Shr, a.as_nat(), b.as_nat()),
{
    if b.l1 != 0 || b.l2 != 0 || b.l3 != 0 || b.l0 >= 256 {
        proof {
            if b.l1 != 0 || b.l2 != 0 || b.l3 != 0 {
                lemma_high_limbs_large(*b);
            }
            lemma_shr_overflow(a.as_nat(), *b);
        }
        Felt::zero()
    } else {
        proof {
            assert(b.as_nat() == b.l0 as nat);
        }
        shr_wrapping(a, b.l0)
    }
}

/// A shift by 256 or more bits exhausts a 256-bit value.
proof fn lemma_shr_overflow(a: nat, b: Felt)
    requires
        a < p(),
        b.as_nat() >= 256,
    ensures
        eval_op(Operation::Shr, a, b.as_nat()) == 0,
{
    lemma_p_bounds();
    lemma_bases_are_pow2();
    let e = b.as_nat();
    lemma_pow2_adds((e - 256) as nat, 256);
    lemma_pow2_pos((e - 256) as nat);
    lemma_pow2_pos(e);
    assert(pow2(e) >= b256()) by {
        vstd::arithmetic::mul::lemma_mul_inequality(
            1,
            pow2((e - 256) as nat) as int,
            b256() as int,
        );
    }
    lemma_basic_div(a as int, pow2(e) as int);
}

} // verus!
