//! Field elements of the BN254 scalar field.
//!
//! A field element is held as four 64-bit little-endian limbs and is
//! interpreted as the natural number `l0 + l1*2^64 + l2*2^128 + l3*2^192`.
//! Canonical elements are the least non-negative residues modulo the scalar
//! prime `P`. The 256-bit arithmetic itself is carried out by the `ruint`
//! big-integer crate behind trusted wrappers; every wrapper states its result
//! exactly in terms of the mathematical value of its arguments.

use vstd::prelude::*;
use vstd::arithmetic::power2::pow2;
use vstd::arithmetic::mul::lemma_mul_inequality;
use vstd::arithmetic::div_mod::lemma_fundamental_div_mod;
use vstd::arithmetic::div_mod::lemma_fundamental_div_mod_converse;
use ruint::aliases::U256;

verus! {

/// Low limb of the BN254 scalar prime.
pub const P_LIMB_0: u64 = 0x43E1F593F0000001;
/// Second limb of the BN254 scalar prime.
pub const P_LIMB_1: u64 = 0x2833E84879B97091;
/// Third limb of the BN254 scalar prime.
pub const P_LIMB_2: u64 = 0xB85045B68181585D;
/// High limb of the BN254 scalar prime.
pub const P_LIMB_3: u64 = 0x30644E72E131A029;

/// The negated inverse of the prime modulo 2^64, as Montgomery reduction
/// needs it; its defining property is proved in `lemma_mont_inv`.
pub const MONT_INV: u64 = 0xC2E1F593EFFFFFFF;

/// A 256-bit unsigned integer in four little-endian 64-bit limbs.
#[derive(Clone, Copy, Debug, PartialEq, Eq, Structural)]
pub struct Felt {
    pub l0: u64,
    pub l1: u64,
    pub l2: u64,
    pub l3: u64,
}

/// 2^64 as a spec-level constant.
pub open spec fn b64() -> nat {
    0x1_0000_0000_0000_0000
}

/// 2^128.
pub open spec fn b128() -> nat {
    b64() * b64()
}

/// 2^192.
pub open spec fn b192() -> nat {
    b128() * b64()
}

/// 2^256.
pub open spec fn b256() -> nat {
    b192() * b64()
}

/// The BN254 scalar prime.
pub open spec fn p() -> nat {
    (P_LIMB_0 as nat) + (P_LIMB_1 as nat) * b64() + (P_LIMB_2 as nat) * b128() + (P_LIMB_3 as nat)
        * b192()
}

impl Felt {
    /// The natural number this element stands for.
    pub open spec fn as_nat(self) -> nat {
        (self.l0 as nat) + (self.l1 as nat) * b64() + (self.l2 as nat) * b128() + (self.l3 as nat)
            * b192()
    }

    /// A canonical field element: a value below the prime.
    pub open spec fn is_canonical(self) -> bool {
        self.as_nat() < p()
    }

    /// The zero element.
    pub fn zero() -> (r: Felt)
        ensures
            r.as_nat() == 0,
            r == (Felt { l0: 0, l1: 0, l2: 0, l3: 0 }),
    {
        Felt { l0: 0, l1: 0, l2: 0, l3: 0 }
    }

    /// The one element.
    pub fn one() -> (r: Felt)
        ensures
            r.as_nat() == 1,
            r == (Felt { l0: 1, l1: 0, l2: 0, l3: 0 }),
    {
        Felt { l0: 1, l1: 0, l2: 0, l3: 0 }
    }

    /// Builds an element from a small value.
    pub fn from_u64(v: u64) -> (r: Felt)
        ensures
            r.as_nat() == v as nat,
    {
        Felt { l0: v, l1: 0, l2: 0, l3: 0 }
    }

    /// Whether the element is one.
    pub fn is_one(&self) -> (r: bool)
        ensures
            r == (self.as_nat() == 1),
    {
        proof {
            if self.l1 != 0 || self.l2 != 0 || self.l3 != 0 {
                lemma_high_limbs_large(*self);
            }
        }
        self.l0 == 1 && self.l1 == 0 && self.l2 == 0 && self.l3 == 0
    }

    /// Whether the element is zero.
    pub fn is_zero(&self) -> (r: bool)
        ensures
            r == (self.as_nat() == 0),
    {
        proof {
            if self.l1 >= 1 {
                lemma_mul_inequality(1, self.l1 as int, b64() as int);
            }
            if self.l2 >= 1 {
                lemma_mul_inequality(1, self.l2 as int, b128() as int);
            }
            if self.l3 >= 1 {
                lemma_mul_inequality(1, self.l3 as int, b192() as int);
            }
        }
        self.l0 == 0 && self.l1 == 0 && self.l2 == 0 && self.l3 == 0
    }
}

/// The prime as an element, for handing to the modular wrappers.
pub fn modulus() -> (r: Felt)
    ensures
        r.as_nat() == p(),
{
    Felt { l0: P_LIMB_0, l1: P_LIMB_1, l2: P_LIMB_2, l3: P_LIMB_3 }
}

/// The prime minus two, the exponent of Fermat inversion.
pub fn modulus_minus_two() -> (r: Felt)
    ensures
        r.as_nat() == (p() - 2) as nat,
{
    Felt { l0: P_LIMB_0 - 2, l1: P_LIMB_1, l2: P_LIMB_2, l3: P_LIMB_3 }
}

/// The prime is larger than one and below 2^256.
pub proof fn lemma_p_bounds()
    ensures
        1 < p(),
        p() < b256(),
{
}

/// Any element is below 2^256.
pub proof fn lemma_as_nat_bound(a: Felt)
    ensures
        a.as_nat() < b256(),
{
    lemma_mul_inequality(a.l1 as int, 0xFFFF_FFFF_FFFF_FFFF, b64() as int);
    lemma_mul_inequality(a.l2 as int, 0xFFFF_FFFF_FFFF_FFFF, b128() as int);
    lemma_mul_inequality(a.l3 as int, 0xFFFF_FFFF_FFFF_FFFF, b192() as int);
}

/// `MONT_INV` is the negated inverse of the prime modulo 2^64.
pub proof fn lemma_mont_inv()
    ensures
        ((P_LIMB_0 as nat) * (MONT_INV as nat)) % b64() == (b64() - 1) as nat,
{
    assert(((P_LIMB_0 as nat) * (MONT_INV as nat)) % b64() == (b64() - 1) as nat);
}

/// The limb weights are powers of two.
pub proof fn lemma_bases_are_pow2()
    ensures
        pow2(64) == b64(),
        pow2(128) == b128(),
        pow2(192) == b192(),
        pow2(256) == b256(),
{
    vstd::arithmetic::power2::lemma2_to64_rest();
    vstd::arithmetic::power2::lemma_pow2_adds(64, 64);
    vstd::arithmetic::power2::lemma_pow2_adds(128, 64);
    vstd::arithmetic::power2::lemma_pow2_adds(192, 64);
}

/// An element with a nonzero upper limb is at least 2^64.
pub proof fn lemma_high_limbs_large(a: Felt)
    requires
        a.l1 != 0 || a.l2 != 0 || a.l3 != 0,
    ensures
        a.as_nat() >= b64(),
{
    if a.l1 >= 1 {
        lemma_mul_inequality(1, a.l1 as int, b64() as int);
    }
    if a.l2 >= 1 {
        lemma_mul_inequality(1, a.l2 as int, b128() as int);
    }
    if a.l3 >= 1 {
        lemma_mul_inequality(1, a.l3 as int, b192() as int);
    }
}

/// The limbs are the base-2^64 digits of the value, so equal values mean
/// equal limbs.
pub proof fn lemma_as_nat_injective(a: Felt, b: Felt)
    requires
        a.as_nat() == b.as_nat(),
    ensures
        a == b,
{
    let ya = (a.l2 as nat) + b64() * (a.l3 as nat);
    let yb = (b.l2 as nat) + b64() * (b.l3 as nat);
    let xa = (a.l1 as nat) + b64() * ya;
    let xb = (b.l1 as nat) + b64() * yb;
    assert(a.as_nat() == (a.l0 as nat) + b64() * xa) by (nonlinear_arith)
        requires
            xa == (a.l1 as nat) + b64() * ya,
            ya == (a.l2 as nat) + b64() * (a.l3 as nat),
            a.as_nat() == (a.l0 as nat) + (a.l1 as nat) * b64() + (a.l2 as nat) * b128() + (
            a.l3 as nat) * b192(),
            b128() == b64() * b64(),
            b192() == b64() * b64() * b64(),
    ;
    assert(b.as_nat() == (b.l0 as nat) + b64() * xb) by (nonlinear_arith)
        requires
            xb == (b.l1 as nat) + b64() * yb,
            yb == (b.l2 as nat) + b64() * (b.l3 as nat),
            b.as_nat() == (b.l0 as nat) + (b.l1 as nat) * b64() + (b.l2 as nat) * b128() + (
            b.l3 as nat) * b192(),
            b128() == b64() * b64(),
            b192() == b64() * b64() * b64(),
    ;
    lemma_fundamental_div_mod_converse(a.as_nat() as int, b64() as int, xa as int, a.l0 as int);
    lemma_fundamental_div_mod_converse(b.as_nat() as int, b64() as int, xb as int, b.l0 as int);
    lemma_fundamental_div_mod_converse(xa as int, b64() as int, ya as int, a.l1 as int);
    lemma_fundamental_div_mod_converse(xb as int, b64() as int, yb as int, b.l1 as int);
    lemma_fundamental_div_mod_converse(ya as int, b64() as int, a.l3 as int, a.l2 as int);
    lemma_fundamental_div_mod_converse(yb as int, b64() as int, b.l3 as int, b.l2 as int);
}

/// Bitwise and of two naturals, bit by bit.
pub open spec fn band_nat(a: nat, b: nat) -> nat
    decreases a,
{
    if a == 0 || b == 0 {
        0
    } else {
        (a % 2) * (b % 2) + 2 * band_nat(a / 2, b / 2)
    }
}

/// Bitwise or of two naturals, bit by bit.
pub open spec fn bor_nat(a: nat, b: nat) -> nat
    decreases a + b,
{
    if a == 0 && b == 0 {
        0
    } else {
        (if a % 2 == 1 || b % 2 == 1 {
            1 as nat
        } else {
            0 as nat
        }) + 2 * bor_nat(a / 2, b / 2)
    }
}

/// Bitwise exclusive or of two naturals, bit by bit.
pub open spec fn bxor_nat(a: nat, b: nat) -> nat
    decreases a + b,
{
    if a == 0 && b == 0 {
        0
    } else {
        (if (a % 2) != (b % 2) {
            1 as nat
        } else {
            0 as nat
        }) + 2 * bxor_nat(a / 2, b / 2)
    }
}

/// Bitwise and never exceeds its left argument.
pub proof fn lemma_band_nat_le_left(a: nat, b: nat)
    ensures
        band_nat(a, b) <= a,
    decreases a,
{
    if a == 0 || b == 0 {
    } else {
        lemma_band_nat_le_left(a / 2, b / 2);
        lemma_fundamental_div_mod(a as int, 2);
        assert((a % 2) * (b % 2) <= a % 2) by {
            if b % 2 == 0 {
            } else {
                assert(b % 2 == 1);
            }
        }
    }
}

/// Relies on `ruint::Uint::add_mod`: the sum modulo `m`.
#[verifier::external_body]
pub(crate) fn mod_add(a: &Felt, b: &Felt, m: &Felt) -> (r: Felt)
    requires
        m.as_nat() > 0,
    ensures
        r.as_nat() == (a.as_nat() + b.as_nat()) % m.as_nat(),
{
    let x = U256::from_limbs([a.l0, a.l1, a.l2, a.l3]);
    let y = U256::from_limbs([b.l0, b.l1, b.l2, b.l3]);
    let q = U256::from_limbs([m.l0, m.l1, m.l2, m.l3]);
    let s = x.add_mod(y, q);
    let l = s.as_limbs();
    Felt { l0: l[0], l1: l[1], l2: l[2], l3: l[3] }
}

/// Relies on `ruint::Uint::mul_mod`: the product modulo `m`.
#[verifier::external_body]
pub(crate) fn mod_mul(a: &Felt, b: &Felt, m: &Felt) -> (r: Felt)
    requires
        m.as_nat() > 0,
    ensures
        r.as_nat() == (a.as_nat() * b.as_nat()) % m.as_nat(),
{
    let x = U256::from_limbs([a.l0, a.l1, a.l2, a.l3]);
    let y = U256::from_limbs([b.l0, b.l1, b.l2, b.l3]);
    let q = U256::from_limbs([m.l0, m.l1, m.l2, m.l3]);
    let s = x.mul_mod(y, q);
    let l = s.as_limbs();
    Felt { l0: l[0], l1: l[1], l2: l[2], l3: l[3] }
}

/// Relies on `ruint::Uint::pow_mod`: exponentiation modulo `m` (which
/// returns zero when `m <= 1`, left out by the precondition).
#[verifier::external_body]
pub(crate) fn mod_pow(a: &Felt, e: &Felt, m: &Felt) -> (r: Felt)
    requires
        m.as_nat() > 1,
    ensures
        r.as_nat() == pow_nat(a.as_nat(), e.as_nat()) % m.as_nat(),
{
    let x = U256::from_limbs([a.l0, a.l1, a.l2, a.l3]);
    let y = U256::from_limbs([e.l0, e.l1, e.l2, e.l3]);
    let q = U256::from_limbs([m.l0, m.l1, m.l2, m.l3]);
    let s = x.pow_mod(y, q);
    let l = s.as_limbs();
    Felt { l0: l[0], l1: l[1], l2: l[2], l3: l[3] }
}

/// Relies on `ruint`'s `Div` operator: integer quotient; division by zero
/// panics there and is left out by the precondition.
#[verifier::external_body]
pub(crate) fn int_div(a: &Felt, b: &Felt) -> (r: Felt)
    requires
        b.as_nat() > 0,
    ensures
        r.as_nat() == a.as_nat() / b.as_nat(),
{
    let x = U256::from_limbs([a.l0, a.l1, a.l2, a.l3]);
    let y = U256::from_limbs([b.l0, b.l1, b.l2, b.l3]);
    let s = x / y;
    let l = s.as_limbs();
    Felt { l0: l[0], l1: l[1], l2: l[2], l3: l[3] }
}

/// Relies on `ruint`'s `Rem` operator: integer remainder; a zero divisor
/// panics there and is left out by the precondition.
#[verifier::external_body]
pub(crate) fn int_rem(a: &Felt, b: &Felt) -> (r: Felt)
    requires
        b.as_nat() > 0,
    ensures
        r.as_nat() == a.as_nat() % b.as_nat(),
{
    let x = U256::from_limbs([a.l0, a.l1, a.l2, a.l3]);
    let y = U256::from_limbs([b.l0, b.l1, b.l2, b.l3]);
    let s = x % y;
    let l = s.as_limbs();
    Felt { l0: l[0], l1: l[1], l2: l[2], l3: l[3] }
}

/// Relies on `ruint`'s `Sub` operator: wrapping subtraction modulo 2^256.
#[verifier::external_body]
pub(crate) fn wrapping_sub(a: &Felt, b: &Felt) -> (r: Felt)
    ensures
        r.as_nat() as int == ((a.as_nat() + b256()) - b.as_nat()) % (b256() as int),
{
    let x = U256::from_limbs([a.l0, a.l1, a.l2, a.l3]);
    let y = U256::from_limbs([b.l0, b.l1, b.l2, b.l3]);
    let s = x - y;
    let l = s.as_limbs();
    Felt { l0: l[0], l1: l[1], l2: l[2], l3: l[3] }
}

/// Relies on `ruint::Uint::bit_and` (limb-wise and, hence bitwise and of
/// the values).
#[verifier::external_body]
pub(crate) fn bit_and(a: &Felt, b: &Felt) -> (r: Felt)
    ensures
        r.as_nat() == band_nat(a.as_nat(), b.as_nat()),
{
    let x = U256::from_limbs([a.l0, a.l1, a.l2, a.l3]);
    let y = U256::from_limbs([b.l0, b.l1, b.l2, b.l3]);
    let s = x & y;
    let l = s.as_limbs();
    Felt { l0: l[0], l1: l[1], l2: l[2], l3: l[3] }
}

/// Relies on `ruint::Uint::bit_or` (limb-wise or, hence bitwise or of the
/// values).
#[verifier::external_body]
pub(crate) fn bit_or(a: &Felt, b: &Felt) -> (r: Felt)
    ensures
        r.as_nat() == bor_nat(a.as_nat(), b.as_nat()),
{
    let x = U256::from_limbs([a.l0, a.l1, a.l2, a.l3]);
    let y = U256::from_limbs([b.l0, b.l1, b.l2, b.l3]);
    let s = x | y;
    let l = s.as_limbs();
    Felt { l0: l[0], l1: l[1], l2: l[2], l3: l[3] }
}

/// Relies on `ruint::Uint::bit_xor` (limb-wise exclusive or, hence bitwise
/// exclusive or of the values).
#[verifier::external_body]
pub(crate) fn bit_xor(a: &Felt, b: &Felt) -> (r: Felt)
    ensures
        r.as_nat() == bxor_nat(a.as_nat(), b.as_nat()),
{
    let x = U256::from_limbs([a.l0, a.l1, a.l2, a.l3]);
    let y = U256::from_limbs([b.l0, b.l1, b.l2, b.l3]);
    let s = x ^ y;
    let l = s.as_limbs();
    Felt { l0: l[0], l1: l[1], l2: l[2], l3: l[3] }
}

/// Relies on `ruint::Uint::wrapping_shl`: the value times 2^k, modulo 2^256.
#[verifier::external_body]
pub(crate) fn shl_wrapping(a: &Felt, k: u64) -> (r: Felt)
    requires
        k < 256,
    ensures
        r.as_nat() == (a.as_nat() * pow2(k as nat)) % b256(),
{
    let x = U256::from_limbs([a.l0, a.l1, a.l2, a.l3]);
    let s = x.wrapping_shl(k as usize);
    let l = s.as_limbs();
    Felt { l0: l[0], l1: l[1], l2: l[2], l3: l[3] }
}

/// Relies on `ruint::Uint::wrapping_shr`: the value divided by 2^k.
#[verifier::external_body]
pub(crate) fn shr_wrapping(a: &Felt, k: u64) -> (r: Felt)
    requires
        k < 256,
    ensures
        r.as_nat() == a.as_nat() / pow2(k as nat),
{
    let x = U256::from_limbs([a.l0, a.l1, a.l2, a.l3]);
    let s = x.wrapping_shr(k as usize);
    let l = s.as_limbs();
    Felt { l0: l[0], l1: l[1], l2: l[2], l3: l[3] }
}

/// The value below the weight of the next limb: the lower limbs never
/// reach one unit of the limb above them.
proof fn lemma_low_limbs_small(a: Felt)
    ensures
        (a.l0 as nat) + (a.l1 as nat) * b64() < b128(),
        (a.l0 as nat) + (a.l1 as nat) * b64() + (a.l2 as nat) * b128() < b192(),
{
    lemma_mul_inequality(a.l1 as int, 0xFFFF_FFFF_FFFF_FFFF, b64() as int);
    lemma_mul_inequality(a.l2 as int, 0xFFFF_FFFF_FFFF_FFFF, b128() as int);
}

/// Limb-lexicographic comparison orders the values.
proof fn lemma_limb_order(a: Felt, b: Felt)
    ensures
        a.l3 < b.l3 ==> a.as_nat() < b.as_nat(),
        a.l3 == b.l3 && a.l2 < b.l2 ==> a.as_nat() < b.as_nat(),
        a.l3 == b.l3 && a.l2 == b.l2 && a.l1 < b.l1 ==> a.as_nat() < b.as_nat(),
        a.l3 == b.l3 && a.l2 == b.l2 && a.l1 == b.l1 && a.l0 < b.l0 ==> a.as_nat() < b.as_nat(),
{
    lemma_low_limbs_small(a);
    if a.l3 < b.l3 {
        lemma_mul_inequality(a.l3 as int + 1, b.l3 as int, b192() as int);
        assert((a.l3 as int + 1) * b192() as int == a.l3 as int * b192() as int + b192() as int)
            by (nonlinear_arith);
    }
    if a.l3 == b.l3 && a.l2 < b.l2 {
        lemma_mul_inequality(a.l2 as int + 1, b.l2 as int, b128() as int);
        assert((a.l2 as int + 1) * b128() as int == a.l2 as int * b128() as int + b128() as int)
            by (nonlinear_arith);
    }
    if a.l3 == b.l3 && a.l2 == b.l2 && a.l1 < b.l1 {
        lemma_mul_inequality(a.l1 as int + 1, b.l1 as int, b64() as int);
        assert((a.l1 as int + 1) * b64() as int == a.l1 as int * b64() as int + b64() as int)
            by (nonlinear_arith);
    }
}

/// Compares two elements as integers, most significant limb first.
pub fn felt_lt(a: &Felt, b: &Felt) -> (r: bool)
    ensures
        r == (a.as_nat() < b.as_nat()),
{
    proof {
        lemma_limb_order(*a, *b);
        lemma_limb_order(*b, *a);
    }
    if a.l3 != b.l3 {
        a.l3 < b.l3
    } else if a.l2 != b.l2 {
        a.l2 < b.l2
    } else if a.l1 != b.l1 {
        a.l1 < b.l1
    } else {
        a.l0 < b.l0
    }
}

/// What Montgomery reduction turns a stored Montgomery-form value into:
/// the unique canonical element whose product with 2^256 is congruent to
/// the stored value.
pub uninterp spec fn from_mont(v: nat) -> nat;

/// Relies on `ruint::Uint::mul_redc` with a multiplier of one: the result
/// is the canonical value congruent to `v / 2^256` modulo the prime; the
/// `inv` argument must be the negated inverse of the modulus modulo 2^64,
/// which `lemma_mont_inv` establishes for `MONT_INV`.
#[verifier::external_body]
pub(crate) fn mont_reduce(v: &Felt, m: &Felt, inv: u64) -> (r: Felt)
    requires
        v.as_nat() < m.as_nat(),
        m.as_nat() == p(),
        inv == MONT_INV,
        ((P_LIMB_0 as nat) * (MONT_INV as nat)) % b64() == (b64() - 1) as nat,
    ensures
        r.as_nat() == from_mont(v.as_nat()),
        r.as_nat() < p(),
        (r.as_nat() * b256()) % p() == v.as_nat(),
{
    let x = U256::from_limbs([v.l0, v.l1, v.l2, v.l3]);
    let q = U256::from_limbs([m.l0, m.l1, m.l2, m.l3]);
    let one = U256::from_limbs([1, 0, 0, 0]);
    let s = x.mul_redc(one, q, inv);
    let l = s.as_limbs();
    Felt { l0: l[0], l1: l[1], l2: l[2], l3: l[3] }
}

/// Natural-number exponentiation.
pub open spec fn pow_nat(b: nat, e: nat) -> nat
    decreases e,
{
    if e == 0 {
        1
    } else {
        b * pow_nat(b, (e - 1) as nat)
    }
}

} // verus!
