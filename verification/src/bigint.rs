//! Arbitrary-precision signed integers.
//!
//! Every circuit input, gate output and hash result is an [`Int`]: a sign
//! together with base-2^32 digits, least significant first. Its mathematical
//! value (`@`) is an unbounded `int`, so circuit arithmetic cannot overflow.
//! The arithmetic itself (addition, multiplication, equality) is delegated to
//! `num_bigint` through the trusted wrappers at the bottom of this file.

use vstd::prelude::*;

verus! {

pub const LIMB_BASE: u64 = 0x1_0000_0000;

/// The integer denoted by a little-endian sequence of base-2^32 digits.
pub open spec fn limbs_value(s: Seq<u32>) -> int
    decreases s.len(),
{
    if s.len() == 0 {
        0
    } else {
        s[0] + LIMB_BASE * limbs_value(s.drop_first())
    }
}

/// An arbitrary-precision signed integer: a sign and base-2^32 digits,
/// least significant digit first. Any digit sequence is a valid
/// representation; the mathematical value is given by the view.
#[derive(Debug)]
pub struct Int {
    pub negative: bool,
    pub limbs: Vec<u32>,
}

impl View for Int {
    type V = int;

    open spec fn view(&self) -> int {
        if self.negative {
            -limbs_value(self.limbs@)
        } else {
            limbs_value(self.limbs@)
        }
    }
}

impl Clone for Int {
    fn clone(&self) -> (r: Self)
        ensures
            r@ == self@,
    {
        let limbs = self.limbs.clone();
        proof {
            assert(limbs@ =~= self.limbs@);
        }
        Int { negative: self.negative, limbs }
    }
}

impl Int {
    /// The integer with the given small non-negative value.
    pub fn from_u32(n: u32) -> (r: Int)
        ensures
            r@ == n as int,
    {
        let mut limbs: Vec<u32> = Vec::new();
        limbs.push(n);
        proof {
            assert(limbs@.drop_first() =~= Seq::<u32>::empty());
            assert(limbs_value(Seq::<u32>::empty()) == 0);
        }
        Int { negative: false, limbs }
    }

    /// The negation of this integer.
    pub fn negated(self) -> (r: Int)
        ensures
            r@ == -self@,
    {
        Int { negative: !self.negative, limbs: self.limbs }
    }

    /// Whether the two integers denote the same mathematical value.
    pub fn equals(&self, other: &Int) -> (r: bool)
        ensures
            r == (self@ == other@),
    {
        big_eq(self, other)
    }

    /// The sum of the two integers.
    pub fn add_value(&self, other: &Int) -> (r: Int)
        ensures
            r@ == self@ + other@,
    {
        big_add(self, other)
    }

    /// The product of the two integers.
    pub fn mul_value(&self, other: &Int) -> (r: Int)
        ensures
            r@ == self@ * other@,
    {
        big_mul(self, other)
    }
}

/// Relies on `num_bigint::BigInt` addition being integer addition, and on
/// `BigInt::new` / `BigInt::to_u32_digits` reading and producing the sign and
/// the base-2^32 little-endian digits of the value.
#[verifier::external_body]
pub(crate) fn big_add(a: &Int, b: &Int) -> (r: Int)
    ensures
        r@ == a@ + b@,
{
    let sa = if a.negative { num_bigint::Sign::Minus } else { num_bigint::Sign::Plus };
    let sb = if b.negative { num_bigint::Sign::Minus } else { num_bigint::Sign::Plus };
    let x = num_bigint::BigInt::new(sa, a.limbs.clone());
    let y = num_bigint::BigInt::new(sb, b.limbs.clone());
    let (sign, limbs) = (x + y).to_u32_digits();
    Int { negative: matches!(sign, num_bigint::Sign::Minus), limbs }
}

/// Relies on `num_bigint::BigInt` multiplication being integer
/// multiplication, and on `BigInt::new` / `BigInt::to_u32_digits` reading and
/// producing the sign and the base-2^32 little-endian digits of the value.
#[verifier::external_body]
pub(crate) fn big_mul(a: &Int, b: &Int) -> (r: Int)
    ensures
        r@ == a@ * b@,
{
    let sa = if a.negative { num_bigint::Sign::Minus } else { num_bigint::Sign::Plus };
    let sb = if b.negative { num_bigint::Sign::Minus } else { num_bigint::Sign::Plus };
    let x = num_bigint::BigInt::new(sa, a.limbs.clone());
    let y = num_bigint::BigInt::new(sb, b.limbs.clone());
    let (sign, limbs) = (x * y).to_u32_digits();
    Int { negative: matches!(sign, num_bigint::Sign::Minus), limbs }
}

/// Relies on `num_bigint::BigInt` equality comparing mathematical values,
/// and on `BigInt::new` reading the sign and the base-2^32 little-endian
/// digits of the value (so distinct digit vectors of one value compare equal).
#[verifier::external_body]
pub(crate) fn big_eq(a: &Int, b: &Int) -> (r: bool)
    ensures
        r == (a@ == b@),
{
    let sa = if a.negative { num_bigint::Sign::Minus } else { num_bigint::Sign::Plus };
    let sb = if b.negative { num_bigint::Sign::Minus } else { num_bigint::Sign::Plus };
    let x = num_bigint::BigInt::new(sa, a.limbs.clone());
    let y = num_bigint::BigInt::new(sb, b.limbs.clone());
    x == y
}

} // verus!
