//! Arbitrary-precision natural numbers.
//!
//! A [`BigNat`] holds base-2^32 digits, least significant first, and is viewed
//! as the natural number those digits denote. The arithmetic itself is done by
//! `num_bigint::BigUint`; each trusted item below converts the digits in and
//! out and states what the `BigUint` operation returns.

use num_bigint::BigUint;
use vstd::arithmetic::power::pow;
use vstd::arithmetic::power2::pow2;
use vstd::prelude::*;

verus! {

/// The number denoted by base-2^32 digits, least significant first.
pub open spec fn digits_value(s: Seq<u32>) -> nat
    decreases s.len(),
{
    if s.len() == 0 {
        0
    } else {
        s[0] as nat + 4294967296 * digits_value(s.drop_first())
    }
}

/// The character of a decimal digit `d < 10`.
pub open spec fn digit_char(d: nat) -> char {
    (48 + d) as char
}

/// The decimal numeral of `n`, without leading zeros (`"0"` for zero).
pub open spec fn decimal(n: nat) -> Seq<char>
    decreases n,
{
    if n < 10 {
        seq![digit_char(n)]
    } else {
        decimal(n / 10).push(digit_char(n % 10))
    }
}

/// Whether bit `j` of `n` is set.
pub open spec fn nat_bit(n: nat, j: nat) -> bool {
    (n / pow2(j)) % 2 == 1
}

/// An arbitrary-precision natural number.
#[derive(Debug)]
pub struct BigNat {
    digits: Vec<u32>,
}

impl View for BigNat {
    type V = nat;

    closed spec fn view(&self) -> nat {
        digits_value(self.digits@)
    }
}

/// `BigUint::from(u64)`: the number `v`.
#[verifier::external_body]
fn big_from_u64(v: u64) -> (r: BigNat)
    ensures
        r@ == v,
{
    BigNat { digits: BigUint::from(v).to_u32_digits() }
}

/// `BigUint + BigUint`: the sum.
#[verifier::external_body]
fn big_add(a: &BigNat, b: &BigNat) -> (r: BigNat)
    ensures
        r@ == a@ + b@,
{
    BigNat { digits: (BigUint::from_slice(&a.digits) + BigUint::from_slice(&b.digits)).to_u32_digits() }
}

/// `BigUint - BigUint`: the difference; `BigUint` panics when `b > a`, which
/// the precondition rules out.
#[verifier::external_body]
fn big_sub(a: &BigNat, b: &BigNat) -> (r: BigNat)
    requires
        b@ <= a@,
    ensures
        r@ == a@ - b@,
{
    BigNat { digits: (BigUint::from_slice(&a.digits) - BigUint::from_slice(&b.digits)).to_u32_digits() }
}

/// `BigUint * BigUint`: the product.
#[verifier::external_body]
fn big_mul(a: &BigNat, b: &BigNat) -> (r: BigNat)
    ensures
        r@ == a@ * b@,
{
    BigNat { digits: (BigUint::from_slice(&a.digits) * BigUint::from_slice(&b.digits)).to_u32_digits() }
}

/// `BigUint / BigUint`: the floor quotient; `BigUint` panics on a zero divisor,
/// which the precondition rules out.
#[verifier::external_body]
fn big_div(a: &BigNat, b: &BigNat) -> (r: BigNat)
    requires
        b@ > 0,
    ensures
        r@ == a@ / b@,
{
    BigNat { digits: (BigUint::from_slice(&a.digits) / BigUint::from_slice(&b.digits)).to_u32_digits() }
}

/// `BigUint % BigUint`: the remainder; `BigUint` panics on a zero divisor, which
/// the precondition rules out.
#[verifier::external_body]
fn big_rem(a: &BigNat, b: &BigNat) -> (r: BigNat)
    requires
        b@ > 0,
    ensures
        r@ == a@ % b@,
{
    BigNat { digits: (BigUint::from_slice(&a.digits) % BigUint::from_slice(&b.digits)).to_u32_digits() }
}

/// `BigUint < BigUint`: whether `a` is smaller than `b`.
#[verifier::external_body]
fn big_lt(a: &BigNat, b: &BigNat) -> (r: bool)
    ensures
        r == (a@ < b@),
{
    BigUint::from_slice(&a.digits) < BigUint::from_slice(&b.digits)
}

/// `BigUint::from(1u32) << w`: two to the power `w`.
#[verifier::external_body]
fn big_pow2(w: usize) -> (r: BigNat)
    ensures
        r@ == pow2(w as nat),
{
    BigNat { digits: (BigUint::from(1u32) << w).to_u32_digits() }
}

/// `BigUint::pow`: `b` to the power `e`.
#[verifier::external_body]
fn big_pow(b: &BigNat, e: u32) -> (r: BigNat)
    ensures
        r@ == pow(b@ as int, e as nat),
{
    BigNat { digits: BigUint::from_slice(&b.digits).pow(e).to_u32_digits() }
}

/// `BigUint::bit`: whether bit `j` is set.
#[verifier::external_body]
fn big_bit(a: &BigNat, j: u64) -> (r: bool)
    ensures
        r == nat_bit(a@, j as nat),
{
    BigUint::from_slice(&a.digits).bit(j)
}

/// `BigUint::set_bit(j, true)`: sets bit `j`, adding `2^j` when it was clear.
#[verifier::external_body]
fn big_set_bit(a: &mut BigNat, j: u64)
    ensures
        final(a)@ == if nat_bit(old(a)@, j as nat) {
            old(a)@
        } else {
            old(a)@ + pow2(j as nat)
        },
{
    let mut big = BigUint::from_slice(&a.digits);
    big.set_bit(j, true);
    a.digits = big.to_u32_digits();
}

/// The first of `BigUint::iter_u64_digits`, or `0`: the value modulo `2^64`.
#[verifier::external_body]
fn big_low_u64(a: &BigNat) -> (r: u64)
    ensures
        r == a@ % pow2(64),
{
    BigUint::from_slice(&a.digits).iter_u64_digits().next().unwrap_or(0)
}

/// `BigUint::to_string`: the decimal numeral.
#[verifier::external_body]
fn big_to_decimal(a: &BigNat) -> (r: String)
    ensures
        r@ == decimal(a@),
{
    BigUint::from_slice(&a.digits).to_string()
}

/// A copy of the digit vector.
fn copy_digits(d: &Vec<u32>) -> (r: Vec<u32>)
    ensures
        r@ == d@,
{
    let mut out: Vec<u32> = Vec::new();
    let mut i: usize = 0;
    while i < d.len()
        invariant
            i <= d.len(),
            out@ == d@.subrange(0, i as int),
        decreases d.len() - i,
    {
        out.push(d[i]);
        i += 1;
        assert(out@ == d@.subrange(0, i as int));
    }
    assert(d@.subrange(0, d.len() as int) == d@);
    out
}

impl BigNat {
    /// The number `v`.
    pub fn from_u64(v: u64) -> (r: BigNat)
        ensures
            r@ == v,
    {
        big_from_u64(v)
    }

    /// The number `v`.
    pub fn from_usize(v: usize) -> (r: BigNat)
        ensures
            r@ == v,
    {
        big_from_u64(v as u64)
    }

    /// Zero.
    pub fn zero() -> (r: BigNat)
        ensures
            r@ == 0,
    {
        big_from_u64(0)
    }

    /// One.
    pub fn one() -> (r: BigNat)
        ensures
            r@ == 1,
    {
        big_from_u64(1)
    }

    /// A copy with the same value.
    pub fn duplicate(&self) -> (r: BigNat)
        ensures
            r@ == self@,
    {
        BigNat { digits: copy_digits(&self.digits) }
    }

    /// The sum `self + other`.
    pub fn add(&self, other: &BigNat) -> (r: BigNat)
        ensures
            r@ == self@ + other@,
    {
        big_add(self, other)
    }

    /// The difference `self - other`, which must not be negative.
    pub fn sub(&self, other: &BigNat) -> (r: BigNat)
        requires
            other@ <= self@,
        ensures
            r@ == self@ - other@,
    {
        big_sub(self, other)
    }

    /// The product `self * other`.
    pub fn mul(&self, other: &BigNat) -> (r: BigNat)
        ensures
            r@ == self@ * other@,
    {
        big_mul(self, other)
    }

    /// The floor quotient `self / other`, for a non-zero divisor.
    pub fn div(&self, other: &BigNat) -> (r: BigNat)
        requires
            other@ > 0,
        ensures
            r@ == self@ / other@,
    {
        big_div(self, other)
    }

    /// The remainder `self % other`, for a non-zero divisor.
    pub fn rem(&self, other: &BigNat) -> (r: BigNat)
        requires
            other@ > 0,
        ensures
            r@ == self@ % other@,
    {
        big_rem(self, other)
    }

    /// Whether `self < other`.
    pub fn lt(&self, other: &BigNat) -> (r: bool)
        ensures
            r == (self@ < other@),
    {
        big_lt(self, other)
    }

    /// Whether `self == other` as numbers.
    pub fn equals(&self, other: &BigNat) -> (r: bool)
        ensures
            r == (self@ == other@),
    {
        !big_lt(self, other) && !big_lt(other, self)
    }

    /// Whether the value is zero.
    pub fn is_zero(&self) -> (r: bool)
        ensures
            r == (self@ == 0),
    {
        let z = big_from_u64(0);
        !big_lt(&z, self)
    }

    /// `2^w`.
    pub fn pow2(w: usize) -> (r: BigNat)
        ensures
            r@ == pow2(w as nat),
    {
        big_pow2(w)
    }

    /// `self^e`.
    pub fn pow(&self, e: u32) -> (r: BigNat)
        ensures
            r@ == pow(self@ as int, e as nat),
    {
        big_pow(self, e)
    }

    /// Whether bit `j` is set.
    pub fn bit(&self, j: u64) -> (r: bool)
        ensures
            r == nat_bit(self@, j as nat),
    {
        big_bit(self, j)
    }

    /// Set bit `j`.
    pub fn set_bit(&mut self, j: u64)
        ensures
            final(self)@ == if nat_bit(old(self)@, j as nat) {
                old(self)@
            } else {
                old(self)@ + pow2(j as nat)
            },
    {
        big_set_bit(self, j)
    }

    /// The value modulo `2^64`.
    pub fn low_u64(&self) -> (r: u64)
        ensures
            r == self@ % pow2(64),
    {
        big_low_u64(self)
    }

    /// The decimal numeral of the value.
    pub fn to_decimal(&self) -> (r: String)
        ensures
            r@ == decimal(self@),
    {
        big_to_decimal(self)
    }
}

impl PartialEq for BigNat {
    fn eq(&self, other: &Self) -> (r: bool) {
        self.equals(other)
    }
}

impl vstd::std_specs::cmp::PartialEqSpecImpl for BigNat {
    open spec fn obeys_eq_spec() -> bool {
        true
    }

    open spec fn eq_spec(&self, other: &BigNat) -> bool {
        self@ == other@
    }
}

impl Eq for BigNat {}

impl Clone for BigNat {
    fn clone(&self) -> (r: BigNat)
        ensures
            r@ == self@,
    {
        self.duplicate()
    }
}

} // verus!
