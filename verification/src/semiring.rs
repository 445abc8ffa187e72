//! The semiring trait and its standard instances.
//!
//! A semiring is a set with two operations, `add` (combine alternatives) and
//! `mul` (chain in sequence), each with an identity (`zero` and `one`). Every
//! instance states its operations over a mathematical model (its view), and
//! the matrix engines are verified against those models.

use crate::bignat::BigNat;
use vstd::prelude::*;

verus! {

/// A semiring: `(add, zero)` is a commutative monoid, `(mul, one)` is a monoid,
/// `mul` distributes over `add`, and `zero` annihilates under `mul`.
///
/// Each operation is specified over the instance's view; `star` is the Kleene
/// star `1 + a + a^2 + ...` where it converges.
pub trait Semiring: Sized + View {
    /// The additive identity, as a model value.
    spec fn zero_v() -> Self::V;

    /// The multiplicative identity, as a model value.
    spec fn one_v() -> Self::V;

    /// Addition on model values.
    spec fn add_v(a: Self::V, b: Self::V) -> Self::V;

    /// Multiplication on model values.
    spec fn mul_v(a: Self::V, b: Self::V) -> Self::V;

    /// The Kleene star on model values, `None` where it diverges.
    spec fn star_v(a: Self::V) -> Option<Self::V>;

    /// The additive identity, also meaning "no value" / "no path".
    fn zero() -> (r: Self)
        ensures
            r@ == Self::zero_v(),
    ;

    /// The multiplicative identity.
    fn one() -> (r: Self)
        ensures
            r@ == Self::one_v(),
    ;

    /// Combine two alternatives.
    fn add(&self, other: &Self) -> (r: Self)
        ensures
            r@ == Self::add_v(self@, other@),
    ;

    /// Chain two values in sequence.
    fn mul(&self, other: &Self) -> (r: Self)
        ensures
            r@ == Self::mul_v(self@, other@),
    ;

    /// Whether this value is the additive identity.
    fn is_zero(&self) -> (r: bool)
        ensures
            r == (self@ == Self::zero_v()),
    ;

    /// The Kleene star `1 + a + a^2 + ...` when it converges, else `None`.
    fn star(&self) -> (r: Option<Self>)
        ensures
            match r {
                Some(s) => Self::star_v(self@) == Some(s@),
                None => Self::star_v(self@) is None,
            },
    ;

    /// A copy of this value with the same model.
    fn duplicate(&self) -> (r: Self)
        ensures
            r@ == self@,
    ;
}

/// The semiring identities and laws, stated for three model values.
pub open spec fn semiring_laws<S: Semiring>(a: S::V, b: S::V, c: S::V) -> bool {
    &&& S::add_v(S::zero_v(), a) == a
    &&& S::add_v(a, S::zero_v()) == a
    &&& S::add_v(a, b) == S::add_v(b, a)
    &&& S::add_v(S::add_v(a, b), c) == S::add_v(a, S::add_v(b, c))
    &&& S::mul_v(S::one_v(), a) == a
    &&& S::mul_v(a, S::one_v()) == a
    &&& S::mul_v(S::mul_v(a, b), c) == S::mul_v(a, S::mul_v(b, c))
    &&& S::mul_v(a, S::add_v(b, c)) == S::add_v(S::mul_v(a, b), S::mul_v(a, c))
    &&& S::mul_v(S::add_v(a, b), c) == S::add_v(S::mul_v(a, c), S::mul_v(b, c))
    &&& S::mul_v(S::zero_v(), a) == S::zero_v()
    &&& S::mul_v(a, S::zero_v()) == S::zero_v()
}

/// Where the star of `a` exists it solves `s = 1 + a * s`.
pub open spec fn star_is_fixpoint<S: Semiring>(a: S::V) -> bool {
    S::star_v(a) matches Some(s) ==> s == S::add_v(S::one_v(), S::mul_v(a, s))
}

/// `i64` addition clamped to the representable range.
pub open spec fn sat_add(a: i64, b: i64) -> i64 {
    if a + b > i64::MAX {
        i64::MAX
    } else if a + b < i64::MIN {
        i64::MIN
    } else {
        (a + b) as i64
    }
}

/// `i64` multiplication clamped to the representable range.
pub open spec fn sat_mul(a: i64, b: i64) -> i64 {
    if a * b > i64::MAX {
        i64::MAX
    } else if a * b < i64::MIN {
        i64::MIN
    } else {
        (a * b) as i64
    }
}

/// Saturating `i64` addition.
pub fn saturating_add_i64(a: i64, b: i64) -> (r: i64)
    ensures
        r == sat_add(a, b),
{
    match a.checked_add(b) {
        Some(x) => x,
        None => {
            if b > 0 {
                i64::MAX
            } else {
                i64::MIN
            }
        },
    }
}

/// Saturating `i64` multiplication.
pub fn saturating_mul_i64(a: i64, b: i64) -> (r: i64)
    ensures
        r == sat_mul(a, b),
{
    match a.checked_mul(b) {
        Some(x) => x,
        None => {
            proof {
                assert((a > 0 && b > 0) || (a < 0 && b < 0) ==> a * b > 0) by (nonlinear_arith);
                assert((a > 0 && b < 0) || (a < 0 && b > 0) ==> a * b < 0) by (nonlinear_arith);
                assert(a == 0 || b == 0 ==> a * b == 0) by (nonlinear_arith);
            }
            if (a > 0) == (b > 0) {
                i64::MAX
            } else {
                i64::MIN
            }
        },
    }
}

// ---------------------------------------------------------------------------
// Boolean semiring
// ---------------------------------------------------------------------------

/// The two-element boolean semiring: `add` is OR, `mul` is AND.
#[derive(Debug, Clone, Copy, PartialEq, Eq)]
pub struct BoolRing(pub bool);

impl View for BoolRing {
    type V = bool;

    open spec fn view(&self) -> bool {
        self.0
    }
}

impl Semiring for BoolRing {
    open spec fn zero_v() -> bool {
        false
    }

    open spec fn one_v() -> bool {
        true
    }

    open spec fn add_v(a: bool, b: bool) -> bool {
        a || b
    }

    open spec fn mul_v(a: bool, b: bool) -> bool {
        a && b
    }

    open spec fn star_v(a: bool) -> Option<bool> {
        Some(true)
    }

    fn zero() -> (r: Self) {
        BoolRing(false)
    }

    fn one() -> (r: Self) {
        BoolRing(true)
    }

    fn add(&self, other: &Self) -> (r: Self) {
        BoolRing(self.0 || other.0)
    }

    fn mul(&self, other: &Self) -> (r: Self) {
        BoolRing(self.0 && other.0)
    }

    fn is_zero(&self) -> (r: bool) {
        !self.0
    }

    /// Reachability closure of a scalar is always reachable: `1 + a + ... = 1`.
    fn star(&self) -> (r: Option<Self>) {
        Some(BoolRing(true))
    }

    fn duplicate(&self) -> (r: Self) {
        BoolRing(self.0)
    }
}

/// The boolean semiring satisfies every semiring law, and its star solves
/// `s = 1 + a s`.
pub proof fn bool_ring_laws(a: bool, b: bool, c: bool)
    ensures
        semiring_laws::<BoolRing>(a, b, c),
        star_is_fixpoint::<BoolRing>(a),
{
}

// ---------------------------------------------------------------------------
// GF(2)
// ---------------------------------------------------------------------------

/// The field GF(2): `add` is XOR, `mul` is AND.
#[derive(Debug, Clone, Copy, PartialEq, Eq)]
pub struct Gf2(pub bool);

impl View for Gf2 {
    type V = bool;

    open spec fn view(&self) -> bool {
        self.0
    }
}

impl Semiring for Gf2 {
    open spec fn zero_v() -> bool {
        false
    }

    open spec fn one_v() -> bool {
        true
    }

    open spec fn add_v(a: bool, b: bool) -> bool {
        a != b
    }

    open spec fn mul_v(a: bool, b: bool) -> bool {
        a && b
    }

    open spec fn star_v(a: bool) -> Option<bool> {
        if a {
            None
        } else {
            Some(true)
        }
    }

    fn zero() -> (r: Self) {
        Gf2(false)
    }

    fn one() -> (r: Self) {
        Gf2(true)
    }

    fn add(&self, other: &Self) -> (r: Self) {
        Gf2(self.0 ^ other.0)
    }

    fn mul(&self, other: &Self) -> (r: Self) {
        Gf2(self.0 && other.0)
    }

    fn is_zero(&self) -> (r: bool) {
        !self.0
    }

    /// `1 + a + a^2 + ...` converges only for `a == 0` (giving `1`); for `a == 1`
    /// the XOR series has no fixed point, so `None`.
    fn star(&self) -> (r: Option<Self>) {
        if self.0 {
            None
        } else {
            Some(Gf2(true))
        }
    }

    fn duplicate(&self) -> (r: Self) {
        Gf2(self.0)
    }
}

/// GF(2) satisfies every semiring law, and its star solves `s = 1 + a s`.
pub proof fn gf2_laws(a: bool, b: bool, c: bool)
    ensures
        semiring_laws::<Gf2>(a, b, c),
        star_is_fixpoint::<Gf2>(a),
{
}

// ---------------------------------------------------------------------------
// Min-plus
// ---------------------------------------------------------------------------

/// Min-plus tropical semiring: `add` is `min`, `mul` is saturating `+`.
///
/// `zero` is `Inf` (no path); `one` is `Fin(0)` (the empty path).
#[derive(Debug, Clone, Copy, PartialEq, Eq)]
pub enum MinPlus {
    /// Positive infinity: the additive identity ("no path").
    Inf,
    /// A finite tropical value (for example, a path length).
    Fin(i64),
}

impl View for MinPlus {
    type V = MinPlus;

    open spec fn view(&self) -> MinPlus {
        *self
    }
}

impl Semiring for MinPlus {
    open spec fn zero_v() -> MinPlus {
        MinPlus::Inf
    }

    open spec fn one_v() -> MinPlus {
        MinPlus::Fin(0)
    }

    open spec fn add_v(a: MinPlus, b: MinPlus) -> MinPlus {
        match (a, b) {
            (MinPlus::Inf, x) => x,
            (x, MinPlus::Inf) => x,
            (MinPlus::Fin(x), MinPlus::Fin(y)) => MinPlus::Fin(
                if x <= y {
                    x
                } else {
                    y
                },
            ),
        }
    }

    open spec fn mul_v(a: MinPlus, b: MinPlus) -> MinPlus {
        match (a, b) {
            (MinPlus::Fin(x), MinPlus::Fin(y)) => MinPlus::Fin(sat_add(x, y)),
            _ => MinPlus::Inf,
        }
    }

    open spec fn star_v(a: MinPlus) -> Option<MinPlus> {
        match a {
            MinPlus::Inf => Some(MinPlus::Fin(0)),
            MinPlus::Fin(x) => if x >= 0 {
                Some(MinPlus::Fin(0))
            } else {
                None
            },
        }
    }

    fn zero() -> (r: Self) {
        MinPlus::Inf
    }

    fn one() -> (r: Self) {
        MinPlus::Fin(0)
    }

    fn add(&self, other: &Self) -> (r: Self) {
        match (self, other) {
            (MinPlus::Inf, x) => *x,
            (x, MinPlus::Inf) => *x,
            (MinPlus::Fin(a), MinPlus::Fin(b)) => MinPlus::Fin(
                if *a <= *b {
                    *a
                } else {
                    *b
                },
            ),
        }
    }

    fn mul(&self, other: &Self) -> (r: Self) {
        match (self, other) {
            (MinPlus::Fin(a), MinPlus::Fin(b)) => MinPlus::Fin(saturating_add_i64(*a, *b)),
            _ => MinPlus::Inf,
        }
    }

    fn is_zero(&self) -> (r: bool) {
        match self {
            MinPlus::Inf => true,
            MinPlus::Fin(_) => false,
        }
    }

    /// `1 + a + a^2 + ... = min(0, a, 2a, ...)`. For `a >= 0` this is `0`; for a
    /// negative finite value the series diverges to `-inf`, so `None`.
    fn star(&self) -> (r: Option<Self>) {
        match self {
            MinPlus::Inf => Some(MinPlus::Fin(0)),
            MinPlus::Fin(a) => if *a >= 0 {
                Some(MinPlus::Fin(0))
            } else {
                None
            },
        }
    }

    fn duplicate(&self) -> (r: Self) {
        *self
    }
}

/// The finite value of a tropical element, `0` for the infinite one.
pub open spec fn min_plus_fin(a: MinPlus) -> int {
    match a {
        MinPlus::Fin(x) => x as int,
        MinPlus::Inf => 0,
    }
}

/// Min-plus satisfies every semiring law whenever the finite sums involved stay
/// inside `i64`; its star solves `s = 1 + a s`.
pub proof fn min_plus_laws(a: MinPlus, b: MinPlus, c: MinPlus)
    requires
        i64::MIN <= min_plus_fin(a) + min_plus_fin(b) + min_plus_fin(c) <= i64::MAX,
        i64::MIN <= min_plus_fin(a) + min_plus_fin(b) <= i64::MAX,
        i64::MIN <= min_plus_fin(b) + min_plus_fin(c) <= i64::MAX,
    ensures
        semiring_laws::<MinPlus>(a, b, c),
        star_is_fixpoint::<MinPlus>(a),
{
}

// ---------------------------------------------------------------------------
// Max-plus
// ---------------------------------------------------------------------------

/// Bounded max-plus tropical semiring: `add` is `max`, `mul` is saturating `+`.
///
/// `zero` is `NegInf`; `one` is `Fin(0)`.
#[derive(Debug, Clone, Copy, PartialEq, Eq)]
pub enum MaxPlus {
    /// Negative infinity: the additive identity ("no path").
    NegInf,
    /// A finite tropical value.
    Fin(i64),
}

impl View for MaxPlus {
    type V = MaxPlus;

    open spec fn view(&self) -> MaxPlus {
        *self
    }
}

impl Semiring for MaxPlus {
    open spec fn zero_v() -> MaxPlus {
        MaxPlus::NegInf
    }

    open spec fn one_v() -> MaxPlus {
        MaxPlus::Fin(0)
    }

    open spec fn add_v(a: MaxPlus, b: MaxPlus) -> MaxPlus {
        match (a, b) {
            (MaxPlus::NegInf, x) => x,
            (x, MaxPlus::NegInf) => x,
            (MaxPlus::Fin(x), MaxPlus::Fin(y)) => MaxPlus::Fin(
                if x >= y {
                    x
                } else {
                    y
                },
            ),
        }
    }

    open spec fn mul_v(a: MaxPlus, b: MaxPlus) -> MaxPlus {
        match (a, b) {
            (MaxPlus::Fin(x), MaxPlus::Fin(y)) => MaxPlus::Fin(sat_add(x, y)),
            _ => MaxPlus::NegInf,
        }
    }

    open spec fn star_v(a: MaxPlus) -> Option<MaxPlus> {
        match a {
            MaxPlus::NegInf => Some(MaxPlus::Fin(0)),
            MaxPlus::Fin(x) => if x <= 0 {
                Some(MaxPlus::Fin(0))
            } else {
                None
            },
        }
    }

    fn zero() -> (r: Self) {
        MaxPlus::NegInf
    }

    fn one() -> (r: Self) {
        MaxPlus::Fin(0)
    }

    fn add(&self, other: &Self) -> (r: Self) {
        match (self, other) {
            (MaxPlus::NegInf, x) => *x,
            (x, MaxPlus::NegInf) => *x,
            (MaxPlus::Fin(a), MaxPlus::Fin(b)) => MaxPlus::Fin(
                if *a >= *b {
                    *a
                } else {
                    *b
                },
            ),
        }
    }

    fn mul(&self, other: &Self) -> (r: Self) {
        match (self, other) {
            (MaxPlus::Fin(a), MaxPlus::Fin(b)) => MaxPlus::Fin(saturating_add_i64(*a, *b)),
            _ => MaxPlus::NegInf,
        }
    }

    fn is_zero(&self) -> (r: bool) {
        match self {
            MaxPlus::NegInf => true,
            MaxPlus::Fin(_) => false,
        }
    }

    /// `1 + a + 2a + ... = max(0, a, 2a, ...)`. For `a <= 0` this is `0`; for a
    /// positive finite value the series diverges to `+inf`, so `None`.
    fn star(&self) -> (r: Option<Self>) {
        match self {
            MaxPlus::NegInf => Some(MaxPlus::Fin(0)),
            MaxPlus::Fin(a) => if *a <= 0 {
                Some(MaxPlus::Fin(0))
            } else {
                None
            },
        }
    }

    fn duplicate(&self) -> (r: Self) {
        *self
    }
}

/// The finite value of a max-plus element, `0` for the infinite one.
pub open spec fn max_plus_fin(a: MaxPlus) -> int {
    match a {
        MaxPlus::Fin(x) => x as int,
        MaxPlus::NegInf => 0,
    }
}

/// Max-plus satisfies every semiring law whenever the finite sums involved stay
/// inside `i64`; its star solves `s = 1 + a s`.
pub proof fn max_plus_laws(a: MaxPlus, b: MaxPlus, c: MaxPlus)
    requires
        i64::MIN <= max_plus_fin(a) + max_plus_fin(b) + max_plus_fin(c) <= i64::MAX,
        i64::MIN <= max_plus_fin(a) + max_plus_fin(b) <= i64::MAX,
        i64::MIN <= max_plus_fin(b) + max_plus_fin(c) <= i64::MAX,
    ensures
        semiring_laws::<MaxPlus>(a, b, c),
        star_is_fixpoint::<MaxPlus>(a),
{
}

// ---------------------------------------------------------------------------
// Counting
// ---------------------------------------------------------------------------

/// Natural-number counting semiring: `add` is `+`, `mul` is `*`.
///
/// `A^k[i][j]` over this semiring counts the walks of length `k` from `i` to
/// `j`. The closure converges only when the matrix is nilpotent (acyclic).
#[derive(Debug, Clone, PartialEq, Eq)]
pub struct Counting(pub BigNat);

impl Counting {
    /// Construct from a small machine integer for convenience.
    pub fn from_u64(value: u64) -> (r: Counting)
        ensures
            r@ == value,
    {
        Counting(BigNat::from_u64(value))
    }
}

impl View for Counting {
    type V = nat;

    open spec fn view(&self) -> nat {
        self.0@
    }
}

impl Semiring for Counting {
    open spec fn zero_v() -> nat {
        0
    }

    open spec fn one_v() -> nat {
        1
    }

    open spec fn add_v(a: nat, b: nat) -> nat {
        a + b
    }

    open spec fn mul_v(a: nat, b: nat) -> nat {
        a * b
    }

    open spec fn star_v(a: nat) -> Option<nat> {
        if a == 0 {
            Some(1)
        } else {
            None
        }
    }

    fn zero() -> (r: Self) {
        Counting(BigNat::zero())
    }

    fn one() -> (r: Self) {
        Counting(BigNat::one())
    }

    fn add(&self, other: &Self) -> (r: Self) {
        Counting(self.0.add(&other.0))
    }

    fn mul(&self, other: &Self) -> (r: Self) {
        Counting(self.0.mul(&other.0))
    }

    fn is_zero(&self) -> (r: bool) {
        self.0.is_zero()
    }

    /// `1 + a + a^2 + ...` is finite only when `a == 0`, giving `1`.
    fn star(&self) -> (r: Option<Self>) {
        if self.is_zero() {
            Some(Self::one())
        } else {
            None
        }
    }

    fn duplicate(&self) -> (r: Self) {
        Counting(self.0.duplicate())
    }
}

/// The counting semiring satisfies every semiring law, and its star solves
/// `s = 1 + a s`.
pub proof fn counting_laws(a: nat, b: nat, c: nat)
    ensures
        semiring_laws::<Counting>(a, b, c),
        star_is_fixpoint::<Counting>(a),
{
    assert((a * b) * c == a * (b * c)) by (nonlinear_arith);
    assert(a * (b + c) == a * b + a * c) by (nonlinear_arith);
    assert((a + b) * c == a * c + b * c) by (nonlinear_arith);
}

// ---------------------------------------------------------------------------
// Integer ring
// ---------------------------------------------------------------------------

/// The ring of `i64` under saturating `+` and `*`, for signed structural
/// matrices (incidence, Laplacian). It has no Kleene star.
#[derive(Debug, Clone, Copy, PartialEq, Eq)]
pub struct IntRing(pub i64);

impl View for IntRing {
    type V = i64;

    open spec fn view(&self) -> i64 {
        self.0
    }
}

impl Semiring for IntRing {
    open spec fn zero_v() -> i64 {
        0
    }

    open spec fn one_v() -> i64 {
        1
    }

    open spec fn add_v(a: i64, b: i64) -> i64 {
        sat_add(a, b)
    }

    open spec fn mul_v(a: i64, b: i64) -> i64 {
        sat_mul(a, b)
    }

    open spec fn star_v(a: i64) -> Option<i64> {
        None
    }

    fn zero() -> (r: Self) {
        IntRing(0)
    }

    fn one() -> (r: Self) {
        IntRing(1)
    }

    fn add(&self, other: &Self) -> (r: Self) {
        IntRing(saturating_add_i64(self.0, other.0))
    }

    fn mul(&self, other: &Self) -> (r: Self) {
        IntRing(saturating_mul_i64(self.0, other.0))
    }

    fn is_zero(&self) -> (r: bool) {
        self.0 == 0
    }

    fn star(&self) -> (r: Option<Self>) {
        None
    }

    fn duplicate(&self) -> (r: Self) {
        *self
    }
}

/// Whether every sum and product met by the semiring laws on `a, b, c` stays
/// inside `i64`.
pub open spec fn int_ring_in_range(a: i64, b: i64, c: i64) -> bool {
    let r = |x: int| i64::MIN <= x <= i64::MAX;
    &&& r(a + b) && r(b + c) && r(a + c) && r(a + b + c)
    &&& r(a * b) && r(b * c) && r(a * c) && r(a * b * c)
    &&& r(a * (b + c)) && r((a + b) * c)
}

/// The integer ring satisfies every semiring law whenever no sum or product
/// involved saturates.
pub proof fn int_ring_laws(a: i64, b: i64, c: i64)
    requires
        int_ring_in_range(a, b, c),
    ensures
        semiring_laws::<IntRing>(a, b, c),
{
    assert((a * b) * c == a * (b * c)) by (nonlinear_arith);
    assert(a * (b + c) == a * b + a * c) by (nonlinear_arith);
    assert((a + b) * c == a * c + b * c) by (nonlinear_arith);
    assert(a * 1 == a && 1 * a == a && a * 0 == 0 && 0 * a == 0) by (nonlinear_arith);
}

} // verus!
