//! Bounded integer vectors under a mixed-radix numeral system, with rank/unrank.
//!
//! `digits[i]` ranges over `0..radices[i]`. Digit 0 is most significant.

use crate::bignat::{decimal, BigNat};
use crate::error::CombError;
use vstd::arithmetic::power2::pow2;
use crate::text::text_num;
use vstd::prelude::*;

verus! {

/// The product of the radices from position `i` on.
pub open spec fn radix_product(r: Seq<u64>, i: nat) -> nat
    decreases r.len() - i,
{
    if i >= r.len() {
        1
    } else {
        r[i as int] as nat * radix_product(r, i + 1)
    }
}

/// The value of the digits from position `i` on, each weighted by the product
/// of the radices after it.
pub open spec fn digits_value_from(d: Seq<u64>, r: Seq<u64>, i: nat) -> nat
    decreases r.len() - i,
{
    if i >= r.len() {
        0
    } else {
        d[i as int] as nat * radix_product(r, i + 1) + digits_value_from(d, r, i + 1)
    }
}

/// The mixed-radix ordinal of `d` under radices `r`.
pub open spec fn mixed_radix_value(d: Seq<u64>, r: Seq<u64>) -> nat {
    digits_value_from(d, r, 0)
}

/// Horner's rule over the first `i` digits.
pub open spec fn horner(d: Seq<u64>, r: Seq<u64>, i: nat) -> nat
    decreases i,
{
    if i == 0 {
        0
    } else {
        horner(d, r, (i - 1) as nat) * r[i - 1] as nat + d[i - 1] as nat
    }
}

/// Whether every digit lies below its radix.
pub open spec fn digits_in_range(d: Seq<u64>, r: Seq<u64>) -> bool {
    d.len() == r.len() && forall|i: int| 0 <= i < r.len() ==> #[trigger] d[i] < r[i]
}

/// Whether every radix is positive.
pub open spec fn radices_positive(r: Seq<u64>) -> bool {
    forall|i: int| 0 <= i < r.len() ==> #[trigger] r[i] > 0
}

/// Horner's prefix, scaled, plus the remaining suffix gives the whole value.
pub proof fn lemma_horner_split(d: Seq<u64>, r: Seq<u64>, i: nat)
    requires
        i <= r.len(),
        d.len() == r.len(),
    ensures
        horner(d, r, i) * radix_product(r, i) + digits_value_from(d, r, i) == mixed_radix_value(d, r),
    decreases i,
{
    if i == 0 {
        assert(horner(d, r, 0) == 0);
        assert(0 * radix_product(r, 0) == 0);
    } else {
        lemma_horner_split(d, r, (i - 1) as nat);
        let h = horner(d, r, (i - 1) as nat);
        let ri = r[i - 1] as nat;
        let di = d[i - 1] as nat;
        let p = radix_product(r, i);
        assert(radix_product(r, (i - 1) as nat) == ri * p);
        assert(digits_value_from(d, r, (i - 1) as nat) == di * p + digits_value_from(d, r, i));
        assert((h * ri + di) * p == h * (ri * p) + di * p) by (nonlinear_arith);
        assert(horner(d, r, i) == h * ri + di);
        assert(h * radix_product(r, (i - 1) as nat) + digits_value_from(d, r, (i - 1) as nat) == mixed_radix_value(d, r));
    }
}

/// Digits in range give a value below the product of the radices.
pub proof fn lemma_value_bound(d: Seq<u64>, r: Seq<u64>, i: nat)
    requires
        i <= r.len(),
        digits_in_range(d, r),
    ensures
        digits_value_from(d, r, i) < radix_product(r, i),
    decreases r.len() - i,
{
    if i < r.len() {
        lemma_value_bound(d, r, i + 1);
        let p = radix_product(r, i + 1);
        let v = digits_value_from(d, r, i + 1);
        let di = d[i as int] as nat;
        let ri = r[i as int] as nat;
        assert(di * p + v < ri * p) by (nonlinear_arith)
            requires
                v < p,
                di < ri,
        ;
    }
}

/// The value from position `i` reads only the digits from `i` on.
pub proof fn lemma_value_suffix(d1: Seq<u64>, d2: Seq<u64>, r: Seq<u64>, i: nat)
    requires
        d1.len() == r.len(),
        d2.len() == r.len(),
        forall|k: int| i <= k < r.len() ==> d1[k] == d2[k],
    ensures
        digits_value_from(d1, r, i) == digits_value_from(d2, r, i),
    decreases r.len() - i,
{
    if i < r.len() {
        lemma_value_suffix(d1, d2, r, i + 1);
    }
}

/// Digits in range are determined by their value from position `i` on.
proof fn lemma_value_from_injective(d1: Seq<u64>, d2: Seq<u64>, r: Seq<u64>, i: nat)
    requires
        i <= r.len(),
        digits_in_range(d1, r),
        digits_in_range(d2, r),
        digits_value_from(d1, r, i) == digits_value_from(d2, r, i),
    ensures
        forall|k: int| i <= k < r.len() ==> d1[k] == d2[k],
    decreases r.len() - i,
{
    if i < r.len() {
        lemma_value_bound(d1, r, i + 1);
        lemma_value_bound(d2, r, i + 1);
        let p = radix_product(r, i + 1);
        let v1 = digits_value_from(d1, r, i + 1);
        let v2 = digits_value_from(d2, r, i + 1);
        let a = d1[i as int] as nat;
        let b = d2[i as int] as nat;
        assert(a == b && v1 == v2) by (nonlinear_arith)
            requires
                a * p + v1 == b * p + v2,
                v1 < p,
                v2 < p,
        {
            if a < b {
                assert(a * p + p <= b * p);
            } else if b < a {
                assert(b * p + p <= a * p);
            }
        }
        lemma_value_from_injective(d1, d2, r, i + 1);
    }
}

/// Mixed-radix ranking is injective: two digit vectors in range with the same
/// ordinal are equal, so unranking an ordinal gives the one vector that ranks
/// back to it.
pub proof fn lemma_mixed_radix_injective(d1: Seq<u64>, d2: Seq<u64>, r: Seq<u64>)
    requires
        digits_in_range(d1, r),
        digits_in_range(d2, r),
        mixed_radix_value(d1, r) == mixed_radix_value(d2, r),
    ensures
        d1 == d2,
{
    lemma_value_from_injective(d1, d2, r, 0);
    assert(d1 =~= d2);
}

/// Check digits against radices.
pub fn check(digits: &[u64], radices: &[u64]) -> (res: Result<(), CombError>)
    ensures
        res is Ok <==> (digits@.len() == radices@.len() && radices_positive(radices@) && digits_in_range(
            digits@,
            radices@,
        )),
        res matches Err(e) ==> (e is InvalidParameters || e is OutOfRange),
{
    if digits.len() != radices.len() {
        return Err(CombError::InvalidParameters("digits and radices length mismatch".to_string()));
    }
    let mut i: usize = 0;
    while i < digits.len()
        invariant
            digits@.len() == radices@.len(),
            i <= digits@.len(),
            forall|k: int| 0 <= k < i ==> #[trigger] radices@[k] > 0 && digits@[k] < radices@[k],
        decreases digits@.len() - i,
    {
        let d = digits[i];
        let r = radices[i];
        if r == 0 {
            return Err(CombError::InvalidParameters(text_num("radix ", i as u64, " is zero")));
        }
        if d >= r {
            return Err(CombError::OutOfRange { value: d.to_string(), bound: r.to_string() });
        }
        i += 1;
    }
    Ok(())
}

/// The ordinal of `digits` in the mixed-radix system `radices`.
pub fn mixed_radix_rank(digits: &[u64], radices: &[u64]) -> (res: Result<BigNat, CombError>)
    ensures
        res is Ok <==> (digits@.len() == radices@.len() && radices_positive(radices@) && digits_in_range(
            digits@,
            radices@,
        )),
        match res {
            Ok(v) => v@ == mixed_radix_value(digits@, radices@),
            Err(e) => e is InvalidParameters || e is OutOfRange,
        },
{
    check(digits, radices)?;
    let mut rank = BigNat::zero();
    let mut i: usize = 0;
    while i < digits.len()
        invariant
            digits@.len() == radices@.len(),
            i <= digits@.len(),
            rank@ == horner(digits@, radices@, i as nat),
        decreases digits@.len() - i,
    {
        rank = rank.mul(&BigNat::from_u64(radices[i])).add(&BigNat::from_u64(digits[i]));
        i += 1;
    }
    proof {
        lemma_horner_split(digits@, radices@, digits@.len());
        assert(radix_product(radices@, digits@.len()) == 1);
        assert(digits_value_from(digits@, radices@, digits@.len()) == 0);
        assert(rank@ * 1 == rank@);
    }
    Ok(rank)
}

/// The digit vector for ordinal `rank` in the mixed-radix system `radices`.
pub fn mixed_radix_unrank(rank: &BigNat, radices: &[u64]) -> (res: Result<Vec<u64>, CombError>)
    ensures
        res is Ok <==> (radices_positive(radices@) && rank@ < radix_product(radices@, 0)),
        match res {
            Ok(d) => digits_in_range(d@, radices@) && mixed_radix_value(d@, radices@) == rank@,
            Err(e) => if !radices_positive(radices@) {
                e is InvalidParameters
            } else {
                e matches CombError::OutOfRange { value, bound } && value@ == decimal(rank@) && bound@
                    == decimal(radix_product(radices@, 0))
            },
        },
{
    let len = radices.len();
    let mut i: usize = 0;
    while i < len
        invariant
            len == radices@.len(),
            i <= len,
            forall|k: int| 0 <= k < i ==> #[trigger] radices@[k] > 0,
        decreases len - i,
    {
        if radices[i] == 0 {
            return Err(CombError::InvalidParameters(text_num("radix ", i as u64, " is zero")));
        }
        i += 1;
    }
    let ghost r = radices@;
    let mut remaining = rank.duplicate();
    let mut digits: Vec<u64> = Vec::new();
    let mut k: usize = 0;
    while k < len
        invariant
            r == radices@,
            radices_positive(r),
            remaining@ == rank@,
            len == r.len(),
            k <= len,
            digits@.len() == k,
            forall|x: int| 0 <= x < k ==> #[trigger] digits@[x] == 0,
        decreases len - k,
    {
        digits.push(0);
        k += 1;
    }
    let mut j: usize = len;
    proof {
        assert(radix_product(r, len as nat) == 1);
        assert(digits_value_from(digits@, r, len as nat) == 0);
        assert(remaining@ * 1 == remaining@);
    }
    while j > 0
        invariant
            r == radices@,
            len == r.len(),
            radices_positive(r),
            j <= len,
            digits@.len() == len,
            forall|x: int| j <= x < len ==> #[trigger] digits@[x] < r[x],
            rank@ == remaining@ * radix_product(r, j as nat) + digits_value_from(digits@, r, j as nat),
        decreases j,
    {
        let idx = j - 1;
        let radix = BigNat::from_u64(radices[idx]);
        let d = remaining.rem(&radix);
        let q = remaining.div(&radix);
        let ghost before = digits@;
        proof {
            vstd::arithmetic::power2::lemma2_to64();
            assert(d@ < radices@[idx as int]);
            assert(d@ < pow2(64)) by {
                assert(radices@[idx as int] <= u64::MAX);
            }
            vstd::arithmetic::div_mod::lemma_small_mod(d@, pow2(64));
        }
        let dv = d.low_u64();
        digits.set(idx, dv);
        proof {
            lemma_value_suffix(before, digits@, r, j as nat);
            let p = radix_product(r, j as nat);
            let ri = r[idx as int] as nat;
            vstd::arithmetic::div_mod::lemma_fundamental_div_mod(remaining@ as int, ri as int);
            assert(remaining@ == q@ * ri + dv) by (nonlinear_arith)
                requires
                    remaining@ == ri * (remaining@ / ri) + remaining@ % ri,
                    q@ == remaining@ / ri,
                    dv == remaining@ % ri,
            ;
            assert(radix_product(r, idx as nat) == ri * p);
            assert(digits_value_from(digits@, r, idx as nat) == dv * p + digits_value_from(digits@, r, j as nat));
            assert((q@ * ri + dv) * p == q@ * (ri * p) + dv * p) by (nonlinear_arith);
        }
        remaining = q;
        j -= 1;
    }
    proof {
        lemma_value_bound(digits@, r, 0);
    }
    if !remaining.is_zero() {
        let mut total = BigNat::one();
        let mut t: usize = len;
        while t > 0
            invariant
                r == radices@,
                len == r.len(),
                t <= len,
                total@ == radix_product(r, t as nat),
            decreases t,
        {
            total = BigNat::from_u64(radices[t - 1]).mul(&total);
            t -= 1;
        }
        proof {
            let p = radix_product(r, 0);
            let v = digits_value_from(digits@, r, 0);
            assert(rank@ >= p) by (nonlinear_arith)
                requires
                    rank@ == remaining@ * p + v,
                    remaining@ >= 1,
            ;
        }
        return Err(CombError::OutOfRange { value: rank.to_decimal(), bound: total.to_decimal() });
    }
    Ok(digits)
}

} // verus!
