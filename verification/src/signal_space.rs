//! The finite-alphabet FWHT-signal rank space (coefficient L1 metric).

use crate::bignat::{decimal, BigNat};
use crate::combinatorial::digits_at;
use crate::descriptor::{describes, param_is, SpaceDescriptor};
use crate::error::RankAdapterError;
use crate::metric::{l1_i64, l1_sum_i64};
use crate::mixed_radix::{
    digits_in_range, mixed_radix_rank, mixed_radix_unrank, mixed_radix_value, radices_positive,
    radix_product,
};
use vstd::arithmetic::power::pow;
use crate::text::{push_num, text_cat, text_nums};
use crate::weight::i64_decimal;
use vstd::prelude::*;

verus! {

/// `len` copies of the radix `alphabet`.
pub open spec fn signal_radices(alphabet: u64, len: nat) -> Seq<u64> {
    Seq::new(len, |i: int| alphabet)
}

/// Coefficients read as digits.
pub open spec fn coeff_digits(c: Seq<i64>) -> Seq<u64> {
    Seq::new(c.len(), |i: int| c[i] as u64)
}

/// Digits read as coefficients.
pub open spec fn digit_coeffs(d: Seq<u64>) -> Seq<i64> {
    Seq::new(d.len(), |i: int| d[i] as i64)
}

/// Whether every coefficient lies in `0..alphabet`.
pub open spec fn in_alphabet(c: Seq<i64>, alphabet: u64) -> bool {
    forall|i: int| 0 <= i < c.len() ==> 0 <= #[trigger] c[i] < alphabet
}

/// `usize`'s decimal numeral.
fn usize_text(v: usize) -> (r: String)
    ensures
        r@ == decimal(v as nat),
{
    BigNat::from_usize(v).to_decimal()
}

/// `rank/discrete/fwht-signal`: integer signals of length `len` whose every
/// coefficient lies in the declared finite alphabet `0..alphabet`.
///
/// Rankable only because the alphabet is finite and declared; the ordinal is
/// the mixed-radix value of the coefficient vector.
#[derive(Debug, Clone, Copy, PartialEq, Eq)]
pub struct FwhtSignalSpace {
    /// Signal length (number of coefficients).
    pub len: usize,
    /// Exclusive upper bound on each coefficient.
    pub alphabet: u64,
}

impl FwhtSignalSpace {
    fn radices(&self) -> (r: Vec<u64>)
        ensures
            r@ == signal_radices(self.alphabet, self.len as nat),
    {
        let mut r: Vec<u64> = Vec::new();
        let mut i: usize = 0;
        while i < self.len
            invariant
                i <= self.len,
                r@ == signal_radices(self.alphabet, i as nat),
            decreases self.len - i,
        {
            r.push(self.alphabet);
            i += 1;
            assert(r@ =~= signal_radices(self.alphabet, i as nat));
        }
        r
    }

    /// The space descriptor.
    pub fn descriptor(&self) -> (r: SpaceDescriptor)
        ensures
            describes(r, "rank/discrete/fwht-signal", "mixed-radix", "coefficient-l1"),
            r.params@.len() == 2,
            param_is(r, 0, "len", decimal(self.len as nat)),
            param_is(r, 1, "alphabet", decimal(self.alphabet as nat)),
    {
        SpaceDescriptor {
            id: "rank/discrete/fwht-signal",
            version: 1,
            params: vec![
                ("len", usize_text(self.len)),
                ("alphabet", BigNat::from_u64(self.alphabet).to_decimal()),
            ],
            order: "mixed-radix",
            metric: "coefficient-l1",
        }
    }

    /// Total cardinality `alphabet^len`, the length taken as a `u32`.
    pub fn cardinality(&self) -> (r: BigNat)
        ensures
            r@ == pow(self.alphabet as int, (self.len as u32) as nat),
    {
        #[verifier::truncate]
        let e = self.len as u32;
        BigNat::from_u64(self.alphabet).pow(e)
    }

    /// Rank a coefficient vector of length `len`, each value in `0..alphabet`.
    pub fn rank(&self, coeffs: &[i64]) -> (r: Result<BigNat, RankAdapterError>)
        ensures
            r is Ok <==> coeffs@.len() == self.len && in_alphabet(coeffs@, self.alphabet),
            match r {
                Ok(v) => v@ == mixed_radix_value(
                    coeff_digits(coeffs@),
                    signal_radices(self.alphabet, self.len as nat),
                ),
                Err(e) => e is Invalid,
            },
    {
        if coeffs.len() != self.len {
            return Err(RankAdapterError::Invalid(text_nums("signal length ", coeffs.len() as u64, " != ", self.len as u64, "")));
        }
        let mut digits: Vec<u64> = Vec::new();
        let mut i: usize = 0;
        while i < coeffs.len()
            invariant
                i <= coeffs@.len(),
                coeffs@.len() == self.len,
                digits@ == coeff_digits(coeffs@.take(i as int)),
                forall|j: int| 0 <= j < i ==> 0 <= #[trigger] coeffs@[j] < self.alphabet,
            decreases coeffs@.len() - i,
        {
            let c = coeffs[i];
            if c < 0 || c as u64 >= self.alphabet {
                let cd = i64_decimal(c);
                let mut m = text_cat("coefficient ", cd.as_str());
                m.append(" outside alphabet 0..");
                push_num(&mut m, self.alphabet);
                return Err(RankAdapterError::Invalid(m));
            }
            digits.push(c as u64);
            i += 1;
            assert(digits@ =~= coeff_digits(coeffs@.take(i as int)));
        }
        let radices = self.radices();
        proof {
            assert(coeffs@.take(coeffs@.len() as int) =~= coeffs@);
            if self.len > 0 {
                assert(0 <= coeffs@[0] < self.alphabet);
            }
            assert(radices_positive(radices@));
            assert(digits_in_range(digits@, radices@));
        }
        match mixed_radix_rank(digits.as_slice(), radices.as_slice()) {
            Ok(v) => Ok(v),
            Err(e) => Err(RankAdapterError::from_comb(e)),
        }
    }

    /// Unrank an ordinal into the coefficient vector that ranks back to it.
    pub fn unrank(&self, ordinal: &BigNat) -> (r: Result<Vec<i64>, RankAdapterError>)
        ensures
            r is Ok <==> radices_positive(signal_radices(self.alphabet, self.len as nat)) && ordinal@
                < radix_product(signal_radices(self.alphabet, self.len as nat), 0),
            match r {
                Ok(c) => c@.len() == self.len && c@ == digit_coeffs(
                    digits_at(signal_radices(self.alphabet, self.len as nat), ordinal@),
                ),
                Err(e) => e is Invalid,
            },
    {
        let radices = self.radices();
        let digits = match mixed_radix_unrank(ordinal, radices.as_slice()) {
            Ok(d) => d,
            Err(e) => {
                return Err(RankAdapterError::from_comb(e));
            },
        };
        let ghost target = digits_at(radices@, ordinal@);
        proof {
            crate::mixed_radix::lemma_mixed_radix_injective(digits@, target, radices@);
        }
        let mut out: Vec<i64> = Vec::new();
        let mut i: usize = 0;
        while i < digits.len()
            invariant
                i <= digits@.len(),
                out@ == digit_coeffs(digits@.take(i as int)),
            decreases digits@.len() - i,
        {
            #[verifier::truncate]
            let c = digits[i] as i64;
            out.push(c);
            i += 1;
            assert(out@ =~= digit_coeffs(digits@.take(i as int)));
        }
        proof {
            assert(digits@.take(digits@.len() as int) =~= digits@);
        }
        Ok(out)
    }

    /// Coefficient L1 distance between the signals at two ordinals.
    pub fn distance(&self, a: &BigNat, b: &BigNat) -> (r: Result<BigNat, RankAdapterError>)
        ensures
            r is Ok <==> radices_positive(signal_radices(self.alphabet, self.len as nat)) && a@
                < radix_product(signal_radices(self.alphabet, self.len as nat), 0) && b@
                < radix_product(signal_radices(self.alphabet, self.len as nat), 0),
            match r {
                Ok(d) => d@ == l1_sum_i64(
                    digit_coeffs(digits_at(signal_radices(self.alphabet, self.len as nat), a@)),
                    digit_coeffs(digits_at(signal_radices(self.alphabet, self.len as nat), b@)),
                    self.len as nat,
                ),
                Err(e) => e is Invalid,
            },
    {
        let sa = self.unrank(a)?;
        let sb = self.unrank(b)?;
        Ok(l1_i64(&sa, &sb))
    }
}

} // verus!
