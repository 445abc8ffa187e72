//! Bit-vector and subset rank spaces (bitmask order).

use crate::bignat::{decimal, nat_bit, BigNat};
use crate::bit_vector::{bit_vector_rank, bit_vector_unrank, bits_value, mask_value};
use crate::descriptor::{describes, param_is, SpaceDescriptor};
use crate::error::RankAdapterError;
use crate::limits::{standard_limits, DiscreteRankLimits};
use crate::metric::{hamming_bits, mismatches, set_sym_diff_len, symmetric_difference};
use crate::subset::{lists_bits, member_set, prefix_valid, subset_rank, subset_unrank};
use vstd::arithmetic::power2::pow2;
use crate::text::text_nums;
use vstd::prelude::*;

verus! {

/// The bits `0..width` of `r`, least significant first.
pub open spec fn bits_of(r: nat, width: nat) -> Seq<bool> {
    Seq::new(width, |j: int| nat_bit(r, j as nat))
}

/// The members `j < n` whose bit is set in `r`.
pub open spec fn bit_members(r: nat, n: nat) -> Set<usize> {
    Set::new(|j: usize| j < n && nat_bit(r, j as nat))
}

/// `usize`'s decimal numeral.
fn usize_text(v: usize) -> (r: String)
    ensures
        r@ == decimal(v as nat),
{
    BigNat::from_usize(v).to_decimal()
}

/// `rank/discrete/bit-vector`: fixed-width bit vectors in natural binary order.
#[derive(Debug, Clone, Copy, PartialEq, Eq)]
pub struct BitVectorSpace {
    /// The vector width.
    pub width: usize,
}

impl BitVectorSpace {
    /// Build a bit-vector space whose width is within the standard limits.
    pub fn try_new(width: usize) -> (r: Result<Self, RankAdapterError>)
        ensures
            r is Ok <==> width <= standard_limits().max_bit_vector_width,
            match r {
                Ok(s) => s.width == width,
                Err(e) => e is LimitExceeded,
            },
    {
        DiscreteRankLimits::standard().check_bit_vector_width(width)?;
        Ok(BitVectorSpace { width })
    }

    fn validate(&self) -> (r: Result<(), RankAdapterError>)
        ensures
            r is Ok <==> self.width <= standard_limits().max_bit_vector_width,
            r matches Err(e) ==> e is LimitExceeded,
    {
        DiscreteRankLimits::standard().check_bit_vector_width(self.width)
    }

    /// The space descriptor.
    pub fn descriptor(&self) -> (r: SpaceDescriptor)
        ensures
            describes(r, "rank/discrete/bit-vector", "natural-binary", "hamming"),
            r.params@.len() == 1,
            param_is(r, 0, "width", decimal(self.width as nat)),
    {
        SpaceDescriptor {
            id: "rank/discrete/bit-vector",
            version: 1,
            params: vec![("width", usize_text(self.width))],
            order: "natural-binary",
            metric: "hamming",
        }
    }

    /// Total cardinality `2^width`.
    pub fn cardinality(&self) -> (r: BigNat)
        ensures
            r@ == pow2(self.width as nat),
    {
        BigNat::pow2(self.width)
    }

    /// Rank a bit vector of length `width` (bit 0 least significant).
    pub fn rank(&self, bits: &[bool]) -> (r: Result<BigNat, RankAdapterError>)
        ensures
            r is Ok <==> self.width <= standard_limits().max_bit_vector_width && bits@.len()
                == self.width,
            match r {
                Ok(v) => v@ == bits_value(bits@),
                Err(e) => if self.width > standard_limits().max_bit_vector_width {
                    e is LimitExceeded
                } else {
                    e is Invalid
                },
            },
    {
        self.validate()?;
        if bits.len() != self.width {
            return Err(RankAdapterError::Invalid(text_nums("bit vector length ", bits.len() as u64, " != width ", self.width as u64, "")));
        }
        Ok(bit_vector_rank(bits))
    }

    /// Unrank an ordinal into the bit vector of length `width` that ranks back
    /// to it.
    pub fn unrank(&self, ordinal: &BigNat) -> (r: Result<Vec<bool>, RankAdapterError>)
        ensures
            r is Ok <==> self.width <= standard_limits().max_bit_vector_width && ordinal@ < pow2(
                self.width as nat,
            ),
            match r {
                Ok(b) => b@ == bits_of(ordinal@, self.width as nat) && bits_value(b@) == ordinal@,
                Err(e) => if self.width > standard_limits().max_bit_vector_width {
                    e is LimitExceeded
                } else {
                    e is Invalid
                },
            },
    {
        self.validate()?;
        match bit_vector_unrank(ordinal, self.width) {
            Ok(b) => {
                assert(b@ =~= bits_of(ordinal@, self.width as nat));
                Ok(b)
            },
            Err(e) => Err(RankAdapterError::from_comb(e)),
        }
    }

    /// Hamming distance between the bit vectors at two ordinals.
    pub fn distance(&self, a: &BigNat, b: &BigNat) -> (r: Result<BigNat, RankAdapterError>)
        ensures
            r is Ok <==> self.width <= standard_limits().max_bit_vector_width && a@ < pow2(
                self.width as nat,
            ) && b@ < pow2(self.width as nat),
            match r {
                Ok(d) => d@ == mismatches(
                    bits_of(a@, self.width as nat),
                    bits_of(b@, self.width as nat),
                    self.width as nat,
                ),
                Err(e) => e is LimitExceeded || e is Invalid,
            },
    {
        let ba = self.unrank(a)?;
        let bb = self.unrank(b)?;
        Ok(hamming_bits(&ba, &bb))
    }
}

/// `rank/discrete/subset`: subsets of `{0, ..., n-1}` in bitmask order.
#[derive(Debug, Clone, Copy, PartialEq, Eq)]
pub struct SubsetSpace {
    /// The ground-set size.
    pub n: usize,
}

impl SubsetSpace {
    /// Build a subset space whose ground set is within the standard limits.
    pub fn try_new(n: usize) -> (r: Result<Self, RankAdapterError>)
        ensures
            r is Ok <==> n <= standard_limits().max_subset_size,
            match r {
                Ok(s) => s.n == n,
                Err(e) => e is LimitExceeded,
            },
    {
        DiscreteRankLimits::standard().check_subset_size(n)?;
        Ok(SubsetSpace { n })
    }

    fn validate(&self) -> (r: Result<(), RankAdapterError>)
        ensures
            r is Ok <==> self.n <= standard_limits().max_subset_size,
            r matches Err(e) ==> e is LimitExceeded,
    {
        DiscreteRankLimits::standard().check_subset_size(self.n)
    }

    /// The space descriptor.
    pub fn descriptor(&self) -> (r: SpaceDescriptor)
        ensures
            describes(r, "rank/discrete/subset", "bitmask", "symmetric-difference"),
            r.params@.len() == 1,
            param_is(r, 0, "n", decimal(self.n as nat)),
    {
        SpaceDescriptor {
            id: "rank/discrete/subset",
            version: 1,
            params: vec![("n", usize_text(self.n))],
            order: "bitmask",
            metric: "symmetric-difference",
        }
    }

    /// Total cardinality `2^n`.
    pub fn cardinality(&self) -> (r: BigNat)
        ensures
            r@ == pow2(self.n as nat),
    {
        BigNat::pow2(self.n)
    }

    /// Rank a subset given as distinct member indices below `n`.
    pub fn rank(&self, members: &[usize]) -> (r: Result<BigNat, RankAdapterError>)
        ensures
            r is Ok <==> self.n <= standard_limits().max_subset_size && prefix_valid(
                members@,
                self.n as nat,
                members@.len() as int,
            ),
            match r {
                Ok(v) => v@ == mask_value(member_set(members@), self.n as nat),
                Err(e) => if self.n > standard_limits().max_subset_size {
                    e is LimitExceeded
                } else {
                    e is Invalid
                },
            },
    {
        self.validate()?;
        match subset_rank(members, self.n) {
            Ok(v) => Ok(v),
            Err(e) => Err(RankAdapterError::from_comb(e)),
        }
    }

    /// Unrank an ordinal into the ascending member list of its subset.
    pub fn unrank(&self, ordinal: &BigNat) -> (r: Result<Vec<usize>, RankAdapterError>)
        ensures
            r is Ok <==> self.n <= standard_limits().max_subset_size && ordinal@ < pow2(self.n as nat),
            match r {
                Ok(s) => lists_bits(s@, ordinal@, self.n as nat) && s@.to_set() == bit_members(
                    ordinal@,
                    self.n as nat,
                ) && mask_value(member_set(s@), self.n as nat) == ordinal@,
                Err(e) => if self.n > standard_limits().max_subset_size {
                    e is LimitExceeded
                } else {
                    e is Invalid
                },
            },
    {
        self.validate()?;
        match subset_unrank(ordinal, self.n) {
            Ok(s) => {
                proof {
                    let n = self.n as nat;
                    assert forall|y: usize| #[trigger] s@.to_set().contains(y) <==> bit_members(
                        ordinal@,
                        n,
                    ).contains(y) by {
                        if s@.contains(y) {
                            let i = choose|i: int| 0 <= i < s@.len() && s@[i] == y;
                            assert(member_set(s@).contains(y as nat));
                        }
                        if y < n && nat_bit(ordinal@, y as nat) {
                            assert(member_set(s@).contains(y as nat));
                            let i = choose|i: int| 0 <= i < s@.len() && s@[i] == y as nat;
                            assert(s@[i] == y);
                        }
                    }
                    assert(s@.to_set() =~= bit_members(ordinal@, n));
                }
                Ok(s)
            },
            Err(e) => Err(RankAdapterError::from_comb(e)),
        }
    }

    /// Symmetric-difference distance between the subsets at two ordinals.
    pub fn distance(&self, a: &BigNat, b: &BigNat) -> (r: Result<BigNat, RankAdapterError>)
        ensures
            r is Ok <==> self.n <= standard_limits().max_subset_size && a@ < pow2(self.n as nat) && b@
                < pow2(self.n as nat),
            match r {
                Ok(d) => d@ == set_sym_diff_len(
                    bit_members(a@, self.n as nat),
                    bit_members(b@, self.n as nat),
                ),
                Err(e) => e is LimitExceeded || e is Invalid,
            },
    {
        let sa = self.unrank(a)?;
        let sb = self.unrank(b)?;
        Ok(symmetric_difference(&sa, &sb))
    }
}

} // verus!
