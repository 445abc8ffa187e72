//! Reviewable limits for rank-space descriptors built from untrusted input.

use crate::error::RankAdapterError;
use crate::bignat::decimal;
use crate::text::{push_num, text_cat, text_num, text_nums};
use vstd::prelude::*;

verus! {

/// Size limits for the discrete rank spaces.
#[derive(Debug, Clone, Copy, PartialEq, Eq)]
pub struct DiscreteRankLimits {
    /// Largest bit-vector width.
    pub max_bit_vector_width: usize,
    /// Largest subset ground-set size.
    pub max_subset_size: usize,
    /// Largest combination ground-set size.
    pub max_combination_n: usize,
    /// Largest permutation size.
    pub max_permutation_n: usize,
    /// Largest simple-graph node count.
    pub max_simple_graph_nodes: usize,
    /// Longest bounded-integer vector.
    pub max_bounded_vector_len: usize,
    /// Largest mixed radix.
    pub max_radix: u64,
    /// Longest FWHT signal.
    pub max_fwht_signal_len: usize,
    /// Largest FWHT alphabet.
    pub max_fwht_alphabet: u64,
}

/// The standard limits: 127 for the combinatorial sizes, 16 graph nodes,
/// one million for radices and alphabets.
pub open spec fn standard_limits() -> DiscreteRankLimits {
    DiscreteRankLimits {
        max_bit_vector_width: 127,
        max_subset_size: 127,
        max_combination_n: 127,
        max_permutation_n: 127,
        max_simple_graph_nodes: 16,
        max_bounded_vector_len: 127,
        max_radix: 1_000_000,
        max_fwht_signal_len: 127,
        max_fwht_alphabet: 1_000_000,
    }
}

/// `name`, a space, the numeral of `value`, " exceeds ", then the numeral of
/// `maximum`.
fn over_text(name: &str, value: u64, maximum: u64) -> (r: String)
    ensures
        r@ == name@ + " "@ + decimal(value as nat) + " exceeds "@ + decimal(maximum as nat),
{
    let mut m = String::from_str(name);
    m.append(" ");
    push_num(&mut m, value);
    m.append(" exceeds ");
    push_num(&mut m, maximum);
    m
}

impl DiscreteRankLimits {
    /// The standard limits.
    pub fn standard() -> (r: Self)
        ensures
            r == standard_limits(),
    {
        DiscreteRankLimits {
            max_bit_vector_width: 127,
            max_subset_size: 127,
            max_combination_n: 127,
            max_permutation_n: 127,
            max_simple_graph_nodes: 16,
            max_bounded_vector_len: 127,
            max_radix: 1_000_000,
            max_fwht_signal_len: 127,
            max_fwht_alphabet: 1_000_000,
        }
    }

    /// The quantity `name` at `value` must not exceed `maximum`.
    fn check_usize(&self, name: &str, value: usize, maximum: usize) -> (r: Result<(), RankAdapterError>)
        ensures
            r is Ok <==> value <= maximum,
            r matches Err(e) ==> e is LimitExceeded,
    {
        if value > maximum {
            return Err(RankAdapterError::LimitExceeded(over_text(name, value as u64, maximum as u64)));
        }
        Ok(())
    }

    /// The quantity `name` at `value` must be non-zero and not exceed
    /// `maximum`.
    fn check_bounded_u64(&self, name: &str, value: u64, maximum: u64) -> (r: Result<(), RankAdapterError>)
        ensures
            r is Ok <==> 0 < value <= maximum,
            value == 0 ==> (r matches Err(e) && e is Invalid),
            0 < value && value > maximum ==> (r matches Err(e) && e is LimitExceeded),
    {
        if value == 0 {
            return Err(RankAdapterError::Invalid(text_cat(name, " must be non-zero")));
        }
        if value > maximum {
            return Err(RankAdapterError::LimitExceeded(over_text(name, value, maximum)));
        }
        Ok(())
    }

    /// Check a bit-vector width.
    pub fn check_bit_vector_width(&self, width: usize) -> (r: Result<(), RankAdapterError>)
        ensures
            r is Ok <==> width <= self.max_bit_vector_width,
            r matches Err(e) ==> e is LimitExceeded,
    {
        self.check_usize("bit-vector width", width, self.max_bit_vector_width)
    }

    /// Check a subset ground-set size.
    pub fn check_subset_size(&self, n: usize) -> (r: Result<(), RankAdapterError>)
        ensures
            r is Ok <==> n <= self.max_subset_size,
            r matches Err(e) ==> e is LimitExceeded,
    {
        self.check_usize("subset size", n, self.max_subset_size)
    }

    /// Check a combination shape: `n` within its limit, then `k <= n`.
    pub fn check_combination(&self, n: usize, k: usize) -> (r: Result<(), RankAdapterError>)
        ensures
            r is Ok <==> n <= self.max_combination_n && k <= n,
            n > self.max_combination_n ==> (r matches Err(e) && e is LimitExceeded),
            n <= self.max_combination_n && k > n ==> (r matches Err(e) && e is Invalid),
    {
        self.check_usize("combination n", n, self.max_combination_n)?;
        if k > n {
            return Err(RankAdapterError::Invalid(text_nums("combination k=", k as u64, " exceeds n=", n as u64, "")));
        }
        Ok(())
    }

    /// Check a permutation size.
    pub fn check_permutation_size(&self, n: usize) -> (r: Result<(), RankAdapterError>)
        ensures
            r is Ok <==> n <= self.max_permutation_n,
            r matches Err(e) ==> e is LimitExceeded,
    {
        self.check_usize("permutation size", n, self.max_permutation_n)
    }

    /// Check a simple-graph node count.
    pub fn check_simple_graph_nodes(&self, n: usize) -> (r: Result<(), RankAdapterError>)
        ensures
            r is Ok <==> n <= self.max_simple_graph_nodes,
            r matches Err(e) ==> e is LimitExceeded,
    {
        self.check_usize("simple-graph nodes", n, self.max_simple_graph_nodes)
    }

    /// Check mixed radices: the length within its limit, then each radix
    /// non-zero and within its limit (the first failing one reported).
    pub fn check_radices(&self, radices: &[u64]) -> (r: Result<(), RankAdapterError>)
        ensures
            r is Ok <==> radices@.len() <= self.max_bounded_vector_len && forall|i: int|
                0 <= i < radices@.len() ==> 0 < #[trigger] radices@[i] <= self.max_radix,
            radices@.len() > self.max_bounded_vector_len ==> (r matches Err(e) && e is LimitExceeded),
            r matches Err(e) ==> (e is LimitExceeded || e is Invalid),
            radices@.len() <= self.max_bounded_vector_len ==> (r matches Err(e) ==> exists|i: int|
                0 <= i < radices@.len() && (forall|j: int| 0 <= j < i ==> 0 < #[trigger] radices@[j] <= self.max_radix)
                    && (#[trigger] radices@[i] == 0 ==> e is Invalid) && (radices@[i] > self.max_radix ==> e
                    is LimitExceeded) && !(0 < radices@[i] <= self.max_radix)),
    {
        self.check_usize("bounded-int-vector length", radices.len(), self.max_bounded_vector_len)?;
        let mut i: usize = 0;
        while i < radices.len()
            invariant
                i <= radices@.len(),
                radices@.len() <= self.max_bounded_vector_len,
                forall|j: int| 0 <= j < i ==> 0 < #[trigger] radices@[j] <= self.max_radix,
            decreases radices@.len() - i,
        {
            if radices[i] == 0 {
                let e = RankAdapterError::Invalid(text_num("radix ", i as u64, " is zero"));
                assert(radices@[i as int] == 0);
                return Err(e);
            }
            let checked = self.check_bounded_u64("radix", radices[i], self.max_radix);
            if checked.is_err() {
                assert(!(0 < radices@[i as int] <= self.max_radix));
                assert(radices@[i as int] > self.max_radix);
                return checked;
            }
            i += 1;
        }
        Ok(())
    }

    /// Check an FWHT signal shape: the length, then the alphabet.
    pub fn check_fwht_signal(&self, len: usize, alphabet: u64) -> (r: Result<(), RankAdapterError>)
        ensures
            r is Ok <==> len <= self.max_fwht_signal_len && 0 < alphabet <= self.max_fwht_alphabet,
            len > self.max_fwht_signal_len ==> (r matches Err(e) && e is LimitExceeded),
            len <= self.max_fwht_signal_len && alphabet == 0 ==> (r matches Err(e) && e is Invalid),
            len <= self.max_fwht_signal_len && alphabet > self.max_fwht_alphabet ==> (r matches Err(e) && e is LimitExceeded),
    {
        self.check_usize("FWHT signal length", len, self.max_fwht_signal_len)?;
        self.check_bounded_u64("FWHT alphabet", alphabet, self.max_fwht_alphabet)
    }
}

impl Default for DiscreteRankLimits {
    fn default() -> (r: Self)
        ensures
            r == standard_limits(),
    {
        DiscreteRankLimits::standard()
    }
}

} // verus!
