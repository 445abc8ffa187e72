//! Fixed-width bit vectors in natural binary order, with rank/unrank.
//!
//! Position 0 is the least-significant bit, so ordinal `r` maps to the bit
//! vector whose bit `j` is `(r >> j) & 1`.

use crate::bignat::{decimal, nat_bit, BigNat};
use crate::error::CombError;
use vstd::arithmetic::div_mod::{lemma_fundamental_div_mod, lemma_div_pos_is_pos, lemma_small_mod};
use vstd::arithmetic::power2::{lemma_pow2_pos, lemma_pow2_unfold, pow2};
use crate::text::text_nums;
use vstd::prelude::*;

verus! {

/// The largest width whose `2^width` cardinality fits a `u128` cursor.
pub const MAX_WIDTH: usize = 127;

/// `sum of 2^j` over the members `j < n` of `s`: the bitmask of `s` below `n`.
pub open spec fn mask_value(s: Set<nat>, n: nat) -> nat
    decreases n,
{
    if n == 0 {
        0
    } else {
        mask_value(s, (n - 1) as nat) + if s.contains((n - 1) as nat) {
            pow2((n - 1) as nat)
        } else {
            0
        }
    }
}

/// The positions of the set bits of a bit vector.
pub open spec fn set_positions(bits: Seq<bool>) -> Set<nat> {
    Set::new(|j: nat| j < bits.len() && bits[j as int])
}

/// The ordinal of a bit vector: bit `j` weighs `2^j`.
pub open spec fn bits_value(bits: Seq<bool>) -> nat {
    mask_value(set_positions(bits), bits.len())
}

/// A set with no members below `n` has mask zero.
pub proof fn lemma_mask_empty(s: Set<nat>, n: nat)
    requires
        forall|j: nat| j < n ==> !s.contains(j),
    ensures
        mask_value(s, n) == 0,
    decreases n,
{
    if n > 0 {
        lemma_mask_empty(s, (n - 1) as nat);
    }
}

/// A bitmask below `n` is below `2^n`.
pub proof fn lemma_mask_bound(s: Set<nat>, n: nat)
    ensures
        mask_value(s, n) < pow2(n),
    decreases n,
{
    if n == 0 {
        assert(pow2(0) == 1) by {
            vstd::arithmetic::power2::lemma2_to64();
        }
    } else {
        lemma_mask_bound(s, (n - 1) as nat);
        lemma_pow2_unfold(n);
    }
}

/// The masks of two sets agree below `n` when the sets agree below `n`.
pub proof fn lemma_mask_ext(s: Set<nat>, t: Set<nat>, n: nat)
    requires
        forall|j: nat| j < n ==> (s.contains(j) <==> t.contains(j)),
    ensures
        mask_value(s, n) == mask_value(t, n),
    decreases n,
{
    if n > 0 {
        lemma_mask_ext(s, t, (n - 1) as nat);
    }
}

/// Adding a new member `i < n` adds `2^i` to the mask.
pub proof fn lemma_mask_insert(s: Set<nat>, i: nat, n: nat)
    requires
        i < n,
        !s.contains(i),
    ensures
        mask_value(s.insert(i), n) == mask_value(s, n) + pow2(i),
    decreases n,
{
    if n - 1 == i {
        lemma_mask_ext(s, s.insert(i), i);
    } else {
        lemma_mask_insert(s, i, (n - 1) as nat);
    }
}

/// Bit `i` of the mask below `n` records membership of `i`.
pub proof fn lemma_mask_bit(s: Set<nat>, i: nat, n: nat)
    requires
        i < n,
    ensures
        nat_bit(mask_value(s, n), i) == s.contains(i),
    decreases n,
{
    lemma_pow2_pos(i);
    let p = pow2(i);
    if n - 1 == i {
        lemma_mask_bound(s, i);
        let low = mask_value(s, i);
        let c: nat = if s.contains(i) { 1 } else { 0 };
        assert(mask_value(s, n) == low + c * p);
        lemma_fundamental_div_mod_unique(low + c * p, p, c, low);
        assert(c % 2 == c);
    } else {
        lemma_mask_bit(s, i, (n - 1) as nat);
        let m = (n - 1) as nat;
        let prev = mask_value(s, m);
        let c: nat = if s.contains(m) { 1 } else { 0 };
        assert(mask_value(s, n) == prev + c * pow2(m));
        vstd::arithmetic::power2::lemma_pow2_adds(i, (m - i) as nat);
        let q = pow2((m - i) as nat);
        assert(pow2(m) == p * q);
        lemma_pow2_unfold((m - i) as nat);
        assert(q % 2 == 0) by {
            assert(q == 2 * pow2((m - i - 1) as nat));
        }
        let hi = prev / p;
        let lo = prev % p;
        lemma_fundamental_div_mod(prev as int, p as int);
        assert(prev + c * pow2(m) == p * (hi + c * q) + lo) by (nonlinear_arith)
            requires
                prev == p * hi + lo,
                pow2(m) == p * q,
        ;
        vstd::arithmetic::div_mod::lemma_mod_bound(prev as int, p as int);
        lemma_fundamental_div_mod_unique(prev + c * pow2(m), p, hi + c * q, lo);
        lemma_even_mul(c, q);
        lemma_add_even(hi, c * q);
    }
}

/// Division with remainder is unique.
pub proof fn lemma_fundamental_div_mod_unique(x: nat, d: nat, q: nat, r: nat)
    requires
        d > 0,
        r < d,
        x == d * q + r,
    ensures
        x / d == q,
        x % d == r,
{
    assert(x == q * d + r) by (nonlinear_arith)
        requires
            x == d * q + r,
    ;
    vstd::arithmetic::div_mod::lemma_fundamental_div_mod_converse(x as int, d as int, q as int, r as int);
}

/// Adding an even number keeps the parity.
pub proof fn lemma_add_even(a: nat, e: nat)
    requires
        e % 2 == 0,
    ensures
        (a + e) % 2 == a % 2,
{
    lemma_fundamental_div_mod(a as int, 2);
    lemma_fundamental_div_mod(e as int, 2);
    vstd::arithmetic::div_mod::lemma_mod_bound(a as int, 2);
    lemma_fundamental_div_mod_unique(a + e, 2, a / 2 + e / 2, a % 2);
}

/// A multiple of an even number is even.
pub proof fn lemma_even_mul(c: nat, q: nat)
    requires
        q % 2 == 0,
    ensures
        (c * q) % 2 == 0,
{
    lemma_fundamental_div_mod(q as int, 2);
    assert(c * q == 2 * (c * (q / 2)) + 0) by (nonlinear_arith)
        requires
            q == 2 * (q / 2) + q % 2,
            q % 2 == 0,
    ;
    lemma_fundamental_div_mod_unique(c * q, 2, c * (q / 2), 0);
}

/// The bits of `x` below `w` rebuild `x` when `x < 2^w`.
pub proof fn lemma_mask_of_bits(x: nat, w: nat)
    requires
        x < pow2(w),
    ensures
        mask_value(Set::new(|j: nat| nat_bit(x, j)), w) == x,
    decreases w,
{
    let s = Set::new(|j: nat| nat_bit(x, j));
    if w == 0 {
        vstd::arithmetic::power2::lemma2_to64();
    } else {
        let m = (w - 1) as nat;
        lemma_pow2_pos(m);
        let p = pow2(m);
        lemma_pow2_unfold(w);
        let low = x % p;
        let hi = x / p;
        lemma_fundamental_div_mod(x as int, p as int);
        vstd::arithmetic::div_mod::lemma_mod_bound(x as int, p as int);
        assert(hi < 2) by (nonlinear_arith)
            requires
                x == p * hi + low,
                x < 2 * p,
                low >= 0,
        ;
        lemma_mask_of_bits(low, m);
        let t = Set::new(|j: nat| nat_bit(low, j));
        assert forall|j: nat| j < m implies (s.contains(j) <==> t.contains(j)) by {
            lemma_bits_below(x, p, m, j);
        }
        lemma_mask_ext(s, t, m);
        assert(hi % 2 == hi);
        assert(s.contains(m) == nat_bit(x, m));
        assert(nat_bit(x, m) == (hi == 1));
        assert(mask_value(s, w) == mask_value(s, m) + if s.contains(m) { p } else { 0 });
        assert(mask_value(t, m) == low);
        if hi == 1 {
            assert(p * hi == p) by (nonlinear_arith)
                requires
                    hi == 1,
            ;
            assert(x == p + low);
        } else {
            assert(hi == 0);
            assert(p * hi == 0) by (nonlinear_arith)
                requires
                    hi == 0,
            ;
            assert(x == low);
        }
    }
}

/// Bits below `m` of `x` and of `x mod 2^m` agree.
proof fn lemma_bits_below(x: nat, p: nat, m: nat, j: nat)
    requires
        p == pow2(m),
        j < m,
    ensures
        nat_bit(x, j) == nat_bit(x % p, j),
{
    lemma_pow2_pos(j);
    lemma_pow2_pos(m);
    let pj = pow2(j);
    vstd::arithmetic::power2::lemma_pow2_adds(j, (m - j) as nat);
    let q = pow2((m - j) as nat);
    lemma_pow2_unfold((m - j) as nat);
    assert(q % 2 == 0) by {
        assert(q == 2 * pow2((m - j - 1) as nat));
    }
    let hi = x / p;
    let lo = x % p;
    lemma_fundamental_div_mod(x as int, p as int);
    let a = lo / pj;
    let b = lo % pj;
    lemma_fundamental_div_mod(lo as int, pj as int);
    vstd::arithmetic::div_mod::lemma_mod_bound(lo as int, pj as int);
    assert(x == pj * (hi * q + a) + b) by (nonlinear_arith)
        requires
            x == p * hi + lo,
            lo == pj * a + b,
            p == pj * q,
    ;
    lemma_fundamental_div_mod_unique(x, pj, hi * q + a, b);
    lemma_even_mul(hi, q);
    lemma_add_even(a, hi * q);
    assert(hi * q + a == a + hi * q);
}

/// `1 << w` in `u128` is `2^w` for `w <= 127`.
pub proof fn lemma_u128_shl_one(w: u128)
    requires
        w <= 127,
    ensures
        (1u128 << w) == pow2(w as nat),
    decreases w,
{
    if w == 0 {
        assert((1u128 << 0u128) == 1u128) by (bit_vector);
        vstd::arithmetic::power2::lemma2_to64();
    } else {
        lemma_u128_shl_one((w - 1) as u128);
        let v = (w - 1) as u128;
        assert((1u128 << (v + 1)) == 2 * (1u128 << v)) by (bit_vector)
            requires
                v < 127,
        ;
        lemma_pow2_unfold(w as nat);
    }
}

/// Bit `j` of a `u128` read by shifting is its binary digit.
pub proof fn lemma_u128_bit(r: u128, j: u128)
    requires
        j < 128,
    ensures
        (((r >> j) & 1) == 1) == nat_bit(r as nat, j as nat),
{
    vstd::bits::lemma_u128_shr_is_div(r, j);
    let s = r >> j;
    assert((s & 1) == s % 2) by (bit_vector);
}

/// Iterator over all `2^width` bit vectors of length `width`, in ordinal order.
#[derive(Debug, Clone)]
pub struct BitVectorIter {
    width: usize,
    next: u128,
    total: u128,
}

impl BitVectorIter {
    /// The vector width.
    pub closed spec fn width_spec(&self) -> nat {
        self.width as nat
    }

    /// The next ordinal to emit.
    pub closed spec fn cursor(&self) -> nat {
        self.next as nat
    }

    /// The number of ordinals in the domain.
    pub closed spec fn total_spec(&self) -> nat {
        self.total as nat
    }

    /// The width is in range and the total is `2^width`.
    pub closed spec fn wf(&self) -> bool {
        self.width <= MAX_WIDTH && self.total == pow2(self.width as nat)
    }

    /// Total number of ordinals in this iterator's finite domain.
    pub fn total_ordinals(&self) -> (r: u128)
        ensures
            r == self.total_spec(),
    {
        self.total
    }

    /// Number of ordinals not yet emitted.
    pub fn remaining_ordinals(&self) -> (r: u128)
        ensures
            r == if self.cursor() <= self.total_spec() {
                (self.total_spec() - self.cursor()) as nat
            } else {
                0
            },
    {
        self.total.saturating_sub(self.next)
    }

    /// The next bit vector in ordinal order, or `None` when exhausted.
    pub fn next(&mut self) -> (r: Option<Vec<bool>>)
        requires
            old(self).wf(),
        ensures
            final(self).wf(),
            final(self).width_spec() == old(self).width_spec(),
            final(self).total_spec() == old(self).total_spec(),
            if old(self).cursor() >= old(self).total_spec() {
                r is None && final(self).cursor() == old(self).cursor()
            } else {
                r matches Some(b) && final(self).cursor() == old(self).cursor() + 1 && b@.len()
                    == old(self).width_spec() && forall|j: int|
                    0 <= j < b@.len() ==> #[trigger] b@[j] == nat_bit(old(self).cursor(), j as nat)
            },
    {
        if self.next >= self.total {
            return None;
        }
        let r = self.next;
        self.next = self.next + 1;
        let mut out: Vec<bool> = Vec::new();
        let mut j: usize = 0;
        while j < self.width
            invariant
                self.width <= MAX_WIDTH,
                j <= self.width,
                out@.len() == j,
                forall|x: int| 0 <= x < j ==> #[trigger] out@[x] == nat_bit(r as nat, x as nat),
            decreases self.width - j,
        {
            let jj = j as u128;
            proof {
                lemma_u128_bit(r, jj);
            }
            out.push((r >> jj) & 1 == 1);
            j += 1;
        }
        Some(out)
    }
}

/// Construct a bit-vector iterator, rejecting widths that would overflow the
/// `u128` cursor.
pub fn bit_vectors(width: usize) -> (r: Result<BitVectorIter, CombError>)
    ensures
        match r {
            Ok(it) => width <= MAX_WIDTH && it.wf() && it.width_spec() == width && it.cursor() == 0
                && it.total_spec() == pow2(width as nat),
            Err(e) => width > MAX_WIDTH && e is LimitExceeded,
        },
{
    if width > MAX_WIDTH {
        return Err(CombError::LimitExceeded(text_nums("bit-vector width ", width as u64, " exceeds ", MAX_WIDTH as u64, "")));
    }
    let w = width as u128;
    proof {
        lemma_u128_shl_one(w);
    }
    let total = 1u128 << w;
    Ok(BitVectorIter { width, next: 0, total })
}

/// The ordinal of a bit vector (position 0 = least significant bit).
pub fn bit_vector_rank(bits: &[bool]) -> (r: BigNat)
    ensures
        r@ == bits_value(bits@),
{
    let mut rank = BigNat::zero();
    let mut j: usize = 0;
    let ghost all = set_positions(bits@);
    while j < bits.len()
        invariant
            j <= bits@.len(),
            all == set_positions(bits@),
            rank@ == mask_value(all, j as nat),
        decreases bits@.len() - j,
    {
        if bits[j] {
            proof {
                lemma_mask_bound(all, j as nat);
                lemma_pow2_pos(j as nat);
                lemma_small_div(rank@, pow2(j as nat));
            }
            rank.set_bit(j as u64);
        }
        j += 1;
    }
    rank
}

/// `x / d == 0` when `x < d`.
proof fn lemma_small_div(x: nat, d: nat)
    requires
        x < d,
    ensures
        x / d == 0,
        !nat_bit_of_quotient(x, d),
{
    vstd::arithmetic::div_mod::lemma_basic_div(x as int, d as int);
}

/// Whether `x / d` is odd.
pub open spec fn nat_bit_of_quotient(x: nat, d: nat) -> bool {
    (x / d) % 2 == 1
}

/// The bit vector of the given `width` for ordinal `rank`.
pub fn bit_vector_unrank(rank: &BigNat, width: usize) -> (r: Result<Vec<bool>, CombError>)
    ensures
        r is Ok <==> rank@ < pow2(width as nat),
        match r {
            Ok(b) => b@.len() == width && (forall|j: int|
                0 <= j < width ==> #[trigger] b@[j] == nat_bit(rank@, j as nat)) && bits_value(b@)
                == rank@,
            Err(e) => e matches CombError::OutOfRange { value, bound } && value@ == decimal(rank@)
                && bound@ == decimal(pow2(width as nat)),
        },
{
    let bound = BigNat::pow2(width);
    if !rank.lt(&bound) {
        return Err(CombError::OutOfRange { value: rank.to_decimal(), bound: bound.to_decimal() });
    }
    let mut out: Vec<bool> = Vec::new();
    let mut j: usize = 0;
    while j < width
        invariant
            j <= width,
            out@.len() == j,
            forall|x: int| 0 <= x < j ==> #[trigger] out@[x] == nat_bit(rank@, x as nat),
        decreases width - j,
    {
        out.push(rank.bit(j as u64));
        j += 1;
    }
    proof {
        lemma_mask_of_bits(rank@, width as nat);
        lemma_mask_ext(set_positions(out@), Set::new(|j: nat| nat_bit(rank@, j)), width as nat);
    }
    Ok(out)
}

} // verus!
