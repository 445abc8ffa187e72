//! Exact combinatorial counting functions over arbitrary-precision naturals.

use crate::bignat::BigNat;
use crate::error::CombError;
use crate::text::text_nums;
use vstd::prelude::*;

verus! {

/// Largest `n` accepted by [`factorial_checked`] before [`CombError::LimitExceeded`].
pub const MAX_FACTORIAL_INPUT: u64 = 50_000;

/// Largest `n` accepted by [`integer_partition_count_checked`] before
/// [`CombError::LimitExceeded`].
pub const MAX_PARTITION_INPUT: u64 = 10_000;

/// `n!`.
pub open spec fn fact(n: nat) -> nat
    decreases n,
{
    if n == 0 {
        1
    } else {
        n * fact((n - 1) as nat)
    }
}

/// The falling factorial `n (n-1) ... (n-k+1)`: the product of `k` factors
/// counting down from `n`.
pub open spec fn falling(n: nat, k: nat) -> nat
    decreases k,
{
    if k == 0 {
        1
    } else {
        falling(n, (k - 1) as nat) * (n - (k - 1)) as nat
    }
}

/// `n choose k`, by Pascal's rule.
pub open spec fn binom(n: nat, k: nat) -> nat
    decreases n,
{
    if k == 0 {
        1
    } else if n == 0 {
        0
    } else {
        binom((n - 1) as nat, (k - 1) as nat) + binom((n - 1) as nat, k)
    }
}

/// The Stirling number of the second kind `S(n, k)`: partitions of an `n`-set
/// into `k` non-empty unlabeled blocks.
pub open spec fn stirling(n: nat, k: nat) -> nat
    decreases n,
{
    if n == 0 {
        if k == 0 {
            1
        } else {
            0
        }
    } else if k == 0 {
        0
    } else {
        k * stirling((n - 1) as nat, k) + stirling((n - 1) as nat, (k - 1) as nat)
    }
}

/// The Bell number `B(n) = S(n, 0) + ... + S(n, n)`, summing the first `m`
/// Stirling numbers.
pub open spec fn stirling_sum(n: nat, m: nat) -> nat
    decreases m,
{
    if m == 0 {
        0
    } else {
        stirling_sum(n, (m - 1) as nat) + stirling(n, (m - 1) as nat)
    }
}

/// The number of partitions of `n` into parts no larger than `m`.
pub open spec fn partitions_le(n: nat, m: nat) -> nat
    decreases m, n,
{
    if m == 0 {
        if n == 0 {
            1
        } else {
            0
        }
    } else if n < m {
        partitions_le(n, (m - 1) as nat)
    } else {
        partitions_le(n, (m - 1) as nat) + partitions_le((n - m) as nat, m)
    }
}

/// The sum of the first `k` values of `s`.
pub open spec fn sum_u64(s: Seq<u64>, k: nat) -> nat
    decreases k,
{
    if k == 0 {
        0
    } else {
        sum_u64(s, (k - 1) as nat) + s[k - 1] as nat
    }
}

/// The product of the factorials of the first `k` values of `s`.
pub open spec fn fact_product(s: Seq<u64>, k: nat) -> nat
    decreases k,
{
    if k == 0 {
        1
    } else {
        fact_product(s, (k - 1) as nat) * fact(s[k - 1] as nat)
    }
}

/// `n!` is positive.
pub proof fn lemma_fact_pos(n: nat)
    ensures
        fact(n) >= 1,
    decreases n,
{
    if n > 0 {
        lemma_fact_pos((n - 1) as nat);
        assert(n * fact((n - 1) as nat) >= 1) by (nonlinear_arith)
            requires
                n >= 1,
                fact((n - 1) as nat) >= 1,
        ;
    }
}

/// Choosing more than there are gives zero.
pub proof fn lemma_binom_zero(n: nat, k: nat)
    requires
        k > n,
    ensures
        binom(n, k) == 0,
    decreases n,
{
    if n > 0 {
        lemma_binom_zero((n - 1) as nat, (k - 1) as nat);
        lemma_binom_zero((n - 1) as nat, k);
    }
}

/// `C(n, k) k! (n-k)! = n!` for `k <= n`.
pub proof fn lemma_binom_fact(n: nat, k: nat)
    requires
        k <= n,
    ensures
        binom(n, k) * fact(k) * fact((n - k) as nat) == fact(n),
    decreases n,
{
    if n == 0 {
        assert(binom(n, k) == 1);
        assert(fact(0) == 1);
    } else if k == 0 {
        assert(fact((n - k) as nat) == fact(n));
        assert(binom(n, k) == 1);
        assert(fact(k) == 1);
        assert(1 * 1 * fact(n) == fact(n));
    } else if k == n {
        lemma_binom_fact((n - 1) as nat, (k - 1) as nat);
        lemma_binom_zero((n - 1) as nat, k);
        lemma_fact_pos((n - 1) as nat);
        let a = binom((n - 1) as nat, (k - 1) as nat);
        let f = fact((n - 1) as nat);
        assert(a * f * 1 == f);
        assert(a == 1) by (nonlinear_arith)
            requires
                a * f * 1 == f,
                f >= 1,
        ;
        assert(binom(n, k) == 1);
        assert(fact((n - k) as nat) == 1);
        assert(1 * fact(n) * 1 == fact(n));
    } else {
        lemma_binom_fact((n - 1) as nat, (k - 1) as nat);
        lemma_binom_fact((n - 1) as nat, k);
        let a = binom((n - 1) as nat, (k - 1) as nat);
        let b = binom((n - 1) as nat, k);
        let fk1 = fact((k - 1) as nat);
        let fk = fact(k);
        let fnk = fact((n - k) as nat);
        let fnk1 = fact((n - 1 - k) as nat);
        let fn1 = fact((n - 1) as nat);
        assert(fk == k * fk1);
        assert(fnk == (n - k) * fnk1);
        assert(fact(n) == n * fn1);
        assert(a * fk1 * fnk == fn1);
        assert(b * fk * fnk1 == fn1);
        assert(binom(n, k) == a + b);
        assert((a + b) * fk * fnk == n * fn1) by (nonlinear_arith)
            requires
                fk == k * fk1,
                fnk == (n - k) * fnk1,
                a * fk1 * fnk == fn1,
                b * fk * fnk1 == fn1,
                0 < k < n,
        ;
    }
}

/// Pascal's rule rewritten multiplicatively: `C(a+1, b+1) (b+1) = C(a, b) (a+1)`.
pub proof fn lemma_binom_step(a: nat, b: nat)
    requires
        b <= a,
    ensures
        binom(a + 1, b + 1) * (b + 1) == binom(a, b) * (a + 1),
{
    lemma_binom_fact(a + 1, b + 1);
    lemma_binom_fact(a, b);
    lemma_fact_pos(b);
    lemma_fact_pos((a - b) as nat);
    let c1 = binom(a + 1, b + 1);
    let c0 = binom(a, b);
    let fb = fact(b);
    let fab = fact((a - b) as nat);
    assert(fact(b + 1) == (b + 1) * fb);
    assert(fact(a + 1) == (a + 1) * fact(a));
    assert(((a + 1) - (b + 1)) as nat == (a - b) as nat);
    assert(c1 * ((b + 1) * fb) * fab == (a + 1) * (c0 * fb * fab));
    assert(c1 * (b + 1) == c0 * (a + 1)) by (nonlinear_arith)
        requires
            c1 * ((b + 1) * fb) * fab == (a + 1) * (c0 * fb * fab),
            fb >= 1,
            fab >= 1,
    ;
}

/// `C(n, k) = C(n, n - k)`.
pub proof fn lemma_binom_symmetric(n: nat, k: nat)
    requires
        k <= n,
    ensures
        binom(n, k) == binom(n, (n - k) as nat),
{
    lemma_binom_fact(n, k);
    lemma_binom_fact(n, (n - k) as nat);
    lemma_fact_pos(k);
    lemma_fact_pos((n - k) as nat);
    let c1 = binom(n, k);
    let c2 = binom(n, (n - k) as nat);
    let d = fact(k) * fact((n - k) as nat);
    assert((n - (n - k)) as nat == k);
    assert(c1 * d == c2 * d) by (nonlinear_arith)
        requires
            c1 * fact(k) * fact((n - k) as nat) == c2 * fact((n - k) as nat) * fact(k),
            d == fact(k) * fact((n - k) as nat),
    ;
    assert(d >= 1) by (nonlinear_arith)
        requires
            fact(k) >= 1,
            fact((n - k) as nat) >= 1,
            d == fact(k) * fact((n - k) as nat),
    ;
    assert(c1 == c2) by (nonlinear_arith)
        requires
            c1 * d == c2 * d,
            d >= 1,
    ;
}

/// The number `n`.
fn big(n: u64) -> (r: BigNat)
    ensures
        r@ == n,
{
    BigNat::from_u64(n)
}

/// `n!` (with `factorial(0) == 1`).
pub fn factorial(n: u64) -> (r: BigNat)
    ensures
        r@ == fact(n as nat),
{
    let mut acc = BigNat::one();
    let mut i: u64 = 1;
    while i <= n
        invariant
            1 <= i,
            i <= n + 1,
            acc@ == fact((i - 1) as nat),
        decreases n + 1 - i,
    {
        acc = acc.mul(&big(i));
        proof {
            assert(fact(i as nat) == i * fact((i - 1) as nat));
            assert(acc@ == fact((i - 1) as nat) * i);
            assert(fact((i - 1) as nat) * i == i * fact((i - 1) as nat)) by (nonlinear_arith);
        }
        if i == u64::MAX {
            return acc;
        }
        i += 1;
    }
    acc
}

/// `n!` with an explicit input ceiling ([`MAX_FACTORIAL_INPUT`]).
pub fn factorial_checked(n: u64) -> (r: Result<BigNat, CombError>)
    ensures
        match r {
            Ok(v) => n <= MAX_FACTORIAL_INPUT && v@ == fact(n as nat),
            Err(e) => n > MAX_FACTORIAL_INPUT && e is LimitExceeded,
        },
{
    if n > MAX_FACTORIAL_INPUT {
        return Err(CombError::LimitExceeded(text_nums("factorial input ", n, " exceeds maximum ", MAX_FACTORIAL_INPUT, "")));
    }
    Ok(factorial(n))
}

/// The falling factorial `n * (n-1) * ... * (n-k+1)` (`0` when `k > n`).
pub fn falling_factorial(n: u64, k: u64) -> (r: BigNat)
    ensures
        r@ == if k > n {
            0
        } else {
            falling(n as nat, k as nat)
        },
{
    if k > n {
        return BigNat::zero();
    }
    let mut acc = BigNat::one();
    let mut i: u64 = 0;
    while i < k
        invariant
            k <= n,
            i <= k,
            acc@ == falling(n as nat, i as nat),
        decreases k - i,
    {
        acc = acc.mul(&big(n - i));
        i += 1;
    }
    acc
}

/// The number of `k`-permutations of `n`, `nPk` (`0` when `k > n`).
pub fn permutation_count(n: u64, k: u64) -> (r: BigNat)
    ensures
        r@ == if k > n {
            0
        } else {
            falling(n as nat, k as nat)
        },
{
    falling_factorial(n, k)
}

/// `n choose k` via the multiplicative formula (`0` when `k > n`).
pub fn binomial(n: u64, k: u64) -> (r: BigNat)
    ensures
        r@ == binom(n as nat, k as nat),
{
    if k > n {
        proof {
            lemma_binom_zero(n as nat, k as nat);
        }
        return BigNat::zero();
    }
    let kk = if k <= n - k {
        k
    } else {
        n - k
    };
    proof {
        lemma_binom_symmetric(n as nat, k as nat);
    }
    let mut result = BigNat::one();
    let mut i: u64 = 1;
    while i <= kk
        invariant
            kk <= n - kk,
            1 <= i <= kk + 1,
            result@ == binom((n - kk + i - 1) as nat, (i - 1) as nat),
        decreases kk + 1 - i,
    {
        proof {
            lemma_binom_step((n - kk + i - 1) as nat, (i - 1) as nat);
        }
        let prod = result.mul(&big(n - kk + i));
        let next = prod.div(&big(i));
        proof {
            let c1 = binom((n - kk + i) as nat, i as nat);
            assert(((n - kk + i - 1) + 1) as nat == (n - kk + i) as nat);
            assert(((i - 1) + 1) as nat == i as nat);
            assert(prod@ == c1 * i);
            assert(next@ == c1) by (nonlinear_arith)
                requires
                    prod@ == c1 * i,
                    next@ == prod@ / (i as nat),
                    i >= 1,
            ;
        }
        result = next;
        i += 1;
    }
    proof {
        assert((n - kk + kk) as nat == n);
    }
    result
}

/// A vector of `len` zeros.
fn zeros(len: usize) -> (v: Vec<BigNat>)
    ensures
        v@.len() == len,
        forall|i: int| 0 <= i < len ==> #[trigger] v@[i]@ == 0,
{
    let mut v: Vec<BigNat> = Vec::new();
    let mut i: usize = 0;
    while i < len
        invariant
            i <= len,
            v@.len() == i,
            forall|k: int| 0 <= k < i ==> #[trigger] v@[k]@ == 0,
        decreases len - i,
    {
        v.push(BigNat::zero());
        i += 1;
    }
    v
}

/// The multinomial coefficient `(sum parts)! / prod(part!)`; the sum of the
/// parts must fit in `u64`.
pub fn multinomial(parts: &[u64]) -> (r: BigNat)
    requires
        sum_u64(parts@, parts@.len()) <= u64::MAX,
    ensures
        r@ == fact(sum_u64(parts@, parts@.len())) / fact_product(parts@, parts@.len()),
{
    let mut total: u64 = 0;
    let mut denom = BigNat::one();
    let mut i: usize = 0;
    while i < parts.len()
        invariant
            i <= parts@.len(),
            sum_u64(parts@, parts@.len()) <= u64::MAX,
            total == sum_u64(parts@, i as nat),
            denom@ == fact_product(parts@, i as nat),
        decreases parts@.len() - i,
    {
        proof {
            lemma_sum_prefix_le(parts@, (i + 1) as nat, parts@.len());
        }
        total = total + parts[i];
        denom = denom.mul(&factorial(parts[i]));
        i += 1;
    }
    proof {
        lemma_fact_product_pos(parts@, parts@.len());
    }
    factorial(total).div(&denom)
}

/// Partial sums never exceed later ones.
proof fn lemma_sum_prefix_le(s: Seq<u64>, i: nat, j: nat)
    requires
        i <= j,
    ensures
        sum_u64(s, i) <= sum_u64(s, j),
    decreases j,
{
    if i < j {
        lemma_sum_prefix_le(s, i, (j - 1) as nat);
    }
}

/// A product of factorials is positive.
proof fn lemma_fact_product_pos(s: Seq<u64>, k: nat)
    ensures
        fact_product(s, k) >= 1,
    decreases k,
{
    if k > 0 {
        lemma_fact_product_pos(s, (k - 1) as nat);
        lemma_fact_pos(s[k - 1] as nat);
        let a = fact_product(s, (k - 1) as nat);
        let b = fact(s[k - 1] as nat);
        assert(a * b >= 1) by (nonlinear_arith)
            requires
                a >= 1,
                b >= 1,
        ;
    }
}

/// Stirling numbers of the second kind `S(n, k)`: partitions of an `n`-set into
/// `k` non-empty unlabeled blocks. The table has `k + 1` cells, so `k` must be
/// below `usize::MAX`.
pub fn stirling2(n: u64, k: u64) -> (r: BigNat)
    requires
        k < usize::MAX,
    ensures
        r@ == stirling(n as nat, k as nat),
{
    let kk = k as usize;
    let mut dp = zeros(kk + 1);
    dp.set(0, BigNat::one());
    let mut t: u64 = 0;
    while t < n
        invariant
            kk == k,
            kk < usize::MAX,
            t <= n,
            dp@.len() == kk + 1,
            forall|j: int| 0 <= j <= kk ==> #[trigger] dp@[j]@ == stirling(t as nat, j as nat),
        decreases n - t,
    {
        let mut next = zeros(kk + 1);
        let mut j: usize = 1;
        while j <= kk
            invariant
                kk == k,
                kk < usize::MAX,
                1 <= j <= kk + 1,
                dp@.len() == kk + 1,
                next@.len() == kk + 1,
                forall|x: int| 0 <= x <= kk ==> #[trigger] dp@[x]@ == stirling(t as nat, x as nat),
                next@[0]@ == 0,
                forall|x: int| 1 <= x < j ==> #[trigger] next@[x]@ == stirling((t + 1) as nat, x as nat),
                forall|x: int| j <= x <= kk ==> #[trigger] next@[x]@ == 0,
            decreases kk + 1 - j,
        {
            let v = BigNat::from_usize(j).mul(&dp[j]).add(&dp[j - 1]);
            next.set(j, v);
            j += 1;
        }
        dp = next;
        t += 1;
    }
    dp[kk].duplicate()
}

/// The Bell number `B(n) = sum_k S(n, k)`: total partitions of an `n`-set. The
/// range `0..=n` must have a successor bound inside `u64` and `usize`.
pub fn bell_number(n: u64) -> (r: BigNat)
    requires
        n < usize::MAX,
    ensures
        r@ == stirling_sum(n as nat, (n + 1) as nat),
{
    let mut acc = BigNat::zero();
    let mut k: u64 = 0;
    while k <= n
        invariant
            n < usize::MAX,
            k <= n + 1,
            acc@ == stirling_sum(n as nat, k as nat),
        decreases n + 1 - k,
    {
        acc = acc.add(&stirling2(n, k));
        k += 1;
    }
    acc
}

/// The partition count `p(n)`: ways to write `n` as a sum of positive integers,
/// order ignored. The table has `n + 1` cells, so `n` must be below
/// `usize::MAX`.
pub fn integer_partition_count(n: u64) -> (r: BigNat)
    requires
        n < usize::MAX,
    ensures
        r@ == partitions_le(n as nat, n as nat),
{
    let nn = n as usize;
    let mut dp = zeros(nn + 1);
    dp.set(0, BigNat::one());
    let mut part: usize = 1;
    while part <= nn
        invariant
            nn == n,
            nn < usize::MAX,
            1 <= part <= nn + 1,
            dp@.len() == nn + 1,
            forall|j: int| 0 <= j <= nn ==> #[trigger] dp@[j]@ == partitions_le(j as nat, (part - 1) as nat),
        decreases nn + 1 - part,
    {
        let mut j: usize = part;
        while j <= nn
            invariant
                nn < usize::MAX,
                1 <= part <= nn,
                part <= j <= nn + 1,
                dp@.len() == nn + 1,
                forall|x: int| 0 <= x < j ==> #[trigger] dp@[x]@ == partitions_le(x as nat, part as nat),
                forall|x: int| j <= x <= nn ==> #[trigger] dp@[x]@ == partitions_le(x as nat, (part - 1) as nat),
            decreases nn + 1 - j,
        {
            let v = dp[j].add(&dp[j - part]);
            dp.set(j, v);
            j += 1;
        }
        proof {
            assert forall|x: int| 0 <= x <= nn implies #[trigger] dp@[x]@ == partitions_le(x as nat, part as nat) by {
                if x < part {
                }
            }
        }
        part += 1;
    }
    dp[nn].duplicate()
}

/// `p(n)` with an explicit input ceiling ([`MAX_PARTITION_INPUT`]).
pub fn integer_partition_count_checked(n: u64) -> (r: Result<BigNat, CombError>)
    ensures
        match r {
            Ok(v) => n <= MAX_PARTITION_INPUT && v@ == partitions_le(n as nat, n as nat),
            Err(e) => n > MAX_PARTITION_INPUT && e is LimitExceeded,
        },
{
    if n > MAX_PARTITION_INPUT {
        return Err(CombError::LimitExceeded(text_nums("partition-count input ", n, " exceeds maximum ", MAX_PARTITION_INPUT, "")));
    }
    Ok(integer_partition_count(n))
}

} // verus!
