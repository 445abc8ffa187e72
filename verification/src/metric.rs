//! Natural-number distances for the discrete rank spaces: Hamming, set
//! symmetric difference, Kendall tau and L1.

use crate::bignat::BigNat;
use vstd::prelude::*;

verus! {

/// The smaller of two lengths.
pub open spec fn shorter(x: nat, y: nat) -> nat {
    if x <= y {
        x
    } else {
        y
    }
}

/// Positions below `n` at which `a` and `b` differ.
pub open spec fn mismatches(a: Seq<bool>, b: Seq<bool>, n: nat) -> nat
    decreases n,
{
    if n == 0 {
        0
    } else {
        mismatches(a, b, (n - 1) as nat) + if a[n - 1] != b[n - 1] {
            1nat
        } else {
            0nat
        }
    }
}

/// The number of values in exactly one of `x` and `y`.
pub open spec fn set_sym_diff_len(x: Set<usize>, y: Set<usize>) -> nat {
    x.difference(y).union(y.difference(x)).len()
}

/// The number of distinct values in exactly one of `a` and `b`.
pub open spec fn sym_diff_size(a: Seq<usize>, b: Seq<usize>) -> nat {
    set_sym_diff_len(a.to_set(), b.to_set())
}

/// Whether positions `i` and `j` are ordered differently by `a` and `b`.
pub open spec fn discordant(a: Seq<usize>, b: Seq<usize>, i: int, j: int) -> bool {
    (a[i] < a[j]) != (b[i] < b[j])
}

/// Discordant pairs `(i, j)` with `i < j < m`.
pub open spec fn discordant_row(a: Seq<usize>, b: Seq<usize>, i: int, m: int) -> nat
    decreases m - i,
{
    if m <= i + 1 {
        0
    } else {
        discordant_row(a, b, i, m - 1) + if discordant(a, b, i, m - 1) {
            1nat
        } else {
            0nat
        }
    }
}

/// Discordant pairs `(i, j)` with `i < rows` and `i < j < n`.
pub open spec fn discordant_pairs(a: Seq<usize>, b: Seq<usize>, n: int, rows: nat) -> nat
    decreases rows,
{
    if rows == 0 {
        0
    } else {
        discordant_pairs(a, b, n, (rows - 1) as nat) + discordant_row(a, b, rows - 1, n)
    }
}

/// The Kendall-tau distance: pairs of positions ordered differently.
pub open spec fn kendall(a: Seq<usize>, b: Seq<usize>) -> nat {
    discordant_pairs(a, b, a.len() as int, a.len())
}

/// `|x - y|` for natural digits.
pub open spec fn gap(x: int, y: int) -> nat {
    if x >= y {
        (x - y) as nat
    } else {
        (y - x) as nat
    }
}

/// Sum of `|a[i] - b[i]|` over `i < n`.
pub open spec fn l1_sum_u64(a: Seq<u64>, b: Seq<u64>, n: nat) -> nat
    decreases n,
{
    if n == 0 {
        0
    } else {
        l1_sum_u64(a, b, (n - 1) as nat) + gap(a[n - 1] as int, b[n - 1] as int)
    }
}

/// Sum of `|a[i] - b[i]|` over `i < n`.
pub open spec fn l1_sum_i64(a: Seq<i64>, b: Seq<i64>, n: nat) -> nat
    decreases n,
{
    if n == 0 {
        0
    } else {
        l1_sum_i64(a, b, (n - 1) as nat) + gap(a[n - 1] as int, b[n - 1] as int)
    }
}

/// Hamming distance between two bit vectors, over their common length.
pub fn hamming_bits(a: &[bool], b: &[bool]) -> (r: BigNat)
    ensures
        r@ == mismatches(a@, b@, shorter(a@.len(), b@.len())),
{
    let n = if a.len() <= b.len() {
        a.len()
    } else {
        b.len()
    };
    let mut count: usize = 0;
    let mut i: usize = 0;
    while i < n
        invariant
            n == shorter(a@.len(), b@.len()),
            i <= n,
            count <= i,
            count == mismatches(a@, b@, i as nat),
        decreases n - i,
    {
        if a[i] != b[i] {
            count += 1;
        }
        i += 1;
    }
    BigNat::from_usize(count)
}

/// Whether `x` occurs in `s[..end]`.
fn occurs_before(s: &[usize], end: usize, x: usize) -> (r: bool)
    requires
        end <= s@.len(),
    ensures
        r == s@.take(end as int).contains(x),
{
    let mut i: usize = 0;
    while i < end
        invariant
            end <= s@.len(),
            i <= end,
            forall|j: int| 0 <= j < i ==> s@[j] != x,
        decreases end - i,
    {
        if s[i] == x {
            assert(s@.take(end as int)[i as int] == x);
            return true;
        }
        i += 1;
    }
    proof {
        if s@.take(end as int).contains(x) {
            let j = choose|j: int| 0 <= j < end && s@.take(end as int)[j] == x;
            assert(s@[j] == x);
        }
    }
    false
}

/// First occurrences in `a[..k]` of values absent from `b`.
spec fn fresh_count(a: Seq<usize>, b: Seq<usize>, k: nat) -> nat
    decreases k,
{
    if k == 0 {
        0
    } else {
        fresh_count(a, b, (k - 1) as nat) + if !a.take(k - 1).contains(a[k - 1]) && !b.contains(
            a[k - 1],
        ) {
            1nat
        } else {
            0nat
        }
    }
}

/// Counting first occurrences counts the distinct values of `a[..k]` not in `b`.
proof fn lemma_fresh_count(a: Seq<usize>, b: Seq<usize>, k: nat)
    requires
        k <= a.len(),
    ensures
        fresh_count(a, b, k) == a.take(k as int).to_set().difference(b.to_set()).len(),
        a.take(k as int).to_set().difference(b.to_set()).finite(),
    decreases k,
{
    let s = a.take(k as int).to_set().difference(b.to_set());
    vstd::seq_lib::seq_to_set_is_finite(a.take(k as int));
    if k == 0 {
        assert(s =~= Set::empty());
    } else {
        lemma_fresh_count(a, b, (k - 1) as nat);
        let prev = a.take(k - 1).to_set().difference(b.to_set());
        let x = a[k - 1];
        assert(a.take(k as int) =~= a.take(k - 1).push(x));
        vstd::seq_lib::lemma_seq_contains_after_push(a.take(k - 1), x, x);
        if !a.take(k - 1).contains(x) && !b.contains(x) {
            assert(s =~= prev.insert(x)) by {
                assert forall|y: usize| #[trigger] s.contains(y) <==> prev.insert(x).contains(y) by {
                    vstd::seq_lib::lemma_seq_contains_after_push(a.take(k - 1), x, y);
                }
            }
            assert(!prev.contains(x));
        } else {
            assert(s =~= prev) by {
                assert forall|y: usize| #[trigger] s.contains(y) <==> prev.contains(y) by {
                    vstd::seq_lib::lemma_seq_contains_after_push(a.take(k - 1), x, y);
                }
            }
        }
    }
}

/// Distinct values of `a` that are absent from `b`.
fn fresh_values(a: &[usize], b: &[usize]) -> (r: usize)
    ensures
        r == a@.to_set().difference(b@.to_set()).len(),
        a@.to_set().difference(b@.to_set()).finite(),
{
    let mut count: usize = 0;
    let mut i: usize = 0;
    while i < a.len()
        invariant
            i <= a@.len(),
            count <= i,
            count == fresh_count(a@, b@, i as nat),
        decreases a@.len() - i,
    {
        let x = a[i];
        let seen = occurs_before(a, i, x);
        let other = occurs_before(b, b.len(), x);
        proof {
            assert(b@.take(b@.len() as int) =~= b@);
        }
        if !seen && !other {
            count += 1;
        }
        i += 1;
    }
    proof {
        lemma_fresh_count(a@, b@, a@.len());
        assert(a@.take(a@.len() as int) =~= a@);
    }
    count
}

/// Symmetric-difference cardinality of two index lists, read as sets.
pub fn symmetric_difference(a: &[usize], b: &[usize]) -> (r: BigNat)
    ensures
        r@ == sym_diff_size(a@, b@),
{
    let left = fresh_values(a, b);
    let right = fresh_values(b, a);
    let ghost l = a@.to_set().difference(b@.to_set());
    let ghost rr = b@.to_set().difference(a@.to_set());
    proof {
        vstd::set_lib::lemma_set_disjoint_lens(l, rr);
        assert(l.disjoint(rr));
    }
    BigNat::from_usize(left).add(&BigNat::from_usize(right))
}

/// Kendall-tau distance: the number of position pairs that `a` and `b`
/// order differently.
pub fn kendall_tau(a: &[usize], b: &[usize]) -> (r: BigNat)
    requires
        a@.len() <= 1 || b@.len() >= a@.len(),
    ensures
        r@ == kendall(a@, b@),
{
    let n = a.len();
    let mut acc = BigNat::zero();
    let mut i: usize = 0;
    while i < n
        invariant
            n == a@.len(),
            n <= 1 || b@.len() >= n,
            i <= n,
            acc@ == discordant_pairs(a@, b@, n as int, i as nat),
        decreases n - i,
    {
        let mut row: usize = 0;
        let mut j: usize = i + 1;
        while j < n
            invariant
                n == a@.len(),
                n <= 1 || b@.len() >= n,
                i < n,
                i + 1 <= j <= n,
                row <= j,
                row == discordant_row(a@, b@, i as int, j as int),
            decreases n - j,
        {
            let ord_a = a[i] < a[j];
            let ord_b = b[i] < b[j];
            if ord_a != ord_b {
                row += 1;
            }
            j += 1;
        }
        acc = acc.add(&BigNat::from_usize(row));
        i += 1;
    }
    acc
}

/// L1 distance between two natural vectors, over their common length.
pub fn l1_u64(a: &[u64], b: &[u64]) -> (r: BigNat)
    ensures
        r@ == l1_sum_u64(a@, b@, shorter(a@.len(), b@.len())),
{
    let n = if a.len() <= b.len() {
        a.len()
    } else {
        b.len()
    };
    let mut acc = BigNat::zero();
    let mut i: usize = 0;
    while i < n
        invariant
            n == shorter(a@.len(), b@.len()),
            i <= n,
            acc@ == l1_sum_u64(a@, b@, i as nat),
        decreases n - i,
    {
        let x = a[i];
        let y = b[i];
        let d: u64 = if x >= y {
            x - y
        } else {
            y - x
        };
        acc = acc.add(&BigNat::from_u64(d));
        i += 1;
    }
    acc
}

/// L1 distance between two integer vectors, over their common length.
pub fn l1_i64(a: &[i64], b: &[i64]) -> (r: BigNat)
    ensures
        r@ == l1_sum_i64(a@, b@, shorter(a@.len(), b@.len())),
{
    let n = if a.len() <= b.len() {
        a.len()
    } else {
        b.len()
    };
    let mut acc = BigNat::zero();
    let mut i: usize = 0;
    while i < n
        invariant
            n == shorter(a@.len(), b@.len()),
            i <= n,
            acc@ == l1_sum_i64(a@, b@, i as nat),
        decreases n - i,
    {
        let x = a[i] as i128;
        let y = b[i] as i128;
        let d: u64 = if x >= y {
            (x - y) as u64
        } else {
            (y - x) as u64
        };
        acc = acc.add(&BigNat::from_u64(d));
        i += 1;
    }
    acc
}

} // verus!
