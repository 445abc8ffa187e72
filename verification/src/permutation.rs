//! Permutations of `{0, ..., n-1}` in lexicographic order, with Lehmer-code
//! rank/unrank.

use crate::bignat::{decimal, BigNat};
use crate::combination::{copy_indices, lemma_first_diff, lex_less, lex_less_at};
use crate::count::{fact, factorial, lemma_fact_pos};
use crate::error::CombError;
use vstd::arithmetic::power2::pow2;
use vstd::prelude::*;

verus! {

/// Whether `p` lists each of `0..p.len()` exactly once.
pub open spec fn is_permutation(p: Seq<usize>) -> bool {
    &&& forall|i: int| 0 <= i < p.len() ==> #[trigger] p[i] < p.len()
    &&& forall|i: int, j: int| 0 <= i < j < p.len() ==> #[trigger] p[i] != #[trigger] p[j]
}

/// The number of positions `j` with `from <= j < to` and `p[j] < x`.
pub open spec fn count_below(p: Seq<usize>, x: usize, from: int, to: int) -> nat
    decreases to - from,
{
    if to <= from {
        0
    } else {
        count_below(p, x, from, to - 1) + if p[to - 1] < x { 1nat } else { 0nat }
    }
}

/// The Lehmer digit at `i`: how many later entries are smaller.
pub open spec fn lehmer_digit(p: Seq<usize>, i: int) -> nat {
    count_below(p, p[i], i + 1, p.len() as int)
}

/// The Lehmer rank of the first `i` positions: `sum digit(j) * (n-1-j)!`.
pub open spec fn lehmer_prefix(p: Seq<usize>, i: nat) -> nat
    decreases i,
{
    if i == 0 {
        0
    } else {
        lehmer_prefix(p, (i - 1) as nat) + lehmer_digit(p, i - 1) * fact((p.len() - i) as nat)
    }
}

/// The lexicographic (Lehmer-code) rank of a permutation.
pub open spec fn lehmer_rank(p: Seq<usize>) -> nat {
    lehmer_prefix(p, p.len())
}

/// The last ascent below position `i`: the largest `k < i` with `p[k-1] < p[k]`.
pub open spec fn last_ascent(p: Seq<usize>, i: nat) -> Option<nat>
    decreases i,
{
    if i < 2 {
        None
    } else if p[i - 2] < p[i - 1] {
        Some((i - 1) as nat)
    } else {
        last_ascent(p, (i - 1) as nat)
    }
}

/// The last position `j` at or above `lo` and below `i` with `p[j] > v`.
pub open spec fn last_above(p: Seq<usize>, v: usize, lo: nat, i: nat) -> nat
    decreases i,
{
    if i <= lo + 1 {
        lo
    } else if p[i - 1] > v {
        (i - 1) as nat
    } else {
        last_above(p, v, lo, (i - 1) as nat)
    }
}

/// The next permutation after `p` in lexicographic order: at the last ascent
/// `p[k-1] < p[k]`, swap `p[k-1]` with the last later entry above it and
/// reverse the tail from `k`.
pub open spec fn perm_successor(p: Seq<usize>) -> Option<Seq<usize>> {
    match last_ascent(p, p.len()) {
        None => None,
        Some(k) => {
            let piv = (k - 1) as nat;
            let j = last_above(p, p[piv as int], k, p.len());
            let q = p.update(piv as int, p[j as int]).update(j as int, p[piv as int]);
            Some(q.subrange(0, k as int) + q.subrange(k as int, q.len() as int).reverse())
        },
    }
}

/// Iterator over permutations of `{0, ..., n-1}` in lexicographic order.
#[derive(Debug, Clone)]
pub struct PermutationIter {
    current: Option<Vec<usize>>,
}

impl PermutationIter {
    /// The permutation the next call returns, if any.
    pub closed spec fn pending(&self) -> Option<Seq<usize>> {
        match self.current {
            Some(v) => Some(v@),
            None => None,
        }
    }

    /// Return the pending permutation and advance to its lexicographic successor.
    pub fn next(&mut self) -> (r: Option<Vec<usize>>)
        ensures
            match old(self).pending() {
                None => r is None && final(self).pending() is None,
                Some(c) => r matches Some(v) && v@ == c && final(self).pending() == perm_successor(c),
            },
    {
        let cur = match &self.current {
            None => {
                return None;
            },
            Some(c) => copy_indices(c),
        };
        let mut next = copy_indices(&cur);
        let advanced = advance(&mut next);
        self.current = if advanced {
            Some(next)
        } else {
            None
        };
        Some(cur)
    }
}

/// Construct a permutation iterator over `{0, ..., n-1}`.
pub fn permutations(n: usize) -> (r: PermutationIter)
    ensures
        r.pending() == Some(Seq::new(n as nat, |i: int| i as usize)),
{
    let mut first: Vec<usize> = Vec::new();
    let mut i: usize = 0;
    while i < n
        invariant
            i <= n,
            first@ == Seq::new(i as nat, |j: int| j as usize),
        decreases n - i,
    {
        first.push(i);
        i += 1;
        assert(first@ =~= Seq::new(i as nat, |j: int| j as usize));
    }
    PermutationIter { current: Some(first) }
}

/// Step `p` to its lexicographic successor in place; `false` (with `p`
/// unchanged) when `p` is the last permutation.
fn advance(p: &mut Vec<usize>) -> (r: bool)
    ensures
        match perm_successor(old(p)@) {
            None => !r && final(p)@ == old(p)@,
            Some(q) => r && final(p)@ == q,
        },
{
    let n = p.len();
    if n < 2 {
        return false;
    }
    let ghost orig = p@;
    let mut i: usize = n - 1;
    while i > 0 && p[i - 1] >= p[i]
        invariant
            p@ == orig,
            n == orig.len(),
            n >= 2,
            i <= n - 1,
            last_ascent(orig, n as nat) == last_ascent(orig, (i + 1) as nat),
        decreases i,
    {
        i -= 1;
    }
    if i == 0 {
        return false;
    }
    proof {
        assert(last_ascent(orig, (i + 1) as nat) == Some(i as nat));
    }
    let pv = p[i - 1];
    let mut j: usize = n - 1;
    while p[j] <= pv
        invariant
            p@ == orig,
            n == orig.len(),
            1 <= i <= j < n,
            pv == orig[i - 1],
            orig[i as int] > pv,
            last_above(orig, pv, i as nat, n as nat) == last_above(orig, pv, i as nat, (j + 1) as nat),
        decreases j,
    {
        j -= 1;
    }
    proof {
        if j + 1 > i + 1 {
            assert(last_above(orig, pv, i as nat, (j + 1) as nat) == j as nat);
        }
    }
    let pj = p[j];
    p.set(i - 1, pj);
    p.set(j, pv);
    let ghost q = p@;
    // Reverse the tail `p[i..n]`.
    let mut lo: usize = i;
    let mut hi: usize = n - 1;
    while lo < hi
        invariant
            n == q.len(),
            p@.len() == n,
            i <= lo,
            hi < n,
            lo + hi == i + n - 1,
            forall|x: int| 0 <= x < i ==> #[trigger] p@[x] == q[x],
            forall|x: int| lo <= x <= hi ==> #[trigger] p@[x] == q[x],
            forall|x: int| i <= x < lo ==> #[trigger] p@[x] == q[(i + n - 1) - x],
            forall|x: int| hi < x < n ==> #[trigger] p@[x] == q[(i + n - 1) - x],
        decreases n - lo,
    {
        let a = p[lo];
        let b = p[hi];
        p.set(lo, b);
        p.set(hi, a);
        lo += 1;
        hi -= 1;
    }
    proof {
        let succ = q.subrange(0, i as int) + q.subrange(i as int, n as int).reverse();
        assert(p@ =~= succ);
    }
    true
}

/// A `usize` from the low digit of a small value.
fn small_to_usize(value: &BigNat, bound: usize) -> (r: usize)
    requires
        value@ < bound,
    ensures
        r == value@,
{
    proof {
        vstd::arithmetic::power2::lemma2_to64();
        assert(value@ < pow2(64)) by {
            assert(bound <= usize::MAX);
        }
        vstd::arithmetic::div_mod::lemma_small_mod(value@, pow2(64));
    }
    value.low_u64() as usize
}

/// Check that `perm` lists each of `0..perm.len()` exactly once.
fn validate(perm: &[usize]) -> (r: Result<(), CombError>)
    ensures
        r is Ok <==> is_permutation(perm@),
        r matches Err(e) ==> e is InvalidParameters,
{
    let n = perm.len();
    let mut seen: Vec<bool> = Vec::new();
    let mut k: usize = 0;
    while k < n
        invariant
            k <= n,
            seen@.len() == k,
            forall|x: int| 0 <= x < k ==> !#[trigger] seen@[x],
        decreases n - k,
    {
        seen.push(false);
        k += 1;
    }
    let mut i: usize = 0;
    while i < n
        invariant
            n == perm@.len(),
            seen@.len() == n,
            i <= n,
            forall|x: int| 0 <= x < i ==> #[trigger] perm@[x] < n,
            forall|x: int, y: int| 0 <= x < y < i ==> #[trigger] perm@[x] != #[trigger] perm@[y],
            forall|v: int| 0 <= v < n ==> (#[trigger] seen@[v] <==> exists|x: int| 0 <= x < i && perm@[x] == v),
        decreases n - i,
    {
        let v = perm[i];
        if v >= n || seen[v] {
            proof {
                if v < n {
                    let x = choose|x: int| 0 <= x < i && perm@[x] == v;
                    assert(perm@[x] == perm@[i as int]);
                }
            }
            return Err(CombError::InvalidParameters("not a permutation of 0..n".to_string()));
        }
        seen.set(v, true);
        proof {
            assert forall|w: int| 0 <= w < n implies (#[trigger] seen@[w] <==> exists|x: int| 0 <= x < i + 1 && perm@[x] == w) by {
                if w == v {
                    assert(perm@[i as int] == w);
                }
            }
            assert forall|x: int, y: int| 0 <= x < y < i + 1 implies #[trigger] perm@[x] != #[trigger] perm@[y] by {
                if y == i && perm@[x] == perm@[y] {
                    assert(seen@[v as int]);
                }
            }
        }
        i += 1;
    }
    Ok(())
}

/// The number of entries of `s` below `y`.
spec fn count_lt(s: Seq<usize>, y: usize) -> nat
    decreases s.len(),
{
    if s.len() == 0 {
        0
    } else {
        count_lt(s.drop_last(), y) + if s.last() < y { 1nat } else { 0nat }
    }
}

/// Counting below `y` splits over concatenation.
proof fn lemma_count_lt_add(a: Seq<usize>, b: Seq<usize>, y: usize)
    ensures
        count_lt(a + b, y) == count_lt(a, y) + count_lt(b, y),
    decreases b.len(),
{
    if b.len() == 0 {
        assert(a + b =~= a);
    } else {
        assert((a + b).drop_last() =~= a + b.drop_last());
        lemma_count_lt_add(a, b.drop_last(), y);
    }
}

/// Counting below `y` in a sequence whose entries all lie below `y`, or all
/// above it.
proof fn lemma_count_lt_uniform(s: Seq<usize>, y: usize)
    ensures
        (forall|j: int| 0 <= j < s.len() ==> #[trigger] s[j] < y) ==> count_lt(s, y) == s.len(),
        (forall|j: int| 0 <= j < s.len() ==> #[trigger] s[j] > y) ==> count_lt(s, y) == 0,
    decreases s.len(),
{
    if s.len() > 0 {
        lemma_count_lt_uniform(s.drop_last(), y);
        if forall|j: int| 0 <= j < s.len() ==> #[trigger] s[j] < y {
            assert(forall|j: int| 0 <= j < s.drop_last().len() ==> #[trigger] s.drop_last()[j] < y) by {
                assert forall|j: int| 0 <= j < s.drop_last().len() implies #[trigger] s.drop_last()[j] < y by {
                    assert(s.drop_last()[j] == s[j]);
                }
            }
        }
        if forall|j: int| 0 <= j < s.len() ==> #[trigger] s[j] > y {
            assert(forall|j: int| 0 <= j < s.drop_last().len() ==> #[trigger] s.drop_last()[j] > y) by {
                assert forall|j: int| 0 <= j < s.drop_last().len() implies #[trigger] s.drop_last()[j] > y by {
                    assert(s.drop_last()[j] == s[j]);
                }
            }
        }
    }
}

/// Removing entry `idx` from `s` lowers the count below `y` by one exactly
/// when that entry lies below `y`; in a strictly ascending `s` the entries
/// left below `s[idx]` are the `idx` before it.
proof fn lemma_count_lt_remove(s: Seq<usize>, idx: int, y: usize)
    requires
        0 <= idx < s.len(),
    ensures
        count_lt(s.remove(idx), y) + (if s[idx] < y { 1nat } else { 0nat }) == count_lt(s, y),
        (forall|a: int, b: int| 0 <= a < b < s.len() ==> #[trigger] s[a] < #[trigger] s[b]) ==> count_lt(
            s.remove(idx),
            s[idx],
        ) == idx,
{
    let pre = s.take(idx);
    let post = s.skip(idx + 1);
    assert(s.remove(idx) =~= pre + post);
    assert(s =~= pre + seq![s[idx]] + post);
    lemma_count_lt_add(pre, post, y);
    lemma_count_lt_add(pre + seq![s[idx]], post, y);
    lemma_count_lt_add(pre, seq![s[idx]], y);
    assert(count_lt(seq![s[idx]], y) == if s[idx] < y { 1nat } else { 0nat }) by {
        assert(seq![s[idx]].drop_last() =~= Seq::<usize>::empty());
        assert(count_lt(Seq::<usize>::empty(), y) == 0);
        assert(seq![s[idx]].last() == s[idx]);
    }
    if forall|a: int, b: int| 0 <= a < b < s.len() ==> #[trigger] s[a] < #[trigger] s[b] {
        lemma_count_lt_add(pre, post, s[idx]);
        lemma_count_lt_uniform(pre, s[idx]);
        lemma_count_lt_uniform(post, s[idx]);
        assert forall|j: int| 0 <= j < pre.len() implies #[trigger] pre[j] < s[idx] by {
            assert(pre[j] == s[j]);
        }
        assert forall|j: int| 0 <= j < post.len() implies #[trigger] post[j] > s[idx] by {
            assert(post[j] == s[idx + 1 + j]);
        }
    }
}

/// Counting below in positions before the end ignores a pushed entry.
proof fn lemma_count_below_push(p: Seq<usize>, x: usize, y: usize, from: int, to: int)
    requires
        0 <= from,
        to <= p.len(),
    ensures
        count_below(p.push(x), y, from, to) == count_below(p, y, from, to),
    decreases to - from,
{
    if from < to {
        lemma_count_below_push(p, x, y, from, to - 1);
        assert(p.push(x)[to - 1] == p[to - 1]);
    }
}

/// `sum ds[a] * (n-1-a)!` over `a < i`.
spec fn digit_sum(ds: Seq<nat>, n: nat, i: nat) -> nat
    decreases i,
{
    if i == 0 {
        0
    } else {
        digit_sum(ds, n, (i - 1) as nat) + ds[i - 1] * fact((n - i) as nat)
    }
}

/// Digit sums read only the digits they sum.
proof fn lemma_digit_sum_prefix(ds: Seq<nat>, es: Seq<nat>, n: nat, i: nat)
    requires
        i <= ds.len(),
        i <= es.len(),
        forall|a: int| 0 <= a < i ==> ds[a] == es[a],
    ensures
        digit_sum(ds, n, i) == digit_sum(es, n, i),
    decreases i,
{
    if i > 0 {
        lemma_digit_sum_prefix(ds, es, n, (i - 1) as nat);
    }
}

/// Digits equal to the Lehmer digits sum to the Lehmer prefix.
proof fn lemma_digit_sum_lehmer(ds: Seq<nat>, p: Seq<usize>, i: nat)
    requires
        i <= p.len(),
        i <= ds.len(),
        forall|a: int| 0 <= a < i ==> #[trigger] ds[a] == lehmer_digit(p, a),
    ensures
        digit_sum(ds, p.len(), i) == lehmer_prefix(p, i),
    decreases i,
{
    if i > 0 {
        lemma_digit_sum_lehmer(ds, p, (i - 1) as nat);
    }
}

/// At most `to - from` positions are counted.
proof fn lemma_count_below_le(p: Seq<usize>, x: usize, from: int, to: int)
    requires
        from <= to,
    ensures
        count_below(p, x, from, to) <= to - from,
    decreases to - from,
{
    if from < to {
        lemma_count_below_le(p, x, from, to - 1);
    }
}

/// The Lehmer quotient: the digits `0..k` read in the factorial base.
spec fn lehmer_quot(p: Seq<usize>, k: nat) -> nat
    decreases k,
{
    if k == 0 {
        0
    } else {
        lehmer_quot(p, (k - 1) as nat) * (p.len() - k + 1) as nat + lehmer_digit(p, k - 1)
    }
}

/// The first `k` digits contribute a multiple of `(n-k)!`.
proof fn lemma_lehmer_prefix_quot(p: Seq<usize>, k: nat)
    requires
        k <= p.len(),
    ensures
        lehmer_prefix(p, k) == lehmer_quot(p, k) * fact((p.len() - k) as nat),
    decreases k,
{
    if k > 0 {
        lemma_lehmer_prefix_quot(p, (k - 1) as nat);
        let m = (p.len() - k) as nat;
        let q0 = lehmer_quot(p, (k - 1) as nat);
        let d = lehmer_digit(p, k - 1);
        assert(fact((p.len() - (k - 1)) as nat) == (m + 1) * fact(m));
        assert((q0 * (m + 1) + d) * fact(m) == q0 * ((m + 1) * fact(m)) + d * fact(m)) by (nonlinear_arith);
        assert(lehmer_quot(p, k) == q0 * (m + 1) + d);
        assert(lehmer_prefix(p, k) == lehmer_prefix(p, (k - 1) as nat) + d * fact(m));
        assert(lehmer_prefix(p, (k - 1) as nat) == q0 * fact(m + 1));
        assert(fact(m + 1) == (m + 1) * fact(m));
        assert(lehmer_prefix(p, k) == q0 * ((m + 1) * fact(m)) + d * fact(m));
        assert(lehmer_prefix(p, k) == lehmer_quot(p, k) * fact(m));
    } else {
        assert(lehmer_quot(p, 0) == 0);
        assert(0 * fact(p.len()) == 0);
    }
}

/// The digits from `k` on contribute less than `(n-k)!`.
proof fn lemma_lehmer_tail(p: Seq<usize>, k: nat)
    requires
        k <= p.len(),
    ensures
        lehmer_prefix(p, k) <= lehmer_rank(p),
        lehmer_rank(p) - lehmer_prefix(p, k) < fact((p.len() - k) as nat),
    decreases p.len() - k,
{
    let n = p.len();
    if k == n {
        assert(fact(0) == 1);
    } else {
        lemma_lehmer_tail(p, k + 1);
        let m = (n - k - 1) as nat;
        let d = lehmer_digit(p, k as int);
        lemma_count_below_le(p, p[k as int], (k + 1) as int, n as int);
        assert(lehmer_prefix(p, k + 1) == lehmer_prefix(p, k) + d * fact(m));
        assert(fact((n - k) as nat) == (m + 1) * fact(m));
        assert(d * fact(m) + fact(m) <= (m + 1) * fact(m)) by (nonlinear_arith)
            requires
                d <= m,
        ;
    }
}

/// Permutations of one length with one Lehmer rank have the same Lehmer
/// digits.
proof fn lemma_lehmer_digits_from_rank(p: Seq<usize>, q: Seq<usize>)
    requires
        p.len() == q.len(),
        lehmer_rank(p) == lehmer_rank(q),
    ensures
        forall|i: int| 0 <= i < p.len() ==> #[trigger] lehmer_digit(p, i) == lehmer_digit(q, i),
{
    let n = p.len();
    assert forall|k: nat| k <= n implies lehmer_quot(p, k) == lehmer_quot(q, k) by {
        let f = fact((n - k) as nat);
        lemma_fact_pos((n - k) as nat);
        lemma_lehmer_prefix_quot(p, k);
        lemma_lehmer_prefix_quot(q, k);
        lemma_lehmer_tail(p, k);
        lemma_lehmer_tail(q, k);
        let r = lehmer_rank(p);
        crate::bit_vector::lemma_fundamental_div_mod_unique(
            r,
            f,
            lehmer_quot(p, k),
            (r - lehmer_prefix(p, k)) as nat,
        );
        crate::bit_vector::lemma_fundamental_div_mod_unique(
            r,
            f,
            lehmer_quot(q, k),
            (r - lehmer_prefix(q, k)) as nat,
        );
    }
    assert forall|i: int| 0 <= i < p.len() implies #[trigger] lehmer_digit(p, i) == lehmer_digit(q, i) by {
        assert(lehmer_quot(p, (i + 1) as nat) == lehmer_quot(q, (i + 1) as nat));
        assert(lehmer_quot(p, i as nat) == lehmer_quot(q, i as nat));
    }
}

/// The values at positions `from..to` of `p`.
spec fn vals(p: Seq<usize>, from: int, to: int) -> Set<usize> {
    Set::new(|v: usize| exists|k: int| from <= k < to && p[k] == v)
}

/// The values below `n`.
spec fn below(n: nat) -> Set<usize> {
    Set::new(|v: usize| v < n)
}

/// The values below `x` of a set.
spec fn lt_part(s: Set<usize>, x: usize) -> Set<usize> {
    s.filter(|v: usize| v < x)
}

/// There are `k` values below `k`.
proof fn lemma_below_len(k: nat)
    requires
        k <= usize::MAX + 1,
    ensures
        below(k).finite(),
        below(k).len() == k,
    decreases k,
{
    if k == 0 {
        assert(below(0) =~= Set::empty());
    } else {
        lemma_below_len((k - 1) as nat);
        assert(below(k) =~= below((k - 1) as nat).insert((k - 1) as usize));
    }
}

/// Over distinct entries, positions count as values: `to - from` values, of
/// which `count_below` lie below `x`.
proof fn lemma_vals_count(p: Seq<usize>, x: usize, from: int, to: int)
    requires
        0 <= from <= to <= p.len(),
        forall|a: int, b: int| 0 <= a < b < p.len() ==> p[a] != p[b],
    ensures
        vals(p, from, to).finite(),
        vals(p, from, to).len() == to - from,
        lt_part(vals(p, from, to), x).finite(),
        count_below(p, x, from, to) == lt_part(vals(p, from, to), x).len(),
    decreases to - from,
{
    if from == to {
        assert(vals(p, from, to) =~= Set::empty());
        assert(lt_part(vals(p, from, to), x) =~= Set::empty());
    } else {
        lemma_vals_count(p, x, from, to - 1);
        let prev = vals(p, from, to - 1);
        let y = p[to - 1];
        assert(vals(p, from, to) =~= prev.insert(y));
        assert(!prev.contains(y)) by {
            if prev.contains(y) {
                let k = choose|k: int| from <= k < to - 1 && p[k] == y;
                assert(p[k] != p[to - 1]);
            }
        }
        if y < x {
            assert(lt_part(vals(p, from, to), x) =~= lt_part(prev, x).insert(y));
        } else {
            assert(lt_part(vals(p, from, to), x) =~= lt_part(prev, x));
        }
    }
}

/// A permutation takes every value below its length.
proof fn lemma_perm_covers(p: Seq<usize>)
    requires
        is_permutation(p),
        p.len() <= usize::MAX,
    ensures
        vals(p, 0, p.len() as int) == below(p.len()),
{
    let n = p.len();
    lemma_vals_count(p, 0, 0, n as int);
    lemma_below_len(n);
    assert(vals(p, 0, n as int).subset_of(below(n)));
    vstd::set_lib::lemma_subset_equality(vals(p, 0, n as int), below(n));
}

/// In a permutation, the later entries below `p[i]` are the values below
/// `p[i]` that no earlier entry takes.
proof fn lemma_digit_as_values(p: Seq<usize>, i: int)
    requires
        is_permutation(p),
        p.len() <= usize::MAX,
        0 <= i < p.len(),
    ensures
        lehmer_digit(p, i) == lt_part(below(p.len()), p[i]).difference(vals(p, 0, i)).len(),
        lt_part(below(p.len()), p[i]).difference(vals(p, 0, i)).finite(),
{
    let n = p.len();
    lemma_vals_count(p, p[i], i + 1, n as int);
    lemma_perm_covers(p);
    let a = lt_part(vals(p, i + 1, n as int), p[i]);
    let b = lt_part(below(n), p[i]).difference(vals(p, 0, i));
    assert forall|v: usize| a.contains(v) <==> b.contains(v) by {
        if a.contains(v) {
            let k = choose|k: int| i + 1 <= k < n && p[k] == v;
            if vals(p, 0, i).contains(v) {
                let j = choose|j: int| 0 <= j < i && p[j] == v;
                assert(p[j] != p[k]);
            }
        }
        if b.contains(v) {
            assert(vals(p, 0, n as int).contains(v));
            let k = choose|k: int| 0 <= k < n && p[k] == v;
            if k < i {
                assert(vals(p, 0, i).contains(v));
            }
            assert(k != i);
        }
    }
    assert(a =~= b);
}

/// Permutations with the same Lehmer digits are equal.
proof fn lemma_lehmer_digits_determine(p: Seq<usize>, q: Seq<usize>)
    requires
        is_permutation(p),
        is_permutation(q),
        p.len() == q.len(),
        p.len() <= usize::MAX,
        forall|i: int| 0 <= i < p.len() ==> #[trigger] lehmer_digit(p, i) == lehmer_digit(q, i),
    ensures
        p == q,
{
    let n = p.len();
    assert forall|i: int| 0 <= i < n implies p[i] == q[i] by {
        lemma_lehmer_prefix_agree(p, q, i);
    }
    assert(p =~= q);
}

/// Permutations with the same Lehmer digits agree at every position up to
/// `i`.
proof fn lemma_lehmer_prefix_agree(p: Seq<usize>, q: Seq<usize>, i: int)
    requires
        is_permutation(p),
        is_permutation(q),
        p.len() == q.len(),
        p.len() <= usize::MAX,
        0 <= i < p.len(),
        forall|j: int| 0 <= j < p.len() ==> #[trigger] lehmer_digit(p, j) == lehmer_digit(q, j),
    ensures
        forall|a: int| 0 <= a <= i ==> p[a] == q[a],
    decreases i,
{
    if i > 0 {
        lemma_lehmer_prefix_agree(p, q, i - 1);
    }
    let n = p.len();
    assert(vals(p, 0, i) =~= vals(q, 0, i)) by {
        assert forall|v: usize| vals(p, 0, i).contains(v) implies vals(q, 0, i).contains(v) by {
            let k = choose|k: int| 0 <= k < i && p[k] == v;
            assert(q[k] == v);
        }
        assert forall|v: usize| vals(q, 0, i).contains(v) implies vals(p, 0, i).contains(v) by {
            let k = choose|k: int| 0 <= k < i && q[k] == v;
            assert(p[k] == v);
        }
    }
    lemma_digit_as_values(p, i);
    lemma_digit_as_values(q, i);
    assert(lehmer_digit(p, i) == lehmer_digit(q, i));
    if p[i] != q[i] {
        let (lo, hi, s) = if p[i] < q[i] {
            (p[i], q[i], p)
        } else {
            (q[i], p[i], q)
        };
        let used = vals(p, 0, i);
        let small = lt_part(below(n), lo).difference(used);
        let large = lt_part(below(n), hi).difference(used);
        assert(!used.contains(lo)) by {
            if used.contains(lo) {
                let k = choose|k: int| 0 <= k < i && p[k] == lo;
                assert(s[k] == lo && s[i] == lo);
            }
        }
        assert(small.insert(lo).subset_of(large));
        vstd::set_lib::lemma_len_subset(small.insert(lo), large);
        assert(!small.contains(lo));
    }
}

/// Lehmer ranking is injective on permutations of one length: unranking a
/// permutation's rank gives that permutation back.
pub proof fn lemma_lehmer_rank_injective(p: Seq<usize>, q: Seq<usize>)
    requires
        is_permutation(p),
        is_permutation(q),
        p.len() == q.len(),
        p.len() <= usize::MAX,
        lehmer_rank(p) == lehmer_rank(q),
    ensures
        p == q,
{
    lemma_lehmer_digits_from_rank(p, q);
    lemma_lehmer_digits_determine(p, q);
}

/// The count of later entries smaller than `perm[i]`.
fn smaller_after(perm: &[usize], i: usize) -> (r: usize)
    requires
        i < perm@.len(),
    ensures
        r == lehmer_digit(perm@, i as int),
{
    let n = perm.len();
    let mut count: usize = 0;
    let mut j: usize = i + 1;
    while j < n
        invariant
            n == perm@.len(),
            i < n,
            i + 1 <= j <= n,
            count == count_below(perm@, perm@[i as int], i + 1, j as int),
            count <= j - (i + 1),
        decreases n - j,
    {
        if perm[j] < perm[i] {
            count += 1;
        }
        j += 1;
    }
    count
}

/// The Lehmer-code (lexicographic) rank of `perm`.
pub fn permutation_rank(perm: &[usize]) -> (r: Result<BigNat, CombError>)
    ensures
        r is Ok <==> is_permutation(perm@),
        match r {
            Ok(v) => v@ == lehmer_rank(perm@),
            Err(e) => e is InvalidParameters,
        },
{
    validate(perm)?;
    let n = perm.len();
    let mut rank = BigNat::zero();
    let mut i: usize = 0;
    while i < n
        invariant
            n == perm@.len(),
            i <= n,
            rank@ == lehmer_prefix(perm@, i as nat),
        decreases n - i,
    {
        let smaller = smaller_after(perm, i);
        let term = BigNat::from_usize(smaller).mul(&factorial((n - 1 - i) as u64));
        rank = rank.add(&term);
        proof {
            assert((n - (i + 1)) as nat == (n - 1 - i) as nat);
        }
        i += 1;
    }
    Ok(rank)
}

/// The permutation of `{0, ..., n-1}` at lexicographic ordinal `rank`.
pub fn permutation_unrank(rank: &BigNat, n: usize) -> (r: Result<Vec<usize>, CombError>)
    ensures
        r is Ok <==> rank@ < fact(n as nat),
        match r {
            Ok(p) => p@.len() == n && is_permutation(p@) && lehmer_rank(p@) == rank@,
            Err(e) => e matches CombError::OutOfRange { value, bound } && value@ == decimal(rank@)
                && bound@ == decimal(fact(n as nat)),
        },
{
    let total = factorial(n as u64);
    if !rank.lt(&total) {
        return Err(CombError::OutOfRange { value: rank.to_decimal(), bound: total.to_decimal() });
    }
    let mut avail: Vec<usize> = Vec::new();
    let mut k: usize = 0;
    while k < n
        invariant
            k <= n,
            avail@ == Seq::new(k as nat, |x: int| x as usize),
        decreases n - k,
    {
        avail.push(k);
        k += 1;
        assert(avail@ =~= Seq::new(k as nat, |x: int| x as usize));
    }
    let mut remaining = rank.duplicate();
    let mut perm: Vec<usize> = Vec::new();
    let ghost mut ds: Seq<nat> = Seq::empty();
    let mut i: usize = 0;
    while i < n
        invariant
            i <= n,
            perm@.len() == i,
            ds.len() == i,
            forall|a: int| 0 <= a < i ==> #[trigger] ds[a] == count_below(perm@, perm@[a], a + 1, i as int)
                + count_lt(avail@, perm@[a]),
            rank@ == digit_sum(ds, n as nat, i as nat) + remaining@,
            avail@.len() == n - i,
            remaining@ < fact((n - i) as nat),
            forall|a: int, b: int| 0 <= a < b < avail@.len() ==> #[trigger] avail@[a] < #[trigger] avail@[b],
            forall|a: int| 0 <= a < avail@.len() ==> #[trigger] avail@[a] < n,
            forall|a: int| 0 <= a < i ==> #[trigger] perm@[a] < n,
            forall|a: int, b: int| 0 <= a < b < i ==> #[trigger] perm@[a] != #[trigger] perm@[b],
            forall|a: int, b: int| 0 <= a < i && 0 <= b < avail@.len() ==> #[trigger] perm@[a] != #[trigger] avail@[b],
        decreases n - i,
    {
        let f = factorial((n - 1 - i) as u64);
        proof {
            lemma_fact_pos((n - 1 - i) as nat);
            assert(fact((n - i) as nat) == (n - i) * fact((n - 1 - i) as nat));
        }
        let q = remaining.div(&f);
        proof {
            let ff = fact((n - 1 - i) as nat);
            assert(q@ < n - i) by (nonlinear_arith)
                requires
                    q@ == remaining@ / ff,
                    remaining@ < (n - i) * ff,
                    ff >= 1,
            ;
        }
        let idx = small_to_usize(&q, n - i);
        let rest = remaining.rem(&f);
        let ghost av = avail@;
        let ghost pv = perm@;
        let x = avail.remove(idx);
        perm.push(x);
        proof {
            let ds0 = ds;
            ds = ds.push(idx as nat);
            let ff = fact((n - 1 - i) as nat);
            assert(remaining@ == q@ * ff + rest@) by {
                vstd::arithmetic::div_mod::lemma_fundamental_div_mod(remaining@ as int, ff as int);
            }
            assert((n - (i + 1)) as nat == (n - 1 - i) as nat);
            assert(digit_sum(ds, n as nat, (i + 1) as nat) == digit_sum(ds0, n as nat, i as nat) + idx * ff) by {
                assert(ds[i as int] == idx);
                assert forall|a: int| 0 <= a < i implies ds[a] == ds0[a] by {}
                lemma_digit_sum_prefix(ds0, ds, n as nat, i as nat);
            }
            assert forall|a: int| 0 <= a < i + 1 implies #[trigger] ds[a] == count_below(perm@, perm@[a], a + 1, (i + 1) as int)
                + count_lt(avail@, perm@[a]) by {
                lemma_count_lt_remove(av, idx as int, perm@[a]);
                if a < i {
                    assert(perm@[a] == pv[a]);
                    assert(ds[a] == ds0[a]);
                    lemma_count_below_push(pv, x, pv[a], a + 1, i as int);
                    assert(perm@ == pv.push(x));
                    assert(perm@[i as int] == x);
                } else {
                    assert(perm@[a] == x);
                    assert(x == av[idx as int]);
                }
            }
            assert(rest@ < fact((n - 1 - i) as nat)) by {
                vstd::arithmetic::div_mod::lemma_mod_bound(remaining@ as int, fact((n - 1 - i) as nat) as int);
            }
            assert((n - (i + 1)) as nat == (n - 1 - i) as nat);
            assert forall|a: int, b: int| 0 <= a < b < avail@.len() implies #[trigger] avail@[a] < #[trigger] avail@[b] by {
                let a0 = if a < idx { a } else { a + 1 };
                let b0 = if b < idx { b } else { b + 1 };
                assert(avail@[a] == av[a0] && avail@[b] == av[b0]);
            }
            assert forall|a: int| 0 <= a < avail@.len() implies #[trigger] avail@[a] < n by {
                let a0 = if a < idx { a } else { a + 1 };
                assert(avail@[a] == av[a0]);
            }
            assert forall|a: int, b: int| 0 <= a < b < i + 1 implies #[trigger] perm@[a] != #[trigger] perm@[b] by {
                if b == i {
                    assert(perm@[a] == pv[a]);
                    assert(pv[a] != av[idx as int]);
                }
            }
            assert forall|a: int, b: int| 0 <= a < i + 1 && 0 <= b < avail@.len() implies #[trigger] perm@[a] != #[trigger] avail@[b] by {
                let b0 = if b < idx { b } else { b + 1 };
                assert(avail@[b] == av[b0]);
                if a < i {
                    assert(perm@[a] == pv[a]);
                } else {
                    assert(b0 != idx);
                }
            }
        }
        remaining = rest;
        i += 1;
    }
    proof {
        assert forall|a: int, b: int| 0 <= a < b < perm@.len() implies #[trigger] perm@[a] != #[trigger] perm@[b] by {}
        assert(avail@ =~= Seq::<usize>::empty());
        assert(count_lt(Seq::<usize>::empty(), 0) == 0);
        assert forall|a: int| 0 <= a < n implies #[trigger] ds[a] == lehmer_digit(perm@, a) by {
            assert(count_lt(avail@, perm@[a]) == 0);
        }
        lemma_digit_sum_lehmer(ds, perm@, n as nat);
        assert(fact(0) == 1);
    }
    Ok(perm)
}

/// A permutation takes the value `v` somewhere.
proof fn lemma_perm_hits(p: Seq<usize>, v: usize) -> (t: int)
    requires
        is_permutation(p),
        p.len() <= usize::MAX,
        v < p.len(),
    ensures
        0 <= t < p.len(),
        p[t] == v,
{
    lemma_perm_covers(p);
    assert(below(p.len()).contains(v));
    assert(vals(p, 0, p.len() as int).contains(v));
    choose|t: int| 0 <= t < p.len() && p[t] == v
}

/// Position `x` does not start an ascent.
pub open spec fn no_ascent_at(p: Seq<usize>, x: int) -> bool {
    p[x] >= p[x + 1]
}

/// What the search for the last ascent finds below `i`.
proof fn lemma_last_ascent(p: Seq<usize>, i: nat)
    requires
        i <= p.len(),
    ensures
        last_ascent(p, i) matches Some(k) ==> 1 <= k < i && p[k - 1] < p[k as int] && forall|x: int|
            k <= x && x + 1 < i ==> #[trigger] no_ascent_at(p, x),
        last_ascent(p, i) is None ==> forall|x: int| 0 <= x && x + 1 < i ==> #[trigger] no_ascent_at(p, x),
    decreases i,
{
    if i >= 2 {
        lemma_last_ascent(p, (i - 1) as nat);
    }
}

/// Without ascents from `lo` on, a permutation falls strictly from `lo` on.
proof fn lemma_falling(p: Seq<usize>, lo: int, x: int, y: int)
    requires
        is_permutation(p),
        0 <= lo <= x < y < p.len(),
        forall|z: int| lo <= z && z + 1 < p.len() ==> #[trigger] no_ascent_at(p, z),
    ensures
        p[x] > p[y],
    decreases y - x,
{
    assert(no_ascent_at(p, y - 1));
    assert(p[y - 1] != p[y]);
    if x < y - 1 {
        lemma_falling(p, lo, x, y - 1);
    }
}

/// What the search for the last entry above `v` finds.
proof fn lemma_last_above(p: Seq<usize>, v: usize, lo: nat, i: nat)
    requires
        lo < i <= p.len(),
        p[lo as int] > v,
    ensures
        lo <= last_above(p, v, lo, i) < i,
        p[last_above(p, v, lo, i) as int] > v,
        forall|t: int| last_above(p, v, lo, i) < t < i ==> #[trigger] p[t] <= v,
    decreases i,
{
    if i > lo + 1 {
        lemma_last_above(p, v, lo, (i - 1) as nat);
    }
}

/// `perm_successor` is the next permutation in lexicographic order: it is a
/// permutation after `p`, and no permutation lies strictly between them;
/// when it is `None`, no permutation comes after `p`.
pub proof fn lemma_perm_successor_is_next(p: Seq<usize>, e: Seq<usize>)
    requires
        is_permutation(p),
        p.len() <= usize::MAX,
    ensures
        perm_successor(p) matches Some(r) ==> is_permutation(r) && r.len() == p.len() && lex_less(p, r),
        perm_successor(p) matches Some(r) ==> (is_permutation(e) && e.len() == p.len() && lex_less(p, e) ==> e == r
            || lex_less(r, e)),
        perm_successor(p) is None && is_permutation(e) && e.len() == p.len() ==> !lex_less(p, e),
{
    let n = p.len();
    lemma_last_ascent(p, n);
    match last_ascent(p, n) {
        None => {
            if is_permutation(e) && e.len() == n && lex_less(p, e) {
                let m = choose|m: int| #[trigger] lex_less_at(p, e, m);
                let t = lemma_perm_hits(p, e[m]);
                if t < m {
                    assert(e[t] == p[t]);
                } else if t > m {
                    lemma_falling(p, 0, m, t);
                }
            }
        },
        Some(k) => {
            let piv = k - 1;
            let v = p[piv];
            lemma_last_above(p, v, k, n);
            let j = last_above(p, v, k, n) as int;
            let q = p.update(piv, p[j]).update(j, v);
            let r = perm_successor(p)->0;
            assert(r == q.subrange(0, k as int) + q.subrange(k as int, n as int).reverse());
            assert forall|x: int| 0 <= x < k implies #[trigger] r[x] == if x == piv { p[j] } else { p[x] } by {}
            assert forall|x: int| k <= x < n implies #[trigger] r[x] == if n - 1 + k - x == j { v } else { p[n - 1 + k - x] } by {
                assert(r[x] == q.subrange(k as int, n as int).reverse()[x - k]);
                assert(q.subrange(k as int, n as int).reverse()[x - k] == q[n - 1 + k - x]);
            }
            // The tail of `r` rises.
            assert forall|x: int, y: int| k <= x < y < n implies #[trigger] r[x] < #[trigger] r[y] by {
                let a = n - 1 + k - x;
                let b = n - 1 + k - y;
                if a != j && b != j {
                    lemma_falling(p, k as int, b, a);
                } else if b == j {
                    assert(p[a] <= v);
                    assert(p[a] != p[piv]);
                } else {
                    lemma_falling(p, k as int, b, j);
                }
            }
            // `r` is a permutation: each entry comes from a distinct position of `p`.
            assert forall|x: int| 0 <= x < n implies #[trigger] r[x] < n by {}
            assert forall|x: int, y: int| 0 <= x < y < n implies #[trigger] r[x] != #[trigger] r[y] by {
                if y < k {
                } else if x < k {
                    let b = n - 1 + k - y;
                    if x == piv {
                        if b != j {
                            assert(p[j] != p[b]);
                        }
                    } else {
                        if b == j {
                            assert(p[x] != p[piv]);
                        } else {
                            assert(p[x] != p[b]);
                        }
                    }
                }
            }
            assert(is_permutation(r));
            assert(lex_less_at(p, r, piv as int));
            if is_permutation(e) && e.len() == n && lex_less(p, e) {
                let m = choose|m: int| #[trigger] lex_less_at(p, e, m);
                if m < piv {
                    assert(lex_less_at(r, e, m));
                } else if m > piv {
                    let t = lemma_perm_hits(p, e[m]);
                    if t < m {
                        assert(e[t] == p[t]);
                    } else if t > m {
                        lemma_falling(p, k as int, m, t);
                    }
                } else {
                    let t = lemma_perm_hits(p, e[m]);
                    if t < m {
                        assert(e[t] == p[t]);
                    }
                    assert(t >= k);
                    assert(t <= j);
                    if t < j {
                        lemma_falling(p, k as int, t, j);
                    }
                    if e[m] > r[m] {
                        assert(lex_less_at(r, e, m));
                    } else if e != r {
                        let d = lemma_first_diff(r, e);
                        assert(d > piv) by {
                            if d <= piv {
                                assert(r[d] == e[d]);
                            }
                        }
                        let u = lemma_perm_hits(r, e[d]);
                        if u < d {
                            assert(e[u] == r[u]);
                        }
                        assert(u > d);
                        assert(r[d] < r[u]);
                        assert(lex_less_at(r, e, d));
                    }
                }
            }
        },
    }
}

} // verus!
