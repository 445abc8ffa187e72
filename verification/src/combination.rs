//! `k`-combinations of `{0, ..., n-1}` in lexicographic order, with rank/unrank.
//!
//! A combination is a strictly ascending list of `k` indices. Rank and unrank
//! agree with the iterator's lexicographic order.

use crate::bignat::{decimal, BigNat};
use crate::count::{binomial, binom, lemma_binom_zero};
use crate::error::CombError;
use crate::text::text_nums;
use vstd::prelude::*;

verus! {

/// Whether `c` is strictly ascending with every member below `n`.
pub open spec fn is_combination(c: Seq<usize>, n: nat) -> bool {
    &&& forall|i: int, j: int| 0 <= i < j < c.len() ==> #[trigger] c[i] < #[trigger] c[j]
    &&& forall|i: int| 0 <= i < c.len() ==> #[trigger] c[i] < n
}

/// `C(n-1-lo, r) + C(n-1-(lo+1), r) + ... + C(n-1-(hi-1), r)`: the number of
/// `(r+1)`-combinations of `{lo, ..., n-1}` whose smallest member is below `hi`.
pub open spec fn skip_count(n: nat, r: nat, lo: nat, hi: nat) -> nat
    decreases hi,
{
    if hi <= lo {
        0
    } else {
        skip_count(n, r, lo, (hi - 1) as nat) + binom((n - 1 - (hi - 1)) as nat, r)
    }
}

/// The smallest candidate for position `i` of `c`: one past the previous member.
pub open spec fn floor_at(c: Seq<usize>, i: nat) -> nat {
    if i == 0 {
        0
    } else {
        (c[i - 1] + 1) as nat
    }
}

/// The rank contributed by the first `i` members of a `k`-combination `c`:
/// for each position, the combinations that agree before it and are smaller
/// there.
pub open spec fn rank_prefix(c: Seq<usize>, n: nat, k: nat, i: nat) -> nat
    decreases i,
{
    if i == 0 {
        0
    } else {
        rank_prefix(c, n, k, (i - 1) as nat) + skip_count(
            n,
            (k - 1 - (i - 1)) as nat,
            floor_at(c, (i - 1) as nat),
            c[i - 1] as nat,
        )
    }
}

/// The lexicographic rank of the combination `c` of `{0, ..., n-1}`.
pub open spec fn comb_rank(c: Seq<usize>, n: nat) -> nat {
    rank_prefix(c, n, c.len(), c.len())
}

/// `rank_prefix` reads only the first `i` members.
pub proof fn lemma_rank_prefix_stable(c: Seq<usize>, d: Seq<usize>, n: nat, k: nat, i: nat)
    requires
        i <= c.len(),
        i <= d.len(),
        forall|j: int| 0 <= j < i ==> c[j] == d[j],
    ensures
        rank_prefix(c, n, k, i) == rank_prefix(d, n, k, i),
    decreases i,
{
    if i > 0 {
        lemma_rank_prefix_stable(c, d, n, k, (i - 1) as nat);
    }
}

/// A positive binomial needs room: `C(m, j) > 0` implies `j <= m`.
pub proof fn lemma_binom_pos_bound(m: nat, j: nat)
    requires
        binom(m, j) > 0,
    ensures
        j <= m,
{
    if j > m {
        lemma_binom_zero(m, j);
    }
}

/// The rank contributed by the members of `c` from position `i` on.
pub open spec fn rank_from(c: Seq<usize>, n: nat, k: nat, i: nat) -> nat
    decreases k - i,
{
    if i >= k {
        0
    } else {
        skip_count(n, (k - 1 - i) as nat, floor_at(c, i), c[i as int] as nat) + rank_from(
            c,
            n,
            k,
            i + 1,
        )
    }
}

/// The full rank splits at any position into a prefix and a suffix part.
proof fn lemma_prefix_split(c: Seq<usize>, n: nat, k: nat, i: nat)
    requires
        i <= k,
    ensures
        rank_prefix(c, n, k, k) == rank_prefix(c, n, k, i) + rank_from(c, n, k, i),
    decreases k - i,
{
    if i < k {
        lemma_prefix_split(c, n, k, i + 1);
    }
}

/// Hockey stick: `sum_{lo <= v < hi} C(n-1-v, r) + C(n-hi, r+1) == C(n-lo, r+1)`.
proof fn lemma_hockey(n: nat, r: nat, lo: nat, hi: nat)
    requires
        lo <= hi <= n,
    ensures
        skip_count(n, r, lo, hi) + binom((n - hi) as nat, r + 1) == binom((n - lo) as nat, r + 1),
    decreases hi,
{
    if hi > lo {
        lemma_hockey(n, r, lo, (hi - 1) as nat);
        let m = (n - hi) as nat;
        assert((n - (hi - 1)) as nat == m + 1);
        assert(binom(m + 1, r + 1) == binom(m, r) + binom(m, r + 1));
        assert((n - 1 - (hi - 1)) as nat == m);
    }
}

/// `skip_count` grows with its upper end.
proof fn lemma_skip_mono(n: nat, r: nat, lo: nat, h1: nat, h2: nat)
    requires
        h1 <= h2,
    ensures
        skip_count(n, r, lo, h1) <= skip_count(n, r, lo, h2),
    decreases h2,
{
    if h2 > h1 && h2 > lo {
        lemma_skip_mono(n, r, lo, h1, (h2 - 1) as nat);
    }
}

/// The suffix rank from position `i` is below the number of ways to finish.
proof fn lemma_rank_from_bound(c: Seq<usize>, n: nat, i: nat)
    requires
        is_combination(c, n),
        i <= c.len(),
    ensures
        floor_at(c, i) <= n,
        rank_from(c, n, c.len(), i) < binom((n - floor_at(c, i)) as nat, (c.len() - i) as nat),
    decreases c.len() - i,
{
    let k = c.len();
    if i > 0 {
        assert(c[i - 1] < n);
    }
    if i == k {
        assert(binom((n - floor_at(c, i)) as nat, 0) == 1);
    } else {
        let f = floor_at(c, i);
        let ci = c[i as int] as nat;
        if i > 0 {
            assert(c[i - 1] < c[i as int]);
        }
        lemma_rank_from_bound(c, n, i + 1);
        assert(floor_at(c, i + 1) == ci + 1);
        let r = (k - 1 - i) as nat;
        lemma_hockey(n, r, f, ci + 1);
        assert(skip_count(n, r, f, ci + 1) == skip_count(n, r, f, ci) + binom((n - 1 - ci) as nat, r));
        assert((k - (i + 1)) as nat == r);
        assert((n - (ci + 1)) as nat == (n - 1 - ci) as nat);
        assert((k - i) as nat == r + 1);
    }
}

/// Every `k`-combination of `n` ranks below `C(n, k)`.
pub proof fn lemma_comb_rank_bound(c: Seq<usize>, n: nat)
    requires
        is_combination(c, n),
    ensures
        comb_rank(c, n) < binom(n, c.len()),
{
    lemma_prefix_split(c, n, c.len(), 0);
    lemma_rank_from_bound(c, n, 0);
}

proof fn lemma_rank_from_injective(c: Seq<usize>, d: Seq<usize>, n: nat, i: nat)
    requires
        is_combination(c, n),
        is_combination(d, n),
        c.len() == d.len(),
        i <= c.len(),
        forall|t: int| 0 <= t < i ==> c[t] == d[t],
        rank_from(c, n, c.len(), i) == rank_from(d, n, d.len(), i),
    ensures
        c == d,
    decreases c.len() - i,
{
    let k = c.len();
    if i == k {
        assert(c =~= d);
    } else {
        let f = floor_at(c, i);
        assert(floor_at(d, i) == f);
        let r = (k - 1 - i) as nat;
        if c[i as int] == d[i as int] {
            lemma_rank_from_injective(c, d, n, i + 1);
        } else if c[i as int] < d[i as int] {
            lemma_rank_from_smaller(c, d, n, i);
        } else {
            lemma_rank_from_smaller(d, c, n, i);
        }
    }
}

/// Where `c` and `d` first differ at `i` with `c[i] < d[i]`, `d` ranks higher.
proof fn lemma_rank_from_smaller(c: Seq<usize>, d: Seq<usize>, n: nat, i: nat)
    requires
        is_combination(c, n),
        is_combination(d, n),
        c.len() == d.len(),
        i < c.len(),
        forall|t: int| 0 <= t < i ==> c[t] == d[t],
        c[i as int] < d[i as int],
    ensures
        rank_from(c, n, c.len(), i) < rank_from(d, n, d.len(), i),
{
    let k = c.len();
    let f = floor_at(c, i);
    assert(floor_at(d, i) == f);
    let r = (k - 1 - i) as nat;
    let ci = c[i as int] as nat;
    lemma_rank_from_bound(c, n, i + 1);
    assert(floor_at(c, i + 1) == ci + 1);
    assert((k - (i + 1)) as nat == r);
    assert((n - (ci + 1)) as nat == (n - 1 - ci) as nat);
    assert(skip_count(n, r, f, ci + 1) == skip_count(n, r, f, ci) + binom((n - 1 - ci) as nat, r));
    lemma_skip_mono(n, r, f, ci + 1, d[i as int] as nat);
}

/// Distinct `k`-combinations of `n` have distinct ranks: `comb_rank` is
/// injective, so unranking the rank of a combination gives it back.
pub proof fn lemma_comb_rank_injective(c: Seq<usize>, d: Seq<usize>, n: nat)
    requires
        is_combination(c, n),
        is_combination(d, n),
        c.len() == d.len(),
        comb_rank(c, n) == comb_rank(d, n),
    ensures
        c == d,
{
    lemma_prefix_split(c, n, c.len(), 0);
    lemma_prefix_split(d, n, d.len(), 0);
    lemma_rank_from_injective(c, d, n, 0);
}

/// Ranking a combination and unranking the rank gives it back: the rank lies
/// below `C(n, k)`, so unranking succeeds, and the only combination of that
/// length with that rank, which unranking returns, is `c` itself.
pub proof fn lemma_combination_round_trip(c: Seq<usize>, n: nat, d: Seq<usize>)
    requires
        is_combination(c, n),
        is_combination(d, n),
        d.len() == c.len(),
        comb_rank(d, n) == comb_rank(c, n),
    ensures
        comb_rank(c, n) < binom(n, c.len()),
        d == c,
{
    lemma_comb_rank_bound(c, n);
    lemma_comb_rank_injective(c, d, n);
}

/// Iterator over `k`-combinations of `{0, ..., n-1}` in lexicographic order.
#[derive(Debug, Clone)]
pub struct CombinationIter {
    n: usize,
    k: usize,
    current: Option<Vec<usize>>,
}

/// The last position below `i` that can still be incremented, if any.
pub open spec fn last_incrementable(c: Seq<usize>, n: nat, k: nat, i: nat) -> Option<nat>
    decreases i,
{
    if i == 0 {
        None
    } else if c[i - 1] < n - k + (i - 1) {
        Some((i - 1) as nat)
    } else {
        last_incrementable(c, n, k, (i - 1) as nat)
    }
}

/// The next `k`-combination after `c` in lexicographic order: the last
/// member that can grow is incremented and the rest follow it consecutively.
pub open spec fn comb_successor(c: Seq<usize>, n: nat, k: nat) -> Option<Seq<usize>> {
    match last_incrementable(c, n, k, k) {
        None => None,
        Some(i) => Some(
            Seq::new(k, |j: int| if j < i { c[j] } else { (c[i as int] + 1 + (j - i)) as usize }),
        ),
    }
}

/// `a` and `b` have the same length, agree before position `i`, and `a` is
/// smaller at `i`.
pub open spec fn lex_less_at(a: Seq<usize>, b: Seq<usize>, i: int) -> bool {
    &&& a.len() == b.len()
    &&& 0 <= i < a.len()
    &&& a[i] < b[i]
    &&& forall|j: int| 0 <= j < i ==> #[trigger] a[j] == b[j]
}

/// `a` comes before `b` in lexicographic order (same length).
pub open spec fn lex_less(a: Seq<usize>, b: Seq<usize>) -> bool {
    exists|i: int| #[trigger] lex_less_at(a, b, i)
}

/// Two different sequences of one length first differ somewhere.
pub(crate) proof fn lemma_first_diff(a: Seq<usize>, b: Seq<usize>) -> (p: int)
    requires
        a.len() == b.len(),
        a != b,
    ensures
        0 <= p < a.len(),
        a[p] != b[p],
        forall|j: int| 0 <= j < p ==> #[trigger] a[j] == b[j],
    decreases a.len(),
{
    if a.len() == 0 {
        assert(a =~= b);
        0
    } else if a.drop_last() == b.drop_last() {
        let l = a.len() - 1;
        if a[l] == b[l] {
            assert(a =~= b) by {
                assert forall|j: int| 0 <= j < a.len() implies a[j] == b[j] by {
                    if j < l {
                        assert(a[j] == a.drop_last()[j] && b[j] == b.drop_last()[j]);
                    }
                }
            }
        }
        assert forall|j: int| 0 <= j < l implies #[trigger] a[j] == b[j] by {
            assert(a[j] == a.drop_last()[j] && b[j] == b.drop_last()[j]);
        }
        l
    } else {
        let p = lemma_first_diff(a.drop_last(), b.drop_last());
        assert forall|j: int| 0 <= j < p implies #[trigger] a[j] == b[j] by {
            assert(a[j] == a.drop_last()[j] && b[j] == b.drop_last()[j]);
        }
        assert(a[p] == a.drop_last()[p] && b[p] == b.drop_last()[p]);
        p
    }
}

/// In a `k`-combination of `n`, position `m` holds at most `n - k + m`.
proof fn lemma_comb_upper(e: Seq<usize>, n: nat, m: int)
    requires
        is_combination(e, n),
        0 <= m < e.len(),
    ensures
        e[m] <= n - e.len() + m,
    decreases e.len() - m,
{
    if m < e.len() - 1 {
        lemma_comb_upper(e, n, m + 1);
        assert(e[m] < e[m + 1]);
    }
}

/// In a strictly ascending sequence the gaps are at least the distances.
proof fn lemma_comb_spread(e: Seq<usize>, n: nat, i: int, j: int)
    requires
        is_combination(e, n),
        0 <= i <= j < e.len(),
    ensures
        e[j] >= e[i] + (j - i),
    decreases j - i,
{
    if i < j {
        lemma_comb_spread(e, n, i, j - 1);
        assert(e[j - 1] < e[j]);
    }
}

/// What the search for an incrementable position finds below `i`.
proof fn lemma_last_incrementable(c: Seq<usize>, n: nat, k: nat, i: nat)
    requires
        i <= c.len(),
    ensures
        last_incrementable(c, n, k, i) matches Some(p) ==> p < i && c[p as int] < n - k + p && forall|j: int|
            p < j < i ==> #[trigger] c[j] >= n - k + j,
        last_incrementable(c, n, k, i) is None ==> forall|j: int| 0 <= j < i ==> #[trigger] c[j] >= n - k + j,
    decreases i,
{
    if i > 0 {
        lemma_last_incrementable(c, n, k, (i - 1) as nat);
    }
}

/// `comb_successor` is the next `k`-combination in lexicographic order: it
/// is a `k`-combination after `c`, and no `k`-combination lies strictly
/// between them; when it is `None`, no `k`-combination comes after `c`.
pub proof fn lemma_comb_successor_is_next(c: Seq<usize>, n: nat, e: Seq<usize>)
    requires
        is_combination(c, n),
        n <= usize::MAX,
    ensures
        comb_successor(c, n, c.len()) matches Some(d) ==> is_combination(d, n) && d.len() == c.len() && lex_less(c, d),
        comb_successor(c, n, c.len()) matches Some(d) ==> (is_combination(e, n) && e.len() == c.len() && lex_less(c, e)
            ==> e == d || lex_less(d, e)),
        comb_successor(c, n, c.len()) is None && is_combination(e, n) && e.len() == c.len() ==> !lex_less(c, e),
{
    let k = c.len();
    lemma_last_incrementable(c, n, k, k);
    if is_combination(e, n) && e.len() == k && lex_less(c, e) {
        let m = choose|m: int| #[trigger] lex_less_at(c, e, m);
        lemma_comb_upper(e, n, m);
        if let Some(i) = last_incrementable(c, n, k, k) {
            let d = comb_successor(c, n, k)->0;
            if m < i {
                assert(lex_less_at(d, e, m));
            } else if m == i {
                if e[m] > d[m] {
                    assert(lex_less_at(d, e, m));
                } else if e != d {
                    let p = lemma_first_diff(d, e);
                    assert(p > i) by {
                        if p < i {
                            assert(d[p] == c[p]);
                        }
                    }
                    lemma_comb_spread(e, n, i as int, p);
                    assert(lex_less_at(d, e, p));
                }
            } else {
                assert(c[m] >= n - k + m);
            }
        } else {
            assert(c[m] >= n - k + m);
        }
    }
    if let Some(i) = last_incrementable(c, n, k, k) {
        let d = comb_successor(c, n, k)->0;
        assert forall|x: int| i <= x < k implies #[trigger] d[x] == c[i as int] + 1 + (x - i) by {
            assert(c[i as int] + 1 + (x - i) < n);
        }
        assert forall|x: int| 0 <= x < i implies #[trigger] d[x] == c[x] by {}
        assert forall|x: int, y: int| 0 <= x < y < d.len() implies #[trigger] d[x] < #[trigger] d[y] by {
            if x < i {
                if y < i {
                    assert(c[x] < c[y]);
                } else {
                    assert(c[x] < c[i as int]);
                }
            }
        }
        assert forall|x: int| 0 <= x < d.len() implies #[trigger] d[x] < n by {
            if x >= i {
                assert(c[i as int] < n - k + i);
            }
        }
        assert(lex_less_at(c, d, i as int));
    }
}

impl CombinationIter {
    /// The ground-set size.
    pub closed spec fn size(&self) -> nat {
        self.n as nat
    }

    /// The combination size.
    pub closed spec fn choose_k(&self) -> nat {
        self.k as nat
    }

    /// The combination the next call returns, if any.
    pub closed spec fn pending(&self) -> Option<Seq<usize>> {
        match self.current {
            Some(v) => Some(v@),
            None => None,
        }
    }

    /// Whether the pending combination is a `k`-combination of `n`.
    pub closed spec fn wf(&self) -> bool {
        &&& self.k <= self.n
        &&& self.current matches Some(v) ==> v@.len() == self.k && is_combination(v@, self.n as nat)
    }

    /// Return the pending combination and advance to its lexicographic
    /// successor.
    pub fn next(&mut self) -> (r: Option<Vec<usize>>)
        requires
            old(self).wf(),
        ensures
            final(self).wf(),
            final(self).size() == old(self).size(),
            final(self).choose_k() == old(self).choose_k(),
            match old(self).pending() {
                None => r is None && final(self).pending() is None,
                Some(c) => r matches Some(v) && v@ == c && final(self).pending() == comb_successor(
                    c,
                    old(self).size(),
                    old(self).choose_k(),
                ),
            },
    {
        let cur = match &self.current {
            None => {
                return None;
            },
            Some(c) => copy_indices(c),
        };
        let ghost c = cur@;
        let n = self.n;
        let k = self.k;
        let mut next = copy_indices(&cur);
        let mut i: usize = k;
        let mut advanced = false;
        while i > 0
            invariant
                k <= n,
                i <= k,
                c.len() == k,
                is_combination(c, n as nat),
                next@ == c,
                !advanced,
                last_incrementable(c, n as nat, k as nat, k as nat) == last_incrementable(c, n as nat, k as nat, i as nat),
            ensures
                i <= k,
                next@ == c,
                !advanced,
                last_incrementable(c, n as nat, k as nat, k as nat) == last_incrementable(c, n as nat, k as nat, i as nat),
                i > 0 ==> c[i - 1] < n - k + (i - 1),
            decreases i,
        {
            if next[i - 1] < n - k + (i - 1) {
                break;
            }
            i -= 1;
        }
        if i > 0 {
            let p = i - 1;
            let base = next[p] + 1;
            next.set(p, base);
            let mut j: usize = i;
            while j < k
                invariant
                    k <= n,
                    1 <= i <= k,
                    p == i - 1,
                    c.len() == k,
                    is_combination(c, n as nat),
                    c[p as int] < n - k + p,
                    base == c[p as int] + 1,
                    i <= j <= k,
                    next@.len() == k,
                    forall|x: int| 0 <= x < p ==> #[trigger] next@[x] == c[x],
                    forall|x: int| p <= x < j ==> #[trigger] next@[x] == base + (x - p),
                decreases k - j,
            {
                let prev = next[j - 1];
                next.set(j, prev + 1);
                j += 1;
            }
            advanced = true;
            proof {
                let succ = comb_successor(c, n as nat, k as nat);
                assert(last_incrementable(c, n as nat, k as nat, i as nat) == Some(p as nat));
                assert(succ == Some(next@)) by {
                    assert(next@ =~= Seq::new(k as nat, |x: int| if x < p { c[x] } else { (c[p as int] + 1 + (x - p)) as usize }));
                }
                assert forall|x: int, y: int| 0 <= x < y < next@.len() implies #[trigger] next@[x] < #[trigger] next@[y] by {
                    if y < p {
                    } else if x < p {
                        assert(c[x] < c[p as int]);
                    }
                }
            }
        }
        self.current = if advanced {
            Some(next)
        } else {
            None
        };
        Some(cur)
    }
}

/// A copy of an index vector.
pub fn copy_indices(v: &Vec<usize>) -> (r: Vec<usize>)
    ensures
        r@ == v@,
{
    let mut out: Vec<usize> = Vec::new();
    let mut i: usize = 0;
    while i < v.len()
        invariant
            i <= v@.len(),
            out@ == v@.subrange(0, i as int),
        decreases v@.len() - i,
    {
        out.push(v[i]);
        i += 1;
        assert(out@ =~= v@.subrange(0, i as int));
    }
    assert(out@ =~= v@);
    out
}

/// Construct a combination iterator. `k` must not exceed `n`.
pub fn combinations(n: usize, k: usize) -> (r: Result<CombinationIter, CombError>)
    ensures
        match r {
            Ok(it) => k <= n && it.wf() && it.size() == n && it.choose_k() == k && it.pending() == Some(
                Seq::new(k as nat, |i: int| i as usize),
            ),
            Err(e) => k > n && e is InvalidParameters,
        },
{
    if k > n {
        return Err(CombError::InvalidParameters(text_nums("combinations: k=", k as u64, " > n=", n as u64, "")));
    }
    let mut first: Vec<usize> = Vec::new();
    let mut i: usize = 0;
    while i < k
        invariant
            i <= k,
            k <= n,
            first@ == Seq::new(i as nat, |j: int| j as usize),
        decreases k - i,
    {
        first.push(i);
        i += 1;
        assert(first@ =~= Seq::new(i as nat, |j: int| j as usize));
    }
    Ok(CombinationIter { n, k, current: Some(first) })
}

/// Check that `combo` is strictly ascending and below `n`.
fn validate(combo: &[usize], n: usize) -> (r: Result<(), CombError>)
    ensures
        r is Ok <==> is_combination(combo@, n as nat),
        r matches Err(e) ==> (if exists|i: int| 0 <= i < combo@.len() - 1 && #[trigger] combo@[i] >= combo@[i + 1] {
            e is InvalidParameters
        } else {
            e is OutOfRange
        }),
{
    let mut i: usize = 0;
    while combo.len() > 0 && i < combo.len() - 1
        invariant
            i <= combo@.len(),
            i > 0 ==> i < combo@.len(),
            forall|a: int, b: int| 0 <= a < b <= i ==> #[trigger] combo@[a] < #[trigger] combo@[b],
        decreases combo@.len() - i,
    {
        if combo[i] >= combo[i + 1] {
            return Err(CombError::InvalidParameters("combination must be strictly ascending".to_string()));
        }
        proof {
            assert forall|a: int, b: int| 0 <= a < b <= i + 1 implies #[trigger] combo@[a] < #[trigger] combo@[b] by {
                if b == i + 1 && a < i {
                    assert(combo@[a] < combo@[i as int]);
                }
            }
        }
        i += 1;
    }
    if combo.len() > 0 {
        let last = combo[combo.len() - 1];
        if last >= n {
            return Err(
                CombError::OutOfRange { value: last.to_string(), bound: n.to_string() },
            );
        }
        proof {
            assert forall|x: int| 0 <= x < combo@.len() implies #[trigger] combo@[x] < n by {
                if x < combo@.len() - 1 {
                    assert(combo@[x] < combo@[combo@.len() - 1]);
                }
            }
        }
    }
    Ok(())
}

/// The lexicographic rank of `combo` among the `k`-combinations of `n`.
pub fn combination_rank(combo: &[usize], n: usize) -> (r: Result<BigNat, CombError>)
    ensures
        r is Ok <==> is_combination(combo@, n as nat),
        match r {
            Ok(v) => v@ == comb_rank(combo@, n as nat),
            Err(e) => if exists|i: int| 0 <= i < combo@.len() - 1 && #[trigger] combo@[i] >= combo@[i + 1] {
                e is InvalidParameters
            } else {
                e is OutOfRange
            },
        },
{
    validate(combo, n)?;
    let k = combo.len();
    let ghost c = combo@;
    let mut rank = BigNat::zero();
    let mut prev: usize = 0;
    let mut i: usize = 0;
    while i < k
        invariant
            k == c.len(),
            c == combo@,
            is_combination(c, n as nat),
            i <= k,
            prev == floor_at(c, i as nat),
            rank@ == rank_prefix(c, n as nat, k as nat, i as nat),
        decreases k - i,
    {
        let ci = combo[i];
        let mut v: usize = prev;
        proof {
            if i > 0 {
                assert(c[i - 1] < c[i as int]);
            }
        }
        while v < ci
            invariant
                k == c.len(),
                is_combination(c, n as nat),
                i < k,
                ci == c[i as int],
                prev == floor_at(c, i as nat),
                prev <= v <= ci,
                rank@ == rank_prefix(c, n as nat, k as nat, i as nat) + skip_count(
                    n as nat,
                    (k - 1 - i) as nat,
                    prev as nat,
                    v as nat,
                ),
            decreases ci - v,
        {
            let term = binomial((n - 1 - v) as u64, (k - 1 - i) as u64);
            rank = rank.add(&term);
            v += 1;
        }
        prev = ci + 1;
        i += 1;
    }
    Ok(rank)
}

/// The `k`-combination of `n` at lexicographic ordinal `rank`.
///
/// Inverse of [`combination_rank`]: the result ranks back to `rank`.
pub fn combination_unrank(rank: &BigNat, n: usize, k: usize) -> (r: Result<Vec<usize>, CombError>)
    ensures
        r is Ok <==> rank@ < binom(n as nat, k as nat),
        match r {
            Ok(c) => c@.len() == k && is_combination(c@, n as nat) && comb_rank(c@, n as nat) == rank@,
            Err(e) => e matches CombError::OutOfRange { value, bound } && value@ == decimal(rank@)
                && bound@ == decimal(binom(n as nat, k as nat)),
        },
{
    let total = binomial(n as u64, k as u64);
    if !rank.lt(&total) {
        return Err(CombError::OutOfRange { value: rank.to_decimal(), bound: total.to_decimal() });
    }
    let mut remaining = rank.duplicate();
    let mut combo: Vec<usize> = Vec::new();
    let mut v: usize = 0;
    let mut i: usize = 0;
    while i < k
        invariant
            i <= k,
            combo@.len() == i,
            v <= n,
            i > 0 ==> v == combo@[i - 1] + 1,
            i == 0 ==> v == 0,
            forall|a: int, b: int| 0 <= a < b < i ==> #[trigger] combo@[a] < #[trigger] combo@[b],
            forall|a: int| 0 <= a < i ==> #[trigger] combo@[a] < v,
            remaining@ < binom((n - v) as nat, (k - i) as nat),
            remaining@ + rank_prefix(combo@, n as nat, k as nat, i as nat) == rank@,
        decreases k - i,
    {
        let ghost prev = v as nat;
        let ghost before = combo@;
        proof {
            assert(floor_at(combo@, i as nat) == prev);
        }
        loop
            invariant_except_break
                combo@ == before,
                combo@.len() == i,
                remaining@ < binom((n - v) as nat, (k - i) as nat),
                remaining@ + rank_prefix(before, n as nat, k as nat, i as nat) + skip_count(
                    n as nat,
                    (k - 1 - i) as nat,
                    prev,
                    v as nat,
                ) == rank@,
            invariant
                i < k,
                prev <= v <= n,
                prev == floor_at(before, i as nat),
                forall|a: int| 0 <= a < i ==> #[trigger] before[a] < prev,
            ensures
                i < k,
                combo@.len() == i + 1,
                combo@.subrange(0, i as int) == before,
                combo@[i as int] >= prev,
                v == combo@[i as int] + 1,
                v <= n,
                remaining@ < binom((n - v) as nat, (k - 1 - i) as nat),
                remaining@ + rank_prefix(before, n as nat, k as nat, i as nat) + skip_count(
                    n as nat,
                    (k - 1 - i) as nat,
                    prev,
                    combo@[i as int] as nat,
                ) == rank@,
            decreases n - v,
        {
            proof {
                lemma_binom_pos_bound((n - v) as nat, (k - i) as nat);
            }
            let cnt = binomial((n - 1 - v) as u64, (k - 1 - i) as u64);
            if remaining.lt(&cnt) {
                combo.push(v);
                v += 1;
                proof {
                    assert(combo@.subrange(0, i as int) =~= before);
                }
                break;
            }
            proof {
                let m = (n - v) as nat;
                let j = (k - i) as nat;
                assert(binom(m, j) == binom((m - 1) as nat, (j - 1) as nat) + binom((m - 1) as nat, j));
                assert((n - 1 - v) as nat == (m - 1) as nat);
                assert((n - (v + 1)) as nat == (m - 1) as nat);
            }
            remaining = remaining.sub(&cnt);
            v += 1;
        }
        proof {
            lemma_rank_prefix_stable(combo@, before, n as nat, k as nat, i as nat);
            assert(floor_at(combo@, i as nat) == prev);
            assert(rank_prefix(combo@, n as nat, k as nat, (i + 1) as nat) == rank_prefix(combo@, n as nat, k as nat, i as nat)
                + skip_count(n as nat, (k - 1 - i) as nat, prev, combo@[i as int] as nat));
            assert forall|a: int, b: int| 0 <= a < b < i + 1 implies #[trigger] combo@[a] < #[trigger] combo@[b] by {
                if b < i {
                    assert(combo@[a] == before[a] && combo@[b] == before[b]);
                } else {
                    assert(combo@[a] == before[a]);
                }
            }
            assert((k - (i + 1)) as nat == (k - 1 - i) as nat);
        }
        i += 1;
    }
    proof {
        assert(binom((n - v) as nat, 0) == 1);
        assert(remaining@ == 0);
    }
    Ok(combo)
}

} // verus!
