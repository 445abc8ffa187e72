//! Integer partitions of `n` in ascending-composition order (Kelleher's
//! `accel_asc`). The iterator is lazy: each step rewrites only the tail.

use vstd::prelude::*;

verus! {

/// The sum of the parts of `s`.
pub open spec fn parts_sum(s: Seq<usize>) -> int
    decreases s.len(),
{
    if s.len() == 0 {
        0
    } else {
        parts_sum(s.drop_last()) + s.last()
    }
}

/// Whether `p` is a partition of `n` written as an ascending list of parts.
pub open spec fn is_partition_of(p: Seq<usize>, n: nat) -> bool {
    &&& forall|i: int| 0 <= i < p.len() ==> #[trigger] p[i] >= 1
    &&& forall|i: int, j: int| 0 <= i <= j < p.len() ==> #[trigger] p[i] <= #[trigger] p[j]
    &&& parts_sum(p) == n
}

/// `m` copies of the part `x`.
pub open spec fn repeat_part(x: usize, m: nat) -> Seq<usize> {
    Seq::new(m, |i: int| x)
}

/// The `accel_asc` step on an ascending list `s` of at least two parts: the
/// last two parts `a <= b` are replaced by as many copies of `a + 1` as fit
/// in `b - 1`, followed by one part `a + 1` plus what is left over.
pub open spec fn asc_successor(s: Seq<usize>) -> Seq<usize>
    recommends
        s.len() >= 2,
{
    let x = s[s.len() - 2] + 1;
    let y = s[s.len() - 1] - 1;
    s.subrange(0, s.len() - 2) + repeat_part(x as usize, (y / x) as nat) + seq![
        (x + y % x) as usize,
    ]
}

/// The partition after `p`, if any: none once a single part is left.
pub open spec fn partition_step(p: Seq<usize>) -> Option<Seq<usize>> {
    if p.len() < 2 {
        None
    } else {
        Some(asc_successor(p))
    }
}

proof fn lemma_sum_push(s: Seq<usize>, v: usize)
    ensures
        parts_sum(s.push(v)) == parts_sum(s) + v,
{
    assert(s.push(v).drop_last() =~= s);
}

proof fn lemma_sum_append(a: Seq<usize>, b: Seq<usize>)
    ensures
        parts_sum(a + b) == parts_sum(a) + parts_sum(b),
    decreases b.len(),
{
    if b.len() == 0 {
        assert(a + b =~= a);
    } else {
        lemma_sum_append(a, b.drop_last());
        assert((a + b).drop_last() =~= a + b.drop_last());
    }
}

proof fn lemma_sum_const(m: nat, x: usize)
    ensures
        parts_sum(repeat_part(x, m)) == m * x,
    decreases m,
{
    if m > 0 {
        lemma_sum_const((m - 1) as nat, x);
        let s = repeat_part(x, m);
        assert(s.drop_last() =~= repeat_part(x, (m - 1) as nat));
        assert(s.last() == x);
        assert(parts_sum(s) == parts_sum(s.drop_last()) + x);
        assert(m * x == (m - 1) * x + x) by (nonlinear_arith);
        assert(parts_sum(s) == m * x);
    } else {
        assert(repeat_part(x, m).len() == 0);
    }
}

proof fn lemma_sum_last(s: Seq<usize>)
    requires
        s.len() >= 1,
    ensures
        parts_sum(s) >= s.last(),
    decreases s.len(),
{
    lemma_sum_nonneg(s.drop_last());
}

proof fn lemma_sum_nonneg(s: Seq<usize>)
    ensures
        parts_sum(s) >= 0,
    decreases s.len(),
{
    if s.len() > 0 {
        lemma_sum_nonneg(s.drop_last());
    }
}

proof fn lemma_sum_positive(s: Seq<usize>)
    requires
        forall|i: int| 0 <= i < s.len() ==> #[trigger] s[i] >= 1,
    ensures
        parts_sum(s) >= s.len(),
    decreases s.len(),
{
    if s.len() > 0 {
        lemma_sum_positive(s.drop_last());
    }
}

/// One `accel_asc` step keeps an ascending list with a positive tail a
/// partition of the same total.
proof fn lemma_step_partition(s: Seq<usize>)
    requires
        s.len() >= 2,
        forall|i: int, j: int| 0 <= i <= j < s.len() ==> #[trigger] s[i] <= #[trigger] s[j],
        forall|i: int| 0 <= i < s.len() - 2 ==> #[trigger] s[i] >= 1,
        s[s.len() - 1] >= 1,
        parts_sum(s) < usize::MAX,
    ensures
        is_partition_of(asc_successor(s), parts_sum(s) as nat),
{
    let len = s.len() as int;
    let pre = s.subrange(0, len - 2);
    let a = s[len - 2];
    let b = s[len - 1];
    let x = a + 1;
    let y = b - 1;
    let q = y / x;
    let r = y % x;
    let c = repeat_part(x as usize, q as nat);
    assert(s =~= pre.push(a).push(b));
    lemma_sum_push(pre.push(a), b);
    lemma_sum_push(pre, a);
    lemma_sum_nonneg(pre);
    vstd::arithmetic::div_mod::lemma_fundamental_div_mod(y, x);
    vstd::arithmetic::div_mod::lemma_mod_bound(y, x);
    vstd::arithmetic::div_mod::lemma_div_pos_is_pos(y, x);
    assert(q * x == x * q) by (nonlinear_arith);
    let p = asc_successor(s);
    assert(p =~= (pre + c).push((x + r) as usize));
    lemma_sum_push(pre + c, (x + r) as usize);
    lemma_sum_append(pre, c);
    lemma_sum_const(q as nat, x as usize);
    assert forall|i: int| 0 <= i < p.len() implies #[trigger] p[i] >= 1 by {
        if i < pre.len() {
            assert(p[i] == s[i]);
        }
    }
    assert forall|i: int, j: int| 0 <= i <= j < p.len() implies #[trigger] p[i] <= #[trigger] p[j] by {
        if i < pre.len() {
            assert(p[i] == s[i]);
            assert(s[i] <= a);
            if j < pre.len() {
                assert(p[j] == s[j]);
            }
        }
    }
}

/// Iterator over the partitions of `n`, each as an ascending list of parts.
#[derive(Debug, Clone)]
pub struct IntegerPartitionIter {
    a: Vec<usize>,
    k: usize,
    done: bool,
    emit_empty: bool,
    n: usize,
}

impl IntegerPartitionIter {
    /// The number being partitioned.
    pub closed spec fn total(&self) -> nat {
        self.n as nat
    }

    /// The last list of parts produced (the working state).
    closed spec fn state(&self) -> Seq<usize> {
        self.a@.subrange(0, self.k + 1)
    }

    /// The partition the next call returns, if any.
    pub closed spec fn pending(&self) -> Option<Seq<usize>> {
        if self.emit_empty {
            Some(Seq::<usize>::empty())
        } else if self.done {
            None
        } else {
            Some(asc_successor(self.state()))
        }
    }

    /// The iterator's internal invariant.
    pub closed spec fn wf(&self) -> bool {
        &&& self.emit_empty ==> self.n == 0 && self.done
        &&& !self.done ==> {
            &&& self.n >= 1
            &&& self.a@.len() == self.n + 1
            &&& 1 <= self.k < self.a@.len()
            &&& forall|i: int|
                0 <= i <= self.k && (i >= 1 || self.k >= 2) ==> #[trigger] self.a@[i] >= 1
            &&& forall|i: int, j: int|
                0 <= i <= j <= self.k ==> #[trigger] self.a@[i] <= #[trigger] self.a@[j]
            &&& parts_sum(self.state()) == self.n
        }
    }

    /// Return the pending partition and advance to the next one.
    #[verifier::rlimit(40)]
    pub fn next(&mut self) -> (r: Option<Vec<usize>>)
        requires
            old(self).wf(),
        ensures
            final(self).wf(),
            final(self).total() == old(self).total(),
            match old(self).pending() {
                None => r is None && final(self).pending() is None,
                Some(p) => r matches Some(v) && v@ == p && is_partition_of(p, old(self).total())
                    && final(self).pending() == partition_step(p),
            },
    {
        if self.emit_empty {
            self.emit_empty = false;
            proof {
                assert(parts_sum(Seq::<usize>::empty()) == 0);
            }
            return Some(Vec::new());
        }
        if self.done || self.k == 0 {
            return None;
        }
        let ghost s = self.state();
        let ghost big_k = self.k as int;
        let ghost nn = self.n as int;
        proof {
            lemma_sum_last(s);
            assert(self.n < self.a.len());
            assert(s.last() == self.a@[big_k]);
            assert(self.a@[big_k - 1] <= self.a@[big_k]);
        }
        let mut k = self.k;
        let x = self.a[k - 1] + 1;
        let mut y = self.a[k] - 1;
        let ghost y0 = y as int;
        k -= 1;
        let ghost prefix = s.subrange(0, big_k - 1);
        proof {
            assert(s =~= prefix.push(s[big_k - 1]).push(s[big_k]));
            lemma_sum_push(prefix.push(s[big_k - 1]), s[big_k]);
            lemma_sum_push(prefix, s[big_k - 1]);
            assert(self.a@.subrange(0, k as int) =~= prefix + repeat_part(x, 0));
            lemma_sum_const(0, x);
            lemma_sum_append(prefix, repeat_part(x, 0));
        }
        let ghost mut j: nat = 0;
        while x <= y
            invariant
                self.a@.len() == nn + 1,
                self.n == nn,
                !self.emit_empty,
                !self.done,
                k < self.a.len(),
                1 <= x,
                big_k >= 1,
                k == big_k - 1 + j,
                y + j * x == y0,
                y >= 0,
                prefix.len() == big_k - 1,
                forall|i: int| 0 <= i < prefix.len() ==> #[trigger] prefix[i] >= 1,
                self.a@.subrange(0, k as int) =~= prefix + repeat_part(x, j),
                parts_sum(self.a@.subrange(0, k as int)) + x + y == nn,
            decreases y,
        {
            proof {
                let cur = self.a@.subrange(0, k as int);
                assert forall|i: int| 0 <= i < cur.len() implies #[trigger] cur[i] >= 1 by {
                    if i >= prefix.len() {
                        assert(cur[i] == x);
                    } else {
                        assert(cur[i] == prefix[i]);
                    }
                }
                lemma_sum_positive(cur);
            }
            let ghost old_a = self.a@;
            self.a.set(k, x);
            proof {
                let prev = self.a@.subrange(0, k as int);
                assert(prev =~= old_a.subrange(0, k as int));
                assert(self.a@.subrange(0, k + 1) =~= prev.push(x));
                lemma_sum_push(prev, x);
                assert(repeat_part(x, j + 1) =~= repeat_part(x, j).push(x));
                assert((j + 1) * x == j * x + x) by (nonlinear_arith);
                j = j + 1;
            }
            y -= x;
            k += 1;
        }
        proof {
            let cur = self.a@.subrange(0, k as int);
            assert forall|i: int| 0 <= i < cur.len() implies #[trigger] cur[i] >= 1 by {
                if i >= prefix.len() {
                    assert(cur[i] == x);
                } else {
                    assert(cur[i] == prefix[i]);
                }
            }
            lemma_sum_positive(cur);
            vstd::arithmetic::div_mod::lemma_fundamental_div_mod_converse(y0, x as int, j as int, y as int);
        }
        self.a.set(k, x + y);
        let mut result: Vec<usize> = Vec::new();
        let mut t: usize = 0;
        while t <= k
            invariant
                k < self.a.len(),
                self.n == nn,
                !self.emit_empty,
                !self.done,
                t <= k + 1,
                result@ == self.a@.subrange(0, t as int),
            decreases k + 1 - t,
        {
            result.push(self.a[t]);
            t += 1;
            proof {
                assert(result@ =~= self.a@.subrange(0, t as int));
            }
        }
        self.k = k;
        if k == 0 {
            self.done = true;
        }
        proof {
            let p = self.a@.subrange(0, k + 1);
            assert(p =~= self.a@.subrange(0, k as int).push((x + y) as usize));
            assert(s =~= prefix.push(s[big_k - 1]).push(s[big_k]));
            assert(asc_successor(s) =~= p);
            assert forall|i: int| 0 <= i < s.len() - 2 implies #[trigger] s[i] >= 1 by {
                assert(s[i] == prefix[i]);
            }
            lemma_step_partition(s);
            assert(self.state() == p);
            assert forall|i: int| 0 <= i <= self.k && (i >= 1 || self.k >= 2) implies #[trigger] self.a@[i] >= 1 by {
                assert(self.a@[i] == p[i]);
            }
            assert forall|a: int, b: int| 0 <= a <= b <= self.k implies #[trigger] self.a@[a] <= #[trigger] self.a@[b] by {
                assert(self.a@[a] == p[a]);
                assert(self.a@[b] == p[b]);
            }
        }
        Some(result)
    }
}

/// Construct a partition iterator for `n`; `n == 0` yields the empty partition.
pub fn integer_partitions(n: usize) -> (r: IntegerPartitionIter)
    requires
        n < usize::MAX,
    ensures
        r.wf(),
        r.total() == n,
        r.pending() == Some(Seq::new(n as nat, |i: int| 1usize)),
{
    if n == 0 {
        let r = IntegerPartitionIter { a: Vec::new(), k: 0, done: true, emit_empty: true, n: 0 };
        assert(Seq::<usize>::empty() =~= Seq::new(0, |i: int| 1usize));
        return r;
    }
    let mut a: Vec<usize> = Vec::new();
    let mut i: usize = 0;
    while i <= n
        invariant
            i <= n + 1,
            n < usize::MAX,
            a@.len() == i,
            forall|t: int| 0 <= t < i ==> #[trigger] a@[t] == 0,
        decreases n + 1 - i,
    {
        a.push(0);
        i += 1;
    }
    a.set(1, n);
    let r = IntegerPartitionIter { a, k: 1, done: false, emit_empty: false, n };
    proof {
        let s = r.state();
        assert(s =~= seq![0usize, n]);
        assert(s =~= Seq::<usize>::empty().push(0usize).push(n));
        lemma_sum_push(Seq::<usize>::empty().push(0usize), n);
        lemma_sum_push(Seq::<usize>::empty(), 0usize);
        let y0 = (n - 1) as int;
        vstd::arithmetic::div_mod::lemma_fundamental_div_mod_converse(y0, 1, y0, 0);
        assert(asc_successor(s) =~= Seq::new(n as nat, |i: int| 1usize));
    }
    r
}

/// `a` and `b` agree before position `i`, where both have an entry and `a`'s
/// is smaller.
pub open spec fn lex_before(a: Seq<usize>, b: Seq<usize>, i: int) -> bool {
    &&& 0 <= i < a.len()
    &&& i < b.len()
    &&& a[i] < b[i]
    &&& forall|j: int| 0 <= j < i ==> #[trigger] a[j] == b[j]
}

/// `a` comes before `b` in lexicographic order.
pub open spec fn lex_precedes(a: Seq<usize>, b: Seq<usize>) -> bool {
    exists|i: int| #[trigger] lex_before(a, b, i)
}

/// A sum splits at any position.
proof fn lemma_sum_split(t: Seq<usize>, d: int)
    requires
        0 <= d <= t.len(),
    ensures
        parts_sum(t) == parts_sum(t.subrange(0, d)) + parts_sum(t.subrange(d, t.len() as int)),
{
    lemma_sum_append(t.subrange(0, d), t.subrange(d, t.len() as int));
    assert(t.subrange(0, d) + t.subrange(d, t.len() as int) =~= t);
}

/// Parts of at least `x` sum to at least `x` per part.
proof fn lemma_sum_lower(t: Seq<usize>, x: int)
    requires
        forall|i: int| 0 <= i < t.len() ==> #[trigger] t[i] >= x,
        x >= 0,
    ensures
        parts_sum(t) >= t.len() * x,
    decreases t.len(),
{
    if t.len() > 0 {
        let u = t.drop_last();
        assert forall|i: int| 0 <= i < u.len() implies #[trigger] u[i] >= x by {
            assert(u[i] == t[i]);
        }
        lemma_sum_lower(u, x);
        assert(t.len() * x == u.len() * x + x) by (nonlinear_arith)
            requires
                t.len() == u.len() + 1,
        ;
    }
}

/// Two sequences agree before some position `d` and differ at `d`, or one
/// is a proper prefix of the other at `d`.
proof fn lemma_first_split(a: Seq<usize>, b: Seq<usize>) -> (d: int)
    requires
        a != b,
    ensures
        0 <= d <= a.len(),
        d <= b.len(),
        forall|j: int| 0 <= j < d ==> #[trigger] a[j] == b[j],
        d < a.len() && d < b.len() ==> a[d] != b[d],
        d == a.len() || d == b.len() ==> a.len() != b.len(),
    decreases a.len(),
{
    if a.len() == 0 || b.len() == 0 {
        if a.len() == 0 && b.len() == 0 {
            assert(a =~= b);
        }
        0
    } else if a[0] != b[0] {
        0
    } else {
        assert(a.drop_first() != b.drop_first()) by {
            if a.drop_first() == b.drop_first() {
                assert(a.drop_first().len() == b.drop_first().len());
                assert(a.len() == b.len());
                assert(a =~= b) by {
                    assert forall|j: int| 0 <= j < a.len() implies a[j] == b[j] by {
                        if j > 0 {
                            assert(a[j] == a.drop_first()[j - 1] && b[j] == b.drop_first()[j - 1]);
                        }
                    }
                }
            }
        }
        let d1 = lemma_first_split(a.drop_first(), b.drop_first());
        assert forall|j: int| 0 <= j < d1 + 1 implies #[trigger] a[j] == b[j] by {
            if j > 0 {
                assert(a[j] == a.drop_first()[j - 1] && b[j] == b.drop_first()[j - 1]);
            }
        }
        if d1 < a.len() - 1 && d1 < b.len() - 1 {
            assert(a[d1 + 1] == a.drop_first()[d1] && b[d1 + 1] == b.drop_first()[d1]);
        }
        d1 + 1
    }
}

/// A sum is at least the sum of any prefix.
proof fn lemma_sum_prefix_le(t: Seq<usize>, d: int)
    requires
        0 <= d <= t.len(),
    ensures
        parts_sum(t) >= parts_sum(t.subrange(0, d)),
{
    lemma_sum_split(t, d);
    lemma_sum_nonneg(t.subrange(d, t.len() as int));
}

/// A proper prefix of a list of positive parts sums to strictly less.
proof fn lemma_sum_proper_prefix(t: Seq<usize>, d: int)
    requires
        0 <= d < t.len(),
        forall|i: int| 0 <= i < t.len() ==> #[trigger] t[i] >= 1,
    ensures
        parts_sum(t) > parts_sum(t.subrange(0, d)),
{
    lemma_sum_split(t, d);
    let u = t.subrange(d, t.len() as int);
    assert forall|i: int| 0 <= i < u.len() implies #[trigger] u[i] >= 1 by {
        assert(u[i] == t[d + i]);
    }
    lemma_sum_positive(u);
}

/// `partition_step` is the next partition of `n` in lexicographic order of
/// the ascending part lists: it is a partition of `n` after `p`, and no
/// partition of `n` lies strictly between them; when it is `None`, no
/// partition of `n` comes after `p`.
#[verifier::rlimit(40)]
pub proof fn lemma_partition_step_is_next(p: Seq<usize>, n: nat, e: Seq<usize>)
    requires
        is_partition_of(p, n),
        n < usize::MAX,
    ensures
        partition_step(p) matches Some(t) ==> is_partition_of(t, n) && lex_precedes(p, t),
        partition_step(p) matches Some(t) ==> (is_partition_of(e, n) && lex_precedes(p, e) ==> e == t
            || lex_precedes(t, e)),
        partition_step(p) is None && is_partition_of(e, n) ==> !lex_precedes(p, e),
{
    let len = p.len() as int;
    if len < 2 {
        if is_partition_of(e, n) && lex_precedes(p, e) {
            let m = choose|m: int| #[trigger] lex_before(p, e, m);
            assert(m == 0 && len == 1);
            assert(p.drop_last() =~= Seq::<usize>::empty());
            assert(parts_sum(p.drop_last()) == 0);
            assert(p.last() == p[0]);
            assert(parts_sum(p) == p[0]);
            lemma_sum_prefix_le(e, 1);
            assert(e.subrange(0, 1) =~= Seq::<usize>::empty().push(e[0]));
            lemma_sum_push(Seq::<usize>::empty(), e[0]);
        }
    } else {
        let pre = p.subrange(0, len - 2);
        let a = p[len - 2];
        let b = p[len - 1];
        let x = a + 1;
        let y = b - 1;
        let q = y / x;
        let rr = y % x;
        let c = repeat_part(x as usize, q as nat);
        let t = asc_successor(p);
        assert(p =~= pre.push(a).push(b));
        lemma_sum_push(pre.push(a), b);
        lemma_sum_push(pre, a);
        lemma_sum_nonneg(pre);
        vstd::arithmetic::div_mod::lemma_fundamental_div_mod(y, x);
        vstd::arithmetic::div_mod::lemma_mod_bound(y, x);
        vstd::arithmetic::div_mod::lemma_div_pos_is_pos(y, x);
        assert(a >= 1 && b >= a);
        lemma_step_partition(p);
        assert(t =~= (pre + c).push((x + rr) as usize));
        assert(t.len() == len - 1 + q);
        assert forall|i: int| 0 <= i < len - 2 implies #[trigger] t[i] == p[i] by {}
        assert forall|i: int| len - 2 <= i < len - 2 + q implies #[trigger] t[i] == x by {}
        assert(t[len - 2 + q] == x + rr);
        assert(lex_before(p, t, len - 2));
        if is_partition_of(e, n) && lex_precedes(p, e) {
            let m = choose|m: int| #[trigger] lex_before(p, e, m);
            if m < len - 2 {
                assert(lex_before(t, e, m));
            } else if m == len - 1 {
                lemma_sum_prefix_le(e, len);
                assert(e.subrange(0, len) =~= e.subrange(0, len - 1).push(e[len - 1]));
                lemma_sum_push(e.subrange(0, len - 1), e[len - 1]);
                assert(e.subrange(0, len - 1) =~= pre.push(a));
                assert(false);
            } else if e != t {
                assert(forall|i: int| 0 <= i < len - 2 ==> #[trigger] e[i] == p[i]);
                assert(e[len - 2] >= x);
                let d = lemma_first_split(t, e);
                if d < t.len() && d < e.len() {
                    if t[d] > e[d] {
                        if d < len - 2 {
                            assert(e[d] == p[d]);
                        } else if d < len - 2 + q {
                            assert(e[len - 2] <= e[d]);
                        } else {
                            // The rest of `e` from `d` sums to `x + rr` but starts below it.
                            assert(d == len - 2 + q);
                            lemma_sum_split(e, d);
                            assert(e.subrange(0, d) =~= pre + c) by {
                                assert forall|i: int| 0 <= i < d implies e.subrange(0, d)[i] == (pre + c)[i] by {
                                    assert(e[i] == t[i]);
                                }
                            }
                            lemma_sum_append(pre, c);
                            lemma_sum_const(q as nat, x as usize);
                            assert(q * x == x * q) by (nonlinear_arith);
                            let u = e.subrange(d, e.len() as int);
                            assert(parts_sum(u) == x + rr);
                            if u.len() == 1 {
                                assert(u.drop_last() =~= Seq::<usize>::empty());
                                assert(parts_sum(u) == u[0]);
                            } else {
                                assert forall|i: int| 0 <= i < u.len() implies #[trigger] u[i] >= x by {
                                    assert(u[i] == e[d + i]);
                                    assert(e[len - 2] <= e[d + i]);
                                }
                                lemma_sum_lower(u, x);
                                assert(u.len() * x >= 2 * x) by (nonlinear_arith)
                                    requires
                                        u.len() >= 2,
                                        x >= 0,
                                ;
                            }
                        }
                    } else {
                        assert(lex_before(t, e, d));
                    }
                } else if d == e.len() {
                    lemma_sum_proper_prefix(t, d);
                    assert(t.subrange(0, d) =~= e);
                } else {
                    lemma_sum_proper_prefix(e, d);
                    assert(e.subrange(0, d) =~= t);
                }
            }
        }
    }
}

} // verus!
