//! Disjoint-set union-find with path compression and union by rank. Used by
//! Kruskal's MST and by the MST verifier (acyclicity / connectivity checks).

use vstd::prelude::*;

verus! {

/// The number of positions below `m` whose representative is `r`.
pub open spec fn count_rep(s: Seq<usize>, r: usize, m: nat) -> nat
    decreases m,
{
    if m == 0 {
        0
    } else {
        count_rep(s, r, (m - 1) as nat) + if s[m - 1] == r { 1nat } else { 0nat }
    }
}

proof fn lemma_count_le(s: Seq<usize>, r: usize, m: nat)
    ensures
        count_rep(s, r, m) <= m,
    decreases m,
{
    if m > 0 {
        lemma_count_le(s, r, (m - 1) as nat);
    }
}

proof fn lemma_count_two(s: Seq<usize>, a: usize, b: usize, m: nat)
    requires
        a != b,
    ensures
        count_rep(s, a, m) + count_rep(s, b, m) <= m,
    decreases m,
{
    if m > 0 {
        lemma_count_two(s, a, b, (m - 1) as nat);
    }
}

/// Relabelling `l` as `w` merges the two counts and leaves the others.
proof fn lemma_count_relabel(s: Seq<usize>, t: Seq<usize>, w: usize, l: usize, m: nat)
    requires
        w != l,
        m <= s.len(),
        t.len() == s.len(),
        forall|i: int| 0 <= i < s.len() ==> #[trigger] t[i] == if s[i] == l { w } else { s[i] },
    ensures
        count_rep(t, w, m) == count_rep(s, w, m) + count_rep(s, l, m),
        forall|r: usize| r != w && r != l ==> count_rep(t, r, m) == count_rep(s, r, m),
    decreases m,
{
    if m > 0 {
        lemma_count_relabel(s, t, w, l, (m - 1) as nat);
        assert(t[m - 1] == if s[m - 1] == l { w } else { s[m - 1] });
        assert forall|r: usize| r != w && r != l implies count_rep(t, r, m) == count_rep(s, r, m) by {
            assert(count_rep(t, r, (m - 1) as nat) == count_rep(s, r, (m - 1) as nat));
        }
    }
}

/// The number of positions below `m` that are their own representative:
/// the number of sets among the first `m` elements' representatives.
pub open spec fn root_count(rep: Seq<usize>, m: nat) -> nat
    decreases m,
{
    if m == 0 {
        0
    } else {
        root_count(rep, (m - 1) as nat) + if rep[m - 1] == (m - 1) as usize { 1nat } else { 0nat }
    }
}

/// Every position is its own representative in the identity labelling.
pub(crate) proof fn lemma_root_count_identity(n: nat, m: nat)
    requires
        m <= n,
    ensures
        root_count(Seq::new(n, |i: int| i as usize), m) == m,
    decreases m,
{
    if m > 0 {
        lemma_root_count_identity(n, (m - 1) as nat);
    }
}

/// Relabelling the root `l` as the root `w` removes exactly one root.
pub(crate) proof fn lemma_root_count_relabel(s: Seq<usize>, t: Seq<usize>, w: usize, l: usize, m: nat)
    requires
        w != l,
        m <= s.len(),
        s.len() <= usize::MAX,
        t.len() == s.len(),
        (l as int) < s.len(),
        s[l as int] == l,
        s[w as int] == w,
        (w as int) < s.len(),
        forall|i: int| 0 <= i < s.len() ==> #[trigger] t[i] == if s[i] == l { w } else { s[i] },
    ensures
        root_count(t, m) + (if l < m { 1nat } else { 0nat }) == root_count(s, m),
    decreases m,
{
    if m > 0 {
        lemma_root_count_relabel(s, t, w, l, (m - 1) as nat);
        let x = m - 1;
        assert(t[x] == if s[x] == l { w } else { s[x] });
        if x == l as int {
            assert(t[x] == w);
        } else if s[x] == l {
            assert(x != w as int);
            assert(s[x] != x as usize);
            assert(t[x] != x as usize);
        } else {
            assert(t[x] == s[x]);
        }
        assert((l < m) == (l < (m - 1) as nat || l as int == x));
    }
}

/// A disjoint-set forest over `0..n`.
#[derive(Clone)]
pub struct UnionFind {
    parent: Vec<usize>,
    rank: Vec<usize>,
    roots: Ghost<Seq<usize>>,
}

impl UnionFind {
    /// The representative of each element's set.
    pub closed spec fn rep(&self) -> Seq<usize> {
        self.roots@
    }

    /// The number of elements.
    pub closed spec fn size(&self) -> nat {
        self.parent@.len()
    }

    /// The forest invariant: parent links stay inside a set and climb in
    /// rank to the set's root, and a root's rank is below its set's size.
    pub closed spec fn wf(&self) -> bool {
        let n = self.parent@.len();
        let p = self.parent@;
        let k = self.rank@;
        let r = self.roots@;
        &&& k.len() == n
        &&& r.len() == n
        &&& forall|x: int| 0 <= x < n ==> #[trigger] p[x] < n
        &&& forall|x: int| 0 <= x < n ==> #[trigger] r[x] < n
        &&& forall|x: int| 0 <= x < n ==> p[#[trigger] r[x] as int] == r[x]
        &&& forall|x: int| 0 <= x < n ==> r[#[trigger] p[x] as int] == r[x]
        &&& forall|x: int| 0 <= x < n && #[trigger] p[x] == x ==> r[x] == x
        &&& forall|x: int| 0 <= x < n && #[trigger] p[x] != x ==> k[x] < k[p[x] as int] && k[x] < k[r[x] as int]
        &&& forall|x: int| 0 <= x < n && #[trigger] p[x] == x ==> k[x] < count_rep(r, x as usize, n)
    }

    /// `n` singleton sets.
    pub fn new(n: usize) -> (r: UnionFind)
        ensures
            r.wf(),
            r.size() == n,
            r.rep() == Seq::new(n as nat, |i: int| i as usize),
            root_count(r.rep(), r.size()) == n,
    {
        let mut parent: Vec<usize> = Vec::new();
        let mut rank: Vec<usize> = Vec::new();
        let mut i: usize = 0;
        while i < n
            invariant
                i <= n,
                parent@ == Seq::new(i as nat, |j: int| j as usize),
                rank@ == Seq::new(i as nat, |j: int| 0usize),
            decreases n - i,
        {
            parent.push(i);
            rank.push(0);
            i += 1;
            assert(parent@ =~= Seq::new(i as nat, |j: int| j as usize));
            assert(rank@ =~= Seq::new(i as nat, |j: int| 0usize));
        }
        let ghost roots = Seq::new(n as nat, |j: int| j as usize);
        proof {
            assert forall|x: int| 0 <= x < n && #[trigger] parent@[x] == x implies rank@[x] < count_rep(roots, x as usize, n as nat) by {
                lemma_count_single(roots, x as usize, n as nat, x);
            }
        }
        proof {
            lemma_root_count_identity(n as nat, n as nat);
        }
        UnionFind { parent, rank, roots: Ghost(roots) }
    }

    /// Representatives are roots: each is its own representative.
    pub proof fn lemma_rep_is_root(&self, x: int)
        requires
            self.wf(),
            0 <= x < self.size(),
        ensures
            (self.rep()[x] as int) < self.size(),
            self.rep()[self.rep()[x] as int] == self.rep()[x],
            self.rep().len() == self.size(),
    {
        let r = self.roots@[x];
        assert(self.parent@[r as int] == r);
    }

    /// The representative of `x`'s set; compresses the path it walks.
    pub fn find(&mut self, x: usize) -> (r: usize)
        requires
            old(self).wf(),
            x < old(self).size(),
        ensures
            final(self).wf(),
            final(self).size() == old(self).size(),
            final(self).rep() == old(self).rep(),
            r == old(self).rep()[x as int],
    {
        let ghost n = self.parent@.len();
        let mut root = x;
        while self.parent[root] != root
            invariant
                self.wf(),
                n == self.parent@.len(),
                root < n,
                self.roots@[root as int] == self.roots@[x as int],
            decreases usize::MAX - self.rank@[root as int],
        {
            root = self.parent[root];
        }
        let mut cur = x;
        while self.parent[cur] != root
            invariant
                self.wf(),
                n == self.parent@.len(),
                root < n,
                cur < n,
                self.parent@[root as int] == root,
                self.roots@[x as int] == root,
                self.roots@[cur as int] == root,
                self.roots@ == old(self).roots@,
                self.rank@ == old(self).rank@,
            decreases usize::MAX - self.rank@[cur as int],
        {
            let next = self.parent[cur];
            proof {
                assert(self.parent@[cur as int] != cur);
            }
            let ghost p0 = self.parent@;
            self.parent.set(cur, root);
            proof {
                let p = self.parent@;
                let k = self.rank@;
                let rr = self.roots@;
                assert forall|y: int| 0 <= y < n implies #[trigger] p[y] < n by {
                    if y != cur {
                        assert(p[y] == p0[y]);
                    }
                }
                assert forall|y: int| 0 <= y < n implies p[#[trigger] rr[y] as int] == rr[y] by {
                    assert(p0[rr[y] as int] == rr[y]);
                    assert(rr[y] != cur);
                    assert(p[rr[y] as int] == p0[rr[y] as int]);
                }
                assert forall|y: int| 0 <= y < n implies rr[#[trigger] p[y] as int] == rr[y] by {
                    if y != cur {
                        assert(p[y] == p0[y]);
                    }
                }
                assert forall|y: int| 0 <= y < n && #[trigger] p[y] == y implies rr[y] == y by {
                    if y != cur {
                        assert(p0[y] == y);
                    }
                }
                assert forall|y: int| 0 <= y < n && #[trigger] p[y] != y implies k[y] < k[p[y] as int] && k[y] < k[rr[y] as int] by {
                    if y != cur {
                        assert(p0[y] == p[y]);
                    } else {
                        assert(p0[cur as int] != cur);
                    }
                }
                assert forall|y: int| 0 <= y < n && #[trigger] p[y] == y implies k[y] < count_rep(rr, y as usize, n) by {
                    if y != cur {
                        assert(p0[y] == y);
                    }
                }
            }
            cur = next;
        }
        root
    }

    /// Merge the sets of `a` and `b`; `false` when they were already one set.
    pub fn union(&mut self, a: usize, b: usize) -> (r: bool)
        requires
            old(self).wf(),
            a < old(self).size(),
            b < old(self).size(),
        ensures
            final(self).wf(),
            final(self).size() == old(self).size(),
            r == (old(self).rep()[a as int] != old(self).rep()[b as int]),
            !r ==> final(self).rep() == old(self).rep(),
            r ==> final(self).rep()[a as int] == old(self).rep()[a as int] || final(self).rep()[a as int]
                == old(self).rep()[b as int],
            r ==> forall|i: int|
                0 <= i < old(self).size() ==> #[trigger] final(self).rep()[i] == if old(self).rep()[i]
                    == old(self).rep()[a as int] || old(self).rep()[i] == old(self).rep()[b as int] {
                    final(self).rep()[a as int]
                } else {
                    old(self).rep()[i]
                },
            r ==> root_count(final(self).rep(), final(self).size()) + 1 == root_count(old(self).rep(), old(self).size()),
    {
        let ra = self.find(a);
        let rb = self.find(b);
        if ra == rb {
            return false;
        }
        let ghost n = self.parent@.len();
        let ghost s = self.roots@;
        proof {
            assert(s[a as int] == ra && s[b as int] == rb);
            assert(self.parent@[s[a as int] as int] == s[a as int]);
            assert(self.parent@[s[b as int] as int] == s[b as int]);
        }
        if self.rank[ra] < self.rank[rb] {
            self.link(ra, rb);
        } else if self.rank[ra] > self.rank[rb] {
            self.link(rb, ra);
        } else {
            self.link(rb, ra);
        }
        true
    }

    /// Hang the root `loser` under the root `winner`, raising the winner's
    /// rank when the two ranks are equal.
    fn link(&mut self, loser: usize, winner: usize)
        requires
            old(self).wf(),
            loser < old(self).size(),
            winner < old(self).size(),
            loser != winner,
            old(self).parent@[loser as int] == loser,
            old(self).parent@[winner as int] == winner,
            old(self).rank@[loser as int] <= old(self).rank@[winner as int],
        ensures
            final(self).wf(),
            final(self).size() == old(self).size(),
            final(self).rep() == Seq::new(
                old(self).size(),
                |i: int| if old(self).rep()[i] == loser { winner } else { old(self).rep()[i] },
            ),
            root_count(final(self).rep(), final(self).size()) + 1 == root_count(old(self).rep(), old(self).size()),
    {
        let len = self.parent.len();
        let ghost n = self.parent@.len();
        let ghost s = self.roots@;
        let ghost k0 = self.rank@;
        let ghost p0 = self.parent@;
        let ghost t = Seq::new(n, |i: int| if s[i] == loser { winner } else { s[i] });
        proof {
            assert(s[loser as int] == loser && s[winner as int] == winner);
            lemma_count_two(s, loser, winner, n);
            lemma_count_relabel(s, t, winner, loser, n);
            lemma_root_count_relabel(s, t, winner, loser, n);
            assert(k0[loser as int] < count_rep(s, loser, n));
            assert(k0[winner as int] < count_rep(s, winner, n));
            assert(len == n);
        }
        let equal = self.rank[loser] == self.rank[winner];
        self.parent.set(loser, winner);
        if equal {
            let w = self.rank[winner];
            self.rank.set(winner, w + 1);
        }
        self.roots = Ghost(t);
        proof {
            let p = self.parent@;
            let k = self.rank@;
            assert forall|x: int| 0 <= x < n implies #[trigger] p[x] < n by {
                if x != loser {
                    assert(p[x] == p0[x]);
                }
            }
            assert forall|x: int| 0 <= x < n implies #[trigger] t[x] < n by {
                assert(s[x] < n);
            }
            assert forall|x: int| 0 <= x < n implies p[#[trigger] t[x] as int] == t[x] by {
                assert(p0[s[x] as int] == s[x]);
                if s[x] != loser {
                    assert(s[x] != loser);
                    assert(p[s[x] as int] == p0[s[x] as int]);
                } else {
                    assert(p[winner as int] == p0[winner as int]);
                }
            }
            assert forall|x: int| 0 <= x < n implies t[#[trigger] p[x] as int] == t[x] by {
                if x != loser {
                    assert(p[x] == p0[x]);
                    assert(s[p0[x] as int] == s[x]);
                }
            }
            assert forall|x: int| 0 <= x < n && #[trigger] p[x] == x implies t[x] == x by {
                assert(x != loser);
                assert(p0[x] == x);
                assert(s[x] == x);
            }
            assert forall|x: int| 0 <= x < n && #[trigger] p[x] != x implies k[x] < k[p[x] as int] && k[x] < k[t[x] as int] by {
                if x == loser {
                } else {
                    assert(p[x] == p0[x]);
                    assert(p0[x] != x);
                    assert(k0[x] < k0[p0[x] as int] && k0[x] < k0[s[x] as int]);
                    if s[x] == loser {
                        assert(k0[loser as int] <= k0[winner as int]);
                    }
                }
            }
            assert forall|x: int| 0 <= x < n && #[trigger] p[x] == x implies k[x] < count_rep(t, x as usize, n) by {
                assert(x != loser);
                assert(p0[x] == x);
                if x == winner {
                    assert(k0[loser as int] < count_rep(s, loser, n));
                    assert(k0[winner as int] < count_rep(s, winner, n));
                } else {
                    assert(k0[x] < count_rep(s, x as usize, n));
                }
            }
        }
    }
}

proof fn lemma_count_single(s: Seq<usize>, r: usize, m: nat, x: int)
    requires
        0 <= x < m,
        m <= s.len(),
        s[x] == r,
    ensures
        count_rep(s, r, m) >= 1,
    decreases m,
{
    if x < m - 1 {
        lemma_count_single(s, r, (m - 1) as nat, x);
    }
}

} // verus!
