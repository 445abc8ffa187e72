//! The edge-exchange distance between two spanning trees of one graph.
//!
//! Two spanning trees of an `n`-node graph each have `n - 1` edges, so the
//! number of swaps that turns one into the other is the number of edges of the
//! first that the second lacks.

use crate::error::RankAdapterError;
use vstd::prelude::*;

verus! {

/// Entries of `a[..k]` that do not occur in `b`.
pub open spec fn missing_from(a: Seq<usize>, b: Seq<usize>, k: nat) -> nat
    decreases k,
{
    if k == 0 {
        0
    } else {
        missing_from(a, b, (k - 1) as nat) + if b.contains(a[k - 1]) {
            0nat
        } else {
            1nat
        }
    }
}

/// For a duplicate-free `a`, the entries of `a[..k]` that occur in `b` are
/// as many as the members shared by that prefix and `b`.
proof fn lemma_missing_shared(a: Seq<usize>, b: Seq<usize>, k: nat)
    requires
        k <= a.len(),
        a.no_duplicates(),
    ensures
        missing_from(a, b, k) + a.subrange(0, k as int).to_set().intersect(b.to_set()).len() == k,
        a.subrange(0, k as int).to_set().intersect(b.to_set()).finite(),
    decreases k,
{
    let p = a.subrange(0, k as int).to_set().intersect(b.to_set());
    vstd::seq_lib::seq_to_set_is_finite(a.subrange(0, k as int));
    vstd::set_lib::lemma_len_intersect(a.subrange(0, k as int).to_set(), b.to_set());
    if k == 0 {
        assert(a.subrange(0, 0).to_set() =~= Set::<usize>::empty());
        assert(p =~= Set::<usize>::empty());
    } else {
        lemma_missing_shared(a, b, (k - 1) as nat);
        let pre = a.subrange(0, k - 1);
        let cur = a.subrange(0, k as int);
        let q = pre.to_set().intersect(b.to_set());
        let x = a[k - 1];
        assert(!pre.to_set().contains(x)) by {
            if pre.contains(x) {
                let i = choose|i: int| 0 <= i < pre.len() && pre[i] == x;
                assert(a[i] == a[k - 1]);
            }
        }
        assert(cur.to_set() =~= pre.to_set().insert(x)) by {
            assert forall|y: usize| cur.to_set().contains(y) implies pre.to_set().insert(x).contains(y) by {
                let i = choose|i: int| 0 <= i < cur.len() && cur[i] == y;
                if i < k - 1 {
                    assert(pre[i] == y);
                }
            }
            assert forall|y: usize| pre.to_set().insert(x).contains(y) implies cur.to_set().contains(y) by {
                if y == x {
                    assert(cur[k - 1] == y);
                } else {
                    let i = choose|i: int| 0 <= i < pre.len() && pre[i] == y;
                    assert(cur[i] == y);
                }
            }
        }
        if b.contains(x) {
            assert(p =~= q.insert(x));
            assert(!q.contains(x));
        } else {
            assert(p =~= q);
        }
    }
}

/// The swap distance is symmetric: for duplicate-free edge lists of equal
/// length, `a` lacks as many entries of `b` as `b` lacks of `a`.
pub proof fn lemma_swap_distance_symmetric(a: Seq<usize>, b: Seq<usize>)
    requires
        a.no_duplicates(),
        b.no_duplicates(),
        a.len() == b.len(),
    ensures
        missing_from(a, b, a.len()) == missing_from(b, a, b.len()),
{
    lemma_missing_shared(a, b, a.len());
    lemma_missing_shared(b, a, b.len());
    assert(a.subrange(0, a.len() as int) =~= a);
    assert(b.subrange(0, b.len() as int) =~= b);
    assert(a.to_set().intersect(b.to_set()) =~= b.to_set().intersect(a.to_set()));
}

/// Whether `x` occurs in `s`.
fn occurs_in(s: &[usize], x: usize) -> (r: bool)
    ensures
        r == s@.contains(x),
{
    let mut i: usize = 0;
    while i < s.len()
        invariant
            i <= s@.len(),
            forall|j: int| 0 <= j < i ==> s@[j] != x,
        decreases s@.len() - i,
    {
        if s[i] == x {
            return true;
        }
        i += 1;
    }
    false
}

/// The edge-swap distance between two spanning trees given as edge-id lists:
/// the entries of `a` that `b` lacks. Both must have the same number of edges.
pub fn spanning_tree_swap_distance(a: &[usize], b: &[usize]) -> (r: Result<usize, RankAdapterError>)
    ensures
        r is Ok <==> a@.len() == b@.len(),
        match r {
            Ok(d) => d == missing_from(a@, b@, a@.len()),
            Err(e) => e is Invalid,
        },
{
    if a.len() != b.len() {
        return Err(RankAdapterError::Invalid("spanning trees differ in edge count".to_string()));
    }
    let mut count: usize = 0;
    let mut i: usize = 0;
    while i < a.len()
        invariant
            i <= a@.len(),
            count <= i,
            count == missing_from(a@, b@, i as nat),
        decreases a@.len() - i,
    {
        if !occurs_in(b, a[i]) {
            count += 1;
        }
        i += 1;
    }
    Ok(count)
}

} // verus!
