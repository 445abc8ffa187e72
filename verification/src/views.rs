//! Implicit matrix views that act without materializing dense storage.
//!
//! Each view provides a `matvec` (apply to a vector) and an explicit
//! `materialize` guarded by [`AlgebraLimits`], so a large view never silently
//! allocates a dense matrix.

use crate::error::AlgebraError;
use crate::matrix::{dot, lemma_cell_index, lemma_cell_div_mod, mat_mul, AlgebraLimits, Matrix};
use crate::semiring::{semiring_laws, Semiring};
use crate::text::text_nums;
use vstd::prelude::*;

verus! {

/// Reject a vector whose length differs from the view dimension.
pub fn check_len<S: Semiring>(view_dim: usize, v: &[S]) -> (r: Result<(), AlgebraError>)
    ensures
        r is Ok <==> v@.len() == view_dim,
        r matches Err(e) ==> e is ShapeMismatch,
{
    if v.len() != view_dim {
        return Err(
            AlgebraError::ShapeMismatch(
                text_nums("matvec: vector len ", v.len() as u64, " != view dimension ", view_dim as u64, ""),
            ),
        );
    }
    Ok(())
}

/// Reject a materialization whose dimension exceeds `max_dim`.
pub fn check_dim(n: usize, limits: AlgebraLimits) -> (r: Result<(), AlgebraError>)
    ensures
        r is Ok <==> n <= limits.max_dim,
        r matches Err(e) ==> e is LimitExceeded,
{
    if n > limits.max_dim {
        return Err(
            AlgebraError::LimitExceeded(
                text_nums("materialize: dimension ", n as u64, " exceeds max_dim ", limits.max_dim as u64, ""),
            ),
        );
    }
    Ok(())
}

/// A copy of a slice with the same model values.
fn copy_values<S: Semiring>(v: &[S]) -> (r: Vec<S>)
    ensures
        r@.len() == v@.len(),
        forall|i: int| 0 <= i < v@.len() ==> #[trigger] r@[i]@ == v@[i]@,
{
    let mut out: Vec<S> = Vec::new();
    let mut i: usize = 0;
    while i < v.len()
        invariant
            i <= v@.len(),
            out@.len() == i,
            forall|k: int| 0 <= k < i ==> #[trigger] out@[k]@ == v@[k]@,
        decreases v@.len() - i,
    {
        out.push(v[i].duplicate());
        i += 1;
    }
    out
}

/// The `n x n` identity, applied without storage.
#[derive(Debug, Clone, Copy, PartialEq, Eq)]
pub struct IdentityView {
    /// The dimension `n`.
    pub n: usize,
}

impl IdentityView {
    /// Apply to a vector: returns a copy of `v`.
    pub fn matvec<S: Semiring>(&self, v: &[S]) -> (r: Result<Vec<S>, AlgebraError>)
        ensures
            r is Ok <==> v@.len() == self.n,
            match r {
                Ok(out) => out@.len() == v@.len() && forall|i: int|
                    0 <= i < v@.len() ==> #[trigger] out@[i]@ == v@[i]@,
                Err(e) => e is ShapeMismatch,
            },
    {
        check_len(self.n, v)?;
        Ok(copy_values(v))
    }

    /// Materialize as a dense identity, guarded by `limits`.
    pub fn materialize<S: Semiring>(&self, limits: AlgebraLimits) -> (r: Result<Matrix<S>, AlgebraError>)
        requires
            self.n <= limits.max_dim ==> self.n * self.n <= usize::MAX,
        ensures
            r is Ok <==> self.n <= limits.max_dim,
            match r {
                Ok(m) => m.rows == self.n && m.cols == self.n && m.wf() && forall|i: int, j: int|
                    0 <= i < self.n && 0 <= j < self.n ==> #[trigger] m.entry(i, j) == if i == j {
                        S::one_v()
                    } else {
                        S::zero_v()
                    },
                Err(e) => e is LimitExceeded,
            },
    {
        check_dim(self.n, limits)?;
        Ok(Matrix::identity(self.n))
    }
}

/// A diagonal matrix view with entries `diag`.
#[derive(Debug, Clone, PartialEq)]
pub struct DiagonalView<S: Semiring> {
    /// Diagonal entries; the view is `diag.len() x diag.len()`.
    pub diag: Vec<S>,
}

impl<S: Semiring> DiagonalView<S> {
    /// Apply to a vector: `result[i] = diag[i] * v[i]`.
    pub fn matvec(&self, v: &[S]) -> (r: Result<Vec<S>, AlgebraError>)
        ensures
            r is Ok <==> v@.len() == self.diag@.len(),
            match r {
                Ok(out) => out@.len() == v@.len() && forall|i: int|
                    0 <= i < v@.len() ==> #[trigger] out@[i]@ == S::mul_v(self.diag@[i]@, v@[i]@),
                Err(e) => e is ShapeMismatch,
            },
    {
        check_len(self.diag.len(), v)?;
        let mut out: Vec<S> = Vec::new();
        let mut i: usize = 0;
        while i < v.len()
            invariant
                v@.len() == self.diag@.len(),
                i <= v@.len(),
                out@.len() == i,
                forall|k: int| 0 <= k < i ==> #[trigger] out@[k]@ == S::mul_v(self.diag@[k]@, v@[k]@),
            decreases v@.len() - i,
        {
            out.push(self.diag[i].mul(&v[i]));
            i += 1;
        }
        Ok(out)
    }

    /// Materialize as a dense diagonal matrix, guarded by `limits`.
    pub fn materialize(&self, limits: AlgebraLimits) -> (r: Result<Matrix<S>, AlgebraError>)
        requires
            self.diag@.len() <= limits.max_dim ==> self.diag@.len() * self.diag@.len() <= usize::MAX,
        ensures
            r is Ok <==> self.diag@.len() <= limits.max_dim,
            match r {
                Ok(m) => m.rows == self.diag@.len() && m.cols == self.diag@.len() && m.wf() && forall|
                    i: int,
                    j: int,
                | 0 <= i < self.diag@.len() && 0 <= j < self.diag@.len() ==> #[trigger] m.entry(i, j)
                    == if i == j {
                    self.diag@[i]@
                } else {
                    S::zero_v()
                },
                Err(e) => e is LimitExceeded,
            },
    {
        let n = self.diag.len();
        check_dim(n, limits)?;
        let mut m: Matrix<S> = Matrix::new(n, n);
        let mut i: usize = 0;
        assert forall|a: int, b: int| 0 <= a < n && 0 <= b < n implies #[trigger] m.entry(a, b)
            == S::zero_v() by {
            lemma_cell_index(a, b, n as int, n as int);
        }
        while i < n
            invariant
                n == self.diag@.len(),
                n * n <= usize::MAX,
                m.rows == n,
                m.cols == n,
                m.wf(),
                i <= n,
                forall|a: int, b: int|
                    0 <= a < n && 0 <= b < n ==> #[trigger] m.entry(a, b) == if a == b && a < i {
                        self.diag@[a]@
                    } else {
                        S::zero_v()
                    },
            decreases n - i,
        {
            proof {
                lemma_cell_index(i as int, i as int, n as int, n as int);
            }
            let ghost mb = m;
            let ghost before = m.data@;
            m.data.set(i * n + i, self.diag[i].duplicate());
            proof {
                assert forall|a: int, b: int| 0 <= a < n && 0 <= b < n implies #[trigger] m.entry(a, b)
                    == if a == b && a < i + 1 {
                    self.diag@[a]@
                } else {
                    S::zero_v()
                } by {
                    lemma_cell_index(a, b, n as int, n as int);
                    lemma_cell_div_mod(a, b, n as int);
                    lemma_cell_div_mod(i as int, i as int, n as int);
                    assert(mb.entry(a, b) == if a == b && a < i {
                        self.diag@[a]@
                    } else {
                        S::zero_v()
                    });
                    if a * n + b != i * n + i {
                        assert(m.data@[a * n + b] == before[a * n + b]);
                    }
                }
            }
            i += 1;
        }
        Ok(m)
    }
}

/// A permutation matrix view: row `i` has its `one` in column `perm[i]`.
#[derive(Debug, Clone, PartialEq, Eq)]
pub struct PermutationView {
    /// `perm[i]` is the column holding the `one` in row `i`.
    pub perm: Vec<usize>,
}

impl PermutationView {
    /// Apply to a vector: `result[i] = v[perm[i]]`.
    pub fn matvec<S: Semiring>(&self, v: &[S]) -> (r: Result<Vec<S>, AlgebraError>)
        ensures
            r is Ok <==> (v@.len() == self.perm@.len() && forall|i: int|
                0 <= i < self.perm@.len() ==> #[trigger] self.perm@[i] < v@.len()),
            match r {
                Ok(out) => out@.len() == self.perm@.len() && forall|i: int|
                    0 <= i < self.perm@.len() ==> #[trigger] out@[i]@ == v@[self.perm@[i] as int]@,
                Err(e) => if v@.len() != self.perm@.len() {
                    e is ShapeMismatch
                } else {
                    exists|i: int|
                        0 <= i < self.perm@.len() && #[trigger] self.perm@[i] >= v@.len() && e == (
                        AlgebraError::IndexOutOfBounds { index: self.perm@[i], len: v@.len() as usize })
                        && forall|k: int| 0 <= k < i ==> #[trigger] self.perm@[k] < v@.len()
                },
            },
    {
        check_len(self.perm.len(), v)?;
        let mut out: Vec<S> = Vec::new();
        let mut i: usize = 0;
        while i < self.perm.len()
            invariant
                v@.len() == self.perm@.len(),
                i <= self.perm@.len(),
                out@.len() == i,
                forall|k: int| 0 <= k < i ==> #[trigger] self.perm@[k] < v@.len(),
                forall|k: int| 0 <= k < i ==> #[trigger] out@[k]@ == v@[self.perm@[k] as int]@,
            decreases self.perm@.len() - i,
        {
            let p = self.perm[i];
            if p >= v.len() {
                return Err(AlgebraError::IndexOutOfBounds { index: p, len: v.len() });
            }
            out.push(v[p].duplicate());
            i += 1;
        }
        Ok(out)
    }

    /// Materialize as a dense permutation matrix, guarded by `limits`.
    pub fn materialize<S: Semiring>(&self, limits: AlgebraLimits) -> (r: Result<Matrix<S>, AlgebraError>)
        requires
            self.perm@.len() <= limits.max_dim ==> self.perm@.len() * self.perm@.len() <= usize::MAX,
        ensures
            r is Ok <==> (self.perm@.len() <= limits.max_dim && forall|i: int|
                0 <= i < self.perm@.len() ==> #[trigger] self.perm@[i] < self.perm@.len()),
            match r {
                Ok(m) => m.rows == self.perm@.len() && m.cols == self.perm@.len() && m.wf() && forall|
                    i: int,
                    j: int,
                | 0 <= i < self.perm@.len() && 0 <= j < self.perm@.len() ==> #[trigger] m.entry(i, j)
                    == if self.perm@[i] == j {
                    S::one_v()
                } else {
                    S::zero_v()
                },
                Err(e) => if self.perm@.len() > limits.max_dim {
                    e is LimitExceeded
                } else {
                    exists|i: int|
                        0 <= i < self.perm@.len() && #[trigger] self.perm@[i] >= self.perm@.len() && e
                        == (AlgebraError::IndexOutOfBounds { index: self.perm@[i], len: self.perm@.len() as usize })
                        && forall|k: int| 0 <= k < i ==> #[trigger] self.perm@[k] < self.perm@.len()
                },
            },
    {
        let n = self.perm.len();
        check_dim(n, limits)?;
        let mut m: Matrix<S> = Matrix::new(n, n);
        let mut i: usize = 0;
        assert forall|a: int, b: int| 0 <= a < n && 0 <= b < n implies #[trigger] m.entry(a, b)
            == S::zero_v() by {
            lemma_cell_index(a, b, n as int, n as int);
        }
        while i < n
            invariant
                n == self.perm@.len(),
                n <= limits.max_dim,
                n * n <= usize::MAX,
                m.rows == n,
                m.cols == n,
                m.wf(),
                i <= n,
                forall|k: int| 0 <= k < i ==> #[trigger] self.perm@[k] < n,
                forall|a: int, b: int|
                    0 <= a < n && 0 <= b < n ==> #[trigger] m.entry(a, b) == if a < i && self.perm@[a] == b {
                        S::one_v()
                    } else {
                        S::zero_v()
                    },
            decreases n - i,
        {
            let p = self.perm[i];
            if p >= n {
                return Err(AlgebraError::IndexOutOfBounds { index: p, len: n });
            }
            proof {
                lemma_cell_index(i as int, p as int, n as int, n as int);
            }
            let ghost mb = m;
            m.data.set(i * n + p, S::one());
            proof {
                assert forall|a: int, b: int| 0 <= a < n && 0 <= b < n implies #[trigger] m.entry(a, b)
                    == if a < i + 1 && self.perm@[a] == b {
                    S::one_v()
                } else {
                    S::zero_v()
                } by {
                    lemma_cell_index(a, b, n as int, n as int);
                    lemma_cell_div_mod(a, b, n as int);
                    lemma_cell_div_mod(i as int, p as int, n as int);
                    assert(mb.entry(a, b) == if a < i && self.perm@[a] == b {
                        S::one_v()
                    } else {
                        S::zero_v()
                    });
                    if a * n + b != i * n + p {
                        assert(m.data@[a * n + b] == mb.data@[a * n + b]);
                    }
                }
            }
            i += 1;
        }
        Ok(m)
    }
}

/// A row of a permutation matrix dotted with a column picks one entry.
proof fn lemma_permutation_row<S: Semiring>(perm: Seq<usize>, p: Seq<S::V>, v: Seq<S::V>, i: int, k: nat)
    requires
        forall|a: S::V, b: S::V, c: S::V| #[trigger] semiring_laws::<S>(a, b, c),
        0 <= i < perm.len(),
        k <= perm.len(),
        forall|j: int| 0 <= j < perm.len() ==> #[trigger] p[i * perm.len() + j] == if perm[i] == j {
            S::one_v()
        } else {
            S::zero_v()
        },
    ensures
        dot::<S>(p, perm.len() as int, v, 1, i, 0, k) == if perm[i] < k {
            v[perm[i] as int]
        } else {
            S::zero_v()
        },
    decreases k,
{
    if k > 0 {
        let n = perm.len() as int;
        lemma_permutation_row::<S>(perm, p, v, i, (k - 1) as nat);
        let x = v[(k - 1) * 1 + 0];
        let prev = dot::<S>(p, n, v, 1, i, 0, (k - 1) as nat);
        assert(semiring_laws::<S>(x, x, x));
        assert(semiring_laws::<S>(prev, prev, prev));
        assert(p[i * n + (k - 1)] == if perm[i] == k - 1 { S::one_v() } else { S::zero_v() });
    }
}

/// A materialised permutation matrix times a column is the permutation
/// applied to that column: with `m` the dense matrix of `perm` (row `i`
/// holding its `one` in column `perm[i]`) and `v` the cells of an `n x 1`
/// column, the product's `i`-th cell is `v[perm[i]]`, what `matvec` returns.
pub proof fn lemma_materialize_matches_matvec<S: Semiring>(perm: Seq<usize>, m: Matrix<S>, v: Seq<S::V>)
    requires
        forall|a: S::V, b: S::V, c: S::V| #[trigger] semiring_laws::<S>(a, b, c),
        forall|i: int| 0 <= i < perm.len() ==> #[trigger] perm[i] < perm.len(),
        m.rows == perm.len(),
        m.cols == perm.len(),
        m.wf(),
        forall|i: int, j: int|
            0 <= i < perm.len() && 0 <= j < perm.len() ==> #[trigger] m.entry(i, j) == if perm[i] == j {
                S::one_v()
            } else {
                S::zero_v()
            },
        v.len() == perm.len(),
    ensures
        mat_mul::<S>(m.cells(), v, perm.len(), perm.len(), 1) == Seq::new(perm.len(), |i: int| v[perm[i] as int]),
{
    let n = perm.len();
    let p = m.cells();
    assert forall|i: int| 0 <= i < n implies #[trigger] mat_mul::<S>(p, v, n, n, 1)[i] == v[perm[i] as int] by {
        assert forall|j: int| 0 <= j < n implies #[trigger] p[i * n + j] == if perm[i] == j {
            S::one_v()
        } else {
            S::zero_v()
        } by {
            lemma_cell_index(i, j, n as int, n as int);
            assert(m.entry(i, j) == p[i * n + j]);
        }
        lemma_permutation_row::<S>(perm, p, v, i, n);
    }
    assert(mat_mul::<S>(p, v, n, n, 1) =~= Seq::new(n, |i: int| v[perm[i] as int]));
}

} // verus!
