//! Generic dense matrix over a [`Semiring`], with semiring matrix multiply,
//! square-and-multiply power, and Kleene closure.
//!
//! Row-major storage: element `(r, c)` lives at `data[r * cols + c]`. The
//! `data.len() == rows * cols` invariant is kept by every checked constructor;
//! the fields are public, so every fallible reader and operator validates the
//! value before indexing.

use crate::error::AlgebraError;
use crate::semiring::Semiring;
use crate::text::{push_num, text_nums};
use vstd::prelude::*;

verus! {

/// `r * c + x` stays inside a `rows x cols` grid when `r < rows` and `x < cols`.
pub proof fn lemma_cell_index(r: int, x: int, rows: int, cols: int)
    requires
        0 <= r < rows,
        0 <= x < cols,
    ensures
        0 <= r * cols + x < rows * cols,
        r * cols + x + 1 <= rows * cols,
        r * cols + cols <= rows * cols,
        0 <= r * cols,
{
    assert(r * cols + cols <= rows * cols) by (nonlinear_arith)
        requires
            0 <= r < rows,
            0 <= x < cols,
    ;
    assert(0 <= r * cols) by (nonlinear_arith)
        requires
            0 <= r,
            0 <= x < cols,
    ;
}

/// The row and column of a cell index are recovered by division.
pub proof fn lemma_cell_div_mod(r: int, x: int, cols: int)
    requires
        0 <= r,
        0 <= x < cols,
    ensures
        (r * cols + x) / cols == r,
        (r * cols + x) % cols == x,
{
    vstd::arithmetic::div_mod::lemma_fundamental_div_mod_converse(r * cols + x, cols, r, x);
}

/// Explicit limits for potentially expensive matrix operations.
#[derive(Debug, Clone, Copy, PartialEq, Eq)]
pub struct AlgebraLimits {
    /// Maximum allowed dimension `n` for `power` / `closure` / `materialize`.
    pub max_dim: usize,
}

impl Default for AlgebraLimits {
    fn default() -> (r: Self)
        ensures
            r.max_dim == 1024,
    {
        AlgebraLimits { max_dim: 1024 }
    }
}

impl AlgebraLimits {
    /// Effectively unlimited; intended for tests.
    pub fn unlimited() -> (r: Self)
        ensures
            r.max_dim == usize::MAX,
    {
        AlgebraLimits { max_dim: usize::MAX }
    }

    /// Reject a `rows x cols` shape whose larger side exceeds `max_dim`.
    pub fn check_matrix_dims(&self, rows: usize, cols: usize, op: &str) -> (r: Result<
        (),
        AlgebraError,
    >)
        ensures
            r is Ok <==> (rows <= self.max_dim && cols <= self.max_dim),
            r matches Err(e) ==> e is LimitExceeded,
    {
        let max_dim = if rows >= cols {
            rows
        } else {
            cols
        };
        if max_dim > self.max_dim {
            let mut m = String::from_str(op);
            m.append(": dimension ");
            push_num(&mut m, max_dim as u64);
            m.append(" exceeds max_dim ");
            push_num(&mut m, self.max_dim as u64);
            return Err(AlgebraError::LimitExceeded(m));
        }
        Ok(())
    }
}

/// `rows * cols`, or `DimensionOverflow` when it does not fit in `usize`.
pub fn checked_len(rows: usize, cols: usize) -> (r: Result<usize, AlgebraError>)
    ensures
        match r {
            Ok(len) => len == rows * cols,
            Err(e) => rows * cols > usize::MAX && e == (AlgebraError::DimensionOverflow {
                rows,
                cols,
            }),
        },
{
    match rows.checked_mul(cols) {
        Some(len) => Ok(len),
        None => Err(AlgebraError::DimensionOverflow { rows, cols }),
    }
}

/// `row * cols + col`, or `DimensionOverflow` when it does not fit in `usize`.
pub fn offset(cols: usize, row: usize, col: usize) -> (r: Result<usize, AlgebraError>)
    ensures
        match r {
            Ok(idx) => idx == row * cols + col,
            Err(e) => row * cols + col > usize::MAX && e == (AlgebraError::DimensionOverflow {
                rows: row,
                cols,
            }),
        },
{
    match row.checked_mul(cols) {
        Some(base) => match base.checked_add(col) {
            Some(idx) => Ok(idx),
            None => Err(AlgebraError::DimensionOverflow { rows: row, cols }),
        },
        None => {
            proof {
                assert(row * cols + col >= row * cols) by (nonlinear_arith)
                    requires
                        col >= 0,
                ;
            }
            Err(AlgebraError::DimensionOverflow { rows: row, cols })
        },
    }
}

/// `r * cols + c` saturated at `usize::MAX`, as reported for an out-of-range
/// access.
pub open spec fn sat_index(r: usize, cols: usize, c: usize) -> usize {
    let base = if r * cols > usize::MAX { usize::MAX as int } else { r * cols };
    if base + c > usize::MAX { usize::MAX } else { (base + c) as usize }
}

/// `r * cols + c`, saturating at `usize::MAX`.
pub fn saturated_index(r: usize, cols: usize, c: usize) -> (res: usize)
    ensures
        res == sat_index(r, cols, c),
{
    let base = match r.checked_mul(cols) {
        Some(b) => b,
        None => usize::MAX,
    };
    base.saturating_add(c)
}

/// A dense, row-major matrix over the semiring `S`.
#[derive(Debug, Clone, PartialEq)]
pub struct Matrix<S: Semiring> {
    /// Number of rows.
    pub rows: usize,
    /// Number of columns.
    pub cols: usize,
    /// Row-major entries; `data.len() == rows * cols`.
    pub data: Vec<S>,
}

/// The product of `a` (`m x p`, row-major) and `b` (`p x q`) at cell `(i, j)`,
/// summing the first `k` terms from the left: `a[i][0] b[0][j] + ...`.
pub open spec fn dot<S: Semiring>(a: Seq<S::V>, p: int, b: Seq<S::V>, q: int, i: int, j: int, k: nat) -> S::V
    decreases k,
{
    if k == 0 {
        S::zero_v()
    } else {
        S::add_v(
            dot::<S>(a, p, b, q, i, j, (k - 1) as nat),
            S::mul_v(a[i * p + (k - 1)], b[(k - 1) * q + j]),
        )
    }
}

/// The row-major semiring product of an `m x p` and a `p x q` model.
pub open spec fn mat_mul<S: Semiring>(a: Seq<S::V>, b: Seq<S::V>, m: nat, p: nat, q: nat) -> Seq<S::V> {
    Seq::new(m * q, |idx: int| dot::<S>(a, p as int, b, q as int, idx / (q as int), idx % (q as int), p))
}

/// The `n x n` identity model.
pub open spec fn identity_model<S: Semiring>(n: nat) -> Seq<S::V> {
    Seq::new(n * n, |idx: int| if idx / (n as int) == idx % (n as int) { S::one_v() } else { S::zero_v() })
}

/// The square-and-multiply power: `result * base^e`, multiplying `result` by
/// `base` on each set bit of `e` from the least significant, squaring `base`
/// between bits.
pub open spec fn square_multiply<S: Semiring>(result: Seq<S::V>, base: Seq<S::V>, n: nat, e: nat) -> Seq<S::V>
    decreases e,
{
    if e == 0 {
        result
    } else {
        let r2 = if e % 2 == 1 { mat_mul::<S>(result, base, n, n, n) } else { result };
        if e / 2 > 0 {
            square_multiply::<S>(r2, mat_mul::<S>(base, base, n, n, n), n, e / 2)
        } else {
            r2
        }
    }
}

/// One Lehmann pivot at `k` with diagonal star `s`: each cell `(i, j)` becomes
/// `c[i][j] + (c[i][k] s) c[k][j]`.
pub open spec fn pivot_step<S: Semiring>(c: Seq<S::V>, n: nat, k: int, s: S::V) -> Seq<S::V> {
    Seq::new(
        n * n,
        |idx: int|
            {
                let i = idx / (n as int);
                let j = idx % (n as int);
                S::add_v(c[idx], S::mul_v(S::mul_v(c[i * n + k], s), c[k * n + j]))
            },
    )
}

/// The model after pivoting on `0..k`, or `None` when a pivot star diverges.
pub open spec fn pivots_upto<S: Semiring>(a: Seq<S::V>, n: nat, k: nat) -> Option<Seq<S::V>>
    decreases k,
{
    if k == 0 {
        Some(a)
    } else {
        match pivots_upto::<S>(a, n, (k - 1) as nat) {
            None => None,
            Some(c) => match S::star_v(c[(k - 1) * n + (k - 1)]) {
                None => None,
                Some(s) => Some(pivot_step::<S>(c, n, k - 1, s)),
            },
        }
    }
}

/// `c` with `one` added on the diagonal.
pub open spec fn plus_identity<S: Semiring>(c: Seq<S::V>, n: nat) -> Seq<S::V> {
    Seq::new(
        n * n,
        |idx: int|
            if idx / (n as int) == idx % (n as int) {
                S::add_v(c[idx], S::one_v())
            } else {
                c[idx]
            },
    )
}

/// The Kleene closure `A* = I + A + A^2 + ...` of an `n x n` model by the
/// generalized Floyd-Warshall (Lehmann) pivoting, or `None` when a pivot's
/// diagonal star diverges.
pub open spec fn closure_model<S: Semiring>(a: Seq<S::V>, n: nat) -> Option<Seq<S::V>> {
    match pivots_upto::<S>(a, n, n) {
        None => None,
        Some(c) => Some(plus_identity::<S>(c, n)),
    }
}

impl<S: Semiring> Matrix<S> {
    /// Whether the storage holds exactly `rows * cols` entries.
    pub open spec fn wf(&self) -> bool {
        self.data@.len() == self.rows * self.cols
    }

    /// The row-major entries as model values.
    pub open spec fn cells(&self) -> Seq<S::V> {
        self.data@.map_values(|x: S| x@)
    }

    /// The model value at `(r, c)`.
    pub open spec fn entry(&self, r: int, c: int) -> S::V {
        self.data@[r * self.cols + c]@
    }

    /// The result of [`Matrix::validate`].
    pub open spec fn validation(&self) -> Result<(), AlgebraError> {
        if self.rows * self.cols > usize::MAX {
            Err(AlgebraError::DimensionOverflow { rows: self.rows, cols: self.cols })
        } else if self.data@.len() != self.rows * self.cols {
            Err(
                AlgebraError::InvalidMatrix {
                    rows: self.rows,
                    cols: self.cols,
                    expected: (self.rows * self.cols) as usize,
                    actual: self.data@.len() as usize,
                },
            )
        } else {
            Ok(())
        }
    }

    /// A `rows x cols` matrix filled with the semiring `zero`; the dimension
    /// product must fit in `usize`.
    pub fn new(rows: usize, cols: usize) -> (r: Self)
        requires
            rows * cols <= usize::MAX,
        ensures
            r.rows == rows,
            r.cols == cols,
            r.wf(),
            forall|k: int| 0 <= k < r.data@.len() ==> #[trigger] r.data@[k]@ == S::zero_v(),
    {
        Self::filled(rows, cols, S::zero())
    }

    /// Checked `rows x cols` matrix filled with the semiring `zero`.
    pub fn try_new(rows: usize, cols: usize) -> (r: Result<Self, AlgebraError>)
        ensures
            match r {
                Ok(m) => rows * cols <= usize::MAX && m.rows == rows && m.cols == cols && m.wf()
                    && forall|k: int| 0 <= k < m.data@.len() ==> #[trigger] m.data@[k]@ == S::zero_v(),
                Err(e) => rows * cols > usize::MAX && e == (AlgebraError::DimensionOverflow { rows, cols }),
            },
    {
        Self::try_filled(rows, cols, S::zero())
    }

    /// Checked `rows x cols` zero matrix, guarded by an explicit dimension limit.
    pub fn try_new_with_limits(rows: usize, cols: usize, limits: AlgebraLimits) -> (r: Result<
        Self,
        AlgebraError,
    >)
        ensures
            match r {
                Ok(m) => rows <= limits.max_dim && cols <= limits.max_dim && rows * cols <= usize::MAX
                    && m.rows == rows && m.cols == cols && m.wf()
                    && forall|k: int| 0 <= k < m.data@.len() ==> #[trigger] m.data@[k]@ == S::zero_v(),
                Err(e) => if rows > limits.max_dim || cols > limits.max_dim {
                    e is LimitExceeded
                } else {
                    rows * cols > usize::MAX && e == (AlgebraError::DimensionOverflow { rows, cols })
                },
            },
    {
        Self::try_filled_with_limits(rows, cols, S::zero(), limits)
    }

    /// A vector of `len` copies of `value`.
    fn fill_vec(len: usize, value: &S) -> (v: Vec<S>)
        ensures
            v@.len() == len,
            forall|k: int| 0 <= k < len ==> #[trigger] v@[k]@ == value@,
    {
        let mut v: Vec<S> = Vec::new();
        let mut i: usize = 0;
        while i < len
            invariant
                i <= len,
                v@.len() == i,
                forall|k: int| 0 <= k < i ==> #[trigger] v@[k]@ == value@,
            decreases len - i,
        {
            v.push(value.duplicate());
            i += 1;
        }
        v
    }

    /// A `rows x cols` matrix filled with `value`; the dimension product must
    /// fit in `usize`.
    pub fn filled(rows: usize, cols: usize, value: S) -> (r: Self)
        requires
            rows * cols <= usize::MAX,
        ensures
            r.rows == rows,
            r.cols == cols,
            r.wf(),
            forall|k: int| 0 <= k < r.data@.len() ==> #[trigger] r.data@[k]@ == value@,
    {
        let len = rows * cols;
        Matrix { rows, cols, data: Self::fill_vec(len, &value) }
    }

    /// Checked `rows x cols` matrix filled with `value`.
    pub fn try_filled(rows: usize, cols: usize, value: S) -> (r: Result<Self, AlgebraError>)
        ensures
            match r {
                Ok(m) => rows * cols <= usize::MAX && m.rows == rows && m.cols == cols && m.wf()
                    && forall|k: int| 0 <= k < m.data@.len() ==> #[trigger] m.data@[k]@ == value@,
                Err(e) => rows * cols > usize::MAX && e == (AlgebraError::DimensionOverflow { rows, cols }),
            },
    {
        let len = checked_len(rows, cols)?;
        Ok(Matrix { rows, cols, data: Self::fill_vec(len, &value) })
    }

    /// Checked `rows x cols` matrix filled with `value`, guarded by an explicit
    /// dimension limit.
    pub fn try_filled_with_limits(rows: usize, cols: usize, value: S, limits: AlgebraLimits) -> (r:
        Result<Self, AlgebraError>)
        ensures
            match r {
                Ok(m) => rows <= limits.max_dim && cols <= limits.max_dim && rows * cols <= usize::MAX
                    && m.rows == rows && m.cols == cols && m.wf()
                    && forall|k: int| 0 <= k < m.data@.len() ==> #[trigger] m.data@[k]@ == value@,
                Err(e) => if rows > limits.max_dim || cols > limits.max_dim {
                    e is LimitExceeded
                } else {
                    rows * cols > usize::MAX && e == (AlgebraError::DimensionOverflow { rows, cols })
                },
            },
    {
        limits.check_matrix_dims(rows, cols, "matrix construction")?;
        Self::try_filled(rows, cols, value)
    }

    /// Put `one` on the diagonal of an `n x n` zero matrix.
    fn set_diagonal_one(m: &mut Self, n: usize)
        requires
            old(m).rows == n,
            old(m).cols == n,
            old(m).wf(),
            n * n <= usize::MAX,
            forall|k: int| 0 <= k < old(m).data@.len() ==> #[trigger] old(m).data@[k]@ == S::zero_v(),
        ensures
            final(m).rows == n,
            final(m).cols == n,
            final(m).wf(),
            forall|i: int, j: int|
                0 <= i < n && 0 <= j < n ==> #[trigger] final(m).entry(i, j) == if i == j {
                    S::one_v()
                } else {
                    S::zero_v()
                },
    {
        let mut i: usize = 0;
        assert forall|a: int, b: int| 0 <= a < n && 0 <= b < n implies #[trigger] m.entry(a, b)
            == S::zero_v() by {
            lemma_cell_index(a, b, n as int, n as int);
        }
        while i < n
            invariant
                n * n <= usize::MAX,
                m.rows == n,
                m.cols == n,
                m.wf(),
                i <= n,
                forall|a: int, b: int|
                    0 <= a < n && 0 <= b < n ==> #[trigger] m.entry(a, b) == if a == b && a < i {
                        S::one_v()
                    } else {
                        S::zero_v()
                    },
            decreases n - i,
        {
            proof {
                lemma_cell_index(i as int, i as int, n as int, n as int);
            }
            let idx = i * n + i;
            let ghost before = *m;
            m.data.set(idx, S::one());
            proof {
                assert forall|a: int, b: int| 0 <= a < n && 0 <= b < n implies #[trigger] m.entry(a, b)
                    == if a == b && a < i + 1 {
                    S::one_v()
                } else {
                    S::zero_v()
                } by {
                    lemma_cell_index(a, b, n as int, n as int);
                    lemma_cell_div_mod(a, b, n as int);
                    lemma_cell_div_mod(i as int, i as int, n as int);
                    assert(before.entry(a, b) == if a == b && a < i {
                        S::one_v()
                    } else {
                        S::zero_v()
                    });
                    if a * n + b != idx {
                        assert(m.data@[a * n + b] == before.data@[a * n + b]);
                    }
                }
            }
            i += 1;
        }
    }

    /// The `n x n` identity: `one` on the diagonal, `zero` elsewhere; `n * n`
    /// must fit in `usize`.
    pub fn identity(n: usize) -> (r: Self)
        requires
            n * n <= usize::MAX,
        ensures
            r.rows == n,
            r.cols == n,
            r.wf(),
            forall|i: int, j: int|
                0 <= i < n && 0 <= j < n ==> #[trigger] r.entry(i, j) == if i == j {
                    S::one_v()
                } else {
                    S::zero_v()
                },
    {
        let mut m = Self::new(n, n);
        Self::set_diagonal_one(&mut m, n);
        m
    }

    /// Checked `n x n` identity matrix.
    pub fn try_identity(n: usize) -> (r: Result<Self, AlgebraError>)
        ensures
            match r {
                Ok(m) => n * n <= usize::MAX && m.rows == n && m.cols == n && m.wf() && forall|
                    i: int,
                    j: int,
                | 0 <= i < n && 0 <= j < n ==> #[trigger] m.entry(i, j) == if i == j {
                    S::one_v()
                } else {
                    S::zero_v()
                },
                Err(e) => n * n > usize::MAX && e == (AlgebraError::DimensionOverflow { rows: n, cols: n }),
            },
    {
        let mut m = Self::try_new(n, n)?;
        Self::set_diagonal_one(&mut m, n);
        Ok(m)
    }

    /// Checked `n x n` identity matrix guarded by an explicit dimension limit.
    pub fn try_identity_with_limits(n: usize, limits: AlgebraLimits) -> (r: Result<Self, AlgebraError>)
        ensures
            match r {
                Ok(m) => n <= limits.max_dim && n * n <= usize::MAX && m.rows == n && m.cols == n
                    && m.wf() && forall|i: int, j: int|
                    0 <= i < n && 0 <= j < n ==> #[trigger] m.entry(i, j) == if i == j {
                        S::one_v()
                    } else {
                        S::zero_v()
                    },
                Err(e) => if n > limits.max_dim {
                    e is LimitExceeded
                } else {
                    n * n > usize::MAX && e == (AlgebraError::DimensionOverflow { rows: n, cols: n })
                },
            },
    {
        limits.check_matrix_dims(n, n, "identity construction")?;
        Self::try_identity(n)
    }


    /// Build from a vector of rows, rejecting ragged input.
    pub fn from_rows(rows: Vec<Vec<S>>) -> (res: Result<Self, AlgebraError>)
        ensures
            ({
                let nrows = rows@.len();
                let ncols = if nrows > 0 { rows@[0]@.len() } else { 0 };
                if nrows * ncols > usize::MAX {
                    res == Err::<Self, AlgebraError>(AlgebraError::DimensionOverflow { rows: nrows as usize, cols: ncols as usize })
                } else if exists|i: int| 0 <= i < nrows && #[trigger] rows@[i]@.len() != ncols {
                    res == Err::<Self, AlgebraError>(AlgebraError::Ragged)
                } else {
                    res matches Ok(m) && m.rows == nrows && m.cols == ncols && m.wf() && forall|i: int, j: int|
                        0 <= i < nrows && 0 <= j < ncols ==> #[trigger] m.entry(i, j) == rows@[i]@[j]@
                }
            }),
    {
        let nrows = rows.len();
        let ncols = if nrows > 0 {
            rows[0].len()
        } else {
            0
        };
        let expected = checked_len(nrows, ncols)?;
        let mut data: Vec<S> = Vec::new();
        let mut i: usize = 0;
        while i < nrows
            invariant
                nrows == rows@.len(),
                ncols == (if nrows > 0 { rows@[0]@.len() } else { 0 }),
                nrows * ncols <= usize::MAX,
                i <= nrows,
                data@.len() == i * ncols,
                forall|x: int| 0 <= x < i ==> #[trigger] rows@[x]@.len() == ncols,
                forall|x: int, y: int|
                    0 <= x < i && 0 <= y < ncols ==> #[trigger] data@[x * ncols + y]@ == rows@[x]@[y]@,
            decreases nrows - i,
        {
            let row = &rows[i];
            if row.len() != ncols {
                return Err(AlgebraError::Ragged);
            }
            let mut j: usize = 0;
            while j < ncols
                invariant
                    nrows == rows@.len(),
                    nrows * ncols <= usize::MAX,
                    i < nrows,
                    *row == rows@[i as int],
                    row@.len() == ncols,
                    j <= ncols,
                    data@.len() == i * ncols + j,
                    forall|x: int, y: int|
                        0 <= x < i && 0 <= y < ncols ==> #[trigger] data@[x * ncols + y]@ == rows@[x]@[y]@,
                    forall|y: int| 0 <= y < j ==> #[trigger] data@[i * ncols + y]@ == rows@[i as int]@[y]@,
                decreases ncols - j,
            {
                let ghost before = data@;
                data.push(row[j].duplicate());
                proof {
                    assert forall|x: int, y: int|
                        0 <= x < i && 0 <= y < ncols implies #[trigger] data@[x * ncols + y]@
                        == rows@[x]@[y]@ by {
                        lemma_cell_index(x, y, i as int, ncols as int);
                        assert(data@[x * ncols + y] == before[x * ncols + y]);
                    }
                }
                j += 1;
            }
            proof {
                assert forall|x: int, y: int|
                    0 <= x < i + 1 && 0 <= y < ncols implies #[trigger] data@[x * ncols + y]@
                    == rows@[x]@[y]@ by {
                }
                assert((i + 1) * ncols == i * ncols + ncols) by (nonlinear_arith);
            }
            i += 1;
        }
        let m = Matrix { rows: nrows, cols: ncols, data };
        proof {
            assert forall|x: int, y: int|
                0 <= x < nrows && 0 <= y < ncols implies #[trigger] m.entry(x, y) == rows@[x]@[y]@ by {
            }
        }
        Ok(m)
    }

    /// Whether the matrix is square.
    pub fn is_square(&self) -> (r: bool)
        ensures
            r == (self.rows == self.cols),
    {
        self.rows == self.cols
    }

    /// Number of matrix rows.
    pub fn row_count(&self) -> (r: usize)
        ensures
            r == self.rows,
    {
        self.rows
    }

    /// Number of matrix columns.
    pub fn col_count(&self) -> (r: usize)
        ensures
            r == self.cols,
    {
        self.cols
    }

    /// Read-only row-major data slice.
    pub fn data(&self) -> (r: &[S])
        ensures
            r@ == self.data@,
    {
        self.data.as_slice()
    }

    /// Validate the public structural invariant before indexing by shape.
    pub fn validate(&self) -> (r: Result<(), AlgebraError>)
        ensures
            r == self.validation(),
            r is Ok <==> (self.wf() && self.rows * self.cols <= usize::MAX),
    {
        let expected = checked_len(self.rows, self.cols)?;
        if self.data.len() != expected {
            return Err(
                AlgebraError::InvalidMatrix {
                    rows: self.rows,
                    cols: self.cols,
                    expected,
                    actual: self.data.len(),
                },
            );
        }
        Ok(())
    }

    /// The `IndexOutOfBounds` report for `(r, c)`: the saturated row-major index
    /// and the storage length.
    pub open spec fn out_of_bounds(&self, r: usize, c: usize) -> AlgebraError {
        AlgebraError::IndexOutOfBounds {
            index: sat_index(r, self.cols, c),
            len: self.data@.len() as usize,
        }
    }

    /// Bounds-checked read of entry `(r, c)`.
    pub fn get(&self, r: usize, c: usize) -> (res: Result<&S, AlgebraError>)
        ensures
            res is Ok <==> (self.validation() is Ok && r < self.rows && c < self.cols),
            match res {
                Ok(x) => *x == self.data@[r * self.cols + c],
                Err(e) => match self.validation() {
                    Err(v) => e == v,
                    Ok(_) => e == self.out_of_bounds(r, c),
                },
            },
    {
        self.validate()?;
        if r >= self.rows || c >= self.cols {
            return Err(
                AlgebraError::IndexOutOfBounds {
                    index: saturated_index(r, self.cols, c),
                    len: self.data.len(),
                },
            );
        }
        proof {
            lemma_cell_index(r as int, c as int, self.rows as int, self.cols as int);
        }
        let idx = offset(self.cols, r, c)?;
        Ok(&self.data[idx])
    }

    /// Bounds-checked write of entry `(r, c)`.
    pub fn set(&mut self, r: usize, c: usize, value: S) -> (res: Result<(), AlgebraError>)
        ensures
            res is Ok <==> (old(self).validation() is Ok && r < old(self).rows && c < old(self).cols),
            final(self).rows == old(self).rows,
            final(self).cols == old(self).cols,
            match res {
                Ok(_) => final(self).data@ == old(self).data@.update(r * old(self).cols + c, value),
                Err(e) => final(self).data@ == old(self).data@ && match old(self).validation() {
                    Err(v) => e == v,
                    Ok(_) => e == old(self).out_of_bounds(r, c),
                },
            },
    {
        self.validate()?;
        if r >= self.rows || c >= self.cols {
            return Err(
                AlgebraError::IndexOutOfBounds {
                    index: saturated_index(r, self.cols, c),
                    len: self.data.len(),
                },
            );
        }
        proof {
            lemma_cell_index(r as int, c as int, self.rows as int, self.cols as int);
        }
        let index = offset(self.cols, r, c)?;
        self.data.set(index, value);
        Ok(())
    }

    /// Immutable slice of row `r`, or an error if out of range.
    pub fn row(&self, r: usize) -> (res: Result<&[S], AlgebraError>)
        ensures
            res is Ok <==> (self.validation() is Ok && r < self.rows),
            match res {
                Ok(sl) => sl@ == self.data@.subrange(r * self.cols, r * self.cols + self.cols),
                Err(e) => match self.validation() {
                    Err(v) => e == v,
                    Ok(_) => e == (AlgebraError::IndexOutOfBounds { index: r, len: self.rows }),
                },
            },
    {
        self.validate()?;
        if r >= self.rows {
            return Err(AlgebraError::IndexOutOfBounds { index: r, len: self.rows });
        }
        proof {
            if self.cols > 0 {
                lemma_cell_index(r as int, 0, self.rows as int, self.cols as int);
            } else {
                assert(r * self.cols == 0) by (nonlinear_arith)
                    requires
                        self.cols == 0,
                ;
            }
        }
        let start = r * self.cols;
        let end = start + self.cols;
        Ok(vstd::slice::slice_subrange(self.data.as_slice(), start, end))
    }

    /// The transpose (a fresh `cols x rows` matrix).
    pub fn transpose(&self) -> (res: Result<Self, AlgebraError>)
        ensures
            res is Ok <==> self.validation() is Ok,
            match res {
                Ok(t) => t.rows == self.cols && t.cols == self.rows && t.wf() && forall|i: int, j: int|
                    0 <= i < self.cols && 0 <= j < self.rows ==> #[trigger] t.entry(i, j)
                        == self.entry(j, i),
                Err(e) => self.validation() == Err::<(), AlgebraError>(e),
            },
    {
        self.validate()?;
        let ghost rows = self.rows as int;
        let ghost cols = self.cols as int;
        let mut data: Vec<S> = Vec::new();
        let mut c: usize = 0;
        while c < self.cols
            invariant
                self.wf(),
                rows == self.rows,
                cols == self.cols,
                self.rows * self.cols <= usize::MAX,
                c <= self.cols,
                data@.len() == c * self.rows,
                forall|i: int, j: int|
                    0 <= i < c && 0 <= j < self.rows ==> #[trigger] data@[i * self.rows + j]@
                        == self.entry(j, i),
            decreases self.cols - c,
        {
            let mut r: usize = 0;
            while r < self.rows
                invariant
                    self.wf(),
                    rows == self.rows,
                    cols == self.cols,
                    self.rows * self.cols <= usize::MAX,
                    c < self.cols,
                    r <= self.rows,
                    data@.len() == c * self.rows + r,
                    forall|i: int, j: int|
                        0 <= i < c && 0 <= j < self.rows ==> #[trigger] data@[i * self.rows + j]@
                            == self.entry(j, i),
                    forall|j: int| 0 <= j < r ==> #[trigger] data@[c * self.rows + j]@ == self.entry(j, c as int),
                decreases self.rows - r,
            {
                proof {
                    lemma_cell_index(r as int, c as int, rows, cols);
                    lemma_cell_index(c as int, r as int, cols, rows);
                }
                let idx = r * self.cols + c;
                let ghost before = data@;
                data.push(self.data[idx].duplicate());
                proof {
                    assert forall|i: int, j: int|
                        0 <= i < c && 0 <= j < self.rows implies #[trigger] data@[i * self.rows + j]@
                        == self.entry(j, i) by {
                        lemma_cell_index(i, j, c as int, rows);
                        assert(data@[i * self.rows + j] == before[i * self.rows + j]);
                    }
                }
                r += 1;
            }
            proof {
                assert forall|i: int, j: int|
                    0 <= i < c + 1 && 0 <= j < self.rows implies #[trigger] data@[i * self.rows + j]@
                    == self.entry(j, i) by {
                    if i == c {
                    } else {
                        lemma_cell_index(i, j, c as int, rows);
                    }
                }
                assert((c + 1) * self.rows == c * self.rows + self.rows) by (nonlinear_arith);
            }
            c += 1;
        }
        let t = Matrix { rows: self.cols, cols: self.rows, data };
        proof {
            assert(t.wf()) by {
                assert(self.cols * self.rows == self.rows * self.cols) by (nonlinear_arith);
            }
        }
        Ok(t)
    }

    /// Semiring matrix multiply: `self` (`m x p`) by `other` (`p x q`).
    pub fn matmul(&self, other: &Self) -> (res: Result<Self, AlgebraError>)
        ensures
            res is Ok <==> (self.validation() is Ok && other.validation() is Ok && self.cols
                == other.rows && self.rows * other.cols <= usize::MAX),
            match res {
                Ok(m) => m.rows == self.rows && m.cols == other.cols && m.wf() && m.cells()
                    == mat_mul::<S>(self.cells(), other.cells(), self.rows as nat, self.cols as nat, other.cols as nat)
                    && forall|i: int, j: int|
                    0 <= i < self.rows && 0 <= j < other.cols ==> #[trigger] m.entry(i, j) == dot::<S>(
                        self.cells(),
                        self.cols as int,
                        other.cells(),
                        other.cols as int,
                        i,
                        j,
                        self.cols as nat,
                    ),
                Err(e) => match (self.validation(), other.validation()) {
                    (Err(v), _) => e == v,
                    (Ok(_), Err(v)) => e == v,
                    (Ok(_), Ok(_)) => if self.cols != other.rows {
                        e is ShapeMismatch
                    } else {
                        e == (AlgebraError::DimensionOverflow { rows: self.rows, cols: other.cols })
                    },
                },
            },
    {
        self.validate()?;
        other.validate()?;
        if self.cols != other.rows {
            let mut m = text_nums("matmul: ", self.rows as u64, "x", self.cols as u64, " by ");
            push_num(&mut m, other.rows as u64);
            m.append("x");
            push_num(&mut m, other.cols as u64);
            return Err(AlgebraError::ShapeMismatch(m));
        }
        let len = checked_len(self.rows, other.cols)?;
        let m = self.rows;
        let p = self.cols;
        let q = other.cols;
        let ghost a = self.cells();
        let ghost b = other.cells();
        let mut data: Vec<S> = Vec::new();
        let mut i: usize = 0;
        while i < m
            invariant
                self.wf(),
                other.wf(),
                m == self.rows,
                p == self.cols,
                p == other.rows,
                q == other.cols,
                m * p <= usize::MAX,
                p * q <= usize::MAX,
                m * q <= usize::MAX,
                a == self.cells(),
                b == other.cells(),
                i <= m,
                data@.len() == i * q,
                forall|x: int, y: int|
                    0 <= x < i && 0 <= y < q ==> #[trigger] data@[x * q + y]@ == dot::<S>(
                        a,
                        p as int,
                        b,
                        q as int,
                        x,
                        y,
                        p as nat,
                    ),
            decreases m - i,
        {
            let mut j: usize = 0;
            while j < q
                invariant
                    self.wf(),
                    other.wf(),
                    m == self.rows,
                    p == self.cols,
                    p == other.rows,
                    q == other.cols,
                    m * p <= usize::MAX,
                    p * q <= usize::MAX,
                    m * q <= usize::MAX,
                    a == self.cells(),
                    b == other.cells(),
                    i < m,
                    j <= q,
                    data@.len() == i * q + j,
                    forall|x: int, y: int|
                        0 <= x < i && 0 <= y < q ==> #[trigger] data@[x * q + y]@ == dot::<S>(
                            a,
                            p as int,
                            b,
                            q as int,
                            x,
                            y,
                            p as nat,
                        ),
                    forall|y: int|
                        0 <= y < j ==> #[trigger] data@[i * q + y]@ == dot::<S>(
                            a,
                            p as int,
                            b,
                            q as int,
                            i as int,
                            y,
                            p as nat,
                        ),
                decreases q - j,
            {
                let mut acc = S::zero();
                let mut k: usize = 0;
                while k < p
                    invariant
                        self.wf(),
                        other.wf(),
                        m == self.rows,
                        p == self.cols,
                        p == other.rows,
                        q == other.cols,
                        m * p <= usize::MAX,
                        p * q <= usize::MAX,
                        a == self.cells(),
                        b == other.cells(),
                        i < m,
                        j < q,
                        k <= p,
                        acc@ == dot::<S>(a, p as int, b, q as int, i as int, j as int, k as nat),
                    decreases p - k,
                {
                    proof {
                        lemma_cell_index(i as int, k as int, m as int, p as int);
                        lemma_cell_index(k as int, j as int, p as int, q as int);
                    }
                    let term = self.data[i * p + k].mul(&other.data[k * q + j]);
                    acc = acc.add(&term);
                    k += 1;
                }
                proof {
                    lemma_cell_index(i as int, j as int, m as int, q as int);
                }
                let ghost before = data@;
                data.push(acc);
                proof {
                    assert forall|x: int, y: int|
                        0 <= x < i && 0 <= y < q implies #[trigger] data@[x * q + y]@ == dot::<S>(
                        a,
                        p as int,
                        b,
                        q as int,
                        x,
                        y,
                        p as nat,
                    ) by {
                        lemma_cell_index(x, y, i as int, q as int);
                        assert(data@[x * q + y] == before[x * q + y]);
                    }
                }
                j += 1;
            }
            proof {
                assert forall|x: int, y: int|
                    0 <= x < i + 1 && 0 <= y < q implies #[trigger] data@[x * q + y]@ == dot::<S>(
                    a,
                    p as int,
                    b,
                    q as int,
                    x,
                    y,
                    p as nat,
                ) by {
                    if x < i {
                        lemma_cell_index(x, y, i as int, q as int);
                    }
                }
                assert((i + 1) * q == i * q + q) by (nonlinear_arith);
            }
            i += 1;
        }
        let res = Matrix { rows: m, cols: q, data };
        proof {
            assert(res.cells() =~= mat_mul::<S>(a, b, m as nat, p as nat, q as nat)) by {
                assert forall|idx: int| 0 <= idx < m * q implies #[trigger] res.cells()[idx] == mat_mul::<S>(
                    a,
                    b,
                    m as nat,
                    p as nat,
                    q as nat,
                )[idx] by {
                    let x = idx / (q as int);
                    let y = idx % (q as int);
                    vstd::arithmetic::div_mod::lemma_fundamental_div_mod(idx, q as int);
                    assert(q > 0) by (nonlinear_arith)
                        requires
                            0 <= idx < m * q,
                    ;
                    assert(0 <= x < m) by (nonlinear_arith)
                        requires
                            0 <= idx < m * q,
                            q > 0,
                            x == idx / (q as int),
                    ;
                    assert(idx == x * q + y) by (nonlinear_arith)
                        requires
                            idx == q * x + y,
                    ;
                }
            }
        }
        Ok(res)
    }

    /// A copy with the same shape and the same model values.
    pub fn duplicate(&self) -> (r: Self)
        ensures
            r.rows == self.rows,
            r.cols == self.cols,
            r.data@.len() == self.data@.len(),
            r.cells() == self.cells(),
    {
        let mut data: Vec<S> = Vec::new();
        let mut i: usize = 0;
        while i < self.data.len()
            invariant
                i <= self.data@.len(),
                data@.len() == i,
                forall|k: int| 0 <= k < i ==> #[trigger] data@[k]@ == self.data@[k]@,
            decreases self.data@.len() - i,
        {
            data.push(self.data[i].duplicate());
            i += 1;
        }
        let r = Matrix { rows: self.rows, cols: self.cols, data };
        assert(r.cells() =~= self.cells());
        r
    }

    /// Compute the Kleene closure `A* = I + A + A^2 + ...`.
    ///
    /// Uses the generalized Floyd-Warshall (Lehmann) iteration: for each pivot
    /// `k`, paths may pass through `k` and loop there `star(A[k][k])` times. The
    /// identity is added at the end so `A*` includes the empty path.
    ///
    /// Returns [`AlgebraError::NoStar`] when a pivot's diagonal star does not
    /// converge (a negative cycle in min-plus, any directed cycle in counting).
    pub fn closure(&self, limits: AlgebraLimits) -> (res: Result<Self, AlgebraError>)
        ensures
            match self.validation() {
                Err(v) => res == Err::<Self, AlgebraError>(v),
                Ok(_) => if self.rows != self.cols {
                    res matches Err(e) && e is ShapeMismatch
                } else if self.rows > limits.max_dim {
                    res matches Err(e) && e is LimitExceeded
                } else {
                    match closure_model::<S>(self.cells(), self.rows as nat) {
                        None => res == Err::<Self, AlgebraError>(AlgebraError::NoStar),
                        Some(c) => res matches Ok(m) && m.rows == self.rows && m.cols == self.cols
                            && m.wf() && m.cells() == c,
                    }
                },
            },
    {
        self.validate()?;
        if !self.is_square() {
            return Err(
                AlgebraError::ShapeMismatch(
                    text_nums("closure requires a square matrix, got ", self.rows as u64, "x", self.cols as u64, ""),
                ),
            );
        }
        let n = self.rows;
        if n > limits.max_dim {
            return Err(
                AlgebraError::LimitExceeded(
                    text_nums("closure: dimension ", n as u64, " exceeds max_dim ", limits.max_dim as u64, ""),
                ),
            );
        }
        let ghost a = self.cells();
        let mut c = self.duplicate();
        let mut k: usize = 0;
        while k < n
            invariant
                n == self.rows,
                n * n <= usize::MAX,
                k <= n,
                a == self.cells(),
                self.validation() is Ok,
                self.rows == self.cols,
                n <= limits.max_dim,
                c.rows == n,
                c.cols == n,
                c.wf(),
                pivots_upto::<S>(a, n as nat, k as nat) == Some(c.cells()),
            decreases n - k,
        {
            proof {
                lemma_cell_index(k as int, k as int, n as int, n as int);
            }
            let s = match c.data[k * n + k].star() {
                Some(s) => s,
                None => {
                    proof {
                        assert(c.cells()[k * n + k] == c.data@[k * n + k]@);
                        assert(pivots_upto::<S>(a, n as nat, (k + 1) as nat) is None);
                        lemma_pivots_none_persist::<S>(a, n as nat, (k + 1) as nat, n as nat);
                    }
                    return Err(AlgebraError::NoStar);
                },
            };
            let ghost cc = c.cells();
            let ghost target = pivot_step::<S>(cc, n as nat, k as int, s@);
            let mut next = c.duplicate();
            let mut i: usize = 0;
            while i < n
                invariant
                    n * n <= usize::MAX,
                    k < n,
                    i <= n,
                    c.rows == n,
                    c.cols == n,
                    c.wf(),
                    cc == c.cells(),
                    target == pivot_step::<S>(cc, n as nat, k as int, s@),
                    next.rows == n,
                    next.cols == n,
                    next.wf(),
                    forall|idx: int|
                        0 <= idx < n * n ==> #[trigger] next.data@[idx]@ == if idx < i * n {
                            target[idx]
                        } else {
                            cc[idx]
                        },
                decreases n - i,
            {
                proof {
                    lemma_cell_index(i as int, k as int, n as int, n as int);
                }
                let cik = c.data[i * n + k].mul(&s);
                let mut j: usize = 0;
                while j < n
                    invariant
                        n * n <= usize::MAX,
                        k < n,
                        i < n,
                        j <= n,
                        c.rows == n,
                        c.cols == n,
                        c.wf(),
                        cc == c.cells(),
                        target == pivot_step::<S>(cc, n as nat, k as int, s@),
                        cik@ == S::mul_v(cc[i * n + k], s@),
                        next.rows == n,
                        next.cols == n,
                        next.wf(),
                        forall|idx: int|
                            0 <= idx < n * n ==> #[trigger] next.data@[idx]@ == if idx < i * n + j {
                                target[idx]
                            } else {
                                cc[idx]
                            },
                    decreases n - j,
                {
                    proof {
                        lemma_cell_index(k as int, j as int, n as int, n as int);
                        lemma_cell_index(i as int, j as int, n as int, n as int);
                        lemma_cell_div_mod(i as int, j as int, n as int);
                    }
                    let via = cik.mul(&c.data[k * n + j]);
                    let updated = c.data[i * n + j].add(&via);
                    let ghost before = next.data@;
                    next.data.set(i * n + j, updated);
                    proof {
                        assert forall|idx: int| 0 <= idx < n * n implies #[trigger] next.data@[idx]@
                            == if idx < i * n + j + 1 {
                            target[idx]
                        } else {
                            cc[idx]
                        } by {
                            if idx != i * n + j {
                                assert(next.data@[idx] == before[idx]);
                            }
                        }
                    }
                    j += 1;
                }
                proof {
                    assert((i + 1) * n == i * n + n) by (nonlinear_arith);
                }
                i += 1;
            }
            proof {
                assert(next.cells() =~= target);
            }
            c = next;
            k += 1;
        }
        let ghost f = c.cells();
        assert forall|x: int, y: int| 0 <= x < n && 0 <= y < n implies #[trigger] c.data@[x * n + y]@
            == f[x * n + y] by {
            lemma_cell_index(x, y, n as int, n as int);
        }
        let mut i: usize = 0;
        while i < n
            invariant
                n * n <= usize::MAX,
                i <= n,
                c.rows == n,
                c.cols == n,
                c.wf(),
                forall|x: int, y: int|
                    0 <= x < n && 0 <= y < n ==> #[trigger] c.data@[x * n + y]@ == if x == y && x < i {
                        S::add_v(f[x * n + y], S::one_v())
                    } else {
                        f[x * n + y]
                    },
            decreases n - i,
        {
            proof {
                lemma_cell_index(i as int, i as int, n as int, n as int);
                lemma_cell_div_mod(i as int, i as int, n as int);
            }
            let updated = c.data[i * n + i].add(&S::one());
            let ghost before = c.data@;
            c.data.set(i * n + i, updated);
            proof {
                assert forall|x: int, y: int| 0 <= x < n && 0 <= y < n implies #[trigger] c.data@[x * n
                    + y]@ == if x == y && x < i + 1 {
                    S::add_v(f[x * n + y], S::one_v())
                } else {
                    f[x * n + y]
                } by {
                    lemma_cell_index(x, y, n as int, n as int);
                    lemma_cell_div_mod(x, y, n as int);
                    if x * n + y != i * n + i {
                        assert(c.data@[x * n + y] == before[x * n + y]);
                    }
                }
            }
            i += 1;
        }
        proof {
            assert(c.cells() =~= plus_identity::<S>(f, n as nat)) by {
                assert forall|idx: int| 0 <= idx < n * n implies #[trigger] c.cells()[idx]
                    == plus_identity::<S>(f, n as nat)[idx] by {
                    lemma_split_index(idx, n as int, n as int);
                    let x = idx / (n as int);
                    let y = idx % (n as int);
                    assert(c.data@[x * n + y]@ == if x == y && x < n {
                        S::add_v(f[x * n + y], S::one_v())
                    } else {
                        f[x * n + y]
                    });
                }
            }
        }
        Ok(c)
    }

    /// Raise a square matrix to the `k`-th power over its semiring by
    /// square-and-multiply.
    ///
    /// `k == 0` returns the identity. Returns [`AlgebraError::ShapeMismatch`]
    /// for non-square input and [`AlgebraError::LimitExceeded`] when the
    /// dimension exceeds `limits.max_dim`.
    pub fn power(&self, k: usize, limits: AlgebraLimits) -> (res: Result<Self, AlgebraError>)
        requires
            self.rows == self.cols && self.rows <= limits.max_dim ==> self.rows * self.cols <= usize::MAX,
        ensures
            if self.rows != self.cols {
                res matches Err(e) && e is ShapeMismatch
            } else if self.rows > limits.max_dim {
                res matches Err(e) && e is LimitExceeded
            } else if k == 0 {
                res matches Ok(m) && m.rows == self.rows && m.cols == self.rows && m.wf() && m.cells()
                    == identity_model::<S>(self.rows as nat)
            } else {
                match self.validation() {
                    Err(v) => res == Err::<Self, AlgebraError>(v),
                    Ok(_) => res matches Ok(m) && m.rows == self.rows && m.cols == self.rows && m.wf()
                        && m.cells() == square_multiply::<S>(
                        identity_model::<S>(self.rows as nat),
                        self.cells(),
                        self.rows as nat,
                        k as nat,
                    ),
                }
            },
    {
        if !self.is_square() {
            return Err(
                AlgebraError::ShapeMismatch(
                    text_nums("power requires a square matrix, got ", self.rows as u64, "x", self.cols as u64, ""),
                ),
            );
        }
        if self.rows > limits.max_dim {
            return Err(
                AlgebraError::LimitExceeded(
                    text_nums("power: dimension ", self.rows as u64, " exceeds max_dim ", limits.max_dim as u64, ""),
                ),
            );
        }
        let n = self.rows;
        let mut result: Matrix<S> = Matrix::identity(n);
        proof {
            lemma_identity_cells(&result, n as nat);
        }
        let mut base = self.duplicate();
        let mut e = k;
        let ghost target = square_multiply::<S>(identity_model::<S>(n as nat), self.cells(), n as nat, k as nat);
        while e > 0
            invariant
                n == self.rows,
                n == self.cols,
                n <= limits.max_dim,
                n * n <= usize::MAX,
                result.rows == n,
                result.cols == n,
                result.wf(),
                target == square_multiply::<S>(identity_model::<S>(n as nat), self.cells(), n as nat, k as nat),
                base.rows == n,
                base.cols == n,
                base.data@.len() == self.data@.len(),
                base.validation() == self.validation(),
                self.wf() ==> base.wf(),
                !self.wf() ==> e == k && result.cells() == identity_model::<S>(n as nat),
                self.wf() ==> square_multiply::<S>(result.cells(), base.cells(), n as nat, e as nat) == target,
                e <= k,
                e == k ==> base.cells() == self.cells() && result.cells() == identity_model::<S>(n as nat),
            decreases e,
        {
            if e % 2 == 1 {
                result = result.matmul(&base)?;
            }
            e = e / 2;
            if e > 0 {
                base = base.matmul(&base)?;
            }
        }
        Ok(result)
    }
}

/// Once a pivot star diverges, every later stage diverges too.
pub proof fn lemma_pivots_none_persist<S: Semiring>(a: Seq<S::V>, n: nat, k: nat, m: nat)
    requires
        pivots_upto::<S>(a, n, k) is None,
        k <= m,
    ensures
        pivots_upto::<S>(a, n, m) is None,
    decreases m - k,
{
    if k < m {
        lemma_pivots_none_persist::<S>(a, n, k, (m - 1) as nat);
    }
}

/// A cell index splits into its row and column.
pub proof fn lemma_split_index(idx: int, rows: int, cols: int)
    requires
        0 <= rows,
        0 <= idx < rows * cols,
    ensures
        cols > 0,
        0 <= idx / cols < rows,
        0 <= idx % cols < cols,
        idx == (idx / cols) * cols + idx % cols,
{
    assert(cols > 0) by (nonlinear_arith)
        requires
            0 <= idx < rows * cols,
            0 <= rows,
    ;
    vstd::arithmetic::div_mod::lemma_fundamental_div_mod(idx, cols);
    let x = idx / cols;
    assert(0 <= x < rows) by (nonlinear_arith)
        requires
            0 <= idx < rows * cols,
            cols > 0,
            x == idx / cols,
    ;
    assert(idx == x * cols + idx % cols) by (nonlinear_arith)
        requires
            idx == cols * x + idx % cols,
    ;
}

/// The identity matrix's cells are the identity model.
pub proof fn lemma_identity_cells<S: Semiring>(m: &Matrix<S>, n: nat)
    requires
        m.rows == n,
        m.cols == n,
        m.wf(),
        forall|i: int, j: int|
            0 <= i < n && 0 <= j < n ==> #[trigger] m.entry(i, j) == if i == j {
                S::one_v()
            } else {
                S::zero_v()
            },
    ensures
        m.cells() == identity_model::<S>(n),
{
    assert forall|idx: int| 0 <= idx < n * n implies #[trigger] m.cells()[idx] == identity_model::<S>(n)[idx] by {
        lemma_split_index(idx, n as int, n as int);
        assert(m.entry(idx / (n as int), idx % (n as int)) == m.cells()[idx]);
    }
    assert(m.cells() =~= identity_model::<S>(n));
}

} // verus!
