//! Coordinate-list sparse matrix over a [`Semiring`].
//!
//! Duplicate coordinates are merged by semiring `add` during `canonicalize`,
//! which also drops `zero` entries and sorts by `(row, col)`.

use crate::error::AlgebraError;
use crate::matrix::{lemma_cell_index, lemma_cell_div_mod, lemma_split_index, sat_index, saturated_index, Matrix};
use crate::semiring::Semiring;
use vstd::prelude::*;

verus! {

/// A single non-default entry of a sparse matrix.
#[derive(Debug, Clone, PartialEq, Eq)]
pub struct SparseEntry<S> {
    /// Row index.
    pub row: usize,
    /// Column index.
    pub col: usize,
    /// Stored value.
    pub value: S,
}

/// A coordinate-list sparse matrix.
#[derive(Debug, Clone, PartialEq)]
pub struct SparseMatrix<S: Semiring> {
    /// Number of rows.
    pub rows: usize,
    /// Number of columns.
    pub cols: usize,
    /// Stored entries (canonical after [`SparseMatrix::canonicalize`]).
    pub entries: Vec<SparseEntry<S>>,
}

/// Whether coordinate `(r1, c1)` precedes `(r2, c2)` in row-major order.
pub open spec fn key_lt(r1: usize, c1: usize, r2: usize, c2: usize) -> bool {
    r1 < r2 || (r1 == r2 && c1 < c2)
}

/// The value accumulated at `(r, c)` by merging, in order, every entry of `s`
/// at that coordinate with semiring `add`; `None` when no entry has it.
pub open spec fn merged<S: Semiring>(s: Seq<SparseEntry<S>>, r: usize, c: usize) -> Option<S::V>
    decreases s.len(),
{
    if s.len() == 0 {
        None
    } else {
        let prev = merged::<S>(s.drop_last(), r, c);
        let e = s.last();
        if e.row == r && e.col == c {
            match prev {
                None => Some(e.value@),
                Some(p) => Some(S::add_v(p, e.value@)),
            }
        } else {
            prev
        }
    }
}

/// The value of the last entry of `s` at `(r, c)`, if any.
pub open spec fn last_at<S: Semiring>(s: Seq<SparseEntry<S>>, r: usize, c: usize) -> Option<S::V>
    decreases s.len(),
{
    if s.len() == 0 {
        None
    } else if s.last().row == r && s.last().col == c {
        Some(s.last().value@)
    } else {
        last_at::<S>(s.drop_last(), r, c)
    }
}

/// Whether `s` is strictly increasing in row-major coordinate order.
pub open spec fn strictly_sorted<S>(s: Seq<SparseEntry<S>>) -> bool {
    forall|i: int, j: int|
        0 <= i < j < s.len() ==> key_lt(#[trigger] s[i].row, s[i].col, #[trigger] s[j].row, s[j].col)
}

/// Whether `out` is the canonical form of `s`: sorted, one entry per merged
/// coordinate whose merged value is not `zero`, holding that value.
pub open spec fn canonical_of<S: Semiring>(out: Seq<SparseEntry<S>>, s: Seq<SparseEntry<S>>) -> bool {
    &&& strictly_sorted(out)
    &&& forall|i: int|
        0 <= i < out.len() ==> merged::<S>(s, #[trigger] out[i].row, out[i].col) == Some(out[i].value@)
            && out[i].value@ != S::zero_v()
    &&& forall|r: usize, c: usize|
        (#[trigger] merged::<S>(s, r, c) matches Some(v) && v != S::zero_v()) ==> exists|i: int|
            0 <= i < out.len() && out[i].row == r && out[i].col == c
}

/// The non-zero cells of a row-major model among its first `k` cells, as
/// `(row, col, value)` in row-major order.
pub open spec fn nonzero_cells<S: Semiring>(cells: Seq<S::V>, cols: nat, k: nat) -> Seq<(usize, usize, S::V)>
    decreases k,
{
    if k == 0 {
        Seq::empty()
    } else {
        let prev = nonzero_cells::<S>(cells, cols, (k - 1) as nat);
        let idx = k - 1;
        if cells[idx] == S::zero_v() {
            prev
        } else {
            prev.push(((idx / (cols as int)) as usize, (idx % (cols as int)) as usize, cells[idx]))
        }
    }
}

/// The entries of `s` as `(row, col, value)` triples.
pub open spec fn triples<S: Semiring>(s: Seq<SparseEntry<S>>) -> Seq<(usize, usize, S::V)> {
    s.map_values(|e: SparseEntry<S>| (e.row, e.col, e.value@))
}

impl<S: Semiring> SparseMatrix<S> {
    /// Whether every entry lies inside the `rows x cols` shape.
    pub open spec fn in_range(&self) -> bool {
        forall|i: int|
            0 <= i < self.entries@.len() ==> #[trigger] self.entries@[i].row < self.rows && self.entries@[i].col
                < self.cols
    }

    /// The result of [`SparseMatrix::validate`].
    pub open spec fn validation(&self) -> Result<(), AlgebraError> {
        if self.rows * self.cols > usize::MAX {
            Err(AlgebraError::DimensionOverflow { rows: self.rows, cols: self.cols })
        } else if exists|i: int|
            0 <= i < self.entries@.len() && (#[trigger] self.entries@[i].row >= self.rows
                || self.entries@[i].col >= self.cols) {
            let i = choose|i: int|
                0 <= i < self.entries@.len() && (#[trigger] self.entries@[i].row >= self.rows
                    || self.entries@[i].col >= self.cols) && forall|k: int|
                    0 <= k < i ==> #[trigger] self.entries@[k].row < self.rows && self.entries@[k].col
                        < self.cols;
            Err(
                AlgebraError::IndexOutOfBounds {
                    index: sat_index(self.entries@[i].row, self.cols, self.entries@[i].col),
                    len: (self.rows * self.cols) as usize,
                },
            )
        } else {
            Ok(())
        }
    }

    /// An empty `rows x cols` sparse matrix.
    pub fn new(rows: usize, cols: usize) -> (r: Self)
        ensures
            r.rows == rows,
            r.cols == cols,
            r.entries@.len() == 0,
    {
        SparseMatrix { rows, cols, entries: Vec::new() }
    }

    /// Checked empty `rows x cols` sparse matrix.
    pub fn try_new(rows: usize, cols: usize) -> (r: Result<Self, AlgebraError>)
        ensures
            match r {
                Ok(m) => rows * cols <= usize::MAX && m.rows == rows && m.cols == cols && m.entries@.len() == 0,
                Err(e) => rows * cols > usize::MAX && e == (AlgebraError::DimensionOverflow { rows, cols }),
            },
    {
        let m = SparseMatrix { rows, cols, entries: Vec::new() };
        m.validate()?;
        Ok(m)
    }

    /// Number of sparse matrix rows.
    pub fn row_count(&self) -> (r: usize)
        ensures
            r == self.rows,
    {
        self.rows
    }

    /// Number of sparse matrix columns.
    pub fn col_count(&self) -> (r: usize)
        ensures
            r == self.cols,
    {
        self.cols
    }

    /// Read-only sparse entries.
    pub fn entries(&self) -> (r: &[SparseEntry<S>])
        ensures
            r@ == self.entries@,
    {
        self.entries.as_slice()
    }

    /// Validate public sparse dimensions and entry coordinates.
    pub fn validate(&self) -> (r: Result<(), AlgebraError>)
        ensures
            r == self.validation(),
            r is Ok <==> (self.rows * self.cols <= usize::MAX && self.in_range()),
    {
        let len = match self.rows.checked_mul(self.cols) {
            Some(l) => l,
            None => {
                return Err(AlgebraError::DimensionOverflow { rows: self.rows, cols: self.cols });
            },
        };
        let mut i: usize = 0;
        while i < self.entries.len()
            invariant
                len == self.rows * self.cols,
                self.rows * self.cols <= usize::MAX,
                i <= self.entries@.len(),
                forall|k: int|
                    0 <= k < i ==> #[trigger] self.entries@[k].row < self.rows && self.entries@[k].col
                        < self.cols,
            decreases self.entries@.len() - i,
        {
            let e = &self.entries[i];
            if e.row >= self.rows || e.col >= self.cols {
                let ghost j = choose|j: int|
                    0 <= j < self.entries@.len() && (#[trigger] self.entries@[j].row >= self.rows
                        || self.entries@[j].col >= self.cols) && forall|k: int|
                        0 <= k < j ==> #[trigger] self.entries@[k].row < self.rows && self.entries@[k].col
                            < self.cols;
                proof {
                    assert(self.entries@[i as int].row >= self.rows || self.entries@[i as int].col >= self.cols);
                    if j < i {
                        assert(self.entries@[j].row < self.rows && self.entries@[j].col < self.cols);
                    } else if j > i {
                        assert(self.entries@[i as int].row < self.rows && self.entries@[i as int].col < self.cols);
                    }
                }
                return Err(
                    AlgebraError::IndexOutOfBounds {
                        index: saturated_index(e.row, self.cols, e.col),
                        len,
                    },
                );
            }
            i += 1;
        }
        assert(self.in_range());
        Ok(())
    }


    /// Build from entries, rejecting any whose coordinates are out of range,
    /// then canonicalize.
    pub fn from_entries(rows: usize, cols: usize, entries: Vec<SparseEntry<S>>) -> (r: Result<Self, AlgebraError>)
        ensures
            ({
                let probe = SparseMatrix::<S> { rows, cols, entries };
                match r {
                    Ok(m) => probe.validation() is Ok && m.rows == rows && m.cols == cols && canonical_of::<S>(
                        m.entries@,
                        entries@,
                    ),
                    Err(e) => probe.validation() == Err::<(), AlgebraError>(e),
                }
            }),
    {
        let mut m = SparseMatrix { rows, cols, entries };
        m.validate()?;
        m.canonicalize();
        Ok(m)
    }

    /// Densify, filling absent positions with the semiring `zero`; where several
    /// entries share a coordinate the last one wins.
    pub fn to_dense(&self) -> (r: Result<Matrix<S>, AlgebraError>)
        ensures
            match r {
                Ok(m) => self.validation() is Ok && m.rows == self.rows && m.cols == self.cols && m.wf()
                    && forall|i: int, j: int|
                    0 <= i < self.rows && 0 <= j < self.cols ==> #[trigger] m.entry(i, j) == match last_at::<S>(
                        self.entries@,
                        i as usize,
                        j as usize,
                    ) {
                        Some(v) => v,
                        None => S::zero_v(),
                    },
                Err(e) => self.validation() == Err::<(), AlgebraError>(e),
            },
    {
        self.validate()?;
        let mut m: Matrix<S> = Matrix::new(self.rows, self.cols);
        let rows = self.rows;
        let cols = self.cols;
        assert forall|a: int, b: int| 0 <= a < rows && 0 <= b < cols implies #[trigger] m.entry(a, b)
            == match last_at::<S>(self.entries@.subrange(0, 0), a as usize, b as usize) {
            Some(v) => v,
            None => S::zero_v(),
        } by {
            lemma_cell_index(a, b, rows as int, cols as int);
        }
        let mut k: usize = 0;
        while k < self.entries.len()
            invariant
                rows == self.rows,
                cols == self.cols,
                rows * cols <= usize::MAX,
                self.in_range(),
                k <= self.entries@.len(),
                m.rows == rows,
                m.cols == cols,
                m.wf(),
                forall|a: int, b: int|
                    0 <= a < rows && 0 <= b < cols ==> #[trigger] m.entry(a, b) == match last_at::<S>(
                        self.entries@.subrange(0, k as int),
                        a as usize,
                        b as usize,
                    ) {
                        Some(v) => v,
                        None => S::zero_v(),
                    },
            decreases self.entries@.len() - k,
        {
            let e = &self.entries[k];
            proof {
                lemma_cell_index(e.row as int, e.col as int, rows as int, cols as int);
            }
            let ghost mb = m;
            let ghost pre = self.entries@.subrange(0, k as int);
            let ghost post = self.entries@.subrange(0, k + 1);
            m.data.set(e.row * cols + e.col, e.value.duplicate());
            proof {
                assert(post.drop_last() =~= pre);
                assert forall|a: int, b: int| 0 <= a < rows && 0 <= b < cols implies #[trigger] m.entry(a, b)
                    == match last_at::<S>(post, a as usize, b as usize) {
                    Some(v) => v,
                    None => S::zero_v(),
                } by {
                    lemma_cell_index(a, b, rows as int, cols as int);
                    lemma_cell_div_mod(a, b, cols as int);
                    lemma_cell_div_mod(e.row as int, e.col as int, cols as int);
                    assert(mb.entry(a, b) == match last_at::<S>(pre, a as usize, b as usize) {
                        Some(v) => v,
                        None => S::zero_v(),
                    });
                    if a * cols + b != e.row * cols + e.col {
                        assert(m.data@[a * cols + b] == mb.data@[a * cols + b]);
                    }
                }
            }
            k += 1;
        }
        proof {
            assert(self.entries@.subrange(0, self.entries@.len() as int) =~= self.entries@);
        }
        Ok(m)
    }

    /// Build a sparse matrix from a dense one, keeping its non-`zero` cells in
    /// row-major order.
    pub fn from_dense_nonzero(dense: &Matrix<S>) -> (r: Result<Self, AlgebraError>)
        ensures
            match r {
                Ok(m) => dense.validation() is Ok && m.rows == dense.rows && m.cols == dense.cols
                    && triples::<S>(m.entries@) == nonzero_cells::<S>(
                    dense.cells(),
                    dense.cols as nat,
                    (dense.rows * dense.cols) as nat,
                ),
                Err(e) => dense.validation() == Err::<(), AlgebraError>(e),
            },
    {
        dense.validate()?;
        let rows = dense.rows;
        let cols = dense.cols;
        let ghost cells = dense.cells();
        let mut entries: Vec<SparseEntry<S>> = Vec::new();
        let mut r: usize = 0;
        while r < rows
            invariant
                rows == dense.rows,
                cols == dense.cols,
                dense.wf(),
                rows * cols <= usize::MAX,
                cells == dense.cells(),
                r <= rows,
                triples::<S>(entries@) == nonzero_cells::<S>(cells, cols as nat, (r * cols) as nat),
            decreases rows - r,
        {
            let mut c: usize = 0;
            while c < cols
                invariant
                    rows == dense.rows,
                    cols == dense.cols,
                    dense.wf(),
                    rows * cols <= usize::MAX,
                    cells == dense.cells(),
                    r < rows,
                    c <= cols,
                    triples::<S>(entries@) == nonzero_cells::<S>(cells, cols as nat, (r * cols + c) as nat),
                decreases cols - c,
            {
                proof {
                    lemma_cell_index(r as int, c as int, rows as int, cols as int);
                    lemma_cell_div_mod(r as int, c as int, cols as int);
                }
                let idx = r * cols + c;
                let v = &dense.data[idx];
                let ghost before = entries@;
                if !v.is_zero() {
                    entries.push(SparseEntry { row: r, col: c, value: v.duplicate() });
                    proof {
                        assert(triples::<S>(entries@) =~= triples::<S>(before).push((r, c, v@)));
                    }
                }
                proof {
                    assert(cells[idx as int] == v@);
                    assert((r * cols + c + 1) as nat - 1 == idx);
                }
                c += 1;
            }
            proof {
                assert((r + 1) * cols == r * cols + cols) by (nonlinear_arith);
            }
            r += 1;
        }
        Ok(SparseMatrix { rows, cols, entries })
    }

    /// Sort entries by `(row, col)`, merge duplicates by semiring `add` (in
    /// entry order), and drop entries equal to `zero`.
    #[verifier::rlimit(60)]
    pub fn canonicalize(&mut self)
        ensures
            final(self).rows == old(self).rows,
            final(self).cols == old(self).cols,
            canonical_of::<S>(final(self).entries@, old(self).entries@),
    {
        let ghost s = self.entries@;
        let mut acc: Vec<SparseEntry<S>> = Vec::new();
        let mut n: usize = 0;
        while n < self.entries.len()
            invariant
                s == self.entries@,
                n <= s.len(),
                strictly_sorted(acc@),
                forall|i: int|
                    0 <= i < acc@.len() ==> merged::<S>(s.subrange(0, n as int), #[trigger] acc@[i].row, acc@[i].col)
                        == Some(acc@[i].value@),
                forall|r: usize, c: usize|
                    (#[trigger] merged::<S>(s.subrange(0, n as int), r, c) is Some) ==> exists|i: int|
                        0 <= i < acc@.len() && acc@[i].row == r && acc@[i].col == c,
            decreases s.len() - n,
        {
            let e = &self.entries[n];
            let ghost pre = s.subrange(0, n as int);
            let ghost post = s.subrange(0, n + 1);
            proof {
                assert(post.drop_last() =~= pre);
                assert(post.last() == s[n as int]);
            }
            // Find the first stored coordinate not before `e`.
            let mut pos: usize = 0;
            while pos < acc.len() && key_lt_exec(acc[pos].row, acc[pos].col, e.row, e.col)
                invariant
                    pos <= acc@.len(),
                    forall|k: int| 0 <= k < pos ==> key_lt(#[trigger] acc@[k].row, acc@[k].col, e.row, e.col),
                decreases acc@.len() - pos,
            {
                pos += 1;
            }
            let ghost before = acc@;
            if pos < acc.len() && acc[pos].row == e.row && acc[pos].col == e.col {
                let v = acc[pos].value.add(&e.value);
                let entry = SparseEntry { row: e.row, col: e.col, value: v };
                acc.set(pos, entry);
                proof {
                    assert forall|i: int| 0 <= i < acc@.len() implies merged::<S>(post, #[trigger] acc@[i].row, acc@[i].col)
                        == Some(acc@[i].value@) by {
                        if i != pos {
                            assert(acc@[i] == before[i]);
                            assert(merged::<S>(pre, before[i].row, before[i].col) == Some(before[i].value@));
                            assert(!(before[i].row == e.row && before[i].col == e.col)) by {
                                if i < pos {
                                    assert(key_lt(before[i].row, before[i].col, before[pos as int].row, before[pos as int].col));
                                } else {
                                    assert(key_lt(before[pos as int].row, before[pos as int].col, before[i].row, before[i].col));
                                }
                            }
                        } else {
                            assert(merged::<S>(pre, before[i].row, before[i].col) == Some(before[i].value@));
                        }
                    }
                    assert forall|r: usize, c: usize| (#[trigger] merged::<S>(post, r, c) is Some) implies exists|i: int|
                        0 <= i < acc@.len() && acc@[i].row == r && acc@[i].col == c by {
                        if r == e.row && c == e.col {
                            assert(acc@[pos as int].row == r && acc@[pos as int].col == c);
                        } else {
                            assert(merged::<S>(pre, r, c) is Some);
                            let i = choose|i: int| 0 <= i < before.len() && before[i].row == r && before[i].col == c;
                            assert(acc@[i].row == r && acc@[i].col == c);
                        }
                    }
                }
            } else {
                proof {
                    assert(merged::<S>(pre, e.row, e.col) is None) by {
                        if merged::<S>(pre, e.row, e.col) is Some {
                            let i = choose|i: int| 0 <= i < before.len() && before[i].row == e.row && before[i].col == e.col;
                            if i < pos {
                                assert(key_lt(before[i].row, before[i].col, e.row, e.col));
                            } else if i > pos {
                                assert(key_lt(before[pos as int].row, before[pos as int].col, before[i].row, before[i].col));
                            }
                        }
                    }
                }
                let entry = SparseEntry { row: e.row, col: e.col, value: e.value.duplicate() };
                acc.insert(pos, entry);
                proof {
                    assert forall|i: int, j: int| 0 <= i < j < acc@.len() implies key_lt(#[trigger] acc@[i].row, acc@[i].col, #[trigger] acc@[j].row, acc@[j].col) by {
                        if j < pos {
                            assert(acc@[i] == before[i] && acc@[j] == before[j]);
                        } else if j == pos {
                            assert(acc@[i] == before[i]);
                        } else if i < pos {
                            assert(acc@[i] == before[i] && acc@[j] == before[j - 1]);
                            assert(!key_lt(before[pos as int].row, before[pos as int].col, e.row, e.col));
                            if j - 1 > pos {
                                assert(key_lt(before[pos as int].row, before[pos as int].col, before[j - 1].row, before[j - 1].col));
                            }
                        } else if i == pos {
                            assert(acc@[j] == before[j - 1]);
                            assert(!key_lt(before[pos as int].row, before[pos as int].col, e.row, e.col));
                            if j - 1 > pos {
                                assert(key_lt(before[pos as int].row, before[pos as int].col, before[j - 1].row, before[j - 1].col));
                            }
                        } else {
                            assert(acc@[i] == before[i - 1] && acc@[j] == before[j - 1]);
                        }
                    }
                    assert forall|i: int| 0 <= i < acc@.len() implies merged::<S>(post, #[trigger] acc@[i].row, acc@[i].col)
                        == Some(acc@[i].value@) by {
                        if i != pos {
                            let bi = if i < pos { i } else { i - 1 };
                            assert(acc@[i] == before[bi]);
                            assert(merged::<S>(pre, before[bi].row, before[bi].col) == Some(before[bi].value@));
                        }
                    }
                    assert forall|r: usize, c: usize| (#[trigger] merged::<S>(post, r, c) is Some) implies exists|i: int|
                        0 <= i < acc@.len() && acc@[i].row == r && acc@[i].col == c by {
                        if r == e.row && c == e.col {
                            assert(acc@[pos as int].row == r && acc@[pos as int].col == c);
                        } else {
                            assert(merged::<S>(pre, r, c) is Some);
                            let i = choose|i: int| 0 <= i < before.len() && before[i].row == r && before[i].col == c;
                            let ai = if i < pos { i } else { i + 1 };
                            assert(acc@[ai].row == r && acc@[ai].col == c);
                        }
                    }
                }
            }
            n += 1;
        }
        proof {
            assert(s.subrange(0, s.len() as int) =~= s);
        }
        // Drop the entries that merged to zero.
        let mut out: Vec<SparseEntry<S>> = Vec::new();
        let mut i: usize = 0;
        while i < acc.len()
            invariant
                i <= acc@.len(),
                strictly_sorted(acc@),
                forall|k: int| 0 <= k < acc@.len() ==> merged::<S>(s, #[trigger] acc@[k].row, acc@[k].col) == Some(acc@[k].value@),
                forall|r: usize, c: usize|
                    (#[trigger] merged::<S>(s, r, c) is Some) ==> exists|k: int|
                        0 <= k < acc@.len() && acc@[k].row == r && acc@[k].col == c,
                strictly_sorted(out@),
                forall|k: int|
                    0 <= k < out@.len() ==> merged::<S>(s, #[trigger] out@[k].row, out@[k].col) == Some(out@[k].value@)
                        && out@[k].value@ != S::zero_v(),
                forall|k: int, j: int|
                    0 <= k < out@.len() && i <= j < acc@.len() ==> key_lt(#[trigger] out@[k].row, out@[k].col, #[trigger] acc@[j].row, acc@[j].col),
                forall|m: int|
                    0 <= m < i && #[trigger] acc@[m].value@ != S::zero_v() ==> exists|k: int|
                        0 <= k < out@.len() && out@[k].row == acc@[m].row && out@[k].col == acc@[m].col,
            decreases acc@.len() - i,
        {
            if !acc[i].value.is_zero() {
                let ghost before = out@;
                let entry = SparseEntry { row: acc[i].row, col: acc[i].col, value: acc[i].value.duplicate() };
                out.push(entry);
                proof {
                    assert forall|a: int, b: int| 0 <= a < b < out@.len() implies key_lt(#[trigger] out@[a].row, out@[a].col, #[trigger] out@[b].row, out@[b].col) by {
                        if b == out@.len() - 1 {
                            assert(out@[a] == before[a]);
                        } else {
                            assert(out@[a] == before[a] && out@[b] == before[b]);
                        }
                    }
                    assert forall|m: int|
                        0 <= m < i + 1 && #[trigger] acc@[m].value@ != S::zero_v() implies exists|k: int|
                        0 <= k < out@.len() && out@[k].row == acc@[m].row && out@[k].col == acc@[m].col by {
                        if m < i {
                            let k = choose|k: int| 0 <= k < before.len() && before[k].row == acc@[m].row && before[k].col == acc@[m].col;
                            assert(out@[k] == before[k]);
                        } else {
                            assert(out@[out@.len() - 1].row == acc@[m].row);
                        }
                    }
                    assert forall|k: int, j: int|
                        0 <= k < out@.len() && i + 1 <= j < acc@.len() implies key_lt(#[trigger] out@[k].row, out@[k].col, #[trigger] acc@[j].row, acc@[j].col) by {
                        if k < before.len() {
                            assert(out@[k] == before[k]);
                        }
                    }
                }
            }
            i += 1;
        }
        self.entries = out;
    }
}

/// Row-major coordinate order, executable.
fn key_lt_exec(r1: usize, c1: usize, r2: usize, c2: usize) -> (b: bool)
    ensures
        b == key_lt(r1, c1, r2, c2),
{
    r1 < r2 || (r1 == r2 && c1 < c2)
}

/// The row-major position of entry `e` in a matrix with `cols` columns.
pub open spec fn linear_at<S>(e: SparseEntry<S>, cols: usize) -> int {
    e.row * cols + e.col
}

/// Row-major coordinate order on in-range entries is order of position.
proof fn lemma_key_lt_linear(r1: usize, c1: usize, r2: usize, c2: usize, cols: usize)
    requires
        key_lt(r1, c1, r2, c2),
        c1 < cols,
        c2 < cols,
    ensures
        r1 * cols + c1 < r2 * cols + c2,
{
    if r1 < r2 {
        assert(r1 * cols + cols <= r2 * cols) by (nonlinear_arith)
            requires
                r1 < r2,
        ;
    }
}

/// In a strictly sorted list the last entry at a coordinate is the only one.
proof fn lemma_last_at_sorted<S: Semiring>(s: Seq<SparseEntry<S>>, r: usize, c: usize)
    requires
        strictly_sorted(s),
    ensures
        (exists|i: int| 0 <= i < s.len() && s[i].row == r && s[i].col == c) ==> (forall|i: int|
            0 <= i < s.len() && #[trigger] s[i].row == r && s[i].col == c ==> last_at::<S>(s, r, c) == Some(
                s[i].value@,
            )),
        !(exists|i: int| 0 <= i < s.len() && s[i].row == r && s[i].col == c) ==> last_at::<S>(s, r, c) is None,
    decreases s.len(),
{
    if s.len() > 0 {
        let t = s.drop_last();
        assert(strictly_sorted(t)) by {
            assert forall|i: int, j: int| 0 <= i < j < t.len() implies key_lt(#[trigger] t[i].row, t[i].col, #[trigger] t[j].row, t[j].col) by {
                assert(t[i] == s[i] && t[j] == s[j]);
            }
        }
        lemma_last_at_sorted::<S>(t, r, c);
        assert forall|i: int| 0 <= i < s.len() && #[trigger] s[i].row == r && s[i].col == c implies last_at::<S>(s, r, c) == Some(s[i].value@) by {
            if i < s.len() - 1 {
                assert(key_lt(s[i].row, s[i].col, s[s.len() - 1].row, s[s.len() - 1].col));
                assert(t[i] == s[i]);
            }
        }
        if !(exists|i: int| 0 <= i < s.len() && s[i].row == r && s[i].col == c) {
            if exists|i: int| 0 <= i < t.len() && t[i].row == r && t[i].col == c {
                let i = choose|i: int| 0 <= i < t.len() && t[i].row == r && t[i].col == c;
                assert(s[i] == t[i]);
            }
            assert(!(s[s.len() - 1].row == r && s[s.len() - 1].col == c));
        }
    }
}

/// The non-zero cells among the first `k` of a densified canonical sparse
/// matrix are its entries before row-major position `k`.
proof fn lemma_dense_prefix<S: Semiring>(m: SparseMatrix<S>, d: Matrix<S>, k: nat) -> (p: nat)
    requires
        m.validation() is Ok,
        strictly_sorted(m.entries@),
        d.rows == m.rows,
        d.cols == m.cols,
        d.wf(),
        forall|i: int, j: int|
            0 <= i < m.rows && 0 <= j < m.cols ==> #[trigger] d.entry(i, j) == match last_at::<S>(
                m.entries@,
                i as usize,
                j as usize,
            ) {
                Some(v) => v,
                None => S::zero_v(),
            },
        forall|i: int| 0 <= i < m.entries@.len() ==> #[trigger] m.entries@[i].value@ != S::zero_v(),
        k <= m.rows * m.cols,
    ensures
        p <= m.entries@.len(),
        forall|i: int| 0 <= i < p ==> #[trigger] linear_at(m.entries@[i], m.cols) < k,
        forall|i: int| p <= i < m.entries@.len() ==> #[trigger] linear_at(m.entries@[i], m.cols) >= k,
        nonzero_cells::<S>(d.cells(), d.cols as nat, k) == triples::<S>(m.entries@.take(p as int)),
    decreases k,
{
    let es = m.entries@;
    let cols = m.cols;
    assert(m.in_range());
    if k == 0 {
        assert(triples::<S>(es.take(0)) =~= Seq::empty());
        0
    } else {
        let p0 = lemma_dense_prefix(m, d, (k - 1) as nat);
        let idx = k - 1;
        lemma_split_index(idx, m.rows as int, cols as int);
        let i = idx / (cols as int);
        let j = idx % (cols as int);
        assert(d.cells()[idx] == d.entry(i, j));
        lemma_last_at_sorted::<S>(es, i as usize, j as usize);
        if p0 < es.len() && linear_at(es[p0 as int], cols) == idx {
            let e = es[p0 as int];
            lemma_cell_div_mod(e.row as int, e.col as int, cols as int);
            assert(e.row == i && e.col == j);
            assert forall|t: int| p0 + 1 <= t < es.len() implies #[trigger] linear_at(es[t], cols) >= k by {
                lemma_key_lt_linear(e.row, e.col, es[t].row, es[t].col, cols);
            }
            assert(triples::<S>(es.take(p0 + 1 as int)) =~= triples::<S>(es.take(p0 as int)).push((e.row, e.col, e.value@)));
            (p0 + 1) as nat
        } else {
            assert forall|t: int| p0 <= t < es.len() implies #[trigger] linear_at(es[t], cols) >= k by {
                if t > p0 {
                    lemma_key_lt_linear(es[p0 as int].row, es[p0 as int].col, es[t].row, es[t].col, cols);
                }
            }
            assert forall|t: int| 0 <= t < es.len() implies !(es[t].row == i && es[t].col == j) by {
                if es[t].row == i && es[t].col == j {
                    assert(linear_at(es[t], cols) == idx);
                }
            }
            p0
        }
    }
}

/// Densifying a canonical sparse matrix (entries strictly increasing in
/// `(row, col)`, none `zero`) and reading back its non-`zero` cells in
/// row-major order gives back its entries: `from_dense_nonzero` undoes
/// `to_dense` on canonical input.
pub proof fn lemma_sparse_dense_round_trip<S: Semiring>(m: SparseMatrix<S>, d: Matrix<S>)
    requires
        m.validation() is Ok,
        strictly_sorted(m.entries@),
        forall|i: int| 0 <= i < m.entries@.len() ==> #[trigger] m.entries@[i].value@ != S::zero_v(),
        d.rows == m.rows,
        d.cols == m.cols,
        d.wf(),
        forall|i: int, j: int|
            0 <= i < m.rows && 0 <= j < m.cols ==> #[trigger] d.entry(i, j) == match last_at::<S>(
                m.entries@,
                i as usize,
                j as usize,
            ) {
                Some(v) => v,
                None => S::zero_v(),
            },
    ensures
        d.validation() is Ok,
        triples::<S>(m.entries@) == nonzero_cells::<S>(d.cells(), d.cols as nat, (d.rows * d.cols) as nat),
{
    let es = m.entries@;
    assert(m.in_range());
    let p = lemma_dense_prefix(m, d, (m.rows * m.cols) as nat);
    if p < es.len() {
        lemma_cell_index(es[p as int].row as int, es[p as int].col as int, m.rows as int, m.cols as int);
        assert(linear_at(es[p as int], m.cols) >= m.rows * m.cols);
    }
    assert(es.take(p as int) =~= es);
}

/// The shape of a list of non-zero cells of an `rows x cols` model read up
/// to position `k`: each triple is an in-range, non-zero cell before `k`, in
/// strictly increasing row-major position, and every non-zero cell before
/// `k` is listed.
pub open spec fn nonzero_shape<S: Semiring>(nz: Seq<(usize, usize, S::V)>, cells: Seq<S::V>, rows: nat, cols: nat, k: nat) -> bool {
    &&& forall|t: int|
        0 <= t < nz.len() ==> (#[trigger] nz[t]).0 < rows && nz[t].1 < cols && nz[t].0 * cols + nz[t].1 < k
            && cells[nz[t].0 * cols + nz[t].1] == nz[t].2 && nz[t].2 != S::zero_v()
    &&& forall|t1: int, t2: int|
        0 <= t1 < t2 < nz.len() ==> (#[trigger] nz[t1]).0 * cols + nz[t1].1 < (#[trigger] nz[t2]).0 * cols
            + nz[t2].1
    &&& forall|idx: int|
        0 <= idx < k && #[trigger] cells[idx] != S::zero_v() ==> exists|t: int|
            0 <= t < nz.len() && (#[trigger] nz[t]).0 * cols + nz[t].1 == idx
}

/// The non-zero cells of a model, read in row-major order, have that shape.
proof fn lemma_nonzero_cells_shape<S: Semiring>(cells: Seq<S::V>, rows: nat, cols: nat, k: nat)
    requires
        k <= rows * cols,
        rows * cols <= usize::MAX,
    ensures
        nonzero_shape::<S>(nonzero_cells::<S>(cells, cols, k), cells, rows, cols, k),
    decreases k,
{
    if k > 0 {
        lemma_nonzero_cells_shape::<S>(cells, rows, cols, (k - 1) as nat);
        let prev = nonzero_cells::<S>(cells, cols, (k - 1) as nat);
        let nz = nonzero_cells::<S>(cells, cols, k);
        let idx = k - 1;
        lemma_split_index(idx, rows as int, cols as int);
        let i = idx / (cols as int);
        let j = idx % (cols as int);
        assert(i <= rows * cols) by (nonlinear_arith)
            requires
                0 <= i < rows,
                cols > 0,
        ;
        if cells[idx] != S::zero_v() {
            assert(nz == prev.push((i as usize, j as usize, cells[idx])));
            assert forall|t: int| 0 <= t < nz.len() implies (#[trigger] nz[t]).0 < rows && nz[t].1 < cols
                && nz[t].0 * cols + nz[t].1 < k && cells[nz[t].0 * cols + nz[t].1] == nz[t].2 && nz[t].2
                != S::zero_v() by {
                if t < prev.len() {
                    assert(nz[t] == prev[t]);
                }
            }
            assert forall|t1: int, t2: int| 0 <= t1 < t2 < nz.len() implies (#[trigger] nz[t1]).0 * cols
                + nz[t1].1 < (#[trigger] nz[t2]).0 * cols + nz[t2].1 by {
                assert(nz[t1] == prev[t1]);
                if t2 < prev.len() {
                    assert(nz[t2] == prev[t2]);
                }
            }
            assert forall|x: int| 0 <= x < k && #[trigger] cells[x] != S::zero_v() implies exists|t: int|
                0 <= t < nz.len() && (#[trigger] nz[t]).0 * cols + nz[t].1 == x by {
                if x < idx {
                    let t = choose|t: int| 0 <= t < prev.len() && (#[trigger] prev[t]).0 * cols + prev[t].1 == x;
                    assert(nz[t] == prev[t]);
                } else {
                    assert(nz[nz.len() - 1].0 * cols + nz[nz.len() - 1].1 == x);
                }
            }
        } else {
            assert(nz == prev);
        }
    }
}

/// Reading back the non-`zero` cells of a dense matrix in row-major order
/// gives a canonical sparse matrix (entries strictly increasing in
/// `(row, col)`, none `zero`, all in range) whose densified cells are the
/// dense matrix's: `to_dense` undoes `from_dense_nonzero`.
pub proof fn lemma_dense_sparse_round_trip<S: Semiring>(d: Matrix<S>, s: SparseMatrix<S>)
    requires
        d.validation() is Ok,
        s.rows == d.rows,
        s.cols == d.cols,
        triples::<S>(s.entries@) == nonzero_cells::<S>(d.cells(), d.cols as nat, (d.rows * d.cols) as nat),
    ensures
        s.validation() is Ok,
        strictly_sorted(s.entries@),
        forall|i: int| 0 <= i < s.entries@.len() ==> #[trigger] s.entries@[i].value@ != S::zero_v(),
        forall|i: int, j: int|
            0 <= i < d.rows && 0 <= j < d.cols ==> (match last_at::<S>(s.entries@, i as usize, j as usize) {
                Some(v) => v,
                None => S::zero_v(),
            }) == #[trigger] d.entry(i, j),
{
    let rows = d.rows as nat;
    let cols = d.cols as nat;
    let es = s.entries@;
    let nz = nonzero_cells::<S>(d.cells(), cols, rows * cols);
    lemma_nonzero_cells_shape::<S>(d.cells(), rows, cols, rows * cols);
    assert forall|t: int| 0 <= t < es.len() implies #[trigger] es[t].row < rows && es[t].col < cols
        && es[t].value@ != S::zero_v() && (es[t].row, es[t].col, es[t].value@) == nz[t] by {
        assert(triples::<S>(es)[t] == nz[t]);
    }
    assert(s.in_range());
    assert forall|i: int| 0 <= i < es.len() implies #[trigger] es[i].value@ != S::zero_v() by {
        assert(es[i].row < rows);
    }
    assert(strictly_sorted(es)) by {
        assert forall|i: int, j: int| 0 <= i < j < es.len() implies key_lt(#[trigger] es[i].row, es[i].col, #[trigger] es[j].row, es[j].col) by {
            assert(nz[i].0 * cols + nz[i].1 < nz[j].0 * cols + nz[j].1);
            if es[j].row < es[i].row {
                lemma_key_lt_linear(es[j].row, es[j].col, es[i].row, es[i].col, d.cols);
            } else if es[j].row == es[i].row && es[j].col <= es[i].col {
            }
        }
    }
    assert forall|i: int, j: int| 0 <= i < d.rows && 0 <= j < d.cols implies (match last_at::<S>(es, i as usize, j as usize) {
        Some(v) => v,
        None => S::zero_v(),
    }) == #[trigger] d.entry(i, j) by {
        lemma_cell_index(i, j, rows as int, cols as int);
        let idx = i * cols + j;
        assert(d.entry(i, j) == d.cells()[idx]);
        lemma_last_at_sorted::<S>(es, i as usize, j as usize);
        if exists|t: int| 0 <= t < es.len() && es[t].row == i && es[t].col == j {
            let t = choose|t: int| 0 <= t < es.len() && es[t].row == i && es[t].col == j;
            assert(nz[t].0 == i && nz[t].1 == j);
        } else if d.cells()[idx] != S::zero_v() {
            let t = choose|t: int| 0 <= t < nz.len() && (#[trigger] nz[t]).0 * cols + nz[t].1 == idx;
            lemma_cell_div_mod(nz[t].0 as int, nz[t].1 as int, cols as int);
            lemma_cell_div_mod(i, j, cols as int);
            assert(es[t].row == i && es[t].col == j);
        }
    }
}

/// In a strictly sorted list, merging at a coordinate gives the value of
/// the one entry there, or `None` when there is none.
proof fn lemma_merged_sorted<S: Semiring>(s: Seq<SparseEntry<S>>, r: usize, c: usize)
    requires
        strictly_sorted(s),
    ensures
        forall|i: int| 0 <= i < s.len() && #[trigger] s[i].row == r && s[i].col == c ==> merged::<S>(s, r, c) == Some(
            s[i].value@,
        ),
        !(exists|i: int| 0 <= i < s.len() && s[i].row == r && s[i].col == c) ==> merged::<S>(s, r, c) is None,
    decreases s.len(),
{
    if s.len() > 0 {
        let t = s.drop_last();
        assert(strictly_sorted(t)) by {
            assert forall|i: int, j: int| 0 <= i < j < t.len() implies key_lt(#[trigger] t[i].row, t[i].col, #[trigger] t[j].row, t[j].col) by {
                assert(t[i] == s[i] && t[j] == s[j]);
            }
        }
        lemma_merged_sorted::<S>(t, r, c);
        let l = s.len() - 1;
        if s[l].row == r && s[l].col == c {
            assert forall|i: int| 0 <= i < t.len() implies !(#[trigger] t[i].row == r && t[i].col == c) by {
                assert(t[i] == s[i]);
                assert(key_lt(s[i].row, s[i].col, s[l].row, s[l].col));
            }
        }
        assert forall|i: int| 0 <= i < s.len() && #[trigger] s[i].row == r && s[i].col == c implies merged::<S>(s, r, c) == Some(s[i].value@) by {
            if i < l {
                assert(key_lt(s[i].row, s[i].col, s[l].row, s[l].col));
                assert(t[i] == s[i]);
            }
        }
        if !(exists|i: int| 0 <= i < s.len() && s[i].row == r && s[i].col == c) {
            if exists|i: int| 0 <= i < t.len() && t[i].row == r && t[i].col == c {
                let i = choose|i: int| 0 <= i < t.len() && t[i].row == r && t[i].col == c;
                assert(s[i] == t[i]);
            }
            assert(!(s[l].row == r && s[l].col == c));
        }
    }
}

/// Some entry of `s` sits at `(r, c)`.
pub open spec fn has_key<S>(s: Seq<SparseEntry<S>>, r: usize, c: usize) -> bool {
    exists|j: int| 0 <= j < s.len() && s[j].row == r && s[j].col == c
}

/// Two strictly sorted lists holding the same coordinates hold them at the
/// same positions, up to `k`.
proof fn lemma_same_keys_aligned<S>(a: Seq<SparseEntry<S>>, b: Seq<SparseEntry<S>>, k: nat)
    requires
        strictly_sorted(a),
        strictly_sorted(b),
        forall|i: int| 0 <= i < a.len() ==> has_key(b, (#[trigger] a[i]).row, a[i].col),
        forall|j: int| 0 <= j < b.len() ==> has_key(a, (#[trigger] b[j]).row, b[j].col),
        k <= a.len(),
        k <= b.len(),
    ensures
        forall|i: int| 0 <= i < k ==> #[trigger] a[i].row == b[i].row && a[i].col == b[i].col,
    decreases k,
{
    if k > 0 {
        let m = k - 1;
        lemma_same_keys_aligned(a, b, m as nat);
        let am = a[m];
        let bm = b[m];
        assert(has_key(b, am.row, am.col));
        assert(has_key(a, bm.row, bm.col));
        let j = choose|j: int| 0 <= j < b.len() && b[j].row == am.row && b[j].col == am.col;
        let i = choose|i: int| 0 <= i < a.len() && a[i].row == bm.row && a[i].col == bm.col;
        if j < m {
            let aj = a[j];
            assert(aj.row == b[j].row && aj.col == b[j].col);
            assert(key_lt(aj.row, aj.col, am.row, am.col));
        }
        if i < m {
            let bi = b[i];
            assert(a[i].row == bi.row && a[i].col == bi.col);
            assert(key_lt(bi.row, bi.col, bm.row, bm.col));
        }
        if j > m && i > m {
            let bj = b[j];
            let ai = a[i];
            assert(key_lt(bm.row, bm.col, bj.row, bj.col));
            assert(key_lt(am.row, am.col, ai.row, ai.col));
        }
    }
}

/// Canonicalizing twice changes nothing: the canonical form of a canonical
/// form holds the same entries, in the same order.
pub proof fn lemma_canonicalize_idempotent<S: Semiring>(
    s: Seq<SparseEntry<S>>,
    a: Seq<SparseEntry<S>>,
    b: Seq<SparseEntry<S>>,
)
    requires
        canonical_of::<S>(a, s),
        canonical_of::<S>(b, a),
    ensures
        triples::<S>(b) == triples::<S>(a),
{
    assert forall|t: int| 0 <= t < b.len() implies has_key(a, (#[trigger] b[t]).row, b[t].col) by {
        lemma_merged_sorted::<S>(a, b[t].row, b[t].col);
    }
    assert forall|i: int| 0 <= i < a.len() implies has_key(b, (#[trigger] a[i]).row, a[i].col) by {
        lemma_merged_sorted::<S>(a, a[i].row, a[i].col);
        assert(merged::<S>(a, a[i].row, a[i].col) == Some(a[i].value@));
        assert(a[i].value@ != S::zero_v());
    }
    let k = if a.len() <= b.len() { a.len() } else { b.len() };
    lemma_same_keys_aligned(a, b, k);
    if a.len() < b.len() {
        let t = a.len() as int;
        let bt = b[t];
        assert(has_key(a, bt.row, bt.col));
        let i = choose|i: int| 0 <= i < a.len() && a[i].row == bt.row && a[i].col == bt.col;
        let bi = b[i];
        assert(a[i].row == bi.row && a[i].col == bi.col);
        assert(key_lt(bi.row, bi.col, bt.row, bt.col));
    }
    if b.len() < a.len() {
        let i = b.len() as int;
        let ai = a[i];
        assert(has_key(b, ai.row, ai.col));
        let t = choose|t: int| 0 <= t < b.len() && b[t].row == ai.row && b[t].col == ai.col;
        let at = a[t];
        assert(at.row == b[t].row && at.col == b[t].col);
        assert(key_lt(at.row, at.col, ai.row, ai.col));
    }
    assert forall|t: int| 0 <= t < b.len() implies #[trigger] triples::<S>(b)[t] == triples::<S>(a)[t] by {
        lemma_merged_sorted::<S>(a, b[t].row, b[t].col);
    }
    assert(triples::<S>(b) =~= triples::<S>(a));
}

} // verus!
