//! Deterministic cookbook builder for the semiring-matrix recipe.

use crate::error::AlgebraError;
use crate::matrix::{dot, Matrix};
use crate::semiring::{Gf2, Semiring};
use vstd::prelude::*;

verus! {

/// Report produced by the semiring matrix cookbook recipe.
#[derive(Debug, PartialEq, Eq)]
pub struct SemiringMatrixDemo {
    /// Matrix dimensions as `(rows, cols)`.
    pub dimensions: (usize, usize),
    /// Input matrix entries in row-major order.
    pub matrix: Vec<bool>,
    /// Result of multiplying the matrix by the semiring identity.
    pub identity_product: Vec<bool>,
    /// Result of multiplying the matrix by itself over GF(2).
    pub square: Vec<bool>,
}

/// The row-major bits of a GF(2) matrix.
pub fn bits(matrix: &Matrix<Gf2>) -> (r: Vec<bool>)
    ensures
        r@ == matrix.cells(),
{
    let mut out: Vec<bool> = Vec::new();
    let mut i: usize = 0;
    while i < matrix.data.len()
        invariant
            i <= matrix.data@.len(),
            out@ == matrix.cells().subrange(0, i as int),
        decreases matrix.data@.len() - i,
    {
        out.push(matrix.data[i].0);
        i += 1;
        assert(out@ =~= matrix.cells().subrange(0, i as int));
    }
    assert(out@ =~= matrix.cells());
    out
}

/// Build the semiring matrix report: the GF(2) matrix `[[1,0],[1,1]]`, its
/// product with the identity, and its square.
pub fn semiring_matrix_demo() -> (r: Result<SemiringMatrixDemo, AlgebraError>)
    ensures
        r matches Ok(d) && d.dimensions == (2usize, 2usize) && d.matrix@ == seq![true, false, true, true]
            && d.identity_product@ == seq![true, false, true, true] && d.square@ == seq![true, false, false, true],
{
    let mut row0: Vec<Gf2> = Vec::new();
    row0.push(Gf2(true));
    row0.push(Gf2(false));
    let mut row1: Vec<Gf2> = Vec::new();
    row1.push(Gf2(true));
    row1.push(Gf2(true));
    let mut rows: Vec<Vec<Gf2>> = Vec::new();
    rows.push(row0);
    rows.push(row1);
    let matrix = Matrix::from_rows(rows)?;
    let identity = Matrix::<Gf2>::identity(2);
    let identity_product = matrix.matmul(&identity)?;
    let square = matrix.matmul(&matrix)?;
    let m = bits(&matrix);
    let ip = bits(&identity_product);
    let sq = bits(&square);
    proof {
        lemma_demo_values(&matrix, &identity, &identity_product, &square);
    }
    Ok(
        SemiringMatrixDemo {
            dimensions: (matrix.rows, matrix.cols),
            matrix: m,
            identity_product: ip,
            square: sq,
        },
    )
}

/// The concrete values of the recipe's products.
proof fn lemma_demo_values(
    matrix: &Matrix<Gf2>,
    identity: &Matrix<Gf2>,
    identity_product: &Matrix<Gf2>,
    square: &Matrix<Gf2>,
)
    requires
        matrix.rows == 2 && matrix.cols == 2 && matrix.wf(),
        matrix.entry(0, 0) && !matrix.entry(0, 1) && matrix.entry(1, 0) && matrix.entry(1, 1),
        identity.rows == 2 && identity.cols == 2 && identity.wf(),
        forall|i: int, j: int| 0 <= i < 2 && 0 <= j < 2 ==> #[trigger] identity.entry(i, j) == (i == j),
        identity_product.rows == 2 && identity_product.cols == 2 && identity_product.wf(),
        forall|i: int, j: int|
            0 <= i < 2 && 0 <= j < 2 ==> #[trigger] identity_product.entry(i, j) == dot::<Gf2>(
                matrix.cells(),
                2,
                identity.cells(),
                2,
                i,
                j,
                2,
            ),
        square.rows == 2 && square.cols == 2 && square.wf(),
        forall|i: int, j: int|
            0 <= i < 2 && 0 <= j < 2 ==> #[trigger] square.entry(i, j) == dot::<Gf2>(
                matrix.cells(),
                2,
                matrix.cells(),
                2,
                i,
                j,
                2,
            ),
    ensures
        matrix.cells() == seq![true, false, true, true],
        identity_product.cells() == seq![true, false, true, true],
        square.cells() == seq![true, false, false, true],
{
    let a = matrix.cells();
    assert(a[0] == matrix.entry(0, 0));
    assert(a[1] == matrix.entry(0, 1));
    assert(a[2] == matrix.entry(1, 0));
    assert(a[3] == matrix.entry(1, 1));
    assert(a =~= seq![true, false, true, true]);
    let id = identity.cells();
    assert(id[0] == identity.entry(0, 0));
    assert(id[1] == identity.entry(0, 1));
    assert(id[2] == identity.entry(1, 0));
    assert(id[3] == identity.entry(1, 1));
    reveal_with_fuel(dot, 3);
    assert(identity_product.entry(0, 0) == true);
    assert(identity_product.entry(0, 1) == false);
    assert(identity_product.entry(1, 0) == true);
    assert(identity_product.entry(1, 1) == true);
    assert(identity_product.cells()[0] == identity_product.entry(0, 0));
    assert(identity_product.cells()[1] == identity_product.entry(0, 1));
    assert(identity_product.cells()[2] == identity_product.entry(1, 0));
    assert(identity_product.cells()[3] == identity_product.entry(1, 1));
    assert(identity_product.cells() =~= seq![true, false, true, true]);
    assert(square.entry(0, 0) == true);
    assert(square.entry(0, 1) == false);
    assert(square.entry(1, 0) == false);
    assert(square.entry(1, 1) == true);
    assert(square.cells()[0] == square.entry(0, 0));
    assert(square.cells()[1] == square.entry(0, 1));
    assert(square.cells()[2] == square.entry(1, 0));
    assert(square.cells()[3] == square.entry(1, 1));
    assert(square.cells() =~= seq![true, false, false, true]);
}

} // verus!
