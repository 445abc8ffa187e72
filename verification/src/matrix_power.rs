//! Square-and-multiply computes the repeated product: over a semiring the
//! matrix product is associative with the identity as unit, so halving the
//! exponent and squaring the base gives the same power.

use crate::matrix::{dot, identity_model, lemma_cell_div_mod, lemma_cell_index, lemma_split_index, mat_mul, square_multiply};
use crate::semiring::{semiring_laws, Semiring};
use vstd::prelude::*;

verus! {

/// The semiring sum `f(0) + ... + f(k - 1)`.
pub open spec fn fsum<S: Semiring>(f: spec_fn(int) -> S::V, k: nat) -> S::V
    decreases k,
{
    if k == 0 {
        S::zero_v()
    } else {
        S::add_v(fsum::<S>(f, (k - 1) as nat), f(k - 1))
    }
}

/// Sums of pointwise equal terms are equal.
proof fn lemma_fsum_ext<S: Semiring>(f: spec_fn(int) -> S::V, g: spec_fn(int) -> S::V, k: nat)
    requires
        forall|l: int| 0 <= l < k ==> #[trigger] f(l) == g(l),
    ensures
        fsum::<S>(f, k) == fsum::<S>(g, k),
    decreases k,
{
    if k > 0 {
        lemma_fsum_ext::<S>(f, g, (k - 1) as nat);
    }
}

/// A dot product is a sum of products.
proof fn lemma_dot_fsum<S: Semiring>(a: Seq<S::V>, p: int, b: Seq<S::V>, q: int, i: int, j: int, k: nat)
    ensures
        dot::<S>(a, p, b, q, i, j, k) == fsum::<S>(|l: int| S::mul_v(a[i * p + l], b[l * q + j]), k),
    decreases k,
{
    if k > 0 {
        lemma_dot_fsum::<S>(a, p, b, q, i, j, (k - 1) as nat);
    }
}

/// Multiplying a sum on the right multiplies each term.
proof fn lemma_fsum_mul_right<S: Semiring>(f: spec_fn(int) -> S::V, c: S::V, k: nat)
    requires
        forall|x: S::V, y: S::V, z: S::V| #[trigger] semiring_laws::<S>(x, y, z),
    ensures
        S::mul_v(fsum::<S>(f, k), c) == fsum::<S>(|l: int| S::mul_v(f(l), c), k),
    decreases k,
{
    if k > 0 {
        lemma_fsum_mul_right::<S>(f, c, (k - 1) as nat);
        assert(semiring_laws::<S>(fsum::<S>(f, (k - 1) as nat), f(k - 1), c));
    } else {
        assert(semiring_laws::<S>(c, c, c));
    }
}

/// Multiplying a sum on the left multiplies each term.
proof fn lemma_fsum_mul_left<S: Semiring>(c: S::V, f: spec_fn(int) -> S::V, k: nat)
    requires
        forall|x: S::V, y: S::V, z: S::V| #[trigger] semiring_laws::<S>(x, y, z),
    ensures
        S::mul_v(c, fsum::<S>(f, k)) == fsum::<S>(|l: int| S::mul_v(c, f(l)), k),
    decreases k,
{
    if k > 0 {
        lemma_fsum_mul_left::<S>(c, f, (k - 1) as nat);
        assert(semiring_laws::<S>(c, fsum::<S>(f, (k - 1) as nat), f(k - 1)));
    } else {
        assert(semiring_laws::<S>(c, c, c));
    }
}

/// Adding two sums adds them term by term.
proof fn lemma_fsum_add<S: Semiring>(f: spec_fn(int) -> S::V, g: spec_fn(int) -> S::V, k: nat)
    requires
        forall|x: S::V, y: S::V, z: S::V| #[trigger] semiring_laws::<S>(x, y, z),
    ensures
        S::add_v(fsum::<S>(f, k), fsum::<S>(g, k)) == fsum::<S>(|l: int| S::add_v(f(l), g(l)), k),
    decreases k,
{
    let z = S::zero_v();
    if k > 0 {
        lemma_fsum_add::<S>(f, g, (k - 1) as nat);
        let a = fsum::<S>(f, (k - 1) as nat);
        let b = fsum::<S>(g, (k - 1) as nat);
        let x = f(k - 1);
        let y = g(k - 1);
        // (a + x) + (b + y) == (a + b) + (x + y)
        assert(semiring_laws::<S>(a, x, S::add_v(b, y)));
        assert(semiring_laws::<S>(x, b, y));
        assert(semiring_laws::<S>(b, x, y));
        assert(semiring_laws::<S>(x, b, x));
        assert(semiring_laws::<S>(a, b, S::add_v(x, y)));
        assert(S::add_v(x, S::add_v(b, y)) == S::add_v(S::add_v(x, b), y));
        assert(S::add_v(x, b) == S::add_v(b, x));
        assert(S::add_v(S::add_v(b, x), y) == S::add_v(b, S::add_v(x, y)));
    } else {
        assert(semiring_laws::<S>(z, z, z));
    }
}

/// The order of a double sum does not matter.
proof fn lemma_fsum_swap<S: Semiring>(f: spec_fn(int, int) -> S::V, rows: nat, cols: nat)
    requires
        forall|x: S::V, y: S::V, z: S::V| #[trigger] semiring_laws::<S>(x, y, z),
    ensures
        fsum::<S>(|m: int| fsum::<S>(|l: int| f(l, m), rows), cols) == fsum::<S>(
            |l: int| fsum::<S>(|m: int| f(l, m), cols),
            rows,
        ),
    decreases cols,
{
    if cols == 0 {
        let zf = |l: int| fsum::<S>(|m: int| f(l, m), 0);
        assert forall|l: int| 0 <= l < rows implies #[trigger] zf(l) == (|l: int| S::zero_v())(l) by {}
        lemma_fsum_zero::<S>(rows);
        lemma_fsum_ext::<S>(zf, |l: int| S::zero_v(), rows);
    } else {
        let c = (cols - 1) as nat;
        lemma_fsum_swap::<S>(f, rows, c);
        let inner = |l: int| fsum::<S>(|m: int| f(l, m), c);
        let last = |l: int| f(l, c as int);
        lemma_fsum_add::<S>(inner, last, rows);
        let whole = |l: int| fsum::<S>(|m: int| f(l, m), cols);
        assert forall|l: int| 0 <= l < rows implies (|l: int| S::add_v(inner(l), last(l)))(l) == #[trigger] whole(l) by {}
        lemma_fsum_ext::<S>(|l: int| S::add_v(inner(l), last(l)), whole, rows);
    }
}

/// A sum of zeros is zero.
proof fn lemma_fsum_zero<S: Semiring>(k: nat)
    requires
        forall|x: S::V, y: S::V, z: S::V| #[trigger] semiring_laws::<S>(x, y, z),
    ensures
        fsum::<S>(|l: int| S::zero_v(), k) == S::zero_v(),
    decreases k,
{
    if k > 0 {
        lemma_fsum_zero::<S>((k - 1) as nat);
        assert(semiring_laws::<S>(S::zero_v(), S::zero_v(), S::zero_v()));
    }
}

/// A cell of the product of `n x n` models.
proof fn lemma_mat_mul_cell<S: Semiring>(a: Seq<S::V>, b: Seq<S::V>, n: nat, i: int, j: int)
    requires
        0 <= i < n,
        0 <= j < n,
    ensures
        mat_mul::<S>(a, b, n, n, n)[i * n + j] == fsum::<S>(|l: int| S::mul_v(a[i * n + l], b[l * n + j]), n),
{
    lemma_cell_index(i, j, n as int, n as int);
    lemma_cell_div_mod(i, j, n as int);
    lemma_dot_fsum::<S>(a, n as int, b, n as int, i, j, n);
}

/// The product of `n x n` models is associative.
proof fn lemma_mat_mul_assoc<S: Semiring>(a: Seq<S::V>, b: Seq<S::V>, c: Seq<S::V>, n: nat)
    requires
        forall|x: S::V, y: S::V, z: S::V| #[trigger] semiring_laws::<S>(x, y, z),
    ensures
        mat_mul::<S>(mat_mul::<S>(a, b, n, n, n), c, n, n, n) == mat_mul::<S>(a, mat_mul::<S>(b, c, n, n, n), n, n, n),
{
    let ab = mat_mul::<S>(a, b, n, n, n);
    let bc = mat_mul::<S>(b, c, n, n, n);
    let lhs = mat_mul::<S>(ab, c, n, n, n);
    let rhs = mat_mul::<S>(a, bc, n, n, n);
    assert forall|idx: int| 0 <= idx < n * n implies #[trigger] lhs[idx] == rhs[idx] by {
        lemma_split_index(idx, n as int, n as int);
        let i = idx / (n as int);
        let j = idx % (n as int);
        let f = |l: int, m: int| S::mul_v(a[i * n + l], S::mul_v(b[l * n + m], c[m * n + j]));
        lemma_mat_mul_cell::<S>(ab, c, n, i, j);
        lemma_mat_mul_cell::<S>(a, bc, n, i, j);
        // Left side: each term expands into a sum over `l`.
        let lterm = |m: int| S::mul_v(ab[i * n + m], c[m * n + j]);
        let lsum = |m: int| fsum::<S>(|l: int| f(l, m), n);
        assert forall|m: int| 0 <= m < n implies #[trigger] lterm(m) == lsum(m) by {
            lemma_mat_mul_cell::<S>(a, b, n, i, m);
            let g = |l: int| S::mul_v(a[i * n + l], b[l * n + m]);
            lemma_fsum_mul_right::<S>(g, c[m * n + j], n);
            let h = |l: int| S::mul_v(g(l), c[m * n + j]);
            assert forall|l: int| 0 <= l < n implies #[trigger] h(l) == (|l: int| f(l, m))(l) by {
                assert(semiring_laws::<S>(a[i * n + l], b[l * n + m], c[m * n + j]));
            }
            lemma_fsum_ext::<S>(h, |l: int| f(l, m), n);
        }
        lemma_fsum_ext::<S>(lterm, lsum, n);
        // Right side: each term pulls `a[i][l]` out of a sum over `m`.
        let rterm = |l: int| S::mul_v(a[i * n + l], bc[l * n + j]);
        let rsum = |l: int| fsum::<S>(|m: int| f(l, m), n);
        assert forall|l: int| 0 <= l < n implies #[trigger] rterm(l) == rsum(l) by {
            lemma_mat_mul_cell::<S>(b, c, n, l, j);
            let g = |m: int| S::mul_v(b[l * n + m], c[m * n + j]);
            lemma_fsum_mul_left::<S>(a[i * n + l], g, n);
            let h = |m: int| S::mul_v(a[i * n + l], g(m));
            assert forall|m: int| 0 <= m < n implies #[trigger] h(m) == (|m: int| f(l, m))(m) by {}
            lemma_fsum_ext::<S>(h, |m: int| f(l, m), n);
        }
        lemma_fsum_ext::<S>(rterm, rsum, n);
        lemma_fsum_swap::<S>(f, n, n);
    }
    assert(lhs =~= rhs);
}

/// A sum whose terms vanish except at `t` is its term at `t`.
proof fn lemma_fsum_single<S: Semiring>(f: spec_fn(int) -> S::V, t: int, k: nat)
    requires
        forall|x: S::V, y: S::V, z: S::V| #[trigger] semiring_laws::<S>(x, y, z),
        forall|l: int| 0 <= l < k && l != t ==> #[trigger] f(l) == S::zero_v(),
    ensures
        fsum::<S>(f, k) == if 0 <= t < k { f(t) } else { S::zero_v() },
    decreases k,
{
    if k > 0 {
        lemma_fsum_single::<S>(f, t, (k - 1) as nat);
        let prev = fsum::<S>(f, (k - 1) as nat);
        assert(semiring_laws::<S>(prev, f(k - 1), prev));
        assert(semiring_laws::<S>(f(k - 1), prev, prev));
    }
}

/// The identity cell at `(i, l)`.
proof fn lemma_identity_cell<S: Semiring>(n: nat, i: int, l: int)
    requires
        0 <= i < n,
        0 <= l < n,
    ensures
        identity_model::<S>(n)[i * n + l] == if i == l { S::one_v() } else { S::zero_v() },
{
    lemma_cell_index(i, l, n as int, n as int);
    lemma_cell_div_mod(i, l, n as int);
}

/// The identity is a unit of the product on both sides.
proof fn lemma_identity_unit<S: Semiring>(a: Seq<S::V>, n: nat)
    requires
        forall|x: S::V, y: S::V, z: S::V| #[trigger] semiring_laws::<S>(x, y, z),
        a.len() == n * n,
    ensures
        mat_mul::<S>(identity_model::<S>(n), a, n, n, n) == a,
        mat_mul::<S>(a, identity_model::<S>(n), n, n, n) == a,
{
    let id = identity_model::<S>(n);
    let left = mat_mul::<S>(id, a, n, n, n);
    let right = mat_mul::<S>(a, id, n, n, n);
    assert forall|idx: int| 0 <= idx < n * n implies #[trigger] left[idx] == a[idx] && right[idx] == a[idx] by {
        lemma_split_index(idx, n as int, n as int);
        let i = idx / (n as int);
        let j = idx % (n as int);
        lemma_mat_mul_cell::<S>(id, a, n, i, j);
        lemma_mat_mul_cell::<S>(a, id, n, i, j);
        let fl = |l: int| S::mul_v(id[i * n + l], a[l * n + j]);
        let fr = |l: int| S::mul_v(a[i * n + l], id[l * n + j]);
        assert forall|l: int| 0 <= l < n && l != i implies #[trigger] fl(l) == S::zero_v() by {
            lemma_identity_cell::<S>(n, i, l);
            assert(semiring_laws::<S>(a[l * n + j], a[l * n + j], a[l * n + j]));
        }
        assert forall|l: int| 0 <= l < n && l != j implies #[trigger] fr(l) == S::zero_v() by {
            lemma_identity_cell::<S>(n, l, j);
            assert(semiring_laws::<S>(a[i * n + l], a[i * n + l], a[i * n + l]));
        }
        lemma_fsum_single::<S>(fl, i, n);
        lemma_fsum_single::<S>(fr, j, n);
        lemma_identity_cell::<S>(n, i, i);
        lemma_identity_cell::<S>(n, j, j);
        assert(semiring_laws::<S>(a[idx], a[idx], a[idx]));
    }
    assert(left =~= a);
    assert(right =~= a);
}

/// The `e`-fold product `a * a * ... * a` of an `n x n` model, the
/// identity for `e == 0`.
pub open spec fn mat_pow<S: Semiring>(a: Seq<S::V>, n: nat, e: nat) -> Seq<S::V>
    decreases e,
{
    if e == 0 {
        identity_model::<S>(n)
    } else {
        mat_mul::<S>(a, mat_pow::<S>(a, n, (e - 1) as nat), n, n, n)
    }
}

/// Powers of one model add their exponents when multiplied.
proof fn lemma_pow_add<S: Semiring>(a: Seq<S::V>, n: nat, i: nat, j: nat)
    requires
        forall|x: S::V, y: S::V, z: S::V| #[trigger] semiring_laws::<S>(x, y, z),
    ensures
        mat_mul::<S>(mat_pow::<S>(a, n, i), mat_pow::<S>(a, n, j), n, n, n) == mat_pow::<S>(a, n, i + j),
    decreases i,
{
    if i == 0 {
        let pj = mat_pow::<S>(a, n, j);
        assert(pj.len() == n * n);
        lemma_identity_unit::<S>(pj, n);
    } else {
        lemma_mat_mul_assoc::<S>(a, mat_pow::<S>(a, n, (i - 1) as nat), mat_pow::<S>(a, n, j), n);
        lemma_pow_add::<S>(a, n, (i - 1) as nat, j);
        assert((i - 1) as nat + j == (i + j - 1) as nat);
    }
}

/// Powers of a square are even powers.
proof fn lemma_pow_square<S: Semiring>(a: Seq<S::V>, n: nat, m: nat)
    requires
        forall|x: S::V, y: S::V, z: S::V| #[trigger] semiring_laws::<S>(x, y, z),
    ensures
        mat_pow::<S>(mat_mul::<S>(a, a, n, n, n), n, m) == mat_pow::<S>(a, n, 2 * m),
    decreases m,
{
    if m > 0 {
        lemma_pow_square::<S>(a, n, (m - 1) as nat);
        let p = mat_pow::<S>(a, n, (2 * m - 2) as nat);
        lemma_mat_mul_assoc::<S>(a, a, p, n);
        assert(mat_pow::<S>(a, n, (2 * m - 1) as nat) == mat_mul::<S>(a, p, n, n, n));
        assert(mat_pow::<S>(a, n, 2 * m) == mat_mul::<S>(a, mat_pow::<S>(a, n, (2 * m - 1) as nat), n, n, n));
    }
}

/// Square-and-multiply from `r` with base `b` and exponent `e` is
/// `r * b^e`.
proof fn lemma_square_multiply_pow<S: Semiring>(r: Seq<S::V>, b: Seq<S::V>, n: nat, e: nat)
    requires
        forall|x: S::V, y: S::V, z: S::V| #[trigger] semiring_laws::<S>(x, y, z),
        r.len() == n * n,
        b.len() == n * n,
    ensures
        square_multiply::<S>(r, b, n, e) == mat_mul::<S>(r, mat_pow::<S>(b, n, e), n, n, n),
    decreases e,
{
    if e == 0 {
        lemma_identity_unit::<S>(r, n);
    } else {
        let r2 = if e % 2 == 1 { mat_mul::<S>(r, b, n, n, n) } else { r };
        let bb = mat_mul::<S>(b, b, n, n, n);
        let h = e / 2;
        if h > 0 {
            lemma_square_multiply_pow::<S>(r2, bb, n, h);
            lemma_pow_square::<S>(b, n, h);
        }
        lemma_identity_unit::<S>(b, n);
        if e % 2 == 1 {
            lemma_mat_mul_assoc::<S>(r, b, mat_pow::<S>(b, n, 2 * h), n);
            assert(2 * h + 1 == e);
            assert(mat_pow::<S>(b, n, e) == mat_mul::<S>(b, mat_pow::<S>(b, n, 2 * h), n, n, n));
        } else {
            assert(2 * h == e);
        }
    }
}

/// Square-and-multiply computes the repeated product: raising an `n x n`
/// model to the `k`-th power by squaring the base and halving the exponent
/// gives `a * a * ... * a` (`k` factors, the identity for `k == 0`), over
/// any semiring obeying the semiring laws. This is what `Matrix::power`
/// returns.
pub proof fn lemma_power_is_repeated_product<S: Semiring>(a: Seq<S::V>, n: nat, k: nat)
    requires
        forall|x: S::V, y: S::V, z: S::V| #[trigger] semiring_laws::<S>(x, y, z),
        a.len() == n * n,
    ensures
        square_multiply::<S>(identity_model::<S>(n), a, n, k) == mat_pow::<S>(a, n, k),
{
    lemma_square_multiply_pow::<S>(identity_model::<S>(n), a, n, k);
    let p = mat_pow::<S>(a, n, k);
    assert(p.len() == n * n);
    lemma_identity_unit::<S>(p, n);
}

} // verus!
