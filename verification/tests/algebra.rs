use sim_discrete::algebra_demo::semiring_matrix_demo;
use sim_discrete::error::AlgebraError;
use sim_discrete::matrix::{AlgebraLimits, Matrix};
use sim_discrete::semiring::{BoolRing, Counting, Gf2, IntRing, MaxPlus, MinPlus, Semiring};
use sim_discrete::sparse::{SparseEntry, SparseMatrix};
use sim_discrete::views::{DiagonalView, IdentityView, PermutationView};

/// Check the semiring laws on all triples of a small sample set.
fn assert_semiring_laws<S: Semiring + PartialEq + std::fmt::Debug>(samples: &[S]) {
    let zero = S::zero();
    let one = S::one();
    for a in samples {
        assert_eq!(zero.add(a), *a, "zero + a == a");
        assert_eq!(a.add(&zero), *a, "a + zero == a");
        assert_eq!(one.mul(a), *a, "one * a == a");
        assert_eq!(a.mul(&one), *a, "a * one == a");
        assert_eq!(zero.mul(a), zero, "zero * a == zero");
        assert_eq!(a.mul(&zero), zero, "a * zero == zero");
        assert_eq!(a.is_zero(), *a == zero, "is_zero agrees with == zero");
    }
    for a in samples {
        for b in samples {
            assert_eq!(a.add(b), b.add(a), "add is commutative");
            for c in samples {
                assert_eq!(a.add(b).add(c), a.add(&b.add(c)), "add is associative");
                assert_eq!(a.mul(b).mul(c), a.mul(&b.mul(c)), "mul is associative");
                assert_eq!(a.mul(&b.add(c)), a.mul(b).add(&a.mul(c)), "left distributive");
                assert_eq!(a.add(b).mul(c), a.mul(c).add(&b.mul(c)), "right distributive");
            }
        }
    }
}

#[test]
fn boolean_laws_hold() {
    assert_semiring_laws(&[BoolRing(false), BoolRing(true)]);
}

#[test]
fn star_is_always_true() {
    assert_eq!(BoolRing(false).star(), Some(BoolRing(true)));
    assert_eq!(BoolRing(true).star(), Some(BoolRing(true)));
}

#[test]
fn boolean_closure_of_directed_chain_is_upper_triangular_reachability() {
    let mut a = Matrix::new(4, 4);
    a.set(0, 1, BoolRing(true)).unwrap();
    a.set(1, 2, BoolRing(true)).unwrap();
    a.set(2, 3, BoolRing(true)).unwrap();
    let star = a.closure(AlgebraLimits::default()).unwrap();
    for i in 0..4 {
        for j in 0..4 {
            let expected = BoolRing(j >= i);
            assert_eq!(star.get(i, j).unwrap(), &expected, "reachability ({i},{j})");
        }
    }
}

#[test]
fn min_plus_closure_matches_floyd_warshall() {
    let mut a = Matrix::filled(4, 4, MinPlus::Inf);
    a.set(0, 1, MinPlus::Fin(1)).unwrap();
    a.set(1, 2, MinPlus::Fin(2)).unwrap();
    a.set(0, 2, MinPlus::Fin(5)).unwrap();
    a.set(2, 3, MinPlus::Fin(1)).unwrap();
    let star = a.closure(AlgebraLimits::default()).unwrap();
    assert_eq!(star.get(0, 2).unwrap(), &MinPlus::Fin(3));
    assert_eq!(star.get(0, 3).unwrap(), &MinPlus::Fin(4));
    assert_eq!(star.get(0, 0).unwrap(), &MinPlus::Fin(0));
    assert_eq!(star.get(3, 0).unwrap(), &MinPlus::Inf);
}

#[test]
fn semiring_demo_uses_identity_and_gf2_multiply() {
    let demo = semiring_matrix_demo().expect("valid semiring demo");
    assert_eq!(demo.dimensions, (2, 2));
    assert_eq!(demo.identity_product, demo.matrix);
    assert_eq!(demo.square, vec![true, false, false, true]);
}

#[test]
fn counting_laws_hold() {
    assert_semiring_laws(&[
        Counting::from_u64(0),
        Counting::from_u64(1),
        Counting::from_u64(3),
        Counting::from_u64(7),
    ]);
}

#[test]
fn counting_star_behaviour() {
    assert_eq!(Counting::from_u64(0).star(), Some(Counting::from_u64(1)));
    assert_eq!(Counting::from_u64(1).star(), None);
    assert_eq!(Counting::from_u64(9).star(), None);
}

#[test]
fn gf2_laws_hold() {
    assert_semiring_laws(&[Gf2(false), Gf2(true)]);
}

#[test]
fn xor_add_and_star() {
    assert_eq!(Gf2(true).add(&Gf2(true)), Gf2(false), "1 XOR 1 == 0");
    assert_eq!(Gf2(false).star(), Some(Gf2(true)));
    assert_eq!(Gf2(true).star(), None);
}

#[test]
fn from_rows_rejects_ragged() {
    let r = Matrix::from_rows(vec![
        vec![Counting::from_u64(1)],
        vec![Counting::from_u64(1), Counting::from_u64(2)],
    ]);
    assert_eq!(r.unwrap_err(), AlgebraError::Ragged);
}

#[test]
fn matmul_known_result_over_counting() {
    let a = Matrix::from_rows(vec![
        vec![Counting::from_u64(1), Counting::from_u64(2)],
        vec![Counting::from_u64(3), Counting::from_u64(4)],
    ])
    .unwrap();
    let b = Matrix::from_rows(vec![
        vec![Counting::from_u64(5), Counting::from_u64(6)],
        vec![Counting::from_u64(7), Counting::from_u64(8)],
    ])
    .unwrap();
    let c = a.matmul(&b).unwrap();
    assert_eq!(c.data[0], Counting::from_u64(19));
    assert_eq!(c.data[1], Counting::from_u64(22));
    assert_eq!(c.data[2], Counting::from_u64(43));
    assert_eq!(c.data[3], Counting::from_u64(50));
}

#[test]
fn matmul_shape_mismatch() {
    let a: Matrix<MinPlus> = Matrix::new(2, 3);
    let b: Matrix<MinPlus> = Matrix::new(2, 2);
    assert!(matches!(a.matmul(&b), Err(AlgebraError::ShapeMismatch(_))));
}

#[test]
fn invalid_public_matrix_fails_before_indexing() {
    let bad = Matrix {
        rows: 2,
        cols: 2,
        data: vec![Counting::from_u64(1), Counting::from_u64(2)],
    };
    assert!(matches!(bad.validate(), Err(AlgebraError::InvalidMatrix { .. })));
    assert!(matches!(bad.get(0, 0), Err(AlgebraError::InvalidMatrix { .. })));
    assert!(matches!(bad.row(0), Err(AlgebraError::InvalidMatrix { .. })));
    assert!(matches!(bad.transpose(), Err(AlgebraError::InvalidMatrix { .. })));
    assert!(matches!(
        bad.matmul(&Matrix::identity(2)),
        Err(AlgebraError::InvalidMatrix { .. })
    ));
}

#[test]
fn checked_constructors_reject_dimension_overflow() {
    assert!(matches!(
        Matrix::<Counting>::try_new(usize::MAX, 2),
        Err(AlgebraError::DimensionOverflow { .. })
    ));
    assert!(matches!(
        Matrix::<Counting>::try_filled(2, usize::MAX, Counting::from_u64(1)),
        Err(AlgebraError::DimensionOverflow { .. })
    ));
}

#[test]
fn identity_is_multiplicative_unit() {
    let a = Matrix::from_rows(vec![
        vec![Counting::from_u64(1), Counting::from_u64(2)],
        vec![Counting::from_u64(3), Counting::from_u64(4)],
    ])
    .unwrap();
    let id = Matrix::identity(2);
    assert_eq!(a.matmul(&id).unwrap(), a);
    assert_eq!(id.matmul(&a).unwrap(), a);
}

#[test]
fn power_zero_is_identity() {
    let a = Matrix::from_rows(vec![
        vec![Counting::from_u64(1), Counting::from_u64(1)],
        vec![Counting::from_u64(0), Counting::from_u64(1)],
    ])
    .unwrap();
    assert_eq!(a.power(0, AlgebraLimits::default()).unwrap(), Matrix::identity(2));
}

#[test]
fn power_counts_walks() {
    let mut a = Matrix::new(3, 3);
    a.set(0, 1, Counting::from_u64(1)).unwrap();
    a.set(1, 2, Counting::from_u64(1)).unwrap();
    a.set(2, 0, Counting::from_u64(1)).unwrap();
    let a2 = a.power(2, AlgebraLimits::default()).unwrap();
    assert_eq!(a2.get(0, 2).unwrap(), &Counting::from_u64(1));
    assert_eq!(a2.get(0, 0).unwrap(), &Counting::from_u64(0));
    let a3 = a.power(3, AlgebraLimits::default()).unwrap();
    assert_eq!(a3.get(0, 0).unwrap(), &Counting::from_u64(1));
}

#[test]
fn power_non_square_fails() {
    let a: Matrix<Counting> = Matrix::new(2, 3);
    assert!(matches!(
        a.power(2, AlgebraLimits::default()),
        Err(AlgebraError::ShapeMismatch(_))
    ));
}

fn e(row: usize, col: usize, v: u64) -> SparseEntry<Counting> {
    SparseEntry {
        row,
        col,
        value: Counting::from_u64(v),
    }
}

#[test]
fn from_entries_rejects_out_of_range() {
    let r = SparseMatrix::from_entries(2, 2, vec![e(0, 0, 1), e(2, 0, 1)]);
    assert!(matches!(r, Err(AlgebraError::IndexOutOfBounds { .. })));
}

#[test]
fn canonicalize_merges_duplicates_and_sorts() {
    let m = SparseMatrix::from_entries(2, 2, vec![e(1, 1, 2), e(0, 0, 3), e(1, 1, 5)]).unwrap();
    assert_eq!(m.entries, vec![e(0, 0, 3), e(1, 1, 7)]);
}

#[test]
fn canonicalize_drops_zero() {
    let m = SparseMatrix::from_entries(1, 2, vec![e(0, 0, 0), e(0, 1, 4)]).unwrap();
    assert_eq!(m.entries, vec![e(0, 1, 4)]);
}

#[test]
fn dense_sparse_round_trip() {
    let m = SparseMatrix::from_entries(2, 2, vec![e(0, 1, 7), e(1, 0, 9)]).unwrap();
    let dense = m.to_dense().unwrap();
    let back = SparseMatrix::from_dense_nonzero(&dense).unwrap();
    assert_eq!(back, m);
}

#[test]
fn invalid_public_sparse_matrix_fails_before_densifying() {
    let bad = SparseMatrix {
        rows: 1,
        cols: 1,
        entries: vec![e(1, 0, 4)],
    };
    assert!(matches!(bad.validate(), Err(AlgebraError::IndexOutOfBounds { .. })));
    assert!(matches!(bad.to_dense(), Err(AlgebraError::IndexOutOfBounds { .. })));
}

#[test]
fn checked_sparse_constructor_rejects_dimension_overflow() {
    assert!(matches!(
        SparseMatrix::<Counting>::try_new(usize::MAX, 2),
        Err(AlgebraError::DimensionOverflow { .. })
    ));
}

#[test]
fn tropical_max_laws_hold() {
    assert_semiring_laws(&[MaxPlus::NegInf, MaxPlus::Fin(0), MaxPlus::Fin(-2), MaxPlus::Fin(-5)]);
}

#[test]
fn tropical_max_star_behaviour() {
    assert_eq!(MaxPlus::NegInf.star(), Some(MaxPlus::Fin(0)));
    assert_eq!(MaxPlus::Fin(0).star(), Some(MaxPlus::Fin(0)));
    assert_eq!(MaxPlus::Fin(-7).star(), Some(MaxPlus::Fin(0)));
    assert_eq!(MaxPlus::Fin(1).star(), None);
}

#[test]
fn tropical_min_laws_hold() {
    assert_semiring_laws(&[MinPlus::Inf, MinPlus::Fin(0), MinPlus::Fin(2), MinPlus::Fin(5)]);
}

#[test]
fn tropical_min_star_behaviour() {
    assert_eq!(MinPlus::Inf.star(), Some(MinPlus::Fin(0)));
    assert_eq!(MinPlus::Fin(0).star(), Some(MinPlus::Fin(0)));
    assert_eq!(MinPlus::Fin(7).star(), Some(MinPlus::Fin(0)));
    assert_eq!(MinPlus::Fin(-1).star(), None);
}

fn vec_u64(xs: &[u64]) -> Vec<Counting> {
    xs.iter().map(|&x| Counting::from_u64(x)).collect()
}

#[test]
fn identity_matvec_returns_input() {
    let v = vec_u64(&[3, 5, 7]);
    assert_eq!(IdentityView { n: 3 }.matvec(&v).unwrap(), v);
}

#[test]
fn diagonal_matvec_scales() {
    let d = DiagonalView {
        diag: vec_u64(&[2, 3]),
    };
    assert_eq!(d.matvec(&vec_u64(&[5, 7])).unwrap(), vec_u64(&[10, 21]));
}

#[test]
fn permutation_matvec_permutes() {
    let p = PermutationView {
        perm: vec![2, 0, 1],
    };
    assert_eq!(p.matvec(&vec_u64(&[1, 2, 3])).unwrap(), vec_u64(&[3, 1, 2]));
}

#[test]
fn permutation_materialize_matches_matvec() {
    let p = PermutationView {
        perm: vec![2, 0, 1],
    };
    let m: Matrix<Counting> = p.materialize(AlgebraLimits::default()).unwrap();
    let v = vec_u64(&[1, 2, 3]);
    let dense_col = Matrix::from_rows(v.iter().map(|x| vec![x.clone()]).collect()).unwrap();
    let prod = m.matmul(&dense_col).unwrap();
    assert_eq!(prod.data, p.matvec(&v).unwrap());
}

#[test]
fn materialize_respects_limit() {
    let id = IdentityView { n: 100 };
    let limited = AlgebraLimits { max_dim: 10 };
    assert!(matches!(
        id.materialize::<Counting>(limited),
        Err(AlgebraError::LimitExceeded(_))
    ));
}

#[test]
fn int_ring_add_and_mul_saturate() {
    assert_eq!(IntRing(i64::MAX).add(&IntRing(1)), IntRing(i64::MAX));
    assert_eq!(IntRing(i64::MIN).mul(&IntRing(2)), IntRing(i64::MIN));
    assert_eq!(IntRing(6).mul(&IntRing(-7)), IntRing(-42));
}

#[test]
fn min_plus_add_takes_minimum_and_mul_adds() {
    assert_eq!(MinPlus::Fin(3).add(&MinPlus::Fin(5)), MinPlus::Fin(3));
    assert_eq!(MinPlus::Fin(3).mul(&MinPlus::Fin(5)), MinPlus::Fin(8));
    assert_eq!(MinPlus::Fin(3).mul(&MinPlus::Inf), MinPlus::Inf);
    assert_eq!(MaxPlus::Fin(3).add(&MaxPlus::Fin(5)), MaxPlus::Fin(5));
}

#[test]
fn closure_of_negative_cycle_has_no_star() {
    let mut a = Matrix::filled(2, 2, MinPlus::Inf);
    a.set(0, 1, MinPlus::Fin(1)).unwrap();
    a.set(1, 0, MinPlus::Fin(-3)).unwrap();
    assert_eq!(a.closure(AlgebraLimits::default()).unwrap_err(), AlgebraError::NoStar);
}

#[test]
fn canonicalize_twice_changes_nothing() {
    let mut m = SparseMatrix::from_entries(
        2,
        3,
        vec![e(1, 2, 5), e(0, 1, 3), e(1, 2, 4), e(0, 0, 0), e(1, 0, 2)],
    )
    .unwrap();
    assert_eq!(m.entries, vec![e(0, 1, 3), e(1, 0, 2), e(1, 2, 9)]);
    let once = m.clone();
    m.canonicalize();
    assert_eq!(m, once);
}

#[test]
fn densified_sparse_reads_back_the_dense_matrix() {
    let mut dense: Matrix<Counting> = Matrix::new(2, 3);
    dense.data[1] = Counting::from_u64(6);
    dense.data[5] = Counting::from_u64(2);
    let s = SparseMatrix::from_dense_nonzero(&dense).unwrap();
    assert_eq!(s.entries, vec![e(0, 1, 6), e(1, 2, 2)]);
    assert_eq!(s.to_dense().unwrap(), dense);
}

#[test]
fn power_equals_repeated_multiplication() {
    let a: Matrix<IntRing> = Matrix::from_rows(vec![
        vec![IntRing(1), IntRing(1), IntRing(0)],
        vec![IntRing(1), IntRing(0), IntRing(2)],
        vec![IntRing(0), IntRing(-1), IntRing(1)],
    ])
    .unwrap();
    let limits = AlgebraLimits::default();
    let mut repeated: Matrix<IntRing> = Matrix::identity(3);
    for k in 0..7usize {
        assert_eq!(a.power(k, limits).unwrap(), repeated);
        repeated = a.matmul(&repeated).unwrap();
    }
}
