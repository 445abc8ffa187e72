use sim_discrete::bignat::BigNat;
use sim_discrete::bit_vector::{bit_vector_rank, bit_vector_unrank, bit_vectors};
use sim_discrete::comb_cards::combinatorics_cards;
use sim_discrete::comb_demo::rankable_values_demo;
use sim_discrete::combination::{combination_rank, combination_unrank, combinations};
use sim_discrete::count::{
    bell_number, binomial, factorial, factorial_checked, falling_factorial,
    integer_partition_count, integer_partition_count_checked, multinomial, permutation_count,
    stirling2, MAX_FACTORIAL_INPUT,
};
use sim_discrete::error::CombError;
use sim_discrete::mixed_radix::{mixed_radix_rank, mixed_radix_unrank};
use sim_discrete::partition::integer_partitions;
use sim_discrete::permutation::{permutation_rank, permutation_unrank, permutations};
use sim_discrete::subset::{subset_rank, subset_unrank, subsets};

fn b(n: u64) -> BigNat {
    BigNat::from_u64(n)
}

fn all_bit_vectors(width: usize) -> Vec<Vec<bool>> {
    let mut it = bit_vectors(width).unwrap();
    let mut out = Vec::new();
    while let Some(v) = it.next() {
        out.push(v);
    }
    out
}

fn all_combinations(n: usize, k: usize) -> Vec<Vec<usize>> {
    let mut it = combinations(n, k).unwrap();
    let mut out = Vec::new();
    while let Some(v) = it.next() {
        out.push(v);
    }
    out
}

fn all_permutations(n: usize) -> Vec<Vec<usize>> {
    let mut it = permutations(n);
    let mut out = Vec::new();
    while let Some(v) = it.next() {
        out.push(v);
    }
    out
}

fn all_subsets(n: usize) -> Vec<Vec<usize>> {
    let mut it = subsets(n).unwrap();
    let mut out = Vec::new();
    while let Some(v) = it.next() {
        out.push(v);
    }
    out
}

fn all_partitions(n: usize) -> Vec<Vec<usize>> {
    let mut it = integer_partitions(n);
    let mut out = Vec::new();
    while let Some(v) = it.next() {
        out.push(v);
    }
    out
}

#[test]
fn iterates_all_in_order() {
    let all = all_bit_vectors(2);
    assert_eq!(all.len(), 4);
    assert_eq!(all[0], vec![false, false]);
    assert_eq!(all[1], vec![true, false]);
    assert_eq!(all[3], vec![true, true]);
}

#[test]
fn bit_vector_rank_unrank_round_trip() {
    for (i, bits) in all_bit_vectors(5).into_iter().enumerate() {
        let r = bit_vector_rank(&bits);
        assert_eq!(r, b(i as u64));
        assert_eq!(bit_vector_unrank(&r, 5).unwrap(), bits);
    }
}

#[test]
fn width_limit_enforced() {
    assert!(matches!(bit_vectors(200), Err(CombError::LimitExceeded(_))));
}


#[test]
fn width_127_total_is_exact_domain_size() {
    let iter = bit_vectors(127).unwrap();
    assert_eq!(iter.total_ordinals(), 1u128 << 127);
    assert_eq!(iter.remaining_ordinals(), 1u128 << 127);
}

#[test]
fn card_present() {
    assert_eq!(combinatorics_cards()[0].key, "discrete/combinatorics");
}

#[test]
fn combination_lexicographic_order_and_count() {
    let all = all_combinations(4, 2);
    assert_eq!(
        all,
        vec![
            vec![0, 1],
            vec![0, 2],
            vec![0, 3],
            vec![1, 2],
            vec![1, 3],
            vec![2, 3],
        ]
    );
    assert_eq!(all_combinations(5, 3).len(), 10);
}

#[test]
fn combination_rank_unrank_round_trip() {
    for (i, c) in all_combinations(6, 3).into_iter().enumerate() {
        let r = combination_rank(&c, 6).unwrap();
        assert_eq!(r, b(i as u64));
        assert_eq!(combination_unrank(&r, 6, 3).unwrap(), c);
    }
}

#[test]
fn empty_combination_is_singleton() {
    assert_eq!(all_combinations(5, 0).len(), 1);
}

#[test]
fn rankable_values_round_trip_ordinals() {
    let demo = rankable_values_demo().expect("valid rankable values demo");
    assert_eq!(demo.combination_unranked, demo.combination);
    assert_eq!(demo.permutation_unranked, demo.permutation);
    assert_eq!(demo.combination_rank, "4");
    assert_eq!(demo.permutation_rank, "4");
}

#[test]
fn factorial_basics() {
    assert_eq!(factorial(0), b(1));
    assert_eq!(factorial(5), b(120));
}

#[test]
fn binomial_and_permutations() {
    assert_eq!(binomial(5, 2), b(10));
    assert_eq!(binomial(10, 5), b(252));
    assert_eq!(binomial(5, 7), b(0));
    assert_eq!(binomial(6, 0), b(1));
    assert_eq!(permutation_count(5, 3), b(60));
    assert_eq!(falling_factorial(5, 2), b(20));
}

#[test]
fn multinomial_value() {
    assert_eq!(multinomial(&[2, 1, 1]), b(12));
}

#[test]
fn stirling_bell_and_partitions() {
    assert_eq!(stirling2(4, 2), b(7));
    assert_eq!(bell_number(4), b(15));
    assert_eq!(integer_partition_count(5), b(7));
}

#[test]
fn checked_counts_accept_small_inputs() {
    assert_eq!(factorial_checked(5).unwrap(), b(120));
    assert_eq!(integer_partition_count_checked(5).unwrap(), b(7));
}

#[test]
fn checked_counts_reject_huge_inputs() {
    assert!(matches!(
        factorial_checked(MAX_FACTORIAL_INPUT + 1),
        Err(CombError::LimitExceeded(_))
    ));
    assert!(matches!(
        integer_partition_count_checked(u64::MAX),
        Err(CombError::LimitExceeded(_))
    ));
}

#[test]
fn rank_is_horner() {
    let r = mixed_radix_rank(&[2, 1, 3], &[3, 2, 4]).unwrap();
    assert_eq!(r, b(23));
}

#[test]
fn mixed_radix_rank_unrank_round_trip() {
    let radices = [3u64, 2, 4];
    let total = 3 * 2 * 4;
    for i in 0..total {
        let digits = mixed_radix_unrank(&b(i), &radices).unwrap();
        assert_eq!(mixed_radix_rank(&digits, &radices).unwrap(), b(i));
    }
}

#[test]
fn out_of_range_digit_rejected() {
    assert!(matches!(
        mixed_radix_rank(&[3], &[3]),
        Err(CombError::OutOfRange { .. })
    ));
}

#[test]
fn count_matches_closed_form() {
    let parts = all_partitions(5);
    assert_eq!(parts.len(), 7);
    assert_eq!(b(parts.len() as u64), integer_partition_count(5));
    for p in &parts {
        assert_eq!(p.iter().sum::<usize>(), 5);
    }
}

#[test]
fn first_and_last() {
    let parts = all_partitions(5);
    assert_eq!(parts[0], vec![1, 1, 1, 1, 1]);
    assert_eq!(parts[6], vec![5]);
}

#[test]
fn zero_yields_empty_partition() {
    let parts = all_partitions(0);
    assert_eq!(parts, vec![Vec::<usize>::new()]);
}

#[test]
fn permutation_lexicographic_order_and_count() {
    let all = all_permutations(3);
    assert_eq!(all.len(), 6);
    assert_eq!(all[0], vec![0, 1, 2]);
    assert_eq!(all[1], vec![0, 2, 1]);
    assert_eq!(all[5], vec![2, 1, 0]);
}

#[test]
fn permutation_rank_unrank_round_trip() {
    for (i, p) in all_permutations(4).into_iter().enumerate() {
        let r = permutation_rank(&p).unwrap();
        assert_eq!(r, b(i as u64));
        assert_eq!(permutation_unrank(&r, 4).unwrap(), p);
    }
}

#[test]
fn rank_rejects_non_permutation() {
    assert!(matches!(
        permutation_rank(&[0, 0, 1]),
        Err(CombError::InvalidParameters(_))
    ));
}

#[test]
fn powerset_count_and_order() {
    let all = all_subsets(3);
    assert_eq!(all.len(), 8);
    assert_eq!(all[0], Vec::<usize>::new());
    assert_eq!(all[1], vec![0]);
    assert_eq!(all[7], vec![0, 1, 2]);
}

#[test]
fn subset_rank_unrank_round_trip() {
    for (i, s) in all_subsets(4).into_iter().enumerate() {
        let r = subset_rank(&s, 4).unwrap();
        assert_eq!(r, b(i as u64));
        assert_eq!(subset_unrank(&r, 4).unwrap(), s);
    }
}

#[test]
fn rank_rejects_out_of_range() {
    assert!(matches!(subset_rank(&[5], 4), Err(CombError::OutOfRange { .. })));
}

#[test]
fn rank_rejects_duplicates() {
    assert!(matches!(
        subset_rank(&[1, 1], 4),
        Err(CombError::InvalidParameters(_))
    ));
}


#[test]
fn n_127_total_is_exact_domain_size() {
    let iter = subsets(127).unwrap();
    assert_eq!(iter.total_ordinals(), 1u128 << 127);
    assert_eq!(iter.remaining_ordinals(), 1u128 << 127);
}

#[test]
fn binomial_row_sums_to_power_of_two() {
    let mut total = BigNat::zero();
    for k in 0..=10u64 {
        total = total.add(&binomial(10, k));
    }
    assert_eq!(total, b(1024));
}

#[test]
fn unrank_errors_name_the_ordinal_and_bound() {
    match combination_unrank(&b(20), 6, 3) {
        Err(CombError::OutOfRange { value, bound }) => {
            assert_eq!(value, "20");
            assert_eq!(bound, "20");
        }
        other => panic!("unexpected {other:?}"),
    }
    match permutation_unrank(&b(30), 4) {
        Err(CombError::OutOfRange { value, bound }) => {
            assert_eq!(value, "30");
            assert_eq!(bound, "24");
        }
        other => panic!("unexpected {other:?}"),
    }
}

#[test]
fn permutation_unrank_gives_lexicographic_order() {
    assert_eq!(permutation_unrank(&b(0), 3).unwrap(), vec![0, 1, 2]);
    assert_eq!(permutation_unrank(&b(3), 3).unwrap(), vec![1, 2, 0]);
    assert_eq!(permutation_unrank(&b(5), 3).unwrap(), vec![2, 1, 0]);
}

#[test]
fn bignat_arithmetic_and_decimal() {
    let x = b(u64::MAX).mul(&b(u64::MAX));
    assert_eq!(x.to_decimal(), "340282366920938463426481119284349108225");
    assert_eq!(x.div(&b(u64::MAX)), b(u64::MAX));
    assert_eq!(x.rem(&b(10)), b(5));
    assert!(b(3).lt(&b(4)));
    assert_eq!(b(10).sub(&b(3)), b(7));
}

#[test]
fn limit_messages_name_the_input_and_the_cap() {
    assert_eq!(
        factorial_checked(MAX_FACTORIAL_INPUT + 1).unwrap_err(),
        CombError::LimitExceeded("factorial input 50001 exceeds maximum 50000".to_string())
    );
    assert_eq!(
        mixed_radix_rank(&[0, 0], &[2, 0]).unwrap_err(),
        CombError::InvalidParameters("radix 1 is zero".to_string())
    );
    assert_eq!(
        subset_rank(&[1, 1], 4).unwrap_err(),
        CombError::InvalidParameters("subset member 1 appears more than once".to_string())
    );
    assert_eq!(
        combinations(2, 3).err().unwrap(),
        CombError::InvalidParameters("combinations: k=3 > n=2".to_string())
    );
}

fn drain<I: FnMut() -> Option<Vec<usize>>>(mut next: I) -> Vec<Vec<usize>> {
    let mut out = Vec::new();
    while let Some(v) = next() {
        out.push(v);
    }
    out
}

#[test]
fn iterators_step_to_the_next_object_in_lexicographic_order() {
    let mut perms = permutations(4);
    let all = drain(|| perms.next());
    assert_eq!(all.len(), 24);
    assert!(all.windows(2).all(|w| w[0] < w[1]));
    let mut combs = combinations(6, 3).unwrap();
    let all = drain(|| combs.next());
    assert_eq!(all.len(), 20);
    assert!(all.windows(2).all(|w| w[0] < w[1]));
    let mut parts = integer_partitions(7);
    let all = drain(|| parts.next());
    assert_eq!(all.len(), 15);
    assert!(all.windows(2).all(|w| w[0] < w[1]));
    assert_eq!(all[0], vec![1; 7]);
    assert_eq!(all[14], vec![7]);
}
