use sim_discrete::bignat::BigNat;
use sim_discrete::bit_vector::bit_vector_unrank;
use sim_discrete::error::CombError;
use sim_discrete::subset::subset_unrank;
use sim_discrete::combinatorial::{BoundedIntVectorSpace, CombinationSpace, PermutationSpace};
use sim_discrete::error::RankAdapterError;
use sim_discrete::grade::{closure_density_grade, mst_weight_grade};
use sim_discrete::graph::{Directedness, Graph};
use sim_discrete::graph_space::SimpleGraphSpace;
use sim_discrete::lattice::{BitVectorSpace, SubsetSpace};
use sim_discrete::limits::DiscreteRankLimits;
use sim_discrete::metric::{hamming_bits, kendall_tau, l1_i64, l1_u64, symmetric_difference};
use sim_discrete::rank_cards::discrete_rank_cards;
use sim_discrete::rank_demo::combination_space_demo;
use sim_discrete::signal_space::FwhtSignalSpace;
use sim_discrete::tree_metric::spanning_tree_swap_distance;

fn big(i: u64) -> BigNat {
    BigNat::from_u64(i)
}

#[test]
fn seven_spaces_published() {
    assert_eq!(discrete_rank_cards().len(), 7);
    for card in discrete_rank_cards() {
        assert!(card.key.starts_with("rank/discrete/"));
    }
}

#[test]
fn combination_round_trips() {
    let space = CombinationSpace { n: 6, k: 3 };
    for i in 0..20u64 {
        let c = space.unrank(&big(i)).unwrap();
        assert_eq!(space.rank(&c).unwrap(), big(i));
    }
}

#[test]
fn permutation_round_trips_and_kendall() {
    let space = PermutationSpace { n: 4 };
    for i in 0..24u64 {
        let p = space.unrank(&big(i)).unwrap();
        assert_eq!(space.rank(&p).unwrap(), big(i));
    }
    let a = space.rank(&[0, 1, 2, 3]).unwrap();
    let b = space.rank(&[3, 2, 1, 0]).unwrap();
    assert_eq!(space.distance(&a, &b).unwrap(), big(6));
}

#[test]
fn bounded_int_vector_round_trips_and_l1() {
    let space = BoundedIntVectorSpace {
        radices: vec![3, 2, 4],
    };
    for i in 0..24u64 {
        let v = space.unrank(&big(i)).unwrap();
        assert_eq!(space.rank(&v).unwrap(), big(i));
    }
    let a = space.rank(&[2, 0, 3]).unwrap();
    let b = space.rank(&[0, 1, 1]).unwrap();
    assert_eq!(space.distance(&a, &b).unwrap(), big(2 + 1 + 2));
}

#[test]
fn combination_space_demo_round_trips_rank() {
    let demo = combination_space_demo().expect("valid combination space demo");
    assert_eq!(demo.descriptor_id, "rank/discrete/combination");
    assert_eq!(demo.unranked, demo.combination);
    let ordinal = demo.rank.parse::<u64>().expect("rank is a u64 fixture");
    assert_eq!(
        CombinationSpace {
            n: demo.n,
            k: demo.k
        }
        .unrank(&big(ordinal))
        .unwrap(),
        demo.combination
    );
}

#[test]
fn mst_weight_grade_is_monotone() {
    let light = {
        let mut g: Graph<u8, u64> = Graph::with_nodes(vec![0, 1, 2], Directedness::Undirected);
        g.add_edge(0, 1, 1).unwrap();
        g.add_edge(1, 2, 1).unwrap();
        g
    };
    let heavy = {
        let mut g: Graph<u8, u64> = Graph::with_nodes(vec![0, 1, 2], Directedness::Undirected);
        g.add_edge(0, 1, 5).unwrap();
        g.add_edge(1, 2, 5).unwrap();
        g
    };
    assert!(mst_weight_grade(&light).unwrap() < mst_weight_grade(&heavy).unwrap());
}

#[test]
fn closure_density_grade_is_monotone() {
    let chain = {
        let mut g: Graph<u8, u64> = Graph::with_nodes(vec![0, 1, 2], Directedness::Directed);
        g.add_edge(0, 1, 1).unwrap();
        g.add_edge(1, 2, 1).unwrap();
        g
    };
    let cycle = {
        let mut g = chain.clone();
        g.add_edge(2, 0, 1).unwrap();
        g
    };
    assert!(closure_density_grade(&chain).unwrap() < closure_density_grade(&cycle).unwrap());
}

#[test]
fn round_trips_all_graphs_on_3_nodes() {
    let space = SimpleGraphSpace::new(3);
    assert_eq!(space.edge_slots(), 3);
    assert_eq!(space.cardinality(), big(8));
    for i in 0..8u64 {
        let edges = space.unrank(&big(i)).unwrap();
        assert_eq!(space.rank(&edges).unwrap(), big(i));
    }
}

#[test]
fn edge_symmetric_difference() {
    let space = SimpleGraphSpace::new(4);
    let a = space.rank(&[(0, 1), (1, 2)]).unwrap();
    let b = space.rank(&[(1, 2), (2, 3)]).unwrap();
    assert_eq!(space.distance(&a, &b).unwrap(), big(2));
}

#[test]
fn invalid_edge_rejected() {
    let space = SimpleGraphSpace::new(3);
    assert!(matches!(space.rank(&[(0, 9)]), Err(RankAdapterError::Invalid(_))));
}

#[test]
fn duplicate_edge_rejected() {
    let space = SimpleGraphSpace::new(3);
    assert!(matches!(
        space.rank(&[(0, 1), (1, 0)]),
        Err(RankAdapterError::Invalid(_))
    ));
}

#[test]
fn graph_space_unrank_rejects_cardinality() {
    let space = SimpleGraphSpace::new(3);
    assert!(matches!(
        space.unrank(&space.cardinality()),
        Err(RankAdapterError::Invalid(_))
    ));
}

#[test]
fn bit_vector_round_trips_and_measures() {
    let space = BitVectorSpace { width: 4 };
    for i in 0..16u64 {
        let ord = big(i);
        let bits = space.unrank(&ord).unwrap();
        assert_eq!(space.rank(&bits).unwrap(), ord);
    }
    let d = space.distance(&big(3), &big(5)).unwrap();
    assert_eq!(d, big(2));
    assert_eq!(space.cardinality(), big(16));
}

#[test]
fn subset_round_trips() {
    let space = SubsetSpace { n: 5 };
    for i in 0..32u64 {
        let ord = big(i);
        let members = space.unrank(&ord).unwrap();
        assert_eq!(space.rank(&members).unwrap(), ord);
    }
}

#[test]
fn subset_symmetric_difference() {
    let space = SubsetSpace { n: 4 };
    let a = space.rank(&[0, 1, 2]).unwrap();
    let b = space.rank(&[1, 2, 3]).unwrap();
    assert_eq!(space.distance(&a, &b).unwrap(), big(2));
}

#[test]
fn bit_vector_unrank_rejects_cardinality() {
    assert!(matches!(
        bit_vector_unrank(&big(8), 3),
        Err(CombError::OutOfRange { .. })
    ));
    let space = BitVectorSpace { width: 4 };
    assert!(matches!(
        space.unrank(&space.cardinality()),
        Err(RankAdapterError::Invalid(_))
    ));
}

#[test]
fn subset_rank_rejects_duplicates() {
    let space = SubsetSpace { n: 4 };
    assert!(matches!(space.rank(&[1, 1]), Err(RankAdapterError::Invalid(_))));
}

#[test]
fn subset_unrank_rejects_cardinality() {
    assert!(matches!(subset_unrank(&big(8), 3), Err(CombError::OutOfRange { .. })));
    let space = SubsetSpace { n: 4 };
    assert!(matches!(
        space.unrank(&space.cardinality()),
        Err(RankAdapterError::Invalid(_))
    ));
}

#[test]
fn checked_constructors_reject_first_out_of_range_dimensions() {
    assert!(BitVectorSpace::try_new(127).is_ok());
    assert!(matches!(
        BitVectorSpace::try_new(128),
        Err(RankAdapterError::LimitExceeded(_))
    ));
    assert!(SubsetSpace::try_new(127).is_ok());
    assert!(matches!(
        SubsetSpace::try_new(128),
        Err(RankAdapterError::LimitExceeded(_))
    ));
}

#[test]
fn hamming_counts_differences() {
    assert_eq!(hamming_bits(&[true, false, true], &[true, true, false]), big(2));
}

#[test]
fn symmetric_difference_counts() {
    assert_eq!(symmetric_difference(&[0, 1, 2], &[1, 2, 3]), big(2));
}

#[test]
fn kendall_tau_basic() {
    assert_eq!(kendall_tau(&[0, 1, 2], &[2, 1, 0]), big(3));
    assert_eq!(kendall_tau(&[0, 1, 2], &[0, 1, 2]), big(0));
}

#[test]
fn l1_distances() {
    assert_eq!(l1_u64(&[1, 5, 3], &[4, 1, 3]), big(7));
    assert_eq!(l1_i64(&[-2, 3], &[1, -1]), big(7));
}

#[test]
fn round_trips_and_cardinality() {
    let space = FwhtSignalSpace {
        len: 3,
        alphabet: 2,
    };
    assert_eq!(space.cardinality(), big(8));
    for i in 0..8u64 {
        let s = space.unrank(&big(i)).unwrap();
        assert_eq!(space.rank(&s).unwrap(), big(i));
    }
}

#[test]
fn coefficient_l1_distance() {
    let space = FwhtSignalSpace {
        len: 3,
        alphabet: 4,
    };
    let a = space.rank(&[3, 0, 1]).unwrap();
    let b = space.rank(&[0, 2, 1]).unwrap();
    assert_eq!(space.distance(&a, &b).unwrap(), big(3 + 2));
}

#[test]
fn out_of_alphabet_rejected() {
    let space = FwhtSignalSpace {
        len: 2,
        alphabet: 2,
    };
    assert!(matches!(space.rank(&[5, 0]), Err(RankAdapterError::Invalid(_))));
}

#[test]
fn identical_trees_have_zero_distance() {
    assert_eq!(spanning_tree_swap_distance(&[0, 1, 2], &[0, 1, 2]).unwrap(), 0);
}

#[test]
fn one_edge_swap_is_distance_one() {
    assert_eq!(spanning_tree_swap_distance(&[0, 1, 2], &[0, 1, 3]).unwrap(), 1);
}

#[test]
fn size_mismatch_rejected() {
    assert!(matches!(
        spanning_tree_swap_distance(&[0, 1], &[0, 1, 2]),
        Err(RankAdapterError::Invalid(_))
    ));
}

#[test]
fn standard_limits_bound_every_shape() {
    let limits = DiscreteRankLimits::default();
    assert_eq!(limits, DiscreteRankLimits::standard());
    assert!(limits.check_combination(127, 3).is_ok());
    assert!(matches!(
        limits.check_combination(128, 3),
        Err(RankAdapterError::LimitExceeded(_))
    ));
    assert!(matches!(
        limits.check_combination(5, 6),
        Err(RankAdapterError::Invalid(_))
    ));
    assert!(limits.check_simple_graph_nodes(16).is_ok());
    assert!(limits.check_simple_graph_nodes(17).is_err());
    assert!(limits.check_radices(&[3, 2, 4]).is_ok());
    assert!(matches!(limits.check_radices(&[3, 0]), Err(RankAdapterError::Invalid(_))));
    assert!(matches!(
        limits.check_radices(&[1_000_001]),
        Err(RankAdapterError::LimitExceeded(_))
    ));
    assert!(matches!(
        limits.check_fwht_signal(4, 0),
        Err(RankAdapterError::Invalid(_))
    ));
    assert!(limits.check_fwht_signal(127, 1_000_000).is_ok());
    assert!(limits.check_permutation_size(128).is_err());
}

#[test]
fn descriptors_carry_identity_parameters() {
    let d = BoundedIntVectorSpace {
        radices: vec![3, 2, 4],
    }
    .descriptor();
    assert_eq!(d.id, "rank/discrete/bounded-int-vector");
    assert_eq!(d.params, vec![("radices", "[3, 2, 4]".to_string())]);
    let c = CombinationSpace { n: 6, k: 3 }.descriptor();
    assert_eq!(c.params, vec![("n", "6".to_string()), ("k", "3".to_string())]);
    assert_eq!(c.version, 1);
    let s = FwhtSignalSpace {
        len: 3,
        alphabet: 4,
    }
    .descriptor();
    assert_eq!(s.metric, "coefficient-l1");
    assert_eq!(s.params[1], ("alphabet", "4".to_string()));
    assert_eq!(SimpleGraphSpace::new(5).descriptor().params[0].1, "5");
}

#[test]
fn simple_graph_unrank_lists_edges_in_slot_order() {
    let space = SimpleGraphSpace::new(4);
    assert_eq!(space.edge_slots(), 6);
    let r = space.rank(&[(2, 3), (1, 0)]).unwrap();
    assert_eq!(r, big(1 + 32));
    assert_eq!(space.unrank(&r).unwrap(), vec![(0, 1), (2, 3)]);
}

#[test]
fn closure_density_counts_reflexive_pairs() {
    let mut g: Graph<u8, u64> = Graph::with_nodes(vec![0, 1, 2], Directedness::Directed);
    g.add_edge(0, 1, 1).unwrap();
    assert_eq!(closure_density_grade(&g).unwrap(), 4);
}

#[test]
fn mst_weight_grade_rejects_disconnected_and_directed() {
    let mut g: Graph<u8, u64> = Graph::with_nodes(vec![0, 1, 2], Directedness::Undirected);
    g.add_edge(0, 1, 1).unwrap();
    assert!(matches!(mst_weight_grade(&g), Err(RankAdapterError::Invalid(_))));
    let mut d: Graph<u8, u64> = Graph::with_nodes(vec![0, 1], Directedness::Directed);
    d.add_edge(0, 1, 1).unwrap();
    assert!(matches!(mst_weight_grade(&d), Err(RankAdapterError::Invalid(_))));
}

#[test]
fn distances_reject_out_of_range_ordinals() {
    let space = PermutationSpace { n: 3 };
    assert!(matches!(
        space.distance(&big(0), &big(6)),
        Err(RankAdapterError::Invalid(_))
    ));
    let bits = BitVectorSpace { width: 200 };
    assert!(matches!(
        bits.rank(&[true]),
        Err(RankAdapterError::LimitExceeded(_))
    ));
}

#[test]
fn rank_error_messages_follow_the_display_forms() {
    let space = SimpleGraphSpace::new(3);
    assert_eq!(
        space.rank(&[(0, 1), (2, 2)]).unwrap_err(),
        RankAdapterError::Invalid("edge (2,2) invalid for n=3".to_string())
    );
    assert_eq!(
        space.rank(&[(0, 1), (1, 0), (5, 5)]).unwrap_err(),
        RankAdapterError::Invalid("duplicate edge (0,1) for n=3".to_string())
    );
    let limits = DiscreteRankLimits::standard();
    assert_eq!(
        limits.check_bit_vector_width(200).unwrap_err(),
        RankAdapterError::LimitExceeded("bit-vector width 200 exceeds 127".to_string())
    );
    assert_eq!(
        limits.check_radices(&[2, 0]).unwrap_err(),
        RankAdapterError::Invalid("radix 1 is zero".to_string())
    );
    assert_eq!(
        RankAdapterError::from_comb(CombError::OutOfRange { value: "9".to_string(), bound: "8".to_string() }),
        RankAdapterError::Invalid("out of range: 9 >= bound 8".to_string())
    );
}

#[test]
fn kendall_tau_of_a_single_position_is_zero_for_any_partner() {
    assert_eq!(kendall_tau(&[4], &[]), big(0));
    assert_eq!(kendall_tau(&[], &[1, 0]), big(0));
}
