//! Discrete mathematics with machine-checked contracts: a semiring spine with
//! dense and sparse matrices, power and Kleene closure; exact combinatorics
//! over arbitrary-precision naturals; graph algorithms; and finite rank spaces.

pub mod algebra_demo;
pub mod bignat;
pub mod bit_vector;
pub mod bridge;
pub mod certificate;
pub mod comb_cards;
pub mod comb_demo;
pub mod combination;
pub mod connectivity;
pub mod count;
pub mod error;
pub mod graph;
pub mod graph_cards;
pub mod graph_demo;
pub mod matrix;
pub mod matrix_power;
pub mod mixed_radix;
pub mod mst;
pub mod mst_optimal;
pub mod partition;
pub mod path;
pub mod permutation;
pub mod semiring;
pub mod sparse;
pub mod subset;
pub mod traversal;
pub mod unionfind;
pub mod views;
pub mod weight;
pub mod limits;
pub mod metric;
pub mod tree_metric;
pub mod descriptor;
pub mod combinatorial;
pub mod lattice;
pub mod graph_space;
pub mod signal_space;
pub mod grade;
pub mod rank_cards;
pub mod rank_demo;
pub mod closure_reach;
pub mod closure_paths;
mod text;
