//! Verified building blocks for contest-style algorithms.
//!
//! The heart of the crate is the exact angular ordering of integer points:
//! [`vector2`] holds the overflow-free cross and dot products,
//! [`argument_order`] the comparator, [`argument_laws`] the proof that it is
//! a strict total order, [`argument_sort`] the stable sort of arbitrary
//! records by a projected point, and [`argument_sort_laws`] what that sort
//! guarantees.
//!
//! Around it stand independent routines, each with its own contract:
//!
//! - numbers: [`modulo`], [`fermat`], [`combination`], [`prime`], [`sqrt`],
//!   [`sum_quotients`], [`positional_notation`];
//! - strings: [`rolling_hash`], [`manacher`], [`trie`];
//! - graphs: [`graph`], [`bfs`], [`dfs`], [`dijkstra`] with [`node_heap`],
//!   [`doubling`], [`find_centroid`];
//! - grids and matrices: [`grid`], [`grid_shape`], [`zero_one_bfs`],
//!   [`tropical_matrix`].

pub mod argument_laws;
pub mod argument_order;
pub mod argument_sort;
pub mod argument_sort_laws;
pub mod bfs;
pub mod combination;
pub mod dfs;
pub mod dijkstra;
pub mod doubling;
pub mod fermat;
pub mod find_centroid;
pub mod graph;
pub mod grid;
pub mod grid_shape;
pub mod manacher;
pub mod modulo;
pub mod node_heap;
pub mod positional_notation;
pub mod prime;
pub mod rolling_hash;
pub mod sqrt;
pub mod sum_quotients;
pub mod trie;
pub mod tropical_matrix;
pub mod vector2;
pub mod zero_one_bfs;
