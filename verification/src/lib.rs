//! Generators of graph test data: an edge-multiset store that can realize a
//! prescribed degree sequence and randomize it by degree-preserving edge
//! switches, an adjacency-list container, number predicates and a buffer for
//! the text of one test case.

pub mod graph;
pub mod math;
pub mod testcase;
