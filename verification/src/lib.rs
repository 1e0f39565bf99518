//! A notebook of verified algorithms: a sieve of Eratosthenes with
//! factorization and divisor enumeration on top of it, a disjoint-set
//! forest, a segment tree, arithmetic modulo a constant, the neighbours of a
//! grid cell, and the rules behind two small command-line tools.

pub mod arith;
pub mod disjoint_set;
pub mod divisor;
pub mod factorization;
pub mod matrix_adj_iter;
pub mod segment_tree;
pub mod sieve;
pub mod tokens;
pub mod workspace;
pub mod zn;
