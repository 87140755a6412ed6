//! Small, independent algorithmic primitives for competitive programming:
//! a generic segment tree over a monoid, union-find with path compression,
//! modular arithmetic, combinatorial tables, prime sieving and
//! factorisation, a sorted multiset, and binary-search utilities. Every
//! operation carries a contract that pins its result down, and the
//! structural laws of the segment tree and union-find are proved alongside.

pub mod binary_search;
pub mod mint;
pub mod modint;
pub mod multiset;
pub mod order;
pub mod precalc;
pub mod prime;
pub mod segment_tree;
pub mod unionfind;
