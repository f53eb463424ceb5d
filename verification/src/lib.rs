//! A small multiset relational algebra: collections of records with signed
//! multiplicities, and the operators that combine them.

pub mod collection;
pub mod laws;
pub mod model;
pub mod multiset;
pub mod order;
