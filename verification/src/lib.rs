//! A scoped disjoint-set (union-find) structure.
//!
//! A [`DisjointSets`] value partitions inserted elements into disjoint
//! equivalence classes.  Every store is branded with an invariant lifetime
//! `'id` that is generated afresh by [`scoped`] (or [`DisjointSets::new`]),
//! so a class representative handed out by one store cannot be passed,
//! even by accident, to a different store: the borrow checker rejects it.

pub mod disjoint_sets;
pub mod traits;

pub use crate::disjoint_sets::scoped;
pub use crate::disjoint_sets::DisjointSets;
pub use crate::disjoint_sets::RootRep;
pub use crate::traits::UnionFind;
