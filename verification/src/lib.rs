//! Combinatorial helpers: a union-find structure with per-group metadata,
//! set-partition and integer-partition enumeration, and prime factorizations.

pub mod union_find;
pub mod iter;
pub mod num;
pub mod num_partitions;
pub mod owned_iterator;
