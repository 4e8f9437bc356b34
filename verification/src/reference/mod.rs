//! Exact, closed-form references: binomial Hilbert-space dimensions and
//! the occupation-bitmask basis of the many-body Hubbard chain.

pub mod high_t_expansion;
pub mod bethe;
pub mod ed;
