//! A multi-branch conditional ("if c0 then o0, else if c1 then o1, ..., else d")
//! over the rows of a table. The conditions and operations themselves are
//! evaluated by the caller; this crate decides which rows each of them sees,
//! keeps every row accounted for exactly once, and gives the order that puts
//! the computed values back in the original row order.
pub mod branches;
pub mod evaluator;
pub mod laws;
pub mod partition;
