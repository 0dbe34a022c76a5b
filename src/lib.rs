//! The core of a small number-theory calculator: checked sums, products and
//! differences, prime factorization by trial division, and the generation of
//! integer partitions with a filter on part count, largest part and
//! distinctness.

pub mod arith;
pub mod factor;
pub mod order;
pub mod partition;
pub mod request;
pub mod seqs;
