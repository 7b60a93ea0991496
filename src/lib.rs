//! Dense row-major matrix storage and the row-partitioning engine that
//! schedules the rounds of Gaussian elimination.

pub mod array2d;
pub mod engine;
