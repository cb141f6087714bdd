//! A run-compressed sequence container: a finite ordered sequence of values
//! stored as sorted, disjoint runs `[start, end)` of equal values, so that
//! range-assignment, range transforms and range aggregation cost time
//! proportional to the number of runs rather than the number of elements.

pub mod laws;
pub mod runs;
pub mod tree;
