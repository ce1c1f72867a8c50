//! An in-process columnar data engine: typed column vectors, type inference
//! over records, relational operators, joins, chunked and parallel execution,
//! and integer reduction kernels with a portable scalar oracle.

pub mod aggregate;
pub mod chunked;
pub mod column;
pub mod cpu_features;
pub mod edit;
pub mod filter;
pub mod frame;
pub mod groupby;
pub mod join;
pub mod parallel;
pub mod simd;
pub mod sort;
pub mod string_optimize;
pub mod text;
