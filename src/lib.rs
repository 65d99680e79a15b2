//! Weekly benchmark summaries: a dated store of per-commit benchmark
//! timings, a half-open date range selector over it, a pairwise comparison
//! of two commits' timings, and a summary over trailing calendar weeks.

pub mod compare;
pub mod date;
pub mod load;
pub mod store;
pub mod summary;
