//! A ranking store for user-submitted content: items are scored by a
//! time-decayed vote formula and served as a descending ranked view, guarded
//! by per-submitter rate limiting and content deduplication.

pub mod crate_data;
pub mod score;
pub mod showcase;
