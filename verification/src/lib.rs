//! Splits tests into time-balanced shards.
//!
//! Tests are placed longest first, each into the shard whose remaining
//! capacity fits it most tightly (best-fit decreasing).

pub mod laws;
mod lookup;
pub mod order;
pub mod plan;
pub mod sharder;
pub mod test_case;
