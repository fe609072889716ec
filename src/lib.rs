//! Aggregation of fixed-width hash digests by wide modular addition.
pub mod aggregator;
pub mod algebra;
pub mod digest;
pub mod shards;
