//! A sharded, append-style worklist for parallel graph traversals.
//!
//! A [`Frontier`] owns a fixed number of independently growable shards, one
//! assignable per worker of a fork-join engine. Workers append and remove
//! items against their own shard only; once the write phase is over, the
//! accumulated items form one logical sequence (shard order, push order
//! inside each shard) that a [`FrontierIter`] walks from either end and can
//! bisect into balanced, disjoint sub-ranges for divide-and-conquer
//! consumption.

mod frontier;
mod iter;
mod pool;
mod shards;

pub use frontier::lemma_reconstruction_round_trip;
pub use frontier::resolve_context;
pub use frontier::Frontier;
pub use frontier::FrontierError;
pub use iter::FrontierIter;
pub use shards::flat_of;
pub use shards::lemma_load_distribution;
pub use shards::lemma_single_context_order;
pub use shards::prefix_len;
