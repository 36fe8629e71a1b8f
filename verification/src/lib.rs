//! An in-memory data-parallel compute engine built on the resilient
//! distributed dataset (RDD) abstraction: lazy, immutable, partitioned
//! collections with recorded lineage, a partitioner that routes keys to
//! reduce-side partitions, combiner-based shuffle aggregation, and a
//! per-worker shuffle block store.

pub mod aggregator;
pub mod context;
pub mod data;
pub mod env;
pub mod error;
pub mod partitioner;
pub mod parallel_collection;
pub mod rdd;
pub mod shuffle_fetcher;
pub mod shuffle_manager;
pub mod shuffled_rdd;
