//! Out-of-core MapReduce engine core: a streaming mapper feeds a partitioned
//! combiner, an indexer merges combined partitions into an ordered on-disk
//! key container store (spilling oversize keys to append-only part files), a
//! consumer walks the finished index in key order, and a reducer performs
//! hierarchical reduction into an ordered result table.

pub mod codec;
pub mod cli;
pub mod combiner;
pub mod consumer;
pub mod errors;
pub mod ordering;
pub mod printer;
pub mod map_container;
pub mod index;
pub mod indexer;
pub mod js;
pub mod json_line;
pub mod reducer;
pub mod result_table;
pub mod text;
