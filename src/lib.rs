//! Storage layer of a log-structured merge tree: the block and sorted-table
//! formats, cursors over them, and the tiered compaction planner.

pub mod key;
pub mod codec;
pub mod block;
pub mod block_builder;
pub mod block_iterator;
pub mod bloom;
pub mod table;
pub mod table_builder;
pub mod table_iterator;
pub mod concat_iterator;
pub mod lsm_iterator;
pub mod tiered;
