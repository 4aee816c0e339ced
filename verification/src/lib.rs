//! The logic of an embedded LSM storage engine, verified.
//!
//! Everything in this crate computes on plain values: bytes, integers,
//! strings and the types declared here. Files, locks, threads and clocks
//! belong to the program around it.

pub mod bottom_level;
pub mod catalog;
pub mod comparator;
pub mod db;
pub mod edit_codec;
pub mod edit_read;
pub mod edit_trip;
pub mod edit_write;
pub mod encoding;
pub mod error;
pub mod flags;
pub mod format;
pub mod hash;
pub mod key_prefix;
pub mod manifest;
pub mod manifest_edit;
pub mod mem_heap;
pub mod mem_iter;
pub mod memtable;
pub mod memtable_arena;
pub mod move_run;
pub mod part_attach;
pub mod part_move;
pub mod parts;
pub mod perf;
pub mod place;
pub mod prefix_rule;
pub mod prepared;
pub mod range_lock;
pub mod range_tombstone;
pub mod read_profile;
pub mod read_resources;
pub mod reader;
pub mod skip_shard;
pub mod snapshot;
pub mod snapshot_read;
pub mod span_index;
pub mod sst_aux;
pub mod sst_block;
pub mod sst_build;
pub mod sst_cursor;
pub mod sst_entry;
pub mod sst_format;
pub mod sst_index;
pub mod sst_iter;
pub mod sst_open;
pub mod sst_reader;
pub mod sst_run;
pub mod sst_table;
pub mod sst_tree;
pub mod sst_writer;
pub mod storage;
pub mod text;
pub mod unified;
pub mod wal;
pub mod wal_gen;
