//! Storage primitives for an LSM-tree engine: shared byte buffers, versioned
//! keys, an in-memory write buffer, a write-ahead log format and a sorted-run
//! accessor.

pub mod byte;
pub mod checksum;
pub mod key;
pub mod mem_table;
pub mod skip_list;
pub mod table;
pub mod wal;
