//! A small embedded storage engine built from three layers:
//!
//! * [`extent`] — a resizable, byte-indexable region of memory,
//! * [`file_table`] — a slotted allocator handing out stable integer keys
//!   to fixed-width records, with bitmap block headers,
//! * [`variable_storage`] — a FAT-style chained-block store for
//!   arbitrary-length byte strings, addressed through a self-referential
//!   directory block.
//!
//! [`table`] holds a simpler fixed-width table whose occupancy bitmap lives
//! in memory rather than on the extent, and [`node`] the packed record
//! formats that a graph layer stores in the tables.

pub mod codec;
pub mod extent;
pub mod file_table;
pub mod node;
pub mod table;
pub mod variable_storage;
