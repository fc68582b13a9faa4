//! An embedded, ordered key-value store core in the log-structured
//! merge-tree style: memtables, leveled segments, a size-tiered
//! compaction strategy, a batch-framed journal codec, and
//! cross-partition write transactions with read-your-own-writes
//! and snapshot reads.
use vstd::prelude::*;

pub mod endian;
pub mod error;
pub mod keyorder;
pub mod value;
pub mod sorted_run;
pub mod memtable;
pub mod crc;
pub mod marker;
pub mod journal;
pub mod segment;
pub mod levels;
pub mod compaction;
pub mod snapshot;
pub mod tree;
pub mod keyspace;
pub mod tx;

verus! {

/// Largest key length the journal item frame can carry (its key
/// length field is a 16-bit big-endian integer).
pub const MAX_KEY_LEN: usize = 0xFFFF;

/// Largest value length the journal item frame can carry.
pub const MAX_VALUE_LEN: usize = 0xFFFF;

} // verus!
