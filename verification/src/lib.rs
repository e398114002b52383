//! An append-only log store: producers append records to (topic, partition)
//! logs, a flush packs the buffered records into one immutable segment, and
//! an offset index resolves ranges of logical offsets to byte windows of
//! segments.
//!
//! The library holds the buffering, packing, indexing and slicing logic. The
//! bytes of a segment are stored and fetched by the caller.

pub mod agent;
pub mod laws;
pub mod metadata;
pub mod offset_index;
pub mod records;
pub mod round_trip;
pub mod segment_name;
pub mod topic_partition;
pub mod types;
