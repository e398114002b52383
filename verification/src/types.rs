//! The values that producers, consumers, agents and the offset index exchange.

use vstd::prelude::*;

verus! {

/// A range of logical offsets, first and last, both inclusive.
pub type OffsetRange = (usize, usize);

/// What the offset index answers to a read: the range asked for and, in
/// ascending offset order, the byte windows that hold its records.
pub type BatchReads = (OffsetRange, Vec<BatchRead>);

/// Why a read or a flush failed.
#[derive(Debug, Clone, Copy, PartialEq, Eq, Structural)]
pub enum LogError {
    /// The range's first offset lies after its last, or an offset is zero.
    InvalidRange,
    /// Nothing was ever committed to the (topic, partition).
    UnknownTopicPartition,
    /// An offset of the range lies outside what was committed.
    OffsetOutOfRange,
    /// Segment storage failed, or gave back other bytes than were asked for.
    StorageIOError,
}

/// Where a run of records lies: the segment, the byte at which the run
/// starts, and the size of each record.
pub struct Extent {
    pub file_name: Seq<char>,
    pub file_offset: nat,
    pub record_sizes: Seq<usize>,
}

/// A batch as the agent hands it to the offset index on flush: the segment
/// that holds it, the byte at which it starts, and the size of each record.
#[derive(Debug)]
pub struct BatchMetadata {
    pub file_name: String,
    pub file_offset: usize,
    pub record_sizes: Vec<usize>,
}

impl View for BatchMetadata {
    type V = Extent;

    open spec fn view(&self) -> Extent {
        Extent {
            file_name: self.file_name@,
            file_offset: self.file_offset as nat,
            record_sizes: self.record_sizes@,
        }
    }
}

/// A record that a producer appends to a (topic, partition).
pub struct WriteRequest {
    pub topic: String,
    pub partition: String,
    pub value: Vec<u8>,
}

/// A byte window to fetch from a segment, and the sizes of the records in it.
#[derive(Debug)]
pub struct BatchRead {
    pub file_name: String,
    pub file_offset: usize,
    pub record_sizes: Vec<usize>,
}

impl View for BatchRead {
    type V = Extent;

    open spec fn view(&self) -> Extent {
        Extent {
            file_name: self.file_name@,
            file_offset: self.file_offset as nat,
            record_sizes: self.record_sizes@,
        }
    }
}

/// The views of a list of byte windows.
pub open spec fn extents_of(reads: Seq<BatchRead>) -> Seq<Extent> {
    Seq::new(reads.len(), |i: int| reads[i]@)
}

/// A consumer's request for the records of a range of offsets.
pub struct ReadRequest {
    pub topic: String,
    pub partition: String,
    pub offsets: OffsetRange,
}

impl Default for ReadRequest {
    fn default() -> (request: ReadRequest)
        ensures
            request.topic@ == Seq::<char>::empty(),
            request.partition@ == Seq::<char>::empty(),
            request.offsets == (0usize, 0usize),
    {
        ReadRequest { topic: String::new(), partition: String::new(), offsets: (0, 0) }
    }
}

/// The records of a range of offsets, in ascending offset order.
pub struct ReadResult {
    pub offsets: OffsetRange,
    pub values: Vec<Vec<u8>>,
}

impl Default for ReadResult {
    fn default() -> (result: ReadResult)
        ensures
            result.offsets == (0usize, 0usize),
            result.values@ == Seq::<Vec<u8>>::empty(),
    {
        ReadResult { offsets: (0, 0), values: Vec::new() }
    }
}

} // verus!
