//! The offset index of one partition: its committed batches, each under the
//! logical offset of its first record.

use vstd::prelude::*;
use crate::records::{
    byte_length, lemma_total_size_take, prefix_length, sizes_between, total_size,
};
use crate::types::{BatchMetadata, BatchRead, Extent, LogError, extents_of};

verus! {

/// A committed batch: the logical offset of its first record, and where its
/// records lie.
pub struct IndexEntry {
    pub start: nat,
    pub extent: Extent,
}

/// The number of records of a committed batch.
pub open spec fn record_count(entry: IndexEntry) -> nat {
    entry.extent.record_sizes.len()
}

/// The bytes of the batch end at an offset that a `usize` can hold.
pub open spec fn addressable(extent: Extent) -> bool {
    extent.file_offset + total_size(extent.record_sizes) <= usize::MAX
}

/// The batch at position `i` starts where the one before it ends.
pub open spec fn follows(entries: Seq<IndexEntry>, i: int) -> bool {
    entries[i].start == entries[i - 1].start + record_count(entries[i - 1])
}

/// No batch is empty, the first batch starts at offset 1, and each further
/// batch starts where the one before it ends.
pub open spec fn contiguous(entries: Seq<IndexEntry>) -> bool {
    &&& forall|i: int| 0 <= i < entries.len() ==> record_count(#[trigger] entries[i]) > 0
    &&& entries.len() > 0 ==> entries[0].start == 1
    &&& forall|i: int| 0 < i < entries.len() ==> #[trigger] follows(entries, i)
}

/// The logical offset that the next committed record gets.
pub open spec fn next_offset(entries: Seq<IndexEntry>) -> nat {
    if entries.len() == 0 {
        1
    } else {
        entries.last().start + record_count(entries.last())
    }
}

/// The batches are contiguous from offset 1, and every offset and every byte
/// position that the index speaks of fits in a `usize`.
pub open spec fn well_formed(entries: Seq<IndexEntry>) -> bool {
    &&& contiguous(entries)
    &&& next_offset(entries) <= usize::MAX
    &&& forall|i: int| 0 <= i < entries.len() ==> addressable(#[trigger] entries[i].extent)
}

/// Whether the index can take the batch: the batch has a record, its bytes
/// end at an addressable position, and its records' offsets fit in a `usize`.
pub open spec fn can_commit(entries: Seq<IndexEntry>, batch: Extent) -> bool {
    &&& batch.record_sizes.len() > 0
    &&& addressable(batch)
    &&& next_offset(entries) + batch.record_sizes.len() <= usize::MAX
}

/// The index after the batch was committed under the next logical offset.
pub open spec fn commit(entries: Seq<IndexEntry>, batch: Extent) -> Seq<IndexEntry> {
    entries.push(IndexEntry { start: next_offset(entries), extent: batch })
}

/// Whether the batch at position `i` is the one with the largest start that
/// is not after `offset`.
pub open spec fn is_containing(entries: Seq<IndexEntry>, i: int, offset: nat) -> bool {
    &&& 0 <= i < entries.len()
    &&& entries[i].start <= offset
    &&& i + 1 < entries.len() ==> offset < entries[i + 1].start
}

/// The position of the batch with the largest start that is not after `offset`.
pub open spec fn containing_index(entries: Seq<IndexEntry>, offset: nat) -> int {
    choose|i: int| is_containing(entries, i, offset)
}

/// The position in a batch of the first record that a read from offset
/// `start` on takes.
pub open spec fn trim_lo(entry: IndexEntry, start: nat) -> int {
    if entry.start < start {
        start - entry.start
    } else {
        0
    }
}

/// The position in a batch behind the last record that a read up to offset
/// `end` takes.
pub open spec fn trim_hi(entry: IndexEntry, end: nat) -> int {
    if end + 1 < entry.start + record_count(entry) {
        end + 1 - entry.start
    } else {
        record_count(entry) as int
    }
}

/// The part of a batch that lies in the offset range `[start, end]`.
pub open spec fn trim(entry: IndexEntry, start: nat, end: nat) -> Extent {
    let sizes = entry.extent.record_sizes;
    let lo = trim_lo(entry, start);
    let hi = trim_hi(entry, end);
    Extent {
        file_name: entry.extent.file_name,
        file_offset: entry.extent.file_offset + total_size(sizes.take(lo)),
        record_sizes: sizes.subrange(lo, hi),
    }
}

/// The byte windows that hold the records of the offset range `[start, end]`,
/// in ascending offset order: one for each batch from the one that contains
/// `start` to the one that contains `end`, the first and the last cut down to
/// the range.
pub open spec fn resolve(entries: Seq<IndexEntry>, start: nat, end: nat) -> Seq<Extent> {
    let first = containing_index(entries, start);
    let last = containing_index(entries, end);
    Seq::new((last - first + 1) as nat, |j: int| trim(entries[first + j], start, end))
}

/// What a read of the offset range `[start, end]` gives: the byte windows of
/// the range, or the reason why there are none.
pub open spec fn read_outcome(entries: Seq<IndexEntry>, start: nat, end: nat) -> Result<
    Seq<Extent>,
    LogError,
> {
    if entries.len() == 0 {
        Err(LogError::UnknownTopicPartition)
    } else if start > end {
        Err(LogError::InvalidRange)
    } else if start < 1 || end >= next_offset(entries) {
        Err(LogError::OffsetOutOfRange)
    } else {
        Ok(resolve(entries, start, end))
    }
}

/// In a contiguous index a later batch starts after the last record of an
/// earlier one.
pub proof fn lemma_starts_increase(entries: Seq<IndexEntry>, i: int, j: int)
    requires
        contiguous(entries),
        0 <= i < j < entries.len(),
    ensures
        entries[i].start + record_count(entries[i]) <= entries[j].start,
    decreases j - i,
{
    assert(follows(entries, j));
    if i + 1 < j {
        lemma_starts_increase(entries, i, j - 1);
    }
}

/// In a contiguous index the containing batch of a committed offset holds
/// the record of that offset.
pub proof fn lemma_containing_holds(entries: Seq<IndexEntry>, i: int, offset: nat)
    requires
        contiguous(entries),
        is_containing(entries, i, offset),
        offset < next_offset(entries),
    ensures
        entries[i].start <= offset < entries[i].start + record_count(entries[i]),
{
    if i + 1 < entries.len() {
        assert(follows(entries, i + 1));
    }
}

/// In a contiguous index no batch that starts at or before an offset starts
/// after the containing batch of that offset.
pub proof fn lemma_containing_is_largest(entries: Seq<IndexEntry>, i: int, offset: nat, j: int)
    requires
        contiguous(entries),
        is_containing(entries, i, offset),
        0 <= j < entries.len(),
        entries[j].start <= offset,
    ensures
        entries[j].start <= entries[i].start,
{
    if i + 1 < j {
        lemma_starts_increase(entries, i + 1, j);
    }
    if j < i {
        lemma_starts_increase(entries, j, i);
    }
}

/// In a contiguous index at most one batch is the containing one.
pub proof fn lemma_containing_unique(entries: Seq<IndexEntry>, i: int, offset: nat)
    requires
        contiguous(entries),
        is_containing(entries, i, offset),
    ensures
        containing_index(entries, offset) == i,
{
    let k = containing_index(entries, offset);
    assert(is_containing(entries, k, offset));
    if k < i {
        if k + 1 < i {
            lemma_starts_increase(entries, k + 1, i);
        }
    } else if i < k {
        if i + 1 < k {
            lemma_starts_increase(entries, i + 1, k);
        }
    }
}

struct Slot {
    start: usize,
    batch: BatchMetadata,
}

/// The committed batches of one partition, sorted by the logical offset of
/// their first record.
pub struct RecordOffsetAndMetadata {
    slots: Vec<Slot>,
}

impl View for RecordOffsetAndMetadata {
    type V = Seq<IndexEntry>;

    closed spec fn view(&self) -> Seq<IndexEntry> {
        Seq::new(
            self.slots@.len(),
            |i: int| IndexEntry { start: self.slots@[i].start as nat, extent: self.slots@[i].batch@ },
        )
    }
}

impl RecordOffsetAndMetadata {
    /// The index is well formed.
    pub open spec fn wf(&self) -> bool {
        well_formed(self@)
    }

    /// An index without batches.
    pub fn new() -> (index: Self)
        ensures
            index.wf(),
            index@ == Seq::<IndexEntry>::empty(),
    {
        RecordOffsetAndMetadata { slots: Vec::new() }
    }

    /// The number of committed batches.
    pub fn len(&self) -> (n: usize)
        ensures
            n == self@.len(),
    {
        self.slots.len()
    }

    /// The logical offset of the first record of the batch at position `i`.
    pub fn start_at(&self, i: usize) -> (start: usize)
        requires
            i < self@.len(),
        ensures
            start == self@[i as int].start,
    {
        self.slots[i].start
    }

    /// The batch at position `i`.
    pub fn batch_at(&self, i: usize) -> (batch: &BatchMetadata)
        requires
            i < self@.len(),
        ensures
            batch@ == self@[i as int].extent,
    {
        &self.slots[i].batch
    }

    /// The start and the batch of the last committed batch, if there is one.
    pub fn last_key_value(&self) -> (last: Option<(usize, &BatchMetadata)>)
        ensures
            match last {
                Some((start, batch)) => self@.len() > 0 && start == self@.last().start && batch@
                    == self@.last().extent,
                None => self@.len() == 0,
            },
    {
        let n: usize = self.slots.len();
        if n == 0 {
            None
        } else {
            Some((self.slots[n - 1].start, &self.slots[n - 1].batch))
        }
    }

    /// The logical offset that the next committed record gets.
    pub fn next_offset(&self) -> (offset: usize)
        requires
            self.wf(),
        ensures
            offset == next_offset(self@),
    {
        match self.last_key_value() {
            Some((start, batch)) => start + batch.record_sizes.len(),
            None => 1,
        }
    }

    /// The position of the batch with the largest start that is not after
    /// `offset`. `None` when every batch starts after it.
    pub fn containing(&self, offset: usize) -> (found: Option<usize>)
        requires
            self.wf(),
        ensures
            match found {
                Some(i) => is_containing(self@, i as int, offset as nat) && containing_index(
                    self@,
                    offset as nat,
                ) == i,
                None => forall|i: int| 0 <= i < self@.len() ==> offset < (#[trigger] self@[i]).start,
            },
    {
        if self.slots.len() == 0 || offset < self.slots[0].start {
            proof {
                assert forall|i: int| 0 <= i < self@.len() implies offset < (#[trigger] self@[
                    i
                ]).start by {
                    if 0 < i {
                        lemma_starts_increase(self@, 0, i);
                    }
                }
            }
            return None;
        }
        let mut lo: usize = 0;
        let mut hi: usize = self.slots.len();
        while hi - lo > 1
            invariant
                lo < hi <= self.slots@.len(),
                self@.len() == self.slots@.len(),
                self@[lo as int].start <= offset,
                hi < self@.len() ==> offset < self@[hi as int].start,
            decreases hi - lo,
        {
            let mid: usize = lo + (hi - lo) / 2;
            if self.slots[mid].start <= offset {
                lo = mid;
            } else {
                hi = mid;
            }
        }
        proof {
            lemma_containing_unique(self@, lo as int, offset as nat);
        }
        Some(lo)
    }

    /// The part of the batch at position `i` that lies in `[start, end]`.
    fn trimmed(&self, i: usize, start: usize, end: usize) -> (read: BatchRead)
        requires
            self.wf(),
            i < self@.len(),
            start <= end,
            self@[i as int].start <= end,
            start < self@[i as int].start + record_count(self@[i as int]),
        ensures
            read@ == trim(self@[i as int], start as nat, end as nat),
    {
        let slot = &self.slots[i];
        let count: usize = slot.batch.record_sizes.len();
        assert(record_count(self@[i as int]) > 0);
        assert(addressable(self@[i as int].extent));
        let lo: usize = if slot.start < start {
            start - slot.start
        } else {
            0
        };
        let hi: usize = if end - slot.start < count - 1 {
            end - slot.start + 1
        } else {
            count
        };
        proof {
            lemma_total_size_take(slot.batch.record_sizes@, lo as int);
        }
        let skipped: usize = prefix_length(&slot.batch.record_sizes, lo);
        let record_sizes = sizes_between(&slot.batch.record_sizes, lo, hi);
        BatchRead {
            file_name: slot.batch.file_name.clone(),
            file_offset: slot.batch.file_offset + skipped,
            record_sizes,
        }
    }

    /// Resolves the offset range `[start, end]` to the byte windows that hold
    /// its records, in ascending offset order.
    pub fn read(&self, start: usize, end: usize) -> (reads: Result<Vec<BatchRead>, LogError>)
        requires
            self.wf(),
        ensures
            match reads {
                Ok(windows) => read_outcome(self@, start as nat, end as nat) == Ok::<
                    Seq<Extent>,
                    LogError,
                >(extents_of(windows@)),
                Err(error) => read_outcome(self@, start as nat, end as nat) == Err::<
                    Seq<Extent>,
                    LogError,
                >(error),
            },
    {
        if self.slots.len() == 0 {
            return Err(LogError::UnknownTopicPartition);
        }
        if start > end {
            return Err(LogError::InvalidRange);
        }
        if start < 1 || end >= self.next_offset() {
            return Err(LogError::OffsetOutOfRange);
        }
        let first: usize = match self.containing(start) {
            Some(i) => i,
            None => {
                assert(self@[0].start == 1);
                return Err(LogError::OffsetOutOfRange);
            },
        };
        let last: usize = match self.containing(end) {
            Some(i) => i,
            None => {
                assert(self@[0].start == 1);
                return Err(LogError::OffsetOutOfRange);
            },
        };
        proof {
            lemma_containing_holds(self@, first as int, start as nat);
            lemma_containing_holds(self@, last as int, end as nat);
            if last < first {
                lemma_starts_increase(self@, last as int, first as int);
            }
            assert(self@.len() == self.slots.len());
        }
        let mut windows: Vec<BatchRead> = Vec::new();
        let mut i: usize = first;
        while i <= last
            invariant
                self.wf(),
                start <= end,
                first <= i <= last + 1,
                last < self@.len() <= usize::MAX,
                start < self@[first as int].start + record_count(self@[first as int]),
                self@[last as int].start <= end,
                windows@.len() == i - first,
                forall|j: int|
                    0 <= j < i - first ==> (#[trigger] windows@[j])@ == trim(
                        self@[first + j],
                        start as nat,
                        end as nat,
                    ),
            decreases last + 1 - i,
        {
            proof {
                if i < last {
                    lemma_starts_increase(self@, i as int, last as int);
                }
                if first < i {
                    lemma_starts_increase(self@, first as int, i as int);
                }
            }
            let window = self.trimmed(i, start, end);
            windows.push(window);
            i += 1;
        }
        proof {
            assert(extents_of(windows@) =~= resolve(self@, start as nat, end as nat));
        }
        Ok(windows)
    }

    /// Whether the index can take the batch.
    pub fn accepts(&self, batch: &BatchMetadata) -> (accepted: bool)
        requires
            self.wf(),
        ensures
            accepted == can_commit(self@, batch@),
    {
        if batch.record_sizes.len() == 0 {
            return false;
        }
        let fits: bool = match byte_length(&batch.record_sizes) {
            Some(length) => batch.file_offset.checked_add(length).is_some(),
            None => false,
        };
        fits && self.next_offset().checked_add(batch.record_sizes.len()).is_some()
    }

    /// Commits a batch under the next logical offset.
    pub fn insert(&mut self, batch: BatchMetadata)
        requires
            old(self).wf(),
            can_commit(old(self)@, batch@),
        ensures
            final(self).wf(),
            final(self)@ == commit(old(self)@, batch@),
    {
        let start: usize = self.next_offset();
        self.slots.push(Slot { start, batch });
        proof {
            assert(self@ =~= old(self)@.push(
                IndexEntry { start: next_offset(old(self)@), extent: batch@ },
            ));
            assert forall|i: int| 0 < i < self@.len() implies #[trigger] follows(self@, i) by {
                if i < old(self)@.len() {
                    assert(follows(old(self)@, i));
                }
            }
        }
    }
}

} // verus!
