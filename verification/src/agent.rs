//! The log agent: it buffers appended records per (topic, partition), packs
//! the buffers into a segment on flush, and resolves reads through the
//! offset index.

use vstd::prelude::*;
use crate::metadata::{MetadataStore, can_write};
use crate::offset_index::{IndexEntry, commit, read_outcome};
use crate::records::{
    lemma_flatten_of_split, lemma_split_push, lemma_total_size_take, payloads_of, sizes_of,
    slice_records, split_records, total_size, window_records, windows_match,
};
use crate::segment_name::{fresh_segment_name, is_segment_name};
use crate::topic_partition::{Key, TopicPartition};
use crate::types::{
    BatchMetadata, BatchReads, Extent, LogError, ReadRequest, ReadResult, WriteRequest,
    extents_of,
};

verus! {

/// What a flush hands to segment storage and to the offset index: the name
/// and the bytes of the new segment, and the batch of every partition.
pub struct Segment {
    pub file_name: String,
    pub file_bytes: Vec<u8>,
    pub metadata: TopicPartition<BatchMetadata>,
}

/// The bytes of a segment that holds the records of the given buffers, one
/// buffer after the other.
pub open spec fn packed(buffers: Seq<Seq<Seq<u8>>>) -> Seq<u8>
    decreases buffers.len(),
{
    if buffers.len() == 0 {
        Seq::empty()
    } else {
        packed(buffers.drop_last()) + buffers.last().flatten()
    }
}

/// Where the records of the buffer at position `i` lie in the segment of
/// the given name.
pub open spec fn batch_extent(buffers: Seq<Seq<Seq<u8>>>, i: int, file_name: Seq<char>) -> Extent {
    Extent {
        file_name,
        file_offset: packed(buffers.take(i)).len(),
        record_sizes: sizes_of(buffers[i]),
    }
}

/// Whether the segment holds the records of the buffers, and its batches say
/// where the records of each key lie.
pub open spec fn is_packing(keys: Seq<Key>, buffers: Seq<Seq<Seq<u8>>>, segment: Segment) -> bool {
    &&& segment.file_bytes@ == packed(buffers)
    &&& segment.metadata.wf()
    &&& segment.metadata.keys() == keys
    &&& segment.metadata.values().len() == keys.len()
    &&& forall|i: int|
        0 <= i < keys.len() ==> (#[trigger] segment.metadata.values()[i])@ == batch_extent(
            buffers,
            i,
            segment.file_name@,
        )
}

/// Whether there is one buffer for each key, no key occurs twice, every
/// buffer holds a record, and every record's size fits in a `usize`.
pub open spec fn buffers_valid(keys: Seq<Key>, buffers: Seq<Seq<Seq<u8>>>) -> bool {
    &&& keys.no_duplicates()
    &&& buffers.len() == keys.len()
    &&& forall|i: int| 0 <= i < buffers.len() ==> (#[trigger] buffers[i]).len() > 0
    &&& forall|i: int, k: int|
        0 <= i < buffers.len() && 0 <= k < buffers[i].len() ==> (#[trigger] buffers[i][k]).len()
            <= usize::MAX
}

/// The keys of the buffers after a record was appended for `key`: a key
/// without a buffer goes behind the others.
pub open spec fn keys_after_write(keys: Seq<Key>, key: Key) -> Seq<Key> {
    if keys.contains(key) {
        keys
    } else {
        keys.push(key)
    }
}

/// The buffers after `record` was appended for `key`: the record goes behind
/// the records of the key's buffer, or into a new buffer behind the others.
pub open spec fn buffers_after_write(
    keys: Seq<Key>,
    buffers: Seq<Seq<Seq<u8>>>,
    key: Key,
    record: Seq<u8>,
) -> Seq<Seq<Seq<u8>>> {
    if keys.contains(key) {
        let at = keys.index_of(key);
        buffers.update(at, buffers[at].push(record))
    } else {
        buffers.push(seq![record])
    }
}

/// The buffered records of a key; none for a key without a buffer.
pub open spec fn buffer_of(keys: Seq<Key>, buffers: Seq<Seq<Seq<u8>>>, key: Key) -> Seq<Seq<u8>> {
    if keys.contains(key) {
        buffers[keys.index_of(key)]
    } else {
        Seq::empty()
    }
}

/// Appending a record for a key puts it behind the buffered records of that
/// key, and leaves the buffered records of every other key as they are.
pub proof fn lemma_buffer_after_write(
    keys: Seq<Key>,
    buffers: Seq<Seq<Seq<u8>>>,
    key: Key,
    record: Seq<u8>,
    other: Key,
)
    requires
        keys.no_duplicates(),
        buffers.len() == keys.len(),
    ensures
        keys_after_write(keys, key).no_duplicates(),
        buffer_of(
            keys_after_write(keys, key),
            buffers_after_write(keys, buffers, key, record),
            other,
        ) == if other == key {
            buffer_of(keys, buffers, key).push(record)
        } else {
            buffer_of(keys, buffers, other)
        },
{
    let keys_after = keys_after_write(keys, key);
    let buffers_after = buffers_after_write(keys, buffers, key, record);
    if keys.contains(key) {
        let at = keys.index_of(key);
        if keys.contains(other) {
            let found = keys.index_of(other);
            assert(keys[found] == other);
        }
    } else {
        let n = keys.len() as int;
        assert(keys_after[n] == key);
        if keys.contains(other) {
            let found = keys.index_of(other);
            assert(keys_after[found] == other);
        }
        if keys_after.contains(other) {
            let found = keys_after.index_of(other);
            assert(keys_after[found] == other);
            if found < n {
                assert(keys[found] == other);
            }
        }
        assert(Seq::<Seq<u8>>::empty().push(record) =~= seq![record]);
    }
}

/// What an agent's read of the offset range `[start, end]` gives: a range
/// whose first offset is zero or lies after its last is invalid; any other
/// range is resolved by the offset index.
pub open spec fn agent_read_outcome(entries: Seq<IndexEntry>, start: nat, end: nat) -> Result<
    Seq<Extent>,
    LogError,
> {
    if end < start || start < 1 {
        Err(LogError::InvalidRange)
    } else {
        read_outcome(entries, start, end)
    }
}

/// How a flush ends: it fails where segment storage did not take the
/// segment, and where the offset index cannot take its batches.
pub open spec fn flush_outcome(stored: bool, committable: bool) -> Result<(), LogError> {
    if !stored {
        Err(LogError::StorageIOError)
    } else if !committable {
        Err(LogError::OffsetOutOfRange)
    } else {
        Ok(())
    }
}

/// A writer's and reader's session on the log.
pub struct Agent {
    active_records: TopicPartition<Vec<u8>>,
    active_metadata: TopicPartition<Vec<usize>>,
    id: usize,
}

impl Default for Agent {
    fn default() -> (agent: Agent)
        ensures
            agent.wf(),
            agent.id() == 0,
            agent.keys() == Seq::<Key>::empty(),
            agent.buffers() == Seq::<Seq<Seq<u8>>>::empty(),
    {
        Agent::new(0)
    }
}

impl Agent {
    /// The number that the agent was made with.
    pub closed spec fn id(&self) -> usize {
        self.id
    }

    /// The partitions that have buffered records, in the order of their
    /// first buffered record.
    pub closed spec fn keys(&self) -> Seq<Key> {
        self.active_records.keys()
    }

    /// The buffered records of each partition, at the position of its key.
    pub closed spec fn buffers(&self) -> Seq<Seq<Seq<u8>>> {
        Seq::new(
            self.active_records.values().len(),
            |i: int|
                split_records(self.active_records.values()[i]@, self.active_metadata.values()[i]@),
        )
    }

    /// The buffered records of a partition; none for a partition without a
    /// buffer.
    pub open spec fn buffered(&self, key: Key) -> Seq<Seq<u8>> {
        buffer_of(self.keys(), self.buffers(), key)
    }

    /// Every partition has one buffer, and the sizes of a buffer's records
    /// add up to the length of its bytes.
    pub closed spec fn wf(&self) -> bool {
        &&& self.active_records.wf()
        &&& self.active_metadata.wf()
        &&& self.active_metadata.keys() == self.active_records.keys()
        &&& forall|i: int|
            0 <= i < self.active_records.values().len() ==> total_size(
                (#[trigger] self.active_metadata.values()[i])@,
            ) == self.active_records.values()[i]@.len()
        &&& forall|i: int|
            0 <= i < self.active_metadata.values().len() ==> (
            #[trigger] self.active_metadata.values()[i])@.len() > 0
    }

    /// The buffers of a well-formed agent are valid.
    pub proof fn lemma_buffers_valid(&self)
        requires
            self.wf(),
        ensures
            buffers_valid(self.keys(), self.buffers()),
    {
        assert forall|i: int, k: int|
            0 <= i < self.buffers().len() && 0 <= k < self.buffers()[i].len() implies (
        #[trigger] self.buffers()[i][k]).len() <= usize::MAX by {
            let sizes = self.active_metadata.values()[i]@;
            lemma_total_size_take(sizes, k);
            lemma_total_size_take(sizes, k + 1);
        }
    }

    /// An agent without buffered records.
    pub fn new(num: usize) -> (agent: Self)
        ensures
            agent.wf(),
            agent.id() == num,
            agent.keys() == Seq::<Key>::empty(),
            agent.buffers() == Seq::<Seq<Seq<u8>>>::empty(),
    {
        let agent = Agent {
            active_records: TopicPartition::new(),
            active_metadata: TopicPartition::new(),
            id: num,
        };
        assert(agent.buffers() =~= Seq::<Seq<Seq<u8>>>::empty());
        agent
    }

    /// The buffered records of a partition, oldest first; none for a
    /// partition without a buffer.
    pub fn buffered_records(&self, topic: &String, partition: &String) -> (records: Vec<Vec<u8>>)
        requires
            self.wf(),
        ensures
            payloads_of(records@) == self.buffered((topic@, partition@)),
    {
        match self.active_records.position(topic, partition) {
            Some(at) => {
                match slice_records(
                    self.active_records.value_at(at),
                    self.active_metadata.value_at(at),
                ) {
                    Some(records) => records,
                    None => Vec::new(),
                }
            },
            None => {
                let records: Vec<Vec<u8>> = Vec::new();
                assert(payloads_of(records@) =~= Seq::<Seq<u8>>::empty());
                records
            },
        }
    }

    /// Packs the buffers into a segment of the given name: the bytes of the
    /// buffers one after the other, and for every partition the batch that
    /// says where its records lie.
    pub fn pack(&self, file_name: String) -> (segment: Segment)
        requires
            self.wf(),
        ensures
            segment.file_name == file_name,
            is_packing(self.keys(), self.buffers(), segment),
    {
        let mut metadata: TopicPartition<BatchMetadata> = TopicPartition::new();
        let mut file_bytes: Vec<u8> = Vec::new();
        let n: usize = self.active_records.len();
        let mut i: usize = 0;
        proof {
            assert(self.buffers().take(0) =~= Seq::<Seq<Seq<u8>>>::empty());
            assert(metadata.keys() =~= self.keys().take(0));
        }
        while i < n
            invariant
                self.wf(),
                n == self.keys().len(),
                i <= n,
                file_bytes@ == packed(self.buffers().take(i as int)),
                metadata.wf(),
                metadata.keys() == self.keys().take(i as int),
                metadata.values().len() == i,
                forall|j: int|
                    0 <= j < i ==> (#[trigger] metadata.values()[j])@ == batch_extent(
                        self.buffers(),
                        j,
                        file_name@,
                    ),
            decreases n - i,
        {
            let data = self.active_records.value_at(i);
            let sizes = self.active_metadata.value_at(i);
            let file_offset: usize = file_bytes.len();
            proof {
                lemma_flatten_of_split(data@, sizes@);
                assert(self.buffers().take(i + 1).drop_last() =~= self.buffers().take(i as int));
                assert(!metadata.contains_key(self.keys()[i as int]));
            }
            file_bytes.extend_from_slice(data.as_slice());
            let batch = BatchMetadata {
                file_name: file_name.clone(),
                file_offset,
                record_sizes: sizes.clone(),
            };
            metadata.push(
                self.active_records.topic_at(i).clone(),
                self.active_records.partition_at(i).clone(),
                batch,
            );
            i += 1;
            proof {
                assert(file_bytes@ =~= packed(self.buffers().take(i as int)));
                assert(metadata.keys() =~= self.keys().take(i as int));
            }
        }
        proof {
            assert(self.buffers().take(n as int) =~= self.buffers());
            assert(self.keys().take(n as int) =~= self.keys());
        }
        Segment { file_name, file_bytes, metadata }
    }

    /// Packs the buffers into a segment under a fresh name. `None` when
    /// nothing is buffered. The buffers stay as they are: they are cleared
    /// once the segment was stored and its batches were committed.
    pub fn flush(&self) -> (segment: Option<Segment>)
        requires
            self.wf(),
        ensures
            match segment {
                Some(segment) => self.keys().len() > 0 && is_segment_name(segment.file_name@)
                    && is_packing(self.keys(), self.buffers(), segment),
                None => self.keys().len() == 0,
            },
    {
        if self.active_records.len() == 0 {
            return None;
        }
        let file_name = fresh_segment_name();
        Some(self.pack(file_name))
    }

    /// Ends a flush, given whether segment storage took the segment. Where it
    /// did, commits the segment's batches to the offset index and clears the
    /// buffers. Where it did not, or where the index cannot take a batch
    /// because an offset or a byte position would not fit in a `usize`,
    /// fails and leaves the buffers and the index as they are.
    pub fn flush_and_send_metadata(
        &mut self,
        segment: Segment,
        stored: bool,
        store: &mut MetadataStore,
    ) -> (done: Result<(), LogError>)
        requires
            old(self).wf(),
            old(store).wf(),
            segment.metadata.wf(),
        ensures
            final(self).wf(),
            final(store).wf(),
            final(self).id() == old(self).id(),
            done == flush_outcome(stored, can_write(*old(store), segment.metadata)),
            done.is_ok() ==> final(self).keys() == Seq::<Key>::empty(),
            done.is_ok() ==> final(self).buffers() == Seq::<Seq<Seq<u8>>>::empty(),
            done.is_ok() ==> forall|key: Key| #[trigger]
                final(store).partition(key) == if segment.metadata.contains_key(key) {
                    commit(old(store).partition(key), segment.metadata.value_of(key)@)
                } else {
                    old(store).partition(key)
                },
            done.is_err() ==> *final(self) == *old(self) && *final(store) == *old(store),
    {
        if !stored {
            return Err(LogError::StorageIOError);
        }
        if !store.accepts(&segment.metadata) {
            return Err(LogError::OffsetOutOfRange);
        }
        store.write(segment.metadata, self.id);
        self.active_records.clear();
        self.active_metadata.clear();
        proof {
            assert(self.buffers() =~= Seq::<Seq<Seq<u8>>>::empty());
        }
        Ok(())
    }

    /// Resolves the offset range of the request to the byte windows that
    /// hold its records. Buffered records are not seen.
    pub fn read(&self, store: &MetadataStore, request: ReadRequest) -> (reads: Result<
        BatchReads,
        LogError,
    >)
        requires
            store.wf(),
        ensures
            match reads {
                Ok((range, windows)) => range == request.offsets && agent_read_outcome(
                    store.partition((request.topic@, request.partition@)),
                    request.offsets.0 as nat,
                    request.offsets.1 as nat,
                ) == Ok::<Seq<Extent>, LogError>(extents_of(windows@)),
                Err(error) => agent_read_outcome(
                    store.partition((request.topic@, request.partition@)),
                    request.offsets.0 as nat,
                    request.offsets.1 as nat,
                ) == Err::<Seq<Extent>, LogError>(error),
            },
    {
        if request.offsets.1 < request.offsets.0 || request.offsets.0 < 1 {
            return Err(LogError::InvalidRange);
        }
        store.read(request, self.id)
    }

    /// Ends a read: cuts the windows that were fetched for the resolved
    /// byte windows into records, in ascending offset order. Fails where a
    /// fetched window is missing or has another length than was asked for.
    pub fn read_result(&self, reads: &BatchReads, windows: &Vec<Vec<u8>>) -> (result: Result<
        ReadResult,
        LogError,
    >)
        ensures
            match result {
                Ok(records) => {
                    &&& windows_match(extents_of(reads.1@), payloads_of(windows@))
                    &&& records.offsets == reads.0
                    &&& payloads_of(records.values@) == window_records(
                        extents_of(reads.1@),
                        payloads_of(windows@),
                    )
                },
                Err(error) => error == LogError::StorageIOError && !windows_match(
                    extents_of(reads.1@),
                    payloads_of(windows@),
                ),
            },
    {
        let ghost extents = extents_of(reads.1@);
        let ghost fetched = payloads_of(windows@);
        if windows.len() != reads.1.len() {
            return Err(LogError::StorageIOError);
        }
        let mut values: Vec<Vec<u8>> = Vec::new();
        let mut i: usize = 0;
        proof {
            assert(extents.take(0) =~= Seq::<Extent>::empty());
        }
        while i < windows.len()
            invariant
                i <= windows@.len() == reads.1@.len(),
                extents == extents_of(reads.1@),
                fetched == payloads_of(windows@),
                forall|j: int|
                    0 <= j < i ==> total_size((#[trigger] extents[j]).record_sizes)
                        == fetched[j].len(),
                payloads_of(values@) == window_records(
                    extents.take(i as int),
                    fetched.take(i as int),
                ),
            decreases windows@.len() - i,
        {
            let ghost earlier = payloads_of(values@);
            match slice_records(&windows[i], &reads.1[i].record_sizes) {
                Some(records) => {
                    let mut records = records;
                    let ghost cut = payloads_of(records@);
                    values.append(&mut records);
                    proof {
                        assert(extents.take(i + 1).drop_last() =~= extents.take(i as int));
                        assert(fetched.take(i + 1).drop_last() =~= fetched.take(i as int));
                        assert(payloads_of(values@) =~= earlier + cut);
                    }
                },
                None => {
                    assert(total_size(extents[i as int].record_sizes) != fetched[i as int].len());
                    return Err(LogError::StorageIOError);
                },
            }
            i += 1;
        }
        proof {
            assert(extents.take(i as int) =~= extents);
            assert(fetched.take(i as int) =~= fetched);
        }
        Ok(ReadResult { offsets: reads.0, values })
    }

    /// Appends the record to the buffer of its partition. The first record
    /// of a partition opens its buffer, behind the buffers that exist.
    pub fn write(&mut self, request: WriteRequest)
        requires
            old(self).wf(),
        ensures
            final(self).wf(),
            final(self).id() == old(self).id(),
            final(self).keys() == keys_after_write(
                old(self).keys(),
                (request.topic@, request.partition@),
            ),
            final(self).buffers() == buffers_after_write(
                old(self).keys(),
                old(self).buffers(),
                (request.topic@, request.partition@),
                request.value@,
            ),
            forall|key: Key| #[trigger]
                final(self).buffered(key) == if key == (request.topic@, request.partition@) {
                    old(self).buffered(key).push(request.value@)
                } else {
                    old(self).buffered(key)
                },
    {
        let WriteRequest { topic, partition, value } = request;
        let mut value = value;
        let size: usize = value.len();
        match self.active_records.position(&topic, &partition) {
            Some(at) => {
                let ghost bytes = self.active_records.values()[at as int]@;
                let ghost sizes = self.active_metadata.values()[at as int]@;
                proof {
                    lemma_split_push(bytes, sizes, value@);
                }
                let partition_data = self.active_records.value_at_mut(at);
                partition_data.append(&mut value);
                let partition_metadata = self.active_metadata.value_at_mut(at);
                partition_metadata.push(size);
                proof {
                    assert(self.buffers() =~= old(self).buffers().update(
                        at as int,
                        old(self).buffers()[at as int].push(request.value@),
                    ));
                }
            },
            None => {
                let mut partition_metadata: Vec<usize> = Vec::new();
                partition_metadata.push(size);
                proof {
                    lemma_split_push(Seq::<u8>::empty(), Seq::<usize>::empty(), value@);
                    assert(Seq::<u8>::empty() + value@ =~= value@);
                    assert(split_records(Seq::<u8>::empty(), Seq::<usize>::empty())
                        =~= Seq::<Seq<u8>>::empty());
                    assert(partition_metadata@ =~= Seq::<usize>::empty().push(size));
                }
                self.active_records.push(topic.clone(), partition.clone(), value);
                self.active_metadata.push(topic, partition, partition_metadata);
                proof {
                    assert(self.buffers() =~= old(self).buffers().push(seq![request.value@]));
                }
            },
        }
        proof {
            old(self).lemma_buffers_valid();
            assert forall|key: Key| #[trigger]
                self.buffered(key) == if key == (request.topic@, request.partition@) {
                    old(self).buffered(key).push(request.value@)
                } else {
                    old(self).buffered(key)
                } by {
                lemma_buffer_after_write(
                    old(self).keys(),
                    old(self).buffers(),
                    (request.topic@, request.partition@),
                    request.value@,
                    key,
                );
            }
        }
    }
}

} // verus!
