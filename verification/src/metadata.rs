//! The offset index: for every (topic, partition) the committed batches,
//! each under the logical offset of its first record.

use vstd::prelude::*;
use crate::offset_index::{
    IndexEntry, RecordOffsetAndMetadata, can_commit, commit, read_outcome, well_formed,
};
use crate::topic_partition::{Key, TopicPartition};
use crate::types::{BatchMetadata, BatchReads, Extent, LogError, ReadRequest, extents_of};

verus! {

/// Maps (topic, partition, logical offset) to the place of the record in a
/// segment.
pub struct MetadataStore {
    metadata: TopicPartition<RecordOffsetAndMetadata>,
}

/// Whether every batch of the table can be committed to its partition.
pub open spec fn can_write(store: MetadataStore, batches: TopicPartition<BatchMetadata>) -> bool {
    forall|i: int|
        0 <= i < batches.keys().len() ==> can_commit(
            store.partition(#[trigger] batches.keys()[i]),
            batches.values()[i]@,
        )
}

/// The batches of a partition after the table's batches from position `n` on
/// were committed to the store.
spec fn written_from(
    store: MetadataStore,
    batches: TopicPartition<BatchMetadata>,
    n: int,
    key: Key,
) -> Seq<IndexEntry> {
    if batches.contains_key(key) && batches.keys().index_of(key) >= n {
        commit(store.partition(key), batches.value_of(key)@)
    } else {
        store.partition(key)
    }
}

impl MetadataStore {
    /// The committed batches of a partition, in the order of their offsets.
    /// Empty for a partition to which nothing was committed.
    pub closed spec fn partition(&self, key: Key) -> Seq<IndexEntry> {
        if self.metadata.as_map().dom().contains(key) {
            self.metadata.as_map()[key]@
        } else {
            Seq::empty()
        }
    }

    /// Every partition's index is well formed and holds a batch.
    pub closed spec fn wf(&self) -> bool {
        &&& self.metadata.wf()
        &&& forall|i: int|
            0 <= i < self.metadata.values().len() ==> (#[trigger] self.metadata.values()[i]).wf()
        &&& forall|i: int|
            0 <= i < self.metadata.values().len() ==> (#[trigger] self.metadata.values()[i])@.len()
                > 0
    }

    /// In a well-formed store every partition's batches are contiguous from
    /// offset 1.
    pub proof fn lemma_partition_well_formed(&self, key: Key)
        requires
            self.wf(),
        ensures
            well_formed(self.partition(key)),
    {
        if self.metadata.contains_key(key) {
            let i = self.metadata.keys().index_of(key);
            assert(self.metadata.values()[i].wf());
        }
    }

    /// A store without committed batches.
    pub fn new() -> (store: Self)
        ensures
            store.wf(),
            forall|key: Key| #[trigger] store.partition(key) == Seq::<IndexEntry>::empty(),
    {
        MetadataStore { metadata: TopicPartition::new() }
    }

    /// The index of a partition. `None` for a partition to which nothing
    /// was committed.
    pub fn get(&self, topic: &String, partition: &String) -> (index: Option<
        &RecordOffsetAndMetadata,
    >)
        requires
            self.wf(),
        ensures
            match index {
                Some(index) => index@ == self.partition((topic@, partition@)) && index@.len() > 0
                    && index.wf(),
                None => self.partition((topic@, partition@)) == Seq::<IndexEntry>::empty(),
            },
    {
        match self.metadata.position(topic, partition) {
            Some(at) => {
                proof {
                    self.metadata.lemma_key_at(at as int);
                }
                Some(self.metadata.value_at(at))
            },
            None => None,
        }
    }

    /// Whether every batch of the table can be committed to its partition.
    pub fn accepts(&self, batches: &TopicPartition<BatchMetadata>) -> (accepted: bool)
        requires
            self.wf(),
            batches.wf(),
        ensures
            accepted == can_write(*self, *batches),
    {
        let mut i: usize = 0;
        while i < batches.len()
            invariant
                self.wf(),
                batches.wf(),
                i <= batches.keys().len(),
                forall|j: int|
                    0 <= j < i ==> can_commit(
                        self.partition(#[trigger] batches.keys()[j]),
                        batches.values()[j]@,
                    ),
            decreases batches.keys().len() - i,
        {
            let batch = batches.value_at(i);
            let accepted: bool = match self.metadata.position(
                batches.topic_at(i),
                batches.partition_at(i),
            ) {
                Some(at) => {
                    proof {
                        self.metadata.lemma_key_at(at as int);
                    }
                    self.metadata.value_at(at).accepts(batch)
                },
                None => RecordOffsetAndMetadata::new().accepts(batch),
            };
            if !accepted {
                assert(!can_commit(self.partition(batches.keys()[i as int]), batches.values()[i as int]@));
                return false;
            }
            i += 1;
        }
        true
    }

    /// Commits every batch of the table to its partition, under the logical
    /// offset that follows the partition's last committed record, or under
    /// offset 1 where the partition has none.
    pub fn write(&mut self, received_metadata: TopicPartition<BatchMetadata>, _agent_id: usize)
        requires
            old(self).wf(),
            received_metadata.wf(),
            can_write(*old(self), received_metadata),
        ensures
            final(self).wf(),
            forall|key: Key| #[trigger]
                final(self).partition(key) == if received_metadata.contains_key(key) {
                    commit(old(self).partition(key), received_metadata.value_of(key)@)
                } else {
                    old(self).partition(key)
                },
            forall|key: Key| well_formed(#[trigger] final(self).partition(key)),
    {
        let mut pending = received_metadata;
        let ghost before = *self;
        loop
            invariant
                self.wf(),
                pending.wf(),
                received_metadata.wf(),
                before.wf(),
                can_write(before, received_metadata),
                pending.keys().len() <= received_metadata.keys().len(),
                pending.keys() == received_metadata.keys().take(pending.keys().len() as int),
                pending.values() == received_metadata.values().take(pending.keys().len() as int),
                forall|key: Key| #[trigger]
                    self.partition(key) == written_from(
                        before,
                        received_metadata,
                        pending.keys().len() as int,
                        key,
                    ),
            ensures
                self.wf(),
                forall|key: Key| #[trigger]
                    self.partition(key) == written_from(before, received_metadata, 0, key),
            decreases pending.keys().len(),
        {
            let ghost n = pending.keys().len() as int;
            let ghost earlier = *self;
            match pending.pop() {
                None => {
                    break ;
                },
                Some((topic, partition, batch)) => {
                    let ghost key = (topic@, partition@);
                    proof {
                        received_metadata.lemma_key_at(n - 1);
                        assert(key == received_metadata.keys()[n - 1]);
                        assert(batch == received_metadata.values()[n - 1]);
                        assert(self.partition(key) == before.partition(key));
                    }
                    match self.metadata.position(&topic, &partition) {
                        Some(at) => {
                            proof {
                                self.metadata.lemma_key_at(at as int);
                            }
                            let index = self.metadata.value_at_mut(at);
                            index.insert(batch);
                            proof {
                                TopicPartition::lemma_map_after_update(
                                    earlier.metadata,
                                    self.metadata,
                                    at as int,
                                    self.metadata.values()[at as int],
                                );
                            }
                        },
                        None => {
                            let mut index = RecordOffsetAndMetadata::new();
                            index.insert(batch);
                            self.metadata.push(topic, partition, index);
                            proof {
                                TopicPartition::lemma_map_after_push(
                                    earlier.metadata,
                                    self.metadata,
                                    key,
                                    index,
                                );
                            }
                        },
                    }
                    proof {
                        assert(self.partition(key) == commit(before.partition(key), batch@));
                        assert forall|other: Key| #[trigger]
                            self.partition(other) == written_from(
                                before,
                                received_metadata,
                                n - 1,
                                other,
                            ) by {
                            if other != key {
                                assert(self.partition(other) == earlier.partition(other));
                                if received_metadata.contains_key(other) {
                                    let j = received_metadata.keys().index_of(other);
                                    assert(received_metadata.keys()[j] == other);
                                }
                            }
                        }
                        assert(pending.keys() =~= received_metadata.keys().take(n - 1));
                        assert(pending.values() =~= received_metadata.values().take(n - 1));
                    }
                },
            }
        }
        proof {
            assert forall|key: Key| #[trigger]
                self.partition(key) == if received_metadata.contains_key(key) {
                    commit(before.partition(key), received_metadata.value_of(key)@)
                } else {
                    before.partition(key)
                } by {
                assert(self.partition(key) == written_from(before, received_metadata, 0, key));
                if received_metadata.contains_key(key) {
                    let j = received_metadata.keys().index_of(key);
                    assert(0 <= j);
                }
            }
            assert forall|key: Key| well_formed(#[trigger] self.partition(key)) by {
                self.lemma_partition_well_formed(key);
            }
        }
    }

    /// Resolves the offset range of the request to the byte windows that
    /// hold its records, in ascending offset order.
    pub fn read(&self, request: ReadRequest, _agent_id: usize) -> (reads: Result<
        BatchReads,
        LogError,
    >)
        requires
            self.wf(),
        ensures
            match reads {
                Ok((range, windows)) => range == request.offsets && read_outcome(
                    self.partition((request.topic@, request.partition@)),
                    request.offsets.0 as nat,
                    request.offsets.1 as nat,
                ) == Ok::<Seq<Extent>, LogError>(extents_of(windows@)),
                Err(error) => read_outcome(
                    self.partition((request.topic@, request.partition@)),
                    request.offsets.0 as nat,
                    request.offsets.1 as nat,
                ) == Err::<Seq<Extent>, LogError>(error),
            },
    {
        match self.metadata.position(&request.topic, &request.partition) {
            Some(i) => {
                proof {
                    self.metadata.lemma_key_at(i as int);
                }
                let index = self.metadata.value_at(i);
                match index.read(request.offsets.0, request.offsets.1) {
                    Ok(windows) => Ok((request.offsets, windows)),
                    Err(error) => Err(error),
                }
            },
            None => Err(LogError::UnknownTopicPartition),
        }
    }
}

} // verus!
