use std::collections::HashMap;

use logstore::agent::{Agent, Segment};
use logstore::metadata::MetadataStore;
use logstore::records::byte_length;
use logstore::topic_partition::TopicPartition;
use logstore::types::{BatchMetadata, LogError, ReadRequest, ReadResult, WriteRequest};

fn write(agent: &mut Agent, topic: &str, partition: &str, value: &str) {
    agent.write(WriteRequest {
        topic: topic.to_owned(),
        partition: partition.to_owned(),
        value: value.as_bytes().to_vec(),
    });
}

fn flush(
    agent: &mut Agent,
    store: &mut MetadataStore,
    storage: &mut HashMap<String, Vec<u8>>,
) -> Option<String> {
    let segment = agent.flush()?;
    let name = segment.file_name.clone();
    assert!(!storage.contains_key(&name));
    storage.insert(name.clone(), segment.file_bytes.clone());
    agent.flush_and_send_metadata(segment, true, store).unwrap();
    Some(name)
}

fn read(
    agent: &Agent,
    store: &MetadataStore,
    storage: &HashMap<String, Vec<u8>>,
    topic: &str,
    partition: &str,
    offsets: (usize, usize),
) -> Result<ReadResult, LogError> {
    let request = ReadRequest { topic: topic.to_owned(), partition: partition.to_owned(), offsets };
    let reads = agent.read(store, request)?;
    let mut windows = Vec::new();
    for window in &reads.1 {
        let length = byte_length(&window.record_sizes).unwrap();
        let bytes = &storage[&window.file_name];
        windows.push(bytes[window.file_offset..window.file_offset + length].to_vec());
    }
    agent.read_result(&reads, &windows)
}

fn texts(result: &ReadResult) -> Vec<String> {
    result.values.iter().map(|value| String::from_utf8(value.clone()).unwrap()).collect()
}

fn scenario() -> (Agent, MetadataStore, HashMap<String, Vec<u8>>, String, String) {
    let mut agent = Agent::new(1);
    let mut store = MetadataStore::new();
    let mut storage = HashMap::new();
    write(&mut agent, "1", "1", "test");
    write(&mut agent, "1", "1", "another");
    let first = flush(&mut agent, &mut store, &mut storage).unwrap();
    write(&mut agent, "2", "2", "test2");
    write(&mut agent, "1", "1", "follow");
    let second = flush(&mut agent, &mut store, &mut storage).unwrap();
    (agent, store, storage, first, second)
}

#[test]
fn two_flushes_assign_offsets_one_and_three() {
    let mut agent = Agent::new(1);
    let mut store = MetadataStore::new();
    let mut storage = HashMap::new();
    let one = "1".to_owned();
    let two = "2".to_owned();

    write(&mut agent, "1", "1", "test");
    write(&mut agent, "1", "1", "another");
    let first = flush(&mut agent, &mut store, &mut storage).unwrap();
    {
        let index = store.get(&one, &one).unwrap();
        assert_eq!(index.len(), 1);
        assert_eq!(index.start_at(0), 1);
        assert_eq!(index.batch_at(0).record_sizes, vec![4, 7]);
        assert_eq!(index.batch_at(0).file_name, first);
        assert_eq!(index.batch_at(0).file_offset, 0);
        assert!(store.get(&two, &two).is_none());
    }

    write(&mut agent, "2", "2", "test2");
    write(&mut agent, "1", "1", "follow");
    let second = flush(&mut agent, &mut store, &mut storage).unwrap();
    assert_ne!(first, second);

    let index = store.get(&one, &one).unwrap();
    assert_eq!(index.len(), 2);
    assert_eq!(index.start_at(0), 1);
    assert_eq!(index.batch_at(0).record_sizes, vec![4, 7]);
    assert_eq!(index.start_at(1), 3);
    assert_eq!(index.batch_at(1).record_sizes, vec![6]);
    assert_eq!(index.batch_at(1).file_name, second);
    assert_eq!(index.batch_at(1).file_offset, 5);
    assert_eq!(index.next_offset(), 4);

    let other = store.get(&two, &two).unwrap();
    assert_eq!(other.len(), 1);
    assert_eq!(other.start_at(0), 1);
    assert_eq!(other.batch_at(0).record_sizes, vec![5]);
    assert_eq!(other.batch_at(0).file_name, second);
    assert_eq!(other.batch_at(0).file_offset, 0);

    assert_eq!(storage[&first], b"testanother".to_vec());
    assert_eq!(storage[&second], b"test2follow".to_vec());
}

#[test]
fn read_of_offset_three_returns_follow() {
    let (agent, store, storage, _, _) = scenario();
    let result = read(&agent, &store, &storage, "1", "1", (3, 3)).unwrap();
    assert_eq!(result.offsets, (3, 3));
    assert_eq!(texts(&result), vec!["follow"]);
}

#[test]
fn read_of_other_partition_returns_test2() {
    let (agent, store, storage, _, _) = scenario();
    let result = read(&agent, &store, &storage, "2", "2", (1, 1)).unwrap();
    assert_eq!(result.offsets, (1, 1));
    assert_eq!(texts(&result), vec!["test2"]);
}

#[test]
fn read_of_whole_partition_spans_both_segments() {
    let (agent, store, storage, first, second) = scenario();
    let request = ReadRequest { topic: "1".to_owned(), partition: "1".to_owned(), offsets: (1, 3) };
    let reads = agent.read(&store, request).unwrap();
    assert_eq!(reads.0, (1, 3));
    assert_eq!(reads.1.len(), 2);
    assert_eq!(reads.1[0].file_name, first);
    assert_eq!(reads.1[0].file_offset, 0);
    assert_eq!(reads.1[0].record_sizes, vec![4, 7]);
    assert_eq!(reads.1[1].file_name, second);
    assert_eq!(reads.1[1].file_offset, 5);
    assert_eq!(reads.1[1].record_sizes, vec![6]);
    let result = read(&agent, &store, &storage, "1", "1", (1, 3)).unwrap();
    assert_eq!(texts(&result), vec!["test", "another", "follow"]);
}

#[test]
fn written_records_come_back_unchanged() {
    let mut agent = Agent::new(7);
    let mut store = MetadataStore::new();
    let mut storage = HashMap::new();
    let records = ["alpha", "", "gamma delta", "e"];
    for record in records {
        write(&mut agent, "orders", "0", record);
    }
    flush(&mut agent, &mut store, &mut storage).unwrap();
    let result = read(&agent, &store, &storage, "orders", "0", (1, 4)).unwrap();
    assert_eq!(result.offsets, (1, 4));
    assert_eq!(texts(&result), records.to_vec());
}

#[test]
fn read_inside_a_batch_returns_only_the_record_asked_for() {
    let mut agent = Agent::new(1);
    let mut store = MetadataStore::new();
    let mut storage = HashMap::new();
    write(&mut agent, "t", "p", "zero");
    flush(&mut agent, &mut store, &mut storage).unwrap();
    write(&mut agent, "t", "p", "first");
    write(&mut agent, "t", "p", "second!");
    write(&mut agent, "t", "p", "third");
    let name = flush(&mut agent, &mut store, &mut storage).unwrap();

    let request = ReadRequest { topic: "t".to_owned(), partition: "p".to_owned(), offsets: (3, 3) };
    let reads = agent.read(&store, request).unwrap();
    assert_eq!(reads.1.len(), 1);
    assert_eq!(reads.1[0].file_name, name);
    assert_eq!(reads.1[0].file_offset, 5);
    assert_eq!(reads.1[0].record_sizes, vec![7]);

    let result = read(&agent, &store, &storage, "t", "p", (3, 3)).unwrap();
    assert_eq!(texts(&result), vec!["second!"]);
}

#[test]
fn read_across_batches_trims_the_first_and_the_last() {
    let mut agent = Agent::new(1);
    let mut store = MetadataStore::new();
    let mut storage = HashMap::new();
    for batch in [vec!["a", "bb", "ccc"], vec!["dddd", "eeeee"], vec!["f", "gg", "hhh"]] {
        write(&mut agent, "other", "x", "padding");
        for record in batch {
            write(&mut agent, "t", "p", record);
        }
        flush(&mut agent, &mut store, &mut storage).unwrap();
    }
    let request = ReadRequest { topic: "t".to_owned(), partition: "p".to_owned(), offsets: (2, 7) };
    let reads = agent.read(&store, request).unwrap();
    assert_eq!(reads.1.len(), 3);
    assert_eq!(reads.1[0].file_offset, 7 + 1);
    assert_eq!(reads.1[0].record_sizes, vec![2, 3]);
    assert_eq!(reads.1[1].file_offset, 7);
    assert_eq!(reads.1[1].record_sizes, vec![4, 5]);
    assert_eq!(reads.1[2].file_offset, 7);
    assert_eq!(reads.1[2].record_sizes, vec![1, 2]);
    let result = read(&agent, &store, &storage, "t", "p", (2, 7)).unwrap();
    assert_eq!(texts(&result), vec!["bb", "ccc", "dddd", "eeeee", "f", "gg"]);
}

#[test]
fn read_of_a_partition_without_flushes_fails() {
    let mut agent = Agent::new(1);
    let mut store = MetadataStore::new();
    let mut storage = HashMap::new();
    assert_eq!(
        read(&agent, &store, &storage, "1", "1", (1, 1)).err(),
        Some(LogError::UnknownTopicPartition)
    );
    write(&mut agent, "1", "1", "test");
    flush(&mut agent, &mut store, &mut storage).unwrap();
    assert_eq!(
        read(&agent, &store, &storage, "1", "2", (1, 1)).err(),
        Some(LogError::UnknownTopicPartition)
    );
    assert_eq!(
        read(&agent, &store, &storage, "2", "1", (1, 1)).err(),
        Some(LogError::UnknownTopicPartition)
    );
}

#[test]
fn buffered_records_are_not_read() {
    let mut agent = Agent::new(1);
    let mut store = MetadataStore::new();
    let mut storage = HashMap::new();
    write(&mut agent, "1", "1", "test");
    assert_eq!(
        read(&agent, &store, &storage, "1", "1", (1, 1)).err(),
        Some(LogError::UnknownTopicPartition)
    );
    flush(&mut agent, &mut store, &mut storage).unwrap();
    write(&mut agent, "1", "1", "another");
    assert_eq!(
        read(&agent, &store, &storage, "1", "1", (1, 2)).err(),
        Some(LogError::OffsetOutOfRange)
    );
    assert_eq!(texts(&read(&agent, &store, &storage, "1", "1", (1, 1)).unwrap()), vec!["test"]);
}

#[test]
fn flush_without_buffered_records_does_nothing() {
    let mut agent = Agent::new(1);
    let mut store = MetadataStore::new();
    let mut storage = HashMap::new();
    assert!(agent.flush().is_none());
    assert!(flush(&mut agent, &mut store, &mut storage).is_none());
    assert!(storage.is_empty());
    assert!(store.get(&"1".to_owned(), &"1".to_owned()).is_none());

    write(&mut agent, "1", "1", "test");
    flush(&mut agent, &mut store, &mut storage).unwrap();
    assert!(agent.flush().is_none());
    assert!(flush(&mut agent, &mut store, &mut storage).is_none());
    assert_eq!(storage.len(), 1);
    assert_eq!(store.get(&"1".to_owned(), &"1".to_owned()).unwrap().len(), 1);
}

#[test]
fn offsets_stay_contiguous_over_many_flushes() {
    let mut agent = Agent::new(1);
    let mut store = MetadataStore::new();
    let mut storage = HashMap::new();
    let mut total = 0;
    for round in 1..=6 {
        for i in 0..round {
            write(&mut agent, "t", "p", &format!("r{}-{}", round, i));
        }
        flush(&mut agent, &mut store, &mut storage).unwrap();
        total += round;
    }
    let index = store.get(&"t".to_owned(), &"p".to_owned()).unwrap();
    assert_eq!(index.len(), 6);
    let mut expected = 1;
    for i in 0..index.len() {
        assert_eq!(index.start_at(i), expected);
        expected += index.batch_at(i).record_sizes.len();
    }
    assert_eq!(expected, total + 1);
    assert_eq!(index.next_offset(), 22);
    for offset in 1..=total {
        let result = read(&agent, &store, &storage, "t", "p", (offset, offset)).unwrap();
        assert_eq!(result.values.len(), 1);
    }
    assert_eq!(texts(&read(&agent, &store, &storage, "t", "p", (4, 4)).unwrap()), vec!["r3-0"]);
}

#[test]
fn two_agents_share_one_offset_sequence() {
    let mut first = Agent::new(1);
    let mut second = Agent::new(2);
    let mut store = MetadataStore::new();
    let mut storage = HashMap::new();
    let mut expected = Vec::new();
    for round in 0..5 {
        for i in 0..=round {
            let record = format!("a{}-{}", round, i);
            write(&mut first, "t", "p", &record);
            expected.push(record);
        }
        flush(&mut first, &mut store, &mut storage).unwrap();
        let record = format!("b{}", round);
        write(&mut second, "t", "p", &record);
        expected.push(record);
        flush(&mut second, &mut store, &mut storage).unwrap();
    }
    let index = store.get(&"t".to_owned(), &"p".to_owned()).unwrap();
    assert_eq!(index.len(), 10);
    let mut next = 1;
    for i in 0..index.len() {
        assert_eq!(index.start_at(i), next);
        next += index.batch_at(i).record_sizes.len();
    }
    assert_eq!(next, expected.len() + 1);
    let result = read(&second, &store, &storage, "t", "p", (1, expected.len())).unwrap();
    assert_eq!(texts(&result), expected);
}

#[test]
fn a_range_that_ends_before_it_starts_is_invalid() {
    let (agent, store, storage, _, _) = scenario();
    assert_eq!(read(&agent, &store, &storage, "1", "1", (3, 2)).err(), Some(LogError::InvalidRange));
    assert_eq!(read(&agent, &store, &storage, "1", "1", (0, 2)).err(), Some(LogError::InvalidRange));
    assert_eq!(read(&agent, &store, &storage, "9", "9", (2, 1)).err(), Some(LogError::InvalidRange));
    let request = ReadRequest { topic: "1".to_owned(), partition: "1".to_owned(), offsets: (3, 2) };
    assert_eq!(store.read(request, 1).err(), Some(LogError::InvalidRange));
    let request = ReadRequest { topic: "9".to_owned(), partition: "9".to_owned(), offsets: (3, 2) };
    assert_eq!(store.read(request, 1).err(), Some(LogError::UnknownTopicPartition));
}

#[test]
fn an_offset_outside_the_committed_records_is_reported() {
    let (agent, store, storage, _, _) = scenario();
    assert_eq!(
        read(&agent, &store, &storage, "1", "1", (1, 4)).err(),
        Some(LogError::OffsetOutOfRange)
    );
    assert_eq!(
        read(&agent, &store, &storage, "1", "1", (4, 4)).err(),
        Some(LogError::OffsetOutOfRange)
    );
    assert_eq!(
        read(&agent, &store, &storage, "2", "2", (1, 2)).err(),
        Some(LogError::OffsetOutOfRange)
    );
    let request = ReadRequest { topic: "1".to_owned(), partition: "1".to_owned(), offsets: (0, 2) };
    assert_eq!(store.read(request, 1).err(), Some(LogError::OffsetOutOfRange));
}

#[test]
fn a_failed_segment_write_keeps_the_buffers() {
    let mut agent = Agent::new(1);
    let mut store = MetadataStore::new();
    let mut storage = HashMap::new();
    write(&mut agent, "1", "1", "test");
    write(&mut agent, "1", "1", "another");
    let segment = agent.flush().unwrap();
    assert_eq!(
        agent.flush_and_send_metadata(segment, false, &mut store),
        Err(LogError::StorageIOError)
    );
    assert!(store.get(&"1".to_owned(), &"1".to_owned()).is_none());
    assert_eq!(
        agent.buffered_records(&"1".to_owned(), &"1".to_owned()),
        vec![b"test".to_vec(), b"another".to_vec()]
    );

    flush(&mut agent, &mut store, &mut storage).unwrap();
    assert!(agent.buffered_records(&"1".to_owned(), &"1".to_owned()).is_empty());
    let index = store.get(&"1".to_owned(), &"1".to_owned()).unwrap();
    assert_eq!(index.len(), 1);
    assert_eq!(index.batch_at(0).record_sizes, vec![4, 7]);
    let result = read(&agent, &store, &storage, "1", "1", (1, 2)).unwrap();
    assert_eq!(texts(&result), vec!["test", "another"]);
}

#[test]
fn a_window_of_the_wrong_length_fails_the_read() {
    let (agent, store, _, _, _) = scenario();
    let request = ReadRequest { topic: "1".to_owned(), partition: "1".to_owned(), offsets: (1, 3) };
    let reads = agent.read(&store, request).unwrap();
    let short = vec![b"testanother".to_vec(), b"follo".to_vec()];
    assert_eq!(agent.read_result(&reads, &short).err(), Some(LogError::StorageIOError));
    let missing = vec![b"testanother".to_vec()];
    assert_eq!(agent.read_result(&reads, &missing).err(), Some(LogError::StorageIOError));
    let exact = vec![b"testanother".to_vec(), b"follow".to_vec()];
    let result = agent.read_result(&reads, &exact).unwrap();
    assert_eq!(texts(&result), vec!["test", "another", "follow"]);
}

#[test]
fn a_batch_that_the_index_cannot_take_fails_the_flush() {
    let mut agent = Agent::new(1);
    let mut store = MetadataStore::new();
    write(&mut agent, "1", "1", "test");
    let mut metadata = TopicPartition::new();
    metadata.insert(
        "1".to_owned(),
        "1".to_owned(),
        BatchMetadata { file_name: "far".to_owned(), file_offset: usize::MAX, record_sizes: vec![4] },
    );
    let segment = Segment { file_name: "far".to_owned(), file_bytes: b"test".to_vec(), metadata };
    assert_eq!(
        agent.flush_and_send_metadata(segment, true, &mut store),
        Err(LogError::OffsetOutOfRange)
    );
    assert!(store.get(&"1".to_owned(), &"1".to_owned()).is_none());
    assert_eq!(agent.buffered_records(&"1".to_owned(), &"1".to_owned()), vec![b"test".to_vec()]);
}
