use logstore::agent::Agent;
use logstore::metadata::MetadataStore;
use logstore::offset_index::RecordOffsetAndMetadata;
use logstore::records::{
    byte_length, bytes_between, prefix_length, sizes_between, slice_records,
};
use logstore::segment_name::fresh_segment_name;
use logstore::topic_partition::TopicPartition;
use logstore::types::{BatchMetadata, LogError, ReadRequest, ReadResult, WriteRequest};

fn batch(file_name: &str, file_offset: usize, record_sizes: &[usize]) -> BatchMetadata {
    BatchMetadata { file_name: file_name.to_owned(), file_offset, record_sizes: record_sizes.to_vec() }
}

fn key(text: &str) -> String {
    text.to_owned()
}

#[test]
fn byte_length_adds_up_the_sizes() {
    assert_eq!(byte_length(&vec![]), Some(0));
    assert_eq!(byte_length(&vec![4, 7]), Some(11));
    assert_eq!(byte_length(&vec![0, 0, 5]), Some(5));
    assert_eq!(byte_length(&vec![usize::MAX]), Some(usize::MAX));
    assert_eq!(byte_length(&vec![usize::MAX, 1]), None);
    assert_eq!(byte_length(&vec![usize::MAX - 1, 1, 1, 0]), None);
}

#[test]
fn prefix_length_adds_up_the_first_sizes() {
    let sizes = vec![4, 7, 6];
    assert_eq!(prefix_length(&sizes, 0), 0);
    assert_eq!(prefix_length(&sizes, 1), 4);
    assert_eq!(prefix_length(&sizes, 2), 11);
    assert_eq!(prefix_length(&sizes, 3), 17);
}

#[test]
fn sizes_between_and_bytes_between_copy_a_range() {
    assert_eq!(sizes_between(&vec![4, 7, 6, 1], 1, 3), vec![7, 6]);
    assert_eq!(sizes_between(&vec![4, 7, 6, 1], 2, 2), Vec::<usize>::new());
    assert_eq!(bytes_between(&b"testanother".to_vec(), 4, 11), b"another".to_vec());
    assert_eq!(bytes_between(&b"testanother".to_vec(), 0, 0), Vec::<u8>::new());
}

#[test]
fn slice_records_cuts_a_window_by_sizes() {
    let window = b"testanotherfollow".to_vec();
    assert_eq!(
        slice_records(&window, &vec![4, 7, 6]),
        Some(vec![b"test".to_vec(), b"another".to_vec(), b"follow".to_vec()])
    );
    assert_eq!(
        slice_records(&window, &vec![4, 0, 7, 6, 0]),
        Some(vec![
            b"test".to_vec(),
            Vec::new(),
            b"another".to_vec(),
            b"follow".to_vec(),
            Vec::new()
        ])
    );
    assert_eq!(slice_records(&window, &vec![4, 7]), None);
    assert_eq!(slice_records(&window, &vec![4, 7, 7]), None);
    assert_eq!(slice_records(&window, &vec![usize::MAX, 18]), None);
    assert_eq!(slice_records(&Vec::new(), &vec![]), Some(Vec::new()));
}

#[test]
fn segment_names_are_identifiers_with_an_extension() {
    let name = fresh_segment_name();
    assert_eq!(name.len(), 40);
    assert!(name.ends_with(".bin"));
    let id = &name[..36];
    for (i, c) in id.chars().enumerate() {
        if i == 8 || i == 13 || i == 18 || i == 23 {
            assert_eq!(c, '-');
        } else {
            assert!(c.is_ascii_digit() || ('a'..='f').contains(&c));
        }
    }
    assert_ne!(name, fresh_segment_name());
}

#[test]
fn table_keeps_keys_in_the_order_of_first_insertion() {
    let mut table: TopicPartition<usize> = TopicPartition::new();
    assert_eq!(table.len(), 0);
    assert_eq!(table.insert(key("b"), key("0"), 1), None);
    assert_eq!(table.insert(key("a"), key("0"), 2), None);
    assert_eq!(table.insert(key("b"), key("1"), 3), None);
    assert_eq!(table.insert(key("b"), key("0"), 4), Some(1));
    assert_eq!(table.len(), 3);
    assert_eq!(table.position(&key("b"), &key("0")), Some(0));
    assert_eq!(table.position(&key("a"), &key("0")), Some(1));
    assert_eq!(table.position(&key("b"), &key("1")), Some(2));
    assert_eq!(table.position(&key("a"), &key("1")), None);
    assert_eq!(table.get(&key("b"), &key("0")), Some(&4));
    assert_eq!(table.get(&key("0"), &key("b")), None);
    assert_eq!(table.topic_at(1), "a");
    assert_eq!(table.partition_at(2), "1");
    assert_eq!(*table.value_at(2), 3);
    *table.value_at_mut(1) += 10;
    assert_eq!(table.get(&key("a"), &key("0")), Some(&12));
    table.set_value_at(2, 30);
    assert_eq!(table.get(&key("b"), &key("1")), Some(&30));
    assert_eq!(table.pop(), Some((key("b"), key("1"), 30)));
    assert_eq!(table.len(), 2);
    table.push(key("c"), key("c"), 5);
    assert_eq!(table.position(&key("c"), &key("c")), Some(2));
    table.clear();
    assert_eq!(table.len(), 0);
    assert_eq!(table.pop(), None);
}

#[test]
fn index_assigns_the_next_offset_to_each_batch() {
    let mut index = RecordOffsetAndMetadata::new();
    assert_eq!(index.len(), 0);
    assert_eq!(index.next_offset(), 1);
    assert!(index.last_key_value().is_none());
    assert_eq!(index.containing(1), None);
    assert_eq!(index.read(1, 1).err(), Some(LogError::UnknownTopicPartition));

    index.insert(batch("a", 10, &[4, 7]));
    index.insert(batch("b", 0, &[6]));
    index.insert(batch("c", 3, &[1, 2, 3]));
    assert_eq!(index.len(), 3);
    assert_eq!(index.start_at(0), 1);
    assert_eq!(index.start_at(1), 3);
    assert_eq!(index.start_at(2), 4);
    assert_eq!(index.next_offset(), 7);
    let (start, last) = index.last_key_value().unwrap();
    assert_eq!(start, 4);
    assert_eq!(last.file_name, "c");

    assert_eq!(index.containing(0), None);
    assert_eq!(index.containing(1), Some(0));
    assert_eq!(index.containing(2), Some(0));
    assert_eq!(index.containing(3), Some(1));
    assert_eq!(index.containing(4), Some(2));
    assert_eq!(index.containing(6), Some(2));
    assert_eq!(index.containing(7), Some(2));
}

#[test]
fn index_read_trims_both_ends() {
    let mut index = RecordOffsetAndMetadata::new();
    index.insert(batch("a", 10, &[4, 7]));
    index.insert(batch("b", 0, &[6]));
    index.insert(batch("c", 3, &[1, 2, 3]));

    let reads = index.read(2, 5).unwrap();
    assert_eq!(reads.len(), 3);
    assert_eq!(reads[0].file_name, "a");
    assert_eq!(reads[0].file_offset, 14);
    assert_eq!(reads[0].record_sizes, vec![7]);
    assert_eq!(reads[1].file_name, "b");
    assert_eq!(reads[1].file_offset, 0);
    assert_eq!(reads[1].record_sizes, vec![6]);
    assert_eq!(reads[2].file_name, "c");
    assert_eq!(reads[2].file_offset, 3);
    assert_eq!(reads[2].record_sizes, vec![1, 2]);

    let reads = index.read(5, 5).unwrap();
    assert_eq!(reads.len(), 1);
    assert_eq!(reads[0].file_name, "c");
    assert_eq!(reads[0].file_offset, 4);
    assert_eq!(reads[0].record_sizes, vec![2]);

    let reads = index.read(1, 6).unwrap();
    assert_eq!(reads.len(), 3);
    assert_eq!(reads[0].file_offset, 10);
    assert_eq!(reads[0].record_sizes, vec![4, 7]);
    assert_eq!(reads[2].file_offset, 3);
    assert_eq!(reads[2].record_sizes, vec![1, 2, 3]);

    assert_eq!(index.read(3, 2).err(), Some(LogError::InvalidRange));
    assert_eq!(index.read(0, 2).err(), Some(LogError::OffsetOutOfRange));
    assert_eq!(index.read(6, 7).err(), Some(LogError::OffsetOutOfRange));
    assert_eq!(index.read(7, 7).err(), Some(LogError::OffsetOutOfRange));
}

#[test]
fn index_accepts_only_batches_that_fit() {
    let mut index = RecordOffsetAndMetadata::new();
    assert!(index.accepts(&batch("a", 0, &[4, 7])));
    assert!(index.accepts(&batch("a", 0, &[0])));
    assert!(!index.accepts(&batch("a", 0, &[])));
    assert!(!index.accepts(&batch("a", 1, &[usize::MAX])));
    assert!(!index.accepts(&batch("a", 0, &[usize::MAX, 1])));
    assert!(index.accepts(&batch("a", 0, &[usize::MAX])));
    index.insert(batch("a", 0, &[4, 7]));
    assert!(index.accepts(&batch("b", usize::MAX - 5, &[5])));
    assert!(!index.accepts(&batch("b", usize::MAX - 5, &[6])));
}

#[test]
fn store_commits_each_batch_to_its_partition() {
    let mut store = MetadataStore::new();
    let mut first = TopicPartition::new();
    first.insert(key("1"), key("1"), batch("a", 0, &[4, 7]));
    first.insert(key("2"), key("2"), batch("a", 11, &[5]));
    assert!(store.accepts(&first));
    store.write(first, 1);

    let mut second = TopicPartition::new();
    second.insert(key("1"), key("1"), batch("b", 0, &[6]));
    second.insert(key("1"), key("2"), batch("b", 6, &[1, 1, 1]));
    assert!(store.accepts(&second));
    store.write(second, 2);

    let index = store.get(&key("1"), &key("1")).unwrap();
    assert_eq!(index.len(), 2);
    assert_eq!(index.start_at(0), 1);
    assert_eq!(index.start_at(1), 3);
    assert_eq!(index.batch_at(1).file_name, "b");
    let index = store.get(&key("2"), &key("2")).unwrap();
    assert_eq!(index.len(), 1);
    assert_eq!(index.start_at(0), 1);
    assert_eq!(index.batch_at(0).file_offset, 11);
    let index = store.get(&key("1"), &key("2")).unwrap();
    assert_eq!(index.len(), 1);
    assert_eq!(index.next_offset(), 4);
    assert!(store.get(&key("2"), &key("1")).is_none());

    let request = ReadRequest { topic: key("1"), partition: key("1"), offsets: (2, 3) };
    let (range, reads) = store.read(request, 9).unwrap();
    assert_eq!(range, (2, 3));
    assert_eq!(reads.len(), 2);
    assert_eq!(reads[0].file_name, "a");
    assert_eq!(reads[0].file_offset, 4);
    assert_eq!(reads[0].record_sizes, vec![7]);
    assert_eq!(reads[1].file_name, "b");
    assert_eq!(reads[1].file_offset, 0);
    assert_eq!(reads[1].record_sizes, vec![6]);
}

#[test]
fn store_refuses_a_table_with_an_empty_batch() {
    let store = MetadataStore::new();
    let mut batches = TopicPartition::new();
    batches.insert(key("1"), key("1"), batch("a", 0, &[4]));
    batches.insert(key("1"), key("2"), batch("a", 4, &[]));
    assert!(!store.accepts(&batches));
    let empty: TopicPartition<BatchMetadata> = TopicPartition::new();
    assert!(store.accepts(&empty));
}

#[test]
fn agent_buffers_records_per_partition() {
    let mut agent = Agent::new(5);
    let write = |agent: &mut Agent, topic: &str, partition: &str, value: &[u8]| {
        agent.write(WriteRequest { topic: key(topic), partition: key(partition), value: value.to_vec() })
    };
    write(&mut agent, "1", "1", b"test");
    write(&mut agent, "2", "2", b"test2");
    write(&mut agent, "1", "1", b"");
    write(&mut agent, "1", "1", b"another");
    assert_eq!(
        agent.buffered_records(&key("1"), &key("1")),
        vec![b"test".to_vec(), Vec::new(), b"another".to_vec()]
    );
    assert_eq!(agent.buffered_records(&key("2"), &key("2")), vec![b"test2".to_vec()]);
    assert!(agent.buffered_records(&key("1"), &key("2")).is_empty());

    let segment = agent.pack(key("segment"));
    assert_eq!(segment.file_name, "segment");
    assert_eq!(segment.file_bytes, b"testanothertest2".to_vec());
    assert_eq!(segment.metadata.len(), 2);
    let first = segment.metadata.get(&key("1"), &key("1")).unwrap();
    assert_eq!(first.file_name, "segment");
    assert_eq!(first.file_offset, 0);
    assert_eq!(first.record_sizes, vec![4, 0, 7]);
    let second = segment.metadata.get(&key("2"), &key("2")).unwrap();
    assert_eq!(second.file_name, "segment");
    assert_eq!(second.file_offset, 11);
    assert_eq!(second.record_sizes, vec![5]);
    assert_eq!(segment.metadata.position(&key("1"), &key("1")), Some(0));
    assert_eq!(segment.metadata.position(&key("2"), &key("2")), Some(1));
}

#[test]
fn defaults_are_empty() {
    let request = ReadRequest::default();
    assert_eq!(request.topic, "");
    assert_eq!(request.partition, "");
    assert_eq!(request.offsets, (0, 0));
    let result = ReadResult::default();
    assert_eq!(result.offsets, (0, 0));
    assert!(result.values.is_empty());
    let agent = Agent::default();
    assert!(agent.flush().is_none());
}
