use lsm_kv::error::{DeserializeError, ReadFailure};
use lsm_kv::journal::{append_batch, recover, BatchItem};
use lsm_kv::marker::Marker;

#[test]
fn test_serialize_and_deserialize_success() {
    let item = Marker::Item { key: vec![1, 2, 3], value: vec![], is_tombstone: false };

    // Serialize
    let mut serialized_data = Vec::new();
    item.serialize(&mut serialized_data).unwrap();

    // Deserialize
    let (deserialized_item, used) = Marker::deserialize(&serialized_data, 0).unwrap();

    assert_eq!(item, deserialized_item);
    assert_eq!(used, serialized_data.len());
}

#[test]
fn test_invalid_deserialize() {
    let invalid_data = vec![0u8]; // a start tag should be followed by a u32
    let result = Marker::deserialize(&invalid_data, 0);

    match result {
        Ok(_) => panic!("should error"),
        Err(error) => match error {
            DeserializeError::Io(ReadFailure::UnexpectedEof) => {}
            _ => panic!("should throw UnexpectedEof"),
        },
    }
}

#[test]
fn test_invalid_tag() {
    let invalid_data = vec![3u8]; // invalid tag
    let result = Marker::deserialize(&invalid_data, 0);

    match result {
        Ok(_) => panic!("should error"),
        Err(error) => match error {
            DeserializeError::InvalidTag(3) => {}
            _ => panic!("should throw InvalidTag"),
        },
    }
}

#[test]
fn round_trip_every_marker_kind() {
    let markers = vec![
        Marker::Start { item_count: 7, seqno: 123456789 },
        Marker::Item { key: vec![9, 8], value: vec![1, 2, 3, 4], is_tombstone: true },
        Marker::Item { key: vec![0], value: vec![], is_tombstone: false },
        Marker::End(0xDEAD_BEEF),
    ];
    for m in markers {
        let mut buf = Vec::new();
        m.serialize(&mut buf).unwrap();
        let (back, used) = Marker::deserialize(&buf, 0).unwrap();
        assert_eq!(m, back);
        assert_eq!(used, buf.len());
    }
}

fn item(partition: u64, key: &[u8], value: &[u8], is_tombstone: bool) -> BatchItem {
    BatchItem { partition, key: key.to_vec(), value: value.to_vec(), is_tombstone }
}

#[test]
fn journal_recovers_committed_batches() {
    let mut journal = Vec::new();
    append_batch(&mut journal, 1, &vec![item(0, b"a", b"1", false), item(1, b"b", b"2", true)]);
    append_batch(&mut journal, 3, &vec![item(0, b"c", b"3", false)]);

    let batches = recover(&journal);
    assert_eq!(batches.len(), 2);
    assert_eq!(batches[0].seqno, 1);
    assert_eq!(batches[0].items.len(), 2);
    assert_eq!(batches[0].items[0].partition, 0);
    assert_eq!(batches[0].items[0].key, b"a".to_vec());
    assert_eq!(batches[0].items[0].value, b"1".to_vec());
    assert!(!batches[0].items[0].is_tombstone);
    assert_eq!(batches[0].items[1].key, b"b".to_vec());
    assert!(batches[0].items[1].is_tombstone);
    assert_eq!(batches[1].seqno, 3);
    assert_eq!(batches[1].items.len(), 1);
    assert_eq!(batches[1].items[0].key, b"c".to_vec());
}

#[test]
fn journal_truncates_torn_tail() {
    let mut journal = Vec::new();
    append_batch(&mut journal, 1, &vec![item(0, b"a", b"1", false)]);
    let good_len = journal.len();
    append_batch(&mut journal, 2, &vec![item(0, b"b", b"2", false)]);
    // tear the second frame: drop its last byte
    journal.truncate(journal.len() - 1);
    let batches = recover(&journal);
    assert_eq!(batches.len(), 1);
    assert_eq!(batches[0].seqno, 1);

    // a corrupted checksum also severs the tail
    let mut journal2 = Vec::new();
    append_batch(&mut journal2, 1, &vec![item(0, b"a", b"1", false)]);
    append_batch(&mut journal2, 2, &vec![item(0, b"b", b"2", false)]);
    let last = journal2.len() - 1;
    journal2[last] ^= 0xFF;
    let batches2 = recover(&journal2);
    assert_eq!(batches2.len(), 1);

    // recovery is idempotent on an unchanged file
    let again = recover(&journal);
    assert_eq!(again.len(), 1);
    assert_eq!(good_len, {
        let mut j3 = Vec::new();
        append_batch(&mut j3, 1, &vec![item(0, b"a", b"1", false)]);
        j3.len()
    });
}

#[test]
fn journal_rejects_start_inside_batch() {
    // a frame that claims two items but hits a new start marker is
    // broken and discarded
    let mut journal = Vec::new();
    let start = Marker::Start { item_count: 2, seqno: 9 };
    start.serialize(&mut journal).unwrap();
    let one = Marker::Item { key: vec![0, 0, 0, 0, 0, 0, 0, 0, 7], value: vec![], is_tombstone: false };
    one.serialize(&mut journal).unwrap();
    let nested = Marker::Start { item_count: 0, seqno: 10 };
    nested.serialize(&mut journal).unwrap();
    let batches = recover(&journal);
    assert_eq!(batches.len(), 0);
}
