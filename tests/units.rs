use log_db::{
    validate_special, ConsistencyErrorKind, DBError, ForwardLogReader, IndexableValue, LogKey,
    LogKeySet, MetadataHeader, PrimaryMemtable, Record, RecordValue, SecondaryMemtable, Segment,
    SpecialSequence, ValidationErrorKind, Bound,
};

#[test]
fn value_bytes_are_tagged_big_endian() {
    assert_eq!(RecordValue::Null.serialize(), vec![0]);
    assert_eq!(RecordValue::Int(1).serialize(), vec![1, 0, 0, 0, 0, 0, 0, 0, 1]);
    assert_eq!(RecordValue::Int(-1).serialize(), vec![1, 255, 255, 255, 255, 255, 255, 255, 255]);
    assert_eq!(
        RecordValue::Float(1.5f64.to_bits()).serialize(),
        vec![2, 0x3F, 0xF8, 0, 0, 0, 0, 0, 0]
    );
    assert_eq!(
        RecordValue::String("hé".to_string()).serialize(),
        vec![3, 0, 0, 0, 0, 0, 0, 0, 3, b'h', 0xC3, 0xA9]
    );
    assert_eq!(RecordValue::Bytes(vec![7, 8]).serialize(), vec![4, 0, 0, 0, 0, 0, 0, 0, 2, 7, 8]);
}

#[test]
fn record_round_trip() {
    let rec = Record {
        values: vec![
            RecordValue::Int(-42),
            RecordValue::Null,
            RecordValue::Float(2.25f64.to_bits()),
            RecordValue::String("Alice".to_string()),
            RecordValue::Bytes(vec![0, 1, 2]),
        ],
        tombstone: true,
    };
    let bytes = rec.serialize();
    assert_eq!(bytes[0], 1);
    assert_eq!(bytes.len(), 1 + 9 + 1 + 9 + (9 + 5) + (9 + 3));
    let back = Record::deserialize(&bytes).unwrap();
    assert!(back.tombstone);
    assert_eq!(back.values.len(), 5);
    assert!(matches!(back.values[0], RecordValue::Int(-42)));
    assert!(matches!(back.values[1], RecordValue::Null));
    assert!(matches!(back.values[2], RecordValue::Float(b) if f64::from_bits(b) == 2.25));
    assert!(matches!(&back.values[3], RecordValue::String(s) if s == "Alice"));
    assert!(matches!(&back.values[4], RecordValue::Bytes(b) if *b == vec![0, 1, 2]));
}

#[test]
fn value_deserialize_reports_consumed_bytes() {
    let (v, n) = RecordValue::deserialize(&[3, 0, 0, 0, 0, 0, 0, 0, 2, b'o', b'k', 9, 9]).unwrap();
    assert_eq!(n, 11);
    assert!(matches!(v, RecordValue::String(s) if s == "ok"));
}

#[test]
fn deserialize_errors() {
    assert_eq!(
        RecordValue::deserialize(&[9]).err(),
        Some(DBError::ConsistencyError(ConsistencyErrorKind::UnknownTag))
    );
    assert_eq!(
        RecordValue::deserialize(&[1, 0, 0]).err(),
        Some(DBError::ConsistencyError(ConsistencyErrorKind::Truncated))
    );
    assert_eq!(
        RecordValue::deserialize(&[4, 0, 0, 0, 0, 0, 0, 0, 5, 1]).err(),
        Some(DBError::ConsistencyError(ConsistencyErrorKind::Truncated))
    );
    assert_eq!(
        RecordValue::deserialize(&[3, 0, 0, 0, 0, 0, 0, 0, 1, 0xFF]).err(),
        Some(DBError::ConsistencyError(ConsistencyErrorKind::InvalidUtf8))
    );
    assert_eq!(
        Record::deserialize(&[2]).err(),
        Some(DBError::ConsistencyError(ConsistencyErrorKind::InvalidTombstone))
    );
    assert_eq!(
        Record::deserialize(&[]).err(),
        Some(DBError::ConsistencyError(ConsistencyErrorKind::Truncated))
    );
}

#[test]
fn as_indexable_keeps_ints_and_strings() {
    assert_eq!(RecordValue::Int(3).as_indexable(), Some(IndexableValue::Int(3)));
    assert_eq!(
        RecordValue::String("k".to_string()).as_indexable(),
        Some(IndexableValue::String("k".to_string()))
    );
    assert_eq!(RecordValue::Null.as_indexable(), None);
    assert_eq!(RecordValue::Bytes(vec![]).as_indexable(), None);
}

#[test]
fn log_key_packs_segment_and_index() {
    let k = LogKey::new(3, 5);
    assert_eq!(k.segment_num(), 3);
    assert_eq!(k.index(), 5);
    let max = LogKey::new(u16::MAX, (1u64 << 48) - 1);
    assert_eq!(max.segment_num(), u16::MAX);
    assert_eq!(max.index(), (1u64 << 48) - 1);
    assert!(LogKey::new(1, 1000) < LogKey::new(2, 0));
    assert!(LogKey::new(2, 1) < LogKey::new(2, 2));
}

#[test]
fn log_key_set_operations() {
    let mut set = LogKeySet::new_with_initial(&LogKey::new(1, 2));
    assert_eq!(set.len(), 1);
    assert_eq!(
        set.remove(&LogKey::new(1, 2)),
        Err(DBError::ValidationError(ValidationErrorKind::LastLogKey))
    );
    set.insert(LogKey::new(1, 1));
    set.insert(LogKey::new(1, 1));
    assert_eq!(set.len(), 2);
    assert_eq!(
        set.remove(&LogKey::new(9, 9)),
        Err(DBError::ValidationError(ValidationErrorKind::LogKeyNotFound))
    );
    assert_eq!(set.remove(&LogKey::new(1, 2)), Ok(()));
    assert_eq!(set.log_keys(), &vec![LogKey::new(1, 1)]);
    let set = LogKeySet::from_slice(&[LogKey::new(2, 0), LogKey::new(1, 5), LogKey::new(2, 0)]);
    assert_eq!(set.iter(), &[LogKey::new(1, 5), LogKey::new(2, 0)]);
    assert_eq!(set.max_key(), LogKey::new(2, 0));
}

#[test]
fn special_sequences() {
    assert_eq!(validate_special(&[0x1F, 0x1F, 0x1B]), Some(SpecialSequence::RecordSeparator));
    assert_eq!(validate_special(&[0x1B, 0x1F, 0x1B]), Some(SpecialSequence::LiteralFieldSeparator));
    assert_eq!(validate_special(&[0x1B, 0x1B, 0x1B]), Some(SpecialSequence::LiteralEscape));
    assert_eq!(validate_special(&[0x1F, 0x1B, 0x1B]), None);
    assert_eq!(validate_special(&[0x1F, 0x1F]), None);
}

#[test]
fn metadata_header_layout() {
    let uuid = [0xAB; 16];
    let h = MetadataHeader { version: 1, uuid };
    let bytes = h.serialize();
    assert_eq!(bytes.len(), 24);
    assert_eq!(&bytes[0..8], &[1, 0, 0, 0, 0, 0, 0, 0]);
    assert_eq!(&bytes[8..24], &uuid);
    assert_eq!(MetadataHeader::deserialize(&bytes).unwrap(), h);
    assert_eq!(
        MetadataHeader::deserialize(&bytes[0..10]).err(),
        Some(DBError::ConsistencyError(ConsistencyErrorKind::Truncated))
    );
}

#[test]
fn data_file_name_is_hyphenated_uuid() {
    let uuid = [
        0x67, 0xe5, 0x50, 0x44, 0x10, 0xb1, 0x42, 0x6f, 0x92, 0x47, 0xbb, 0x68, 0x0e, 0x5f, 0xe0,
        0xc8,
    ];
    let h = MetadataHeader { version: 1, uuid };
    assert_eq!(h.data_file_name(), "67e55044-10b1-426f-9247-bb680e5fe0c8");
}

fn segment_with(records: &[Record]) -> Segment {
    let mut seg = Segment::create([1; 16]);
    for r in records {
        seg.append(&r.serialize());
    }
    seg
}

#[test]
fn segment_rows_and_check() {
    let r = Record { values: vec![RecordValue::Int(1)], tombstone: false };
    let seg = segment_with(&[r.clone(), r.clone()]);
    assert_eq!(seg.metadata.len(), 24 + 32);
    assert_eq!((seg.metadata.len() - 24) % 16, 0);
    assert_eq!(seg.row(1), (10, 10));
    assert_eq!(seg.check(), Ok(()));
    let mut bad = seg.clone();
    bad.metadata.push(0);
    assert_eq!(bad.check(), Err(DBError::ConsistencyError(ConsistencyErrorKind::MetadataSize)));
    let mut short = seg.clone();
    short.data.pop();
    assert_eq!(short.check(), Err(DBError::ConsistencyError(ConsistencyErrorKind::RowOutOfBounds)));
    let mut version = seg.clone();
    version.metadata[0] = 2;
    assert_eq!(version.check(), Err(DBError::ConsistencyError(ConsistencyErrorKind::HeaderVersion)));
}

#[test]
fn forward_log_reader_reads_in_order() {
    let a = Record { values: vec![RecordValue::Bytes(vec![5; 256])], tombstone: false };
    let b = Record { values: vec![RecordValue::Int(2)], tombstone: false };
    let seg = segment_with(&[a, b]);
    let mut reader = ForwardLogReader::new();
    let first = reader.read_record(&seg).unwrap().expect("Failed to read the first record");
    assert_eq!(first.metadata_index, 0);
    assert!(matches!(&first.record.values[..], [RecordValue::Bytes(bytes)] if bytes.len() == 256));
    let second = reader.read_record(&seg).unwrap().unwrap();
    assert_eq!(second.metadata_index, 1);
    assert_eq!(second.data_offset, first.data_length);
    assert!(reader.read_record(&seg).unwrap().is_none());

    let mut from_one = ForwardLogReader::new_with_index(1);
    assert_eq!(from_one.read_record(&seg).unwrap().unwrap().metadata_index, 1);

    let mut partial = seg.clone();
    partial.metadata.extend_from_slice(&[0; 5]);
    let mut reader = ForwardLogReader::new_with_index(2);
    assert_eq!(
        reader.read_record(&partial).err(),
        Some(DBError::ConsistencyError(ConsistencyErrorKind::Truncated))
    );
}

#[test]
fn primary_memtable_orders_keys() {
    let mut m = PrimaryMemtable::new();
    m.set(IndexableValue::String("b".to_string()), LogKey::new(1, 3));
    m.set(IndexableValue::Int(5), LogKey::new(1, 1));
    m.set(IndexableValue::Int(-2), LogKey::new(1, 2));
    m.set(IndexableValue::String("a".to_string()), LogKey::new(1, 4));
    m.set(IndexableValue::Int(5), LogKey::new(1, 9));
    assert_eq!(m.get(&IndexableValue::Int(5)), Some(LogKey::new(1, 9)));
    let all = m.range(&Bound::Unbounded, &Bound::Unbounded);
    assert_eq!(
        all,
        vec![LogKey::new(1, 2), LogKey::new(1, 9), LogKey::new(1, 4), LogKey::new(1, 3)]
    );
    assert_eq!(m.remove(&IndexableValue::Int(5)), Some(LogKey::new(1, 9)));
    assert_eq!(m.remove(&IndexableValue::Int(5)), None);
    assert_eq!(m.get(&IndexableValue::Int(5)), None);
}

#[test]
fn secondary_memtable_sets() {
    let mut m = SecondaryMemtable::new();
    let k = IndexableValue::String("John".to_string());
    m.set(k.clone(), LogKey::new(1, 4));
    m.set(k.clone(), LogKey::new(1, 1));
    assert_eq!(m.find_by(&k), vec![LogKey::new(1, 1), LogKey::new(1, 4)]);
    m.remove(&k, &LogKey::new(1, 4));
    assert_eq!(m.find_by(&k), vec![LogKey::new(1, 1)]);
    m.remove(&k, &LogKey::new(1, 1));
    assert_eq!(m.find_by(&k), Vec::<LogKey>::new());
    m.set(k.clone(), LogKey::new(2, 0));
    m.remove_key(&k);
    assert!(m.find_by(&k).is_empty());
}

#[test]
fn test_forward_log_reader_fixture_db1() {
    // A segment whose one record has a single bytes field of 256 bytes.
    let rec = Record { values: vec![RecordValue::Bytes((0..=255u8).collect())], tombstone: false };
    let seg = segment_with(&[rec]);
    let mut forward_log_reader = ForwardLogReader::new();
    let first_item = forward_log_reader
        .read_record(&seg)
        .unwrap()
        .expect("Failed to read the first record");
    assert!(match &first_item.record.values[..] {
        [RecordValue::Bytes(bytes)] => bytes.len() == 256,
        _ => false,
    });
    assert!(forward_log_reader.read_record(&seg).unwrap().is_none());
}
