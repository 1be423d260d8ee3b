use log_db::{
    Bound, Config, DBError, Engine, ReadConsistency, Record, RecordField, RecordValue,
    ValidationErrorKind, WriteDurability,
};

const UUID_A: [u8; 16] = [0x11; 16];
const UUID_B: [u8; 16] = [0x22; 16];
const UUID_C: [u8; 16] = [0x33; 16];

struct Inst {
    id: i64,
    name: Option<String>,
    data: Vec<u8>,
}

impl Inst {
    fn into_record(self) -> Record {
        Record {
            values: vec![
                RecordValue::Int(self.id),
                match self.name {
                    Some(name) => RecordValue::String(name),
                    None => RecordValue::Null,
                },
                RecordValue::Bytes(self.data),
            ],
            tombstone: false,
        }
    }

    fn from_record(record: &Record) -> Inst {
        let id = match &record.values[0] {
            RecordValue::Int(id) => *id,
            other => panic!("Invalid value type: {:?}", other),
        };
        let name = match &record.values[1] {
            RecordValue::String(name) => Some(name.clone()),
            RecordValue::Null => None,
            other => panic!("Invalid value type: {:?}", other),
        };
        let data = match &record.values[2] {
            RecordValue::Bytes(data) => data.clone(),
            other => panic!("Invalid value type: {:?}", other),
        };
        Inst { id, name, data }
    }
}

fn inst_schema() -> Vec<(String, RecordField)> {
    vec![
        ("id".to_string(), RecordField::integer()),
        ("name".to_string(), RecordField::string().nullable()),
        ("data".to_string(), RecordField::bytes()),
    ]
}

fn config(fields: Vec<(String, RecordField)>, secondary: Vec<&str>, segment_size: u64) -> Config {
    Config {
        fields,
        primary_key: "id".to_string(),
        secondary_keys: secondary.into_iter().map(|s| s.to_string()).collect(),
        segment_size,
        write_durability: WriteDurability::Flush,
        read_consistency: ReadConsistency::Strong,
    }
}

fn open_inst() -> Engine {
    Engine::initialize(config(inst_schema(), vec!["name"], 4 * 1024 * 1024), vec![], UUID_A)
        .expect("Failed to initialize DB instance")
}

fn upsert(db: &mut Engine, inst: Inst) -> Result<(), DBError> {
    db.batch_upsert_records(vec![inst.into_record()])
}

fn find_by(db: &mut Engine, field: &str, value: RecordValue) -> Vec<Record> {
    db.batch_find_by_records(&field.to_string(), &vec![value])
        .unwrap()
        .into_iter()
        .map(|(_, r)| r)
        .collect()
}

fn get(db: &mut Engine, id: i64) -> Option<Inst> {
    let found = find_by(db, "id", RecordValue::Int(id));
    found.first().map(Inst::from_record)
}

fn single_id_config() -> Config {
    config(vec![("id".to_string(), RecordField::integer())], vec![], 4 * 1024 * 1024)
}

#[test]
fn test_initialize_only() {
    let db = open_inst();
    assert_eq!(db.segments().len(), 1);
    assert_eq!(db.active_segment_num(), 1);
}

#[test]
fn test_upsert_and_get_with_primary_memtable() {
    let mut db = open_inst();
    let id = 1;
    upsert(&mut db, Inst { id, name: Some("Alice".to_string()), data: vec![0, 1, 2] }).unwrap();
    let result = get(&mut db, 1).unwrap();
    assert!(result.id == id);
}

#[test]
fn test_upsert_and_get() {
    let mut db = open_inst();
    upsert(&mut db, Inst { id: 0, name: None, data: vec![3, 4, 5] }).unwrap();
    upsert(&mut db, Inst { id: 1, name: Some("Alice".to_string()), data: vec![0, 1, 2] }).unwrap();
    upsert(&mut db, Inst { id: 1, name: Some("Bob".to_string()), data: vec![0, 1, 2] }).unwrap();
    upsert(&mut db, Inst { id: 2, name: Some("George".to_string()), data: vec![] }).unwrap();

    let result = get(&mut db, 0).unwrap();
    assert!(result.id == 0);
    assert!(result.name == None);

    let result = get(&mut db, 1).unwrap();
    assert!(result.id == 1);
    assert!(result.name == Some("Bob".to_owned()));
}

#[test]
fn test_get_nonexistant() {
    let mut db = open_inst();
    let result = get(&mut db, 0);
    assert!(result.is_none());
}

#[test]
fn test_upsert_fails_on_null_in_non_nullable_field() {
    let mut db = Engine::initialize(single_id_config(), vec![], UUID_A)
        .expect("Failed to initialize DB instance");
    let rec = Record { values: vec![RecordValue::Null], tombstone: false };
    assert!(db.batch_upsert_records(vec![rec]).is_err());
}

#[test]
fn test_upsert_fails_on_invalid_number_of_values() {
    let fields = vec![
        ("id".to_string(), RecordField::integer()),
        ("name".to_string(), RecordField::string()),
    ];
    let mut db = Engine::initialize(config(fields, vec![], 1 << 20), vec![], UUID_A)
        .expect("Failed to initialize DB instance");
    let rec = Record { values: vec![RecordValue::Int(0)], tombstone: false };
    assert!(db.batch_upsert_records(vec![rec]).is_err());
}

#[test]
fn test_upsert_fails_on_invalid_value_type() {
    let mut db = Engine::initialize(single_id_config(), vec![], UUID_A)
        .expect("Failed to initialize DB instance");
    let rec = Record { values: vec![RecordValue::String("foo".to_string())], tombstone: false };
    assert!(db.batch_upsert_records(vec![rec]).is_err());
}

#[test]
fn test_upsert_and_find_by() {
    let mut db = open_inst();
    upsert(&mut db, Inst { id: 0, name: Some("John".to_string()), data: vec![3, 4, 5] }).unwrap();
    upsert(&mut db, Inst { id: 1, name: Some("John".to_string()), data: vec![1, 2, 3] }).unwrap();
    upsert(&mut db, Inst { id: 2, name: Some("George".to_string()), data: vec![1, 2, 3] }).unwrap();

    let johns = find_by(&mut db, "name", RecordValue::String("John".to_string()));
    assert_eq!(johns.len(), 2);
    let mut ids: Vec<i64> = johns.iter().map(|r| Inst::from_record(r).id).collect();
    ids.sort();
    assert_eq!(ids, vec![0, 1]);
}

#[test]
fn test_log_is_rotated_when_capacity_reached() {
    let record_len = 1 + (1 + 8) + (1 + 8 + 4) + (1 + 8 + 3);
    let mut db = Engine::initialize(config(inst_schema(), vec!["name"], 10 * record_len), vec![], UUID_A)
        .expect("Failed to initialize DB instance");
    for i in 0..25u8 {
        upsert(&mut db, Inst { id: 0, name: Some("John".to_string()), data: vec![3, 4, 5] })
            .expect("Failed to upsert record");
        db.do_maintenance_tasks([i; 16], [100 + i; 16]).expect("Failed to do maintenance tasks");
    }
    // Segments 1 and 2 exist, segment 3 does not.
    assert_eq!(db.segments().len(), 2);
    // The rotated segment kept its size.
    assert!(db.segments()[0].metadata.len() as u64 >= 10 * record_len);
    let found = find_by(&mut db, "name", RecordValue::String("John".to_string()));
    assert_eq!(found.len(), 1);
    assert_eq!(Inst::from_record(&found[0]).id, 0);
}

#[test]
fn test_delete() {
    let mut db = open_inst();
    upsert(&mut db, Inst { id: 0, name: Some("John".to_string()), data: vec![3, 4, 5] }).unwrap();
    upsert(&mut db, Inst { id: 1, name: Some("John".to_string()), data: vec![1, 2, 3] }).unwrap();

    db.delete_by_field(&"id".to_string(), &RecordValue::Int(0)).unwrap();

    assert!(get(&mut db, 0).is_none());
    assert_eq!(find_by(&mut db, "name", RecordValue::String("John".to_string())).len(), 1);
}

#[test]
fn test_delete_by() {
    let mut db = open_inst();
    upsert(&mut db, Inst { id: 0, name: Some("John".to_string()), data: vec![3, 4, 5] }).unwrap();
    upsert(&mut db, Inst { id: 1, name: Some("John".to_string()), data: vec![1, 2, 3] }).unwrap();
    upsert(&mut db, Inst { id: 2, name: Some("Bob".to_string()), data: vec![1, 2, 3] }).unwrap();

    db.delete_by_field(&"name".to_string(), &RecordValue::String("John".to_string())).unwrap();

    assert!(get(&mut db, 0).is_none());
    assert!(get(&mut db, 1).is_none());
    assert_eq!(find_by(&mut db, "name", RecordValue::String("John".to_string())).len(), 0);
    assert_eq!(find_by(&mut db, "name", RecordValue::String("Bob".to_string())).len(), 1);
}

fn range_ids(db: &mut Engine, lo: Bound<RecordValue>, hi: Bound<RecordValue>) -> Vec<i64> {
    db.range_by_records(&"id".to_string(), &lo, &hi)
        .unwrap()
        .iter()
        .map(|r| Inst::from_record(r).id)
        .collect()
}

#[test]
fn test_range_by_id() {
    let mut db = open_inst();
    for id in 0..10 {
        upsert(&mut db, Inst { id, name: Some("Foobar".to_string()), data: vec![] }).unwrap();
    }
    let received = range_ids(
        &mut db,
        Bound::Included(RecordValue::Int(3)),
        Bound::Excluded(RecordValue::Int(7)),
    );
    assert_eq!(received, vec![3, 4, 5, 6]);

    let received = range_ids(
        &mut db,
        Bound::Included(RecordValue::Int(3)),
        Bound::Included(RecordValue::Int(7)),
    );
    assert_eq!(received, vec![3, 4, 5, 6, 7]);

    let received = range_ids(&mut db, Bound::Unbounded, Bound::Included(RecordValue::Int(7)));
    assert_eq!(received, vec![0, 1, 2, 3, 4, 5, 6, 7]);

    let received = range_ids(&mut db, Bound::Included(RecordValue::Int(3)), Bound::Unbounded);
    assert_eq!(received, vec![3, 4, 5, 6, 7, 8, 9]);
}

#[test]
fn test_batch_find_by() {
    let mut db = open_inst();
    for id in 0..10 {
        upsert(&mut db, Inst { id, name: Some("Foobar".to_string()), data: vec![] }).unwrap();
    }
    let batch: Vec<RecordValue> = (2..5).map(RecordValue::Int).collect();
    let result = db.batch_find_by_records(&"id".to_string(), &batch).unwrap();

    assert_eq!(result.len(), batch.len());
    assert_eq!(result.iter().map(|(tag, _)| *tag).collect::<Vec<usize>>(), vec![0, 1, 2]);
    assert_eq!(
        result.iter().map(|(_, r)| Inst::from_record(r).id).collect::<Vec<i64>>(),
        vec![2, 3, 4]
    );
}

#[test]
fn test_commit_transaction() {
    let mut db = open_inst();
    // A transaction is a deferred batch, applied at commit by one batch upsert.
    let mut pending: Vec<Record> = Vec::new();
    pending.push(Inst { id: 0, name: Some("John".to_string()), data: vec![3, 4, 5] }.into_record());
    pending.push(Inst { id: 1, name: Some("John".to_string()), data: vec![1, 2, 3] }.into_record());
    db.batch_upsert_records(pending).expect("Failed to commit transaction");

    let johns = find_by(&mut db, "name", RecordValue::String("John".to_string()));
    assert_eq!(johns.len(), 2);
}

#[test]
fn test_rollback_transaction() {
    let mut db = open_inst();
    let mut pending: Vec<Record> = Vec::new();
    pending.push(Inst { id: 0, name: Some("John".to_string()), data: vec![3, 4, 5] }.into_record());
    pending.push(Inst { id: 1, name: Some("John".to_string()), data: vec![1, 2, 3] }.into_record());
    // Rolling back drops the deferred batch without writing it.
    pending.clear();
    assert!(pending.is_empty());

    let johns = find_by(&mut db, "name", RecordValue::String("John".to_string()));
    assert_eq!(johns.len(), 0);
}

fn with_maybe_str_schema() -> Vec<(String, RecordField)> {
    vec![
        ("id".to_string(), RecordField::integer()),
        ("name".to_string(), RecordField::string().nullable()),
        ("data".to_string(), RecordField::bytes()),
        ("maybe_str".to_string(), RecordField::string().nullable()),
    ]
}

#[test]
fn test_add_nullable_field() {
    let segments = {
        let mut db = open_inst();
        upsert(&mut db, Inst { id: 0, name: Some("John".to_string()), data: vec![3, 4, 5] }).unwrap();
        db.segments().clone()
    };

    let mut db = Engine::initialize(config(with_maybe_str_schema(), vec!["name"], 1 << 20), segments, UUID_B)
        .expect("Failed to initialize DB instance");
    let rec = Record {
        values: vec![
            RecordValue::Int(1),
            RecordValue::String("John".to_string()),
            RecordValue::Bytes(vec![3, 4, 5]),
            RecordValue::Null,
        ],
        tombstone: false,
    };
    db.batch_upsert_records(vec![rec]).unwrap();

    let johns = find_by(&mut db, "name", RecordValue::String("John".to_string()));
    assert_eq!(johns.len(), 2);
}

#[test]
fn test_add_non_nullable_field() {
    let segments = {
        let mut db = Engine::initialize(single_id_config(), vec![], UUID_A)
            .expect("Failed to initialize DB instance");
        let rec = Record { values: vec![RecordValue::Int(0)], tombstone: false };
        db.batch_upsert_records(vec![rec]).unwrap();
        db.segments().clone()
    };

    match Engine::initialize(config(inst_schema(), vec!["name"], 1 << 20), segments, UUID_B) {
        Ok(_) => panic!("Expected initialization to fail"),
        Err(DBError::ValidationError(e)) => {
            assert_eq!(e, ValidationErrorKind::SchemaMismatch);
        }
        Err(e) => panic!("Unexpected error: {:?}", e),
    }
}

#[test]
fn test_delete_by_multiple_indexes() {
    let mut db = open_inst();
    for _ in 0..10 {
        upsert(&mut db, Inst { id: 0, name: Some("foo".to_string()), data: vec![] }).unwrap();
    }
    db.delete_by_field(&"name".to_string(), &RecordValue::String("foo".to_string())).unwrap();

    let result = find_by(&mut db, "name", RecordValue::String("foo".to_string()));
    assert_eq!(result.len(), 0);
    let result = find_by(&mut db, "id", RecordValue::Int(0));
    assert_eq!(result.len(), 0);
}

#[test]
fn test_last_write_wins_through_secondary_index() {
    let mut db = open_inst();
    upsert(&mut db, Inst { id: 1, name: Some("Alice".to_string()), data: vec![0, 1, 2] }).unwrap();
    upsert(&mut db, Inst { id: 1, name: Some("Bob".to_string()), data: vec![0, 1, 2] }).unwrap();
    assert_eq!(find_by(&mut db, "name", RecordValue::String("Alice".to_string())).len(), 0);
    let bobs = find_by(&mut db, "name", RecordValue::String("Bob".to_string()));
    assert_eq!(bobs.len(), 1);
    assert_eq!(Inst::from_record(&bobs[0]).name, Some("Bob".to_string()));
}

#[test]
fn test_batch_upsert_later_record_wins() {
    let mut db = open_inst();
    let recs = vec![
        Inst { id: 7, name: Some("A".to_string()), data: vec![1] }.into_record(),
        Inst { id: 7, name: Some("B".to_string()), data: vec![2] }.into_record(),
    ];
    db.batch_upsert_records(recs).unwrap();
    let got = get(&mut db, 7).unwrap();
    assert_eq!(got.name, Some("B".to_string()));
    assert_eq!(got.data, vec![2]);
}

#[test]
fn test_failed_batch_writes_nothing() {
    let mut db = open_inst();
    let recs = vec![
        Inst { id: 1, name: None, data: vec![] }.into_record(),
        Record { values: vec![RecordValue::Int(2)], tombstone: false },
    ];
    assert_eq!(
        db.batch_upsert_records(recs),
        Err(DBError::ValidationError(ValidationErrorKind::FieldCount))
    );
    assert_eq!(db.segments()[0].metadata.len(), 24);
    assert!(get(&mut db, 1).is_none());
}

#[test]
fn test_upsert_error_kinds() {
    let mut db = open_inst();
    let null_data = Record {
        values: vec![RecordValue::Int(1), RecordValue::Null, RecordValue::Null],
        tombstone: false,
    };
    assert_eq!(
        db.batch_upsert_records(vec![null_data]),
        Err(DBError::ValidationError(ValidationErrorKind::NullInNonNullable))
    );
    let wrong_type = Record {
        values: vec![RecordValue::Int(1), RecordValue::Int(2), RecordValue::Bytes(vec![])],
        tombstone: false,
    };
    assert_eq!(
        db.batch_upsert_records(vec![wrong_type]),
        Err(DBError::ValidationError(ValidationErrorKind::FieldType))
    );
}

#[test]
fn test_query_error_kinds() {
    let mut db = open_inst();
    assert_eq!(
        db.batch_find_by_records(&"nope".to_string(), &vec![RecordValue::Int(1)]).err(),
        Some(DBError::ValidationError(ValidationErrorKind::UnknownField))
    );
    assert_eq!(
        db.batch_find_by_records(&"id".to_string(), &vec![RecordValue::String("x".to_string())]).err(),
        Some(DBError::ValidationError(ValidationErrorKind::FieldType))
    );
    assert_eq!(
        db.batch_find_by_records(&"name".to_string(), &vec![RecordValue::Null]).err(),
        Some(DBError::ValidationError(ValidationErrorKind::NotIndexable))
    );
    assert_eq!(
        db.batch_find_by_records(&"data".to_string(), &vec![RecordValue::Bytes(vec![1])]).err(),
        Some(DBError::ValidationError(ValidationErrorKind::NotIndexable))
    );
    assert_eq!(
        db.range_by_records(&"data".to_string(), &Bound::Unbounded, &Bound::Unbounded).err(),
        Some(DBError::ValidationError(ValidationErrorKind::NotIndexed))
    );
}

#[test]
fn test_initialize_key_errors() {
    let mut c = config(inst_schema(), vec!["name"], 1 << 20);
    c.primary_key = "missing".to_string();
    assert!(matches!(
        Engine::initialize(c, vec![], UUID_A),
        Err(DBError::ValidationError(ValidationErrorKind::UnknownField))
    ));
    let c = config(inst_schema(), vec!["data"], 1 << 20);
    assert!(matches!(
        Engine::initialize(c, vec![], UUID_A),
        Err(DBError::ValidationError(ValidationErrorKind::NotIndexable))
    ));
}

#[test]
fn test_delete_leaves_disjoint_value() {
    let mut db = open_inst();
    upsert(&mut db, Inst { id: 0, name: Some("John".to_string()), data: vec![] }).unwrap();
    upsert(&mut db, Inst { id: 1, name: Some("Bob".to_string()), data: vec![] }).unwrap();
    let deleted = db.delete_by_field(&"name".to_string(), &RecordValue::String("John".to_string())).unwrap();
    assert_eq!(deleted.len(), 1);
    assert!(deleted[0].tombstone);
    assert_eq!(find_by(&mut db, "name", RecordValue::String("John".to_string())).len(), 0);
    assert_eq!(find_by(&mut db, "name", RecordValue::String("Bob".to_string())).len(), 1);
    assert_eq!(find_by(&mut db, "id", RecordValue::Int(1)).len(), 1);
}

#[test]
fn test_range_by_secondary_and_excluded_start() {
    let mut db = open_inst();
    upsert(&mut db, Inst { id: 0, name: Some("b".to_string()), data: vec![] }).unwrap();
    upsert(&mut db, Inst { id: 1, name: Some("a".to_string()), data: vec![] }).unwrap();
    upsert(&mut db, Inst { id: 2, name: Some("c".to_string()), data: vec![] }).unwrap();
    let got: Vec<i64> = db
        .range_by_records(
            &"name".to_string(),
            &Bound::Excluded(RecordValue::String("a".to_string())),
            &Bound::Unbounded,
        )
        .unwrap()
        .iter()
        .map(|r| Inst::from_record(r).id)
        .collect();
    assert_eq!(got, vec![0, 2]);
    assert_eq!(
        range_ids(&mut db, Bound::Excluded(RecordValue::Int(0)), Bound::Excluded(RecordValue::Int(2))),
        vec![1]
    );
}

#[test]
fn test_reader_on_another_handle_sees_writes_after_reload() {
    let mut writer = Engine::initialize(single_id_config(), vec![], UUID_A).unwrap();
    let mut reader = Engine::initialize(single_id_config(), writer.segments().clone(), UUID_B).unwrap();
    for id in 0..100 {
        let rec = Record { values: vec![RecordValue::Int(id)], tombstone: false };
        writer.batch_upsert_records(vec![rec]).unwrap();
    }
    reader.load_segments(writer.segments().clone()).unwrap();
    for id in 0..100 {
        let found = reader.batch_find_by_records(&"id".to_string(), &vec![RecordValue::Int(id)]).unwrap();
        assert_eq!(found.len(), 1);
    }
}

#[test]
fn test_refresh_picks_up_appended_records() {
    let mut a = Engine::initialize(single_id_config(), vec![], UUID_A).unwrap();
    let mut b = Engine::initialize(single_id_config(), a.segments().clone(), UUID_B).unwrap();
    b.batch_upsert_records(vec![Record { values: vec![RecordValue::Int(5)], tombstone: false }])
        .unwrap();
    a.load_segments(b.segments().clone()).unwrap();
    a.refresh_indexes().unwrap();
    assert_eq!(a.primary_memtable().get(&log_db::IndexableValue::Int(5)).map(|k| k.index()), Some(0));
}

#[test]
fn test_rotation_keeps_records_readable() {
    let mut db = Engine::initialize(config(inst_schema(), vec!["name"], 24 + 16 * 3), vec![], UUID_A).unwrap();
    upsert(&mut db, Inst { id: 1, name: Some("x".to_string()), data: vec![1] }).unwrap();
    upsert(&mut db, Inst { id: 2, name: Some("y".to_string()), data: vec![2] }).unwrap();
    upsert(&mut db, Inst { id: 1, name: Some("z".to_string()), data: vec![3] }).unwrap();
    db.do_maintenance_tasks(UUID_B, UUID_C).unwrap();
    assert_eq!(db.segments().len(), 2);
    assert_eq!(db.segments()[0].metadata.len(), 24 + 16 * 3);
    assert_eq!(db.segments()[0].header().unwrap().uuid, UUID_B);
    assert_eq!(db.segments()[1].header().unwrap().uuid, UUID_C);
    assert_eq!(get(&mut db, 1).unwrap().name, Some("z".to_string()));
    assert_eq!(get(&mut db, 2).unwrap().name, Some("y".to_string()));
    assert_eq!(find_by(&mut db, "name", RecordValue::String("x".to_string())).len(), 0);
    // The next write goes to the new segment.
    upsert(&mut db, Inst { id: 3, name: None, data: vec![] }).unwrap();
    assert_eq!(db.segments()[1].metadata.len(), 24 + 16);
}

#[test]
fn test_maintenance_below_threshold_does_nothing() {
    let mut db = open_inst();
    upsert(&mut db, Inst { id: 1, name: None, data: vec![] }).unwrap();
    db.do_maintenance_tasks(UUID_B, UUID_C).unwrap();
    assert_eq!(db.segments().len(), 1);
}

#[test]
fn test_many_handles_each_write_one_id() {
    // Handles take turns on the directory, as the exclusive lock orders them:
    // each one takes in the files as the previous handle left them.
    let mut segments = Engine::initialize(single_id_config(), vec![], UUID_A).unwrap().segments().clone();
    for id in 0..100 {
        let mut handle = Engine::initialize(single_id_config(), segments.clone(), UUID_B).unwrap();
        let rec = Record { values: vec![RecordValue::Int(id)], tombstone: false };
        handle.batch_upsert_records(vec![rec]).expect("Failed to upsert record");
        segments = handle.segments().clone();
    }
    let mut reader = Engine::initialize(single_id_config(), segments, UUID_C).unwrap();
    for id in 0..100 {
        let found = reader.batch_find_by_records(&"id".to_string(), &vec![RecordValue::Int(id)]).unwrap();
        assert_eq!(found.len(), 1);
        assert!(matches!(found[0].1.values[0], RecordValue::Int(x) if x == id));
    }
}

#[test]
fn test_upsert_refuses_tombstone_records() {
    let mut db = open_inst();
    let mut rec = Inst { id: 1, name: None, data: vec![] }.into_record();
    rec.tombstone = true;
    assert_eq!(
        db.batch_upsert_records(vec![rec]),
        Err(DBError::ValidationError(ValidationErrorKind::TombstoneRecord))
    );
    assert_eq!(db.segments()[0].metadata.len(), 24);
}

#[test]
fn test_upsert_appends_serialized_records() {
    let mut db = open_inst();
    let a = Inst { id: 1, name: Some("a".to_string()), data: vec![9] }.into_record();
    let b = Inst { id: 2, name: None, data: vec![] }.into_record();
    let (sa, sb) = (a.serialize(), b.serialize());
    db.batch_upsert_records(vec![a, b]).unwrap();
    let seg = &db.segments()[0];
    let mut expected = sa.clone();
    expected.extend_from_slice(&sb);
    assert_eq!(seg.data, expected);
    assert_eq!(seg.row(0), (0, sa.len() as u64));
    assert_eq!(seg.row(1), (sa.len() as u64, sb.len() as u64));
}

#[test]
fn test_delete_with_wrong_value_type_is_refused() {
    let mut db = open_inst();
    assert_eq!(
        db.delete_by_field(&"id".to_string(), &RecordValue::String("x".to_string())).err(),
        Some(DBError::ValidationError(ValidationErrorKind::FieldType))
    );
}
