//! The engine: schema validation, upsert, find, range, delete, index
//! refresh, and rotation with compaction, over the segments of a directory
//! held as bytes.

use vstd::prelude::*;
use crate::error::{ConsistencyErrorKind, DBError, ValidationErrorKind};
use crate::log_key::{index_limit, pack_log_key, LogKey};
use crate::memtable::{range_sets, range_values, Bound, PrimaryMemtable, SecondaryMemtable};
use crate::record::{
    index_key_of, type_check, value_matches_field, IndexKey, IndexableValue, Record, RecordField,
    RecordFieldType, RecordView,
};
use crate::segment::{
    header_bytes, metadata_size_ok, row_at, row_count, rows_in_bounds, segment_ok, stored_record, MetadataHeader, Segment, METADATA_VERSION,
};
use crate::key_order::compare_keys;

verus! {

/// How far a write is pushed towards the disk before it returns.
#[derive(Debug, Clone, Copy, PartialEq, Eq, Structural)]
pub enum WriteDurability {
    /// Left in the writer's buffer.
    Async,
    /// Flushed to the operating system.
    Flush,
    /// Flushed and synced to disk.
    FlushSync,
}

/// Whether reads first take in what other handles appended.
#[derive(Debug, Clone, Copy, PartialEq, Eq, Structural)]
pub enum ReadConsistency {
    /// Refresh the indexes before every read.
    Strong,
    /// Read the indexes as they are.
    Eventual,
}

/// What the engine is opened with.
#[derive(Debug, Clone)]
pub struct Config {
    /// The schema: each field's name and type, in record order.
    pub fields: Vec<(String, RecordField)>,
    pub primary_key: String,
    pub secondary_keys: Vec<String>,
    /// The metadata size at which maintenance rotates the active segment.
    pub segment_size: u64,
    pub write_durability: WriteDurability,
    pub read_consistency: ReadConsistency,
}

/// Row `i` is the first field named `name`.
pub open spec fn is_first_field(fields: Seq<(String, RecordField)>, name: Seq<char>, i: int) -> bool {
    &&& 0 <= i < fields.len()
    &&& fields[i].0@ == name
    &&& forall|j: int| 0 <= j < i ==> (#[trigger] fields[j]).0@ != name
}

pub open spec fn has_field(fields: Seq<(String, RecordField)>, name: Seq<char>) -> bool {
    exists|i: int| 0 <= i < fields.len() && (#[trigger] fields[i]).0@ == name
}

/// Finds the first field named `name`.
pub fn find_field(fields: &Vec<(String, RecordField)>, name: &String) -> (r: Option<usize>)
    ensures
        match r {
            Some(i) => is_first_field(fields@, name@, i as int),
            None => !has_field(fields@, name@),
        },
{
    let mut i: usize = 0;
    while i < fields.len()
        invariant
            i <= fields@.len(),
            forall|j: int| 0 <= j < i ==> (#[trigger] fields@[j]).0@ != name@,
        decreases fields@.len() - i,
    {
        if fields[i].0 == *name {
            return Some(i);
        }
        i = i + 1;
    }
    None
}

/// Whether a record fits the schema: one value per field, each of its field's type.
pub open spec fn record_valid(fields: Seq<(String, RecordField)>, r: RecordView) -> bool {
    &&& r.values.len() == fields.len()
    &&& forall|i: int| 0 <= i < fields.len() ==> value_matches_field(r.values[i], #[trigger] fields[i].1)
}

/// Checks a record against the schema.
pub fn validate_record(fields: &Vec<(String, RecordField)>, record: &Record) -> (r: Result<(), DBError>)
    ensures
        r is Ok <==> record_valid(fields@, record@),
        r is Err ==> r->Err_0 is ValidationError,
{
    if record.values.len() != fields.len() {
        return Err(DBError::ValidationError(ValidationErrorKind::FieldCount));
    }
    let mut i: usize = 0;
    while i < fields.len()
        invariant
            i <= fields@.len(),
            record.values@.len() == fields@.len(),
            forall|j: int| 0 <= j < i ==> value_matches_field(record@.values[j], #[trigger] fields@[j].1),
        decreases fields@.len() - i,
    {
        if !type_check(&record.values[i], &fields[i].1) {
            return match record.values[i] {
                crate::record::RecordValue::Null => Err(
                    DBError::ValidationError(ValidationErrorKind::NullInNonNullable),
                ),
                _ => Err(DBError::ValidationError(ValidationErrorKind::FieldType)),
            };
        }
        i = i + 1;
    }
    Ok(())
}

/// A key field: present in the schema, with an integer or string type.
pub open spec fn key_field_ok(fields: Seq<(String, RecordField)>, name: Seq<char>) -> bool {
    exists|i: int|
        is_first_field(fields, name, i) && (fields[i].1.field_type == RecordFieldType::Int
            || fields[i].1.field_type == RecordFieldType::String)
}

/// The primary and every secondary key name an indexable field.
pub open spec fn keys_valid(c: Config) -> bool {
    &&& key_field_ok(c.fields@, c.primary_key@)
    &&& forall|j: int|
        0 <= j < c.secondary_keys@.len() ==> key_field_ok(c.fields@, #[trigger] c.secondary_keys@[j]@)
}

/// A stored record fits a schema that may have grown: its values match a
/// prefix of the fields, and every field past them is nullable.
pub open spec fn schema_extends(fields: Seq<(String, RecordField)>, r: RecordView) -> bool {
    &&& r.values.len() <= fields.len()
    &&& forall|i: int| 0 <= i < r.values.len() ==> value_matches_field(r.values[i], #[trigger] fields[i].1)
    &&& forall|i: int| r.values.len() <= i < fields.len() ==> (#[trigger] fields[i]).1.nullable
}

/// Every readable record of a segment fits the schema.
pub open spec fn segment_fits_schema(fields: Seq<(String, RecordField)>, seg: Segment) -> bool {
    forall|i: int|
        0 <= i < seg.rows() ==> match #[trigger] stored_record(seg.metadata@, seg.data@, i) {
            Some(r) => schema_extends(fields, r),
            None => true,
        }
}

/// Finds a key field; it must be in the schema and hold integers or strings.
fn find_key_field(fields: &Vec<(String, RecordField)>, name: &String) -> (r: Result<usize, DBError>)
    ensures
        r is Ok <==> key_field_ok(fields@, name@),
        r is Ok ==> is_first_field(fields@, name@, r->Ok_0 as int),
        r is Err ==> r->Err_0 is ValidationError,
{
    match find_field(fields, name) {
        None => Err(DBError::ValidationError(ValidationErrorKind::UnknownField)),
        Some(i) => {
            let t = fields[i].1.field_type;
            if t == RecordFieldType::Int || t == RecordFieldType::String {
                Ok(i)
            } else {
                proof {
                    if key_field_ok(fields@, name@) {
                        let j = choose|j: int|
                            is_first_field(fields@, name@, j) && (fields@[j].1.field_type
                                == RecordFieldType::Int || fields@[j].1.field_type
                                == RecordFieldType::String);
                        if j < i {
                            assert(fields@[j].0@ != name@);
                        } else if j > i {
                            assert(fields@[i as int].0@ != name@);
                        }
                    }
                }
                Err(DBError::ValidationError(ValidationErrorKind::NotIndexable))
            }
        },
    }
}

/// Checks that a stored record fits the schema, which may have grown by
/// nullable fields.
fn check_schema_extends(fields: &Vec<(String, RecordField)>, record: &Record) -> (r: bool)
    ensures
        r == schema_extends(fields@, record@),
{
    let n = record.values.len();
    if n > fields.len() {
        return false;
    }
    let mut i: usize = 0;
    while i < fields.len()
        invariant
            n == record@.values.len(),
            n <= fields@.len(),
            i <= fields@.len(),
            forall|j: int| 0 <= j < i && j < n ==> value_matches_field(record@.values[j], #[trigger] fields@[j].1),
            forall|j: int| n <= j < i ==> (#[trigger] fields@[j]).1.nullable,
        decreases fields@.len() - i,
    {
        if i < n {
            if !type_check(&record.values[i], &fields[i].1) {
                return false;
            }
        } else if !fields[i].1.nullable {
            return false;
        }
        i = i + 1;
    }
    true
}

/// Position `j` holds the first occurrence of `name`.
pub open spec fn is_first_name(names: Seq<String>, name: Seq<char>, j: int) -> bool {
    &&& 0 <= j < names.len()
    &&& names[j]@ == name
    &&& forall|i: int| 0 <= i < j ==> (#[trigger] names[i])@ != name
}

pub open spec fn has_name(names: Seq<String>, name: Seq<char>) -> bool {
    exists|j: int| 0 <= j < names.len() && (#[trigger] names[j])@ == name
}

/// A name that occurs has a first occurrence.
pub proof fn lemma_first_name_exists(names: Seq<String>, name: Seq<char>, i: int)
    requires
        0 <= i < names.len(),
        names[i]@ == name,
    ensures
        exists|j: int| is_first_name(names, name, j),
    decreases i,
{
    if exists|m: int| 0 <= m < i && (#[trigger] names[m])@ == name {
        let m = choose|m: int| 0 <= m < i && (#[trigger] names[m])@ == name;
        lemma_first_name_exists(names, name, m);
    } else {
        assert(is_first_name(names, name, i));
    }
}

/// Finds the first occurrence of `name`.
fn find_name(names: &Vec<String>, name: &String) -> (r: Option<usize>)
    ensures
        match r {
            Some(j) => is_first_name(names@, name@, j as int),
            None => !has_name(names@, name@),
        },
{
    let mut j: usize = 0;
    while j < names.len()
        invariant
            j <= names@.len(),
            forall|i: int| 0 <= i < j ==> (#[trigger] names@[i])@ != name@,
        decreases names@.len() - j,
    {
        if names[j] == *name {
            return Some(j);
        }
        j = j + 1;
    }
    None
}

/// A queried value must fit the field and be an integer or a string.
pub open spec fn query_value_ok(f: RecordField, v: crate::record::ValueView) -> bool {
    value_matches_field(v, f) && index_key_of(v) is Some
}

/// A range bound whose value, if any, may be queried on field `f`.
pub open spec fn bound_ok(b: Bound<crate::record::ValueView>, f: RecordField) -> bool {
    match b {
        Bound::Included(v) => query_value_ok(f, v),
        Bound::Excluded(v) => query_value_ok(f, v),
        Bound::Unbounded => true,
    }
}

/// The index-key bound of a value bound.
pub open spec fn bound_key(b: Bound<crate::record::ValueView>) -> Bound<IndexKey> {
    match b {
        Bound::Included(v) => Bound::Included(index_key_of(v)->Some_0),
        Bound::Excluded(v) => Bound::Excluded(index_key_of(v)->Some_0),
        Bound::Unbounded => Bound::Unbounded,
    }
}

/// Converts a range bound on values to one on index keys.
fn bound_to_indexable(b: &Bound<crate::record::RecordValue>, f: &RecordField) -> (r: Result<Bound<IndexableValue>, DBError>)
    ensures
        r is Ok <==> bound_ok(b@, *f),
        r is Ok ==> r->Ok_0@ == bound_key(b@),
        r is Err ==> r->Err_0 is ValidationError,
{
    let v = match b {
        Bound::Included(v) => v,
        Bound::Excluded(v) => v,
        Bound::Unbounded => {
            return Ok(Bound::Unbounded);
        },
    };
    if !type_check(v, f) {
        return Err(DBError::ValidationError(ValidationErrorKind::FieldType));
    }
    let k = match v.as_indexable() {
        Some(k) => k,
        None => {
            return Err(DBError::ValidationError(ValidationErrorKind::NotIndexable));
        },
    };
    match b {
        Bound::Included(_) => Ok(Bound::Included(k)),
        Bound::Excluded(_) => Ok(Bound::Excluded(k)),
        Bound::Unbounded => Ok(Bound::Unbounded),
    }
}

/// The index key that a record holds in field `i`, if any.
pub open spec fn record_key(r: RecordView, i: int) -> Option<IndexKey> {
    if 0 <= i < r.values.len() {
        index_key_of(r.values[i])
    } else {
        None
    }
}

/// Reads the index key of field `i` of a record.
fn key_of(record: &Record, i: usize) -> (r: Option<IndexableValue>)
    ensures
        match r {
            Some(k) => record_key(record@, i as int) == Some(k@),
            None => record_key(record@, i as int) is None,
        },
{
    if i < record.values.len() {
        record.values[i].as_indexable()
    } else {
        None
    }
}

/// Every record fits the schema and has a primary key.
pub open spec fn records_valid(fields: Seq<(String, RecordField)>, pk: int, recs: Seq<RecordView>) -> bool {
    forall|j: int|
        0 <= j < recs.len() ==> record_valid(fields, #[trigger] recs[j]) && record_key(recs[j], pk) is Some
            && !recs[j].tombstone
}

/// The serializations of records, one after the other.
pub open spec fn encoded_concat(recs: Seq<RecordView>) -> Seq<u8>
    decreases recs.len(),
{
    if recs.len() == 0 {
        Seq::empty()
    } else {
        encoded_concat(recs.drop_last()) + crate::record::encode_record(recs.last())
    }
}

/// The metadata rows for records appended one after the other to data that
/// had `off` bytes: each row holds the record's offset and serialized length.
pub open spec fn appended_rows(off: int, recs: Seq<RecordView>) -> Seq<u8>
    decreases recs.len(),
{
    if recs.len() == 0 {
        Seq::empty()
    } else {
        appended_rows(off, recs.drop_last()) + crate::segment::row_bytes(
            (off + encoded_concat(recs.drop_last()).len()) as u64,
            crate::record::encode_record(recs.last()).len() as u64,
        )
    }
}

/// A segment has room for the records: their rows stay addressable by log
/// keys and both files stay within the machine's sizes.
pub open spec fn room_for(seg: Segment, recs: Seq<RecordView>) -> bool {
    &&& seg.rows() + recs.len() < index_limit()
    &&& seg.metadata@.len() + 16 * recs.len() <= usize::MAX
    &&& seg.data@.len() + encoded_concat(recs).len() <= usize::MAX
}

/// A prefix of records serializes to no more bytes than all of them.
pub proof fn lemma_encoded_concat_prefix(recs: Seq<RecordView>, m: int)
    requires
        0 <= m <= recs.len(),
    ensures
        encoded_concat(recs.take(m)).len() <= encoded_concat(recs).len(),
    decreases recs.len(),
{
    if m < recs.len() {
        lemma_encoded_concat_prefix(recs.drop_last(), m);
        assert(recs.drop_last().take(m) =~= recs.take(m));
    } else {
        assert(recs.take(m) =~= recs);
    }
}

/// A secondary index (on field `sk`) after a record `r` at `lk` is indexed:
/// the log key that the primary index held for `r`'s key leaves the set of
/// its record's value, and `lk` joins the set of `r`'s value.
pub open spec fn sec_insert(
    m: Map<IndexKey, Set<u64>>,
    prim: Map<IndexKey, u64>,
    segs: Seq<Segment>,
    pk: int,
    sk: int,
    lk: u64,
    r: RecordView,
) -> Map<IndexKey, Set<u64>> {
    let m1 = sec_drop_key(m, prim, segs, pk, sk, record_key(r, pk)->Some_0);
    match record_key(r, sk) {
        Some(v) => sec_add(m1, v, lk),
        None => m1,
    }
}

/// A secondary index after primary key `k` leaves the indexes: the log key
/// that the primary index held for `k` leaves the set of its record's value.
pub open spec fn sec_drop_key(
    m: Map<IndexKey, Set<u64>>,
    prim: Map<IndexKey, u64>,
    segs: Seq<Segment>,
    pk: int,
    sk: int,
    k: IndexKey,
) -> Map<IndexKey, Set<u64>> {
    if prim.contains_key(k) {
        match record_key(stored_at(segs, prim[k])->Some_0, sk) {
            Some(v) => sec_remove(m, v, prim[k]),
            None => m,
        }
    } else {
        m
    }
}

/// A secondary index after records are written at rows `start`, `start + 1`,
/// ... of segment `seg` and indexed one after the other.
pub open spec fn sec_put_all(
    m: Map<IndexKey, Set<u64>>,
    prim: Map<IndexKey, u64>,
    segs: Seq<Segment>,
    pk: int,
    sk: int,
    recs: Seq<RecordView>,
    seg: u16,
    start: int,
) -> Map<IndexKey, Set<u64>>
    decreases recs.len(),
{
    if recs.len() == 0 {
        m
    } else {
        let d = recs.drop_last();
        sec_insert(
            sec_put_all(m, prim, segs, pk, sk, d, seg, start),
            put_all(prim, d, pk, seg, start),
            segs,
            pk,
            sk,
            pack_log_key(seg, (start + recs.len() - 1) as u64),
            recs.last(),
        )
    }
}

/// The primary index after records are written at rows `start`, `start + 1`, ...
/// of segment `seg`: each record's key points at its row, later rows winning.
pub open spec fn put_all(m: Map<IndexKey, u64>, recs: Seq<RecordView>, pk: int, seg: u16, start: int) -> Map<
    IndexKey,
    u64,
>
    decreases recs.len(),
{
    if recs.len() == 0 {
        m
    } else {
        put_all(m, recs.drop_last(), pk, seg, start).insert(
            record_key(recs.last(), pk)->Some_0,
            pack_log_key(seg, (start + recs.len() - 1) as u64),
        )
    }
}

/// Appends encoded records to a segment, in order; returns their log keys in
/// segment `segment_num`. Stops with an error when the segment is full, with
/// the records appended so far left in place.
#[verifier::rlimit(40)]
fn append_all(active: &mut Segment, segment_num: u16, encoded: &Vec<Vec<u8>>, Ghost(recs): Ghost<
    Seq<RecordView>,
>) -> (r: Result<Vec<LogKey>, DBError>)
    requires
        old(active).spec_ok(),
        old(active).rows() < index_limit(),
        encoded@.len() == recs.len(),
        forall|x: int|
            0 <= x < encoded@.len() ==> (#[trigger] encoded@[x])@ == crate::record::encode_record(recs[x])
                && crate::record::record_fits(recs[x]),
    ensures
        final(active).spec_ok(),
        final(active).rows() < index_limit(),
        final(active).rows() >= old(active).rows(),
        forall|i: int|
            0 <= i < old(active).rows() ==> #[trigger] stored_record(final(active).metadata@, final(active).data@, i)
                == stored_record(old(active).metadata@, old(active).data@, i),
        r is Err ==> r->Err_0 is ConsistencyError,
        r is Ok ==> final(active).rows() == old(active).rows() + recs.len(),
        r is Ok ==> r->Ok_0@.len() == recs.len(),
        r is Ok ==> forall|x: int|
            0 <= x < recs.len() ==> (#[trigger] r->Ok_0@[x])@ == pack_log_key(segment_num, (old(active).rows() + x) as u64),
        r is Ok ==> forall|x: int|
            0 <= x < recs.len() ==> stored_record(final(active).metadata@, final(active).data@, #[trigger] (old(active).rows() + x))
                == Some(recs[x]),
        r is Ok ==> final(active).data@ == old(active).data@ + encoded_concat(recs),
        r is Ok ==> final(active).metadata@ == old(active).metadata@ + appended_rows(old(active).data@.len() as int, recs),
        room_for(*old(active), recs) ==> r is Ok,
{
    let ghost before = *active;
    let ghost rows = before.rows();
    let mut lks: Vec<LogKey> = Vec::new();
    let mut k: usize = 0;
    while k < encoded.len()
        invariant
            k <= encoded@.len(),
            encoded@.len() == recs.len(),
            forall|x: int|
                0 <= x < encoded@.len() ==> (#[trigger] encoded@[x])@ == crate::record::encode_record(recs[x])
                    && crate::record::record_fits(recs[x]),
            before == *old(active),
            active.spec_ok(),
            active.rows() == rows + k,
            rows == before.rows(),
            active.rows() < index_limit(),
            lks@.len() == k,
            forall|x: int| 0 <= x < k ==> (#[trigger] lks@[x])@ == pack_log_key(segment_num, (rows + x) as u64),
            forall|x: int|
                0 <= x < k ==> stored_record(active.metadata@, active.data@, #[trigger] (rows + x)) == Some(recs[x]),
            forall|i: int|
                0 <= i < rows ==> #[trigger] stored_record(active.metadata@, active.data@, i)
                    == stored_record(before.metadata@, before.data@, i),
            active.data@ == before.data@ + encoded_concat(recs.take(k as int)),
            active.metadata@ == before.metadata@ + appended_rows(before.data@.len() as int, recs.take(k as int)),
            active.metadata@.len() == before.metadata@.len() + 16 * k,
        decreases encoded@.len() - k,
    {
        let bytes = &encoded[k];
        let meta_len = active.metadata.len();
        let data_len = active.data.len();
        let row_count = ((meta_len - crate::segment::METADATA_FILE_HEADER_SIZE)
            / crate::segment::METADATA_ROW_LENGTH) as u64;
        proof {
            let t1 = recs.take(k + 1);
            assert(t1.drop_last() =~= recs.take(k as int));
            assert(t1.last() == recs[k as int]);
            if room_for(before, recs) {
                lemma_encoded_concat_prefix(recs, k + 1);
                assert(encoded_concat(t1).len() == encoded_concat(recs.take(k as int)).len() + bytes@.len());
            }
        }
        if row_count >= 0xFFFF_FFFF_FFFFu64 || meta_len > usize::MAX - crate::segment::METADATA_ROW_LENGTH
            || data_len > usize::MAX - bytes.len() {
            return Err(DBError::ConsistencyError(ConsistencyErrorKind::SegmentFull));
        }
        proof {
            crate::segment::lemma_append_stored(active.metadata@, active.data@, bytes@);
            crate::record::lemma_record_round_trip(recs[k as int]);
        }
        let ghost prev = *active;
        let index = active.append(bytes);
        let lk = LogKey::new(segment_num, index);
        lks.push(lk);
        k = k + 1;
        proof {
            assert forall|x: int| 0 <= x < k implies stored_record(active.metadata@, active.data@, #[trigger] (rows + x))
                == Some(recs[x]) by {
                if x < k - 1 {
                    assert(stored_record(active.metadata@, active.data@, rows + x) == stored_record(
                        prev.metadata@,
                        prev.data@,
                        rows + x,
                    ));
                }
            }
            assert forall|i: int| 0 <= i < rows implies #[trigger] stored_record(active.metadata@, active.data@, i)
                == stored_record(before.metadata@, before.data@, i) by {
                assert(stored_record(active.metadata@, active.data@, i) == stored_record(prev.metadata@, prev.data@, i));
            }
            let t1 = recs.take(k as int);
            assert(t1.drop_last() =~= recs.take(k - 1));
            assert(active.data@ =~= before.data@ + encoded_concat(t1));
            assert(active.metadata@ =~= before.metadata@ + appended_rows(before.data@.len() as int, t1));
        }
    }
    assert(recs.take(k as int) =~= recs);
    Ok(lks)
}

/// Row `j` is the last of the rows `0..keys.len()` whose key is that of row `i`.
pub open spec fn is_last_with_key(keys: Seq<IndexKey>, i: int, j: int) -> bool {
    &&& 0 <= i <= j < keys.len()
    &&& keys[j] == keys[i]
    &&& forall|m: int| j < m < keys.len() ==> #[trigger] keys[m] != keys[i]
}

/// For each row, the last row with the same key.
fn last_with_same_key(keys: &Vec<IndexableValue>) -> (r: Vec<usize>)
    ensures
        r@.len() == keys@.len(),
        forall|i: int|
            0 <= i < keys@.len() ==> is_last_with_key(keys@.map_values(|k: IndexableValue| k@), i, #[trigger] r@[i] as int),
{
    let ghost ks = keys@.map_values(|k: IndexableValue| k@);
    let mut out: Vec<usize> = Vec::new();
    let mut i: usize = 0;
    while i < keys.len()
        invariant
            i <= keys@.len(),
            ks == keys@.map_values(|k: IndexableValue| k@),
            out@.len() == i,
            forall|x: int| 0 <= x < i ==> is_last_with_key(ks, x, #[trigger] out@[x] as int),
        decreases keys@.len() - i,
    {
        let mut j: usize = i;
        let mut m: usize = i + 1;
        while m < keys.len()
            invariant
                i < keys@.len(),
                i <= j < m <= keys@.len(),
                ks == keys@.map_values(|k: IndexableValue| k@),
                ks[j as int] == ks[i as int],
                forall|y: int| j < y < m ==> #[trigger] ks[y] != ks[i as int],
            decreases keys@.len() - m,
        {
            if compare_keys(&keys[m], &keys[i]) == 0 {
                j = m;
            }
            m = m + 1;
        }
        out.push(j);
        i = i + 1;
    }
    out
}

/// The records of the first `n` rows that are the last of their key, in order.
pub open spec fn survivors(keys: Seq<IndexKey>, recs: Seq<RecordView>, n: int) -> Seq<RecordView>
    decreases n,
{
    if n <= 0 {
        Seq::empty()
    } else if is_last_with_key(keys, n - 1, n - 1) {
        survivors(keys, recs, n - 1).push(recs[n - 1])
    } else {
        survivors(keys, recs, n - 1)
    }
}

/// Fewer rows leave no more surviving bytes.
pub proof fn lemma_survivors_grow(keys: Seq<IndexKey>, recs: Seq<RecordView>, m: int, n: int)
    requires
        0 <= m <= n,
    ensures
        encoded_concat(survivors(keys, recs, m)).len() <= encoded_concat(survivors(keys, recs, n)).len(),
    decreases n - m,
{
    if m < n {
        lemma_survivors_grow(keys, recs, m, n - 1);
        if is_last_with_key(keys, n - 1, n - 1) {
            let s = survivors(keys, recs, n - 1);
            assert(s.push(recs[n - 1]).drop_last() =~= s);
        }
    }
}

/// Writes the records that are the last of their key, once each, to a new
/// segment named by `uuid`; returns it with the row of each written record.
fn write_survivors(recs: &Vec<Record>, last: &Vec<usize>, Ghost(ks): Ghost<Seq<IndexKey>>, uuid: [u8; 16]) -> (r:
    Result<(Segment, Vec<u64>), DBError>)
    requires
        ks.len() == recs@.len(),
        last@.len() == recs@.len(),
        forall|y: int| 0 <= y < recs@.len() ==> is_last_with_key(ks, y, #[trigger] last@[y] as int),
        24 + 16 * recs@.len() <= usize::MAX,
    ensures
        r is Err ==> r->Err_0 is ConsistencyError,
        encoded_concat(survivors(ks, recs@.map_values(|r: Record| r@), recs@.len() as int)).len() <= usize::MAX ==> r is Ok,
        r is Ok ==> r->Ok_0.0.data@ == encoded_concat(survivors(ks, recs@.map_values(|r: Record| r@), recs@.len() as int)),
        r is Ok ==> ({
            let (scratch, slot) = r->Ok_0;
            &&& scratch.spec_ok()
            &&& slot@.len() == recs@.len()
            &&& forall|y: int|
                0 <= y < recs@.len() && last@[y] == y ==> (#[trigger] slot@[y]) < scratch.rows()
                    && stored_record(scratch.metadata@, scratch.data@, slot@[y] as int) == Some(recs@[y]@)
        }),
{
    let mut scratch = Segment::create(uuid);
    let mut slot: Vec<u64> = Vec::new();
    let mut x: usize = 0;
    while x < recs.len()
        invariant
            x <= recs@.len(),
            last@.len() == recs@.len(),
            scratch.spec_ok(),
            scratch.rows() <= x,
            slot@.len() == x,
            ks.len() == recs@.len(),
            forall|y: int| 0 <= y < recs@.len() ==> is_last_with_key(ks, y, #[trigger] last@[y] as int),
            24 + 16 * recs@.len() <= usize::MAX,
            scratch.metadata@.len() == 24 + 16 * scratch.rows(),
            scratch.data@ == encoded_concat(survivors(ks, recs@.map_values(|r: Record| r@), x as int)),
            forall|y: int|
                0 <= y < x && last@[y] == y ==> (#[trigger] slot@[y]) < scratch.rows() && stored_record(
                    scratch.metadata@,
                    scratch.data@,
                    slot@[y] as int,
                ) == Some(recs@[y]@),
        decreases recs@.len() - x,
    {
        proof {
            assert(is_last_with_key(ks, x as int, last@[x as int] as int));
            if is_last_with_key(ks, x as int, x as int) && last@[x as int] != x {
                assert(ks[last@[x as int] as int] == ks[x as int]);
            }
            lemma_survivors_grow(ks, recs@.map_values(|r: Record| r@), x + 1, recs@.len() as int);
        }
        if last[x] == x {
            let bytes = recs[x].serialize();
            let meta_len = scratch.metadata.len();
            let data_len = scratch.data.len();
            proof {
                let sv = survivors(ks, recs@.map_values(|r: Record| r@), x as int);
                assert(survivors(ks, recs@.map_values(|r: Record| r@), x + 1) == sv.push(recs@[x as int]@));
                assert(sv.push(recs@[x as int]@).drop_last() =~= sv);
                assert(recs@.map_values(|r: Record| r@)[x as int] == recs@[x as int]@);
            }
            if meta_len > usize::MAX - crate::segment::METADATA_ROW_LENGTH || data_len > usize::MAX
                - bytes.len() {
                return Err(DBError::ConsistencyError(ConsistencyErrorKind::SegmentFull));
            }
            proof {
                crate::segment::lemma_append_stored(scratch.metadata@, scratch.data@, bytes@);
                crate::record::lemma_record_round_trip(recs@[x as int]@);
            }
            let ghost prev = scratch;
            let s = scratch.append(&bytes);
            slot.push(s);
            assert(scratch.data@ =~= encoded_concat(survivors(ks, recs@.map_values(|r: Record| r@), x + 1)));
            proof {
                assert forall|y: int| 0 <= y < x + 1 && last@[y] == y implies (#[trigger] slot@[y])
                    < scratch.rows() && stored_record(scratch.metadata@, scratch.data@, slot@[y] as int)
                    == Some(recs@[y]@) by {
                    if y < x {
                        assert(stored_record(scratch.metadata@, scratch.data@, slot@[y] as int)
                            == stored_record(prev.metadata@, prev.data@, slot@[y] as int));
                    }
                }
            }
        } else {
            slot.push(0);
            assert(survivors(ks, recs@.map_values(|r: Record| r@), x + 1) == survivors(ks, recs@.map_values(|r: Record| r@), x as int));
        }
        x = x + 1;
    }
    Ok((scratch, slot))
}

/// The compacted form of a segment's records: a data file with the last
/// record of each key once, and metadata named by `uuid` with one row per
/// record, in order, each pointing at the last record with its key.
fn build_compacted(recs: &Vec<Record>, last: &Vec<usize>, Ghost(ks): Ghost<Seq<IndexKey>>, uuid: [u8; 16]) -> (r:
    Result<Segment, DBError>)
    requires
        ks.len() == recs@.len(),
        recs@.len() < index_limit(),
        last@.len() == recs@.len(),
        forall|y: int| 0 <= y < recs@.len() ==> is_last_with_key(ks, y, #[trigger] last@[y] as int),
        24 + 16 * recs@.len() <= usize::MAX,
    ensures
        r is Err ==> r->Err_0 is ConsistencyError,
        encoded_concat(survivors(ks, recs@.map_values(|r: Record| r@), recs@.len() as int)).len() <= usize::MAX ==> r is Ok,
        r is Ok ==> r->Ok_0.data@ == encoded_concat(survivors(ks, recs@.map_values(|r: Record| r@), recs@.len() as int)),
        r is Ok ==> ({
            let seg = r->Ok_0;
            &&& seg.spec_ok()
            &&& seg.rows() == recs@.len()
            &&& seg.metadata@.len() == 24 + 16 * recs@.len()
            &&& seg.metadata@.subrange(8, 24) == uuid@
            &&& forall|z: int|
                0 <= z < recs@.len() ==> stored_record(seg.metadata@, seg.data@, z) == Some(
                    (#[trigger] recs@[last@[z] as int])@,
                )
        }),
{
    let n = recs.len();
    let (scratch, slot) = match write_survivors(recs, last, Ghost(ks), uuid) {
        Ok(p) => p,
        Err(e) => {
            return Err(e);
        },
    };
    let header = MetadataHeader { version: METADATA_VERSION, uuid };
    let mut meta = header.serialize();
    let mut y: usize = 0;
    while y < n
        invariant
            y <= n,
            n == recs@.len(),
            ks.len() == n,
            n < index_limit(),
            last@.len() == n,
            slot@.len() == n,
            forall|z: int| 0 <= z < n ==> is_last_with_key(ks, z, #[trigger] last@[z] as int),
            forall|z: int|
                0 <= z < n && last@[z] == z ==> (#[trigger] slot@[z]) < scratch.rows() && stored_record(
                    scratch.metadata@,
                    scratch.data@,
                    slot@[z] as int,
                ) == Some(recs@[z]@),
            24 + 16 * n <= usize::MAX,
            scratch.spec_ok(),
            metadata_size_ok(meta@.len() as int),
            row_count(meta@.len() as int) == y,
            meta@.len() == 24 + 16 * y,
            meta@.subrange(0, 24) == header_bytes(METADATA_VERSION, uuid@),
            forall|z: int|
                0 <= z < y ==> #[trigger] row_at(meta@, z) == row_at(scratch.metadata@, slot@[last@[z] as int] as int),
        decreases n - y,
    {
        let l = last[y];
        assert(is_last_with_key(ks, y as int, l as int));
        assert(last@[l as int] == l) by {
            assert(is_last_with_key(ks, l as int, last@[l as int] as int));
        }
        let (off, len) = scratch.row(slot[l]);
        let ghost prev = meta@;
        proof {
            crate::segment::lemma_append_row(meta@, off, len);
        }
        if meta.len() > usize::MAX - 16 {
            return Err(DBError::ConsistencyError(ConsistencyErrorKind::SegmentFull));
        }
        crate::bytes::push_be_u64(&mut meta, off);
        crate::bytes::push_be_u64(&mut meta, len);
        assert(meta@ =~= prev + crate::segment::row_bytes(off, len));
        assert(meta@.subrange(0, 24) =~= prev.subrange(0, 24));
        y = y + 1;
    }
    let compacted = Segment { metadata: meta, data: scratch.data };
    proof {
        assert(compacted.metadata@[0] == METADATA_VERSION) by {
            assert(compacted.metadata@[0] == compacted.metadata@.subrange(0, 24)[0]);
        }
        assert forall|z: int| 0 <= z < n implies stored_record(compacted.metadata@, compacted.data@, z)
            == Some((#[trigger] recs@[last@[z] as int])@) && row_at(compacted.metadata@, z).0 + row_at(
            compacted.metadata@,
            z,
        ).1 <= compacted.data@.len() by {
            let l = last@[z] as int;
            assert(is_last_with_key(ks, l, last@[l] as int));
            assert(last@[l] == l);
            assert(row_at(scratch.metadata@, slot@[l] as int).0 + row_at(scratch.metadata@, slot@[l] as int).1
                <= scratch.data@.len());
        }
        assert(rows_in_bounds(compacted.metadata@, compacted.data@.len() as int)) by {
            assert forall|z: int| 0 <= z < row_count(compacted.metadata@.len() as int) implies #[trigger] row_at(
                compacted.metadata@,
                z,
            ).0 + row_at(compacted.metadata@, z).1 <= compacted.data@.len() by {
                assert(stored_record(compacted.metadata@, compacted.data@, z) == Some(recs@[last@[z] as int]@));
            }
        }
        assert(compacted.metadata@.subrange(8, 24) =~= compacted.metadata@.subrange(0, 24).subrange(8, 24));
    }
    Ok(compacted)
}

/// Growing the last segment, with its earlier rows kept, keeps every stored record.
pub proof fn lemma_stored_after_append(before: Seq<Segment>, after: Seq<Segment>, a: int, rows: int)
    requires
        before.len() == a,
        after.len() == a,
        a >= 1,
        forall|i: int| 0 <= i < a - 1 ==> #[trigger] after[i] == before[i],
        before[a - 1].rows() == rows,
        forall|i: int|
            0 <= i < rows ==> #[trigger] stored_record(after[a - 1].metadata@, after[a - 1].data@, i)
                == stored_record(before[a - 1].metadata@, before[a - 1].data@, i),
    ensures
        forall|lk: u64| #[trigger] stored_at(before, lk) is Some ==> stored_at(after, lk) == stored_at(before, lk),
{
    assert forall|lk: u64| #[trigger] stored_at(before, lk) is Some implies stored_at(after, lk) == stored_at(before, lk) by {
        let seg = lk as int / index_limit();
        let i = lk as int % index_limit();
        if seg == a {
            assert(0 <= i < rows);
        } else {
            assert(after[seg - 1] == before[seg - 1]);
        }
    }
}

/// A secondary index after `lk` leaves the set of `k`; an emptied set goes.
pub open spec fn sec_remove(m: Map<IndexKey, Set<u64>>, k: IndexKey, lk: u64) -> Map<IndexKey, Set<u64>> {
    if !m.contains_key(k) {
        m
    } else if m[k] == set![lk] {
        m.remove(k)
    } else {
        m.insert(k, m[k].remove(lk))
    }
}

/// A secondary index after `lk` joins the set of `k`.
pub open spec fn sec_add(m: Map<IndexKey, Set<u64>>, k: IndexKey, lk: u64) -> Map<IndexKey, Set<u64>> {
    m.insert(
        k,
        if m.contains_key(k) {
            m[k].insert(lk)
        } else {
            set![lk]
        },
    )
}

/// The primary index after taking in one stored row: a tombstone drops its
/// key, any other record points its key at the row.
pub open spec fn replay_step(m: Map<IndexKey, u64>, row: (u64, RecordView), pk: int) -> Map<IndexKey, u64> {
    let k = record_key(row.1, pk)->Some_0;
    if row.1.tombstone {
        m.remove(k)
    } else {
        m.insert(k, row.0)
    }
}

/// The primary index after taking in rows, in order.
pub open spec fn replay(m: Map<IndexKey, u64>, rows: Seq<(u64, RecordView)>, pk: int) -> Map<IndexKey, u64>
    decreases rows.len(),
{
    if rows.len() == 0 {
        m
    } else {
        replay_step(replay(m, rows.drop_last(), pk), rows.last(), pk)
    }
}

/// Taking in a row, then more rows, is taking them all in.
pub proof fn lemma_replay_cons(m: Map<IndexKey, u64>, x: (u64, RecordView), rest: Seq<(u64, RecordView)>, pk: int)
    ensures
        replay(m, seq![x] + rest, pk) == replay(replay_step(m, x, pk), rest, pk),
    decreases rest.len(),
{
    let all = seq![x] + rest;
    if rest.len() == 0 {
        assert(all =~= seq![x]);
        assert(all.drop_last() =~= Seq::<(u64, RecordView)>::empty());
        assert(replay(m, all.drop_last(), pk) == m);
        assert(all.last() == x);
        assert(replay(replay_step(m, x, pk), rest, pk) == replay_step(m, x, pk));
    } else {
        lemma_replay_cons(m, x, rest.drop_last(), pk);
        assert(all.drop_last() =~= seq![x] + rest.drop_last());
        assert(all.last() == rest.last());
        assert(replay(m, all, pk) == replay_step(replay(m, all.drop_last(), pk), all.last(), pk));
    }
}

/// A key whose last row is a record, not a tombstone, is in the replayed index.
pub proof fn lemma_replay_contains(m: Map<IndexKey, u64>, rows: Seq<(u64, RecordView)>, pk: int, j: int)
    requires
        0 <= j < rows.len(),
        !rows[j].1.tombstone,
        forall|x: int| 0 <= x < rows.len() ==> #[trigger] record_key(rows[x].1, pk) is Some,
        forall|x: int|
            j < x < rows.len() && #[trigger] record_key(rows[x].1, pk) == record_key(rows[j].1, pk) ==> !rows[x].1.tombstone,
    ensures
        replay(m, rows, pk).contains_key(record_key(rows[j].1, pk)->Some_0),
    decreases rows.len(),
{
    let last = rows.len() - 1;
    if j < last {
        let d = rows.drop_last();
        assert forall|x: int| 0 <= x < d.len() implies #[trigger] record_key(d[x].1, pk) is Some by {
            assert(d[x] == rows[x]);
        }
        assert forall|x: int| j < x < d.len() && #[trigger] record_key(d[x].1, pk) == record_key(d[j].1, pk) implies !d[x].1.tombstone by {
            assert(d[x] == rows[x]);
        }
        assert(d[j] == rows[j]);
        lemma_replay_contains(m, d, pk, j);
        assert(record_key(rows[last].1, pk) is Some);
        if rows[last].1.tombstone {
            assert(record_key(rows[last].1, pk) != record_key(rows[j].1, pk));
        }
    }
}

/// A secondary index (on field `sk`) after taking in one stored row, with
/// `prim` the primary index before it: a tombstone drops its key, any other
/// record is indexed.
pub open spec fn sec_replay_step(
    m: Map<IndexKey, Set<u64>>,
    prim: Map<IndexKey, u64>,
    segs: Seq<Segment>,
    pk: int,
    sk: int,
    row: (u64, RecordView),
) -> Map<IndexKey, Set<u64>> {
    if row.1.tombstone {
        sec_drop_key(m, prim, segs, pk, sk, record_key(row.1, pk)->Some_0)
    } else {
        sec_insert(m, prim, segs, pk, sk, row.0, row.1)
    }
}

/// A secondary index after taking in rows, in order, from primary index `prim`.
pub open spec fn sec_replay(
    m: Map<IndexKey, Set<u64>>,
    prim: Map<IndexKey, u64>,
    segs: Seq<Segment>,
    pk: int,
    sk: int,
    rows: Seq<(u64, RecordView)>,
) -> Map<IndexKey, Set<u64>>
    decreases rows.len(),
{
    if rows.len() == 0 {
        m
    } else {
        sec_replay_step(
            sec_replay(m, prim, segs, pk, sk, rows.drop_last()),
            replay(prim, rows.drop_last(), pk),
            segs,
            pk,
            sk,
            rows.last(),
        )
    }
}

/// Taking in a row, then more rows, is taking them all in.
pub proof fn lemma_sec_replay_cons(
    m: Map<IndexKey, Set<u64>>,
    prim: Map<IndexKey, u64>,
    segs: Seq<Segment>,
    pk: int,
    sk: int,
    x: (u64, RecordView),
    rest: Seq<(u64, RecordView)>,
)
    ensures
        sec_replay(m, prim, segs, pk, sk, seq![x] + rest) == sec_replay(
            sec_replay_step(m, prim, segs, pk, sk, x),
            replay_step(prim, x, pk),
            segs,
            pk,
            sk,
            rest,
        ),
    decreases rest.len(),
{
    let all = seq![x] + rest;
    if rest.len() == 0 {
        assert(all =~= seq![x]);
        assert(all.drop_last() =~= Seq::<(u64, RecordView)>::empty());
        assert(sec_replay(m, prim, segs, pk, sk, all.drop_last()) == m);
        assert(replay(prim, all.drop_last(), pk) == prim);
        assert(all.last() == x);
    } else {
        lemma_sec_replay_cons(m, prim, segs, pk, sk, x, rest.drop_last());
        lemma_replay_cons(prim, x, rest.drop_last(), pk);
        assert(all.drop_last() =~= seq![x] + rest.drop_last());
        assert(all.last() == rest.last());
    }
}

/// Every row of every segment holds a readable record with a key in field `pk`.
pub open spec fn log_replayable(segs: Seq<Segment>, pk: int) -> bool {
    forall|s: int, i: int|
        1 <= s <= segs.len() && 0 <= i < segs[s - 1].rows() ==> match #[trigger] stored_at(
            segs,
            pack_log_key(s as u16, i as u64),
        ) {
            Some(r) => record_key(r, pk) is Some,
            None => false,
        }
}

/// The position of the first field named `name`.
pub open spec fn field_position(c: Config, name: Seq<char>) -> int {
    choose|i: int| is_first_field(c.fields@, name, i)
}

/// A name has one first field.
pub proof fn lemma_first_field_unique(fields: Seq<(String, RecordField)>, name: Seq<char>, a: int, b: int)
    requires
        is_first_field(fields, name, a),
        is_first_field(fields, name, b),
    ensures
        a == b,
{
    if a < b {
        assert(fields[a].0@ != name);
    } else if b < a {
        assert(fields[b].0@ != name);
    }
}

/// The position of the primary key in the schema.
pub open spec fn primary_position(c: Config) -> int {
    choose|i: int| is_first_field(c.fields@, c.primary_key@, i)
}

/// The record that a packed log key points at in a sequence of segments.
pub open spec fn stored_at(segs: Seq<Segment>, lk: u64) -> Option<RecordView> {
    let seg = lk as int / index_limit();
    if 1 <= seg <= segs.len() {
        stored_record(segs[seg - 1].metadata@, segs[seg - 1].data@, lk as int % index_limit())
    } else {
        None
    }
}

/// The engine: the segment files of one directory, as bytes, with the indexes
/// built from them.
pub struct Engine {
    config: Config,
    /// Segment `n` is at position `n - 1`; the last one is active.
    segments: Vec<Segment>,
    primary_key_index: usize,
    secondary_key_indexes: Vec<usize>,
    /// The next record that a refresh takes in.
    refresh_next_logkey: LogKey,
    primary_memtable: PrimaryMemtable,
    secondary_memtables: Vec<SecondaryMemtable>,
}

impl Engine {
    pub closed spec fn segs(&self) -> Seq<Segment> {
        self.segments@
    }

    pub closed spec fn spec_config(&self) -> Config {
        self.config
    }

    pub closed spec fn pk_index(&self) -> int {
        self.primary_key_index as int
    }

    pub closed spec fn sk_indexes(&self) -> Seq<usize> {
        self.secondary_key_indexes@
    }

    /// The primary index: each key to the packed log key of its record.
    pub closed spec fn primary_map(&self) -> Map<IndexKey, u64> {
        self.primary_memtable.spec_map()
    }

    /// The secondary index of the `i`-th secondary key.
    pub closed spec fn secondary_map(&self, i: int) -> Map<IndexKey, Set<u64>> {
        self.secondary_memtables@[i].spec_map()
    }

    /// The number of secondary indexes.
    pub closed spec fn sec_count(&self) -> int {
        self.secondary_memtables@.len() as int
    }

    pub closed spec fn cursor(&self) -> LogKey {
        self.refresh_next_logkey
    }

    pub open spec fn stored(&self, lk: u64) -> Option<RecordView> {
        stored_at(self.segs(), lk)
    }

    /// The number of rows in segment `n`.
    pub open spec fn segment_rows(&self, n: int) -> int {
        self.segs()[n - 1].rows()
    }

    /// The refresh cursor stands past the last row of the active segment.
    pub open spec fn at_end(&self) -> bool {
        &&& self.cursor().spec_segment_num() == self.segs().len()
        &&& self.cursor().spec_index() == self.segment_rows(self.segs().len() as int)
    }

    /// Each key of the primary index points at a stored record with that key.
    pub closed spec fn index_consistent(&self) -> bool {
        forall|k: IndexKey| #[trigger]
            self.primary_memtable.spec_map().contains_key(k) ==> match stored_at(
                self.segments@,
                self.primary_memtable.spec_map()[k],
            ) {
                Some(r) => record_key(r, self.primary_key_index as int) == Some(k),
                None => false,
            }
    }

    /// Every log key in a secondary index is the primary index's log key for
    /// its record's primary key, and that record holds the index key in the
    /// secondary field.
    #[verifier::opaque]
    pub closed spec fn secondary_consistent(&self) -> bool {
        forall|j: int, k: IndexKey, lk: u64| #[trigger] self.sec_has(j, k, lk) ==> self.sec_entry_ok(j, k, lk)
    }

    /// The `j`-th secondary index holds `lk` under `k`.
    pub closed spec fn sec_has(&self, j: int, k: IndexKey, lk: u64) -> bool {
        &&& 0 <= j < self.secondary_memtables@.len()
        &&& self.secondary_memtables@[j].spec_map().contains_key(k)
        &&& self.secondary_memtables@[j].spec_map()[k].contains(lk)
    }

    pub closed spec fn sec_entry_ok(&self, j: int, k: IndexKey, lk: u64) -> bool {
        match stored_at(self.segments@, lk) {
            Some(r) => {
                &&& record_key(r, self.secondary_key_indexes@[j] as int) == Some(k)
                &&& record_key(r, self.primary_key_index as int) is Some
                &&& self.primary_memtable.spec_map().contains_key(record_key(r, self.primary_key_index as int)->Some_0)
                &&& self.primary_memtable.spec_map()[record_key(r, self.primary_key_index as int)->Some_0] == lk
            },
            None => false,
        }
    }

    pub closed spec fn wf(&self) -> bool {
        self.wf_base() && self.secondary_consistent()
    }

    closed spec fn wf_base(&self) -> bool {
        &&& 1 <= self.segments@.len() < 0x1_0000
        &&& forall|j: int|
            0 <= j < self.secondary_key_indexes@.len() ==> is_first_field(
                self.config.fields@,
                (#[trigger] self.config.secondary_keys@[j])@,
                self.secondary_key_indexes@[j] as int,
            )
        &&& forall|i: int|
            0 <= i < self.segments@.len() ==> (#[trigger] self.segments@[i]).spec_ok()
                && self.segments@[i].rows() < index_limit()
        &&& is_first_field(self.config.fields@, self.config.primary_key@, self.primary_key_index as int)
        &&& self.secondary_key_indexes@.len() == self.secondary_memtables@.len()
        &&& self.config.secondary_keys@.len() == self.secondary_memtables@.len()
        &&& forall|i: int|
            0 <= i < self.secondary_key_indexes@.len() ==> #[trigger] self.secondary_key_indexes@[i]
                < self.config.fields@.len()
        &&& self.primary_memtable.wf()
        &&& forall|i: int|
            0 <= i < self.secondary_memtables@.len() ==> (#[trigger] self.secondary_memtables@[i]).wf()
        &&& self.index_consistent()
        &&& 1 <= self.refresh_next_logkey.spec_segment_num() <= self.segments@.len()
        &&& self.refresh_next_logkey.spec_index() <= self.segments@[self.refresh_next_logkey.spec_segment_num()
            - 1].rows()
    }

    /// The secondary-index invariant depends on the segments and the indexes only.
    proof fn lemma_sec_transfer(&self, prior: &Engine)
        requires
            prior.secondary_consistent(),
            self.segments == prior.segments,
            self.primary_memtable == prior.primary_memtable,
            self.secondary_memtables == prior.secondary_memtables,
            self.secondary_key_indexes == prior.secondary_key_indexes,
            self.primary_key_index == prior.primary_key_index,
        ensures
            self.secondary_consistent(),
    {
        reveal(Engine::secondary_consistent);
        assert forall|j: int, k: IndexKey, lk: u64| #[trigger] self.sec_has(j, k, lk) implies self.sec_entry_ok(j, k, lk) by {
            assert(prior.sec_has(j, k, lk));
        }
    }

    /// Empty secondary indexes are consistent.
    proof fn lemma_sec_empty(&self)
        requires
            forall|j: int| 0 <= j < self.secondary_memtables@.len() ==> (#[trigger] self.secondary_memtables@[j]).spec_map()
                == Map::<IndexKey, Set<u64>>::empty(),
        ensures
            self.secondary_consistent(),
    {
        reveal(Engine::secondary_consistent);
        assert forall|j: int, k: IndexKey, lk: u64| #[trigger] self.sec_has(j, k, lk) implies self.sec_entry_ok(j, k, lk) by {
            assert(self.secondary_memtables@[j].spec_map() == Map::<IndexKey, Set<u64>>::empty());
        }
    }

    /// After `prev`, the log key of `prev_rec`, leaves the secondary indexes
    /// under `prev_rec`'s keys, no set holds it, and every set is a part of
    /// what it was.
    proof fn lemma_sec_after_remove(prior: &Engine, cleared: &Engine, prev: u64, prev_rec: RecordView)
        requires
            prior.wf(),
            stored_at(prior.segments@, prev) == Some(prev_rec),
            cleared.secondary_memtables@.len() == prior.secondary_memtables@.len(),
            forall|j: int|
                0 <= j < prior.secondary_memtables@.len() ==> (#[trigger] cleared.secondary_memtables@[j]).spec_map()
                    == match record_key(prev_rec, prior.secondary_key_indexes@[j] as int) {
                    Some(v) => sec_remove(prior.secondary_memtables@[j].spec_map(), v, prev),
                    None => prior.secondary_memtables@[j].spec_map(),
                },
        ensures
            forall|j: int, k: IndexKey, x: u64| #[trigger] cleared.sec_has(j, k, x) ==> prior.sec_has(j, k, x) && x != prev,
    {
        reveal(Engine::secondary_consistent);
        assert forall|j: int, k: IndexKey, x: u64| #[trigger] cleared.sec_has(j, k, x) implies prior.sec_has(j, k, x) && x != prev by {
            let m0 = prior.secondary_memtables@[j].spec_map();
            match record_key(prev_rec, prior.secondary_key_indexes@[j] as int) {
                Some(v) => {
                    if k != v {
                        assert(cleared.secondary_memtables@[j].spec_map()[k] == m0[k]);
                    } else if m0.contains_key(k) && m0[k] != set![prev] {
                        assert(cleared.secondary_memtables@[j].spec_map()[k] == m0[k].remove(prev));
                    }
                },
                None => {},
            }
            assert(prior.sec_has(j, k, x));
            if x == prev {
                assert(prior.sec_entry_ok(j, k, x));
            }
        }
    }

    /// Pointing `pk` at `lk` for `record`, after the old log key of `pk` left
    /// the secondary indexes and `lk` joined them, keeps them consistent.
    proof fn lemma_insert_consistent(
        prior: &Engine,
        cleared: &Engine,
        fin: &Engine,
        pk: IndexKey,
        lk: u64,
        record: RecordView,
    )
        requires
            prior.wf(),
            stored_at(prior.segments@, lk) == Some(record),
            record_key(record, prior.primary_key_index as int) == Some(pk),
            forall|j: int, k: IndexKey, x: u64| #[trigger] cleared.sec_has(j, k, x) ==> prior.sec_has(j, k, x)
                && (prior.primary_memtable.spec_map().contains_key(pk) ==> x != prior.primary_memtable.spec_map()[pk]),
            cleared.secondary_memtables@.len() == prior.secondary_memtables@.len(),
            fin.segments == prior.segments,
            fin.secondary_key_indexes == prior.secondary_key_indexes,
            fin.primary_key_index == prior.primary_key_index,
            fin.secondary_memtables@.len() == prior.secondary_memtables@.len(),
            fin.primary_memtable.spec_map() == prior.primary_memtable.spec_map().insert(pk, lk),
            forall|j: int|
                0 <= j < prior.secondary_memtables@.len() ==> (#[trigger] fin.secondary_memtables@[j]).spec_map()
                    == match record_key(record, prior.secondary_key_indexes@[j] as int) {
                    Some(v) => sec_add(cleared.secondary_memtables@[j].spec_map(), v, lk),
                    None => cleared.secondary_memtables@[j].spec_map(),
                },
        ensures
            fin.secondary_consistent(),
    {
        reveal(Engine::secondary_consistent);
        assert forall|j: int, k: IndexKey, x: u64| #[trigger] fin.sec_has(j, k, x) implies fin.sec_entry_ok(j, k, x) by {
            let m1 = cleared.secondary_memtables@[j].spec_map();
            let kv = record_key(record, prior.secondary_key_indexes@[j] as int);
            if kv == Some(k) && x == lk {
            } else {
                match kv {
                    Some(v) => {
                        if k == v {
                            assert(fin.secondary_memtables@[j].spec_map()[k] == if m1.contains_key(k) {
                                m1[k].insert(lk)
                            } else {
                                set![lk]
                            });
                        } else {
                            assert(fin.secondary_memtables@[j].spec_map()[k] == m1[k]);
                        }
                    },
                    None => {},
                }
                assert(cleared.sec_has(j, k, x));
                assert(prior.sec_has(j, k, x));
                assert(prior.sec_entry_ok(j, k, x));
                if x == lk {
                    assert(record_key(record, prior.secondary_key_indexes@[j] as int) == Some(k));
                }
                let r = stored_at(prior.segments@, x)->Some_0;
                let rk = record_key(r, prior.primary_key_index as int)->Some_0;
                if rk == pk {
                    assert(prior.primary_memtable.spec_map()[pk] == x);
                }
            }
        }
    }

    /// Dropping `pk`, after its log key left the secondary indexes, keeps them consistent.
    proof fn lemma_remove_consistent(prior: &Engine, fin: &Engine, pk: IndexKey)
        requires
            prior.wf(),
            prior.primary_memtable.spec_map().contains_key(pk),
            forall|j: int, k: IndexKey, x: u64| #[trigger] fin.sec_has(j, k, x) ==> prior.sec_has(j, k, x)
                && x != prior.primary_memtable.spec_map()[pk],
            fin.segments == prior.segments,
            fin.secondary_key_indexes == prior.secondary_key_indexes,
            fin.primary_key_index == prior.primary_key_index,
            fin.primary_memtable.spec_map() == prior.primary_memtable.spec_map().remove(pk),
        ensures
            fin.secondary_consistent(),
    {
        reveal(Engine::secondary_consistent);
        assert forall|j: int, k: IndexKey, x: u64| #[trigger] fin.sec_has(j, k, x) implies fin.sec_entry_ok(j, k, x) by {
            assert(prior.sec_has(j, k, x));
            assert(prior.sec_entry_ok(j, k, x));
            let r = stored_at(prior.segments@, x)->Some_0;
            let rk = record_key(r, prior.primary_key_index as int)->Some_0;
            if rk == pk {
                assert(prior.primary_memtable.spec_map()[pk] == x);
            }
        }
    }

    /// Every segment of a well-formed engine, which every method keeps well
    /// formed, holds whole 16-byte rows after its 24-byte header, and every
    /// row points at bytes inside its data.
    pub proof fn lemma_segment_invariants(&self)
        requires
            self.wf(),
        ensures
            self.segs().len() >= 1,
            forall|i: int|
                0 <= i < self.segs().len() ==> ((#[trigger] self.segs()[i]).metadata@.len() - 24) % 16 == 0
                    && self.segs()[i].metadata@.len() >= 24,
            forall|i: int, j: int|
                0 <= i < self.segs().len() && 0 <= j < self.segs()[i].rows() ==> #[trigger] row_at(
                    self.segs()[i].metadata@,
                    j,
                ).0 + row_at(self.segs()[i].metadata@, j).1 <= self.segs()[i].data@.len(),
    {
        assert forall|i: int| 0 <= i < self.segs().len() implies (#[trigger] self.segs()[i]).spec_ok() by {
            assert(self.segments@[i].spec_ok());
        }
    }

    /// Opens the engine on a directory's segments; with none, it creates segment 1
    /// with a header that names `uuid`. The primary and secondary keys must be
    /// integer or string fields of the schema, and the records of segment 1
    /// must fit the schema, which may only have grown by nullable fields. The
    /// indexes are then built from every record.
    pub fn initialize(config: Config, segments: Vec<Segment>, uuid: [u8; 16]) -> (r: Result<Engine, DBError>)
        ensures
            !keys_valid(config) ==> r is Err && r->Err_0 is ValidationError,
            keys_valid(config) && segments@.len() > 0 && !segments@[0].spec_ok() ==> r is Err
                && r->Err_0 is ConsistencyError,
            r is Ok ==> keys_valid(config),
            keys_valid(config) && segments@.len() == 0 ==> r is Ok,
            keys_valid(config) && 0 < segments@.len() < 0x1_0000 && (forall|i: int|
                0 <= i < segments@.len() ==> (#[trigger] segments@[i]).spec_ok() && segments@[i].rows()
                    < index_limit()) && segment_fits_schema(config.fields@, segments@[0])
                && log_replayable(segments@, primary_position(config)) ==> r is Ok,
            r is Ok ==> r->Ok_0.wf() && r->Ok_0.at_end() && r->Ok_0.spec_config() == config,
            r is Ok && segments@.len() > 0 ==> r->Ok_0.segs() == segments@,
            r is Ok && segments@.len() == 0 ==> r->Ok_0.segs().len() == 1 && r->Ok_0.segs()[0].metadata@
                == header_bytes(METADATA_VERSION, uuid@) && r->Ok_0.segs()[0].data@.len() == 0,
            r is Ok ==> segment_fits_schema(config.fields@, r->Ok_0.segs()[0]),
            r is Ok ==> r->Ok_0.primary_map() == replay(Map::empty(), r->Ok_0.rows_after(1, 0), r->Ok_0.pk_index()),
            keys_valid(config) && segments@.len() > 0 && segments@[0].spec_ok()
                && !segment_fits_schema(config.fields@, segments@[0]) ==> r is Err
                && r->Err_0 is ValidationError,
    {
        let ghost given = segments@;
        let primary_key_index = match find_key_field(&config.fields, &config.primary_key) {
            Ok(i) => i,
            Err(e) => {
                return Err(e);
            },
        };
        let mut secondary_key_indexes: Vec<usize> = Vec::new();
        let mut secondary_memtables: Vec<SecondaryMemtable> = Vec::new();
        let mut j: usize = 0;
        while j < config.secondary_keys.len()
            invariant
                j <= config.secondary_keys@.len(),
                secondary_key_indexes@.len() == j,
                secondary_memtables@.len() == j,
                forall|i: int| 0 <= i < j ==> #[trigger] secondary_key_indexes@[i] < config.fields@.len(),
                forall|i: int| 0 <= i < j ==> (#[trigger] secondary_memtables@[i]).wf(),
                forall|i: int| 0 <= i < j ==> (#[trigger] secondary_memtables@[i]).spec_map() == Map::<IndexKey, Set<u64>>::empty(),
                forall|i: int| 0 <= i < j ==> is_first_field(config.fields@, (#[trigger] config.secondary_keys@[i])@, secondary_key_indexes@[i] as int),
                forall|i: int| 0 <= i < j ==> key_field_ok(config.fields@, #[trigger] config.secondary_keys@[i]@),
                key_field_ok(config.fields@, config.primary_key@),
                is_first_field(config.fields@, config.primary_key@, primary_key_index as int),
            decreases config.secondary_keys@.len() - j,
        {
            let i = match find_key_field(&config.fields, &config.secondary_keys[j]) {
                Ok(i) => i,
                Err(e) => {
                    assert(!key_field_ok(config.fields@, config.secondary_keys@[j as int]@));
                    assert(!keys_valid(config));
                    return Err(e);
                },
            };
            secondary_key_indexes.push(i);
            secondary_memtables.push(SecondaryMemtable::new());
            j = j + 1;
        }
        let image = if segments.len() == 0 {
            let mut fresh: Vec<Segment> = Vec::new();
            fresh.push(Segment::create(uuid));
            fresh
        } else {
            segments
        };
        if let Err(e) = image[0].check() {
            return Err(e);
        }
        let first_rows = ((image[0].metadata.len() - crate::segment::METADATA_FILE_HEADER_SIZE)
            / crate::segment::METADATA_ROW_LENGTH) as u64;
        let mut i: u64 = 0;
        while i < first_rows
            invariant
                keys_valid(config),
                given.len() > 0 ==> image@ == given,
                given == segments@,
                given.len() == 0 ==> image@.len() == 1 && image@[0].spec_ok() && image@[0].rows() == 0,
                image@.len() > 0,
                image@[0].spec_ok(),
                first_rows == image@[0].rows(),
                i <= first_rows,
                forall|x: int|
                    0 <= x < i ==> match #[trigger] stored_record(
                        image@[0].metadata@,
                        image@[0].data@,
                        x,
                    ) {
                        Some(r) => schema_extends(config.fields@, r),
                        None => true,
                    },
            decreases first_rows - i,
        {
            if let Ok(rec) = image[0].read(i) {
                if !check_schema_extends(&config.fields, &rec) {
                    return Err(DBError::ValidationError(ValidationErrorKind::SchemaMismatch));
                }
            }
            i = i + 1;
        }
        if image.len() >= 0x1_0000 {
            return Err(DBError::ConsistencyError(ConsistencyErrorKind::SegmentFull));
        }
        let mut k: usize = 0;
        while k < image.len()
            invariant
                keys_valid(config),
                given.len() > 0 ==> image@ == given,
                given == segments@,
                given.len() == 0 ==> image@.len() == 1 && image@[0].spec_ok() && image@[0].rows() == 0,
                image@.len() > 0,
                segment_fits_schema(config.fields@, image@[0]),
                k <= image@.len(),
                forall|i: int|
                    0 <= i < k ==> (#[trigger] image@[i]).spec_ok() && image@[i].rows()
                        < index_limit(),
            decreases image@.len() - k,
        {
            if let Err(e) = image[k].check() {
                return Err(e);
            }
            let rows = (image[k].metadata.len() - crate::segment::METADATA_FILE_HEADER_SIZE)
                / crate::segment::METADATA_ROW_LENGTH;
            if rows as u64 >= 0x1_0000_0000_0000u64 {
                return Err(DBError::ConsistencyError(ConsistencyErrorKind::SegmentFull));
            }
            k = k + 1;
        }
        let mut engine = Engine {
            config,
            segments: image,
            primary_key_index,
            secondary_key_indexes,
            refresh_next_logkey: LogKey::new(1, 0),
            primary_memtable: PrimaryMemtable::new(),
            secondary_memtables,
        };
        proof {
            engine.lemma_sec_empty();
        }
        proof {
            assert(primary_key_index == primary_position(engine.config)) by {
                let p = primary_position(engine.config);
                assert(is_first_field(engine.config.fields@, engine.config.primary_key@, p));
                if p < primary_key_index {
                    assert(engine.config.fields@[p].0@ != engine.config.primary_key@);
                } else if p > primary_key_index {
                    assert(engine.config.fields@[primary_key_index as int].0@ != engine.config.primary_key@);
                }
            }
            if given.len() == 0 {
                assert forall|s: int, i: int| #[trigger] engine.replay_range(s, i) implies engine.row_replayable(s, i) by {
                    assert(engine.segments@[0].rows() == 0);
                }
            }
            if log_replayable(given, primary_key_index as int) && given.len() > 0 {
                assert forall|s: int, i: int| #[trigger] engine.replay_range(s, i) implies engine.row_replayable(s, i) by {
                    assert(stored_at(given, pack_log_key(s as u16, i as u64)) == engine.stored(pack_log_key(s as u16, i as u64)));
                }
            }
        }
        let ghost opened = engine;
        assert(opened.primary_map() == Map::<IndexKey, u64>::empty());
        match engine.refresh_indexes() {
            Ok(()) => {
                proof {
                    engine.lemma_rows_after_same(&opened, 1, 0);
                }
                Ok(engine)
            },
            Err(e) => Err(e),
        }
    }

    /// A lookup is sound: every log key it yields points at a stored record
    /// that holds the looked-up key in the field.
    pub proof fn lemma_lookup_sound(&self, name: Seq<char>, k: IndexKey, lk: u64)
        requires
            self.wf(),
            self.lookup(name, k).contains(lk),
        ensures
            match self.stored(lk) {
                Some(r) => record_key(r, field_position(self.spec_config(), name)) == Some(k),
                None => false,
            },
    {
        let c = self.spec_config();
        if name == c.primary_key@ {
            assert(self.primary_memtable.spec_map().contains_key(k));
            assert(seq![self.primary_map()[k]][0] == self.primary_map()[k]);
            lemma_first_field_unique(c.fields@, name, field_position(c, name), self.primary_key_index as int);
        } else {
            if !has_name(c.secondary_keys@, name) {
                assert(self.lookup(name, k) =~= Seq::<u64>::empty());
            }
            let w = choose|w: int| 0 <= w < c.secondary_keys@.len() && (#[trigger] c.secondary_keys@[w])@ == name;
            lemma_first_name_exists(c.secondary_keys@, name, w);
            let j = choose|j: int| is_first_name(c.secondary_keys@, name, j);
            assert(0 <= j < self.secondary_memtables@.len());
            assert(self.lookup(name, k) == self.secondary_keys_of(j, k));
            assert(self.secondary_memtables@[j].wf());
            self.secondary_memtables@[j].lemma_keys_of(k);
            assert(self.sec_has(j, k, lk));
            reveal(Engine::secondary_consistent);
            assert(self.sec_entry_ok(j, k, lk));
            assert(is_first_field(c.fields@, c.secondary_keys@[j]@, self.secondary_key_indexes@[j] as int));
            lemma_first_field_unique(c.fields@, name, field_position(c, name), self.secondary_key_indexes@[j] as int);
        }
    }

    /// Each pair of `tagged_lookup` carries the position of a key and a log key
    /// that the lookup of that key yields.
    pub proof fn lemma_tagged_lookup_member(&self, name: Seq<char>, keys: Seq<IndexKey>, i: int)
        requires
            0 <= i < self.tagged_lookup(name, keys).len(),
            keys.len() <= usize::MAX,
        ensures
            ({
                let p = self.tagged_lookup(name, keys)[i];
                p.0 < keys.len() && self.lookup(name, keys[p.0 as int]).contains(p.1)
            }),
        decreases keys.len(),
    {
        if keys.len() == 0 {
            assert(self.tagged_lookup(name, keys) =~= Seq::<(usize, u64)>::empty());
        }
        let d = keys.drop_last();
        let prefix = self.tagged_lookup(name, d);
        let l = self.lookup(name, keys.last());
        assert(self.tagged_lookup(name, keys) == prefix + l.map_values(|lk: u64| ((keys.len() - 1) as usize, lk)));
        if i < prefix.len() {
            self.lemma_tagged_lookup_member(name, d, i);
            assert(self.tagged_lookup(name, keys)[i] == prefix[i]);
            assert(d[prefix[i].0 as int] == keys[prefix[i].0 as int]);
        } else {
            let idx = i - prefix.len();
            assert(self.tagged_lookup(name, keys)[i] == ((keys.len() - 1) as usize, l[idx]));
            assert(l.contains(l[idx]));
            assert(keys[keys.len() - 1] == keys.last());
        }
    }

    /// The primary index resolves: the log key it holds for a key points at a
    /// stored record, and that record holds the key.
    pub proof fn lemma_index_resolves(&self, k: IndexKey)
        requires
            self.wf(),
            self.lookup(self.spec_config().primary_key@, k).len() > 0,
        ensures
            match self.stored(self.lookup(self.spec_config().primary_key@, k)[0]) {
                Some(r) => record_key(r, self.pk_index()) == Some(k),
                None => false,
            },
    {
        assert(self.primary_memtable.spec_map().contains_key(k));
    }

    /// Reads the record that a log key points at.
    pub fn read_log_key(&self, lk: &LogKey) -> (r: Result<Record, DBError>)
        requires
            self.wf(),
        ensures
            match r {
                Ok(rec) => self.stored(lk@) == Some(rec@),
                Err(_) => self.stored(lk@) is None,
            },
            r is Err ==> r->Err_0 is ConsistencyError,
    {
        proof {
            lk.lemma_parts();
        }
        let seg = lk.segment_num() as usize;
        if seg == 0 || seg > self.segments.len() {
            return Err(DBError::ConsistencyError(ConsistencyErrorKind::MissingSegment));
        }
        let ghost i = seg - 1;
        assert(self.segments@[i as int].spec_ok());
        self.segments[seg - 1].read(lk.index())
    }

    /// Points the indexes at `lk` for `record`. When the record's primary key
    /// already had a record, that record's log key leaves the secondary indexes.
    fn insert_record_to_memtables(&mut self, lk: LogKey, record: &Record) -> (r: Result<(), DBError>)
        requires
            old(self).wf(),
            old(self).stored(lk@) == Some(record@),
        ensures
            final(self).wf(),
            final(self).segs() == old(self).segs(),
            final(self).spec_config() == old(self).spec_config(),
            final(self).pk_index() == old(self).pk_index(),
            final(self).cursor() == old(self).cursor(),
            r is Ok <==> record_key(record@, old(self).pk_index()) is Some,
            r is Ok ==> final(self).primary_map() == old(self).primary_map().insert(
                record_key(record@, old(self).pk_index())->Some_0,
                lk@,
            ),
            r is Err ==> final(self).primary_map() == old(self).primary_map(),
            r is Err ==> r->Err_0 is ConsistencyError,
            final(self).sk_indexes() == old(self).sk_indexes(),
            final(self).secondary_memtables@.len() == old(self).secondary_memtables@.len(),
            r is Ok ==> forall|j: int|
                0 <= j < old(self).secondary_memtables@.len() ==> #[trigger] final(self).secondary_map(j) == sec_insert(
                    old(self).secondary_map(j),
                    old(self).primary_map(),
                    old(self).segs(),
                    old(self).pk_index(),
                    old(self).sk_indexes()[j] as int,
                    lk@,
                    record@,
                ),
    {
        let pk = match key_of(record, self.primary_key_index) {
            Some(k) => k,
            None => {
                return Err(DBError::ConsistencyError(ConsistencyErrorKind::UnindexableRecord));
            },
        };
        let ghost prior = *self;
        if let Some(previous) = self.primary_memtable.get(&pk) {
            let old_record = match self.read_log_key(&previous) {
                Ok(rec) => rec,
                Err(e) => {
                    return Err(e);
                },
            };
            self.remove_from_secondaries(&old_record, &previous);
            proof {
                Engine::lemma_sec_after_remove(&prior, self, previous@, old_record@);
            }
        }
        let ghost cleared = *self;
        assert forall|j: int, k: IndexKey, x: u64| #[trigger] cleared.sec_has(j, k, x) implies prior.sec_has(j, k, x)
            && (prior.primary_memtable.spec_map().contains_key(pk@) ==> x != prior.primary_memtable.spec_map()[pk@]) by {
            if !prior.primary_memtable.spec_map().contains_key(pk@) {
                assert(cleared == prior);
            }
        }
        self.add_to_secondaries(record, &lk);
        self.primary_memtable.set(pk, lk);
        proof {
            Engine::lemma_insert_consistent(&prior, &cleared, self, pk@, lk@, record@);
        }
        Ok(())
    }

    /// Removes `lk` from each secondary index, under the keys that `record` holds.
    fn remove_from_secondaries(&mut self, record: &Record, lk: &LogKey)
        requires
            old(self).wf_base(),
        ensures
            final(self).wf_base(),
            final(self).segments == old(self).segments,
            final(self).config == old(self).config,
            final(self).refresh_next_logkey == old(self).refresh_next_logkey,
            final(self).primary_memtable == old(self).primary_memtable,
            final(self).primary_key_index == old(self).primary_key_index,
            final(self).secondary_key_indexes == old(self).secondary_key_indexes,
            final(self).secondary_memtables@.len() == old(self).secondary_memtables@.len(),
            forall|j: int|
                0 <= j < old(self).secondary_memtables@.len() ==> (#[trigger] final(self).secondary_memtables@[j]).spec_map()
                    == match record_key(record@, old(self).secondary_key_indexes@[j] as int) {
                    Some(v) => sec_remove(old(self).secondary_memtables@[j].spec_map(), v, lk@),
                    None => old(self).secondary_memtables@[j].spec_map(),
                },
    {
        let mut i: usize = 0;
        while i < self.secondary_memtables.len()
            invariant
                self.wf_base(),
                i <= self.secondary_memtables@.len(),
                self.segments == old(self).segments,
                self.config == old(self).config,
                self.refresh_next_logkey == old(self).refresh_next_logkey,
                self.primary_memtable == old(self).primary_memtable,
                self.primary_key_index == old(self).primary_key_index,
                self.secondary_key_indexes == old(self).secondary_key_indexes,
                self.secondary_memtables@.len() == old(self).secondary_memtables@.len(),
                forall|j: int|
                    i <= j < old(self).secondary_memtables@.len() ==> #[trigger] self.secondary_memtables@[j]
                        == old(self).secondary_memtables@[j],
                forall|j: int|
                    0 <= j < i ==> (#[trigger] self.secondary_memtables@[j]).spec_map() == match record_key(
                        record@,
                        old(self).secondary_key_indexes@[j] as int,
                    ) {
                        Some(v) => sec_remove(old(self).secondary_memtables@[j].spec_map(), v, lk@),
                        None => old(self).secondary_memtables@[j].spec_map(),
                    },
            decreases self.secondary_memtables@.len() - i,
        {
            if let Some(k) = key_of(record, self.secondary_key_indexes[i]) {
                let ghost before = self.secondary_memtables@;
                let mut m = self.secondary_memtables.remove(i);
                m.remove(&k, lk);
                self.secondary_memtables.insert(i, m);
                assert forall|j: int| 0 <= j < self.secondary_memtables@.len() && j != i implies #[trigger] self.secondary_memtables@[j]
                    == before[j] by {}
            }
            i = i + 1;
        }
    }


    /// Adds `lk` to each secondary index, under the keys that `record` holds.
    fn add_to_secondaries(&mut self, record: &Record, lk: &LogKey)
        requires
            old(self).wf_base(),
        ensures
            final(self).wf_base(),
            final(self).segments == old(self).segments,
            final(self).config == old(self).config,
            final(self).refresh_next_logkey == old(self).refresh_next_logkey,
            final(self).primary_memtable == old(self).primary_memtable,
            final(self).primary_key_index == old(self).primary_key_index,
            final(self).secondary_key_indexes == old(self).secondary_key_indexes,
            final(self).secondary_memtables@.len() == old(self).secondary_memtables@.len(),
            forall|j: int|
                0 <= j < old(self).secondary_memtables@.len() ==> (#[trigger] final(self).secondary_memtables@[j]).spec_map()
                    == match record_key(record@, old(self).secondary_key_indexes@[j] as int) {
                    Some(v) => sec_add(old(self).secondary_memtables@[j].spec_map(), v, lk@),
                    None => old(self).secondary_memtables@[j].spec_map(),
                },
    {
        let mut i: usize = 0;
        while i < self.secondary_memtables.len()
            invariant
                self.wf_base(),
                i <= self.secondary_memtables@.len(),
                self.segments == old(self).segments,
                self.config == old(self).config,
                self.refresh_next_logkey == old(self).refresh_next_logkey,
                self.primary_memtable == old(self).primary_memtable,
                self.primary_key_index == old(self).primary_key_index,
                self.secondary_key_indexes == old(self).secondary_key_indexes,
                self.secondary_memtables@.len() == old(self).secondary_memtables@.len(),
                forall|j: int|
                    i <= j < old(self).secondary_memtables@.len() ==> #[trigger] self.secondary_memtables@[j]
                        == old(self).secondary_memtables@[j],
                forall|j: int|
                    0 <= j < i ==> (#[trigger] self.secondary_memtables@[j]).spec_map() == match record_key(
                        record@,
                        old(self).secondary_key_indexes@[j] as int,
                    ) {
                        Some(v) => sec_add(old(self).secondary_memtables@[j].spec_map(), v, lk@),
                        None => old(self).secondary_memtables@[j].spec_map(),
                    },
            decreases self.secondary_memtables@.len() - i,
        {
            if let Some(k) = key_of(record, self.secondary_key_indexes[i]) {
                let ghost before = self.secondary_memtables@;
                let mut m = self.secondary_memtables.remove(i);
                m.set(k, *lk);
                self.secondary_memtables.insert(i, m);
                assert forall|j: int| 0 <= j < self.secondary_memtables@.len() && j != i implies #[trigger] self.secondary_memtables@[j]
                    == before[j] by {}
            }
            i = i + 1;
        }
    }


    /// Drops the record's primary key from the indexes, with the log key it
    /// pointed at; nothing changes when the key is not indexed.
    fn remove_record_from_memtables(&mut self, record: &Record) -> (r: Result<(), DBError>)
        requires
            old(self).wf(),
        ensures
            final(self).wf(),
            final(self).segs() == old(self).segs(),
            final(self).spec_config() == old(self).spec_config(),
            final(self).pk_index() == old(self).pk_index(),
            final(self).cursor() == old(self).cursor(),
            r is Ok <==> record_key(record@, old(self).pk_index()) is Some,
            r is Ok ==> final(self).primary_map() == old(self).primary_map().remove(
                record_key(record@, old(self).pk_index())->Some_0,
            ),
            r is Err ==> final(self).primary_map() == old(self).primary_map(),
            r is Err ==> r->Err_0 is ConsistencyError,
            final(self).sk_indexes() == old(self).sk_indexes(),
            final(self).secondary_memtables@.len() == old(self).secondary_memtables@.len(),
            r is Ok ==> forall|j: int|
                0 <= j < old(self).secondary_memtables@.len() ==> #[trigger] final(self).secondary_map(j) == (if old(
                    self,
                ).primary_map().contains_key(record_key(record@, old(self).pk_index())->Some_0) {
                    match record_key(old(self).stored(old(self).primary_map()[record_key(record@, old(self).pk_index())->Some_0])->Some_0, old(self).sk_indexes()[j] as int) {
                        Some(v) => sec_remove(old(self).secondary_map(j), v, old(self).primary_map()[record_key(record@, old(self).pk_index())->Some_0]),
                        None => old(self).secondary_map(j),
                    }
                } else {
                    old(self).secondary_map(j)
                }),
            final(self).sk_indexes() == old(self).sk_indexes(),
            final(self).secondary_memtables@.len() == old(self).secondary_memtables@.len(),
            r is Ok ==> forall|j: int|
                0 <= j < old(self).secondary_memtables@.len() ==> #[trigger] final(self).secondary_map(j) == (if old(
                    self,
                ).primary_map().contains_key(record_key(record@, old(self).pk_index())->Some_0) {
                    match record_key(old(self).stored(old(self).primary_map()[record_key(record@, old(self).pk_index())->Some_0])->Some_0, old(self).sk_indexes()[j] as int) {
                        Some(v) => sec_remove(old(self).secondary_map(j), v, old(self).primary_map()[record_key(record@, old(self).pk_index())->Some_0]),
                        None => old(self).secondary_map(j),
                    }
                } else {
                    old(self).secondary_map(j)
                }),
    {
        let pk = match key_of(record, self.primary_key_index) {
            Some(k) => k,
            None => {
                return Err(DBError::ConsistencyError(ConsistencyErrorKind::UnindexableRecord));
            },
        };
        self.remove_primary_key(&pk)
    }

    /// Drops a primary key from the indexes, with the log key it pointed at.
    fn remove_primary_key(&mut self, pk: &IndexableValue) -> (r: Result<(), DBError>)
        requires
            old(self).wf(),
        ensures
            final(self).wf(),
            r is Ok,
            final(self).segs() == old(self).segs(),
            final(self).spec_config() == old(self).spec_config(),
            final(self).pk_index() == old(self).pk_index(),
            final(self).cursor() == old(self).cursor(),
            final(self).primary_map() == old(self).primary_map().remove(pk@),
            forall|j: int, k: IndexKey, x: u64| #[trigger] final(self).sec_has(j, k, x) ==> old(self).sec_has(j, k, x),
            final(self).sk_indexes() == old(self).sk_indexes(),
            final(self).secondary_memtables@.len() == old(self).secondary_memtables@.len(),
            forall|j: int|
                0 <= j < old(self).secondary_memtables@.len() ==> #[trigger] final(self).secondary_map(j) == (if old(
                    self,
                ).primary_map().contains_key(pk@) {
                    match record_key(old(self).stored(old(self).primary_map()[pk@])->Some_0, old(self).sk_indexes()[j] as int) {
                        Some(v) => sec_remove(old(self).secondary_map(j), v, old(self).primary_map()[pk@]),
                        None => old(self).secondary_map(j),
                    }
                } else {
                    old(self).secondary_map(j)
                }),
    {
        let ghost prior = *self;
        if let Some(previous) = self.primary_memtable.get(pk) {
            let old_record = match self.read_log_key(&previous) {
                Ok(rec) => rec,
                Err(e) => {
                    return Err(e);
                },
            };
            self.remove_from_secondaries(&old_record, &previous);
            self.primary_memtable.remove(pk);
            proof {
                Engine::lemma_sec_after_remove(&prior, self, previous@, old_record@);
                Engine::lemma_remove_consistent(&prior, self, pk@);
            }
        } else {
            assert(old(self).primary_map().remove(pk@) =~= old(self).primary_map());
        }
        Ok(())
    }

    /// Drops `key`, with its whole set, from the `j`-th secondary index.
    fn drop_secondary_key(&mut self, j: usize, key: &IndexableValue)
        requires
            old(self).wf(),
            j < old(self).secondary_memtables@.len(),
        ensures
            final(self).wf(),
            final(self).segs() == old(self).segs(),
            final(self).spec_config() == old(self).spec_config(),
            final(self).pk_index() == old(self).pk_index(),
            final(self).primary_map() == old(self).primary_map(),
            final(self).cursor() == old(self).cursor(),
            final(self).secondary_keys_of(j as int, key@) == Seq::<u64>::empty(),
            forall|i: int, k: IndexKey, x: u64| #[trigger] final(self).sec_has(i, k, x) ==> old(self).sec_has(i, k, x),
            final(self).sk_indexes() == old(self).sk_indexes(),
            final(self).secondary_memtables@.len() == old(self).secondary_memtables@.len(),
            forall|i: int|
                0 <= i < old(self).secondary_memtables@.len() ==> #[trigger] final(self).secondary_map(i) == (if i == j {
                    old(self).secondary_map(i).remove(key@)
                } else {
                    old(self).secondary_map(i)
                }),
    {
        let ghost prior = *self;
        let mut m = self.secondary_memtables.remove(j);
        m.remove_key(key);
        self.secondary_memtables.insert(j, m);
        proof {
            assert forall|i: int| 0 <= i < self.secondary_memtables@.len() && i != j implies #[trigger] self.secondary_memtables@[i]
                == prior.secondary_memtables@[i] by {}
            assert forall|i: int, k: IndexKey, x: u64| #[trigger] self.sec_has(i, k, x) implies prior.sec_has(i, k, x) by {
                if i == j {
                    assert(self.secondary_memtables@[i].spec_map() == prior.secondary_memtables@[i].spec_map().remove(key@));
                }
            }
            reveal(Engine::secondary_consistent);
            assert forall|i: int, k: IndexKey, x: u64| #[trigger] self.sec_has(i, k, x) implies self.sec_entry_ok(i, k, x) by {
                assert(prior.sec_has(i, k, x));
                assert(prior.sec_entry_ok(i, k, x));
            }
        }
    }

    /// Moves the refresh cursor to row `idx` of segment `seg`.
    fn move_cursor(&mut self, seg: usize, idx: u64)
        requires
            old(self).wf(),
            1 <= seg <= old(self).segs().len(),
            idx <= old(self).segment_rows(seg as int),
        ensures
            final(self).wf(),
            final(self).segs() == old(self).segs(),
            final(self).spec_config() == old(self).spec_config(),
            final(self).pk_index() == old(self).pk_index(),
            final(self).primary_map() == old(self).primary_map(),
            final(self).cursor().spec_segment_num() == seg,
            final(self).cursor().spec_index() == idx,
            final(self).segments == old(self).segments,
            final(self).primary_memtable == old(self).primary_memtable,
            final(self).secondary_memtables == old(self).secondary_memtables,
            final(self).config == old(self).config,
            final(self).secondary_key_indexes == old(self).secondary_key_indexes,
            final(self).primary_key_index == old(self).primary_key_index,
    {
        let ghost prior = *self;
        assert(self.segments@[seg - 1].rows() < index_limit());
        self.refresh_next_logkey = LogKey::new(seg as u16, idx);
        proof {
            self.lemma_sec_transfer(&prior);
        }
    }

    /// The rows of segment `s` from row `from` on, each with its log key and record.
    pub open spec fn rows_of_segment(&self, s: int, from: int) -> Seq<(u64, RecordView)> {
        if 0 <= from <= self.segment_rows(s) {
            Seq::new(
                (self.segment_rows(s) - from) as nat,
                |t: int|
                    (
                        pack_log_key(s as u16, (from + t) as u64),
                        self.stored(pack_log_key(s as u16, (from + t) as u64))->Some_0,
                    ),
            )
        } else {
            Seq::empty()
        }
    }

    /// The rows from row `i` of segment `s` to the end of the log, in order.
    pub open spec fn rows_after(&self, s: int, i: int) -> Seq<(u64, RecordView)>
        decreases self.segs().len() - s,
    {
        if s < 1 || s > self.segs().len() {
            Seq::empty()
        } else if s == self.segs().len() {
            self.rows_of_segment(s, i)
        } else {
            self.rows_of_segment(s, i) + self.rows_after(s + 1, 0)
        }
    }

    /// The rows of the log depend on the segments alone.
    proof fn lemma_rows_after_same(&self, other: &Engine, s: int, i: int)
        requires
            self.segs() == other.segs(),
        ensures
            self.rows_after(s, i) == other.rows_after(s, i),
        decreases self.segs().len() - s,
    {
        assert(self.rows_of_segment(s, i) =~= other.rows_of_segment(s, i));
        if 1 <= s < self.segs().len() {
            self.lemma_rows_after_same(other, s + 1, 0);
        }
    }

    proof fn lemma_rows_after_step(&self, s: int, i: int)
        requires
            1 <= s <= self.segs().len(),
            0 <= i < self.segment_rows(s),
        ensures
            self.rows_after(s, i) == seq![
                (
                    pack_log_key(s as u16, i as u64),
                    self.stored(pack_log_key(s as u16, i as u64))->Some_0,
                ),
            ] + self.rows_after(s, i + 1),
    {
        let x = (pack_log_key(s as u16, i as u64), self.stored(pack_log_key(s as u16, i as u64))->Some_0);
        assert(self.rows_of_segment(s, i) =~= seq![x] + self.rows_of_segment(s, i + 1));
        if s < self.segs().len() {
            assert(self.rows_after(s, i) =~= seq![x] + self.rows_after(s, i + 1));
        }
    }

    proof fn lemma_rows_after_next_segment(&self, s: int)
        requires
            1 <= s < self.segs().len(),
        ensures
            self.rows_after(s, self.segment_rows(s)) == self.rows_after(s + 1, 0),
    {
        assert(self.rows_of_segment(s, self.segment_rows(s)) =~= Seq::<(u64, RecordView)>::empty());
        assert(self.rows_after(s, self.segment_rows(s)) =~= self.rows_after(s + 1, 0));
    }

    /// Row `i` of segment `s` lies at or after the refresh cursor.
    pub open spec fn replay_range(&self, s: int, i: int) -> bool {
        let c = self.cursor();
        &&& 1 <= s <= self.segs().len()
        &&& 0 <= i < self.segment_rows(s)
        &&& (s > c.spec_segment_num() || (s == c.spec_segment_num() && i >= c.spec_index()))
    }

    /// Row `i` of segment `s` holds a readable record with a primary key.
    pub open spec fn row_replayable(&self, s: int, i: int) -> bool {
        match self.stored(pack_log_key(s as u16, i as u64)) {
            Some(r) => record_key(r, self.pk_index()) is Some,
            None => false,
        }
    }

    /// Every row from the refresh cursor on can be taken in.
    pub open spec fn replayable(&self) -> bool {
        forall|s: int, i: int| #[trigger] self.replay_range(s, i) ==> self.row_replayable(s, i)
    }

    /// Takes in every record from the refresh cursor to the end of the active
    /// segment: a tombstone drops its key, any other record is indexed. The
    /// cursor then stands at the end. With the cursor already there, nothing changes.
    #[verifier::spinoff_prover]
    #[verifier::rlimit(60)]
    pub fn refresh_indexes(&mut self) -> (r: Result<(), DBError>)
        requires
            old(self).wf(),
        ensures
            final(self).wf(),
            final(self).segs() == old(self).segs(),
            final(self).spec_config() == old(self).spec_config(),
            r is Ok ==> final(self).at_end(),
            r is Ok <==> old(self).replayable(),
            r is Ok ==> final(self).primary_map() == replay(
                old(self).primary_map(),
                old(self).rows_after(
                    old(self).cursor().spec_segment_num() as int,
                    old(self).cursor().spec_index() as int,
                ),
                old(self).pk_index(),
            ),
            r is Ok ==> forall|j: int|
                0 <= j < old(self).sec_count() ==> #[trigger] final(self).secondary_map(j) == sec_replay(
                        old(self).secondary_map(j),
                        old(self).primary_map(),
                        old(self).segs(),
                        old(self).pk_index(),
                        old(self).sk_indexes()[j] as int,
                        old(self).rows_after(
                            old(self).cursor().spec_segment_num() as int,
                            old(self).cursor().spec_index() as int,
                        ),
                    ),
            r is Err ==> r->Err_0 is ConsistencyError,
            old(self).at_end() ==> r is Ok && *final(self) == *old(self),
    {
        let to_seg = self.segments.len();
        let mut seg = self.refresh_next_logkey.segment_num() as usize;
        let mut idx = self.refresh_next_logkey.index();
        let ghost goal = replay(
            old(self).primary_map(),
            old(self).rows_after(seg as int, idx as int),
            old(self).pk_index(),
        );
        if seg == to_seg && idx == self.segment_row_count(seg) {
            proof {
                assert(old(self).rows_after(seg as int, idx as int) =~= Seq::<(u64, RecordView)>::empty());
                assert forall|j: int| 0 <= j < old(self).sec_count() implies #[trigger] self.secondary_map(j) == sec_replay(
                        old(self).secondary_map(j),
                        old(self).primary_map(),
                        old(self).segs(),
                        old(self).pk_index(),
                        old(self).sk_indexes()[j] as int,
                        old(self).rows_after(seg as int, idx as int),
                    ) by {}
            }
            return Ok(());
        }
        assert(!old(self).at_end());
        let ghost c_seg = seg as int;
        let ghost c_idx = idx as int;
        loop
            invariant
                !old(self).at_end(),
                c_seg == old(self).cursor().spec_segment_num(),
                c_idx == old(self).cursor().spec_index(),
                seg > c_seg || (seg == c_seg && idx >= c_idx),
                forall|s: int, i: int|
                    #[trigger] old(self).replay_range(s, i) && (s < seg || (s == seg && i < idx))
                        ==> old(self).row_replayable(s, i),
                self.pk_index() == old(self).pk_index(),
                self.wf(),
                self.segs() == old(self).segs(),
                self.spec_config() == old(self).spec_config(),
                to_seg == self.segs().len(),
                1 <= seg <= to_seg,
                self.cursor().spec_segment_num() == seg,
                self.cursor().spec_index() == idx,
                idx <= self.segment_rows(seg as int),
                replay(self.primary_map(), old(self).rows_after(seg as int, idx as int), old(self).pk_index()) == goal,
                self.sk_indexes() == old(self).sk_indexes(),
                self.sec_count() == old(self).sec_count(),
                forall|j: int|
                    0 <= j < old(self).sec_count() ==> #[trigger] sec_replay(
                        self.secondary_map(j),
                        self.primary_map(),
                        old(self).segs(),
                        old(self).pk_index(),
                        old(self).sk_indexes()[j] as int,
                        old(self).rows_after(seg as int, idx as int),
                    ) == sec_replay(
                        old(self).secondary_map(j),
                        old(self).primary_map(),
                        old(self).segs(),
                        old(self).pk_index(),
                        old(self).sk_indexes()[j] as int,
                        old(self).rows_after(c_seg, c_idx),
                    ),
            ensures
                self.sk_indexes() == old(self).sk_indexes(),
                self.sec_count() == old(self).sec_count(),
                forall|j: int|
                    0 <= j < old(self).sec_count() ==> #[trigger] sec_replay(
                        self.secondary_map(j),
                        self.primary_map(),
                        old(self).segs(),
                        old(self).pk_index(),
                        old(self).sk_indexes()[j] as int,
                        old(self).rows_after(seg as int, idx as int),
                    ) == sec_replay(
                        old(self).secondary_map(j),
                        old(self).primary_map(),
                        old(self).segs(),
                        old(self).pk_index(),
                        old(self).sk_indexes()[j] as int,
                        old(self).rows_after(c_seg, c_idx),
                    ),

                replay(self.primary_map(), old(self).rows_after(seg as int, idx as int), old(self).pk_index()) == goal,
                forall|s: int, i: int|
                    #[trigger] old(self).replay_range(s, i) && (s < seg || (s == seg && i < idx))
                        ==> old(self).row_replayable(s, i),
                self.wf(),
                self.segs() == old(self).segs(),
                self.spec_config() == old(self).spec_config(),
                seg == to_seg,
                self.cursor().spec_segment_num() == seg,
                self.cursor().spec_index() == idx,
                idx == self.segment_rows(seg as int),
            decreases to_seg - seg,
        {
            let n = self.segment_row_count(seg);
            while idx < n
                invariant
                    !old(self).at_end(),
                    c_seg == old(self).cursor().spec_segment_num(),
                    c_idx == old(self).cursor().spec_index(),
                    seg > c_seg || (seg == c_seg && idx >= c_idx),
                    forall|s: int, i: int|
                        #[trigger] old(self).replay_range(s, i) && (s < seg || (s == seg && i < idx))
                            ==> old(self).row_replayable(s, i),
                    self.pk_index() == old(self).pk_index(),
                    self.wf(),
                    self.segs() == old(self).segs(),
                    self.spec_config() == old(self).spec_config(),
                    to_seg == self.segs().len(),
                    1 <= seg <= to_seg,
                    n == self.segment_rows(seg as int),
                    self.cursor().spec_segment_num() == seg,
                    self.cursor().spec_index() == idx,
                    idx <= n,
                    replay(self.primary_map(), old(self).rows_after(seg as int, idx as int), old(self).pk_index()) == goal,
                    self.sk_indexes() == old(self).sk_indexes(),
                    self.sec_count() == old(self).sec_count(),
                    forall|j: int|
                        0 <= j < old(self).sec_count() ==> #[trigger] sec_replay(
                            self.secondary_map(j),
                            self.primary_map(),
                            old(self).segs(),
                            old(self).pk_index(),
                            old(self).sk_indexes()[j] as int,
                            old(self).rows_after(seg as int, idx as int),
                        ) == sec_replay(
                            old(self).secondary_map(j),
                            old(self).primary_map(),
                            old(self).segs(),
                            old(self).pk_index(),
                            old(self).sk_indexes()[j] as int,
                            old(self).rows_after(c_seg, c_idx),
                        ),
                decreases n - idx,
            {
                let lk = LogKey::new(seg as u16, idx);
                assert(old(self).replay_range(seg as int, idx as int));
                let record = match self.read_log_key(&lk) {
                    Ok(rec) => rec,
                    Err(e) => {
                        assert(!old(self).row_replayable(seg as int, idx as int));
                        return Err(e);
                    },
                };
                assert(old(self).row_replayable(seg as int, idx as int) <==> record_key(record@, self.pk_index()) is Some);
                let ghost before = self.primary_map();
                proof {
                    old(self).lemma_rows_after_step(seg as int, idx as int);
                    LogKey::lemma_pack(seg as u16, idx);
                    lemma_replay_cons(
                        before,
                        (lk@, record@),
                        old(self).rows_after(seg as int, idx + 1),
                        old(self).pk_index(),
                    );
                    assert forall|j: int| 0 <= j < old(self).sec_count() implies #[trigger] sec_replay(
                        self.secondary_map(j),
                        self.primary_map(),
                        old(self).segs(),
                        old(self).pk_index(),
                        old(self).sk_indexes()[j] as int,
                        old(self).rows_after(seg as int, idx as int),
                    ) == sec_replay(
                        sec_replay_step(
                            self.secondary_map(j),
                            self.primary_map(),
                            old(self).segs(),
                            old(self).pk_index(),
                            old(self).sk_indexes()[j] as int,
                            (lk@, record@),
                        ),
                        replay_step(self.primary_map(), (lk@, record@), old(self).pk_index()),
                        old(self).segs(),
                        old(self).pk_index(),
                        old(self).sk_indexes()[j] as int,
                        old(self).rows_after(seg as int, idx + 1),
                    ) by {
                        lemma_sec_replay_cons(
                            self.secondary_map(j),
                            self.primary_map(),
                            old(self).segs(),
                            old(self).pk_index(),
                            old(self).sk_indexes()[j] as int,
                            (lk@, record@),
                            old(self).rows_after(seg as int, idx + 1),
                        );
                    }
                }
                let ghost before_state = *self;
                let res = if record.tombstone {
                    self.remove_record_from_memtables(&record)
                } else {
                    self.insert_record_to_memtables(lk, &record)
                };
                if let Err(e) = res {
                    return Err(e);
                }
                idx = idx + 1;
                let ghost after_op = *self;
                self.move_cursor(seg, idx);
                proof {
                    assert forall|j: int| 0 <= j < old(self).sec_count() implies #[trigger] sec_replay(
                        self.secondary_map(j),
                        self.primary_map(),
                        old(self).segs(),
                        old(self).pk_index(),
                        old(self).sk_indexes()[j] as int,
                        old(self).rows_after(seg as int, idx as int),
                    ) == sec_replay(
                        old(self).secondary_map(j),
                        old(self).primary_map(),
                        old(self).segs(),
                        old(self).pk_index(),
                        old(self).sk_indexes()[j] as int,
                        old(self).rows_after(c_seg, c_idx),
                    ) by {
                        let x = (lk@, record@);
                        assert(after_op.secondary_map(j) == self.secondary_map(j));
                        assert(after_op.secondary_map(j) == sec_replay_step(
                            before_state.secondary_map(j),
                            before_state.primary_map(),
                            old(self).segs(),
                            old(self).pk_index(),
                            old(self).sk_indexes()[j] as int,
                            x,
                        ));
                        assert(self.primary_map() == replay_step(before_state.primary_map(), x, old(self).pk_index()));
                        assert(sec_replay(
                        before_state.secondary_map(j),
                        before_state.primary_map(),
                        old(self).segs(),
                        old(self).pk_index(),
                        old(self).sk_indexes()[j] as int,
                        old(self).rows_after(seg as int, idx - 1),
                    ) == sec_replay(
                        old(self).secondary_map(j),
                        old(self).primary_map(),
                        old(self).segs(),
                        old(self).pk_index(),
                        old(self).sk_indexes()[j] as int,
                        old(self).rows_after(c_seg, c_idx),
                    ));
                    }
                }
            }
            if seg == to_seg {
                break;
            }
            proof {
                old(self).lemma_rows_after_next_segment(seg as int);
            }
            let ghost pre_switch = *self;
            seg = seg + 1;
            idx = 0;
            self.move_cursor(seg, 0);
            proof {
                assert forall|j: int| 0 <= j < old(self).sec_count() implies #[trigger] sec_replay(
                        self.secondary_map(j),
                        self.primary_map(),
                        old(self).segs(),
                        old(self).pk_index(),
                        old(self).sk_indexes()[j] as int,
                        old(self).rows_after(seg as int, idx as int),
                    ) == sec_replay(
                        old(self).secondary_map(j),
                        old(self).primary_map(),
                        old(self).segs(),
                        old(self).pk_index(),
                        old(self).sk_indexes()[j] as int,
                        old(self).rows_after(c_seg, c_idx),
                    ) by {
                    assert(pre_switch.secondary_map(j) == self.secondary_map(j));
                    assert(sec_replay(
                        pre_switch.secondary_map(j),
                        pre_switch.primary_map(),
                        old(self).segs(),
                        old(self).pk_index(),
                        old(self).sk_indexes()[j] as int,
                        old(self).rows_after(seg - 1, old(self).segment_rows(seg - 1)),
                    ) == sec_replay(
                        old(self).secondary_map(j),
                        old(self).primary_map(),
                        old(self).segs(),
                        old(self).pk_index(),
                        old(self).sk_indexes()[j] as int,
                        old(self).rows_after(c_seg, c_idx),
                    ));
                }
            }
        }
        proof {
            assert(old(self).rows_after(seg as int, idx as int) =~= Seq::<(u64, RecordView)>::empty());
            assert forall|j: int| 0 <= j < old(self).sec_count() implies #[trigger] self.secondary_map(j) == sec_replay(
                        old(self).secondary_map(j),
                        old(self).primary_map(),
                        old(self).segs(),
                        old(self).pk_index(),
                        old(self).sk_indexes()[j] as int,
                        old(self).rows_after(c_seg, c_idx),
                    ) by {
                assert(sec_replay(
                        self.secondary_map(j),
                        self.primary_map(),
                        old(self).segs(),
                        old(self).pk_index(),
                        old(self).sk_indexes()[j] as int,
                        old(self).rows_after(seg as int, idx as int),
                    ) == self.secondary_map(j));
            }
        }
        Ok(())
    }

    /// The number of rows in segment `n`.
    fn segment_row_count(&self, n: usize) -> (r: u64)
        requires
            self.wf(),
            1 <= n <= self.segs().len(),
        ensures
            r == self.segment_rows(n as int),
    {
        let ghost i = n - 1;
        assert(self.segments@[i as int].spec_ok());
        ((self.segments[n - 1].metadata.len() - crate::segment::METADATA_FILE_HEADER_SIZE)
            / crate::segment::METADATA_ROW_LENGTH) as u64
    }

    /// The number of the active segment.
    pub open spec fn active_num(&self) -> int {
        self.segs().len() as int
    }

    /// The state after `recs` were upserted on `before`: they fit the schema,
    /// the active segment gained one row per record with that record in it,
    /// every other record stayed, and the primary index points each key at its
    /// last new row.
    pub open spec fn upserted(&self, before: &Engine, recs: Seq<RecordView>) -> bool {
        let n = recs.len() as int;
        let a = before.active_num();
        let rows = before.segment_rows(a);
        &&& records_valid(before.spec_config().fields@, before.pk_index(), recs)
        &&& self.segs().len() == before.segs().len()
        &&& forall|i: int| 0 <= i < a - 1 ==> #[trigger] self.segs()[i] == before.segs()[i]
        &&& self.segment_rows(a) == rows + n
        &&& forall|lk: u64| #[trigger] before.stored(lk) is Some ==> self.stored(lk) == before.stored(lk)
        &&& forall|j: int| 0 <= j < n ==> self.stored(pack_log_key(a as u16, (rows + j) as u64)) == Some(
            #[trigger] recs[j],
        )
        &&& self.primary_map() == put_all(
            before.primary_map(),
            recs,
            before.pk_index(),
            a as u16,
            rows,
        )
        &&& before.at_end() ==> self.at_end()
        &&& self.spec_config() == before.spec_config()
        &&& self.pk_index() == before.pk_index()
        &&& self.segs()[a - 1].data@ == before.segs()[a - 1].data@ + encoded_concat(recs)
        &&& self.segs()[a - 1].metadata@ == before.segs()[a - 1].metadata@ + appended_rows(
            before.segs()[a - 1].data@.len() as int,
            recs,
        )
    }

    /// Writes records to the active segment, in order, then indexes them. Each
    /// record must fit the schema and have a primary key; otherwise nothing is
    /// written. Record `j` goes to row `rows + j`, where `rows` is the number of
    /// rows the active segment had.
    pub fn batch_upsert_records(&mut self, records: Vec<Record>) -> (r: Result<(), DBError>)
        requires
            old(self).wf(),
        ensures
            final(self).wf(),
            final(self).spec_config() == old(self).spec_config(),
            !records_valid(old(self).spec_config().fields@, old(self).pk_index(), records@.map_values(|x: Record| x@))
                ==> r is Err && r->Err_0 is ValidationError && *final(self) == *old(self),
            r is Err ==> r->Err_0 is ValidationError || r->Err_0 is ConsistencyError,
            r is Ok ==> final(self).upserted(old(self), records@.map_values(|x: Record| x@)),
            r is Ok ==> final(self).sk_indexes() == old(self).sk_indexes() && final(self).sec_count() == old(self).sec_count(),
            r is Ok ==> forall|j: int|
                0 <= j < old(self).sec_count() ==> #[trigger] final(self).secondary_map(j) == sec_put_all(
                    old(self).secondary_map(j),
                    old(self).primary_map(),
                    final(self).segs(),
                    old(self).pk_index(),
                    old(self).sk_indexes()[j] as int,
                    records@.map_values(|x: Record| x@),
                    old(self).active_num() as u16,
                    old(self).segment_rows(old(self).active_num()),
                ),
            records_valid(old(self).spec_config().fields@, old(self).pk_index(), records@.map_values(|x: Record| x@))
                && room_for(old(self).segs()[old(self).active_num() - 1], records@.map_values(|x: Record| x@)) ==> r is Ok,
    {
        let ghost recs = records@.map_values(|x: Record| x@);
        let mut j: usize = 0;
        while j < records.len()
            invariant
                self == old(self),
                self.wf(),
                recs == records@.map_values(|x: Record| x@),
                j <= records@.len(),
                records_valid(self.spec_config().fields@, self.pk_index(), recs.take(j as int)),
            decreases records@.len() - j,
        {
            if let Err(e) = validate_record(&self.config.fields, &records[j]) {
                assert(!records_valid(self.spec_config().fields@, self.pk_index(), recs)) by {
                    assert(!record_valid(self.spec_config().fields@, recs[j as int]));
                }
                return Err(e);
            }
            if records[j].tombstone {
                assert(!records_valid(self.spec_config().fields@, self.pk_index(), recs)) by {
                    assert(recs[j as int].tombstone);
                }
                return Err(DBError::ValidationError(ValidationErrorKind::TombstoneRecord));
            }
            if key_of(&records[j], self.primary_key_index).is_none() {
                assert(!records_valid(self.spec_config().fields@, self.pk_index(), recs)) by {
                    assert(record_key(recs[j as int], self.pk_index()) is None);
                }
                return Err(DBError::ValidationError(ValidationErrorKind::NotIndexable));
            }
            j = j + 1;
            assert(forall|x: int| 0 <= x < j ==> recs.take(j as int)[x] == recs[x]);
            assert(forall|x: int| 0 <= x < j - 1 ==> recs.take(j as int)[x] == recs.take(j - 1)[x]);
        }
        assert(recs.take(records@.len() as int) =~= recs);
        self.upsert_valid(records)
    }

    /// Writes and indexes records already checked against the schema.
    #[verifier::spinoff_prover]
    #[verifier::rlimit(100)]
    fn upsert_valid(&mut self, records: Vec<Record>) -> (r: Result<(), DBError>)
        requires
            old(self).wf(),
            records_valid(old(self).spec_config().fields@, old(self).pk_index(), records@.map_values(|x: Record| x@)),
        ensures
            final(self).wf(),
            final(self).spec_config() == old(self).spec_config(),
            r is Err ==> r->Err_0 is ConsistencyError,
            r is Ok ==> final(self).upserted(old(self), records@.map_values(|x: Record| x@)),
            r is Ok ==> final(self).sk_indexes() == old(self).sk_indexes() && final(self).sec_count() == old(self).sec_count(),
            r is Ok ==> forall|j: int|
                0 <= j < old(self).sec_count() ==> #[trigger] final(self).secondary_map(j) == sec_put_all(
                    old(self).secondary_map(j),
                    old(self).primary_map(),
                    final(self).segs(),
                    old(self).pk_index(),
                    old(self).sk_indexes()[j] as int,
                    records@.map_values(|x: Record| x@),
                    old(self).active_num() as u16,
                    old(self).segment_rows(old(self).active_num()),
                ),
            room_for(old(self).segs()[old(self).active_num() - 1], records@.map_values(|x: Record| x@)) ==> r is Ok,
    {
        let ghost recs = records@.map_values(|x: Record| x@);
        assert(recs.take(records@.len() as int) =~= recs);
        let ghost a = self.segments@.len() as int;
        let ghost rows = self.segment_rows(a);
        let was_at_end = {
            let n_seg = self.segments.len();
            self.refresh_next_logkey.segment_num() as usize == n_seg
                && self.refresh_next_logkey.index() == self.segment_row_count(n_seg)
        };
        let lks = match self.write_records(&records) {
            Ok(lks) => lks,
            Err(e) => {
                return Err(e);
            },
        };
        proof {
            assert forall|i: int| 0 <= i < records@.len() implies #[trigger] record_key(records@[i]@, self.pk_index()) is Some by {
                assert(recs[i] == records@[i]@);
            }
            assert forall|i: int| 0 <= i < records@.len() implies self.stored((#[trigger] lks@[i])@) == Some(records@[i]@) by {
                assert(self.stored(pack_log_key(a as u16, (rows + i) as u64)) == Some(records@[i]@));
            }
        }
        let ghost written = *self;
        if let Err(e) = self.index_records(&records, &lks, Ghost(a as u16), Ghost(rows)) {
            return Err(e);
        }
        let ghost indexed = *self;
        if was_at_end {
            let n_seg = self.segments.len();
            let end = self.segment_row_count(n_seg);
            self.move_cursor(n_seg, end);
        }
        proof {
            assert(a as u16 == old(self).active_num() as u16);
            assert(rows == old(self).segment_rows(old(self).active_num()));
            assert forall|j: int| 0 <= j < old(self).sec_count() implies #[trigger] self.secondary_map(j) == sec_put_all(
                old(self).secondary_map(j),
                old(self).primary_map(),
                self.segs(),
                old(self).pk_index(),
                old(self).sk_indexes()[j] as int,
                records@.map_values(|x: Record| x@),
                old(self).active_num() as u16,
                old(self).segment_rows(old(self).active_num()),
            ) by {
                assert(written.secondary_map(j) == old(self).secondary_map(j));
                assert(indexed.secondary_map(j) == self.secondary_map(j));
            }
        }
        Ok(())
    }

    /// Indexes records just written at rows `start`, `start + 1`, ... of segment `seg`.
    fn index_records(&mut self, records: &Vec<Record>, lks: &Vec<LogKey>, Ghost(seg): Ghost<u16>, Ghost(start): Ghost<int>) -> (r: Result<(), DBError>)
        requires
            old(self).wf(),
            lks@.len() == records@.len(),
            forall|i: int| 0 <= i < lks@.len() ==> (#[trigger] lks@[i])@ == pack_log_key(seg, (start + i) as u64),
            forall|i: int| 0 <= i < lks@.len() ==> old(self).stored((#[trigger] lks@[i])@) == Some(records@[i]@),
            forall|i: int| 0 <= i < records@.len() ==> #[trigger] record_key(records@[i]@, old(self).pk_index()) is Some,
        ensures
            final(self).wf(),
            r is Ok,
            final(self).segs() == old(self).segs(),
            final(self).spec_config() == old(self).spec_config(),
            final(self).pk_index() == old(self).pk_index(),
            final(self).cursor() == old(self).cursor(),
            final(self).primary_map() == put_all(
                old(self).primary_map(),
                records@.map_values(|x: Record| x@),
                old(self).pk_index(),
                seg,
                start,
            ),
            final(self).sk_indexes() == old(self).sk_indexes(),
            final(self).secondary_memtables@.len() == old(self).secondary_memtables@.len(),
            forall|j: int|
                0 <= j < old(self).secondary_memtables@.len() ==> #[trigger] final(self).secondary_map(j) == sec_put_all(
                    old(self).secondary_map(j),
                    old(self).primary_map(),
                    old(self).segs(),
                    old(self).pk_index(),
                    old(self).sk_indexes()[j] as int,
                    records@.map_values(|x: Record| x@),
                    seg,
                    start,
                ),
    {
        let ghost recs = records@.map_values(|x: Record| x@);
        let mut x: usize = 0;
        while x < records.len()
            invariant
                self.wf(),
                x <= records@.len(),
                lks@.len() == records@.len(),
                recs == records@.map_values(|r: Record| r@),
                forall|i: int| 0 <= i < lks@.len() ==> (#[trigger] lks@[i])@ == pack_log_key(seg, (start + i) as u64),
                forall|i: int| 0 <= i < lks@.len() ==> self.stored((#[trigger] lks@[i])@) == Some(records@[i]@),
                forall|i: int| 0 <= i < records@.len() ==> #[trigger] record_key(records@[i]@, self.pk_index()) is Some,
                self.segs() == old(self).segs(),
                self.spec_config() == old(self).spec_config(),
                self.pk_index() == old(self).pk_index(),
                self.cursor() == old(self).cursor(),
                self.sk_indexes() == old(self).sk_indexes(),
                self.secondary_memtables@.len() == old(self).secondary_memtables@.len(),
                forall|j: int|
                    0 <= j < old(self).secondary_memtables@.len() ==> #[trigger] self.secondary_map(j) == sec_put_all(
                    old(self).secondary_map(j),
                    old(self).primary_map(),
                    old(self).segs(),
                    old(self).pk_index(),
                    old(self).sk_indexes()[j] as int,
                    recs.take(x as int),
                    seg,
                    start,
                ),
                self.primary_map() == put_all(old(self).primary_map(), recs.take(x as int), old(self).pk_index(), seg, start),
            decreases records@.len() - x,
        {
            assert(recs.take(x + 1).drop_last() =~= recs.take(x as int));
            assert(recs.take(x + 1).last() == recs[x as int]);
            assert(record_key(records@[x as int]@, self.pk_index()) is Some);
            if let Err(e) = self.insert_record_to_memtables(lks[x], &records[x]) {
                return Err(e);
            }
            x = x + 1;
            assert(recs.take(x as int).last() == records@[x - 1]@);
            assert(recs.take(x as int).len() == x);
        }
        assert(recs.take(records@.len() as int) =~= recs);
        Ok(())
    }

    /// Putting back an active segment that kept its consistency and grew keeps
    /// the engine well formed.
    proof fn lemma_replaced_active_wf(&self, prior: &Engine, a: int)
        requires
            prior.wf(),
            a == prior.segments@.len(),
            self.segments@.len() == a,
            forall|i: int| 0 <= i < a - 1 ==> #[trigger] self.segments@[i] == prior.segments@[i],
            self.segments@[a - 1].spec_ok(),
            self.segments@[a - 1].rows() < index_limit(),
            self.segments@[a - 1].rows() >= prior.segments@[a - 1].rows(),
            forall|i: int|
                0 <= i < prior.segments@[a - 1].rows() ==> #[trigger] stored_record(
                    self.segments@[a - 1].metadata@,
                    self.segments@[a - 1].data@,
                    i,
                ) == stored_record(prior.segments@[a - 1].metadata@, prior.segments@[a - 1].data@, i),
            self.config == prior.config,
            self.primary_key_index == prior.primary_key_index,
            self.secondary_key_indexes == prior.secondary_key_indexes,
            self.refresh_next_logkey == prior.refresh_next_logkey,
            self.primary_memtable == prior.primary_memtable,
            self.secondary_memtables == prior.secondary_memtables,
        ensures
            self.wf(),
            forall|lk: u64| #[trigger] prior.stored(lk) is Some ==> self.stored(lk) == prior.stored(lk),
    {
        lemma_stored_after_append(prior.segs(), self.segs(), a, prior.segments@[a - 1].rows());
        assert forall|k: IndexKey| #[trigger] self.primary_memtable.spec_map().contains_key(k) implies match stored_at(
            self.segments@,
            self.primary_memtable.spec_map()[k],
        ) {
            Some(r) => record_key(r, self.primary_key_index as int) == Some(k),
            None => false,
        } by {
            assert(prior.primary_memtable.spec_map().contains_key(k));
            assert(prior.stored(prior.primary_memtable.spec_map()[k]) is Some);
        }
        reveal(Engine::secondary_consistent);
        assert forall|j: int, k: IndexKey, lk: u64| #[trigger] self.sec_has(j, k, lk) implies self.sec_entry_ok(j, k, lk) by {
            assert(prior.sec_has(j, k, lk));
            assert(prior.sec_entry_ok(j, k, lk));
            assert(prior.stored(lk) is Some);
        }
    }

    /// The secondary index of the `j`-th secondary key, with each key's log keys
    /// in increasing order.
    pub closed spec fn secondary_keys_of(&self, j: int, k: IndexKey) -> Seq<u64> {
        self.secondary_memtables@[j].keys_of(k)
    }

    /// The log keys that an index holds for `k`: for the primary key, the one
    /// log key of its record; for a secondary key, the log keys of its set in
    /// increasing order.
    pub open spec fn lookup(&self, name: Seq<char>, k: IndexKey) -> Seq<u64> {
        if name == self.spec_config().primary_key@ {
            if self.primary_map().contains_key(k) {
                seq![self.primary_map()[k]]
            } else {
                Seq::empty()
            }
        } else if has_name(self.spec_config().secondary_keys@, name) {
            let j = choose|j: int| is_first_name(self.spec_config().secondary_keys@, name, j);
            self.secondary_keys_of(j, k)
        } else {
            Seq::empty()
        }
    }

    /// The (tag, log key) pairs of a batch of keys: key `t` gives its lookup,
    /// each tagged `t`, batches in order.
    pub open spec fn tagged_lookup(&self, name: Seq<char>, keys: Seq<IndexKey>) -> Seq<(usize, u64)>
        decreases keys.len(),
    {
        if keys.len() == 0 {
            Seq::empty()
        } else {
            self.tagged_lookup(name, keys.drop_last()) + self.lookup(name, keys.last()).map_values(
                |lk: u64| ((keys.len() - 1) as usize, lk),
            )
        }
    }

    /// Whether a field can be queried through an index.
    pub open spec fn indexed(&self, name: Seq<char>) -> bool {
        name == self.spec_config().primary_key@ || has_name(self.spec_config().secondary_keys@, name)
    }

    /// The type of the first field named `field`.
    pub fn get_field_type(&self, field: &String) -> (r: Option<RecordField>)
        ensures
            match r {
                Some(t) => exists|i: int|
                    is_first_field(self.spec_config().fields@, field@, i) && self.spec_config().fields@[i].1 == t,
                None => !has_field(self.spec_config().fields@, field@),
            },
    {
        match find_field(&self.config.fields, field) {
            Some(i) => Some(self.config.fields[i].1),
            None => None,
        }
    }

    /// Reads the records that tagged log keys point at, in the order given,
    /// each with its tag. Fails when a log key points at no readable record.
    fn read_tagged_log_keys(&self, tagged: &Vec<(usize, LogKey)>) -> (r: Result<Vec<(usize, Record)>, DBError>)
        requires
            self.wf(),
        ensures
            r is Ok <==> forall|i: int| 0 <= i < tagged@.len() ==> self.stored((#[trigger] tagged@[i]).1@) is Some,
            r is Err ==> r->Err_0 is ConsistencyError,
            r is Ok ==> r->Ok_0@.len() == tagged@.len() && forall|i: int|
                0 <= i < tagged@.len() ==> (#[trigger] r->Ok_0@[i]).0 == tagged@[i].0 && self.stored(tagged@[i].1@)
                    == Some(r->Ok_0@[i].1@),
    {
        let mut out: Vec<(usize, Record)> = Vec::new();
        let mut i: usize = 0;
        while i < tagged.len()
            invariant
                self.wf(),
                i <= tagged@.len(),
                out@.len() == i,
                forall|x: int| 0 <= x < i ==> self.stored((#[trigger] tagged@[x]).1@) is Some,
                forall|x: int|
                    0 <= x < i ==> (#[trigger] out@[x]).0 == tagged@[x].0 && self.stored(tagged@[x].1@) == Some(
                        out@[x].1@,
                    ),
            decreases tagged@.len() - i,
        {
            let (tag, lk) = tagged[i];
            match self.read_log_key(&lk) {
                Ok(rec) => {
                    out.push((tag, rec));
                },
                Err(e) => {
                    return Err(e);
                },
            }
            i = i + 1;
        }
        Ok(out)
    }

    /// Reads the records that log keys point at, in the order given.
    fn read_log_keys(&self, lks: &Vec<LogKey>) -> (r: Result<Vec<Record>, DBError>)
        requires
            self.wf(),
        ensures
            r is Ok <==> forall|i: int| 0 <= i < lks@.len() ==> self.stored((#[trigger] lks@[i])@) is Some,
            r is Err ==> r->Err_0 is ConsistencyError,
            r is Ok ==> r->Ok_0@.len() == lks@.len() && forall|i: int|
                0 <= i < lks@.len() ==> self.stored(lks@[i]@) == Some((#[trigger] r->Ok_0@[i])@),
    {
        let mut out: Vec<Record> = Vec::new();
        let mut i: usize = 0;
        while i < lks.len()
            invariant
                self.wf(),
                i <= lks@.len(),
                out@.len() == i,
                forall|x: int| 0 <= x < i ==> self.stored((#[trigger] lks@[x])@) is Some,
                forall|x: int| 0 <= x < i ==> self.stored(lks@[x]@) == Some((#[trigger] out@[x])@),
            decreases lks@.len() - i,
        {
            match self.read_log_key(&lks[i]) {
                Ok(rec) => {
                    out.push(rec);
                },
                Err(e) => {
                    return Err(e);
                },
            }
            i = i + 1;
        }
        Ok(out)
    }

    /// The log keys that an index holds for `key` (see `lookup`).
    fn lookup_log_keys(&self, field: &String, key: &IndexableValue) -> (r: Vec<LogKey>)
        requires
            self.wf(),
        ensures
            r@.map_values(|k: LogKey| k@) == self.lookup(field@, key@),
    {
        if *field == self.config.primary_key {
            match self.primary_memtable.get(key) {
                Some(lk) => {
                    let mut v: Vec<LogKey> = Vec::new();
                    v.push(lk);
                    assert(v@.map_values(|k: LogKey| k@) =~= seq![lk@]);
                    v
                },
                None => {
                    let v: Vec<LogKey> = Vec::new();
                    assert(v@.map_values(|k: LogKey| k@) =~= Seq::<u64>::empty());
                    v
                },
            }
        } else {
            match find_name(&self.config.secondary_keys, field) {
                Some(j) => {
                    proof {
                        let c = choose|c: int| is_first_name(self.spec_config().secondary_keys@, field@, c);
                        if c < j {
                            assert(self.config.secondary_keys@[c]@ != field@);
                        } else if c > j {
                            assert(self.config.secondary_keys@[j as int]@ != field@);
                        }
                        assert(self.secondary_memtables@[j as int].wf());
                    }
                    self.secondary_memtables[j].find_by(key)
                },
                None => {
                    let v: Vec<LogKey> = Vec::new();
                    assert(v@.map_values(|k: LogKey| k@) =~= Seq::<u64>::empty());
                    v
                },
            }
        }
    }

    /// Finds the records whose `field` holds one of `values`; each comes with
    /// the position of the value that found it. Every value must fit the
    /// field and be an integer or a string, and the field must be indexed;
    /// otherwise nothing changes. With strong consistency the indexes are
    /// refreshed first.
    pub fn batch_find_by_records(&mut self, field: &String, values: &Vec<crate::record::RecordValue>) -> (r: Result<
        Vec<(usize, Record)>,
        DBError,
    >)
        requires
            old(self).wf(),
        ensures
            final(self).wf(),
            final(self).segs() == old(self).segs(),
            final(self).spec_config() == old(self).spec_config(),
            !has_field(old(self).spec_config().fields@, field@) ==> r == Err::<Vec<(usize, Record)>, DBError>(
                DBError::ValidationError(ValidationErrorKind::UnknownField),
            ),
            (forall|i: int| is_first_field(old(self).spec_config().fields@, field@, i) ==>
                !(forall|x: int| 0 <= x < values@.len() ==> query_value_ok(
                    old(self).spec_config().fields@[i].1,
                    (#[trigger] values@[x])@,
                ))) ==> r is Err && r->Err_0 is ValidationError,
            !old(self).indexed(field@) ==> r is Err && r->Err_0 is ValidationError,
            r is Err && r->Err_0 is ValidationError ==> *final(self) == *old(self),
            old(self).spec_config().read_consistency == ReadConsistency::Eventual ==> *final(self) == *old(self),
            old(self).at_end() ==> *final(self) == *old(self),
            r is Ok && old(self).spec_config().read_consistency == ReadConsistency::Strong ==> final(self).at_end(),
            r is Ok ==> old(self).indexed(field@) && (forall|x: int| 0 <= x < values@.len() ==> index_key_of((#[trigger] values@[x])@) is Some),
            has_field(old(self).spec_config().fields@, field@) && old(self).indexed(field@) && (forall|x: int|
                0 <= x < values@.len() ==> query_value_ok(
                    old(self).spec_config().fields@[field_position(old(self).spec_config(), field@)].1,
                    (#[trigger] values@[x])@,
                )) && (old(self).spec_config().read_consistency == ReadConsistency::Eventual || old(self).replayable())
                ==> r is Ok,
            r is Ok ==> forall|i: int|
                0 <= i < r->Ok_0@.len() ==> (#[trigger] r->Ok_0@[i]).0 < values@.len() && record_key(
                    r->Ok_0@[i].1@,
                    field_position(old(self).spec_config(), field@),
                ) == index_key_of(values@[r->Ok_0@[i].0 as int]@),
            r is Ok ==> ({
                let keys = values@.map_values(|v: crate::record::RecordValue| index_key_of(v@)->Some_0);
                let t = final(self).tagged_lookup(field@, keys);
                &&& r->Ok_0@.len() == t.len()
                &&& forall|i: int|
                    0 <= i < t.len() ==> (#[trigger] r->Ok_0@[i]).0 == t[i].0 && final(self).stored(t[i].1)
                        == Some(r->Ok_0@[i].1@)
            }),
    {
        let field_index = match find_field(&self.config.fields, field) {
            Some(i) => i,
            None => {
                return Err(DBError::ValidationError(ValidationErrorKind::UnknownField));
            },
        };
        let field_type = self.config.fields[field_index].1;
        let n_values = values.len();
        proof {
            lemma_first_field_unique(
                self.config.fields@,
                field@,
                field_position(self.spec_config(), field@),
                field_index as int,
            );
        }
        let mut keys: Vec<IndexableValue> = Vec::new();
        let mut x: usize = 0;
        while x < values.len()
            invariant
                self == old(self),
                self.wf(),
                x <= values@.len(),
                keys@.len() == x,
                is_first_field(self.spec_config().fields@, field@, field_index as int),
                field_type == self.spec_config().fields@[field_index as int].1,
                forall|y: int| 0 <= y < x ==> query_value_ok(field_type, (#[trigger] values@[y])@),
                forall|y: int| 0 <= y < x ==> Some((#[trigger] keys@[y])@) == index_key_of(values@[y]@),
            decreases values@.len() - x,
        {
            if !type_check(&values[x], &field_type) {
                proof {
                    assert forall|i: int| is_first_field(old(self).spec_config().fields@, field@, i) implies !(forall|y: int|
                        0 <= y < values@.len() ==> query_value_ok(
                            old(self).spec_config().fields@[i].1,
                            (#[trigger] values@[y])@,
                        )) by {
                        assert(i == field_index) by {
                            if i < field_index {
                                assert(self.config.fields@[i].0@ != field@);
                            } else if i > field_index {
                                assert(self.config.fields@[field_index as int].0@ != field@);
                            }
                        }
                        assert(!query_value_ok(field_type, values@[x as int]@));
                    }
                }
                return Err(DBError::ValidationError(ValidationErrorKind::FieldType));
            }
            match values[x].as_indexable() {
                Some(k) => {
                    keys.push(k);
                },
                None => {
                    proof {
                        assert forall|i: int| is_first_field(old(self).spec_config().fields@, field@, i) implies !(forall|y: int|
                            0 <= y < values@.len() ==> query_value_ok(
                                old(self).spec_config().fields@[i].1,
                                (#[trigger] values@[y])@,
                            )) by {
                            assert(!query_value_ok(old(self).spec_config().fields@[i].1, values@[x as int]@));
                        }
                    }
                    return Err(DBError::ValidationError(ValidationErrorKind::NotIndexable));
                },
            }
            x = x + 1;
        }
        if !(*field == self.config.primary_key) && find_name(&self.config.secondary_keys, field).is_none() {
            return Err(DBError::ValidationError(ValidationErrorKind::NotIndexed));
        }
        if self.config.read_consistency == ReadConsistency::Strong {
            if let Err(e) = self.refresh_indexes() {
                return Err(e);
            }
        }
        let ghost ks = values@.map_values(|v: crate::record::RecordValue| index_key_of(v@)->Some_0);
        assert(keys@.map_values(|k: IndexableValue| k@) =~= ks);
        let mut tagged: Vec<(usize, LogKey)> = Vec::new();
        let mut t: usize = 0;
        while t < keys.len()
            invariant
                self.wf(),
                t <= keys@.len(),
                keys@.map_values(|k: IndexableValue| k@) == ks,
                tagged@.map_values(|p: (usize, LogKey)| (p.0, p.1@)) == self.tagged_lookup(field@, ks.take(t as int)),
            decreases keys@.len() - t,
        {
            let lks = self.lookup_log_keys(field, &keys[t]);
            let ghost before = tagged@;
            let mut y: usize = 0;
            while y < lks.len()
                invariant
                    y <= lks@.len(),
                    tagged@ == before + lks@.take(y as int).map_values(|lk: LogKey| (t, lk)),
                decreases lks@.len() - y,
            {
                tagged.push((t, lks[y]));
                y = y + 1;
                assert(tagged@ =~= before + lks@.take(y as int).map_values(|lk: LogKey| (t, lk)));
            }
            proof {
                assert(lks@.take(y as int) =~= lks@);
                assert(ks.take(t + 1).drop_last() =~= ks.take(t as int));
                assert(ks.take(t + 1).last() == keys@[t as int]@);
                assert(tagged@.map_values(|p: (usize, LogKey)| (p.0, p.1@)) =~= self.tagged_lookup(field@, ks.take(t as int))
                    + self.lookup(field@, keys@[t as int]@).map_values(|lk: u64| (t, lk)));
            }
            t = t + 1;
        }
        assert(ks.take(keys@.len() as int) =~= ks);
        proof {
            let tl = self.tagged_lookup(field@, ks);
            assert forall|i: int| 0 <= i < tagged@.len() implies self.stored((#[trigger] tagged@[i]).1@) is Some by {
                assert(tl[i] == (tagged@[i].0, tagged@[i].1@));
                assert(ks.len() == n_values);
                self.lemma_tagged_lookup_member(field@, ks, i);
                self.lemma_lookup_sound(field@, ks[tl[i].0 as int], tl[i].1);
            }
        }
        let res = self.read_tagged_log_keys(&tagged);
        match res {
            Ok(v) => {
                proof {
                    let tl = self.tagged_lookup(field@, ks);
                    assert forall|i: int| 0 <= i < tl.len() implies (#[trigger] v@[i]).0 == tl[i].0 && self.stored(tl[i].1)
                        == Some(v@[i].1@) by {
                        assert(tl[i] == (tagged@[i].0, tagged@[i].1@));
                    }
                    assert forall|i: int| 0 <= i < v@.len() implies (#[trigger] v@[i]).0 < values@.len() && record_key(
                        v@[i].1@,
                        field_position(old(self).spec_config(), field@),
                    ) == index_key_of(values@[v@[i].0 as int]@) by {
                        assert(tl[i] == (tagged@[i].0, tagged@[i].1@));
                        assert(ks.len() == n_values);
                        self.lemma_tagged_lookup_member(field@, ks, i);
                        let t = tl[i].0 as int;
                        self.lemma_lookup_sound(field@, ks[t], tl[i].1);
                        assert(ks[t] == index_key_of(values@[t]@)->Some_0);
                    }
                }
                Ok(v)
            },
            Err(e) => Err(e),
        }
    }

    /// The log keys that the primary index holds for keys in the range, in key order.
    pub closed spec fn primary_range(&self, lo: Bound<IndexKey>, hi: Bound<IndexKey>) -> Seq<u64> {
        range_values(self.primary_memtable.rows(), lo, hi)
    }

    /// The log keys that the `j`-th secondary index holds for keys in the
    /// range: key order, then increasing log keys.
    pub closed spec fn secondary_range(&self, j: int, lo: Bound<IndexKey>, hi: Bound<IndexKey>) -> Seq<u64> {
        range_sets(self.secondary_memtables@[j].ordered_rows(), lo, hi)
    }

    /// The log keys of the keys in the range, from the index of the field.
    pub open spec fn range_lookup(&self, name: Seq<char>, lo: Bound<IndexKey>, hi: Bound<IndexKey>) -> Seq<u64> {
        if name == self.spec_config().primary_key@ {
            self.primary_range(lo, hi)
        } else if has_name(self.spec_config().secondary_keys@, name) {
            let j = choose|j: int| is_first_name(self.spec_config().secondary_keys@, name, j);
            self.secondary_range(j, lo, hi)
        } else {
            Seq::empty()
        }
    }

    /// A range lookup is sound: every log key it yields points at a stored
    /// record whose field holds a key inside the range.
    pub proof fn lemma_range_sound(&self, name: Seq<char>, lo: Bound<IndexKey>, hi: Bound<IndexKey>, lk: u64)
        requires
            self.wf(),
            self.range_lookup(name, lo, hi).contains(lk),
        ensures
            match self.stored(lk) {
                Some(r) => match record_key(r, field_position(self.spec_config(), name)) {
                    Some(k) => crate::memtable::in_range(k, lo, hi),
                    None => false,
                },
                None => false,
            },
    {
        let c = self.spec_config();
        if name == c.primary_key@ {
            let rows = self.primary_memtable.rows();
            crate::memtable::lemma_range_values_member(rows, lo, hi, lk);
            let i = choose|i: int| 0 <= i < rows.len() && rows[i].1 == lk && crate::memtable::in_range(rows[i].0, lo, hi);
            self.primary_memtable.lemma_rows_in_map();
            let k = rows[i].0;
            assert(self.primary_memtable.spec_map().contains_key(k));
            lemma_first_field_unique(c.fields@, name, field_position(c, name), self.primary_key_index as int);
        } else {
            if !has_name(c.secondary_keys@, name) {
                assert(self.range_lookup(name, lo, hi) =~= Seq::<u64>::empty());
            }
            let v = choose|v: int| 0 <= v < c.secondary_keys@.len() && (#[trigger] c.secondary_keys@[v])@ == name;
            lemma_first_name_exists(c.secondary_keys@, name, v);
            let j = choose|j: int| is_first_name(c.secondary_keys@, name, j);
            assert(0 <= j < self.secondary_memtables@.len());
            let m = self.secondary_memtables@[j];
            assert(m.wf());
            let o = m.ordered_rows();
            crate::memtable::lemma_range_sets_member(o, lo, hi, lk);
            let i = choose|i: int| 0 <= i < o.len() && o[i].1.contains(lk) && crate::memtable::in_range(o[i].0, lo, hi);
            m.lemma_ordered_rows();
            let k = o[i].0;
            m.lemma_keys_of(k);
            assert(self.sec_has(j, k, lk));
            reveal(Engine::secondary_consistent);
            assert(self.sec_entry_ok(j, k, lk));
            assert(is_first_field(c.fields@, c.secondary_keys@[j]@, self.secondary_key_indexes@[j] as int));
            lemma_first_field_unique(c.fields@, name, field_position(c, name), self.secondary_key_indexes@[j] as int);
        }
    }

    /// Finds the records whose `field` lies between the bounds. Both bounds
    /// must fit the field and be integers or strings, and the field must be
    /// indexed; otherwise nothing changes. With strong consistency the indexes
    /// are refreshed first.
    pub fn range_by_records(&mut self, field: &String, start: &Bound<crate::record::RecordValue>, end: &Bound<
        crate::record::RecordValue,
    >) -> (r: Result<Vec<Record>, DBError>)
        requires
            old(self).wf(),
        ensures
            final(self).wf(),
            final(self).segs() == old(self).segs(),
            final(self).spec_config() == old(self).spec_config(),
            !has_field(old(self).spec_config().fields@, field@) ==> r == Err::<Vec<Record>, DBError>(
                DBError::ValidationError(ValidationErrorKind::UnknownField),
            ),
            (forall|i: int| is_first_field(old(self).spec_config().fields@, field@, i) ==>
                !(bound_ok(start@, old(self).spec_config().fields@[i].1) && bound_ok(end@, old(self).spec_config().fields@[i].1)))
                ==> r is Err && r->Err_0 is ValidationError,
            !old(self).indexed(field@) ==> r is Err && r->Err_0 is ValidationError,
            r is Err && r->Err_0 is ValidationError ==> *final(self) == *old(self),
            old(self).spec_config().read_consistency == ReadConsistency::Eventual ==> *final(self) == *old(self),
            old(self).at_end() ==> *final(self) == *old(self),
            has_field(old(self).spec_config().fields@, field@) && old(self).indexed(field@) && bound_ok(
                start@,
                old(self).spec_config().fields@[field_position(old(self).spec_config(), field@)].1,
            ) && bound_ok(end@, old(self).spec_config().fields@[field_position(old(self).spec_config(), field@)].1)
                && (old(self).spec_config().read_consistency == ReadConsistency::Eventual || old(self).replayable())
                ==> r is Ok,
            r is Ok ==> forall|i: int|
                0 <= i < r->Ok_0@.len() ==> match record_key(
                    (#[trigger] r->Ok_0@[i])@,
                    field_position(old(self).spec_config(), field@),
                ) {
                    Some(k) => crate::memtable::in_range(k, bound_key(start@), bound_key(end@)),
                    None => false,
                },
            r is Ok ==> ({
                let t = final(self).range_lookup(field@, bound_key(start@), bound_key(end@));
                &&& r->Ok_0@.len() == t.len()
                &&& forall|i: int| 0 <= i < t.len() ==> final(self).stored(t[i]) == Some((#[trigger] r->Ok_0@[i])@)
            }),
    {
        let field_index = match find_field(&self.config.fields, field) {
            Some(i) => i,
            None => {
                return Err(DBError::ValidationError(ValidationErrorKind::UnknownField));
            },
        };
        let field_type = self.config.fields[field_index].1;
        proof {
            assert forall|i: int| is_first_field(old(self).spec_config().fields@, field@, i) implies i == field_index by {
                if i < field_index {
                    assert(self.config.fields@[i].0@ != field@);
                } else if i > field_index {
                    assert(self.config.fields@[field_index as int].0@ != field@);
                }
            }
        }
        let lo = bound_to_indexable(start, &field_type)?;
        let hi = bound_to_indexable(end, &field_type)?;
        let slot = if *field == self.config.primary_key {
            None
        } else {
            match find_name(&self.config.secondary_keys, field) {
                Some(j) => Some(j),
                None => {
                    return Err(DBError::ValidationError(ValidationErrorKind::NotIndexed));
                },
            }
        };
        if self.config.read_consistency == ReadConsistency::Strong {
            if let Err(e) = self.refresh_indexes() {
                return Err(e);
            }
        }
        let lks = match slot {
            None => self.primary_memtable.range(&lo, &hi),
            Some(j) => {
                proof {
                    let c = choose|c: int| is_first_name(self.spec_config().secondary_keys@, field@, c);
                    if c < j {
                        assert(self.config.secondary_keys@[c]@ != field@);
                    } else if c > j {
                        assert(self.config.secondary_keys@[j as int]@ != field@);
                    }
                }
                self.secondary_memtables[j].range(&lo, &hi)
            },
        };
        let ghost t = self.range_lookup(field@, bound_key(start@), bound_key(end@));
        assert(lks@.map_values(|k: LogKey| k@) == t);
        proof {
            assert forall|i: int| 0 <= i < t.len() implies match self.stored(#[trigger] t[i]) {
                Some(r) => match record_key(r, field_position(self.spec_config(), field@)) {
                    Some(k) => crate::memtable::in_range(k, bound_key(start@), bound_key(end@)),
                    None => false,
                },
                None => false,
            } by {
                assert(t.contains(t[i]));
                self.lemma_range_sound(field@, bound_key(start@), bound_key(end@), t[i]);
            }
        }
        proof {
            assert forall|x: int| 0 <= x < lks@.len() implies self.stored((#[trigger] lks@[x])@) is Some by {
                assert(t[x] == lks@[x]@);
                assert(t.contains(t[x]));
                self.lemma_range_sound(field@, bound_key(start@), bound_key(end@), t[x]);
            }
        }
        let out = match self.read_log_keys(&lks) {
            Ok(v) => v,
            Err(e) => {
                return Err(e);
            },
        };
        proof {
            assert forall|i: int| 0 <= i < out@.len() implies match record_key(
                (#[trigger] out@[i])@,
                field_position(old(self).spec_config(), field@),
            ) {
                Some(k) => crate::memtable::in_range(k, bound_key(start@), bound_key(end@)),
                None => false,
            } by {
                assert(t[i] == lks@[i]@);
                assert(self.stored(t[i]) == Some(out@[i]@));
            }
        }
        Ok(out)
    }

    /// Deletes the records whose `field` holds `value`: each found record is
    /// written again to the active segment as a tombstone, its primary key
    /// leaves the indexes, and `value` leaves the index of `field`. Returns the
    /// tombstones. The field and the value are validated as for a find.
    #[verifier::spinoff_prover]
    pub fn delete_by_field(&mut self, field: &String, value: &crate::record::RecordValue) -> (r: Result<
        Vec<Record>,
        DBError,
    >)
        requires
            old(self).wf(),
        ensures
            final(self).wf(),
            final(self).spec_config() == old(self).spec_config(),
            has_field(old(self).spec_config().fields@, field@) && !query_value_ok(
                old(self).spec_config().fields@[field_position(old(self).spec_config(), field@)].1,
                value@,
            ) ==> r is Err && r->Err_0 is ValidationError,
            has_field(old(self).spec_config().fields@, field@) && old(self).indexed(field@) && query_value_ok(
                old(self).spec_config().fields@[field_position(old(self).spec_config(), field@)].1,
                value@,
            ) && (old(self).spec_config().read_consistency == ReadConsistency::Eventual || old(self).at_end())
                && room_for(old(self).segs()[old(self).active_num() - 1], old(self).tombstones_for(field@, index_key_of(value@)->Some_0))
                ==> r is Ok,
            r is Ok && (old(self).spec_config().read_consistency == ReadConsistency::Eventual || old(self).at_end())
                ==> r->Ok_0@.map_values(|x: Record| x@) == old(self).tombstones_for(field@, index_key_of(value@)->Some_0),
            r is Ok ==> forall|i: int|
                0 <= i < r->Ok_0@.len() ==> record_key((#[trigger] r->Ok_0@[i])@, field_position(old(self).spec_config(), field@)) == Some(index_key_of(value@)->Some_0)
                    && exists|lk: u64| old(self).stored(lk) is Some && old(self).stored(lk)->Some_0.values == r->Ok_0@[i]@.values,
            r is Ok ==> old(self).segs()[old(self).active_num() - 1].data@ + encoded_concat(r->Ok_0@.map_values(|x: Record| x@))
                == final(self).segs()[old(self).active_num() - 1].data@,
            r is Ok ==> old(self).segs()[old(self).active_num() - 1].metadata@ + appended_rows(
                old(self).segs()[old(self).active_num() - 1].data@.len() as int,
                r->Ok_0@.map_values(|x: Record| x@),
            ) == final(self).segs()[old(self).active_num() - 1].metadata@,
            !has_field(old(self).spec_config().fields@, field@) ==> r == Err::<Vec<Record>, DBError>(
                DBError::ValidationError(ValidationErrorKind::UnknownField),
            ),
            !old(self).indexed(field@) ==> r is Err && r->Err_0 is ValidationError,
            r is Err && r->Err_0 is ValidationError ==> *final(self) == *old(self),
            r is Ok && (old(self).at_end() || old(self).spec_config().read_consistency == ReadConsistency::Eventual)
                ==> forall|w: IndexKey| w != index_key_of(value@)->Some_0 ==> #[trigger] final(self).index_entry(field@, w)
                == old(self).index_entry(field@, w),
            r is Ok ==> index_key_of(value@) is Some && final(self).lookup(field@, index_key_of(value@)->Some_0)
                == Seq::<u64>::empty(),
            r is Ok ==> final(self).segs().len() == old(self).segs().len() && final(self).segment_rows(old(self).active_num())
                == old(self).segment_rows(old(self).active_num()) + r->Ok_0@.len(),
            r is Ok ==> forall|lk: u64| #[trigger] old(self).stored(lk) is Some ==> final(self).stored(lk) == old(self).stored(lk),
            r is Ok ==> forall|i: int| 0 <= i < r->Ok_0@.len() ==> (#[trigger] r->Ok_0@[i])@.tombstone
                && final(self).stored(pack_log_key(old(self).active_num() as u16, (old(self).segment_rows(old(self).active_num()) + i) as u64))
                == Some(r->Ok_0@[i]@)
                && !final(self).primary_map().contains_key(record_key(r->Ok_0@[i]@, old(self).pk_index())->Some_0),
            r is Ok && (old(self).at_end() || old(self).spec_config().read_consistency == ReadConsistency::Strong)
                ==> final(self).at_end(),
    {
        let mut values: Vec<crate::record::RecordValue> = Vec::new();
        values.push(value.duplicate());
        let mut found = match self.batch_find_by_records(field, &values) {
            Ok(v) => v,
            Err(e) => {
                return Err(e);
            },
        };
        assert(values@[0]@ == value@);
        let key = match value.as_indexable() {
            Some(k) => k,
            None => {
                return Err(DBError::ConsistencyError(ConsistencyErrorKind::UnindexableRecord));
            },
        };
        let ghost mid = *self;
        let ghost tv = found@.map_values(|p: (usize, Record)| RecordView { values: p.1@.values, tombstone: true });
        proof {
            let ks = values@.map_values(|v: crate::record::RecordValue| index_key_of(v@)->Some_0);
            assert(ks =~= seq![key@]);
            let tl = self.tagged_lookup(field@, seq![key@]);
            assert(self.tagged_lookup(field@, ks) == tl);
            assert(found@.len() == tl.len());
            assert forall|i: int| 0 <= i < found@.len() implies (#[trigger] found@[i]).0 == tl[i].0 && self.stored(tl[i].1)
                == Some(found@[i].1@) by {}
            assert forall|i: int| 0 <= i < found@.len() implies record_key(
                (#[trigger] found@[i]).1@,
                field_position(self.spec_config(), field@),
            ) == Some(key@) by {
                assert(found@[i].0 < 1);
                assert(index_key_of(values@[found@[i].0 as int]@) == Some(key@));
            }
            assert(self.indexed(field@));
            assert(has_field(self.spec_config().fields@, field@));
        }
        let r = self.delete_found(field, &key, found);
        proof {
            assert(mid.segs() == old(self).segs());
            assert(mid.spec_config() == old(self).spec_config());
            assert(key@ == index_key_of(value@)->Some_0);
            assert(mid.active_num() == old(self).active_num());
            assert(mid.segment_rows(mid.active_num()) == old(self).segment_rows(old(self).active_num()));
            assert(mid.pk_index() == old(self).pk_index());
            let tl = mid.tagged_lookup(field@, seq![key@]);
            if r is Ok {
                assert forall|lk: u64| #[trigger] old(self).stored(lk) is Some implies self.stored(lk) == old(self).stored(lk) by {
                    assert(mid.stored(lk) == old(self).stored(lk));
                }
                let out = r->Ok_0@;
                assert forall|i: int| 0 <= i < out.len() implies record_key((#[trigger] out[i])@, field_position(old(self).spec_config(), field@))
                    == Some(key@) && exists|lk: u64| old(self).stored(lk) is Some && old(self).stored(lk)->Some_0.values == out[i]@.values by {
                    assert(out.map_values(|x: Record| x@)[i] == tv[i]);
                    assert(mid.stored(tl[i].1) == old(self).stored(tl[i].1));
                }
            }
            mid.lemma_tagged_single(field@, key@);
            if old(self).spec_config().read_consistency == ReadConsistency::Eventual || old(self).at_end() {
                assert(mid == *old(self));
                assert(tv =~= old(self).tombstones_for(field@, key@)) by {
                    assert forall|i: int| 0 <= i < tv.len() implies tv[i] == old(self).tombstones_for(field@, key@)[i] by {
                        assert(tl[i].1 == old(self).lookup(field@, key@)[i]);
                    }
                }
            }
        }
        r
    }

    /// The tombstones of the records that the index of `name` holds for `k`.
    pub open spec fn tombstones_for(&self, name: Seq<char>, k: IndexKey) -> Seq<RecordView> {
        self.lookup(name, k).map_values(
            |lk: u64| RecordView { values: self.stored(lk)->Some_0.values, tombstone: true },
        )
    }

    /// The pairs of a lookup of one key are its log keys, each tagged 0.
    pub proof fn lemma_tagged_single(&self, name: Seq<char>, k: IndexKey)
        ensures
            self.tagged_lookup(name, seq![k]) == self.lookup(name, k).map_values(|lk: u64| (0usize, lk)),
    {
        let keys = seq![k];
        assert(keys.drop_last() =~= Seq::<IndexKey>::empty());
        assert(self.tagged_lookup(name, keys.drop_last()) =~= Seq::<(usize, u64)>::empty());
        assert(self.tagged_lookup(name, keys) =~= self.lookup(name, k).map_values(|lk: u64| (0usize, lk)));
    }

    /// The part of a delete after the find: tombstones for the found records,
    /// then their keys and `key` leave the indexes.
    fn delete_found(&mut self, field: &String, key: &IndexableValue, found: Vec<(usize, Record)>) -> (r: Result<Vec<Record>, DBError>)
        requires
            old(self).wf(),
            old(self).indexed(field@),
            has_field(old(self).spec_config().fields@, field@),
            found@.len() == old(self).tagged_lookup(field@, seq![key@]).len(),
            forall|i: int|
                0 <= i < found@.len() ==> (#[trigger] found@[i]).0 == old(self).tagged_lookup(field@, seq![key@])[i].0
                    && old(self).stored(old(self).tagged_lookup(field@, seq![key@])[i].1) == Some(found@[i].1@),
            forall|i: int|
                0 <= i < found@.len() ==> record_key((#[trigger] found@[i]).1@, field_position(old(self).spec_config(), field@))
                    == Some(key@),
        ensures
            final(self).wf(),
            final(self).spec_config() == old(self).spec_config(),
            r is Err ==> r->Err_0 is ConsistencyError,
            r is Ok ==> forall|w: IndexKey| w != key@ ==> #[trigger] final(self).index_entry(field@, w)
                == old(self).index_entry(field@, w),
            r is Ok ==> ({
                let a = old(self).active_num();
                let rows = old(self).segment_rows(a);
                &&& final(self).segs().len() == old(self).segs().len()
                &&& final(self).segment_rows(a) == rows + r->Ok_0@.len()
                &&& forall|lk: u64| #[trigger] old(self).stored(lk) is Some ==> final(self).stored(lk) == old(self).stored(lk)
                &&& forall|i: int| 0 <= i < r->Ok_0@.len() ==> (#[trigger] r->Ok_0@[i])@.tombstone
                    && final(self).stored(pack_log_key(a as u16, (rows + i) as u64)) == Some(r->Ok_0@[i]@)
                    && !final(self).primary_map().contains_key(record_key(r->Ok_0@[i]@, old(self).pk_index())->Some_0)
                &&& final(self).lookup(field@, key@) == Seq::<u64>::empty()
                &&& old(self).at_end() ==> final(self).at_end()
                &&& r->Ok_0@.map_values(|x: Record| x@) == found@.map_values(|p: (usize, Record)| RecordView { values: p.1@.values, tombstone: true })
                &&& final(self).segs()[a - 1].data@ == old(self).segs()[a - 1].data@ + encoded_concat(found@.map_values(|p: (usize, Record)| RecordView { values: p.1@.values, tombstone: true }))
                &&& final(self).segs()[a - 1].metadata@ == old(self).segs()[a - 1].metadata@ + appended_rows(
                    old(self).segs()[a - 1].data@.len() as int,
                    found@.map_values(|p: (usize, Record)| RecordView { values: p.1@.values, tombstone: true }),
                )
            }),
            room_for(old(self).segs()[old(self).active_num() - 1], found@.map_values(|p: (usize, Record)| RecordView { values: p.1@.values, tombstone: true })) ==> r is Ok,
    {
        let ghost mid = *self;
        let ghost orig = found@;
        let was_at_end = {
            let n_seg = self.segments.len();
            self.refresh_next_logkey.segment_num() as usize == n_seg
                && self.refresh_next_logkey.index() == self.segment_row_count(n_seg)
        };
        let recs = match self.write_tombstones(found) {
            Ok(recs) => recs,
            Err(e) => {
                return Err(e);
            },
        };
        proof {
            Engine::lemma_found_deleted_ok(&mid, field@, key@, orig, recs@.map_values(|x: Record| x@));
            assert forall|y: int| 0 <= y < recs@.len() implies #[trigger] mid.deleted_ok(field@, key@, recs@[y]@, mid.tagged_lookup(field@, seq![key@])[y].1) by {
                assert(recs@.map_values(|x: Record| x@)[y] == recs@[y]@);
            }
        }
        if let Err(e) = self.drop_deleted(field, key, &recs, Ghost(mid), Ghost(mid.tagged_lookup(field@, seq![key@]).map_values(|p: (usize, u64)| p.1))) {
            return Err(e);
        }
        let ghost dropped = *self;
        if was_at_end {
            let n_seg = self.segments.len();
            let end = self.segment_row_count(n_seg);
            self.move_cursor(n_seg, end);
        }
        proof {
            assert forall|w: IndexKey| w != key@ implies #[trigger] self.index_entry(field@, w) == mid.index_entry(field@, w) by {
                assert(dropped.index_entry(field@, w) == mid.index_entry(field@, w));
            }
            assert(self.lookup(field@, key@) == dropped.lookup(field@, key@));
        }
        Ok(recs)
    }

    /// Appends records to the active segment, in order, as record `j` at row
    /// `rows + j`, where `rows` is the number of rows it had; the indexes are
    /// left as they are. Returns the records' log keys.
    fn write_records(&mut self, records: &Vec<Record>) -> (r: Result<Vec<LogKey>, DBError>)
        requires
            old(self).wf(),
        ensures
            final(self).wf(),
            r is Err ==> r->Err_0 is ConsistencyError,
            final(self).spec_config() == old(self).spec_config(),
            final(self).primary_memtable == old(self).primary_memtable,
            final(self).secondary_memtables == old(self).secondary_memtables,
            final(self).config == old(self).config,
            final(self).primary_key_index == old(self).primary_key_index,
            final(self).secondary_key_indexes == old(self).secondary_key_indexes,
            final(self).refresh_next_logkey == old(self).refresh_next_logkey,
            final(self).segs().len() == old(self).segs().len(),
            forall|i: int| 0 <= i < old(self).active_num() - 1 ==> #[trigger] final(self).segs()[i] == old(self).segs()[i],
            forall|lk: u64| #[trigger] old(self).stored(lk) is Some ==> final(self).stored(lk) == old(self).stored(lk),
            r is Ok ==> ({
                let a = old(self).active_num();
                let rows = old(self).segment_rows(a);
                &&& r->Ok_0@.len() == records@.len()
                &&& final(self).segment_rows(a) == rows + records@.len()
                &&& forall|i: int| 0 <= i < records@.len() ==> (#[trigger] r->Ok_0@[i])@ == pack_log_key(a as u16, (rows + i) as u64)
                &&& forall|i: int| 0 <= i < records@.len() ==> final(self).stored(
                    pack_log_key(a as u16, (rows + i) as u64),
                ) == Some((#[trigger] records@[i])@)
                &&& final(self).segs()[a - 1].data@ == old(self).segs()[a - 1].data@ + encoded_concat(
                    records@.map_values(|x: Record| x@),
                )
                &&& final(self).segs()[a - 1].metadata@ == old(self).segs()[a - 1].metadata@ + appended_rows(
                    old(self).segs()[a - 1].data@.len() as int,
                    records@.map_values(|x: Record| x@),
                )
            }),
            room_for(old(self).segs()[old(self).active_num() - 1], records@.map_values(|x: Record| x@)) ==> r is Ok,
    {
        let ghost recs = records@.map_values(|x: Record| x@);
        let ghost a = self.segments@.len() as int;
        let ghost rows = self.segment_rows(a);
        let ghost before = *self;
        let mut encoded: Vec<Vec<u8>> = Vec::new();
        let mut k: usize = 0;
        while k < records.len()
            invariant
                k <= records@.len(),
                encoded@.len() == k,
                recs == records@.map_values(|x: Record| x@),
                forall|x: int| 0 <= x < k ==> (#[trigger] encoded@[x])@ == crate::record::encode_record(recs[x])
                    && crate::record::record_fits(recs[x]),
            decreases records@.len() - k,
        {
            assert(recs[k as int] == records@[k as int]@);
            encoded.push(records[k].serialize());
            k = k + 1;
        }
        let active_num = self.segments.len();
        let mut active = self.segments.pop().unwrap();
        assert(self.segments@ =~= before.segments@.drop_last());
        assert(active.spec_ok() && active.rows() < index_limit());
        assert(encoded@.len() == recs.len());
        let lks = match append_all(&mut active, active_num as u16, &encoded, Ghost(recs)) {
            Ok(lks) => lks,
            Err(e) => {
                self.segments.push(active);
                proof {
                    self.lemma_replaced_active_wf(&before, a);
                }
                return Err(e);
            },
        };
        self.segments.push(active);
        proof {
            self.lemma_replaced_active_wf(&before, a);
            lemma_stored_after_append(before.segs(), self.segs(), a, rows);
            assert forall|j: int| 0 <= j < records@.len() implies self.stored(
                pack_log_key(a as u16, (rows + j) as u64),
            ) == Some((#[trigger] records@[j])@) by {
                LogKey::lemma_pack(a as u16, (rows + j) as u64);
                assert(self.segs()[a - 1] == active);
                assert(recs[j] == records@[j]@);
            }
        }
        Ok(lks)
    }

    /// Writes a tombstone for each found record to the active segment: the
    /// record's values with the deletion flag set. Returns the tombstones.
    fn write_tombstones(&mut self, found: Vec<(usize, Record)>) -> (r: Result<Vec<Record>, DBError>)
        requires
            old(self).wf(),
        ensures
            final(self).wf(),
            r is Err ==> r->Err_0 is ConsistencyError,
            final(self).spec_config() == old(self).spec_config(),
            final(self).primary_memtable == old(self).primary_memtable,
            final(self).secondary_memtables == old(self).secondary_memtables,
            final(self).config == old(self).config,
            final(self).primary_key_index == old(self).primary_key_index,
            final(self).secondary_key_indexes == old(self).secondary_key_indexes,
            final(self).refresh_next_logkey == old(self).refresh_next_logkey,
            final(self).segs().len() == old(self).segs().len(),
            forall|lk: u64| #[trigger] old(self).stored(lk) is Some ==> final(self).stored(lk) == old(self).stored(lk),
            r is Ok ==> ({
                let a = old(self).active_num();
                let rows = old(self).segment_rows(a);
                &&& r->Ok_0@.len() == found@.len()
                &&& final(self).segment_rows(a) == rows + found@.len()
                &&& forall|i: int| 0 <= i < found@.len() ==> (#[trigger] r->Ok_0@[i])@ == (RecordView { values: found@[i].1@.values, tombstone: true })
                    && final(self).stored(pack_log_key(a as u16, (rows + i) as u64)) == Some(r->Ok_0@[i]@)
                &&& r->Ok_0@.map_values(|x: Record| x@) == found@.map_values(|p: (usize, Record)| RecordView { values: p.1@.values, tombstone: true })
                &&& final(self).segs()[a - 1].data@ == old(self).segs()[a - 1].data@ + encoded_concat(found@.map_values(|p: (usize, Record)| RecordView { values: p.1@.values, tombstone: true }))
                &&& final(self).segs()[a - 1].metadata@ == old(self).segs()[a - 1].metadata@ + appended_rows(
                    old(self).segs()[a - 1].data@.len() as int,
                    found@.map_values(|p: (usize, Record)| RecordView { values: p.1@.values, tombstone: true }),
                )
            }),
            room_for(old(self).segs()[old(self).active_num() - 1], found@.map_values(|p: (usize, Record)| RecordView { values: p.1@.values, tombstone: true })) ==> r is Ok,
    {
        let mut found = found;
        let ghost orig = found@;
        let n_found = found.len();
        let mut recs: Vec<Record> = Vec::new();
        let mut i: usize = 0;
        while found.len() > 0
            invariant
                n_found == orig.len(),
                i <= orig.len(),
                found@ == orig.skip(i as int),
                recs@.len() == i,
                forall|x: int| 0 <= x < i ==> (#[trigger] recs@[x])@ == (RecordView { values: orig[x].1@.values, tombstone: true }),
            decreases found@.len(),
        {
            assert(found@[0] == orig[i as int]);
            let (_, mut rec) = found.remove(0);
            rec.tombstone = true;
            recs.push(rec);
            i = i + 1;
            assert(found@ =~= orig.skip(i as int));
        }
        assert(recs@.map_values(|x: Record| x@) =~= orig.map_values(|p: (usize, Record)| RecordView { values: p.1@.values, tombstone: true }));
        match self.write_records(&recs) {
            Ok(_) => {},
            Err(e) => {
                return Err(e);
            },
        }
        Ok(recs)
    }

    /// What the index of field `name` holds for `w`, as a set of log keys.
    pub open spec fn index_entry(&self, name: Seq<char>, w: IndexKey) -> Option<Set<u64>> {
        if name == self.spec_config().primary_key@ {
            if self.primary_map().contains_key(w) {
                Some(set![self.primary_map()[w]])
            } else {
                None
            }
        } else if has_name(self.spec_config().secondary_keys@, name) {
            let j = choose|j: int| is_first_name(self.spec_config().secondary_keys@, name, j);
            if self.secondary_map(j).contains_key(w) {
                Some(self.secondary_map(j)[w])
            } else {
                None
            }
        } else {
            None
        }
    }

    /// A lookup yields exactly the log keys of the index entry.
    pub proof fn lemma_lookup_entry(&self, name: Seq<char>, w: IndexKey)
        requires
            self.wf(),
        ensures
            self.lookup(name, w).to_set() == (match self.index_entry(name, w) {
                Some(set) => set,
                None => Set::<u64>::empty(),
            }),
    {
        let c = self.spec_config();
        let l = self.lookup(name, w);
        if name == c.primary_key@ {
            if self.primary_map().contains_key(w) {
                assert(l.to_set() =~= set![self.primary_map()[w]]) by {
                    assert(l[0] == self.primary_map()[w]);
                }
            } else {
                assert(l.to_set() =~= Set::<u64>::empty());
            }
        } else if has_name(c.secondary_keys@, name) {
            let v = choose|v: int| 0 <= v < c.secondary_keys@.len() && (#[trigger] c.secondary_keys@[v])@ == name;
            lemma_first_name_exists(c.secondary_keys@, name, v);
            let j = choose|j: int| is_first_name(c.secondary_keys@, name, j);
            assert(0 <= j < self.secondary_memtables@.len());
            assert(self.secondary_memtables@[j].wf());
            self.secondary_memtables@[j].lemma_keys_of(w);
            let m = self.secondary_map(j);
            if m.contains_key(w) {
                assert(l.to_set() =~= m[w]);
            } else {
                assert(l.to_set() =~= Set::<u64>::empty());
            }
        } else {
            assert(l.to_set() =~= Set::<u64>::empty());
        }
    }

    /// A record found for `k` through the index of `name`, at `lk`, as the
    /// delete needs it: through the primary index it holds `k` as its key;
    /// through a secondary index it holds `k` in that field and `lk` is what
    /// the primary index holds for its key.
    pub closed spec fn deleted_ok(&self, name: Seq<char>, k: IndexKey, rec: RecordView, lk: u64) -> bool {
        &&& record_key(rec, self.primary_key_index as int) is Some
        &&& if name == self.config.primary_key@ {
            record_key(rec, self.primary_key_index as int) == Some(k)
        } else {
            let j = choose|j: int| is_first_name(self.config.secondary_keys@, name, j);
            &&& 0 <= j < self.secondary_memtables@.len()
            &&& record_key(rec, self.secondary_key_indexes@[j] as int) == Some(k)
            &&& self.primary_memtable.spec_map().contains_key(record_key(rec, self.primary_key_index as int)->Some_0)
            &&& self.primary_memtable.spec_map()[record_key(rec, self.primary_key_index as int)->Some_0] == lk
            &&& match stored_at(self.segments@, lk) {
                Some(r) => r.values == rec.values,
                None => false,
            }
        }
    }

    /// The records a find of `k` through `name` returned satisfy `deleted_ok`.
    proof fn lemma_found_deleted_ok(mid: &Engine, name: Seq<char>, k: IndexKey, found: Seq<(usize, Record)>, recs: Seq<RecordView>)
        requires
            mid.wf(),
            mid.indexed(name),
            found.len() == mid.tagged_lookup(name, seq![k]).len(),
            forall|i: int|
                0 <= i < found.len() ==> (#[trigger] found[i]).0 == mid.tagged_lookup(name, seq![k])[i].0 && mid.stored(
                    mid.tagged_lookup(name, seq![k])[i].1,
                ) == Some(found[i].1@),
            forall|i: int|
                0 <= i < found.len() ==> record_key((#[trigger] found[i]).1@, field_position(mid.spec_config(), name))
                    == Some(k),
            recs.len() == found.len(),
            forall|i: int|
                0 <= i < found.len() ==> #[trigger] recs[i] == (RecordView { values: found[i].1@.values, tombstone: true }),
        ensures
            forall|y: int| 0 <= y < recs.len() ==> #[trigger] mid.deleted_ok(name, k, recs[y], mid.tagged_lookup(name, seq![k])[y].1),
    {
        let tl = mid.tagged_lookup(name, seq![k]);
        assert forall|y: int| 0 <= y < recs.len() implies #[trigger] mid.deleted_ok(name, k, recs[y], tl[y].1) by {
            assert(recs[y] == RecordView { values: found[y].1@.values, tombstone: true });
            mid.lemma_tagged_lookup_member(name, seq![k], y);
            assert(seq![k][tl[y].0 as int] == k);
            mid.lemma_deleted_ok(name, k, tl[y].1, found[y].1@, recs[y]);
        }
    }

    proof fn lemma_deleted_ok(&self, name: Seq<char>, k: IndexKey, lk: u64, found: RecordView, rec: RecordView)
        requires
            self.wf(),
            self.indexed(name),
            self.lookup(name, k).contains(lk),
            self.stored(lk) == Some(found),
            record_key(found, field_position(self.spec_config(), name)) == Some(k),
            rec.values == found.values,
        ensures
            self.deleted_ok(name, k, rec, lk),
    {
        let c = self.spec_config();
        assert(forall|x: int| #[trigger] record_key(rec, x) == record_key(found, x));
        if name == c.primary_key@ {
            lemma_first_field_unique(c.fields@, name, field_position(c, name), self.primary_key_index as int);
        } else {
            let w = choose|w: int| 0 <= w < c.secondary_keys@.len() && (#[trigger] c.secondary_keys@[w])@ == name;
            lemma_first_name_exists(c.secondary_keys@, name, w);
            let j = choose|j: int| is_first_name(c.secondary_keys@, name, j);
            assert(0 <= j < self.secondary_memtables@.len());
            assert(self.lookup(name, k) == self.secondary_keys_of(j, k));
            assert(self.secondary_memtables@[j].wf());
            self.secondary_memtables@[j].lemma_keys_of(k);
            assert(self.sec_has(j, k, lk));
            reveal(Engine::secondary_consistent);
            assert(self.sec_entry_ok(j, k, lk));
        }
    }

    /// After the tombstones of a delete are written: drops the deleted
    /// records' keys from the indexes, then `key` from the index of `field`.
    /// The entries of the other values of that index stay as they were.
    fn drop_deleted(&mut self, field: &String, key: &IndexableValue, recs: &Vec<Record>, Ghost(mid): Ghost<Engine>, Ghost(lks): Ghost<Seq<u64>>) -> (r: Result<(), DBError>)
        requires
            old(self).wf(),
            mid.wf(),
            old(self).primary_memtable == mid.primary_memtable,
            old(self).secondary_memtables == mid.secondary_memtables,
            old(self).config == mid.config,
            old(self).primary_key_index == mid.primary_key_index,
            old(self).secondary_key_indexes == mid.secondary_key_indexes,
            forall|lk: u64| #[trigger] mid.stored(lk) is Some ==> old(self).stored(lk) == mid.stored(lk),
            mid.indexed(field@),
            lks.len() >= recs@.len(),
            forall|y: int| 0 <= y < recs@.len() ==> #[trigger] mid.deleted_ok(field@, key@, recs@[y]@, lks[y]),
        ensures
            final(self).wf(),
            r is Ok,
            r is Err ==> r->Err_0 is ConsistencyError,
            final(self).segs() == old(self).segs(),
            final(self).spec_config() == old(self).spec_config(),
            final(self).pk_index() == old(self).pk_index(),
            final(self).cursor() == old(self).cursor(),
            r is Ok ==> forall|y: int| 0 <= y < recs@.len() ==> record_key((#[trigger] recs@[y])@, old(self).pk_index()) is Some
                && !final(self).primary_map().contains_key(record_key(recs@[y]@, old(self).pk_index())->Some_0),
            r is Ok ==> final(self).lookup(field@, key@) == Seq::<u64>::empty(),
            r is Ok ==> forall|w: IndexKey| w != key@ ==> #[trigger] final(self).index_entry(field@, w) == mid.index_entry(field@, w),
    {
        let ghost is_pk = field@ == mid.config.primary_key@;
        let ghost j = choose|j: int| is_first_name(mid.config.secondary_keys@, field@, j);
        let mut x: usize = 0;
        while x < recs.len()
            invariant
                self.wf(),
                x <= recs@.len(),
                self.segs() == old(self).segs(),
                self.spec_config() == old(self).spec_config(),
                self.pk_index() == old(self).pk_index(),
                self.cursor() == old(self).cursor(),
                self.sk_indexes() == old(self).sk_indexes(),
                self.secondary_memtables@.len() == mid.secondary_memtables@.len(),
                mid.wf(),
                mid.config == old(self).config,
                mid.primary_key_index == old(self).primary_key_index,
                mid.secondary_key_indexes == old(self).secondary_key_indexes,
                forall|lk: u64| #[trigger] mid.stored(lk) is Some ==> self.stored(lk) == mid.stored(lk),
                lks.len() >= recs@.len(),
                forall|y: int| 0 <= y < recs@.len() ==> #[trigger] mid.deleted_ok(field@, key@, recs@[y]@, lks[y]),
                is_pk == (field@ == mid.config.primary_key@),
                j == choose|j: int| is_first_name(mid.config.secondary_keys@, field@, j),
                forall|w: IndexKey| #[trigger] self.primary_map().contains_key(w) ==> mid.primary_map().contains_key(w)
                    && self.primary_map()[w] == mid.primary_map()[w],
                forall|w: IndexKey| w != key@ ==> #[trigger] self.index_entry(field@, w) == mid.index_entry(field@, w),
                forall|y: int| 0 <= y < x ==> record_key((#[trigger] recs@[y])@, old(self).pk_index()) is Some
                    && !self.primary_map().contains_key(record_key(recs@[y]@, old(self).pk_index())->Some_0),
            decreases recs@.len() - x,
        {
            let ghost before = *self;
            let ghost rec = recs@[x as int]@;
            assert(mid.deleted_ok(field@, key@, rec, lks[x as int]));
            let res = self.remove_record_from_memtables(&recs[x]);
            proof {
                let pk = record_key(rec, self.pk_index())->Some_0;
                assert(res is Ok);
                assert forall|w: IndexKey| w != key@ implies #[trigger] self.index_entry(field@, w) == mid.index_entry(field@, w) by {
                    assert(before.index_entry(field@, w) == mid.index_entry(field@, w));
                    if is_pk {
                        assert(pk == key@);
                        if self.primary_map().contains_key(w) {
                            assert(before.primary_map().contains_key(w));
                        }
                    } else {
                        if before.primary_map().contains_key(pk) {
                            let prev = before.primary_map()[pk];
                            assert(prev == lks[x as int]);
                            assert(mid.stored(prev) is Some);
                            assert(before.stored(prev) == mid.stored(prev));
                            assert(record_key(before.stored(prev)->Some_0, before.sk_indexes()[j] as int) == record_key(rec, before.sk_indexes()[j] as int));
                            assert(self.secondary_map(j) == sec_remove(before.secondary_map(j), key@, prev));
                        } else {
                            assert(self.secondary_map(j) == before.secondary_map(j));
                        }
                    }
                }
            }
            if let Err(e) = res {
                return Err(e);
            }
            x = x + 1;
        }
        if *field == self.config.primary_key {
            let ghost before = *self;
            let _ = self.remove_primary_key(key);
            proof {
                assert forall|w: IndexKey| w != key@ implies #[trigger] self.index_entry(field@, w) == mid.index_entry(field@, w) by {
                    assert(before.index_entry(field@, w) == mid.index_entry(field@, w));
                }
            }
        } else {
            match find_name(&self.config.secondary_keys, field) {
                Some(jj) => {
                    let ghost before = *self;
                    self.drop_secondary_key(jj, key);
                    proof {
                        let c = choose|c: int| is_first_name(self.spec_config().secondary_keys@, field@, c);
                        if c < jj {
                            assert(self.config.secondary_keys@[c]@ != field@);
                        } else if c > jj {
                            assert(self.config.secondary_keys@[jj as int]@ != field@);
                        }
                        assert(self.secondary_keys_of(jj as int, key@) == Seq::<u64>::empty());
                        assert forall|w: IndexKey| w != key@ implies #[trigger] self.index_entry(field@, w) == mid.index_entry(field@, w) by {
                            assert(before.index_entry(field@, w) == mid.index_entry(field@, w));
                        }
                    }
                },
                None => {},
            }
        }
        Ok(())
    }

    /// The records of the active segment's rows, in order.
    pub open spec fn active_records(&self) -> Seq<RecordView> {
        let a = self.active_num();
        Seq::new(self.segment_rows(a) as nat, |i: int| self.stored(pack_log_key(a as u16, i as u64))->Some_0)
    }

    /// The primary keys of the active segment's records, in order.
    pub open spec fn active_key_seq(&self) -> Seq<IndexKey> {
        Seq::new(
            self.active_records().len(),
            |i: int| record_key(self.active_records()[i], self.pk_index())->Some_0,
        )
    }

    /// What compaction keeps of the active segment: the last record of each
    /// primary key, in row order.
    pub open spec fn compacted_records(&self) -> Seq<RecordView> {
        survivors(self.active_key_seq(), self.active_records(), self.segment_rows(self.active_num()))
    }

    /// Row `i` of the active segment of `prior` now holds the record of the
    /// last row of `prior` with the same key.
    pub open spec fn row_compacted(&self, prior: &Engine, keys: Seq<IndexKey>, i: int) -> bool {
        let a = prior.active_num();
        exists|j: int|
            #[trigger] is_last_with_key(keys, i, j) && self.stored(pack_log_key(a as u16, i as u64)) == prior.stored(
                pack_log_key(a as u16, j as u64),
            )
    }

    /// The keys of the primary-key field of the active segment's records.
    pub open spec fn active_keys(&self, keys: Seq<IndexKey>) -> bool {
        let a = self.active_num();
        &&& keys.len() == self.segment_rows(a)
        &&& forall|i: int|
            0 <= i < keys.len() ==> match #[trigger] self.stored(pack_log_key(a as u16, i as u64)) {
                Some(r) => record_key(r, self.pk_index()) == Some(keys[i]),
                None => false,
            }
    }

    /// Compacts the active segment and starts the next one. The compacted data
    /// file, named by `compacted_uuid`, holds the last record of each primary
    /// key once; the rewritten metadata keeps one row per row it had, in
    /// order, each pointing at the last record with that row's key. A new
    /// empty segment named by `next_uuid` becomes active, and the indexes are
    /// rebuilt from the log.
    #[verifier::spinoff_prover]
    #[verifier::rlimit(40)]
    pub fn rotate_and_compact(&mut self, compacted_uuid: [u8; 16], next_uuid: [u8; 16]) -> (r: Result<(), DBError>)
        requires
            old(self).wf(),
        ensures
            final(self).wf(),
            final(self).spec_config() == old(self).spec_config(),
            r is Err ==> r->Err_0 is ConsistencyError,
            r is Ok ==> ({
                let a = old(self).active_num();
                &&& final(self).segs().len() == a + 1
                &&& forall|i: int| 0 <= i < a - 1 ==> #[trigger] final(self).segs()[i] == old(self).segs()[i]
                &&& final(self).segs()[a - 1].metadata@.len() == old(self).segs()[a - 1].metadata@.len()
                &&& final(self).segs()[a - 1].metadata@.subrange(8, 24) == compacted_uuid@
                &&& final(self).segs()[a].metadata@ == header_bytes(METADATA_VERSION, next_uuid@)
                &&& final(self).segs()[a].data@.len() == 0
                &&& final(self).at_end()
                &&& exists|keys: Seq<IndexKey>| #[trigger] old(self).active_keys(keys)
                    && forall|i: int| 0 <= i < keys.len() ==> #[trigger] final(self).row_compacted(old(self), keys, i)
                &&& final(self).segs()[a - 1].data@ == encoded_concat(old(self).compacted_records())
            }),
            old(self).active_num() < 0xFFFF && log_replayable(old(self).segs(), old(self).pk_index())
                && encoded_concat(old(self).compacted_records()).len() <= usize::MAX ==> r is Ok,
    {
        let a = self.segments.len();
        if a >= 0xFFFF {
            return Err(DBError::ConsistencyError(ConsistencyErrorKind::SegmentFull));
        }
        let n = self.segment_row_count(a);
        let ghost old_seg = self.segments@[a - 1];
        assert(old_seg.spec_ok());
        let meta_len = self.segments[a - 1].metadata.len();
        assert(meta_len == 24 + 16 * n) by {
            assert(crate::segment::metadata_size_ok(meta_len as int));
        }
        let mut recs: Vec<Record> = Vec::new();
        let mut keys: Vec<IndexableValue> = Vec::new();
        let mut i: u64 = 0;
        while i < n
            invariant
                self == old(self),
                self.wf(),
                a == self.segs().len(),
                old_seg == self.segments@[a - 1],
                n == old_seg.rows(),
                i <= n,
                recs@.len() == i,
                keys@.len() == i,
                forall|x: int| 0 <= x < i ==> stored_record(old_seg.metadata@, old_seg.data@, x) == Some(#[trigger] recs@[x]@),
                forall|x: int| 0 <= x < i ==> record_key(recs@[x]@, self.pk_index()) == Some(#[trigger] keys@[x]@),
            decreases n - i,
        {
            proof {
                LogKey::lemma_pack(a as u16, i);
                assert(stored_at(self.segs(), pack_log_key(a as u16, i)) == stored_record(
                    old_seg.metadata@,
                    old_seg.data@,
                    i as int,
                ));
            }
            let rec = match self.segments[a - 1].read(i) {
                Ok(rec) => rec,
                Err(e) => {
                    assert(!log_replayable(old(self).segs(), old(self).pk_index())) by {
                        if log_replayable(old(self).segs(), old(self).pk_index()) {
                            let s0: int = a as int;
                            let i0: int = i as int;
                            assert(1 <= s0 <= old(self).segs().len() && 0 <= i0 < old(self).segs()[s0 - 1].rows());
                            assert(stored_at(old(self).segs(), pack_log_key(s0 as u16, i0 as u64)) is Some);
                        }
                    }
                    return Err(e);
                },
            };
            let k = match key_of(&rec, self.primary_key_index) {
                Some(k) => k,
                None => {
                    assert(!log_replayable(old(self).segs(), old(self).pk_index())) by {
                        if log_replayable(old(self).segs(), old(self).pk_index()) {
                            let s0: int = a as int;
                            let i0: int = i as int;
                            assert(1 <= s0 <= old(self).segs().len() && 0 <= i0 < old(self).segs()[s0 - 1].rows());
                            assert(stored_at(old(self).segs(), pack_log_key(s0 as u16, i0 as u64)) is Some);
                        }
                    }
                    return Err(DBError::ConsistencyError(ConsistencyErrorKind::UnindexableRecord));
                },
            };
            recs.push(rec);
            keys.push(k);
            i = i + 1;
        }
        let ghost ks = keys@.map_values(|k: IndexableValue| k@);
        proof {
            assert forall|x: int| 0 <= x < ks.len() implies match #[trigger] old(self).stored(pack_log_key(a as u16, x as u64)) {
                Some(r) => record_key(r, old(self).pk_index()) == Some(ks[x]),
                None => false,
            } by {
                LogKey::lemma_pack(a as u16, x as u64);
                assert(old(self).segs()[a - 1] == old_seg);
                assert(stored_record(old_seg.metadata@, old_seg.data@, x) == Some(recs@[x]@));
                assert(record_key(recs@[x]@, self.pk_index()) == Some(keys@[x]@));
                assert(ks[x] == keys@[x]@);
            }
            assert(old(self).active_keys(ks));
            assert(ks =~= old(self).active_key_seq());
            assert(recs@.map_values(|r: Record| r@) =~= old(self).active_records());
        }
        let last = last_with_same_key(&keys);
        let compacted = match build_compacted(&recs, &last, Ghost(ks), compacted_uuid) {
            Ok(seg) => seg,
            Err(e) => {
                return Err(e);
            },
        };
        let ghost prior = *self;
        self.segments.set(a - 1, compacted);
        self.segments.push(Segment::create(next_uuid));
        self.primary_memtable = PrimaryMemtable::new();
        let mut j: usize = 0;
        let mut fresh: Vec<SecondaryMemtable> = Vec::new();
        while j < self.secondary_memtables.len()
            invariant
                j <= self.secondary_memtables@.len(),
                fresh@.len() == j,
                forall|z: int| 0 <= z < j ==> (#[trigger] fresh@[z]).wf(),
                forall|z: int| 0 <= z < j ==> (#[trigger] fresh@[z]).spec_map() == Map::<IndexKey, Set<u64>>::empty(),
            decreases self.secondary_memtables@.len() - j,
        {
            fresh.push(SecondaryMemtable::new());
            j = j + 1;
        }
        self.secondary_memtables = fresh;
        self.refresh_next_logkey = LogKey::new(1, 0);
        proof {
            self.lemma_sec_empty();
        }
        proof {
            if log_replayable(old(self).segs(), old(self).pk_index()) {
                assert forall|sg: int, ix: int| #[trigger] self.replay_range(sg, ix) implies self.row_replayable(sg, ix) by {
                    LogKey::lemma_pack(sg as u16, ix as u64);
                    if sg < a {
                        assert(self.segs()[sg - 1] == old(self).segs()[sg - 1]);
                        assert(stored_at(old(self).segs(), pack_log_key(sg as u16, ix as u64)) == self.stored(
                            pack_log_key(sg as u16, ix as u64),
                        ));
                    } else if sg == a {
                        assert(self.segs()[a - 1] == compacted);
                        let l = last@[ix] as int;
                        assert(is_last_with_key(ks, ix, l));
                        assert(record_key(recs@[l]@, self.pk_index()) == Some(keys@[l]@));
                    }
                }
            }
        }
        proof {
            assert forall|z: int| 0 <= z < self.segments@.len() implies (#[trigger] self.segments@[z]).spec_ok()
                && self.segments@[z].rows() < index_limit() by {
                if z < a - 1 {
                    assert(self.segments@[z] == prior.segments@[z]);
                }
            }
            assert forall|z: int| 0 <= z < n implies #[trigger] self.row_compacted(old(self), ks, z) by {
                LogKey::lemma_pack(a as u16, z as u64);
                let l = last@[z] as int;
                LogKey::lemma_pack(a as u16, l as u64);
                assert(is_last_with_key(ks, z, l));
                assert(self.segs()[a - 1] == compacted);
                assert(old(self).segs()[a - 1] == old_seg);
                assert(stored_record(old_seg.metadata@, old_seg.data@, l) == Some(recs@[l]@));
            }
        }
        let ghost mid = *self;
        assert(forall|z: int| 0 <= z < ks.len() ==> #[trigger] mid.row_compacted(old(self), ks, z));
        let res = self.refresh_indexes();
        match res {
            Ok(()) => {
                proof {
                    assert forall|z: int| 0 <= z < ks.len() implies #[trigger] self.row_compacted(old(self), ks, z) by {
                        assert(mid.row_compacted(old(self), ks, z));
                        let j = choose|j: int| #[trigger] is_last_with_key(ks, z, j) && mid.stored(pack_log_key(a as u16, z as u64))
                            == old(self).stored(pack_log_key(a as u16, j as u64));
                        assert(is_last_with_key(ks, z, j));
                    }
                    assert(old(self).active_keys(ks));
                    assert(self.segs()[a - 1] == compacted);
                }
                Ok(())
            },
            Err(e) => Err(e),
        }
    }

    /// Rotates and compacts the active segment once its metadata has reached
    /// the configured segment size; otherwise changes nothing.
    pub fn do_maintenance_tasks(&mut self, compacted_uuid: [u8; 16], next_uuid: [u8; 16]) -> (r: Result<(), DBError>)
        requires
            old(self).wf(),
        ensures
            final(self).wf(),
            final(self).spec_config() == old(self).spec_config(),
            r is Err ==> r->Err_0 is ConsistencyError,
            old(self).segs()[old(self).active_num() - 1].metadata@.len() < old(self).spec_config().segment_size
                ==> r is Ok && *final(self) == *old(self),
            r is Ok && old(self).segs()[old(self).active_num() - 1].metadata@.len() >= old(self).spec_config().segment_size ==> ({
                let a = old(self).active_num();
                &&& final(self).segs().len() == a + 1
                &&& forall|i: int| 0 <= i < a - 1 ==> #[trigger] final(self).segs()[i] == old(self).segs()[i]
                &&& final(self).segs()[a - 1].metadata@.len() == old(self).segs()[a - 1].metadata@.len()
                &&& final(self).segs()[a - 1].metadata@.subrange(8, 24) == compacted_uuid@
                &&& final(self).segs()[a - 1].data@ == encoded_concat(old(self).compacted_records())
                &&& final(self).segs()[a].metadata@ == header_bytes(METADATA_VERSION, next_uuid@)
                &&& final(self).segs()[a].data@.len() == 0
                &&& final(self).at_end()
            }),
            old(self).segs()[old(self).active_num() - 1].metadata@.len() >= old(self).spec_config().segment_size
                && old(self).active_num() < 0xFFFF && log_replayable(old(self).segs(), old(self).pk_index())
                && encoded_concat(old(self).compacted_records()).len() <= usize::MAX ==> r is Ok,
    {
        let a = self.segments.len();
        let size = self.segments[a - 1].metadata.len() as u64;
        if size >= self.config.segment_size {
            self.rotate_and_compact(compacted_uuid, next_uuid)
        } else {
            Ok(())
        }
    }

    /// Replaces the segments with the directory's current ones, as another
    /// handle may have appended to them or rotated them, and rebuilds the
    /// indexes from every record. Fails, changing nothing, when a segment is
    /// inconsistent or there are no segments.
    pub fn load_segments(&mut self, segments: Vec<Segment>) -> (r: Result<(), DBError>)
        requires
            old(self).wf(),
        ensures
            final(self).wf(),
            final(self).spec_config() == old(self).spec_config(),
            r is Err ==> r->Err_0 is ConsistencyError,
            (segments@.len() == 0 || exists|i: int| 0 <= i < segments@.len() && !(#[trigger] segments@[i]).spec_ok())
                ==> r is Err && *final(self) == *old(self),
            r is Ok ==> final(self).segs() == segments@ && final(self).at_end(),
            0 < segments@.len() < 0x1_0000 && (forall|i: int|
                0 <= i < segments@.len() ==> (#[trigger] segments@[i]).spec_ok() && segments@[i].rows()
                    < index_limit()) && log_replayable(segments@, old(self).pk_index()) ==> r is Ok,
    {
        let ghost given = segments@;
        if segments.len() == 0 {
            return Err(DBError::ConsistencyError(ConsistencyErrorKind::MissingSegment));
        }
        let mut k: usize = 0;
        while k < segments.len()
            invariant
                self == old(self),
                self.wf(),
                k <= segments@.len(),
                forall|i: int|
                    0 <= i < k ==> (#[trigger] segments@[i]).spec_ok() && segments@[i].rows() < index_limit(),
            decreases segments@.len() - k,
        {
            if let Err(e) = segments[k].check() {
                return Err(e);
            }
            let rows = (segments[k].metadata.len() - crate::segment::METADATA_FILE_HEADER_SIZE)
                / crate::segment::METADATA_ROW_LENGTH;
            if rows as u64 >= 0x1_0000_0000_0000u64 {
                return Err(DBError::ConsistencyError(ConsistencyErrorKind::SegmentFull));
            }
            k = k + 1;
        }
        if segments.len() >= 0x1_0000 {
            return Err(DBError::ConsistencyError(ConsistencyErrorKind::SegmentFull));
        }
        self.segments = segments;
        self.primary_memtable = PrimaryMemtable::new();
        let mut j: usize = 0;
        let mut fresh: Vec<SecondaryMemtable> = Vec::new();
        while j < self.secondary_memtables.len()
            invariant
                j <= self.secondary_memtables@.len(),
                fresh@.len() == j,
                forall|z: int| 0 <= z < j ==> (#[trigger] fresh@[z]).wf(),
                forall|z: int| 0 <= z < j ==> (#[trigger] fresh@[z]).spec_map() == Map::<IndexKey, Set<u64>>::empty(),
            decreases self.secondary_memtables@.len() - j,
        {
            fresh.push(SecondaryMemtable::new());
            j = j + 1;
        }
        self.secondary_memtables = fresh;
        self.refresh_next_logkey = LogKey::new(1, 0);
        proof {
            self.lemma_sec_empty();
        }
        proof {
            if log_replayable(given, self.pk_index()) {
                assert forall|sg: int, ix: int| #[trigger] self.replay_range(sg, ix) implies self.row_replayable(sg, ix) by {
                    assert(stored_at(given, pack_log_key(sg as u16, ix as u64)) == self.stored(pack_log_key(sg as u16, ix as u64)));
                }
            }
        }
        self.refresh_indexes()
    }

    /// The configuration the engine was opened with.
    pub fn config(&self) -> (r: &Config)
        ensures
            *r == self.spec_config(),
    {
        &self.config
    }

    /// The segments, segment `n` at position `n - 1`; the last one is active.
    pub fn segments(&self) -> (r: &Vec<Segment>)
        ensures
            r@ == self.segs(),
    {
        &self.segments
    }

    /// The number of the active segment.
    pub fn active_segment_num(&self) -> (r: usize)
        ensures
            r == self.active_num(),
    {
        self.segments.len()
    }

    /// The primary index.
    pub fn primary_memtable(&self) -> (r: &PrimaryMemtable)
        ensures
            r.spec_map() == self.primary_map(),
    {
        &self.primary_memtable
    }

    /// The secondary indexes, one per secondary key, in configuration order.
    pub fn secondary_memtables(&self) -> (r: &Vec<SecondaryMemtable>)
        ensures
            forall|i: int| 0 <= i < r@.len() ==> (#[trigger] r@[i]).spec_map() == self.secondary_map(i),
    {
        &self.secondary_memtables
    }
}

} // verus!
