//! Record values, records, schema fields, and their byte encoding.

use vstd::prelude::*;
use vstd::utf8::{decode_utf8, encode_utf8, valid_utf8, encode_utf8_decode_utf8, encode_utf8_valid_utf8};
use crate::bytes::{be_u64_bytes, be_u64_value, lemma_be_u64_round_trip, push_be_u64, read_be_u64};
use crate::error::{ConsistencyErrorKind, DBError};

verus! {

/// The type of a schema field.
#[derive(Debug, Clone, Copy, PartialEq, Eq, Structural)]
pub enum RecordFieldType {
    Int,
    Float,
    String,
    Bytes,
}

/// A schema field: its type and whether it may hold a null.
#[derive(Debug, Clone, Copy, PartialEq, Eq, Structural)]
pub struct RecordField {
    pub field_type: RecordFieldType,
    pub nullable: bool,
}

impl RecordField {
    pub fn integer() -> (r: Self)
        ensures
            r == (RecordField { field_type: RecordFieldType::Int, nullable: false }),
    {
        RecordField { field_type: RecordFieldType::Int, nullable: false }
    }

    pub fn float() -> (r: Self)
        ensures
            r == (RecordField { field_type: RecordFieldType::Float, nullable: false }),
    {
        RecordField { field_type: RecordFieldType::Float, nullable: false }
    }

    pub fn string() -> (r: Self)
        ensures
            r == (RecordField { field_type: RecordFieldType::String, nullable: false }),
    {
        RecordField { field_type: RecordFieldType::String, nullable: false }
    }

    pub fn bytes() -> (r: Self)
        ensures
            r == (RecordField { field_type: RecordFieldType::Bytes, nullable: false }),
    {
        RecordField { field_type: RecordFieldType::Bytes, nullable: false }
    }

    /// The same field, made nullable.
    pub fn nullable(&mut self) -> (r: Self)
        ensures
            r == (RecordField { field_type: old(self).field_type, nullable: true }),
            *final(self) == *old(self),
    {
        RecordField { field_type: self.field_type, nullable: true }
    }
}

/// A value of a record. A float is held as its IEEE-754 binary64 bit pattern.
#[derive(Debug, Clone)]
pub enum RecordValue {
    Null,
    Int(i64),
    Float(u64),
    String(String),
    Bytes(Vec<u8>),
}

/// The mathematical content of a `RecordValue`.
pub enum ValueView {
    Null,
    Int(i64),
    Float(u64),
    Str(Seq<char>),
    Bytes(Seq<u8>),
}

impl View for RecordValue {
    type V = ValueView;

    open spec fn view(&self) -> ValueView {
        match self {
            RecordValue::Null => ValueView::Null,
            RecordValue::Int(i) => ValueView::Int(*i),
            RecordValue::Float(f) => ValueView::Float(*f),
            RecordValue::String(s) => ValueView::Str(s@),
            RecordValue::Bytes(b) => ValueView::Bytes(b@),
        }
    }
}

/// A value that an index can hold: an integer or a string.
#[derive(Debug, Clone, PartialEq, Eq, PartialOrd, Ord, Hash)]
pub enum IndexableValue {
    Int(i64),
    String(String),
}

/// The mathematical content of an `IndexableValue`.
pub enum IndexKey {
    Int(i64),
    Str(Seq<char>),
}

impl View for IndexableValue {
    type V = IndexKey;

    open spec fn view(&self) -> IndexKey {
        match self {
            IndexableValue::Int(i) => IndexKey::Int(*i),
            IndexableValue::String(s) => IndexKey::Str(s@),
        }
    }
}

/// The index key of a value, if it has one.
pub open spec fn index_key_of(v: ValueView) -> Option<IndexKey> {
    match v {
        ValueView::Int(i) => Some(IndexKey::Int(i)),
        ValueView::Str(s) => Some(IndexKey::Str(s)),
        _ => None,
    }
}

/// Whether `v` may stand in a field of type `f`.
pub open spec fn value_matches_field(v: ValueView, f: RecordField) -> bool {
    match v {
        ValueView::Null => f.nullable,
        ValueView::Int(_) => f.field_type == RecordFieldType::Int,
        ValueView::Float(_) => f.field_type == RecordFieldType::Float,
        ValueView::Str(_) => f.field_type == RecordFieldType::String,
        ValueView::Bytes(_) => f.field_type == RecordFieldType::Bytes,
    }
}

/// Type-checks a value against a schema field.
pub fn type_check(value: &RecordValue, field: &RecordField) -> (r: bool)
    ensures
        r == value_matches_field(value@, *field),
{
    match value {
        RecordValue::Null => field.nullable,
        RecordValue::Int(_) => field.field_type == RecordFieldType::Int,
        RecordValue::Float(_) => field.field_type == RecordFieldType::Float,
        RecordValue::String(_) => field.field_type == RecordFieldType::String,
        RecordValue::Bytes(_) => field.field_type == RecordFieldType::Bytes,
    }
}

/// Whether the lengths in `v` fit the 8-byte length prefix.
pub open spec fn value_fits(v: ValueView) -> bool {
    match v {
        ValueView::Str(s) => encode_utf8(s).len() <= u64::MAX,
        ValueView::Bytes(b) => b.len() <= u64::MAX,
        _ => true,
    }
}

/// The bytes that a value serializes to: a tag, then its payload.
pub open spec fn encode_value(v: ValueView) -> Seq<u8> {
    match v {
        ValueView::Null => seq![0u8],
        ValueView::Int(i) => seq![1u8] + be_u64_bytes(#[verifier::truncate] (i as u64)),
        ValueView::Float(f) => seq![2u8] + be_u64_bytes(f),
        ValueView::Str(s) => seq![3u8] + be_u64_bytes(encode_utf8(s).len() as u64) + encode_utf8(
            s,
        ),
        ValueView::Bytes(b) => seq![4u8] + be_u64_bytes(b.len() as u64) + b,
    }
}

/// The value at the start of `b` and the number of bytes it takes, if `b` starts with one.
pub open spec fn parse_value(b: Seq<u8>) -> Option<(ValueView, int)> {
    if b.len() == 0 {
        None
    } else if b[0] == 0 {
        Some((ValueView::Null, 1))
    } else if b[0] > 4 || b.len() < 9 {
        None
    } else if b[0] == 1 {
        Some((ValueView::Int(be_u64_value(b.subrange(1, 9)) as i64), 9))
    } else if b[0] == 2 {
        Some((ValueView::Float(be_u64_value(b.subrange(1, 9))), 9))
    } else {
        let n = be_u64_value(b.subrange(1, 9)) as int;
        let payload = b.subrange(9, 9 + n);
        if b.len() - 9 < n {
            None
        } else if b[0] == 4 {
            Some((ValueView::Bytes(payload), 9 + n))
        } else if valid_utf8(payload) {
            Some((ValueView::Str(decode_utf8(payload)), 9 + n))
        } else {
            None
        }
    }
}

/// The bytes of a sequence of values, one after the other.
pub open spec fn encode_values(vs: Seq<ValueView>) -> Seq<u8>
    decreases vs.len(),
{
    if vs.len() == 0 {
        Seq::empty()
    } else {
        encode_value(vs[0]) + encode_values(vs.drop_first())
    }
}

/// The values that fill `b` exactly, if it holds such a sequence.
pub open spec fn parse_values(b: Seq<u8>) -> Option<Seq<ValueView>>
    decreases b.len(),
{
    if b.len() == 0 {
        Some(Seq::empty())
    } else {
        match parse_value(b) {
            Some((v, n)) => if 0 < n <= b.len() {
                match parse_values(b.subrange(n, b.len() as int)) {
                    Some(rest) => Some(seq![v] + rest),
                    None => None,
                }
            } else {
                None
            },
            None => None,
        }
    }
}

/// A record: its values in schema order and its deletion flag.
#[derive(Debug, Clone)]
pub struct Record {
    pub values: Vec<RecordValue>,
    pub tombstone: bool,
}

/// The mathematical content of a `Record`.
pub struct RecordView {
    pub values: Seq<ValueView>,
    pub tombstone: bool,
}

impl View for Record {
    type V = RecordView;

    open spec fn view(&self) -> RecordView {
        RecordView { values: self.values@.map_values(|v: RecordValue| v@), tombstone: self.tombstone }
    }
}

/// The bytes that a record serializes to: the tombstone byte, then its values.
pub open spec fn encode_record(r: RecordView) -> Seq<u8> {
    seq![if r.tombstone { 1u8 } else { 0u8 }] + encode_values(r.values)
}

/// The record that `b` holds, if it holds one.
pub open spec fn parse_record(b: Seq<u8>) -> Option<RecordView> {
    if b.len() == 0 || b[0] > 1 {
        None
    } else {
        match parse_values(b.subrange(1, b.len() as int)) {
            Some(vs) => Some(RecordView { values: vs, tombstone: b[0] == 1 }),
            None => None,
        }
    }
}

/// Whether every length in `r` fits its 8-byte prefix.
pub open spec fn record_fits(r: RecordView) -> bool {
    forall|i: int| 0 <= i < r.values.len() ==> #[trigger] value_fits(r.values[i])
}

pub proof fn lemma_encode_values_push(vs: Seq<ValueView>, v: ValueView)
    ensures
        encode_values(vs.push(v)) == encode_values(vs) + encode_value(v),
    decreases vs.len(),
{
    if vs.len() == 0 {
        assert(vs.push(v).drop_first() =~= Seq::empty());
        assert(encode_values(vs.push(v).drop_first()) =~= Seq::empty());
        assert(encode_values(vs) =~= Seq::empty());
        assert(encode_values(vs.push(v)) =~= encode_values(vs) + encode_value(v));
    } else {
        lemma_encode_values_push(vs.drop_first(), v);
        assert(vs.push(v).drop_first() =~= vs.drop_first().push(v));
        assert(encode_values(vs.push(v)) =~= encode_values(vs) + encode_value(v));
    }
}

/// A value's bytes, followed by anything, parse back to the value.
pub proof fn lemma_parse_encoded_value(v: ValueView, rest: Seq<u8>)
    requires
        value_fits(v),
    ensures
        parse_value(encode_value(v) + rest) == Some((v, encode_value(v).len() as int)),
{
    let b = encode_value(v) + rest;
    match v {
        ValueView::Null => {},
        ValueView::Int(i) => {
            assert(b.subrange(1, 9) =~= be_u64_bytes(#[verifier::truncate] (i as u64)));
            lemma_be_u64_round_trip(#[verifier::truncate] (i as u64));
            assert(((#[verifier::truncate] (i as u64)) as i64) == i) by (bit_vector);
        },
        ValueView::Float(f) => {
            assert(b.subrange(1, 9) =~= be_u64_bytes(f));
            lemma_be_u64_round_trip(f);
        },
        ValueView::Str(s) => {
            let e = encode_utf8(s);
            assert(b.subrange(1, 9) =~= be_u64_bytes(e.len() as u64));
            lemma_be_u64_round_trip(e.len() as u64);
            assert(b.subrange(9, 9 + e.len() as int) =~= e);
            encode_utf8_valid_utf8(s);
            encode_utf8_decode_utf8(s);
        },
        ValueView::Bytes(p) => {
            assert(b.subrange(1, 9) =~= be_u64_bytes(p.len() as u64));
            lemma_be_u64_round_trip(p.len() as u64);
            assert(b.subrange(9, 9 + p.len() as int) =~= p);
        },
    }
}

pub proof fn lemma_parse_encoded_values(vs: Seq<ValueView>)
    requires
        forall|i: int| 0 <= i < vs.len() ==> #[trigger] value_fits(vs[i]),
    ensures
        parse_values(encode_values(vs)) == Some(vs),
    decreases vs.len(),
{
    if vs.len() > 0 {
        let e = encode_values(vs);
        let head = encode_value(vs[0]);
        let tail = encode_values(vs.drop_first());
        lemma_parse_encoded_value(vs[0], tail);
        assert(e.subrange(head.len() as int, e.len() as int) =~= tail);
        assert(forall|i: int|
            0 <= i < vs.drop_first().len() ==> #[trigger] vs.drop_first()[i] == vs[i + 1]);
        lemma_parse_encoded_values(vs.drop_first());
        assert(seq![vs[0]] + vs.drop_first() =~= vs);
    } else {
        assert(encode_values(vs) =~= Seq::empty());
        assert(vs =~= Seq::empty());
    }
}

/// Serialization round trip: a record's bytes parse back to the record.
pub proof fn lemma_record_round_trip(r: RecordView)
    requires
        record_fits(r),
    ensures
        parse_record(encode_record(r)) == Some(r),
{
    let b = encode_record(r);
    assert(b.subrange(1, b.len() as int) =~= encode_values(r.values));
    lemma_parse_encoded_values(r.values);
}

/// Copies `bytes[start..end]` into a new vector.
pub fn copy_range(bytes: &[u8], start: usize, end: usize) -> (r: Vec<u8>)
    requires
        start <= end <= bytes@.len(),
    ensures
        r@ == bytes@.subrange(start as int, end as int),
{
    let mut r: Vec<u8> = Vec::new();
    let mut i: usize = start;
    while i < end
        invariant
            start <= i <= end,
            end <= bytes@.len(),
            r@ == bytes@.subrange(start as int, i as int),
        decreases end - i,
    {
        r.push(bytes[i]);
        i = i + 1;
        assert(r@ =~= bytes@.subrange(start as int, i as int));
    }
    r
}

/// Relies on `String::from_utf8`: it succeeds exactly on well-formed UTF-8, and the
/// string then holds the characters those bytes encode.
#[verifier::external_body]
fn string_from_utf8(bytes: Vec<u8>) -> (r: Option<String>)
    ensures
        r is Some <==> valid_utf8(bytes@),
        r is Some ==> r->Some_0@ == decode_utf8(bytes@),
{
    String::from_utf8(bytes).ok()
}

impl RecordValue {
    /// The tag byte followed by the payload: big-endian integers, and a length
    /// before a string's UTF-8 bytes or before raw bytes.
    pub fn serialize(&self) -> (r: Vec<u8>)
        ensures
            r@ == encode_value(self@),
            value_fits(self@),
    {
        let mut bytes: Vec<u8> = Vec::new();
        match self {
            RecordValue::Null => {
                bytes.push(0u8);
            },
            RecordValue::Int(i) => {
                bytes.push(1u8);
                push_be_u64(&mut bytes, *i as u64);
            },
            RecordValue::Float(f) => {
                bytes.push(2u8);
                push_be_u64(&mut bytes, *f);
            },
            RecordValue::String(s) => {
                bytes.push(3u8);
                let b = s.as_str().as_bytes();
                push_be_u64(&mut bytes, b.len() as u64);
                let mut i: usize = 0;
                while i < b.len()
                    invariant
                        0 <= i <= b@.len(),
                        b@ == encode_utf8(s@),
                        bytes@ == seq![3u8] + be_u64_bytes(b@.len() as u64) + b@.subrange(
                            0,
                            i as int,
                        ),
                    decreases b@.len() - i,
                {
                    bytes.push(b[i]);
                    i = i + 1;
                    assert(bytes@ =~= seq![3u8] + be_u64_bytes(b@.len() as u64) + b@.subrange(
                        0,
                        i as int,
                    ));
                }
                assert(b@.subrange(0, b@.len() as int) =~= b@);
            },
            RecordValue::Bytes(b) => {
                bytes.push(4u8);
                push_be_u64(&mut bytes, b.len() as u64);
                let mut i: usize = 0;
                while i < b.len()
                    invariant
                        0 <= i <= b@.len(),
                        bytes@ == seq![4u8] + be_u64_bytes(b@.len() as u64) + b@.subrange(
                            0,
                            i as int,
                        ),
                    decreases b@.len() - i,
                {
                    bytes.push(b[i]);
                    i = i + 1;
                    assert(bytes@ =~= seq![4u8] + be_u64_bytes(b@.len() as u64) + b@.subrange(
                        0,
                        i as int,
                    ));
                }
                assert(b@.subrange(0, b@.len() as int) =~= b@);
            },
        }
        assert(bytes@ =~= encode_value(self@));
        bytes
    }

    /// Reads the value at the start of `bytes`; returns it with the number of
    /// bytes it took. Fails on an unknown tag, on a truncated value and on a
    /// string that is not UTF-8.
    pub fn deserialize(bytes: &[u8]) -> (r: Result<(RecordValue, usize), DBError>)
        ensures
            match r {
                Ok((v, n)) => parse_value(bytes@) == Some((v@, n as int)),
                Err(_) => parse_value(bytes@) is None,
            },
            r is Err ==> r->Err_0 is ConsistencyError,
    {
        let r = Self::deserialize_at(bytes, 0);
        assert(bytes@.subrange(0, bytes@.len() as int) =~= bytes@);
        r
    }

    /// Reads the value at `bytes[pos..]`, as `deserialize` does.
    pub fn deserialize_at(bytes: &[u8], pos: usize) -> (r: Result<(RecordValue, usize), DBError>)
        requires
            pos <= bytes@.len(),
        ensures
            match r {
                Ok((v, n)) => parse_value(bytes@.subrange(pos as int, bytes@.len() as int))
                    == Some((v@, n as int)),
                Err(_) => parse_value(bytes@.subrange(pos as int, bytes@.len() as int)) is None,
            },
            r is Err ==> r->Err_0 is ConsistencyError,
    {
        let ghost b = bytes@.subrange(pos as int, bytes@.len() as int);
        let len = bytes.len();
        if pos == len {
            return Err(DBError::ConsistencyError(ConsistencyErrorKind::Truncated));
        }
        let tag = bytes[pos];
        assert(b[0] == tag);
        if tag == 0 {
            return Ok((RecordValue::Null, 1));
        }
        if tag > 4 {
            return Err(DBError::ConsistencyError(ConsistencyErrorKind::UnknownTag));
        }
        if len - pos < 9 {
            return Err(DBError::ConsistencyError(ConsistencyErrorKind::Truncated));
        }
        let x = read_be_u64(bytes, pos + 1);
        assert(bytes@.subrange(pos + 1, pos + 9) =~= b.subrange(1, 9));
        if tag == 1 {
            return Ok((RecordValue::Int(x as i64), 9));
        }
        if tag == 2 {
            return Ok((RecordValue::Float(x), 9));
        }
        if x > (len - pos - 9) as u64 {
            return Err(DBError::ConsistencyError(ConsistencyErrorKind::Truncated));
        }
        let n = x as usize;
        let payload = copy_range(bytes, pos + 9, pos + 9 + n);
        assert(payload@ =~= b.subrange(9, 9 + n));
        if tag == 4 {
            return Ok((RecordValue::Bytes(payload), 9 + n));
        }
        match string_from_utf8(payload) {
            Some(s) => Ok((RecordValue::String(s), 9 + n)),
            None => Err(DBError::ConsistencyError(ConsistencyErrorKind::InvalidUtf8)),
        }
    }

    /// A copy of this value.
    pub fn duplicate(&self) -> (r: RecordValue)
        ensures
            r@ == self@,
    {
        match self {
            RecordValue::Null => RecordValue::Null,
            RecordValue::Int(i) => RecordValue::Int(*i),
            RecordValue::Float(f) => RecordValue::Float(*f),
            RecordValue::String(s) => RecordValue::String(s.clone()),
            RecordValue::Bytes(b) => {
                let c = copy_range(b.as_slice(), 0, b.len());
                assert(c@ =~= b@);
                RecordValue::Bytes(c)
            },
        }
    }

    /// The index key of this value: integers and strings have one.
    pub fn as_indexable(&self) -> (r: Option<IndexableValue>)
        ensures
            match r {
                Some(k) => index_key_of(self@) == Some(k@),
                None => index_key_of(self@) is None,
            },
    {
        match self {
            RecordValue::Int(i) => Some(IndexableValue::Int(*i)),
            RecordValue::String(s) => Some(IndexableValue::String(s.clone())),
            _ => None,
        }
    }
}

impl Record {
    /// The tombstone byte, then each value's bytes in order.
    pub fn serialize(&self) -> (r: Vec<u8>)
        ensures
            r@ == encode_record(self@),
            record_fits(self@),
    {
        let mut bytes: Vec<u8> = Vec::new();
        bytes.push(if self.tombstone { 1u8 } else { 0u8 });
        let mut i: usize = 0;
        while i < self.values.len()
            invariant
                0 <= i <= self.values@.len(),
                forall|j: int| 0 <= j < i ==> #[trigger] value_fits(self@.values[j]),
                bytes@ == seq![if self.tombstone { 1u8 } else { 0u8 }] + encode_values(
                    self@.values.take(i as int),
                ),
            decreases self.values@.len() - i,
        {
            let mut vb = self.values[i].serialize();
            proof {
                lemma_encode_values_push(self@.values.take(i as int), self@.values[i as int]);
                assert(self@.values.take(i as int).push(self@.values[i as int]) =~= self@.values.take(
                    i + 1,
                ));
            }
            bytes.append(&mut vb);
            i = i + 1;
            assert(bytes@ =~= seq![if self.tombstone { 1u8 } else { 0u8 }] + encode_values(
                self@.values.take(i as int),
            ));
        }
        assert(self@.values.take(i as int) =~= self@.values);
        bytes
    }

    /// Reads a record that fills `bytes` exactly.
    pub fn deserialize(bytes: &[u8]) -> (r: Result<Record, DBError>)
        ensures
            match r {
                Ok(rec) => parse_record(bytes@) == Some(rec@),
                Err(_) => parse_record(bytes@) is None,
            },
            r is Err ==> r->Err_0 is ConsistencyError,
    {
        let len = bytes.len();
        if len == 0 {
            return Err(DBError::ConsistencyError(ConsistencyErrorKind::Truncated));
        }
        if bytes[0] > 1 {
            return Err(DBError::ConsistencyError(ConsistencyErrorKind::InvalidTombstone));
        }
        let tombstone = bytes[0] == 1;
        let ghost all = bytes@.subrange(1, len as int);
        let mut values: Vec<RecordValue> = Vec::new();
        let mut start: usize = 1;
        while start < len
            invariant
                1 <= start <= len,
                len == bytes@.len(),
                all == bytes@.subrange(1, len as int),
                parse_values(all) == match parse_values(bytes@.subrange(start as int, len as int)) {
                    Some(rest) => Some(values@.map_values(|v: RecordValue| v@) + rest),
                    None => None::<Seq<ValueView>>,
                },
            decreases len - start,
        {
            let ghost cur = bytes@.subrange(start as int, len as int);
            match RecordValue::deserialize_at(bytes, start) {
                Ok((v, n)) => {
                    proof {
                        assert(cur.subrange(n as int, cur.len() as int) =~= bytes@.subrange(
                            start + n,
                            len as int,
                        ));
                        assert(values@.push(v).map_values(|v: RecordValue| v@) =~= values@.map_values(
                            |v: RecordValue| v@,
                        ).push(v@));
                        match parse_values(bytes@.subrange(start + n, len as int)) {
                            Some(rest) => {
                                assert(values@.map_values(|v: RecordValue| v@) + (seq![v@] + rest)
                                    =~= values@.map_values(|v: RecordValue| v@).push(v@) + rest);
                            },
                            None => {},
                        }
                    }
                    values.push(v);
                    start = start + n;
                },
                Err(e) => {
                    return Err(e);
                },
            }
        }
        proof {
            assert(bytes@.subrange(start as int, len as int) =~= Seq::<u8>::empty());
            assert(values@.map_values(|v: RecordValue| v@) + Seq::<ValueView>::empty()
                =~= values@.map_values(|v: RecordValue| v@));
        }
        let rec = Record { values, tombstone };
        assert(rec@.values == values@.map_values(|v: RecordValue| v@));
        Ok(rec)
    }
}

} // verus!
