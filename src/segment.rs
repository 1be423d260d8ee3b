//! The segment file format: metadata header, fixed-size rows, data, and the
//! forward log reader.

use vstd::prelude::*;
use crate::bytes::{be_u64_bytes, be_u64_value, push_be_u64, read_be_u64};
use crate::error::{ConsistencyErrorKind, DBError};
use crate::record::{parse_record, Record, RecordView};

verus! {

/// The size of a metadata file's header: a version byte, seven zero bytes and
/// the sixteen bytes of the data file's UUID.
pub const METADATA_FILE_HEADER_SIZE: usize = 24;

/// The size of a metadata row: the data offset and the data length, both
/// big-endian u64.
pub const METADATA_ROW_LENGTH: usize = 16;

/// The version byte that every metadata header carries.
pub const METADATA_VERSION: u8 = 1;

/// The lower-case hexadecimal digit for `n`.
pub open spec fn hex_digit(n: u8) -> char
    recommends
        n < 16,
{
    seq!['0', '1', '2', '3', '4', '5', '6', '7', '8', '9', 'a', 'b', 'c', 'd', 'e', 'f'][n as int]
}

/// Two hexadecimal digits for each byte of `s`.
pub open spec fn hex_text(s: Seq<u8>) -> Seq<char>
    decreases s.len(),
{
    if s.len() == 0 {
        Seq::empty()
    } else {
        seq![hex_digit(s[0] / 16), hex_digit(s[0] % 16)] + hex_text(s.drop_first())
    }
}

/// The hyphenated lower-case text of a UUID: groups of 4, 2, 2, 2 and 6 bytes.
pub open spec fn uuid_text(b: Seq<u8>) -> Seq<char> {
    hex_text(b.subrange(0, 4)) + seq!['-'] + hex_text(b.subrange(4, 6)) + seq!['-'] + hex_text(
        b.subrange(6, 8),
    ) + seq!['-'] + hex_text(b.subrange(8, 10)) + seq!['-'] + hex_text(b.subrange(10, 16))
}

/// Relies on `uuid::Uuid::from_bytes` and uuid's `Display`, which writes the
/// hyphenated lower-case form.
#[verifier::external_body]
fn uuid_to_text(bytes: [u8; 16]) -> (r: String)
    ensures
        r@ == uuid_text(bytes@),
{
    uuid::Uuid::from_bytes(bytes).to_string()
}

/// The bytes of a metadata header.
pub open spec fn header_bytes(version: u8, uuid: Seq<u8>) -> Seq<u8> {
    seq![version, 0u8, 0u8, 0u8, 0u8, 0u8, 0u8, 0u8] + uuid
}

/// The header of a metadata file.
#[derive(Debug, Clone, Copy, PartialEq, Eq)]
pub struct MetadataHeader {
    pub version: u8,
    /// The UUID that names the segment's data file.
    pub uuid: [u8; 16],
}

impl MetadataHeader {
    pub fn serialize(&self) -> (r: Vec<u8>)
        ensures
            r@ == header_bytes(self.version, self.uuid@),
            r@.len() == METADATA_FILE_HEADER_SIZE,
    {
        let mut header: Vec<u8> = Vec::new();
        header.push(self.version);
        let mut i: usize = 0;
        while i < 7
            invariant
                i <= 7,
                header@ == seq![self.version] + Seq::new(i as nat, |j: int| 0u8),
            decreases 7 - i,
        {
            header.push(0u8);
            i = i + 1;
            assert(header@ =~= seq![self.version] + Seq::new(i as nat, |j: int| 0u8));
        }
        let mut k: usize = 0;
        while k < 16
            invariant
                k <= 16,
                header@ == seq![self.version, 0u8, 0u8, 0u8, 0u8, 0u8, 0u8, 0u8] + self.uuid@.take(
                    k as int,
                ),
            decreases 16 - k,
        {
            header.push(self.uuid[k]);
            k = k + 1;
            assert(header@ =~= seq![self.version, 0u8, 0u8, 0u8, 0u8, 0u8, 0u8, 0u8]
                + self.uuid@.take(k as int));
        }
        assert(self.uuid@.take(16) =~= self.uuid@);
        header
    }

    /// Reads the header at the start of `bytes`. Fails when fewer than 24 bytes are given.
    pub fn deserialize(bytes: &[u8]) -> (r: Result<MetadataHeader, DBError>)
        ensures
            bytes@.len() < METADATA_FILE_HEADER_SIZE <==> r is Err,
            r is Err ==> r == Err::<MetadataHeader, DBError>(
                DBError::ConsistencyError(ConsistencyErrorKind::Truncated),
            ),
            r is Ok ==> r->Ok_0.version == bytes@[0] && r->Ok_0.uuid@ == bytes@.subrange(8, 24),
    {
        if bytes.len() < METADATA_FILE_HEADER_SIZE {
            return Err(DBError::ConsistencyError(ConsistencyErrorKind::Truncated));
        }
        let uuid: [u8; 16] = [
            bytes[8],
            bytes[9],
            bytes[10],
            bytes[11],
            bytes[12],
            bytes[13],
            bytes[14],
            bytes[15],
            bytes[16],
            bytes[17],
            bytes[18],
            bytes[19],
            bytes[20],
            bytes[21],
            bytes[22],
            bytes[23],
        ];
        assert(uuid@ =~= bytes@.subrange(8, 24));
        Ok(MetadataHeader { version: bytes[0], uuid })
    }

    /// The name of the data file: the UUID as hyphenated lower-case text.
    pub fn data_file_name(&self) -> (r: String)
        ensures
            r@ == uuid_text(self.uuid@),
    {
        uuid_to_text(self.uuid)
    }
}

/// The number of whole rows in a metadata file of `meta_len` bytes.
pub open spec fn row_count(meta_len: int) -> int {
    (meta_len - METADATA_FILE_HEADER_SIZE) / (METADATA_ROW_LENGTH as int)
}

/// The byte at which row `i` starts.
pub open spec fn row_start(i: int) -> int {
    METADATA_FILE_HEADER_SIZE + METADATA_ROW_LENGTH * i
}

/// The bytes of a metadata row.
pub open spec fn row_bytes(offset: u64, length: u64) -> Seq<u8> {
    be_u64_bytes(offset) + be_u64_bytes(length)
}

/// The (offset, length) that row `i` of `meta` holds.
pub open spec fn row_at(meta: Seq<u8>, i: int) -> (u64, u64) {
    (
        be_u64_value(meta.subrange(row_start(i), row_start(i) + 8)),
        be_u64_value(meta.subrange(row_start(i) + 8, row_start(i) + 16)),
    )
}

/// The size invariant of a metadata file: a header, then whole rows.
pub open spec fn metadata_size_ok(meta_len: int) -> bool {
    meta_len >= METADATA_FILE_HEADER_SIZE && (meta_len - METADATA_FILE_HEADER_SIZE) % (
    METADATA_ROW_LENGTH as int) == 0
}

/// Every row of `meta` points at bytes inside `data`.
pub open spec fn rows_in_bounds(meta: Seq<u8>, data_len: int) -> bool {
    forall|i: int|
        0 <= i < row_count(meta.len() as int) ==> #[trigger] row_at(meta, i).0 + row_at(meta, i).1
            <= data_len
}

/// The record stored at row `i` of a segment, if its bytes parse.
pub open spec fn stored_record(meta: Seq<u8>, data: Seq<u8>, i: int) -> Option<RecordView> {
    let (off, len) = row_at(meta, i);
    if 0 <= i < row_count(meta.len() as int) && off + len <= data.len() {
        parse_record(data.subrange(off as int, off + len))
    } else {
        None
    }
}

/// One segment: the bytes of its metadata file and of the data file that the
/// header names.
#[derive(Debug, Clone)]
pub struct Segment {
    pub metadata: Vec<u8>,
    pub data: Vec<u8>,
}

/// Whether a segment's files are consistent: the version byte, the size
/// invariant, and every row inside the data.
pub open spec fn segment_ok(meta: Seq<u8>, data: Seq<u8>) -> bool {
    &&& metadata_size_ok(meta.len() as int)
    &&& meta[0] == METADATA_VERSION
    &&& rows_in_bounds(meta, data.len() as int)
}

impl Segment {
    pub open spec fn spec_ok(&self) -> bool {
        segment_ok(self.metadata@, self.data@)
    }

    pub open spec fn rows(&self) -> int {
        row_count(self.metadata@.len() as int)
    }

    /// A new segment: a header that names `uuid`, no rows, no data.
    pub fn create(uuid: [u8; 16]) -> (r: Segment)
        ensures
            r.metadata@ == header_bytes(METADATA_VERSION, uuid@),
            r.data@.len() == 0,
            r.spec_ok(),
            r.rows() == 0,
    {
        let header = MetadataHeader { version: METADATA_VERSION, uuid };
        Segment { metadata: header.serialize(), data: Vec::new() }
    }

    /// Reads and checks the header: the version byte must be 1.
    pub fn header(&self) -> (r: Result<MetadataHeader, DBError>)
        ensures
            r is Ok <==> self.metadata@.len() >= METADATA_FILE_HEADER_SIZE && self.metadata@[0]
                == METADATA_VERSION,
            r is Ok ==> r->Ok_0.uuid@ == self.metadata@.subrange(8, 24) && r->Ok_0.version
                == METADATA_VERSION,
    {
        let h = MetadataHeader::deserialize(self.metadata.as_slice())?;
        if h.version != METADATA_VERSION {
            return Err(DBError::ConsistencyError(ConsistencyErrorKind::HeaderVersion));
        }
        Ok(h)
    }

    /// Reads row `i` of the metadata.
    pub fn row(&self, i: u64) -> (r: (u64, u64))
        requires
            i < self.rows(),
            self.metadata@.len() >= METADATA_FILE_HEADER_SIZE,
        ensures
            r == row_at(self.metadata@, i as int),
    {
        let ml = self.metadata.len();
        let ghost len = self.metadata@.len() as int;
        assert(16 * i + 16 <= len - 24) by (nonlinear_arith)
            requires
                i < (len - 24) / 16,
                len >= 24,
        ;
        let start = METADATA_FILE_HEADER_SIZE + METADATA_ROW_LENGTH * (i as usize);
        let off = read_be_u64(self.metadata.as_slice(), start);
        let len = read_be_u64(self.metadata.as_slice(), start + 8);
        (off, len)
    }

    /// Checks the segment's consistency: the header, the size invariant of the
    /// metadata, and that every row lies inside the data.
    pub fn check(&self) -> (r: Result<(), DBError>)
        ensures
            r is Ok <==> self.spec_ok(),
            r is Err ==> r->Err_0 is ConsistencyError,
    {
        let meta_len = self.metadata.len();
        if meta_len < METADATA_FILE_HEADER_SIZE {
            return Err(DBError::ConsistencyError(ConsistencyErrorKind::Truncated));
        }
        if (meta_len - METADATA_FILE_HEADER_SIZE) % METADATA_ROW_LENGTH != 0 {
            return Err(DBError::ConsistencyError(ConsistencyErrorKind::MetadataSize));
        }
        if self.metadata[0] != METADATA_VERSION {
            return Err(DBError::ConsistencyError(ConsistencyErrorKind::HeaderVersion));
        }
        let n = ((meta_len - METADATA_FILE_HEADER_SIZE) / METADATA_ROW_LENGTH) as u64;
        let data_len = self.data.len() as u64;
        let mut i: u64 = 0;
        while i < n
            invariant
                i <= n,
                n == self.rows(),
                data_len == self.data@.len(),
                metadata_size_ok(self.metadata@.len() as int),
                forall|j: int| 0 <= j < i ==> #[trigger] row_at(self.metadata@, j).0 + row_at(
                    self.metadata@,
                    j,
                ).1 <= data_len,
            decreases n - i,
        {
            let (off, len) = self.row(i);
            if off > data_len || len > data_len - off {
                return Err(DBError::ConsistencyError(ConsistencyErrorKind::RowOutOfBounds));
            }
            i = i + 1;
        }
        Ok(())
    }

    /// Reads the record that row `i` points at. Fails when the row lies past the
    /// metadata's whole rows or past the data, or its bytes are no record.
    pub fn read(&self, i: u64) -> (r: Result<Record, DBError>)
        requires
            metadata_size_ok(self.metadata@.len() as int),
        ensures
            match r {
                Ok(rec) => stored_record(self.metadata@, self.data@, i as int) == Some(rec@),
                Err(_) => stored_record(self.metadata@, self.data@, i as int) is None,
            },
            r is Err ==> r->Err_0 is ConsistencyError,
    {
        let n = ((self.metadata.len() - METADATA_FILE_HEADER_SIZE) / METADATA_ROW_LENGTH) as u64;
        if i >= n {
            return Err(DBError::ConsistencyError(ConsistencyErrorKind::Truncated));
        }
        let (off, len) = self.row(i);
        let data_len = self.data.len() as u64;
        if off > data_len || len > data_len - off {
            return Err(DBError::ConsistencyError(ConsistencyErrorKind::RowOutOfBounds));
        }
        let bytes = crate::record::copy_range(
            self.data.as_slice(),
            off as usize,
            (off + len) as usize,
        );
        Record::deserialize(bytes.as_slice())
    }

    /// Appends a record's bytes to the data and a row for them to the metadata;
    /// returns the row's index.
    pub fn append(&mut self, bytes: &Vec<u8>) -> (r: u64)
        requires
            segment_ok(old(self).metadata@, old(self).data@),
            old(self).metadata@.len() + METADATA_ROW_LENGTH <= usize::MAX,
            old(self).data@.len() + bytes@.len() <= usize::MAX,
        ensures
            r == old(self).rows(),
            final(self).metadata@ == old(self).metadata@ + row_bytes(
                old(self).data@.len() as u64,
                bytes@.len() as u64,
            ),
            final(self).data@ == old(self).data@ + bytes@,
            segment_ok(final(self).metadata@, final(self).data@),
            final(self).rows() == old(self).rows() + 1,
    {
        let offset = self.data.len() as u64;
        let length = bytes.len() as u64;
        let index = ((self.metadata.len() - METADATA_FILE_HEADER_SIZE) / METADATA_ROW_LENGTH) as u64;
        let mut i: usize = 0;
        while i < bytes.len()
            invariant
                i <= bytes@.len(),
                self.metadata@ == old(self).metadata@,
                self.data@ == old(self).data@ + bytes@.take(i as int),
                offset == old(self).data@.len(),
            decreases bytes@.len() - i,
        {
            self.data.push(bytes[i]);
            i = i + 1;
            assert(self.data@ =~= old(self).data@ + bytes@.take(i as int));
        }
        assert(bytes@.take(bytes@.len() as int) =~= bytes@);
        push_be_u64(&mut self.metadata, offset);
        push_be_u64(&mut self.metadata, length);
        proof {
            let m0 = old(self).metadata@;
            let m1 = self.metadata@;
            assert(m1 =~= m0 + row_bytes(offset, length));
            lemma_append_row(m0, offset, length);
            assert forall|j: int| 0 <= j < row_count(m1.len() as int) implies #[trigger] row_at(
                m1,
                j,
            ).0 + row_at(m1, j).1 <= self.data@.len() by {
                if j < row_count(m0.len() as int) {
                    assert(row_at(m1, j) == row_at(m0, j));
                } else {
                    assert(j == row_count(m0.len() as int));
                }
            }
        }
        index
    }
}

/// A path to a segment's metadata file, with how it is reached.
#[derive(Debug, Clone, PartialEq, Eq)]
pub enum SegmentPath {
    /// The link to the active segment's metadata file.
    ActiveSymlink(String),
    /// The metadata file of a segment that is no longer written to.
    Compacted(String),
}

/// One record read by the forward log reader, with the row that points at it.
#[derive(Debug, Clone)]
pub struct ForwardLogReaderItem {
    pub metadata_index: u64,
    pub data_offset: u64,
    pub data_length: u64,
    pub record: Record,
}

/// Reads a segment's records in row order, from a starting row.
#[derive(Debug, Clone, Copy, PartialEq, Eq)]
pub struct ForwardLogReader {
    index: u64,
}

impl ForwardLogReader {
    /// The row that the next read takes.
    pub closed spec fn next_index(&self) -> u64 {
        self.index
    }

    /// A reader from the first row.
    pub fn new() -> (r: ForwardLogReader)
        ensures
            r.next_index() == 0,
    {
        ForwardLogReader { index: 0 }
    }

    /// A reader from row `index`.
    pub fn new_with_index(index: u64) -> (r: ForwardLogReader)
        ensures
            r.next_index() == index,
    {
        ForwardLogReader { index }
    }

    /// Reads the record of the next row and moves past it. At the exact end of
    /// the rows it returns `None`; a partial row at the end, a row pointing
    /// past the data or bytes that are no record are errors.
    pub fn read_record(&mut self, segment: &Segment) -> (r: Result<Option<ForwardLogReaderItem>, DBError>)
        ensures
            r is Err ==> r->Err_0 is ConsistencyError,
            segment.metadata@.len() < METADATA_FILE_HEADER_SIZE ==> r is Err,
            ({
                let len = segment.metadata@.len() as int;
                let i = old(self).next_index() as int;
                len >= METADATA_FILE_HEADER_SIZE && i >= row_count(len) ==> if i == row_count(len) && !metadata_size_ok(len) {
                    r is Err
                } else {
                    r == Ok::<Option<ForwardLogReaderItem>, DBError>(None)
                }
            }),
            r == Ok::<Option<ForwardLogReaderItem>, DBError>(None) ==> *final(self) == *old(self),
            ({
                let len = segment.metadata@.len() as int;
                let i = old(self).next_index() as int;
                len >= METADATA_FILE_HEADER_SIZE && i < row_count(len) ==> match r {
                    Ok(Some(item)) => {
                        &&& item.metadata_index == i
                        &&& (item.data_offset, item.data_length) == row_at(segment.metadata@, i)
                        &&& stored_record(segment.metadata@, segment.data@, i) == Some(item.record@)
                        &&& final(self).next_index() == i + 1
                    },
                    Ok(None) => false,
                    Err(_) => stored_record(segment.metadata@, segment.data@, i) is None,
                }
            }),
    {
        let len = segment.metadata.len();
        if len < METADATA_FILE_HEADER_SIZE {
            return Err(DBError::ConsistencyError(ConsistencyErrorKind::Truncated));
        }
        let rows = ((len - METADATA_FILE_HEADER_SIZE) / METADATA_ROW_LENGTH) as u64;
        let i = self.index;
        if i >= rows {
            if i == rows && (len - METADATA_FILE_HEADER_SIZE) % METADATA_ROW_LENGTH != 0 {
                return Err(DBError::ConsistencyError(ConsistencyErrorKind::Truncated));
            }
            return Ok(None);
        }
        let (off, length) = segment.row(i);
        let data_len = segment.data.len() as u64;
        if off > data_len || length > data_len - off {
            return Err(DBError::ConsistencyError(ConsistencyErrorKind::RowOutOfBounds));
        }
        let bytes = crate::record::copy_range(segment.data.as_slice(), off as usize, (off + length) as usize);
        let record = match Record::deserialize(bytes.as_slice()) {
            Ok(rec) => rec,
            Err(e) => {
                return Err(e);
            },
        };
        self.index = i + 1;
        Ok(Some(ForwardLogReaderItem { metadata_index: i, data_offset: off, data_length: length, record }))
    }
}

/// Appending a record keeps every earlier stored record, and the new row
/// reads back the appended bytes.
pub proof fn lemma_append_stored(meta: Seq<u8>, data: Seq<u8>, bytes: Seq<u8>)
    requires
        segment_ok(meta, data),
        data.len() + bytes.len() <= u64::MAX,
    ensures
        ({
            let m1 = meta + row_bytes(data.len() as u64, bytes.len() as u64);
            let d1 = data + bytes;
            &&& forall|i: int|
                0 <= i < row_count(meta.len() as int) ==> #[trigger] stored_record(m1, d1, i)
                    == stored_record(meta, data, i)
            &&& stored_record(m1, d1, row_count(meta.len() as int)) == parse_record(bytes)
            &&& row_count(m1.len() as int) == row_count(meta.len() as int) + 1
        }),
{
    let m1 = meta + row_bytes(data.len() as u64, bytes.len() as u64);
    let d1 = data + bytes;
    lemma_append_row(meta, data.len() as u64, bytes.len() as u64);
    assert forall|i: int| 0 <= i < row_count(meta.len() as int) implies #[trigger] stored_record(
        m1,
        d1,
        i,
    ) == stored_record(meta, data, i) by {
        let (off, len) = row_at(meta, i);
        assert(row_at(m1, i) == row_at(meta, i));
        assert(off + len <= data.len());
        assert(d1.subrange(off as int, off + len) =~= data.subrange(off as int, off + len));
    }
    let n = row_count(meta.len() as int);
    assert(row_at(m1, n) == (data.len() as u64, bytes.len() as u64));
    assert(d1.subrange(data.len() as int, (data.len() + bytes.len()) as int) =~= bytes);
}

/// Appending a row keeps the earlier rows and adds one that reads back.
pub proof fn lemma_append_row(meta: Seq<u8>, offset: u64, length: u64)
    requires
        metadata_size_ok(meta.len() as int),
    ensures
        metadata_size_ok(meta.len() + METADATA_ROW_LENGTH),
        row_count(meta.len() + METADATA_ROW_LENGTH) == row_count(meta.len() as int) + 1,
        row_at(meta + row_bytes(offset, length), row_count(meta.len() as int)) == (offset, length),
        forall|j: int|
            0 <= j < row_count(meta.len() as int) ==> #[trigger] row_at(
                meta + row_bytes(offset, length),
                j,
            ) == row_at(meta, j),
        (meta + row_bytes(offset, length))[0] == meta[0],
{
    let m1 = meta + row_bytes(offset, length);
    let n = row_count(meta.len() as int);
    assert(row_start(n) == meta.len());
    assert(m1.subrange(row_start(n), row_start(n) + 8) =~= be_u64_bytes(offset));
    assert(m1.subrange(row_start(n) + 8, row_start(n) + 16) =~= be_u64_bytes(length));
    crate::bytes::lemma_be_u64_round_trip(offset);
    crate::bytes::lemma_be_u64_round_trip(length);
    assert forall|j: int| 0 <= j < n implies #[trigger] row_at(m1, j) == row_at(meta, j) by {
        assert(row_start(j) + 16 <= meta.len());
        assert(m1.subrange(row_start(j), row_start(j) + 8) =~= meta.subrange(
            row_start(j),
            row_start(j) + 8,
        ));
        assert(m1.subrange(row_start(j) + 8, row_start(j) + 16) =~= meta.subrange(
            row_start(j) + 8,
            row_start(j) + 16,
        ));
    }
}

} // verus!
