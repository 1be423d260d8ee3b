//! Error kinds.

use vstd::prelude::*;

verus! {

/// Why an input was refused. Refusals change no state.
#[derive(Debug, Clone, Copy, PartialEq, Eq, Structural)]
pub enum ValidationErrorKind {
    /// A record holds another number of values than the schema has fields.
    FieldCount,
    /// A value's type differs from its field's type.
    FieldType,
    /// A null stands in a field that is not nullable.
    NullInNonNullable,
    /// The field is not in the schema.
    UnknownField,
    /// A key field, or a queried value, is not an integer or a string.
    NotIndexable,
    /// The field has no index.
    NotIndexed,
    /// The last log key of a set cannot be removed.
    LastLogKey,
    /// The log key is not in the set.
    LogKeyNotFound,
    /// A record to write carries the deletion flag; deletes go through delete-by.
    TombstoneRecord,
    /// The stored records do not fit the schema.
    SchemaMismatch,
}

/// What was found wrong with the stored bytes. The directory is then corrupt.
#[derive(Debug, Clone, Copy, PartialEq, Eq, Structural)]
pub enum ConsistencyErrorKind {
    /// A value starts with a tag byte other than 0 to 4.
    UnknownTag,
    /// The bytes end inside a value, a row or a header.
    Truncated,
    /// A string value holds bytes that are not UTF-8.
    InvalidUtf8,
    /// A record's first byte is neither 0 nor 1.
    InvalidTombstone,
    /// A metadata header's version byte is not 1.
    HeaderVersion,
    /// A metadata file's size past the header is not a multiple of the row size.
    MetadataSize,
    /// A metadata row points past the end of its data file.
    RowOutOfBounds,
    /// A segment that should exist is missing.
    MissingSegment,
    /// A segment, or the directory, holds as many rows or segments as a log key can address.
    SegmentFull,
    /// A record stored in the log has no usable key.
    UnindexableRecord,
}

#[derive(Debug, Clone, Copy, PartialEq, Eq, Structural)]
pub enum DBError {
    ValidationError(ValidationErrorKind),
    ConsistencyError(ConsistencyErrorKind),
}

} // verus!
