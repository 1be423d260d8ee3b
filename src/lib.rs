//! An append-only record store: record codec, segment file format, in-memory
//! indexes and the engine that ties them together, with the file-system side
//! left to the caller.

pub mod bytes;
pub mod engine;
pub mod error;
pub mod key_order;
pub mod laws;
pub mod log_key;
pub mod memtable;
pub mod record;
pub mod segment;
pub mod special;

pub use error::{ConsistencyErrorKind, DBError, ValidationErrorKind};
pub use record::{
    IndexKey, IndexableValue, Record, RecordField, RecordFieldType, RecordValue, RecordView,
    ValueView,
};
pub use log_key::{LogKey, LogKeySet};
pub use segment::{
    ForwardLogReader, ForwardLogReaderItem, MetadataHeader, Segment, SegmentPath,
    METADATA_FILE_HEADER_SIZE, METADATA_ROW_LENGTH,
};
pub use memtable::{Bound, PrimaryMemtable, SecondaryMemtable};
pub use engine::{Config, Engine, ReadConsistency, WriteDurability};
pub use special::{validate_special, SpecialSequence, ESCAPE_CHARACTER, FIELD_SEPARATOR};
pub use laws::{
    lemma_delete_then_find, lemma_last_write_wins, lemma_opened_sees_written_keys,
    lemma_same_entry_same_lookup,
};
pub use record::lemma_record_round_trip;
