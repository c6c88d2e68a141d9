//! A write-ahead log: entries with a CRC-32 seal, a fixed binary record
//! format, rotating segment files named `wal-NNNN.bin`, and a replay gate
//! that forwards only entries whose seal still matches.
//!
//! The library decides and computes; opening, reading and writing files is
//! left to its caller.

pub mod codec;
pub mod config;
pub mod entry;
pub mod flush;
pub mod reader;
pub mod segment;
pub mod writer;

pub use codec::CodecError;
pub use config::WalConfig;
pub use entry::{verify_checksum, Operation, WalEntry};
pub use flush::{apply_changes, verified_entries, Flusher, RecordingSink, ReplayOutcome};
pub use reader::{decode_segment, read_segment};
pub use segment::{
    get_initial_number_of_wal, get_next_number_of_wal, get_wal_sequence, is_segment_name,
    is_wal_file, rotated_segment_path, segment_file_name, segment_path_in, segment_sequence,
};
pub use writer::{frame_record, plan_segments, should_rotate};

