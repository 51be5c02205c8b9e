//! Zip archives, read and changed without reading or rewriting the whole file.
//!
//! A zip's index lives at its end, so listing an archive costs a read of its tail
//! and central directory, opening an entry costs a read of just that entry, and
//! adding, removing or renaming entries comes down to rewriting the tail. Records
//! for entries that are not touched are carried over byte for byte.
pub mod change_laws;
pub mod changes;
pub mod deflater;
pub mod directory;
pub mod dos_time;
pub mod entry;
pub mod entry_laws;
pub mod fields;
pub mod index;
pub mod laws;
pub mod layout;
pub mod names;
pub mod reader;
pub mod tail;
pub mod writer;

pub use directory::{find_eocd, records, Directory, ZipReader, MAX_ENTRIES};
pub use dos_time::{civil_from_days, days_from_civil, dos_time_to_millis, millis_to_dos_time};
pub use entry::{ZipEntry, DEFLATED, STORED};
pub use index::ZipIndex;
pub use fields::{put_u16, put_u32, put_u64, u16_at, u32_at, u64_at};
pub use writer::{central_record, end_records, local_header, Measured, NewEntry};
pub use names::{decode_name, normalise_path, CP437_HIGH};
