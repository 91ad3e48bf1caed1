//! Reading, listing, extracting and repacking MPK archives.
//!
//! An archive is a header (signature, version, entry count), a table of
//! 256-byte entry records, and the entries' data, each entry but the last
//! padded to a 2048-byte boundary. Version 1 uses 32-bit offsets and sizes and
//! marks an entry compressed when its stored and content sizes differ; version
//! 2 uses 64-bit ones and an explicit compression indicator. Compressed
//! entries hold zlib streams.

pub mod archive;
pub mod bytes;
pub mod entry;
pub mod entry_map;
pub mod error;
pub mod laws;
pub mod paths;
pub mod repack;
pub mod select;

pub use archive::MagesArchive;
pub use repack::RepackFile;
pub use bytes::{copy_name_bytes, entry_name_from_bytes, write_alignment_padding};
pub use entry::{MagesEntry, MpkVersion};
pub use error::ArchiveError;
pub use paths::{archive_dir_name, archive_output_dir, path_file_name};
pub use select::parse_entry_id;
