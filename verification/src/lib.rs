//! Read-only access to BigBed files: the header, the chromosome B+ tree, the
//! R-tree over data blocks, block retrieval and record decoding, all stated
//! and proved over the bytes of the file.

pub mod bigbed;
pub mod blocks;
pub mod bptree;
pub mod byteorder;
pub mod cirtree;
pub mod error;
pub mod inflate;
pub mod keys;
pub mod laws;
pub mod node;
pub mod reader;
pub mod records;

pub use crate::bigbed::{BigBed, ChromLines, ZoomLevel, BIGBED_SIG};
pub use crate::blocks::find_file_offset_gap;
pub use crate::bptree::{Chrom, BPT_SIG};
pub use crate::cirtree::{cir_overlaps, FileOffsetSize, CIRTREE_SIG};
pub use crate::error::{Error, IOErrorWrapper, IoErrorKind};
pub use crate::keys::strip_null;
pub use crate::reader::ByteReader;
pub use crate::records::BedLine;
