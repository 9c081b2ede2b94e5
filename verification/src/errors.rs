//! Errors surfaced while loading or saving chunks.
//!
//! Neither kind is recovered inside the engine: both bubble up to the caller.
//! Corruption of a region file is reported through `LengthExceedsMaximum`,
//! `UnsupportedCompressionScheme`, `ReadError` and `TagDecodeError`.

use vstd::prelude::*;

verus! {

#[verifier::external_type_specification]
#[verifier::external_body]
pub struct ExIoError(std::io::Error);

#[verifier::external_type_specification]
#[verifier::external_body]
pub struct ExTagDecodeError(nbt::decode::TagDecodeError);

/// Why loading a chunk failed.
#[derive(Debug)]
pub enum ChunkLoadError {
    /// No region file exists at the coordinates.
    RegionNotFound { region_x: i32, region_z: i32 },
    /// The region exists but the slot at the local coordinates is empty.
    ChunkNotFound { chunk_x: u8, chunk_z: u8 },
    /// The stored length word exceeds what the slot's sector run, capped at
    /// 1 MiB, can hold: the region file is corrupt.
    LengthExceedsMaximum { length: u32, maximum_length: u32 },
    /// The stored compression byte is neither gzip (1) nor zlib (2).
    UnsupportedCompressionScheme { compression_scheme: u8 },
    /// Reading the chunk record failed in the underlying byte store.
    ReadError { io_error: std::io::Error },
    /// The compressed bytes did not decode to a compound tag.
    TagDecodeError { tag_decode_error: nbt::decode::TagDecodeError },
}

impl From<std::io::Error> for ChunkLoadError {
    fn from(io_error: std::io::Error) -> (r: Self) {
        ChunkLoadError::ReadError { io_error }
    }
}

impl vstd::std_specs::convert::FromSpecImpl<std::io::Error> for ChunkLoadError {
    open spec fn obeys_from_spec() -> bool {
        true
    }

    open spec fn from_spec(io_error: std::io::Error) -> Self {
        ChunkLoadError::ReadError { io_error }
    }
}

impl From<nbt::decode::TagDecodeError> for ChunkLoadError {
    fn from(tag_decode_error: nbt::decode::TagDecodeError) -> (r: Self) {
        ChunkLoadError::TagDecodeError { tag_decode_error }
    }
}

impl vstd::std_specs::convert::FromSpecImpl<nbt::decode::TagDecodeError> for ChunkLoadError {
    open spec fn obeys_from_spec() -> bool {
        true
    }

    open spec fn from_spec(tag_decode_error: nbt::decode::TagDecodeError) -> Self {
        ChunkLoadError::TagDecodeError { tag_decode_error }
    }
}

/// Why saving a chunk failed.
#[derive(Debug)]
pub enum ChunkSaveError {
    /// The chunk record would need more sectors than the 8-bit sector count
    /// of a header entry can record.
    LengthExceedsMaximum { length: u32 },
    /// Writing the chunk record failed in the underlying byte store.
    WriteError { io_error: std::io::Error },
}

impl From<std::io::Error> for ChunkSaveError {
    fn from(io_error: std::io::Error) -> (r: Self) {
        ChunkSaveError::WriteError { io_error }
    }
}

impl vstd::std_specs::convert::FromSpecImpl<std::io::Error> for ChunkSaveError {
    open spec fn obeys_from_spec() -> bool {
        true
    }

    open spec fn from_spec(io_error: std::io::Error) -> Self {
        ChunkSaveError::WriteError { io_error }
    }
}

/// Relies on the From impl of std::io::Error for std::io::ErrorKind: an I/O
/// error value reporting an unexpected end of file, handed out where a
/// corrupt length word sends a read past the end of the region image.
#[verifier::external_body]
pub(crate) fn unexpected_eof_error() -> std::io::Error {
    std::io::Error::from(std::io::ErrorKind::UnexpectedEof)
}

} // verus!
