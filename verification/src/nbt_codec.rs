//! The boundary to the external NBT tag codec.
//!
//! Chunk payloads are compound tags compressed with gzip or zlib. Encoding
//! and decoding are the codec's work, not this crate's: the results are named
//! (`zlib_bytes_of`, `zlib_tag_of`, `gzip_tag_of`) rather than restated,
//! since each depends on its input alone, and the engine's contracts speak of
//! those names.

use vstd::prelude::*;

verus! {

#[verifier::external_type_specification]
#[verifier::external_body]
pub struct ExCompoundTag(nbt::CompoundTag);

/// The zlib-compressed NBT encoding of a compound tag.
pub uninterp spec fn zlib_bytes_of(tag: nbt::CompoundTag) -> Seq<u8>;

/// The compound tag, if any, that the codec decodes from zlib-compressed
/// bytes.
pub uninterp spec fn zlib_tag_of(bytes: Seq<u8>) -> Option<nbt::CompoundTag>;

/// The compound tag, if any, that the codec decodes from gzip-compressed
/// bytes.
pub uninterp spec fn gzip_tag_of(bytes: Seq<u8>) -> Option<nbt::CompoundTag>;

/// Relies on nbt's write_zlib_compound_tag: the encoding depends on the tag
/// alone, and written into a growing vector it always succeeds with exactly
/// those bytes. The call's only error paths are the sink's writes, which a
/// vector never fails, and the compressor, which a freshly created zlib
/// stream fed valid flush values never fails.
#[verifier::external_body]
pub(crate) fn encode_zlib_tag(tag: &nbt::CompoundTag) -> (r: Result<Vec<u8>, std::io::Error>)
    ensures
        r is Ok,
        r is Ok ==> r->Ok_0@ == zlib_bytes_of(*tag),
{
    let mut buffer = Vec::new();
    match nbt::encode::write_zlib_compound_tag(&mut buffer, tag) {
        Ok(()) => Ok(buffer),
        Err(io_error) => Err(io_error),
    }
}

/// Relies on nbt's read_zlib_compound_tag: whether the bytes decode, and to
/// which tag, depends on the bytes alone.
#[verifier::external_body]
pub(crate) fn decode_zlib_tag(bytes: &[u8]) -> (r: Result<
    nbt::CompoundTag,
    nbt::decode::TagDecodeError,
>)
    ensures
        r is Ok <==> zlib_tag_of(bytes@) is Some,
        r is Ok ==> zlib_tag_of(bytes@) == Some(r->Ok_0),
{
    let mut cursor = std::io::Cursor::new(bytes);
    nbt::decode::read_zlib_compound_tag(&mut cursor)
}

/// Relies on nbt's read_gzip_compound_tag: whether the bytes decode, and to
/// which tag, depends on the bytes alone.
#[verifier::external_body]
pub(crate) fn decode_gzip_tag(bytes: &[u8]) -> (r: Result<
    nbt::CompoundTag,
    nbt::decode::TagDecodeError,
>)
    ensures
        r is Ok <==> gzip_tag_of(bytes@) is Some,
        r is Ok ==> gzip_tag_of(bytes@) == Some(r->Ok_0),
{
    let mut cursor = std::io::Cursor::new(bytes);
    nbt::decode::read_gzip_compound_tag(&mut cursor)
}

} // verus!
