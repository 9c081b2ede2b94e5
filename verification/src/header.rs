//! The fixed 8 KiB region header.
//!
//! The first 4096 bytes hold 1024 big-endian offset words; the next 4096
//! bytes hold 1024 big-endian timestamp words. An offset word packs a 24-bit
//! starting sector index above an 8-bit sector count. `parsed_header` is the
//! authoritative reading of a region image's header, and the region engine
//! keeps its in-memory table equal to it at all times.

use vstd::prelude::*;
use crate::byteops::{be_u32_at, read_u32_be_at, u32_from_be};
use crate::metadata::AnvilChunkMetadata;

verus! {

/// Number of chunk slots in a region.
pub const REGION_CHUNKS: usize = 1024;

/// Length of the region header in bytes: 1024 offset words followed by 1024
/// timestamp words.
pub const REGION_HEADER_BYTES_LENGTH: usize = 8192;

/// Length of one sector in bytes.
pub const REGION_SECTOR_BYTES_LENGTH: usize = 4096;

/// The offset word of `slot`, stored at byte `slot * 4`.
pub open spec fn offset_word_at(d: Seq<u8>, slot: int) -> u32 {
    be_u32_at(d, slot * 4)
}

/// The timestamp word of `slot`, stored at byte `4096 + slot * 4`.
pub open spec fn timestamp_word_at(d: Seq<u8>, slot: int) -> u32 {
    be_u32_at(d, 4096 + slot * 4)
}

/// The metadata entry that the header bytes of `d` record for `slot`: the
/// offset word's upper 24 bits are the sector index, its lower 8 bits the
/// sector count.
pub open spec fn parsed_slot(d: Seq<u8>, slot: int) -> AnvilChunkMetadata {
    AnvilChunkMetadata {
        sector_index: offset_word_at(d, slot) >> 8,
        sectors: (offset_word_at(d, slot) & 0xFF) as u8,
        last_modified_timestamp: timestamp_word_at(d, slot),
    }
}

/// The full metadata table recorded by the header bytes of `d`.
pub open spec fn parsed_header(d: Seq<u8>) -> Seq<AnvilChunkMetadata> {
    Seq::new(REGION_CHUNKS as nat, |slot: int| parsed_slot(d, slot))
}

/// The offset word that records `m`: sector index in the upper 24 bits,
/// sector count in the lower 8.
pub open spec fn offset_word_of(m: AnvilChunkMetadata) -> u32 {
    (m.sector_index << 8) | (m.sectors as u32)
}

/// Packing a metadata entry into an offset word and parsing the word back
/// recovers the entry, as long as the sector index fits its 24 bits.
pub proof fn lemma_offset_word_roundtrip(m: AnvilChunkMetadata)
    requires
        m.sector_index < 0x1000000,
    ensures
        offset_word_of(m) >> 8 == m.sector_index,
        (offset_word_of(m) & 0xFF) as u8 == m.sectors,
{
    let index = m.sector_index;
    let sectors = m.sectors;
    assert(index < 0x1000000 ==> ((index << 8) | (sectors as u32)) >> 8 == index) by (bit_vector);
    assert((((index << 8) | (sectors as u32)) & 0xFF) as u8 == sectors) by (bit_vector);
}

/// Reads the 1024-entry metadata table out of the header bytes of a region
/// image.
pub fn read_header(data: &Vec<u8>) -> (r: Vec<AnvilChunkMetadata>)
    requires
        data@.len() >= REGION_HEADER_BYTES_LENGTH,
    ensures
        r@ == parsed_header(data@),
{
    let len: usize = data.len();
    let mut r: Vec<AnvilChunkMetadata> = Vec::new();
    let mut slot: usize = 0;
    while slot < REGION_CHUNKS
        invariant
            len == data@.len(),
            len >= REGION_HEADER_BYTES_LENGTH,
            0 <= slot <= REGION_CHUNKS,
            r@.len() == slot,
            forall|s: int| 0 <= s < slot ==> r@[s] == parsed_slot(data@, s),
        decreases REGION_CHUNKS - slot,
    {
        let offset_word = read_u32_be_at(data, slot * 4);
        let timestamp = read_u32_be_at(data, 4096 + slot * 4);
        let sector_index = offset_word >> 8;
        let sectors = (offset_word & 0xFF) as u8;
        r.push(AnvilChunkMetadata { sector_index, sectors, last_modified_timestamp: timestamp });
        slot = slot + 1;
    }
    assert(r@ =~= parsed_header(data@));
    r
}

} // verus!
