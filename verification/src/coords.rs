//! Mapping between world chunk coordinates and region files.
//!
//! A region holds a 32 x 32 block of chunks. World chunk coordinates are
//! signed; the region coordinate is the floor of the chunk coordinate divided
//! by 32, and the local coordinate is the remainder in `[0, 32)`.

use vstd::prelude::*;
use vstd::arithmetic::div_mod::lemma_fundamental_div_mod_converse;

verus! {

/// Region coordinates of the region file that holds the given chunk.
///
/// Division in the contract is Euclidean, so it floors toward negative
/// infinity: chunk (0, -1) lies in region (0, -1).
pub fn chunk_coords_to_region_coords(chunk_x: i32, chunk_z: i32) -> (r: (i32, i32))
    ensures
        r.0 == chunk_x as int / 32,
        r.1 == chunk_z as int / 32,
{
    proof {
        lemma_shr_5_is_div_32(chunk_x);
        lemma_shr_5_is_div_32(chunk_z);
    }
    (chunk_x >> 5, chunk_z >> 5)
}

/// Local coordinates of the given chunk within its region, each in `[0, 32)`.
pub fn chunk_coords_inside_region(chunk_x: i32, chunk_z: i32) -> (r: (u8, u8))
    ensures
        r.0 == chunk_x as int % 32,
        r.1 == chunk_z as int % 32,
{
    proof {
        lemma_and_31_is_mod_32(chunk_x);
        lemma_and_31_is_mod_32(chunk_z);
    }
    ((chunk_x & 0x1F) as u8, (chunk_z & 0x1F) as u8)
}

/// A chunk position split into its region coordinates and its local
/// coordinates inside that region.
#[derive(Copy, Clone, Debug, PartialEq, Eq, Structural)]
pub struct RegionAndOffset {
    pub region_x: i32,
    pub region_z: i32,
    pub region_chunk_x: u8,
    pub region_chunk_z: u8,
}

impl RegionAndOffset {
    /// Splits world chunk coordinates into region and local coordinates.
    pub fn from_chunk(chunk_x: i32, chunk_z: i32) -> (r: Self)
        ensures
            r.region_x == chunk_x as int / 32,
            r.region_z == chunk_z as int / 32,
            r.region_chunk_x == chunk_x as int % 32,
            r.region_chunk_z == chunk_z as int % 32,
    {
        let (region_x, region_z) = chunk_coords_to_region_coords(chunk_x, chunk_z);
        let (region_chunk_x, region_chunk_z) = chunk_coords_inside_region(chunk_x, chunk_z);

        Self { region_x, region_z, region_chunk_x, region_chunk_z }
    }
}

/// Index of a chunk's entry in the 1024-slot metadata table: rows are local
/// z, columns local x.
pub fn metadata_index(chunk_x: u8, chunk_z: u8) -> (index: usize)
    requires
        chunk_x < 32,
        chunk_z < 32,
    ensures
        index == chunk_x + chunk_z * 32,
        index < 1024,
{
    chunk_x as usize + chunk_z as usize * 32
}

/// Splitting a chunk coordinate into a region coordinate and a local
/// coordinate loses nothing: `region * 32 + local` recovers the chunk
/// coordinate, and the local coordinate lies in `[0, 32)`. Applies to each
/// axis of `RegionAndOffset::from_chunk`.
pub proof fn lemma_coord_split_bijection(c: i32)
    ensures
        (c as int / 32) * 32 + (c as int % 32) == c,
        0 <= c as int % 32 < 32,
{
}

/// The arithmetic right shift by 5 used on chunk coordinates equals flooring
/// Euclidean division by 32.
proof fn lemma_shr_5_is_div_32(c: i32)
    ensures
        c >> 5 == c as int / 32,
{
    assert((c >> 5) * 32 + (c & 0x1F) == c && 0 <= (c & 0x1F) < 32) by (bit_vector);
    lemma_fundamental_div_mod_converse(c as int, 32, (c >> 5) as int, (c & 0x1F) as int);
}

/// The mask by 31 used on chunk coordinates equals the Euclidean remainder
/// modulo 32.
proof fn lemma_and_31_is_mod_32(c: i32)
    ensures
        c & 0x1F == c as int % 32,
{
    assert((c >> 5) * 32 + (c & 0x1F) == c && 0 <= (c & 0x1F) < 32) by (bit_vector);
    lemma_fundamental_div_mod_converse(c as int, 32, (c >> 5) as int, (c & 0x1F) as int);
}

} // verus!
