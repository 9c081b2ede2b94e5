//! Storage of world chunks in the Anvil region file format.
//!
//! A region file packs up to 1024 chunks into 4096-byte sectors. The first
//! two sectors hold a header of 1024 offset words and 1024 timestamp words;
//! the remaining sectors hold compressed chunk payloads. This crate keeps a
//! region image, its metadata table and a sector-occupancy bitmap in
//! lockstep, and proves that the header always mirrors the table, that the
//! runs of distinct slots never overlap, and that the bitmap records exactly
//! the occupied sectors.

pub mod bits;
pub mod byteops;
pub mod coords;
pub mod errors;
pub mod filename;
pub mod header;
pub mod metadata;
pub mod model;
pub mod nbt_codec;
pub mod region;

pub use bits::{used_sectors, SectorBitmap};
pub use coords::{
    chunk_coords_inside_region, chunk_coords_to_region_coords, metadata_index, RegionAndOffset,
};
pub use errors::{ChunkLoadError, ChunkSaveError};
pub use filename::{parse_region_file_name, region_name};
pub use header::read_header;
pub use metadata::AnvilChunkMetadata;
pub use region::{region_image_ok, AnvilRegion};
