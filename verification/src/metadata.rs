//! Per-slot chunk metadata, as stored in the region header.
//!
//! Each of the 1024 slots of a region records the first sector of its chunk
//! payload, the number of sectors the payload occupies (zero for an empty
//! slot), and the time of the last write in seconds since the Unix epoch.

use vstd::prelude::*;

verus! {

/// Metadata of one chunk slot: where its payload starts, how many sectors it
/// occupies, and when it was last written. `sectors == 0` means the slot is
/// empty.
#[derive(Copy, Clone, Debug, PartialEq, Eq, Structural)]
pub struct AnvilChunkMetadata {
    /// Sector index at which the chunk payload starts.
    pub sector_index: u32,
    /// Number of sectors used to store the chunk; zero for an empty slot.
    pub sectors: u8,
    /// Seconds since the Unix epoch of the last write to this slot.
    pub last_modified_timestamp: u32,
}

impl AnvilChunkMetadata {
    /// Builds a metadata entry from its three fields.
    pub fn new(sector_index: u32, sectors: u8, last_modified_timestamp: u32) -> (r: Self)
        ensures
            r == (AnvilChunkMetadata { sector_index, sectors, last_modified_timestamp }),
    {
        AnvilChunkMetadata { sector_index, sectors, last_modified_timestamp }
    }

    /// An empty slot holds no sectors.
    pub fn is_empty(&self) -> (r: bool)
        ensures
            r == (self.sectors == 0),
    {
        self.sectors == 0
    }

    /// Stamps the entry with the current time. Only the timestamp changes;
    /// its value depends on the clock and is not specified further.
    pub fn update_last_modified_timestamp(&mut self)
        ensures
            final(self).sector_index == old(self).sector_index,
            final(self).sectors == old(self).sectors,
    {
        let now: u32 = now_epoch_seconds();
        self.last_modified_timestamp = now;
    }
}

/// Whether sector `i` lies inside the run of sectors owned by this entry.
pub open spec fn covers(m: AnvilChunkMetadata, i: int) -> bool {
    m.sectors != 0 && m.sector_index <= i < m.sector_index + m.sectors
}

/// Whether any entry of the metadata table owns sector `i`.
pub open spec fn some_slot_covers(meta: Seq<AnvilChunkMetadata>, i: int) -> bool {
    exists|s: int| 0 <= s < meta.len() && #[trigger] covers(meta[s], i)
}

/// Relies on std::time::SystemTime::now and duration_since of the Unix
/// epoch: the current time in whole seconds, truncated to 32 bits; 0 if the
/// clock reads earlier than the epoch. The value depends on the wall clock,
/// so nothing is promised of it.
#[verifier::external_body]
pub(crate) fn now_epoch_seconds() -> u32 {
    match std::time::SystemTime::now().duration_since(std::time::UNIX_EPOCH) {
        Ok(duration) => duration.as_secs() as u32,
        Err(_) => 0,
    }
}

} // verus!
