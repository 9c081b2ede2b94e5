//! The region engine.
//!
//! An `AnvilRegion` keeps a region file image in memory together with its
//! 1024-entry metadata table and the sector-occupancy bitmap, and maintains
//! `RegionView::wf` across every operation: the header bytes always mirror
//! the table, the bitmap always records exactly the header sectors plus the
//! slot runs, and runs never overlap. Reading and writing chunk payloads is
//! specified exactly by `spec_read_payload` and `spec_write` over the ghost
//! state.

use vstd::prelude::*;
use crate::bits::{sector_bits, used_sectors, SectorBitmap};
use crate::byteops::{
    copy_range, push_zeros, put_bytes_at, put_u32_be_at, read_u32_be_at, splice, u32_be_bytes,
    zero_range_at, zeros,
};
use crate::coords::metadata_index;
use crate::errors::{unexpected_eof_error, ChunkLoadError, ChunkSaveError};
use crate::nbt_codec::{
    decode_gzip_tag, decode_zlib_tag, encode_zlib_tag, gzip_tag_of, zlib_bytes_of, zlib_tag_of,
};
use crate::header::{
    parsed_header, read_header, REGION_HEADER_BYTES_LENGTH, REGION_SECTOR_BYTES_LENGTH,
};
use crate::metadata::{now_epoch_seconds, AnvilChunkMetadata};
use crate::model::{
    clear_run, first_fit, fits_at, image_view, lemma_first_fit_exact, lemma_first_fit_none,
    lemma_place_run_props, lemma_spec_write_wf, lemma_stored_bytes_len,
    lemma_trailing_free_props, norm_image, payload_len_allowed, place_run, read_cap,
    region_image_wf, sectors_required, set_range, spec_read_payload, spec_write, stored_bytes,
    trailing_free, PayloadReadOutcome, RegionView,
};

verus! {

/// A 32 x 32 group of chunks, stored as one sector-allocated file image.
pub struct AnvilRegion {
    /// The bytes of the region file.
    data: Vec<u8>,
    /// One metadata entry per chunk slot.
    chunks_metadata: Vec<AnvilChunkMetadata>,
    /// Which sectors of the file are taken.
    used_sectors: SectorBitmap,
}

impl View for AnvilRegion {
    type V = RegionView;

    closed spec fn view(&self) -> RegionView {
        RegionView {
            data: self.data@,
            meta: self.chunks_metadata@,
            bits: sector_bits(self.used_sectors),
        }
    }
}

impl AnvilRegion {
    /// Opens a region held in the given byte image. A short image is first
    /// zero-extended to the 8 KiB header length; then the metadata table is
    /// read from the header and the sector bitmap is rebuilt from the table.
    pub fn new(file: Vec<u8>) -> (r: AnvilRegion)
        requires
            region_image_wf(file@),
        ensures
            r@ == image_view(file@),
            r@.wf(),
    {
        let mut data = file;
        let len: usize = data.len();
        if len < REGION_HEADER_BYTES_LENGTH {
            push_zeros(&mut data, REGION_HEADER_BYTES_LENGTH - len);
        }
        assert(data@ =~= norm_image(file@));
        let chunks_metadata = read_header(&data);
        let total: usize = data.len() / REGION_SECTOR_BYTES_LENGTH;
        proof {
            assert(image_view(file@).total_sectors() == total);
            assert(total >= 2);
            assert(usize::MAX / 4096 < usize::MAX / 64);
            assert(total <= usize::MAX / 4096);
            assert(image_view(file@).runs_in_bounds());
            assert(forall|s: int|
                0 <= s < chunks_metadata@.len() && #[trigger] chunks_metadata@[s].sectors != 0
                    ==> chunks_metadata@[s].sector_index + chunks_metadata@[s].sectors <= total);
        }
        let used = used_sectors(total as u32, chunks_metadata.as_slice());
        let r = AnvilRegion { data, chunks_metadata, used_sectors: used };
        assert(r@.bits =~= image_view(file@).bits);
        r
    }

    /// The bytes of the region file image.
    pub fn data(&self) -> (d: &Vec<u8>)
        ensures
            d@ == self@.data,
    {
        &self.data
    }

    /// Gives the region file image up to the caller, consuming the engine.
    pub fn into_data(self) -> (d: Vec<u8>)
        ensures
            d@ == self@.data,
    {
        self.data
    }

    /// The sector-occupancy bitmap.
    pub fn used_sectors(&self) -> (b: &SectorBitmap)
        ensures
            sector_bits(*b) == self@.bits,
    {
        &self.used_sectors
    }

    /// The metadata entry of the slot at the given local coordinates.
    pub fn get_metadata(&self, chunk_x: u8, chunk_z: u8) -> (m: AnvilChunkMetadata)
        requires
            chunk_x < 32,
            chunk_z < 32,
            self@.meta.len() == 1024,
        ensures
            m == self@.meta[chunk_x + chunk_z * 32],
    {
        self.chunks_metadata[metadata_index(chunk_x, chunk_z)]
    }
}

/// Decides whether a byte image is a region image the engine accepts: see
/// `region_image_wf`. The engine's constructor requires exactly this.
pub fn region_image_ok(data: &Vec<u8>) -> (b: bool)
    ensures
        b == region_image_wf(data@),
{
    let len: usize = data.len();
    let ghost n = norm_image(data@);
    let ghost v = image_view(data@);

    if len >= REGION_HEADER_BYTES_LENGTH && len % REGION_SECTOR_BYTES_LENGTH != 0 {
        assert(!v.file_aligned());
        return false;
    }
    // Work on the zero-padded image.
    let mut padded: Vec<u8> = Vec::new();
    let mut k: usize = 0;
    while k < len
        invariant
            len == data@.len(),
            0 <= k <= len,
            padded@ == data@.subrange(0, k as int),
        decreases len - k,
    {
        padded.push(data[k]);
        assert(padded@ =~= data@.subrange(0, k + 1));
        k = k + 1;
    }
    assert(padded@ =~= data@);
    if len < REGION_HEADER_BYTES_LENGTH {
        push_zeros(&mut padded, REGION_HEADER_BYTES_LENGTH - len);
    }
    assert(padded@ =~= n);

    let total: usize = padded.len() / REGION_SECTOR_BYTES_LENGTH;
    assert(total == v.total_sectors());
    if total > (u32::MAX as usize) {
        return false;
    }

    let meta = read_header(&padded);
    let mut s: usize = 0;
    while s < 1024
        invariant
            v == image_view(data@),
            meta@ == parsed_header(n),
            total == v.total_sectors(),
            v.meta == meta@,
            0 <= s <= 1024,
            forall|t: int|
                0 <= t < s && #[trigger] meta@[t].sectors != 0 ==> 2 <= meta@[t].sector_index
                    && meta@[t].sector_index + meta@[t].sectors <= total,
        decreases 1024 - s,
    {
        let m = meta[s];
        if m.sectors != 0 {
            if m.sector_index < 2 || m.sector_index as u64 + m.sectors as u64 > total as u64 {
                assert(!v.runs_in_bounds());
                return false;
            }
        }
        s = s + 1;
    }
    assert(v.runs_in_bounds());

    let mut s2: usize = 1;
    while s2 < 1024
        invariant
            v == image_view(data@),
            meta@ == parsed_header(n),
            v.meta == meta@,
            1 <= s2 <= 1024,
            forall|a: int, b: int|
                #![trigger meta@[a], meta@[b]]
                0 <= a < b < s2 && meta@[a].sectors != 0 && meta@[b].sectors != 0 ==> (
                meta@[a].sector_index + meta@[a].sectors <= meta@[b].sector_index
                    || meta@[b].sector_index + meta@[b].sectors <= meta@[a].sector_index),
        decreases 1024 - s2,
    {
        let mb = meta[s2];
        if mb.sectors != 0 {
            let mut s1: usize = 0;
            while s1 < s2
                invariant
                    v == image_view(data@),
                    meta@ == parsed_header(n),
                    v.meta == meta@,
                    0 <= s1 <= s2 < 1024,
                    mb == meta@[s2 as int],
                    mb.sectors != 0,
                    forall|a: int|
                        0 <= a < s1 && #[trigger] meta@[a].sectors != 0 ==> (meta@[a].sector_index
                            + meta@[a].sectors <= mb.sector_index || mb.sector_index + mb.sectors
                            <= meta@[a].sector_index),
                decreases s2 - s1,
            {
                let ma = meta[s1];
                if ma.sectors != 0 {
                    let a_end = ma.sector_index as u64 + ma.sectors as u64;
                    let b_end = mb.sector_index as u64 + mb.sectors as u64;
                    if !(a_end <= mb.sector_index as u64 || b_end <= ma.sector_index as u64) {
                        assert(!v.runs_disjoint());
                        return false;
                    }
                }
                s1 = s1 + 1;
            }
        }
        s2 = s2 + 1;
    }
    assert(v.runs_disjoint());
    assert(v.wf());
    true
}

/// Gzip compression scheme byte in a chunk record.
pub const GZIP_COMPRESSION_TYPE: u8 = 1;

/// Zlib compression scheme byte in a chunk record.
pub const ZLIB_COMPRESSION_TYPE: u8 = 2;

impl AnvilRegion {
    /// Reads the raw chunk record of the slot at the given local
    /// coordinates: its compression scheme byte and its compressed body.
    /// The outcome follows `spec_read_payload` exactly: an empty slot is
    /// `ChunkNotFound`, a length word over the slot's capacity is
    /// `LengthExceedsMaximum`, and a zero or overlong length word is a
    /// `ReadError`.
    pub fn read_chunk_payload(&self, chunk_x: u8, chunk_z: u8) -> (r: Result<
        (u8, Vec<u8>),
        ChunkLoadError,
    >)
        requires
            chunk_x < 32,
            chunk_z < 32,
            self@.wf(),
        ensures
            ({
                let outcome = spec_read_payload(self@, chunk_x + chunk_z * 32);
                &&& (r matches Ok(p) ==> outcome == (PayloadReadOutcome::Payload {
                    scheme: p.0,
                    body: p.1@,
                }))
                &&& (outcome matches PayloadReadOutcome::Payload { scheme, body } ==> r is Ok)
                &&& (r matches Err(e) ==> match e {
                    ChunkLoadError::ChunkNotFound { chunk_x: cx, chunk_z: cz } => {
                        &&& outcome is NotFound
                        &&& cx == chunk_x
                        &&& cz == chunk_z
                    },
                    ChunkLoadError::LengthExceedsMaximum { length, maximum_length } => outcome
                        == (PayloadReadOutcome::LengthExceeds { length, maximum_length }),
                    ChunkLoadError::ReadError { .. } => outcome is Truncated,
                    _ => false,
                })
            }),
    {
        let ghost slot = chunk_x + chunk_z * 32;
        let data_len: usize = self.data.len();
        let slot_meta = self.get_metadata(chunk_x, chunk_z);

        if slot_meta.sectors == 0 {
            return Err(ChunkLoadError::ChunkNotFound { chunk_x, chunk_z });
        }
        proof {
            assert(self@.meta[slot].sectors != 0);
            vstd::arithmetic::div_mod::lemma_fundamental_div_mod(self@.data.len() as int, 4096);
            assert(self@.data.len() == self@.total_sectors() * 4096);
            assert((slot_meta.sector_index + slot_meta.sectors) * 4096 <= self@.total_sectors()
                * 4096) by (nonlinear_arith)
                requires
                    slot_meta.sector_index + slot_meta.sectors <= self@.total_sectors(),
            ;
            assert(slot_meta.sector_index * 4096 + slot_meta.sectors * 4096 == (
            slot_meta.sector_index + slot_meta.sectors) * 4096) by (nonlinear_arith);
            assert(slot_meta.sectors * 4096 >= 4096) by (nonlinear_arith)
                requires
                    slot_meta.sectors >= 1,
            ;
        }
        let seek_offset: usize = slot_meta.sector_index as usize * REGION_SECTOR_BYTES_LENGTH;
        let run_bytes: u32 = slot_meta.sectors as u32 * 4096;
        let maximum_length: u32 = if run_bytes < 0x100000 {
            run_bytes
        } else {
            0x100000
        };
        assert(maximum_length == read_cap(self@.meta[slot]));

        let length = read_u32_be_at(&self.data, seek_offset);
        if length > maximum_length {
            return Err(ChunkLoadError::LengthExceedsMaximum { length, maximum_length });
        }
        if length == 0 || length as u64 + 4 > (data_len - seek_offset) as u64 {
            return Err(ChunkLoadError::ReadError { io_error: unexpected_eof_error() });
        }
        let compression_scheme = self.data[seek_offset + 4];
        let body = copy_range(&self.data, seek_offset + 5, (length - 1) as usize);
        assert(body@ =~= self@.data.subrange(
            seek_offset + 5,
            seek_offset as int + 4 + length as int,
        ));
        Ok((compression_scheme, body))
    }

    /// Reads and decodes the chunk stored at the given local coordinates.
    /// The record is read as `spec_read_payload` says; a gzip record (scheme
    /// 1) or zlib record (scheme 2) is handed to the tag codec, whose result
    /// is named by `gzip_tag_of` and `zlib_tag_of`; any other scheme byte is
    /// `UnsupportedCompressionScheme`.
    pub fn read_chunk(&self, chunk_x: u8, chunk_z: u8) -> (r: Result<
        nbt::CompoundTag,
        ChunkLoadError,
    >)
        requires
            chunk_x < 32,
            chunk_z < 32,
            self@.wf(),
        ensures
            ({
                let outcome = spec_read_payload(self@, chunk_x + chunk_z * 32);
                &&& (outcome matches PayloadReadOutcome::Payload { scheme, body } ==> {
                    if scheme == GZIP_COMPRESSION_TYPE {
                        &&& (r is Ok <==> gzip_tag_of(body) is Some)
                        &&& (r matches Ok(t) ==> gzip_tag_of(body) == Some(t))
                        &&& (r matches Err(e) ==> e matches ChunkLoadError::TagDecodeError { .. })
                    } else if scheme == ZLIB_COMPRESSION_TYPE {
                        &&& (r is Ok <==> zlib_tag_of(body) is Some)
                        &&& (r matches Ok(t) ==> zlib_tag_of(body) == Some(t))
                        &&& (r matches Err(e) ==> e matches ChunkLoadError::TagDecodeError { .. })
                    } else {
                        r == Err::<nbt::CompoundTag, _>(
                            ChunkLoadError::UnsupportedCompressionScheme {
                                compression_scheme: scheme,
                            },
                        )
                    }
                })
                &&& (outcome is NotFound ==> r == Err::<nbt::CompoundTag, _>(
                    ChunkLoadError::ChunkNotFound { chunk_x, chunk_z },
                ))
                &&& (outcome matches PayloadReadOutcome::LengthExceeds { length, maximum_length }
                    ==> r == Err::<nbt::CompoundTag, _>(
                    ChunkLoadError::LengthExceedsMaximum { length, maximum_length },
                ))
                &&& (outcome is Truncated ==> r matches Err(ChunkLoadError::ReadError { .. }))
            }),
    {
        let (compression_scheme, body) = match self.read_chunk_payload(chunk_x, chunk_z) {
            Ok(p) => p,
            Err(e) => {
                return Err(e);
            },
        };
        if compression_scheme == GZIP_COMPRESSION_TYPE {
            match decode_gzip_tag(body.as_slice()) {
                Ok(tag) => Ok(tag),
                Err(tag_decode_error) => Err(
                    ChunkLoadError::TagDecodeError { tag_decode_error },
                ),
            }
        } else if compression_scheme == ZLIB_COMPRESSION_TYPE {
            match decode_zlib_tag(body.as_slice()) {
                Ok(tag) => Ok(tag),
                Err(tag_decode_error) => Err(
                    ChunkLoadError::TagDecodeError { tag_decode_error },
                ),
            }
        } else {
            Err(ChunkLoadError::UnsupportedCompressionScheme { compression_scheme })
        }
    }
}

/// Clears the bits of the given slot run; a no-op for an empty entry.
fn clear_run_bits(bits: &mut SectorBitmap, m: AnvilChunkMetadata)
    requires
        m.sectors != 0 ==> m.sector_index + m.sectors <= sector_bits(*old(bits)).len(),
    ensures
        sector_bits(*final(bits)) == clear_run(sector_bits(*old(bits)), m),
{
    if m.sectors != 0 {
        let total: usize = bits.len();
        let start: usize = m.sector_index as usize;
        let end: usize = start + m.sectors as usize;
        let mut j: usize = start;
        while j < end
            invariant
                m.sectors != 0,
                start == m.sector_index,
                end == start + m.sectors,
                end <= sector_bits(*bits).len(),
                start <= j <= end,
                sector_bits(*bits).len() == sector_bits(*old(bits)).len(),
                forall|i: int|
                    0 <= i < sector_bits(*bits).len() ==> sector_bits(*bits)[i] == (if start <= i
                        < j {
                        false
                    } else {
                        sector_bits(*old(bits))[i]
                    }),
            decreases end - j,
        {
            bits.set(j, false);
            j = j + 1;
        }
    }
    assert(sector_bits(*bits) =~= clear_run(sector_bits(*old(bits)), m));
}

/// Sets the bits of the range `[start, start + n)`.
fn set_range_bits(bits: &mut SectorBitmap, start: usize, n: usize)
    requires
        start + n <= sector_bits(*old(bits)).len(),
    ensures
        sector_bits(*final(bits)) == set_range(sector_bits(*old(bits)), start as int, n as int),
{
    let total: usize = bits.len();
    let mut j: usize = start;
    let end: usize = start + n;
    while j < end
        invariant
            end == start + n,
            end <= sector_bits(*bits).len(),
            start <= j <= end,
            sector_bits(*bits).len() == sector_bits(*old(bits)).len(),
            forall|i: int|
                0 <= i < sector_bits(*bits).len() ==> sector_bits(*bits)[i] == (if start <= i < j {
                    true
                } else {
                    sector_bits(*old(bits))[i]
                }),
        decreases end - j,
    {
        bits.set(j, true);
        j = j + 1;
    }
    assert(sector_bits(*bits) =~= set_range(sector_bits(*old(bits)), start as int, n as int));
}

/// Scans the bitmap from sector 0 upward for the first run of `need` clear
/// bits. Returns the start of that run, or, when none exists, the length of
/// the run of clear bits at the end of the bitmap.
fn scan_for_gap(bits: &SectorBitmap, need: usize) -> (r: (Option<usize>, usize))
    requires
        1 <= need,
    ensures
        (r.0 matches Some(s) ==> first_fit(sector_bits(*bits), need as int) == Some(s as int)),
        r.0 is None ==> first_fit(sector_bits(*bits), need as int) is None && r.1
            == trailing_free(sector_bits(*bits)),
{
    let ghost bv = sector_bits(*bits);
    let total = bits.len();
    let mut sectors_free: usize = 0;
    let mut i: usize = 0;
    while i < total
        invariant
            bv == sector_bits(*bits),
            total == bv.len(),
            1 <= need,
            0 <= i <= total,
            sectors_free <= i,
            sectors_free < need,
            forall|k: int| i - sectors_free <= k < i ==> !bv[k],
            i - sectors_free == 0 || bv[i - sectors_free - 1],
            forall|x: int| 0 <= x && x + need <= i ==> !fits_at(bv, need as int, x),
        decreases total - i,
    {
        if bits.get(i) {
            proof {
                assert forall|x: int| 0 <= x && x + need <= i + 1 implies !fits_at(
                    bv,
                    need as int,
                    x,
                ) by {
                    if x + need == i + 1 {
                        assert(bv[i as int]);
                    }
                }
            }
            sectors_free = 0;
        } else {
            sectors_free = sectors_free + 1;
            if sectors_free == need {
                let put_sector_index = i + 1 - need;
                proof {
                    assert(fits_at(bv, need as int, put_sector_index as int));
                    assert forall|x: int| 0 <= x < put_sector_index implies !fits_at(
                        bv,
                        need as int,
                        x,
                    ) by {
                        assert(x + need <= i);
                    }
                    lemma_first_fit_exact(bv, need as int, put_sector_index as int);
                }
                return (Some(put_sector_index), sectors_free);
            }
            proof {
                assert forall|x: int| 0 <= x && x + need <= i + 1 implies !fits_at(
                    bv,
                    need as int,
                    x,
                ) by {
                    if x + need == i + 1 {
                        assert(!fits_at(bv, need as int, x)) by {
                            assert(x == i + 1 - need);
                            if fits_at(bv, need as int, x) {
                                assert(forall|k: int| x <= k < x + need ==> !bv[k]);
                                assert(x <= i - sectors_free + 1 - 1 < x + need);
                                assert(i - (sectors_free - 1) == 0 || bv[i - (sectors_free - 1)
                                    - 1]);
                                assert(false);
                            }
                        }
                    }
                }
            }
        }
        i = i + 1;
    }
    proof {
        assert forall|x: int| 0 <= x implies !fits_at(bv, need as int, x) by {
            if x + need <= total {
                assert(!fits_at(bv, need as int, x));
            } else {
                assert(x + need > bv.len());
            }
        }
        lemma_first_fit_none(bv, need as int);
        lemma_trailing_free_props(bv);
        let t = trailing_free(bv);
        if sectors_free < t {
            assert(t <= total);
            assert(!bv[total - sectors_free - 1]) by {
                assert(total - t <= total - sectors_free - 1 < total);
            }
            assert(false);
        }
        if sectors_free > t {
            assert(t < total);
            assert(!bv[total - t - 1]) by {
                assert(total - sectors_free <= total - t - 1 < total);
            }
            assert(false);
        }
    }
    (None, sectors_free)
}

impl AnvilRegion {
    /// Finds the run where a chunk record of `chunk_length` bytes will be
    /// written, following `place_run`: the slot's own run if it is exactly
    /// the right size, else the lowest gap of enough clear sectors, else the
    /// end of the file, which grows by whole zero sectors past its trailing
    /// gap. The bitmap and image are updated to the placement; the metadata
    /// table is not yet touched.
    fn find_place(&mut self, chunk_x: u8, chunk_z: u8, chunk_length: u32) -> (r:
        AnvilChunkMetadata)
        requires
            old(self)@.wf(),
            chunk_x < 32,
            chunk_z < 32,
            4 <= chunk_length,
            sectors_required(chunk_length as int) <= 255,
            old(self)@.total_sectors() <= 0x1000000 - 256,
            old(self)@.data.len() + 256 * 4096 <= usize::MAX,
        ensures
            ({
                let p = place_run(old(self)@, chunk_x + chunk_z * 32, sectors_required(
                    chunk_length as int,
                ));
                &&& final(self)@.data == p.data
                &&& final(self)@.bits == p.bits
                &&& final(self)@.meta == old(self)@.meta
                &&& r.sector_index == p.index
                &&& r.sectors == sectors_required(chunk_length as int)
            }),
    {
        let ghost slot = chunk_x + chunk_z * 32;
        let ghost v0 = self@;
        let ghost need_spec = sectors_required(chunk_length as int);
        let sectors_required: u8 = (chunk_length / 4096 + 1) as u8;
        proof {
            lemma_place_run_props(v0, slot as int, need_spec);
        }
        let metadata = self.get_metadata(chunk_x, chunk_z);

        // The chunk record fits the slot's own run exactly: reuse it.
        if metadata.sectors == sectors_required {
            return metadata;
        }
        // Release the slot's sectors so the search may reuse them.
        proof {
            if metadata.sectors != 0 {
                assert(v0.meta[slot as int].sectors != 0);
            }
        }
        clear_run_bits(&mut self.used_sectors, metadata);
        let ghost bits1 = clear_run(v0.bits, v0.meta[slot as int]);

        let (found, sectors_free) = scan_for_gap(&self.used_sectors, sectors_required as usize);
        match found {
            Some(put_sector_index) => {
                // A gap inside the file is big enough.
                proof {
                    crate::model::lemma_first_fit_from_props(bits1, need_spec, 0);
                }
                set_range_bits(&mut self.used_sectors, put_sector_index, sectors_required as usize);
                AnvilChunkMetadata::new(put_sector_index as u32, sectors_required, 0)
            },
            None => {
                // No gap is big enough: extend the file past its trailing
                // free sectors.
                proof {
                    lemma_trailing_free_props(bits1);
                    crate::model::lemma_first_fit_from_props(bits1, need_spec, 0);
                    vstd::arithmetic::div_mod::lemma_fundamental_div_mod(
                        v0.data.len() as int,
                        4096,
                    );
                    let t = trailing_free(bits1);
                    if t >= need_spec {
                        assert(fits_at(bits1, need_spec, bits1.len() - need_spec)) by {
                            assert forall|k: int|
                                bits1.len() - need_spec <= k < bits1.len() - need_spec
                                    + need_spec implies !bits1[k] by {
                                assert(bits1.len() - t <= k < bits1.len());
                            }
                        }
                        assert(!fits_at(bits1, need_spec, bits1.len() - need_spec));
                        assert(false);
                    }
                }
                let total_sectors: usize = self.used_sectors.len();
                let extend_sectors: usize = sectors_required as usize - sectors_free;
                let put_sector_index: usize = total_sectors - sectors_free;
                push_zeros(&mut self.data, extend_sectors * REGION_SECTOR_BYTES_LENGTH);
                let mut pushed: usize = 0;
                while pushed < extend_sectors
                    invariant
                        self@.meta == v0.meta,
                        self@.data == v0.data + zeros((extend_sectors * 4096) as nat),
                        extend_sectors <= 256,
                        total_sectors + 256 < usize::MAX / 64,
                        0 <= pushed <= extend_sectors,
                        sector_bits(self.used_sectors) == bits1 + Seq::new(
                            pushed as nat,
                            |i: int| false,
                        ),
                        bits1.len() == total_sectors,
                    decreases extend_sectors - pushed,
                {
                    self.used_sectors.push(false);
                    assert(sector_bits(self.used_sectors) =~= bits1 + Seq::new(
                        (pushed + 1) as nat,
                        |i: int| false,
                    ));
                    pushed = pushed + 1;
                }
                set_range_bits(&mut self.used_sectors, put_sector_index, sectors_required as usize);
                proof {
                    assert(self@.data =~= place_run(v0, slot as int, need_spec).data);
                }
                AnvilChunkMetadata::new(put_sector_index as u32, sectors_required, 0)
            },
        }
    }

    /// Records a metadata entry for the slot at the given local coordinates:
    /// the table entry is replaced, the slot's offset word is written at byte
    /// `slot * 4`, and its timestamp word 4096 bytes later. Nothing else of
    /// the image changes.
    pub fn update_metadata(&mut self, chunk_x: u8, chunk_z: u8, metadata: AnvilChunkMetadata)
        requires
            chunk_x < 32,
            chunk_z < 32,
            old(self)@.meta.len() == 1024,
            old(self)@.data.len() >= 8192,
            metadata.sector_index < 0x1000000,
        ensures
            ({
                let slot = chunk_x + chunk_z * 32;
                &&& final(self)@.meta == old(self)@.meta.update(slot as int, metadata)
                &&& final(self)@.data == splice(
                    splice(
                        old(self)@.data,
                        slot * 4,
                        u32_be_bytes(crate::header::offset_word_of(metadata)),
                    ),
                    4096 + slot * 4,
                    u32_be_bytes(metadata.last_modified_timestamp),
                )
                &&& final(self)@.bits == old(self)@.bits
            }),
    {
        let data_len: usize = self.data.len();
        let metadata_index = metadata_index(chunk_x, chunk_z);
        self.chunks_metadata.set(metadata_index, metadata);

        let offset: u32 = (metadata.sector_index << 8u32) | metadata.sectors as u32;
        assert(offset == crate::header::offset_word_of(metadata));
        put_u32_be_at(&mut self.data, metadata_index * 4, offset);
        put_u32_be_at(&mut self.data, 4096 + metadata_index * 4, metadata.last_modified_timestamp);
    }
}

/// The zlib chunk payload of a tag: the zlib scheme byte followed by the
/// codec's zlib encoding of the tag.
pub open spec fn zlib_chunk_payload(tag: nbt::CompoundTag) -> Seq<u8> {
    seq![ZLIB_COMPRESSION_TYPE] + zlib_bytes_of(tag)
}

impl AnvilRegion {
    /// Writes a raw chunk payload (compression byte included) to the slot at
    /// the given local coordinates, stamped with the given timestamp. On
    /// success the state changes exactly as `spec_write` says: the record
    /// fills the placed run, the header words and table record the new run,
    /// and the bitmap tracks the new occupancy. A payload whose record would
    /// need more sectors than the 8-bit count field can hold is rejected and
    /// nothing changes.
    pub fn write_chunk_payload(
        &mut self,
        chunk_x: u8,
        chunk_z: u8,
        payload: &Vec<u8>,
        timestamp: u32,
    ) -> (r: Result<(), ChunkSaveError>)
        requires
            old(self)@.wf(),
            chunk_x < 32,
            chunk_z < 32,
            old(self)@.total_sectors() <= 0x1000000 - 256,
            old(self)@.data.len() + 256 * 4096 <= usize::MAX,
        ensures
            final(self)@.wf(),
            payload_len_allowed(payload@.len() as int) ==> r is Ok && final(self)@ == spec_write(
                old(self)@,
                chunk_x + chunk_z * 32,
                payload@,
                timestamp,
            ),
            !payload_len_allowed(payload@.len() as int) ==> {
                &&& final(self)@ == old(self)@
                &&& r matches Err(ChunkSaveError::LengthExceedsMaximum { length }) && (payload@.len()
                    + 4 <= u32::MAX ==> length == payload@.len() + 4)
            },
    {
        let ghost v0 = self@;
        let ghost slot = chunk_x + chunk_z * 32;
        let payload_len: usize = payload.len();

        // A record of more than 255 sectors cannot be recorded in the 8-bit
        // sector count of the offset word.
        if payload_len > 255 * 4096 - 5 {
            proof {
                vstd::arithmetic::div_mod::lemma_div_is_ordered(
                    255int * 4096,
                    payload_len as int + 4,
                    4096,
                );
            }
            let length: u32 = if payload_len <= (u32::MAX - 4) as usize {
                (payload_len + 4) as u32
            } else {
                #[verifier::truncate]
                (payload_len.wrapping_add(4) as u32)
            };
            return Err(ChunkSaveError::LengthExceedsMaximum { length });
        }
        proof {
            vstd::arithmetic::div_mod::lemma_div_is_ordered(
                payload_len as int + 4,
                255 * 4096 - 1,
                4096,
            );
            assert(payload_len_allowed(payload@.len() as int));
        }
        let length: u32 = (payload_len + 4) as u32;
        let ghost need = sectors_required(length as int);
        proof {
            lemma_place_run_props(v0, slot, need);
            lemma_stored_bytes_len(payload@, need);
        }
        let ghost p = place_run(v0, slot, need);
        let mut metadata = self.find_place(chunk_x, chunk_z, length);
        proof {
            assert((p.index + need) * 4096 == p.index * 4096 + need * 4096) by (nonlinear_arith);
            assert((p.index + need) * 4096 <= p.bits.len() * 4096) by (nonlinear_arith)
                requires
                    p.index + need <= p.bits.len(),
            ;
            assert(p.index * 4096 >= 2 * 4096) by (nonlinear_arith)
                requires
                    p.index >= 2,
            ;
            assert(p.bits.len() * 4096 <= (v0.total_sectors() + 255) * 4096) by (nonlinear_arith)
                requires
                    p.bits.len() <= v0.total_sectors() + 255,
            ;
            assert((v0.total_sectors() + 255) * 4096 == v0.total_sectors() * 4096 + 255 * 4096)
                by (nonlinear_arith);
            vstd::arithmetic::div_mod::lemma_fundamental_div_mod(v0.data.len() as int, 4096);
        }
        let seek_offset: usize = metadata.sector_index as usize * REGION_SECTOR_BYTES_LENGTH;
        let sectors_bytes: usize = metadata.sectors as usize * REGION_SECTOR_BYTES_LENGTH;

        put_u32_be_at(&mut self.data, seek_offset, payload_len as u32);
        put_bytes_at(&mut self.data, seek_offset + 4, payload.as_slice());
        let padding: usize = sectors_bytes - (payload_len + 4);
        zero_range_at(&mut self.data, seek_offset + 4 + payload_len, padding);
        proof {
            assert(self@.data =~= splice(p.data, p.index * 4096, stored_bytes(payload@, need)));
        }

        metadata.last_modified_timestamp = timestamp;
        self.update_metadata(chunk_x, chunk_z, metadata);
        proof {
            assert(metadata == AnvilChunkMetadata {
                sector_index: p.index as u32,
                sectors: need as u8,
                last_modified_timestamp: timestamp,
            });
            assert(self@ == spec_write(v0, slot, payload@, timestamp));
            lemma_spec_write_wf(v0, slot, payload@, timestamp);
        }
        Ok(())
    }
}

impl AnvilRegion {
    /// Encodes a compound tag with the zlib codec and writes it to the slot
    /// at the given local coordinates, stamped with the given timestamp. The
    /// write succeeds, changing the state exactly as `spec_write` of the
    /// tag's zlib chunk payload, unless that payload's record needs more
    /// sectors than the 8-bit count field can hold, in which case
    /// `LengthExceedsMaximum` is returned and nothing changes.
    pub fn write_chunk_with_timestamp(
        &mut self,
        chunk_x: u8,
        chunk_z: u8,
        chunk_compound_tag: nbt::CompoundTag,
        timestamp: u32,
    ) -> (r: Result<(), ChunkSaveError>)
        requires
            old(self)@.wf(),
            chunk_x < 32,
            chunk_z < 32,
            old(self)@.total_sectors() <= 0x1000000 - 256,
            old(self)@.data.len() + 256 * 4096 <= usize::MAX,
        ensures
            final(self)@.wf(),
            ({
                let payload = zlib_chunk_payload(chunk_compound_tag);
                match r {
                    Ok(()) => payload_len_allowed(payload.len() as int) && final(self)@
                        == spec_write(old(self)@, chunk_x + chunk_z * 32, payload, timestamp),
                    Err(ChunkSaveError::LengthExceedsMaximum { length }) => {
                        &&& !payload_len_allowed(payload.len() as int)
                        &&& final(self)@ == old(self)@
                        &&& (payload.len() + 4 <= u32::MAX ==> length == payload.len() + 4)
                    },
                    Err(ChunkSaveError::WriteError { .. }) => false,
                }
            }),
    {
        let encoded = match encode_zlib_tag(&chunk_compound_tag) {
            Ok(encoded) => encoded,
            Err(io_error) => {
                return Err(ChunkSaveError::WriteError { io_error });
            },
        };
        let mut payload: Vec<u8> = Vec::new();
        payload.push(ZLIB_COMPRESSION_TYPE);
        let mut tail = encoded;
        payload.append(&mut tail);
        assert(payload@ =~= zlib_chunk_payload(chunk_compound_tag));
        self.write_chunk_payload(chunk_x, chunk_z, &payload, timestamp)
    }

    /// Encodes a compound tag with the zlib codec and writes it to the slot
    /// at the given local coordinates, stamped with the current time. Apart
    /// from the timestamp, which depends on the clock, the write succeeds
    /// and changes the state as `write_chunk_with_timestamp` says.
    pub fn write_chunk(
        &mut self,
        chunk_x: u8,
        chunk_z: u8,
        chunk_compound_tag: nbt::CompoundTag,
    ) -> (r: Result<(), ChunkSaveError>)
        requires
            old(self)@.wf(),
            chunk_x < 32,
            chunk_z < 32,
            old(self)@.total_sectors() <= 0x1000000 - 256,
            old(self)@.data.len() + 256 * 4096 <= usize::MAX,
        ensures
            final(self)@.wf(),
            ({
                let payload = zlib_chunk_payload(chunk_compound_tag);
                match r {
                    Ok(()) => payload_len_allowed(payload.len() as int) && (exists|t: u32|
                        final(self)@ == #[trigger] spec_write(
                            old(self)@,
                            chunk_x + chunk_z * 32,
                            payload,
                            t,
                        )),
                    Err(ChunkSaveError::LengthExceedsMaximum { .. }) => !payload_len_allowed(
                        payload.len() as int,
                    ) && final(self)@ == old(self)@,
                    Err(ChunkSaveError::WriteError { .. }) => false,
                }
            }),
    {
        let timestamp = now_epoch_seconds();
        let r = self.write_chunk_with_timestamp(chunk_x, chunk_z, chunk_compound_tag, timestamp);
        proof {
            if r is Ok {
                assert(self@ == spec_write(
                    old(self)@,
                    chunk_x + chunk_z * 32,
                    zlib_chunk_payload(chunk_compound_tag),
                    timestamp,
                ));
            }
        }
        r
    }
}

/// The world coordinates of the non-empty slots among the first `n` slots of
/// a region at `(rx, rz)`, in slot order: slot `s` holds the chunk at
/// `(rx * 32 + s % 32, rz * 32 + s / 32)`.
pub open spec fn listed_chunks(
    meta: Seq<AnvilChunkMetadata>,
    rx: int,
    rz: int,
    n: int,
) -> Seq<(i32, i32)>
    decreases n
        when n >= 0
{
    if n <= 0 {
        Seq::empty()
    } else {
        let s = n - 1;
        let rest = listed_chunks(meta, rx, rz, s);
        if meta[s].sectors != 0 {
            rest.push(((rx * 32 + s % 32) as i32, (rz * 32 + s / 32) as i32))
        } else {
            rest
        }
    }
}

impl AnvilRegion {
    /// The world coordinates of every chunk stored in this region, taking the
    /// region to sit at `(region_x, region_z)`: slots are visited in slot
    /// order and each non-empty slot yields one coordinate pair.
    pub fn non_empty_chunks(&self, region_x: i32, region_z: i32) -> (r: Vec<(i32, i32)>)
        requires
            self@.wf(),
            -0x4000000 <= region_x < 0x4000000,
            -0x4000000 <= region_z < 0x4000000,
        ensures
            r@ == listed_chunks(self@.meta, region_x as int, region_z as int, 1024),
    {
        let mut r: Vec<(i32, i32)> = Vec::new();
        let mut region_chunk_z: u8 = 0;
        while region_chunk_z < 32
            invariant
                self@.wf(),
                -0x4000000 <= region_x < 0x4000000,
                -0x4000000 <= region_z < 0x4000000,
                0 <= region_chunk_z <= 32,
                r@ == listed_chunks(
                    self@.meta,
                    region_x as int,
                    region_z as int,
                    region_chunk_z * 32,
                ),
            decreases 32 - region_chunk_z,
        {
            let mut region_chunk_x: u8 = 0;
            while region_chunk_x < 32
                invariant
                    self@.wf(),
                    -0x4000000 <= region_x < 0x4000000,
                    -0x4000000 <= region_z < 0x4000000,
                    0 <= region_chunk_z < 32,
                    0 <= region_chunk_x <= 32,
                    r@ == listed_chunks(
                        self@.meta,
                        region_x as int,
                        region_z as int,
                        region_chunk_z * 32 + region_chunk_x,
                    ),
                decreases 32 - region_chunk_x,
            {
                let ghost s = region_chunk_z * 32 + region_chunk_x;
                let metadata = self.get_metadata(region_chunk_x, region_chunk_z);
                if !metadata.is_empty() {
                    let chunk_x = region_x * 32 + region_chunk_x as i32;
                    let chunk_z = region_z * 32 + region_chunk_z as i32;
                    r.push((chunk_x, chunk_z));
                    proof {
                        assert(s % 32 == region_chunk_x && s / 32 == region_chunk_z) by {
                            vstd::arithmetic::div_mod::lemma_fundamental_div_mod_converse(
                                s as int,
                                32,
                                region_chunk_z as int,
                                region_chunk_x as int,
                            );
                        }
                    }
                }
                region_chunk_x = region_chunk_x + 1;
            }
            region_chunk_z = region_chunk_z + 1;
        }
        r
    }
}

/// Saving a tag and then loading the same slot hands the codec back exactly
/// the bytes it produced: the stored record decodes to the zlib scheme and
/// the tag's own encoding, so the loaded tag is the codec's decoding of its
/// encoding of the saved tag.
pub proof fn lemma_save_then_load(v: RegionView, slot: int, tag: nbt::CompoundTag, timestamp: u32)
    requires
        v.wf(),
        0 <= slot < v.meta.len(),
        payload_len_allowed(zlib_chunk_payload(tag).len() as int),
        v.total_sectors() <= 0x1000000 - 256,
    ensures
        spec_read_payload(spec_write(v, slot, zlib_chunk_payload(tag), timestamp), slot)
            == (PayloadReadOutcome::Payload {
            scheme: ZLIB_COMPRESSION_TYPE,
            body: zlib_bytes_of(tag),
        }),
{
    let payload = zlib_chunk_payload(tag);
    crate::model::lemma_write_then_read(v, slot, payload, timestamp);
    assert(payload[0] == ZLIB_COMPRESSION_TYPE);
    assert(payload.skip(1) =~= zlib_bytes_of(tag));
}

} // verus!
