//! The mathematical model of a region.
//!
//! A `RegionView` is the ghost state of a region engine: the bytes of the
//! file image, the 1024-entry metadata table, and the sector bitmap.
//! `RegionView::wf` collects the invariants that every engine maintains:
//! the image is sector-aligned, the header bytes mirror the table, every
//! run lies past the header and inside the file, runs of distinct slots are
//! pairwise disjoint, and the set bits of the bitmap are exactly the header
//! sectors plus the union of the runs. `spec_write` and `spec_read_payload`
//! say exactly what writing and reading a chunk payload do to this state.

use vstd::prelude::*;
use crate::bits::built_bits;
use crate::byteops::{be_u32_at, splice, u32_be_bytes, zeros};
use crate::header::{offset_word_of, parsed_header};
use crate::header::lemma_offset_word_roundtrip;
use crate::metadata::{covers, some_slot_covers, AnvilChunkMetadata};

verus! {

/// Ghost state of a region engine.
pub struct RegionView {
    /// The bytes of the region file image.
    pub data: Seq<u8>,
    /// The in-memory metadata table, one entry per slot.
    pub meta: Seq<AnvilChunkMetadata>,
    /// The sector-occupancy bitmap, one bit per sector.
    pub bits: Seq<bool>,
}

impl RegionView {
    /// Number of whole sectors in the file image.
    pub open spec fn total_sectors(self) -> int {
        self.data.len() as int / 4096
    }

    /// The image holds the 8 KiB header and a whole number of sectors.
    pub open spec fn file_aligned(self) -> bool {
        self.data.len() >= 8192 && self.data.len() as int % 4096 == 0
    }

    /// The header bytes of the image record exactly the in-memory table.
    pub open spec fn header_mirrored(self) -> bool {
        self.meta == parsed_header(self.data)
    }

    /// Every non-empty slot's run starts past the header and ends inside the
    /// file.
    pub open spec fn runs_in_bounds(self) -> bool {
        forall|s: int|
            0 <= s < self.meta.len() && #[trigger] self.meta[s].sectors != 0 ==> 2
                <= self.meta[s].sector_index && self.meta[s].sector_index + self.meta[s].sectors
                <= self.total_sectors()
    }

    /// Runs of distinct non-empty slots never share a sector.
    pub open spec fn runs_disjoint(self) -> bool {
        forall|s1: int, s2: int|
            #![trigger self.meta[s1], self.meta[s2]]
            0 <= s1 < s2 < self.meta.len() && self.meta[s1].sectors != 0 && self.meta[s2].sectors
                != 0 ==> (self.meta[s1].sector_index + self.meta[s1].sectors
                <= self.meta[s2].sector_index || self.meta[s2].sector_index
                + self.meta[s2].sectors <= self.meta[s1].sector_index)
    }

    /// The set bits of the bitmap are exactly the two header sectors plus the
    /// union of the slot runs.
    pub open spec fn bitmap_consistent(self) -> bool {
        self.bits == built_bits(self.meta, self.total_sectors() as nat)
    }

    /// All invariants of a region engine together.
    pub open spec fn wf(self) -> bool {
        &&& self.file_aligned()
        &&& self.header_mirrored()
        &&& self.runs_in_bounds()
        &&& self.runs_disjoint()
        &&& self.bitmap_consistent()
    }
}

/// `bits` with the run of `m` cleared; everything else unchanged.
pub open spec fn clear_run(bits: Seq<bool>, m: AnvilChunkMetadata) -> Seq<bool> {
    Seq::new(bits.len(), |i: int| if covers(m, i) { false } else { bits[i] })
}

/// `bits` with the range `[start, start + n)` set; everything else unchanged.
pub open spec fn set_range(bits: Seq<bool>, start: int, n: int) -> Seq<bool> {
    Seq::new(bits.len(), |i: int| if start <= i < start + n { true } else { bits[i] })
}

/// A run of `need` clear bits fits at position `s`.
pub open spec fn fits_at(bits: Seq<bool>, need: int, s: int) -> bool {
    0 <= s && s + need <= bits.len() && (forall|k: int| s <= k < s + need ==> !bits[k])
}

/// The lowest position at or after `s` where a run of `need` clear bits fits.
pub open spec fn first_fit_from(bits: Seq<bool>, need: int, s: int) -> Option<int>
    recommends
        need >= 1,
        0 <= s,
    decreases bits.len() - s
        when need >= 1 && 0 <= s

{
    if s + need > bits.len() {
        None
    } else if fits_at(bits, need, s) {
        Some(s)
    } else {
        first_fit_from(bits, need, s + 1)
    }
}

/// The lowest position where a run of `need` clear bits fits: the first-fit
/// placement.
pub open spec fn first_fit(bits: Seq<bool>, need: int) -> Option<int> {
    first_fit_from(bits, need, 0)
}

/// Length of the run of clear bits at the very end of the bitmap.
pub open spec fn trailing_free(bits: Seq<bool>) -> int
    decreases bits.len(),
{
    if bits.len() == 0 {
        0
    } else if bits.last() {
        0
    } else {
        1 + trailing_free(bits.drop_last())
    }
}

/// Sectors needed to store a chunk record of `stored_len` bytes (the length
/// word, the compression byte and the compressed data). A partial sector is
/// always reserved, even when the record ends exactly on a boundary.
pub open spec fn sectors_required(stored_len: int) -> int {
    stored_len / 4096 + 1
}

/// Whether a payload of this length can be recorded at all: its sector count
/// must fit the 8-bit count field of the offset word.
pub open spec fn payload_len_allowed(payload_len: int) -> bool {
    sectors_required(payload_len + 4) <= 255
}

/// Where a write to `slot` needing `need` sectors places its run, and the
/// bitmap and image after the placement. If the slot already owns exactly
/// `need` sectors the run is reused as it stands. Otherwise the old run is
/// released and the lowest gap of `need` clear sectors is taken; when no gap
/// exists, the file grows by the sectors missing past its trailing free run.
pub struct Placement {
    /// First sector of the chosen run.
    pub index: int,
    /// The bitmap after the placement.
    pub bits: Seq<bool>,
    /// The file image after any growth, before the payload is written.
    pub data: Seq<u8>,
}

/// The placement that a write to `slot` needing `need` sectors chooses.
pub open spec fn place_run(v: RegionView, slot: int, need: int) -> Placement {
    let m = v.meta[slot];
    if m.sectors == need {
        Placement { index: m.sector_index as int, bits: v.bits, data: v.data }
    } else {
        let bits1 = clear_run(v.bits, m);
        match first_fit(bits1, need) {
            Some(s) => Placement { index: s, bits: set_range(bits1, s, need), data: v.data },
            None => {
                let t = trailing_free(bits1);
                let grow = need - t;
                let index = bits1.len() - t;
                Placement {
                    index,
                    bits: set_range(bits1 + Seq::new(grow as nat, |i: int| false), index, need),
                    data: v.data + zeros((grow * 4096) as nat),
                }
            },
        }
    }
}

/// The bytes that a chunk record writes over its run: the big-endian length
/// word counting the payload, the payload itself, and zero padding to the end
/// of the run.
pub open spec fn stored_bytes(payload: Seq<u8>, need: int) -> Seq<u8> {
    u32_be_bytes(payload.len() as u32) + payload + zeros(
        (need * 4096 - payload.len() - 4) as nat,
    )
}

/// The state after writing `payload` to `slot` with timestamp `timestamp`:
/// the chosen run holds the chunk record, the slot's header words record the
/// new run and timestamp, the table holds the new entry, and the bitmap holds
/// the placement's bits.
pub open spec fn spec_write(
    v: RegionView,
    slot: int,
    payload: Seq<u8>,
    timestamp: u32,
) -> RegionView {
    let need = sectors_required(payload.len() as int + 4);
    let p = place_run(v, slot, need);
    let m = AnvilChunkMetadata {
        sector_index: p.index as u32,
        sectors: need as u8,
        last_modified_timestamp: timestamp,
    };
    let data1 = splice(p.data, p.index * 4096, stored_bytes(payload, need));
    let data2 = splice(data1, slot * 4, u32_be_bytes(offset_word_of(m)));
    let data3 = splice(data2, 4096 + slot * 4, u32_be_bytes(timestamp));
    RegionView { data: data3, meta: v.meta.update(slot, m), bits: p.bits }
}

/// What reading the raw chunk record of a slot yields.
pub enum PayloadReadOutcome {
    /// The slot is empty.
    NotFound,
    /// The length word exceeds what the slot's run (capped at 1 MiB) can
    /// hold: the file is corrupt.
    LengthExceeds { length: u32, maximum_length: u32 },
    /// The length word is zero or runs past the end of the file: the file is
    /// corrupt and the read fails as an input error.
    Truncated,
    /// The record was read: its compression scheme byte and its compressed
    /// body.
    Payload { scheme: u8, body: Seq<u8> },
}

/// The capacity against which a slot's length word is checked: the bytes of
/// its run, capped at 1 MiB.
pub open spec fn read_cap(m: AnvilChunkMetadata) -> u32 {
    if m.sectors * 4096 < 0x100000 {
        (m.sectors * 4096) as u32
    } else {
        0x100000u32
    }
}

/// What reading the raw chunk record of `slot` from state `v` yields.
pub open spec fn spec_read_payload(v: RegionView, slot: int) -> PayloadReadOutcome {
    let m = v.meta[slot];
    if m.sectors == 0 {
        PayloadReadOutcome::NotFound
    } else {
        let off = m.sector_index * 4096;
        let length = be_u32_at(v.data, off);
        if length > read_cap(m) {
            PayloadReadOutcome::LengthExceeds { length, maximum_length: read_cap(m) }
        } else if length == 0 || off + 4 + length > v.data.len() {
            PayloadReadOutcome::Truncated
        } else {
            PayloadReadOutcome::Payload {
                scheme: v.data[off + 4],
                body: v.data.subrange(off + 5, off + 4 + length),
            }
        }
    }
}

/// Whether some slot other than `slot` owns sector `i`.
pub open spec fn some_other_slot_covers(
    meta: Seq<AnvilChunkMetadata>,
    slot: int,
    i: int,
) -> bool {
    exists|s: int| 0 <= s < meta.len() && s != slot && #[trigger] covers(meta[s], i)
}

/// What `first_fit_from` returns: the lowest fitting position at or after
/// `s0`, or nothing when no position at or after `s0` fits.
pub proof fn lemma_first_fit_from_props(bits: Seq<bool>, need: int, s0: int)
    requires
        need >= 1,
        0 <= s0,
    ensures
        match first_fit_from(bits, need, s0) {
            Option::Some(s) => fits_at(bits, need, s) && s0 <= s && (forall|x: int|
                s0 <= x < s ==> !fits_at(bits, need, x)),
            Option::None => forall|x: int| x >= s0 ==> !fits_at(bits, need, x),
        },
    decreases bits.len() - s0,
{
    if s0 + need > bits.len() {
        assert forall|x: int| x >= s0 implies !fits_at(bits, need, x) by {
            assert(x + need > bits.len());
        }
    } else if fits_at(bits, need, s0) {
    } else {
        lemma_first_fit_from_props(bits, need, s0 + 1);
    }
}

/// If `s` fits and nothing below `s` fits, the first fit is exactly `s`.
pub proof fn lemma_first_fit_exact(bits: Seq<bool>, need: int, s: int)
    requires
        need >= 1,
        fits_at(bits, need, s),
        forall|x: int| 0 <= x < s ==> !fits_at(bits, need, x),
    ensures
        first_fit(bits, need) == Option::Some(s),
{
    lemma_first_fit_from_props(bits, need, 0);
    match first_fit(bits, need) {
        Option::Some(r) => {
            if r < s {
                assert(!fits_at(bits, need, r));
            }
            if r > s {
                assert(!fits_at(bits, need, s));
            }
        },
        Option::None => {
            assert(!fits_at(bits, need, s));
        },
    }
}

/// If no position fits, the first fit is nothing.
pub proof fn lemma_first_fit_none(bits: Seq<bool>, need: int)
    requires
        need >= 1,
        forall|x: int| 0 <= x ==> !fits_at(bits, need, x),
    ensures
        first_fit(bits, need) == Option::None::<int>,
{
    lemma_first_fit_from_props(bits, need, 0);
    match first_fit(bits, need) {
        Option::Some(r) => {
            assert(!fits_at(bits, need, r));
        },
        Option::None => {},
    }
}

/// The trailing free run is clear throughout, and the bit just before it, if
/// any, is set.
pub proof fn lemma_trailing_free_props(bits: Seq<bool>)
    ensures
        0 <= trailing_free(bits) <= bits.len(),
        forall|k: int| bits.len() - trailing_free(bits) <= k < bits.len() ==> !bits[k],
        trailing_free(bits) < bits.len() ==> bits[bits.len() - trailing_free(bits) - 1],
    decreases bits.len(),
{
    if bits.len() == 0 {
    } else if bits.last() {
    } else {
        lemma_trailing_free_props(bits.drop_last());
        let t = trailing_free(bits);
        assert forall|k: int| bits.len() - t <= k < bits.len() implies !bits[k] by {
            if k < bits.len() - 1 {
                assert(!bits.drop_last()[k]);
            }
        }
        if t < bits.len() {
            assert(bits.drop_last()[bits.len() - t - 1]);
        }
    }
}

/// In a well-formed state the parsed sector index of every slot fits its 24
/// bits.
pub proof fn lemma_meta_index_bounded(v: RegionView, s: int)
    requires
        v.header_mirrored(),
        0 <= s < v.meta.len(),
    ensures
        v.meta[s].sector_index < 0x1000000,
{
    let w = crate::header::offset_word_at(v.data, s);
    assert(w >> 8 < 0x1000000u32) by (bit_vector);
}

/// Releasing the run of `slot` leaves exactly the header bits and the runs of
/// the other slots set.
pub proof fn lemma_clear_run_bits(v: RegionView, slot: int)
    requires
        v.wf(),
        0 <= slot < v.meta.len(),
    ensures
        clear_run(v.bits, v.meta[slot]).len() == v.total_sectors(),
        forall|i: int|
            0 <= i < v.total_sectors() ==> clear_run(v.bits, v.meta[slot])[i] == (i == 0 || i == 1
                || some_other_slot_covers(v.meta, slot, i)),
{
    let m = v.meta[slot];
    let bits1 = clear_run(v.bits, m);
    assert forall|i: int| 0 <= i < v.total_sectors() implies bits1[i] == (i == 0 || i == 1
        || some_other_slot_covers(v.meta, slot, i)) by {
        if covers(m, i) {
            assert(2 <= i);
            if some_other_slot_covers(v.meta, slot, i) {
                let s2 = choose|s2: int|
                    0 <= s2 < v.meta.len() && s2 != slot && #[trigger] covers(v.meta[s2], i);
                assert(v.meta[slot].sectors != 0 && v.meta[s2].sectors != 0);
                assert(false);
            }
        } else {
            assert(bits1[i] == v.bits[i]);
            assert(v.bits[i] == (i == 0 || i == 1 || some_slot_covers(v.meta, i)));
            if some_other_slot_covers(v.meta, slot, i) {
                let s2 = choose|s2: int|
                    0 <= s2 < v.meta.len() && s2 != slot && #[trigger] covers(v.meta[s2], i);
                assert(covers(v.meta[s2], i));
                assert(some_slot_covers(v.meta, i));
            }
            if some_slot_covers(v.meta, i) {
                let s2 = choose|s2: int| 0 <= s2 < v.meta.len() && #[trigger] covers(v.meta[s2], i);
                if s2 != slot {
                    assert(some_other_slot_covers(v.meta, slot, i));
                }
            }
        }
    }
}

/// Everything the write path needs to know about the chosen placement: the
/// run starts past the header and lies inside the (possibly grown) image, the
/// image grew by whole zero sectors if at all, the run does not meet any
/// other slot's run, and the placement's bitmap is the header bits, the other
/// slots' runs, and the new run.
pub proof fn lemma_place_run_props(v: RegionView, slot: int, need: int)
    requires
        v.wf(),
        0 <= slot < v.meta.len(),
        1 <= need <= 255,
        v.total_sectors() <= 0x1000000 - 256,
    ensures
        ({
            let p = place_run(v, slot, need);
            &&& 2 <= p.index
            &&& p.index + need <= p.bits.len()
            &&& p.bits.len() <= v.total_sectors() + need
            &&& p.bits.len() * 4096 == p.data.len()
            &&& p.data.len() >= v.data.len()
            &&& p.data.subrange(0, v.data.len() as int) == v.data
            &&& forall|s: int|
                0 <= s < v.meta.len() && s != slot && #[trigger] v.meta[s].sectors != 0 ==> (
                v.meta[s].sector_index + v.meta[s].sectors <= p.index || p.index + need
                    <= v.meta[s].sector_index)
            &&& forall|i: int|
                0 <= i < p.bits.len() ==> p.bits[i] == (i == 0 || i == 1 || some_other_slot_covers(
                    v.meta,
                    slot,
                    i,
                ) || (p.index <= i < p.index + need))
        }),
{
    let m = v.meta[slot];
    let total = v.total_sectors();
    let p = place_run(v, slot, need);
    assert(v.bits.len() == total);
    vstd::arithmetic::div_mod::lemma_fundamental_div_mod(v.data.len() as int, 4096);

    if m.sectors == need {
        lemma_reuse_case(v, slot, need);
    } else {
        lemma_clear_run_bits(v, slot);
        let bits1 = clear_run(v.bits, m);
        assert(bits1[0] && bits1[1]);
        match first_fit(bits1, need) {
            Option::Some(s) => {
                lemma_first_fit_from_props(bits1, need, 0);
                assert(fits_at(bits1, need, s));
                assert(!bits1[s]);
                assert(2 <= s);
                lemma_window_clear_of_others(v, slot, need, s, bits1);
                assert forall|i: int| 0 <= i < p.bits.len() implies p.bits[i] == (i == 0 || i == 1
                    || some_other_slot_covers(v.meta, slot, i) || (p.index <= i < p.index
                    + need)) by {
                    if !(s <= i < s + need) {
                        assert(p.bits[i] == bits1[i]);
                    }
                }
            },
            Option::None => {
                lemma_first_fit_from_props(bits1, need, 0);
                lemma_trailing_free_props(bits1);
                let t = trailing_free(bits1);
                if t >= need {
                    assert(fits_at(bits1, need, total - need)) by {
                        assert forall|k: int| total - need <= k < total - need + need implies !bits1[k] by {
                            assert(total - t <= k < total);
                        }
                    }
                    assert(!fits_at(bits1, need, total - need));
                    assert(false);
                }
                let grow = need - t;
                let index = total - t;
                if index < 2 {
                    assert(!bits1[1]);
                    assert(false);
                }
                let padded = bits1 + Seq::new(grow as nat, |i: int| false);
                assert(p.bits.len() == total + grow);
                assert(p.data.len() == v.data.len() + grow * 4096);
                assert((total + grow) * 4096 == total * 4096 + grow * 4096) by (nonlinear_arith);
                assert(p.data.subrange(0, v.data.len() as int) =~= v.data);
                lemma_window_clear_of_others(v, slot, need, index, bits1);
                assert forall|i: int| 0 <= i < p.bits.len() implies p.bits[i] == (i == 0 || i == 1
                    || some_other_slot_covers(v.meta, slot, i) || (index <= i < index
                    + need)) by {
                    if index <= i < index + need {
                        assert(p.bits[i]);
                    } else {
                        if i < total {
                            assert(p.bits[i] == bits1[i]);
                        } else {
                            assert(false);
                        }
                    }
                }
            },
        }
    }
}

/// In the reuse case the placement is the slot's own run, and the ensures of
/// `lemma_place_run_props` hold of it.
proof fn lemma_reuse_case(v: RegionView, slot: int, need: int)
    requires
        v.wf(),
        0 <= slot < v.meta.len(),
        1 <= need <= 255,
        v.meta[slot].sectors == need,
    ensures
        ({
            let p = place_run(v, slot, need);
            &&& 2 <= p.index
            &&& p.index + need <= p.bits.len()
            &&& p.bits.len() <= v.total_sectors() + need
            &&& p.bits.len() * 4096 == p.data.len()
            &&& p.data.len() >= v.data.len()
            &&& p.data.subrange(0, v.data.len() as int) == v.data
            &&& forall|s: int|
                0 <= s < v.meta.len() && s != slot && #[trigger] v.meta[s].sectors != 0 ==> (
                v.meta[s].sector_index + v.meta[s].sectors <= p.index || p.index + need
                    <= v.meta[s].sector_index)
            &&& forall|i: int|
                0 <= i < p.bits.len() ==> p.bits[i] == (i == 0 || i == 1 || some_other_slot_covers(
                    v.meta,
                    slot,
                    i,
                ) || (p.index <= i < p.index + need))
        }),
{
    let m = v.meta[slot];
    let p = place_run(v, slot, need);
    vstd::arithmetic::div_mod::lemma_fundamental_div_mod(v.data.len() as int, 4096);
    assert(p.data.subrange(0, v.data.len() as int) =~= v.data);
    assert forall|i: int| 0 <= i < p.bits.len() implies p.bits[i] == (i == 0 || i == 1
        || some_other_slot_covers(v.meta, slot, i) || (p.index <= i < p.index + need)) by {
        assert(p.bits[i] == (i == 0 || i == 1 || some_slot_covers(v.meta, i)));
        if some_slot_covers(v.meta, i) {
            let s2 = choose|s2: int| 0 <= s2 < v.meta.len() && #[trigger] covers(v.meta[s2], i);
            if s2 != slot {
                assert(some_other_slot_covers(v.meta, slot, i));
            }
        }
        if some_other_slot_covers(v.meta, slot, i) {
            let s2 = choose|s2: int|
                0 <= s2 < v.meta.len() && s2 != slot && #[trigger] covers(v.meta[s2], i);
            assert(some_slot_covers(v.meta, i));
        }
        if covers(m, i) {
            assert(some_slot_covers(v.meta, i));
        }
    }
}

/// Sectors that are clear after the release of `slot`'s run belong to no
/// other slot; so a window of clear sectors is disjoint from every other run.
proof fn lemma_window_clear_of_others(
    v: RegionView,
    slot: int,
    need: int,
    start: int,
    bits1: Seq<bool>,
)
    requires
        v.wf(),
        0 <= slot < v.meta.len(),
        1 <= need,
        bits1 == clear_run(v.bits, v.meta[slot]),
        0 <= start,
        start + need <= bits1.len() || start >= bits1.len() - need,
        forall|k: int| start <= k < bits1.len() && start <= k < start + need ==> !bits1[k],
    ensures
        forall|s: int|
            0 <= s < v.meta.len() && s != slot && #[trigger] v.meta[s].sectors != 0 ==> (
            v.meta[s].sector_index + v.meta[s].sectors <= start || start + need
                <= v.meta[s].sector_index),
{
    lemma_clear_run_bits(v, slot);
    assert forall|s: int|
        0 <= s < v.meta.len() && s != slot && #[trigger] v.meta[s].sectors != 0 implies (
    v.meta[s].sector_index + v.meta[s].sectors <= start || start + need
        <= v.meta[s].sector_index) by {
        let m2 = v.meta[s];
        if !(m2.sector_index + m2.sectors <= start || start + need <= m2.sector_index) {
            let i = if m2.sector_index >= start {
                m2.sector_index as int
            } else {
                start
            };
            assert(covers(m2, i));
            assert(start <= i < start + need);
            assert(i < v.total_sectors());
            assert(!bits1[i]);
            assert(some_other_slot_covers(v.meta, slot, i));
            assert(false);
        }
    }
}

/// A big-endian word read entirely outside the range replaced by a `splice`
/// is unchanged.
pub proof fn lemma_be_u32_at_splice_outside(s: Seq<u8>, pos: int, sub: Seq<u8>, q: int)
    requires
        0 <= q,
        q + 4 <= s.len(),
        q + 4 <= pos || q >= pos + sub.len(),
    ensures
        be_u32_at(splice(s, pos, sub), q) == be_u32_at(s, q),
{
}

/// A big-endian word inside the image is unchanged when the image is extended
/// at the end.
pub proof fn lemma_be_u32_at_extend(s: Seq<u8>, tail: Seq<u8>, q: int)
    requires
        0 <= q,
        q + 4 <= s.len(),
    ensures
        be_u32_at(s + tail, q) == be_u32_at(s, q),
{
}

/// A chunk record fills its run exactly: length word, payload and padding
/// together are `need` whole sectors.
pub proof fn lemma_stored_bytes_len(payload: Seq<u8>, need: int)
    requires
        need == sectors_required(payload.len() as int + 4),
    ensures
        payload.len() + 4 <= need * 4096,
        stored_bytes(payload, need).len() == need * 4096,
{
    let stored = payload.len() as int + 4;
    vstd::arithmetic::div_mod::lemma_fundamental_div_mod(stored, 4096);
}

/// Writing a chunk payload preserves every invariant of the region: the new
/// image stays sector-aligned, its header mirrors the new table, the new run
/// lies past the header and inside the file, it meets no other slot's run,
/// and the bitmap records exactly the new occupancy.
#[verifier::rlimit(100)]
pub proof fn lemma_spec_write_wf(v: RegionView, slot: int, payload: Seq<u8>, timestamp: u32)
    requires
        v.wf(),
        0 <= slot < v.meta.len(),
        payload_len_allowed(payload.len() as int),
        v.total_sectors() <= 0x1000000 - 256,
    ensures
        spec_write(v, slot, payload, timestamp).wf(),
        spec_write(v, slot, payload, timestamp).total_sectors() == place_run(
            v,
            slot,
            sectors_required(payload.len() as int + 4),
        ).bits.len(),
{
    let need = sectors_required(payload.len() as int + 4);
    let stored = payload.len() as int + 4;
    vstd::arithmetic::div_mod::lemma_fundamental_div_mod(stored, 4096);
    assert(1 <= need <= 255);
    lemma_place_run_props(v, slot, need);
    lemma_stored_bytes_len(payload, need);
    let p = place_run(v, slot, need);
    let m = AnvilChunkMetadata {
        sector_index: p.index as u32,
        sectors: need as u8,
        last_modified_timestamp: timestamp,
    };
    let w = spec_write(v, slot, payload, timestamp);
    let total = v.total_sectors();
    let total2 = p.bits.len();
    let run_pos = p.index * 4096;
    vstd::arithmetic::div_mod::lemma_fundamental_div_mod(v.data.len() as int, 4096);
    assert(v.data.len() == total * 4096);
    assert(total2 * 4096 >= total * 4096);
    assert(total2 >= total) by (nonlinear_arith)
        requires
            total2 * 4096 >= total * 4096,
    ;
    assert(p.index * 4096 >= 2 * 4096) by (nonlinear_arith)
        requires
            p.index >= 2,
    ;
    assert((p.index + need) * 4096 == p.index * 4096 + need * 4096) by (nonlinear_arith);
    assert((p.index + need) * 4096 <= total2 * 4096) by (nonlinear_arith)
        requires
            p.index + need <= total2,
    ;

    let word = offset_word_of(m);
    let data1 = splice(p.data, run_pos, stored_bytes(payload, need));
    let data2 = splice(data1, slot * 4, u32_be_bytes(word));
    let data3 = splice(data2, 4096 + slot * 4, u32_be_bytes(timestamp));
    assert(w.data == data3);
    assert(data3.len() == p.data.len());
    assert(p.data.len() == total2 * 4096);

    // The image stays aligned.
    vstd::arithmetic::div_mod::lemma_fundamental_div_mod_converse(
        (total2 * 4096) as int,
        4096,
        total2 as int,
        0,
    );
    assert(w.total_sectors() == total2);
    assert(w.file_aligned());

    // The header mirrors the new table.
    assert(p.index < 0x1000000);
    lemma_offset_word_roundtrip(m);
    assert forall|s: int| 0 <= s < v.meta.len() implies crate::header::parsed_slot(data3, s)
        == w.meta[s] by {
        let q = s * 4;
        let qt = 4096 + s * 4;
        lemma_be_u32_at_splice_outside(p.data, run_pos, stored_bytes(payload, need), q);
        lemma_be_u32_at_splice_outside(p.data, run_pos, stored_bytes(payload, need), qt);
        if p.data != v.data {
            lemma_be_u32_at_extend(v.data, p.data.subrange(v.data.len() as int, p.data.len() as int), q);
            lemma_be_u32_at_extend(v.data, p.data.subrange(v.data.len() as int, p.data.len() as int), qt);
            assert(v.data + p.data.subrange(v.data.len() as int, p.data.len() as int) =~= p.data);
        }
        assert(be_u32_at(data1, q) == be_u32_at(v.data, q));
        assert(be_u32_at(data1, qt) == be_u32_at(v.data, qt));
        if s == slot {
            crate::byteops::lemma_be_u32_at_spliced(data1, q, word);
            lemma_be_u32_at_splice_outside(data2, qt, u32_be_bytes(timestamp), q);
            crate::byteops::lemma_be_u32_at_spliced(data2, qt, timestamp);
            assert(crate::header::offset_word_at(data3, s) == word);
            assert(crate::header::timestamp_word_at(data3, s) == timestamp);
            assert(crate::header::parsed_slot(data3, s) == m);
        } else {
            lemma_be_u32_at_splice_outside(data1, slot * 4, u32_be_bytes(word), q);
            lemma_be_u32_at_splice_outside(data1, slot * 4, u32_be_bytes(word), qt);
            lemma_be_u32_at_splice_outside(data2, 4096 + slot * 4, u32_be_bytes(timestamp), q);
            lemma_be_u32_at_splice_outside(data2, 4096 + slot * 4, u32_be_bytes(timestamp), qt);
            assert(crate::header::offset_word_at(data3, s) == crate::header::offset_word_at(
                v.data,
                s,
            ));
            assert(crate::header::timestamp_word_at(data3, s) == crate::header::timestamp_word_at(
                v.data,
                s,
            ));
            assert(v.meta[s] == crate::header::parsed_slot(v.data, s));
        }
    }
    assert(w.meta =~= crate::header::parsed_header(data3));
    assert(w.header_mirrored());

    // Runs stay past the header and inside the file, and stay disjoint.
    assert(covers(m, p.index));
    assert forall|s: int|
        0 <= s < w.meta.len() && #[trigger] w.meta[s].sectors != 0 implies 2
        <= w.meta[s].sector_index && w.meta[s].sector_index + w.meta[s].sectors
        <= w.total_sectors() by {
        if s != slot {
            assert(w.meta[s] == v.meta[s]);
        }
    }
    assert(w.runs_in_bounds());
    assert forall|s1: int, s2: int|
        #![trigger w.meta[s1], w.meta[s2]]
        0 <= s1 < s2 < w.meta.len() && w.meta[s1].sectors != 0 && w.meta[s2].sectors
        != 0 implies (w.meta[s1].sector_index + w.meta[s1].sectors <= w.meta[s2].sector_index
        || w.meta[s2].sector_index + w.meta[s2].sectors <= w.meta[s1].sector_index) by {
        if s1 != slot && s2 != slot {
            assert(w.meta[s1] == v.meta[s1] && w.meta[s2] == v.meta[s2]);
        }
    }
    assert(w.runs_disjoint());

    // The bitmap records exactly the new occupancy.
    assert forall|i: int| 0 <= i < total2 implies p.bits[i] == (i == 0 || i == 1
        || some_slot_covers(w.meta, i)) by {
        if some_slot_covers(w.meta, i) {
            let s2 = choose|s2: int| 0 <= s2 < w.meta.len() && #[trigger] covers(w.meta[s2], i);
            if s2 == slot {
                assert(p.index <= i < p.index + need);
            } else {
                assert(covers(v.meta[s2], i));
                assert(some_other_slot_covers(v.meta, slot, i));
            }
        }
        if some_other_slot_covers(v.meta, slot, i) {
            let s2 = choose|s2: int|
                0 <= s2 < v.meta.len() && s2 != slot && #[trigger] covers(v.meta[s2], i);
            assert(covers(w.meta[s2], i));
            assert(some_slot_covers(w.meta, i));
        }
        if p.index <= i < p.index + need {
            assert(covers(w.meta[slot], i));
            assert(some_slot_covers(w.meta, i));
        }
    }
    assert(w.bits =~= built_bits(w.meta, w.total_sectors() as nat));
    assert(w.bitmap_consistent());
}

/// Writing a chunk payload and then reading the same slot yields the payload
/// back: the record's length word counts the payload, its first byte is the
/// compression scheme, and the rest is the compressed body.
#[verifier::rlimit(30)]
pub proof fn lemma_write_then_read(v: RegionView, slot: int, payload: Seq<u8>, timestamp: u32)
    requires
        v.wf(),
        0 <= slot < v.meta.len(),
        1 <= payload.len(),
        payload_len_allowed(payload.len() as int),
        v.total_sectors() <= 0x1000000 - 256,
    ensures
        spec_read_payload(spec_write(v, slot, payload, timestamp), slot)
            == (PayloadReadOutcome::Payload { scheme: payload[0], body: payload.skip(1) }),
{
    let need = sectors_required(payload.len() as int + 4);
    let stored = payload.len() as int + 4;
    vstd::arithmetic::div_mod::lemma_fundamental_div_mod(stored, 4096);
    lemma_place_run_props(v, slot, need);
    lemma_stored_bytes_len(payload, need);
    lemma_spec_write_wf(v, slot, payload, timestamp);
    let p = place_run(v, slot, need);
    let w = spec_write(v, slot, payload, timestamp);
    let run_pos = p.index * 4096;
    let total2 = p.bits.len();
    let record = stored_bytes(payload, need);
    let m = AnvilChunkMetadata {
        sector_index: p.index as u32,
        sectors: need as u8,
        last_modified_timestamp: timestamp,
    };
    let word = offset_word_of(m);
    let data1 = splice(p.data, run_pos, record);
    let data2 = splice(data1, slot * 4, u32_be_bytes(word));
    let data3 = splice(data2, 4096 + slot * 4, u32_be_bytes(timestamp));

    assert(p.index * 4096 >= 2 * 4096) by (nonlinear_arith)
        requires
            p.index >= 2,
    ;
    assert((p.index + need) * 4096 == p.index * 4096 + need * 4096) by (nonlinear_arith);
    assert((p.index + need) * 4096 <= total2 * 4096) by (nonlinear_arith)
        requires
            p.index + need <= total2,
    ;
    assert(w.data.len() == total2 * 4096);

    // The metadata entry of the slot after the write.
    assert(w.meta[slot] == m);
    assert(m.sectors == need);
    assert(m.sector_index * 4096 == run_pos);

    // The header word splices lie inside the header and leave the run alone.
    assert(be_u32_at(data3, run_pos) == be_u32_at(data1, run_pos)) by {
        lemma_be_u32_at_splice_outside(data1, slot * 4, u32_be_bytes(word), run_pos);
        lemma_be_u32_at_splice_outside(data2, 4096 + slot * 4, u32_be_bytes(timestamp), run_pos);
    }
    assert(be_u32_at(data1, run_pos) == payload.len() as u32) by {
        assert(record.len() >= 4);
        assert forall|j: int| 0 <= j < 4 implies #[trigger] data1[run_pos + j] == u32_be_bytes(
            payload.len() as u32,
        )[j] by {
            assert(record[j] == u32_be_bytes(payload.len() as u32)[j]);
        }
        crate::byteops::lemma_u32_be_bytes_roundtrip(payload.len() as u32);
    }
    let length = payload.len() as u32;
    assert(length >= 1);

    // The length word passes the capacity check.
    assert(need * 4096 <= 255 * 4096) by (nonlinear_arith)
        requires
            need <= 255,
    ;
    assert(read_cap(m) == (need * 4096) as u32);
    assert(length + 4 <= need * 4096);

    // The record lies inside the file.
    assert(run_pos + 4 + length <= w.data.len());

    // The scheme byte and the body are the payload's bytes.
    assert(data3.len() == data1.len());
    assert forall|j: int| 0 <= j < payload.len() implies data3[run_pos + 4 + j] == payload[j] by {
        assert(run_pos + 4 + j >= 8192);
        assert(data3[run_pos + 4 + j] == data1[run_pos + 4 + j]);
        assert(data1[run_pos + 4 + j] == record[4 + j]);
        assert(record[4 + j] == payload[j]);
    }
    assert(w.data[run_pos + 4] == payload[0]);
    assert(w.data.subrange(run_pos + 5, run_pos + 4 + length) =~= payload.skip(1));
}

/// Overwriting a slot with a payload that needs exactly the sectors the slot
/// already owns reuses the slot's run in place: the sector index is
/// unchanged, the file does not grow, and the bitmap is untouched.
pub proof fn lemma_in_place_overwrite(v: RegionView, slot: int, payload: Seq<u8>, timestamp: u32)
    requires
        v.wf(),
        0 <= slot < v.meta.len(),
        payload_len_allowed(payload.len() as int),
        v.meta[slot].sectors == sectors_required(payload.len() as int + 4),
    ensures
        spec_write(v, slot, payload, timestamp).meta[slot].sector_index
            == v.meta[slot].sector_index,
        spec_write(v, slot, payload, timestamp).meta[slot].sectors == v.meta[slot].sectors,
        spec_write(v, slot, payload, timestamp).data.len() == v.data.len(),
        spec_write(v, slot, payload, timestamp).bits == v.bits,
{
    let need = sectors_required(payload.len() as int + 4);
    lemma_meta_index_bounded(v, slot);
    lemma_stored_bytes_len(payload, need);
}

/// Two consecutive writes to the same slot whose records need the same
/// number of sectors leave the chunk in place: the second write reuses the
/// first write's sector index, and the file does not grow.
pub proof fn lemma_consecutive_writes_stable(
    v: RegionView,
    slot: int,
    payload1: Seq<u8>,
    payload2: Seq<u8>,
    t1: u32,
    t2: u32,
)
    requires
        v.wf(),
        0 <= slot < v.meta.len(),
        payload_len_allowed(payload1.len() as int),
        payload_len_allowed(payload2.len() as int),
        sectors_required(payload1.len() as int + 4) == sectors_required(payload2.len() as int + 4),
        v.total_sectors() <= 0x1000000 - 256,
    ensures
        ({
            let v1 = spec_write(v, slot, payload1, t1);
            let v2 = spec_write(v1, slot, payload2, t2);
            &&& v2.meta[slot].sector_index == v1.meta[slot].sector_index
            &&& v2.data.len() == v1.data.len()
            &&& v2.bits == v1.bits
        }),
{
    lemma_spec_write_wf(v, slot, payload1, t1);
    let v1 = spec_write(v, slot, payload1, t1);
    assert(v1.meta[slot].sectors == sectors_required(payload2.len() as int + 4)) by {
        let need = sectors_required(payload1.len() as int + 4);
        assert(v1.meta[slot] == AnvilChunkMetadata {
            sector_index: place_run(v, slot, need).index as u32,
            sectors: need as u8,
            last_modified_timestamp: t1,
        });
    }
    lemma_in_place_overwrite(v1, slot, payload2, t2);
}

/// A region image as handed to the engine, padded with zeros to the 8 KiB
/// header length if it is shorter.
pub open spec fn norm_image(d: Seq<u8>) -> Seq<u8> {
    if d.len() >= 8192 {
        d
    } else {
        d + zeros((8192 - d.len()) as nat)
    }
}

/// The state that opening the image `d` yields: the padded bytes, the header
/// they record, and the bitmap built from that header.
pub open spec fn image_view(d: Seq<u8>) -> RegionView {
    let n = norm_image(d);
    RegionView {
        data: n,
        meta: parsed_header(n),
        bits: built_bits(parsed_header(n), (n.len() as int / 4096) as nat),
    }
}

/// What the engine assumes of an image it opens: a whole number of sectors,
/// few enough to count in 32 bits, and a header whose runs lie past the
/// header sectors, inside the file, and pairwise apart. The header sectors of
/// a fresh or truncated image are zero-padded first.
pub open spec fn region_image_wf(d: Seq<u8>) -> bool {
    &&& image_view(d).wf()
    &&& image_view(d).total_sectors() <= u32::MAX
}

/// Reopening the image of a well-formed region recovers the region exactly:
/// the image is accepted, and the metadata table and bitmap rebuilt from its
/// header are the ones the region held. The on-disk header thus mirrors the
/// in-memory state after every operation that maintains `wf`.
pub proof fn lemma_reopen_recovers_state(v: RegionView)
    requires
        v.wf(),
        v.total_sectors() <= u32::MAX,
    ensures
        region_image_wf(v.data),
        image_view(v.data) == v,
{
    assert(norm_image(v.data) == v.data);
    assert(image_view(v.data).meta == v.meta);
    assert(image_view(v.data).bits == v.bits);
    assert(image_view(v.data) == v);
}

} // verus!
