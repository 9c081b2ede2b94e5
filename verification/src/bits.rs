//! The sector-occupancy bitmap.
//!
//! One bit per 4096-byte sector of the region file: set when the sector is
//! taken (the two header sectors always are), clear when it is free. The bits
//! live in a `bitvec` bit-vector held inside `SectorBitmap`; `sector_bits`
//! names its contents as a sequence of booleans, and every primitive the
//! allocator needs is specified over that sequence.

use vstd::prelude::*;
use crate::metadata::{covers, some_slot_covers, AnvilChunkMetadata};

verus! {

/// The sector-occupancy bitmap, backed by a `bitvec` bit-vector in its
/// default layout: `usize` storage, least significant bit first.
#[verifier::external_body]
pub struct SectorBitmap {
    inner: bitvec::vec::BitVec<usize, bitvec::order::Lsb0>,
}

/// The bits held by a sector bitmap, index 0 first.
pub uninterp spec fn sector_bits(v: SectorBitmap) -> Seq<bool>;

impl View for SectorBitmap {
    type V = Seq<bool>;

    open spec fn view(&self) -> Seq<bool> {
        sector_bits(*self)
    }
}

impl SectorBitmap {
    /// Relies on bitvec's BitVec::repeat: a bit-vector of `len` copies of the
    /// given bit.
    #[verifier::external_body]
    pub fn all_clear(len: usize) -> (r: SectorBitmap)
        requires
            len < usize::MAX / 64,
        ensures
            sector_bits(r) == Seq::new(len as nat, |i: int| false),
    {
        SectorBitmap { inner: bitvec::vec::BitVec::repeat(false, len) }
    }

    /// Relies on bitvec's BitSlice::len through the vector's deref.
    #[verifier::external_body]
    pub fn len(&self) -> (n: usize)
        ensures
            n == sector_bits(*self).len(),
    {
        self.inner.len()
    }

    /// Relies on bitvec's Index impl for BitSlice: the bit at `i`.
    #[verifier::external_body]
    pub fn get(&self, i: usize) -> (b: bool)
        requires
            i < sector_bits(*self).len(),
        ensures
            b == sector_bits(*self)[i as int],
    {
        self.inner[i]
    }

    /// Relies on bitvec's BitSlice::set: writes one bit, the rest unchanged.
    #[verifier::external_body]
    pub fn set(&mut self, i: usize, b: bool)
        requires
            i < sector_bits(*old(self)).len(),
        ensures
            sector_bits(*final(self)) == sector_bits(*old(self)).update(i as int, b),
    {
        self.inner.set(i, b)
    }

    /// Relies on bitvec's BitVec::push: appends one bit at the back.
    #[verifier::external_body]
    pub fn push(&mut self, b: bool)
        requires
            sector_bits(*old(self)).len() < usize::MAX / 64,
        ensures
            sector_bits(*final(self)) == sector_bits(*old(self)).push(b),
    {
        self.inner.push(b)
    }

    /// Copies the bitmap out as one boolean per sector, index 0 first.
    pub fn to_bools(&self) -> (r: Vec<bool>)
        ensures
            r@ == self@,
    {
        let n = self.len();
        let mut r: Vec<bool> = Vec::new();
        let mut i: usize = 0;
        while i < n
            invariant
                n == self@.len(),
                0 <= i <= n,
                r@.len() == i,
                forall|k: int| 0 <= k < i ==> r@[k] == self@[k],
            decreases n - i,
        {
            r.push(self.get(i));
            i = i + 1;
        }
        assert(r@ =~= self@);
        r
    }
}

/// The bitmap that a metadata table induces over `total` sectors: the two
/// header sectors are taken, and so is every sector inside some slot's run.
pub open spec fn built_bits(meta: Seq<AnvilChunkMetadata>, total: nat) -> Seq<bool> {
    Seq::new(total, |i: int| i == 0 || i == 1 || some_slot_covers(meta, i))
}

/// Builds the sector-occupancy bitmap from a metadata table: bits 0 and 1 for
/// the header, then one run of set bits per non-empty slot.
pub fn used_sectors(total_sectors: u32, chunks_metadata: &[AnvilChunkMetadata]) -> (r: SectorBitmap)
    requires
        total_sectors >= 2,
        total_sectors < usize::MAX / 64,
        forall|s: int|
            0 <= s < chunks_metadata@.len() && #[trigger] chunks_metadata@[s].sectors != 0
                ==> chunks_metadata@[s].sector_index + chunks_metadata@[s].sectors
                <= total_sectors,
    ensures
        r@ == built_bits(chunks_metadata@, total_sectors as nat),
{
    let total: usize = total_sectors as usize;
    let mut r = SectorBitmap::all_clear(total);
    r.set(0, true);
    r.set(1, true);

    let ghost meta = chunks_metadata@;
    let n = chunks_metadata.len();
    let mut s: usize = 0;
    while s < n
        invariant
            n == meta.len(),
            total == total_sectors,
            total >= 2,
            forall|t: int|
                0 <= t < meta.len() && #[trigger] meta[t].sectors != 0 ==> meta[t].sector_index
                    + meta[t].sectors <= total,
            meta == chunks_metadata@,
            0 <= s <= n,
            r@.len() == total,
            forall|i: int|
                0 <= i < total ==> r@[i] == (i == 0 || i == 1 || some_slot_covers(
                    meta.take(s as int),
                    i,
                )),
        decreases n - s,
    {
        let m = chunks_metadata[s];
        if m.sectors != 0 {
            let start: usize = m.sector_index as usize;
            let end: usize = start + m.sectors as usize;
            let mut j: usize = start;
            while j < end
                invariant
                    n == meta.len(),
                    total >= 2,
                    meta == chunks_metadata@,
                    0 <= s < n,
                    m == meta[s as int],
                    m.sectors != 0,
                    start == m.sector_index,
                    end == start + m.sectors,
                    end <= total,
                    start <= j <= end,
                    r@.len() == total,
                    forall|i: int|
                        0 <= i < total ==> r@[i] == (i == 0 || i == 1 || some_slot_covers(
                            meta.take(s as int),
                            i,
                        ) || (start <= i < j)),
                decreases end - j,
            {
                r.set(j, true);
                j = j + 1;
            }
        }
        proof {
            lemma_covers_take_step(meta, s as int, total as int);
            assert forall|i: int|
                0 <= i < total implies r@[i] == (i == 0 || i == 1 || some_slot_covers(
                meta.take(s + 1),
                i,
            )) by {
                assert(some_slot_covers(meta.take(s + 1), i) == (some_slot_covers(
                    meta.take(s as int),
                    i,
                ) || covers(meta[s as int], i)));
            }
        }
        s = s + 1;
    }
    proof {
        assert(meta.take(n as int) =~= meta);
        assert(r@ =~= built_bits(chunks_metadata@, total_sectors as nat));
    }
    r
}

/// Extending the considered prefix of the metadata table by one slot adds
/// exactly that slot's run to the covered sectors.
proof fn lemma_covers_take_step(meta: Seq<AnvilChunkMetadata>, s: int, total: int)
    requires
        0 <= s < meta.len(),
    ensures
        forall|i: int|
            0 <= i < total ==> some_slot_covers(meta.take(s + 1), i) == (some_slot_covers(
                meta.take(s),
                i,
            ) || covers(meta[s], i)),
{
    assert forall|i: int| 0 <= i < total implies some_slot_covers(meta.take(s + 1), i) == (
    some_slot_covers(meta.take(s), i) || covers(meta[s], i)) by {
        if some_slot_covers(meta.take(s), i) {
            let t = choose|t: int|
                0 <= t < meta.take(s).len() && #[trigger] covers(meta.take(s)[t], i);
            assert(covers(meta.take(s + 1)[t], i));
        }
        if covers(meta[s], i) {
            assert(covers(meta.take(s + 1)[s], i));
        }
        if some_slot_covers(meta.take(s + 1), i) {
            let t = choose|t: int|
                0 <= t < meta.take(s + 1).len() && #[trigger] covers(meta.take(s + 1)[t], i);
            if t < s {
                assert(covers(meta.take(s)[t], i));
            }
        }
    }
}

} // verus!
