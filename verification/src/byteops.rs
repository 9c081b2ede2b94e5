//! Byte-level primitives over the in-memory region image.
//!
//! The region file is modelled as a sequence of bytes. These helpers read and
//! write big-endian 32-bit words and byte ranges inside that sequence, and
//! every one of them states its effect with `splice`: the image is unchanged
//! outside the written range.

use vstd::prelude::*;
use vstd::pervasive::VecAdditionalExecFns;

verus! {

/// A sequence of `n` zero bytes.
pub open spec fn zeros(n: nat) -> Seq<u8> {
    Seq::new(n, |i: int| 0u8)
}

/// `s` with the range starting at `pos` replaced by `sub`; everything outside
/// that range is unchanged.
pub open spec fn splice<T>(s: Seq<T>, pos: int, sub: Seq<T>) -> Seq<T>
    recommends
        0 <= pos,
        pos + sub.len() <= s.len(),
{
    Seq::new(s.len(), |i: int| if pos <= i < pos + sub.len() { sub[i - pos] } else { s[i] })
}

/// The big-endian 32-bit value formed by four bytes, most significant first.
pub open spec fn u32_from_be(b0: u8, b1: u8, b2: u8, b3: u8) -> u32 {
    ((b0 as u32) << 24) | ((b1 as u32) << 16) | ((b2 as u32) << 8) | (b3 as u32)
}

/// The big-endian 32-bit word stored at byte offset `pos` of `d`.
pub open spec fn be_u32_at(d: Seq<u8>, pos: int) -> u32
    recommends
        0 <= pos,
        pos + 4 <= d.len(),
{
    u32_from_be(d[pos], d[pos + 1], d[pos + 2], d[pos + 3])
}

/// The four big-endian bytes of a 32-bit value, most significant first.
pub open spec fn u32_be_bytes(v: u32) -> Seq<u8> {
    seq![((v >> 24) & 0xFF) as u8, ((v >> 16) & 0xFF) as u8, ((v >> 8) & 0xFF) as u8, (v & 0xFF) as u8]
}

/// Encoding a 32-bit value as four big-endian bytes and reading them back
/// yields the value.
pub proof fn lemma_u32_be_bytes_roundtrip(v: u32)
    ensures
        u32_from_be(
            ((v >> 24) & 0xFF) as u8,
            ((v >> 16) & 0xFF) as u8,
            ((v >> 8) & 0xFF) as u8,
            (v & 0xFF) as u8,
        ) == v,
{
    assert((((((v >> 24) & 0xFF) as u8 as u32) << 24)) | ((((v >> 16) & 0xFF) as u8 as u32) << 16) | ((((v
        >> 8) & 0xFF) as u8 as u32) << 8) | ((v & 0xFF) as u8 as u32) == v) by (bit_vector);
}

/// Reading the word written by `splice` of `u32_be_bytes` gives the value
/// back.
pub proof fn lemma_be_u32_at_spliced(s: Seq<u8>, pos: int, v: u32)
    requires
        0 <= pos,
        pos + 4 <= s.len(),
    ensures
        be_u32_at(splice(s, pos, u32_be_bytes(v)), pos) == v,
{
    lemma_u32_be_bytes_roundtrip(v);
}

/// Reads the big-endian 32-bit word at byte offset `pos`.
pub fn read_u32_be_at(data: &Vec<u8>, pos: usize) -> (v: u32)
    requires
        pos + 4 <= data@.len(),
    ensures
        v == be_u32_at(data@, pos as int),
{
    let len: usize = data.len();
    u32_from_be_exec(data[pos], data[pos + 1], data[pos + 2], data[pos + 3])
}

/// Combines four bytes, most significant first, into a 32-bit value.
pub fn u32_from_be_exec(b0: u8, b1: u8, b2: u8, b3: u8) -> (v: u32)
    ensures
        v == u32_from_be(b0, b1, b2, b3),
{
    ((b0 as u32) << 24) | ((b1 as u32) << 16) | ((b2 as u32) << 8) | (b3 as u32)
}

/// Writes `v` as a big-endian 32-bit word at byte offset `pos`.
pub fn put_u32_be_at(data: &mut Vec<u8>, pos: usize, v: u32)
    requires
        pos + 4 <= old(data)@.len(),
    ensures
        final(data)@ == splice(old(data)@, pos as int, u32_be_bytes(v)),
{
    let len: usize = data.len();
    data.set(pos, ((v >> 24) & 0xFF) as u8);
    data.set(pos + 1, ((v >> 16) & 0xFF) as u8);
    data.set(pos + 2, ((v >> 8) & 0xFF) as u8);
    data.set(pos + 3, (v & 0xFF) as u8);
    assert(data@ =~= splice(old(data)@, pos as int, u32_be_bytes(v)));
}

/// Copies all of `src` into `data` starting at byte offset `pos`.
pub fn put_bytes_at(data: &mut Vec<u8>, pos: usize, src: &[u8])
    requires
        pos + src@.len() <= old(data)@.len(),
    ensures
        final(data)@ == splice(old(data)@, pos as int, src@),
{
    let len: usize = data.len();
    let n = src.len();
    let mut k: usize = 0;
    while k < n
        invariant
            n == src@.len(),
            len == old(data)@.len(),
            pos + n <= len,
            0 <= k <= n,
            data@.len() == old(data)@.len(),
            forall|i: int|
                0 <= i < data@.len() ==> data@[i] == if pos <= i < pos + k {
                    src@[i - pos]
                } else {
                    old(data)@[i]
                },
        decreases n - k,
    {
        data.set(pos + k, src[k]);
        k = k + 1;
    }
    assert(data@ =~= splice(old(data)@, pos as int, src@));
}

/// Overwrites `n` bytes starting at byte offset `pos` with zeros.
pub fn zero_range_at(data: &mut Vec<u8>, pos: usize, n: usize)
    requires
        pos + n <= old(data)@.len(),
    ensures
        final(data)@ == splice(old(data)@, pos as int, zeros(n as nat)),
{
    let len: usize = data.len();
    let mut k: usize = 0;
    while k < n
        invariant
            len == old(data)@.len(),
            pos + n <= len,
            0 <= k <= n,
            data@.len() == old(data)@.len(),
            forall|i: int|
                0 <= i < data@.len() ==> data@[i] == if pos <= i < pos + k {
                    0u8
                } else {
                    old(data)@[i]
                },
        decreases n - k,
    {
        data.set(pos + k, 0u8);
        k = k + 1;
    }
    assert(data@ =~= splice(old(data)@, pos as int, zeros(n as nat)));
}

/// Appends `n` zero bytes to the end of `data`.
pub fn push_zeros(data: &mut Vec<u8>, n: usize)
    requires
        old(data)@.len() + n <= usize::MAX,
    ensures
        final(data)@ == old(data)@ + zeros(n as nat),
{
    let mut k: usize = 0;
    while k < n
        invariant
            old(data)@.len() + n <= usize::MAX,
            0 <= k <= n,
            data@ == old(data)@ + zeros(k as nat),
        decreases n - k,
    {
        data.push(0u8);
        assert(data@ =~= old(data)@ + zeros((k + 1) as nat));
        k = k + 1;
    }
}

/// Copies the `n` bytes starting at byte offset `pos` out into a fresh
/// vector.
pub fn copy_range(data: &Vec<u8>, pos: usize, n: usize) -> (r: Vec<u8>)
    requires
        pos + n <= data@.len(),
    ensures
        r@ == data@.subrange(pos as int, pos + n),
{
    let len: usize = data.len();
    let mut r: Vec<u8> = Vec::new();
    let mut k: usize = 0;
    while k < n
        invariant
            len == data@.len(),
            pos + n <= len,
            0 <= k <= n,
            r@ == data@.subrange(pos as int, pos + k),
        decreases n - k,
    {
        r.push(data[pos + k]);
        assert(r@ =~= data@.subrange(pos as int, pos + (k + 1)));
        k = k + 1;
    }
    r
}

} // verus!
