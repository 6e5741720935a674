//! Little-endian integer fields inside a byte image.
//!
//! Every multi-byte integer of the on-disk format is little-endian. These
//! helpers read and write such fields in a `Vec<u8>` file image, and the spec
//! functions `u32_at` / `u64_at` are the single definition of what integer a
//! range of bytes holds.

use vstd::prelude::*;

verus! {

/// The little-endian 32-bit integer held in the 4 bytes of `s` starting at `off`.
pub open spec fn u32_at(s: Seq<u8>, off: int) -> u32
    recommends
        0 <= off,
        off + 4 <= s.len(),
{
    (s[off] as u32) | (s[off + 1] as u32) << 8 | (s[off + 2] as u32) << 16 | (s[off + 3] as u32)
        << 24
}

/// The little-endian 64-bit integer held in the 8 bytes of `s` starting at `off`.
pub open spec fn u64_at(s: Seq<u8>, off: int) -> u64
    recommends
        0 <= off,
        off + 8 <= s.len(),
{
    (s[off] as u64) | (s[off + 1] as u64) << 8 | (s[off + 2] as u64) << 16 | (s[off + 3] as u64)
        << 24 | (s[off + 4] as u64) << 32 | (s[off + 5] as u64) << 40 | (s[off + 6] as u64) << 48
        | (s[off + 7] as u64) << 56
}

/// The 4 little-endian bytes of `x`.
pub open spec fn u32_le_bytes(x: u32) -> Seq<u8> {
    seq![
        (x & 0xff) as u8,
        ((x >> 8) & 0xff) as u8,
        ((x >> 16) & 0xff) as u8,
        ((x >> 24) & 0xff) as u8,
    ]
}

/// The 8 little-endian bytes of `x`.
pub open spec fn u64_le_bytes(x: u64) -> Seq<u8> {
    seq![
        (x & 0xff) as u8,
        ((x >> 8) & 0xff) as u8,
        ((x >> 16) & 0xff) as u8,
        ((x >> 24) & 0xff) as u8,
        ((x >> 32) & 0xff) as u8,
        ((x >> 40) & 0xff) as u8,
        ((x >> 48) & 0xff) as u8,
        ((x >> 56) & 0xff) as u8,
    ]
}

/// Reading the little-endian bytes of `x` back as an integer gives `x`.
pub proof fn lemma_u32_le_round_trip(s: Seq<u8>, off: int, x: u32)
    requires
        0 <= off,
        off + 4 <= s.len(),
        forall|j: int| 0 <= j < 4 ==> s[off + j] == u32_le_bytes(x)[j],
    ensures
        u32_at(s, off) == x,
{
    assert(s[off + 0] == u32_le_bytes(x)[0] && s[off + 1] == u32_le_bytes(x)[1] && s[off + 2]
        == u32_le_bytes(x)[2] && s[off + 3] == u32_le_bytes(x)[3]);
    lemma_u32_reassemble(x);
}

/// Reading the little-endian bytes of `x` back as an integer gives `x`.
pub proof fn lemma_u64_le_round_trip(s: Seq<u8>, off: int, x: u64)
    requires
        0 <= off,
        off + 8 <= s.len(),
        forall|j: int| 0 <= j < 8 ==> s[off + j] == u64_le_bytes(x)[j],
    ensures
        u64_at(s, off) == x,
{
    assert(s[off + 0] == u64_le_bytes(x)[0] && s[off + 1] == u64_le_bytes(x)[1] && s[off + 2]
        == u64_le_bytes(x)[2] && s[off + 3] == u64_le_bytes(x)[3] && s[off + 4] == u64_le_bytes(
        x,
    )[4] && s[off + 5] == u64_le_bytes(x)[5] && s[off + 6] == u64_le_bytes(x)[6] && s[off + 7]
        == u64_le_bytes(x)[7]);
    lemma_u64_reassemble(x);
}

/// Eight zero bytes read back as zero.
pub proof fn lemma_u64_at_zero(s: Seq<u8>, off: int)
    requires
        0 <= off,
        off + 8 <= s.len(),
        forall|j: int| off <= j < off + 8 ==> s[j] == 0,
    ensures
        u64_at(s, off) == 0,
{
    assert((0u8 as u64) | (0u8 as u64) << 8 | (0u8 as u64) << 16 | (0u8 as u64) << 24 | (0u8
        as u64) << 32 | (0u8 as u64) << 40 | (0u8 as u64) << 48 | (0u8 as u64) << 56 == 0)
        by (bit_vector);
}

/// Splitting a 32-bit integer into bytes and reassembling them gives it back.
proof fn lemma_u32_reassemble(x: u32)
    by (bit_vector)
    ensures
        ((((x & 0xff) as u8) as u32) | ((((x >> 8) & 0xff) as u8) as u32) << 8 | ((((x >> 16)
            & 0xff) as u8) as u32) << 16 | ((((x >> 24) & 0xff) as u8) as u32) << 24) == x,
{
}

/// Splitting a 64-bit integer into bytes and reassembling them gives it back.
proof fn lemma_u64_reassemble(x: u64)
    by (bit_vector)
    ensures
        ((((x & 0xff) as u8) as u64) | ((((x >> 8) & 0xff) as u8) as u64) << 8 | ((((x >> 16)
            & 0xff) as u8) as u64) << 16 | ((((x >> 24) & 0xff) as u8) as u64) << 24 | ((((x >> 32)
            & 0xff) as u8) as u64) << 32 | ((((x >> 40) & 0xff) as u8) as u64) << 40 | ((((x >> 48)
            & 0xff) as u8) as u64) << 48 | ((((x >> 56) & 0xff) as u8) as u64) << 56) == x,
{
}

pub fn read_u32_at(v: &Vec<u8>, off: usize) -> (r: u32)
    requires
        off + 4 <= v.len(),
    ensures
        r == u32_at(v@, off as int),
{
    (v[off] as u32) | ((v[off + 1] as u32) << 8) | ((v[off + 2] as u32) << 16) | ((v[off
        + 3] as u32) << 24)
}

pub fn read_u64_at(v: &Vec<u8>, off: usize) -> (r: u64)
    requires
        off + 8 <= v.len(),
    ensures
        r == u64_at(v@, off as int),
{
    (v[off] as u64) | ((v[off + 1] as u64) << 8) | ((v[off + 2] as u64) << 16) | ((v[off
        + 3] as u64) << 24) | ((v[off + 4] as u64) << 32) | ((v[off + 5] as u64) << 40) | ((v[off
        + 6] as u64) << 48) | ((v[off + 7] as u64) << 56)
}

/// Appends the 4 little-endian bytes of `x`.
pub fn push_u32(v: &mut Vec<u8>, x: u32)
    ensures
        final(v)@ == old(v)@ + u32_le_bytes(x),
        final(v)@.len() == old(v)@.len() + 4,
        forall|j: int| 0 <= j < old(v)@.len() ==> final(v)@[j] == old(v)@[j],
        u32_at(final(v)@, old(v)@.len() as int) == x,
{
    v.push((x & 0xff) as u8);
    v.push(((x >> 8) & 0xff) as u8);
    v.push(((x >> 16) & 0xff) as u8);
    v.push(((x >> 24) & 0xff) as u8);
    proof {
        lemma_u32_reassemble(x);
        assert(v@ =~= old(v)@ + u32_le_bytes(x));
    }
}

/// Appends the 8 little-endian bytes of `x`.
pub fn push_u64(v: &mut Vec<u8>, x: u64)
    ensures
        final(v)@ == old(v)@ + u64_le_bytes(x),
        final(v)@.len() == old(v)@.len() + 8,
        forall|j: int| 0 <= j < old(v)@.len() ==> final(v)@[j] == old(v)@[j],
        u64_at(final(v)@, old(v)@.len() as int) == x,
{
    v.push((x & 0xff) as u8);
    v.push(((x >> 8) & 0xff) as u8);
    v.push(((x >> 16) & 0xff) as u8);
    v.push(((x >> 24) & 0xff) as u8);
    v.push(((x >> 32) & 0xff) as u8);
    v.push(((x >> 40) & 0xff) as u8);
    v.push(((x >> 48) & 0xff) as u8);
    v.push(((x >> 56) & 0xff) as u8);
    proof {
        lemma_u64_reassemble(x);
        assert(v@ =~= old(v)@ + u64_le_bytes(x));
    }
}

/// Overwrites the 8 bytes at `off` with the little-endian bytes of `x`.
pub fn set_u64_at(v: &mut Vec<u8>, off: usize, x: u64)
    requires
        off + 8 <= old(v).len(),
    ensures
        final(v)@.len() == old(v)@.len(),
        forall|j: int|
            0 <= j < final(v)@.len() && !(off <= j < off + 8) ==> final(v)@[j] == old(v)@[j],
        u64_at(final(v)@, off as int) == x,
{
    v.set(off, (x & 0xff) as u8);
    v.set(off + 1, ((x >> 8) & 0xff) as u8);
    v.set(off + 2, ((x >> 16) & 0xff) as u8);
    v.set(off + 3, ((x >> 24) & 0xff) as u8);
    v.set(off + 4, ((x >> 32) & 0xff) as u8);
    v.set(off + 5, ((x >> 40) & 0xff) as u8);
    v.set(off + 6, ((x >> 48) & 0xff) as u8);
    v.set(off + 7, ((x >> 56) & 0xff) as u8);
    proof {
        lemma_u64_reassemble(x);
    }
}

} // verus!
