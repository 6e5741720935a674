//! The record format: the persistent pointer codec and the fixed value prefix.
//!
//! A record in the append region is a fixed 49-byte prefix followed by the
//! payload: a 32-byte key, the 8-byte pointer to the previous head of the
//! bucket, the 4-byte payload size, the 4-byte watermark time, and one flag
//! byte that marks dependency anchors (any non-zero byte counts as set). All
//! integers are little-endian.
//!
//! A persistent pointer packs a file offset and a size hint into 64 bits:
//! bits 0-47 hold the offset of the record start, bits 48-51 hold a class `S`
//! meaning the whole record takes at most `1 << (S + 6)` bytes. Records too
//! large for a class leave the hint zero, and readers fall back on the size
//! declared in the prefix.

use crate::bytes::u32_at;
use crate::bytes::u64_at;
use vstd::prelude::*;

verus! {

/// A persistent pointer to a record in the file image.
pub type ValuePtr = u64;

/// A prefix for every value in the database.
#[derive(Clone, Copy)]
pub struct ValuePrefix {
    pub key: [u8; 32],
    pub prev_pos: u64,
    pub size: u32,
    pub time: u32,
    pub is_dependency: bool,
}

/// Serialized length of a `ValuePrefix`.
pub open spec fn prefix_len() -> int {
    49
}

/// The file offset carried in bits 0-47 of a persistent pointer.
pub open spec fn ptr_pos(ptr: u64) -> int {
    if ptr == 0 {
        0
    } else {
        (ptr & 0xFFFF_FFFF_FFFF) as int
    }
}

/// The size class of a record of `sz` bytes: the least `S` with
/// `sz <= 1 << (S + 6)`, or 16 when no 4-bit class covers `sz`.
pub open spec fn size_class(sz: nat) -> nat {
    if sz <= 0x40 {
        0
    } else if sz <= 0x80 {
        1
    } else if sz <= 0x100 {
        2
    } else if sz <= 0x200 {
        3
    } else if sz <= 0x400 {
        4
    } else if sz <= 0x800 {
        5
    } else if sz <= 0x1000 {
        6
    } else if sz <= 0x2000 {
        7
    } else if sz <= 0x4000 {
        8
    } else if sz <= 0x8000 {
        9
    } else if sz <= 0x10000 {
        10
    } else if sz <= 0x20000 {
        11
    } else if sz <= 0x40000 {
        12
    } else if sz <= 0x80000 {
        13
    } else if sz <= 0x100000 {
        14
    } else if sz <= 0x200000 {
        15
    } else {
        16
    }
}

/// The pointer that `ptr_new` builds from an offset and a record size.
pub open spec fn spec_ptr_new(filepos: u64, sz: nat) -> u64 {
    if size_class(sz) >= 16 {
        filepos
    } else {
        filepos | ((size_class(sz) as u64) << 48)
    }
}

/// The read-ahead estimate carried by a pointer: `1 << (6 + S)` bytes.
pub open spec fn spec_size_est(ptr: u64) -> int {
    (0x40u64 << ((ptr >> 48) & 0xF)) as int
}

/// Builds the persistent pointer for a record of `sz` bytes at `filepos`.
pub fn ptr_new(filepos: u64, sz: usize) -> (r: ValuePtr)
    requires
        filepos < 0x1_0000_0000_0000,
    ensures
        r == spec_ptr_new(filepos, sz as nat),
        ptr_pos(r) == filepos,
{
    let s: u64 = if sz <= 0x40 {
        0
    } else if sz <= 0x80 {
        1
    } else if sz <= 0x100 {
        2
    } else if sz <= 0x200 {
        3
    } else if sz <= 0x400 {
        4
    } else if sz <= 0x800 {
        5
    } else if sz <= 0x1000 {
        6
    } else if sz <= 0x2000 {
        7
    } else if sz <= 0x4000 {
        8
    } else if sz <= 0x8000 {
        9
    } else if sz <= 0x10000 {
        10
    } else if sz <= 0x20000 {
        11
    } else if sz <= 0x40000 {
        12
    } else if sz <= 0x80000 {
        13
    } else if sz <= 0x100000 {
        14
    } else if sz <= 0x200000 {
        15
    } else {
        16
    };
    if s >= 16 {
        proof {
            assert(filepos & 0xFFFF_FFFF_FFFF == filepos) by (bit_vector)
                requires
                    filepos < 0x1_0000_0000_0000u64,
            ;
        }
        filepos
    } else {
        let r = filepos | (s << 48);
        proof {
            assert((filepos | (s << 48)) & 0xFFFF_FFFF_FFFF == filepos && ((filepos | (s << 48))
                == 0 ==> filepos == 0)) by (bit_vector)
                requires
                    filepos < 0x1_0000_0000_0000u64 && s < 16,
            ;
        }
        r
    }
}

/// Returns the read-ahead estimate of the record behind `dataptr`.
pub fn ptr_size_est(dataptr: ValuePtr) -> (r: usize)
    ensures
        r as int == spec_size_est(dataptr),
        0x40 <= r <= 0x200000,
{
    let e: u64 = (dataptr >> 48) & 0xF;
    proof {
        assert(e < 16 && 0x40u64 <= (0x40u64 << e) <= 0x200000) by (bit_vector)
            requires
                e == (dataptr >> 48) & 0xF,
        ;
    }
    (0x40u64 << e) as usize
}

/// Returns the file offset of the record behind `dataptr`.
pub fn ptr_file_pos(dataptr: ValuePtr) -> (r: u64)
    ensures
        r as int == ptr_pos(dataptr),
        r < 0x1_0000_0000_0000,
{
    proof {
        assert(dataptr & 0xFFFF_FFFF_FFFF < 0x1_0000_0000_0000u64 && (dataptr == 0 ==> dataptr
            & 0xFFFF_FFFF_FFFF == 0)) by (bit_vector);
    }
    dataptr & 0xFFFF_FFFF_FFFF
}

/// The size hint never undershoots: for any record of at most 2 MiB, the
/// estimate read back from the pointer covers the true record size. (Beyond
/// 2 MiB no 4-bit class fits, the hint field stays zero, and readers must use
/// the prefix-declared size.)
pub proof fn lemma_size_est_covers(filepos: u64, sz: nat)
    requires
        filepos < 0x1_0000_0000_0000,
        sz <= 0x200000,
    ensures
        spec_size_est(spec_ptr_new(filepos, sz)) >= sz,
{
    let c = size_class(sz) as u64;
    let ptr = spec_ptr_new(filepos, sz);
    assert(c <= 15);
    assert((ptr >> 48) & 0xF == c) by (bit_vector)
        requires
            filepos < 0x1_0000_0000_0000u64 && c <= 15 && ptr == (filepos | (c << 48)),
    ;
    assert(0x40u64 << 0 == 0x40 && 0x40u64 << 1 == 0x80 && 0x40u64 << 2 == 0x100 && 0x40u64 << 3
        == 0x200 && 0x40u64 << 4 == 0x400 && 0x40u64 << 5 == 0x800 && 0x40u64 << 6 == 0x1000
        && 0x40u64 << 7 == 0x2000 && 0x40u64 << 8 == 0x4000 && 0x40u64 << 9 == 0x8000 && 0x40u64
        << 10 == 0x10000 && 0x40u64 << 11 == 0x20000 && 0x40u64 << 12 == 0x40000 && 0x40u64 << 13
        == 0x80000 && 0x40u64 << 14 == 0x100000 && 0x40u64 << 15 == 0x200000) by (bit_vector);
}

/// The key field of the record starting at `off`.
pub open spec fn rec_key(f: Seq<u8>, off: int) -> Seq<u8> {
    f.subrange(off, off + 32)
}

/// The previous-head pointer field of the record starting at `off`.
pub open spec fn rec_prev(f: Seq<u8>, off: int) -> u64 {
    u64_at(f, off + 32)
}

/// The payload size field of the record starting at `off`.
pub open spec fn rec_size(f: Seq<u8>, off: int) -> u32 {
    u32_at(f, off + 40)
}

/// The watermark time field of the record starting at `off`.
pub open spec fn rec_time(f: Seq<u8>, off: int) -> u32 {
    u32_at(f, off + 44)
}

/// The dependency flag of the record starting at `off`.
pub open spec fn rec_dep(f: Seq<u8>, off: int) -> bool {
    f[off + 48] != 0
}

/// The payload of the record starting at `off`.
pub open spec fn rec_value(f: Seq<u8>, off: int) -> Seq<u8> {
    f.subrange(off + 49, off + 49 + rec_size(f, off))
}

} // verus!
