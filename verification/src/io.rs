//! Record input/output on the file image: append a record, and read one back
//! in two phases.
//!
//! A read starts with a probe sized by the pointer's hint (or by how much the
//! caller needs) and is finished by fetching whatever the probe missed. Short
//! probes past the end of the image are tolerated — the hint may overshoot —
//! but a payload that does not fit in the image at the finishing stage is
//! corruption and is reported.

use crate::bytes::lemma_u32_le_round_trip;
use crate::bytes::lemma_u64_le_round_trip;
use crate::bytes::push_u32;
use crate::bytes::push_u64;
use crate::bytes::read_u32_at;
use crate::bytes::read_u64_at;
use crate::bytes::u32_le_bytes;
use crate::bytes::u64_le_bytes;
use crate::hashstore::HashStoreError;
use crate::values::prefix_len;
use crate::values::ptr_file_pos;
use crate::values::ptr_new;
use crate::values::ptr_pos;
use crate::values::ptr_size_est;
use crate::values::rec_dep;
use crate::values::rec_key;
use crate::values::rec_prev;
use crate::values::rec_size;
use crate::values::rec_time;
use crate::values::rec_value;
use crate::values::spec_ptr_new;
use crate::values::spec_size_est;
use crate::values::ValuePrefix;
use crate::values::ValuePtr;
use vstd::prelude::*;

verus! {

broadcast use vstd::array::group_array_axioms;

/// The serialized bytes of a record prefix.
pub open spec fn prefix_bytes(p: ValuePrefix) -> Seq<u8> {
    p.key@ + u64_le_bytes(p.prev_pos) + u32_le_bytes(p.size) + u32_le_bytes(p.time) + seq![
        if p.is_dependency {
            1u8
        } else {
            0u8
        },
    ]
}

/// Round trip: in an image that ends with a serialized prefix and its payload,
/// the parse of the record at the prefix's offset gives back exactly the
/// prefix fields, and — whenever the prefix declares the payload's true
/// length — the payload bytes.
pub proof fn lemma_record_round_trip(f1: Seq<u8>, p: ValuePrefix, content: Seq<u8>)
    ensures
        ({
            let n = f1.len() as int;
            let f2 = f1 + prefix_bytes(p) + content;
            &&& f2.len() == n + prefix_len() + content.len()
            &&& rec_key(f2, n) == p.key@
            &&& rec_prev(f2, n) == p.prev_pos
            &&& rec_size(f2, n) == p.size
            &&& rec_time(f2, n) == p.time
            &&& rec_dep(f2, n) == p.is_dependency
            &&& (p.size == content.len() ==> rec_value(f2, n) == content)
        }),
{
    let n = f1.len() as int;
    let f2 = f1 + prefix_bytes(p) + content;
    assert(p.key@.len() == 32);
    assert(prefix_bytes(p).len() == 49);
    assert forall|j: int| 0 <= j < 49 implies f2[n + j] == prefix_bytes(p)[j] by {}
    assert(rec_key(f2, n) =~= p.key@);
    assert forall|j: int| 0 <= j < 8 implies f2[n + 32 + j] == u64_le_bytes(p.prev_pos)[j] by {
        assert(prefix_bytes(p)[32 + j] == u64_le_bytes(p.prev_pos)[j]);
    }
    lemma_u64_le_round_trip(f2, n + 32, p.prev_pos);
    assert forall|j: int| 0 <= j < 4 implies f2[n + 40 + j] == u32_le_bytes(p.size)[j] by {
        assert(prefix_bytes(p)[40 + j] == u32_le_bytes(p.size)[j]);
    }
    lemma_u32_le_round_trip(f2, n + 40, p.size);
    assert forall|j: int| 0 <= j < 4 implies f2[n + 44 + j] == u32_le_bytes(p.time)[j] by {
        assert(prefix_bytes(p)[44 + j] == u32_le_bytes(p.time)[j]);
    }
    lemma_u32_le_round_trip(f2, n + 44, p.time);
    assert(f2[n + 48] == prefix_bytes(p)[48]);
    if p.size == content.len() {
        assert(rec_value(f2, n) =~= content);
    }
}

/// Appends a record — the serialized prefix followed by the payload — to the
/// image and returns the persistent pointer to the new record.
pub fn write_value(wr: &mut Vec<u8>, prefix: ValuePrefix, content: &[u8]) -> (r: Result<
    ValuePtr,
    HashStoreError,
>)
    requires
        old(wr)@.len() + prefix_len() + content@.len() < 0x1_0000_0000_0000,
        prefix_len() + content@.len() <= usize::MAX,
    ensures
        final(wr)@ == old(wr)@ + prefix_bytes(prefix) + content@,
        r is Ok,
        r->Ok_0 == spec_ptr_new(old(wr)@.len() as u64, (prefix_len() + content@.len()) as nat),
        ptr_pos(r->Ok_0) == old(wr)@.len(),
{
    let n = wr.len();
    let mut i: usize = 0;
    while i < 32
        invariant
            i <= 32,
            wr@.len() == n + i,
            n == old(wr)@.len(),
            forall|j: int| 0 <= j < n ==> wr@[j] == old(wr)@[j],
            forall|j: int| 0 <= j < i ==> wr@[n + j] == prefix.key@[j],
        decreases 32 - i,
    {
        wr.push(prefix.key[i]);
        i = i + 1;
    }
    let ghost s1 = wr@;
    push_u64(wr, prefix.prev_pos);
    let ghost s2 = wr@;
    push_u32(wr, prefix.size);
    let ghost s3 = wr@;
    push_u32(wr, prefix.time);
    let ghost s4 = wr@;
    if prefix.is_dependency {
        wr.push(1);
    } else {
        wr.push(0);
    }
    let ghost mid = wr@;
    let mut i: usize = 0;
    while i < content.len()
        invariant
            i <= content@.len(),
            wr@.len() == mid.len() + i,
            forall|j: int| 0 <= j < mid.len() ==> wr@[j] == mid[j],
            forall|j: int| 0 <= j < i ==> wr@[mid.len() + j] == content@[j],
        decreases content@.len() - i,
    {
        wr.push(content[i]);
        i = i + 1;
    }
    proof {
        let pb = prefix_bytes(prefix);
        assert(mid.len() == n + 49);
        assert forall|j: int| 0 <= j < 49 implies mid[n + j] == pb[j] by {
            if j < 32 {
                assert(mid[n + j] == s1[n + j]);
                assert(pb[j] == prefix.key@[j]);
            } else if j < 40 {
                assert(mid[n + j] == s2[n + j]);
                assert(s2[n + j] == u64_le_bytes(prefix.prev_pos)[j - 32]);
                assert(pb[j] == u64_le_bytes(prefix.prev_pos)[j - 32]);
            } else if j < 44 {
                assert(mid[n + j] == s3[n + j]);
                assert(s3[n + j] == u32_le_bytes(prefix.size)[j - 40]);
                assert(pb[j] == u32_le_bytes(prefix.size)[j - 40]);
            } else if j < 48 {
                assert(mid[n + j] == s4[n + j]);
                assert(s4[n + j] == u32_le_bytes(prefix.time)[j - 44]);
                assert(pb[j] == u32_le_bytes(prefix.time)[j - 44]);
            } else {
                assert(mid[n + 48] == (if prefix.is_dependency {
                    1u8
                } else {
                    0u8
                }));
            }
        }
        assert forall|j: int| 0 <= j < n implies mid[j] == old(wr)@[j] by {
            assert(mid[j] == s4[j]);
            assert(s4[j] == s3[j]);
            assert(s3[j] == s2[j]);
            assert(s2[j] == s1[j]);
        }
        assert forall|j: int| 0 <= j < wr@.len() implies wr@[j] == (old(wr)@ + prefix_bytes(
            prefix,
        ) + content@)[j] by {
            if j < mid.len() {
                assert(wr@[j] == mid[j]);
            } else {
                assert(wr@[j] == content@[j - mid.len()]);
            }
        }
        assert(wr@ =~= old(wr)@ + prefix_bytes(prefix) + content@);
    }
    let ptr = ptr_new(n as u64, 49 + content.len());
    Ok(ptr)
}

/// Reads the prefix at `ptr` and a first chunk of the payload. The chunk is
/// `size_needed` bytes when given, else the pointer's size hint, and is padded
/// with zeroes where it runs past the end of the image (the hint may
/// overshoot; `read_value_finish` sorts it out). Fails only when not even the
/// prefix lies inside the image.
pub fn read_value_start(rd: &Vec<u8>, ptr: ValuePtr, size_needed: Option<usize>) -> (r: Result<
    (ValuePrefix, Vec<u8>),
    HashStoreError,
>)
    requires
        size_needed matches Some(x) ==> x + 49 <= usize::MAX,
    ensures
        ({
            let off = ptr_pos(ptr);
            let m = match size_needed {
                Some(x) => x as int,
                None => spec_size_est(ptr) - 49,
            };
            match r {
                Ok((p, content)) => {
                    &&& off + 49 <= rd@.len()
                    &&& p.key@ == rec_key(rd@, off)
                    &&& p.prev_pos == rec_prev(rd@, off)
                    &&& p.size == rec_size(rd@, off)
                    &&& p.time == rec_time(rd@, off)
                    &&& p.is_dependency == rec_dep(rd@, off)
                    &&& content@.len() == m
                    &&& forall|j: int|
                        0 <= j < m ==> content@[j] == (if off + 49 + j < rd@.len() {
                            rd@[off + 49 + j]
                        } else {
                            0u8
                        })
                },
                Err(e) => off + 49 > rd@.len() && e == HashStoreError::Other,
            }
        }),
{
    let off64 = ptr_file_pos(ptr);
    let len = rd.len();
    if off64 > len as u64 || (len as u64) - off64 < 49 {
        return Err(HashStoreError::Other);
    }
    let off = off64 as usize;
    let m: usize = match size_needed {
        Some(x) => x,
        None => ptr_size_est(ptr) - 49,
    };
    let mut key = [0u8; 32];
    let mut i: usize = 0;
    while i < 32
        invariant
            i <= 32,
            off + 49 <= rd@.len(),
            forall|j: int| 0 <= j < i ==> key@[j] == rd@[off + j],
        decreases 32 - i,
    {
        key[i] = rd[off + i];
        i = i + 1;
    }
    proof {
        assert(key@ =~= rec_key(rd@, off as int));
    }
    let prefix = ValuePrefix {
        key,
        prev_pos: read_u64_at(rd, off + 32),
        size: read_u32_at(rd, off + 40),
        time: read_u32_at(rd, off + 44),
        is_dependency: rd[off + 48] != 0,
    };
    let avail: usize = len - off - 49;
    let mut content: Vec<u8> = Vec::new();
    let mut j: usize = 0;
    while j < m
        invariant
            j <= m,
            off + 49 + avail == rd@.len(),
            content@.len() == j,
            forall|k: int|
                0 <= k < j ==> content@[k] == (if off + 49 + k < rd@.len() {
                    rd@[off + 49 + k]
                } else {
                    0u8
                }),
        decreases m - j,
    {
        if j < avail {
            content.push(rd[off + 49 + j]);
        } else {
            content.push(0);
        }
        j = j + 1;
    }
    Ok((prefix, content))
}

/// Completes a payload begun by `read_value_start`: fetches the bytes the
/// probe missed and trims any bytes past the prefix-declared size, so that on
/// success `content` holds exactly the payload. A payload that does not fit in
/// the image is corruption.
pub fn read_value_finish(
    rd: &Vec<u8>,
    ptr: ValuePtr,
    prefix: &ValuePrefix,
    content: &mut Vec<u8>,
) -> (r: Result<(), HashStoreError>)
    ensures
        ({
            let off = ptr_pos(ptr);
            let sz = prefix.size as int;
            if old(content)@.len() >= sz {
                r is Ok && final(content)@ == old(content)@.subrange(0, sz)
            } else if off + 49 + sz <= rd@.len() {
                r is Ok && final(content)@ == old(content)@ + rd@.subrange(
                    off + 49 + old(content)@.len(),
                    off + 49 + sz,
                )
            } else {
                r == Err::<(), HashStoreError>(HashStoreError::Other) && final(content)@ == old(
                    content,
                )@
            }
        }),
{
    let sz = prefix.size as usize;
    if content.len() >= sz {
        content.truncate(sz);
        return Ok(());
    }
    let off64 = ptr_file_pos(ptr);
    let len = rd.len();
    if off64 + 49 + (sz as u64) > len as u64 {
        return Err(HashStoreError::Other);
    }
    let off = off64 as usize;
    let ghost start = content@;
    while content.len() < sz
        invariant
            content@.len() <= sz,
            sz == prefix.size,
            off == ptr_pos(ptr),
            off + 49 + sz <= rd@.len(),
            start.len() <= content@.len(),
            forall|k: int| 0 <= k < start.len() ==> content@[k] == start[k],
            forall|k: int| start.len() <= k < content@.len() ==> content@[k] == rd@[off + 49 + k],
        decreases sz - content@.len(),
    {
        let k = content.len();
        content.push(rd[off + 49 + k]);
    }
    proof {
        assert(content@ =~= start + rd@.subrange(
            off + 49 + start.len(),
            off as int + 49 + sz as int,
        ));
    }
    Ok(())
}

} // verus!
