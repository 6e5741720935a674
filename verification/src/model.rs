//! The ghost model of the store: the root table and the bucket chains.
//!
//! A file image is a 48-byte header, then `2^root_bits` words of 8 bytes (the
//! root table), then the append region. Each root word points at the newest
//! record of its bucket; each record points at its predecessor through the
//! `prev_pos` field of its prefix, so a bucket is a chain of records ordered
//! newest to oldest, ending at pointer 0. `chain` parses that list out of the
//! bytes, `wf_chain` says when it is well formed, and `lemma_chain_stable`
//! shows that chains survive every edit the store makes outside them.

use crate::bytes::u64_at;
use crate::values::prefix_len;
use crate::values::ptr_pos;
use crate::values::rec_dep;
use crate::values::rec_key;
use crate::values::rec_prev;
use crate::values::rec_size;
use crate::values::rec_time;
use crate::values::rec_value;
use vstd::prelude::*;

verus! {

/// One record of a bucket chain, as parsed from the file image.
#[verifier::ext_equal]
pub ghost struct Rec {
    /// The pointer word through which the chain reaches this record.
    pub ptr: u64,
    /// The file offset of the record start: `ptr_pos(ptr)`.
    pub off: int,
    /// The 32-byte key.
    pub key: Seq<u8>,
    /// The raw pointer word of the predecessor record (0 at the chain end).
    pub prev: u64,
    /// The payload length in bytes.
    pub size: u32,
    /// The caller-supplied watermark time.
    pub time: u32,
    /// Whether the record is a dependency anchor.
    pub is_dep: bool,
    /// The `size` payload bytes.
    pub value: Seq<u8>,
}

/// The record that the pointer word `ptr` references in image `f`.
pub open spec fn rec_at(f: Seq<u8>, ptr: u64) -> Rec {
    Rec {
        ptr,
        off: ptr_pos(ptr),
        key: rec_key(f, ptr_pos(ptr)),
        prev: rec_prev(f, ptr_pos(ptr)),
        size: rec_size(f, ptr_pos(ptr)),
        time: rec_time(f, ptr_pos(ptr)),
        is_dep: rec_dep(f, ptr_pos(ptr)),
        value: rec_value(f, ptr_pos(ptr)),
    }
}

/// Serialized length of the file header.
pub open spec fn header_len() -> int {
    48
}

/// Number of buckets of the root table: `2^root_bits`.
pub open spec fn root_count(root_bits: u8) -> int {
    (1u64 << root_bits) as int
}

/// First offset of the append region: header plus root table.
pub open spec fn data_start(root_bits: u8) -> int {
    header_len() + 8 * root_count(root_bits)
}

/// Offset of the root table word of bucket `i`.
pub open spec fn root_off(i: int) -> int {
    header_len() + 8 * i
}

/// The head pointer stored in the root table word of bucket `i`.
pub open spec fn root_ptr(f: Seq<u8>, i: int) -> u64 {
    u64_at(f, root_off(i))
}

/// Whether a whole record lies between the root table and the end of the file.
pub open spec fn rec_fits(f: Seq<u8>, root_bits: u8, off: int) -> bool {
    data_start(root_bits) <= off && off + prefix_len() + rec_size(f, off) <= f.len()
}

/// The chain of records reachable from `ptr`, newest first. A pointer of 0
/// ends the chain. A pointer whose record does not fit in the file, or whose
/// predecessor does not lie strictly earlier, ends it too; neither arises in a
/// well-formed image.
pub open spec fn chain(f: Seq<u8>, root_bits: u8, ptr: u64) -> Seq<Rec>
    decreases ptr_pos(ptr),
{
    if ptr == 0 {
        Seq::empty()
    } else if !rec_fits(f, root_bits, ptr_pos(ptr)) {
        Seq::empty()
    } else if ptr_pos(rec_prev(f, ptr_pos(ptr))) < ptr_pos(ptr) {
        seq![rec_at(f, ptr)] + chain(f, root_bits, rec_prev(f, ptr_pos(ptr)))
    } else {
        seq![rec_at(f, ptr)]
    }
}

/// Well-formedness of the chain behind `ptr`: every record fits, dependency
/// anchors carry exactly a 32-byte key as payload, and each predecessor record
/// ends at or before the start of its successor (so records of one chain never
/// overlap and offsets strictly decrease towards the chain end).
pub open spec fn wf_chain(f: Seq<u8>, root_bits: u8, ptr: u64) -> bool
    decreases ptr_pos(ptr),
{
    if ptr == 0 {
        true
    } else {
        let off = ptr_pos(ptr);
        let prev = rec_prev(f, off);
        if !rec_fits(f, root_bits, off) {
            false
        } else if !(prev == 0 || ptr_pos(prev) + prefix_len() + rec_size(f, ptr_pos(prev))
            <= off) {
            false
        } else {
            (rec_dep(f, off) ==> rec_size(f, off) == 32) && wf_chain(f, root_bits, prev)
        }
    }
}

/// Two images that agree on all bytes of a record parse it alike.
pub proof fn lemma_rec_parse_agree(f1: Seq<u8>, f2: Seq<u8>, off: int)
    requires
        0 <= off,
        off + prefix_len() + rec_size(f1, off) <= f1.len(),
        forall|j: int| off <= j < off + prefix_len() + rec_size(f1, off) ==> f1[j] == f2[j],
        f1.len() <= f2.len(),
    ensures
        rec_key(f2, off) == rec_key(f1, off),
        rec_prev(f2, off) == rec_prev(f1, off),
        rec_size(f2, off) == rec_size(f1, off),
        rec_time(f2, off) == rec_time(f1, off),
        rec_dep(f2, off) == rec_dep(f1, off),
        rec_value(f2, off) == rec_value(f1, off),
{
    assert(rec_key(f2, off) =~= rec_key(f1, off));
    assert(rec_size(f2, off) == rec_size(f1, off));
    assert(rec_value(f2, off) =~= rec_value(f1, off));
}

/// In a well-formed chain, every listed record is the parse of its own pointer,
/// fits in the file, and heads a well-formed chain itself.
pub proof fn lemma_wf_chain_recs(f: Seq<u8>, root_bits: u8, ptr: u64)
    requires
        wf_chain(f, root_bits, ptr),
    ensures
        forall|k: int|
            0 <= k < chain(f, root_bits, ptr).len() ==> {
                let r = #[trigger] chain(f, root_bits, ptr)[k];
                &&& r == rec_at(f, r.ptr)
                &&& r.off == ptr_pos(r.ptr)
                &&& r.ptr != 0
                &&& data_start(root_bits) <= r.off
                &&& r.off + prefix_len() + r.size <= f.len()
                &&& (r.is_dep ==> r.size == 32)
                &&& wf_chain(f, root_bits, r.ptr)
            },
    decreases ptr_pos(ptr),
{
    if ptr != 0 {
        let off = ptr_pos(ptr);
        let prev = rec_prev(f, off);
        assert(0 <= ptr_pos(prev) < off);
        lemma_wf_chain_recs(f, root_bits, prev);
        assert(chain(f, root_bits, ptr) == seq![rec_at(f, ptr)] + chain(f, root_bits, prev));
        assert forall|k: int| 0 <= k < chain(f, root_bits, ptr).len() implies {
            let r = #[trigger] chain(f, root_bits, ptr)[k];
            &&& r == rec_at(f, r.ptr)
            &&& r.off == ptr_pos(r.ptr)
            &&& r.ptr != 0
            &&& data_start(root_bits) <= r.off
            &&& r.off + prefix_len() + r.size <= f.len()
            &&& (r.is_dep ==> r.size == 32)
            &&& wf_chain(f, root_bits, r.ptr)
        } by {
            if k == 0 {
                assert(chain(f, root_bits, ptr)[0] == rec_at(f, ptr));
            } else {
                assert(chain(f, root_bits, ptr)[k] == chain(f, root_bits, prev)[k - 1]);
            }
        }
    }
}

/// A well-formed chain survives any edit of the image that keeps the length,
/// grows the end, or changes data-region bytes only inside `[a, b)`, provided
/// `[a, b)` stays inside the payload of the record at `t_off` and away from
/// every other record of the chain. All records keep their place and their
/// prefix fields; only the record at `t_off` may change its payload. With an
/// empty `[a, b)` this says that chains survive appends and edits of the
/// header and the root table.
pub proof fn lemma_chain_stable(
    f1: Seq<u8>,
    f2: Seq<u8>,
    root_bits: u8,
    ptr: u64,
    a: int,
    b: int,
    t_off: int,
)
    requires
        wf_chain(f1, root_bits, ptr),
        f1.len() <= f2.len(),
        forall|j: int|
            data_start(root_bits) <= j < f1.len() && !(a <= j < b) ==> f1[j] == f2[j],
        forall|k: int|
            0 <= k < chain(f1, root_bits, ptr).len() ==> {
                let r = #[trigger] chain(f1, root_bits, ptr)[k];
                if r.off == t_off {
                    a >= b || (r.off + prefix_len() <= a && b <= r.off + prefix_len() + r.size)
                } else {
                    a >= b || r.off + prefix_len() + r.size <= a || b <= r.off
                }
            },
    ensures
        wf_chain(f2, root_bits, ptr),
        chain(f2, root_bits, ptr).len() == chain(f1, root_bits, ptr).len(),
        forall|k: int|
            0 <= k < chain(f1, root_bits, ptr).len() ==> {
                let r1 = #[trigger] chain(f1, root_bits, ptr)[k];
                let r2 = chain(f2, root_bits, ptr)[k];
                &&& r2.ptr == r1.ptr
                &&& r2.off == r1.off
                &&& r2.key == r1.key
                &&& r2.prev == r1.prev
                &&& r2.size == r1.size
                &&& r2.time == r1.time
                &&& r2.is_dep == r1.is_dep
                &&& (r1.off != t_off ==> r2.value == r1.value)
            },
    decreases ptr_pos(ptr),
{
    if ptr != 0 {
        let off = ptr_pos(ptr);
        let prev = rec_prev(f1, off);
        let head1 = rec_at(f1, ptr);
        assert(0 <= ptr_pos(prev) < off);
        let c1 = chain(f1, root_bits, ptr);
        assert(c1 == seq![head1] + chain(f1, root_bits, prev));
        assert(c1[0] == head1);
        // The prefix bytes of the head are outside [a, b), so its parses agree.
        assert(forall|j: int| off <= j < off + prefix_len() ==> f1[j] == f2[j]);
        assert(rec_key(f2, off) == rec_key(f1, off)) by {
            assert(rec_key(f2, off) =~= rec_key(f1, off));
        }
        assert(rec_prev(f2, off) == rec_prev(f1, off));
        assert(rec_size(f2, off) == rec_size(f1, off));
        assert(rec_time(f2, off) == rec_time(f1, off));
        assert(rec_dep(f2, off) == rec_dep(f1, off));
        assert(rec_fits(f2, root_bits, off));
        if head1.off != t_off {
            assert(rec_value(f2, off) == rec_value(f1, off)) by {
                assert(rec_value(f2, off) =~= rec_value(f1, off));
            }
        }
        // Transfer the per-record hypothesis to the tail and recurse.
        assert(forall|k: int|
            0 <= k < chain(f1, root_bits, prev).len() ==> chain(f1, root_bits, prev)[k] == c1[k
                + 1]);
        lemma_chain_stable(f1, f2, root_bits, prev, a, b, t_off);
        // The predecessor's size parse also agrees, so nesting carries over.
        if prev != 0 {
            let poff = ptr_pos(prev);
            assert(chain(f1, root_bits, prev)[0] == rec_at(f1, prev));
            assert(rec_size(f2, poff) == rec_size(f1, poff));
        }
        assert(wf_chain(f2, root_bits, ptr));
        let c2 = chain(f2, root_bits, ptr);
        assert(c2 == seq![rec_at(f2, ptr)] + chain(f2, root_bits, prev));
        assert forall|k: int| 0 <= k < c1.len() implies {
            let r1 = #[trigger] c1[k];
            let r2 = c2[k];
            &&& r2.ptr == r1.ptr
            &&& r2.off == r1.off
            &&& r2.key == r1.key
            &&& r2.prev == r1.prev
            &&& r2.size == r1.size
            &&& r2.time == r1.time
            &&& r2.is_dep == r1.is_dep
            &&& (r1.off != t_off ==> r2.value == r1.value)
        } by {
            if k == 0 {
                assert(c1[0] == rec_at(f1, ptr) && c2[0] == rec_at(f2, ptr));
            } else {
                assert(c1[k] == chain(f1, root_bits, prev)[k - 1]);
                assert(c2[k] == chain(f2, root_bits, prev)[k - 1]);
            }
        }
    }
}

/// A well-formed chain is untouched by edits below the data region and by
/// appends past the end of the image.
pub proof fn lemma_chain_stable_untouched(f1: Seq<u8>, f2: Seq<u8>, root_bits: u8, ptr: u64)
    requires
        wf_chain(f1, root_bits, ptr),
        f1.len() <= f2.len(),
        forall|j: int| data_start(root_bits) <= j < f1.len() ==> f1[j] == f2[j],
    ensures
        wf_chain(f2, root_bits, ptr),
        chain(f2, root_bits, ptr) == chain(f1, root_bits, ptr),
{
    lemma_chain_stable(f1, f2, root_bits, ptr, 0, 0, -1);
    lemma_wf_chain_recs(f1, root_bits, ptr);
    assert(chain(f2, root_bits, ptr) =~~= chain(f1, root_bits, ptr));
}

} // verus!
