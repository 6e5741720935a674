//! The store: a hash index over a single append-only file image.
//!
//! `HashStore` owns the file image and offers the embedding API: create or
//! open, existence checks and reads with a time-bounded chain walk, unchecked
//! and dependency-checked writes, dependency anchors, in-place payload
//! updates, and statistics. Every operation is specified against the bucket
//! chains of `crate::model`.

use crate::bytes::read_u32_at;
use crate::bytes::read_u64_at;
use crate::bytes::set_u64_at;
use crate::bytes::u64_at;
use crate::header::Header;
use crate::header::MAGIC_FILE_ID;
use crate::io::lemma_record_round_trip;
use crate::io::prefix_bytes;
use crate::io::read_value_finish;
use crate::io::read_value_start;
use crate::io::write_value;
use crate::model::chain;
use crate::model::data_start;
use crate::model::lemma_chain_stable;
use crate::model::lemma_chain_stable_untouched;
use crate::model::lemma_rec_parse_agree;
use crate::model::lemma_wf_chain_recs;
use crate::model::Rec;
use crate::model::rec_at;
use crate::model::rec_fits;
use crate::model::root_count;
use crate::model::root_off;
use crate::model::root_ptr;
use crate::model::wf_chain;
use crate::values::prefix_len;
use crate::values::ptr_file_pos;
use crate::values::ptr_pos;
use crate::values::rec_key;
use crate::values::rec_prev;
use crate::values::rec_size;
use crate::values::rec_value;
use crate::values::spec_ptr_new;
use crate::values::ValuePrefix;
use crate::values::ValuePtr;
use vstd::prelude::*;

verus! {

/// Any `HashStoreError` returned indicates corruption of the database or a
/// non-recoverable problem with the file image.
#[derive(Debug, Clone, Copy, PartialEq, Eq, Structural)]
pub enum HashStoreError {
    /// The image does not start with the expected magic file id, or is too
    /// short to hold a header.
    InvalidMagicFileId,
    /// The image was created with a different number of root bits.
    InvalidRootBits,
    /// The image is corrupt in some other way.
    Other,
}

/// How deep a chain walk may go before giving up.
#[derive(Clone, Copy)]
pub enum SearchDepth {
    /// Walk the whole chain.
    FullSearch,
    /// Walk until a record older than the watermark has been examined.
    SearchAfter(u32),
}

/// Whether the depth predicate lets the walk continue past a record with this
/// time. `SearchAfter` is inclusive: the first record with `time` below the
/// watermark is itself examined, and only then does the walk stop.
pub open spec fn depth_ok(depth: SearchDepth, time: u32) -> bool {
    match depth {
        SearchDepth::FullSearch => true,
        SearchDepth::SearchAfter(x) => time >= x,
    }
}

impl SearchDepth {
    /// Whether the walk may continue past a record with time `time`.
    pub fn check(&self, time: u32) -> (r: bool)
        ensures
            r == depth_ok(*self, time),
    {
        match *self {
            SearchDepth::FullSearch => true,
            SearchDepth::SearchAfter(x) => time >= x,
        }
    }
}


/// The record that a walk under `depth` finds for `key`: the newest record
/// whose key matches and that is no dependency anchor, unless a record older
/// than the watermark is examined first. Every examined record is checked for
/// a match before the depth predicate may end the walk.
pub open spec fn find_rec(ch: Seq<Rec>, key: Seq<u8>, depth: SearchDepth) -> Option<Rec>
    decreases ch.len(),
{
    if ch.len() == 0 {
        None
    } else if ch[0].key == key && !ch[0].is_dep {
        Some(ch[0])
    } else if !depth_ok(depth, ch[0].time) {
        None
    } else {
        find_rec(ch.subrange(1, ch.len() as int), key, depth)
    }
}

/// The outcome of a dependency-checked `set`.
#[derive(Debug, Clone, Copy)]
pub enum HashStoreSetResult {
    /// The value was written; the pointer references its record.
    Stored(ValuePtr),
    /// Nothing was written: the chain holds a dependency anchor whose target
    /// is not among the solved dependencies handed to `set`.
    UnmetDependency([u8; 32]),
}

/// The 32-bit integer formed by the first four key bytes, big-endian.
pub open spec fn key_bits32(key: Seq<u8>) -> u32 {
    ((key[0] as u32) << 24) | ((key[1] as u32) << 16) | ((key[2] as u32) << 8) | (key[3] as u32)
}

/// The root-table bucket of `key`: its leading `root_bits` bits.
pub open spec fn bucket_of(root_bits: u8, key: Seq<u8>) -> int {
    if root_bits == 0 {
        0
    } else {
        (key_bits32(key) >> ((32 - root_bits) as u32)) as int
    }
}

/// A key's bucket lies inside the root table.
pub proof fn lemma_bucket_in_range(root_bits: u8, key: Seq<u8>)
    requires
        root_bits <= 32,
    ensures
        0 <= bucket_of(root_bits, key) < root_count(root_bits),
{
    if root_bits == 0 {
        assert(1u64 << 0 == 1) by (bit_vector);
    } else {
        let bits32 = key_bits32(key);
        let sh = (32 - root_bits) as u32;
        assert((1u64 << root_bits) > (bits32 >> sh) as u64) by (bit_vector)
            requires
                1 <= root_bits <= 32 && sh == (32 - root_bits) as u32,
        ;
    }
}

/// Returns the index into the root hash table for a key: the key's first four
/// bytes, read big-endian, shifted right by `32 - root_bits`.
pub fn get_root_index(root_bits: u8, key: &[u8; 32]) -> (r: usize)
    requires
        root_bits <= 32,
    ensures
        r as int == bucket_of(root_bits, key@),
        (r as int) < root_count(root_bits),
{
    if root_bits == 0 {
        proof {
            assert(1u64 << 0 == 1) by (bit_vector);
        }
        0
    } else {
        let bits32: u32 = ((key[0] as u32) << 24) | ((key[1] as u32) << 16) | ((key[2] as u32)
            << 8) | (key[3] as u32);
        let sh: u32 = (32 - root_bits) as u32;
        let idx: u32 = bits32 >> sh;
        proof {
            assert((1u64 << root_bits) > (bits32 >> sh) as u64) by (bit_vector)
                requires
                    1 <= root_bits <= 32 && sh == (32 - root_bits) as u32,
            ;
        }
        idx as usize
    }
}

/// Compares the 32 key bytes at `off` in the image with `key`.
fn bytes_match_key(f: &Vec<u8>, off: usize, key: &[u8; 32]) -> (r: bool)
    requires
        off + 32 <= f.len(),
    ensures
        r == (rec_key(f@, off as int) == key@),
{
    let mut i: usize = 0;
    while i < 32
        invariant
            i <= 32,
            off + 32 <= f.len(),
            forall|j: int| 0 <= j < i ==> f@[off + j] == key@[j],
        decreases 32 - i,
    {
        if f[off + i] != key[i] {
            proof {
                assert(rec_key(f@, off as int)[i as int] != key@[i as int]);
            }
            return false;
        }
        i = i + 1;
    }
    proof {
        assert(rec_key(f@, off as int) =~= key@);
    }
    true
}

/// Handle to a hashstore database, holding the whole file image.
///
/// The image is exactly what the backing file holds: header, root table, and
/// append region. The embedding program loads the image, works on it through
/// this handle, and writes it back.
pub struct HashStore {
    /// The whole file image: header, root table, append region.
    pub file: Vec<u8>,
    /// The number of leading key bits that select a bucket.
    pub root_bits: u8,
}

impl HashStore {
    /// Well-formedness of the store: the image covers header and root table,
    /// offsets fit in 48-bit pointers, the header matches the handle, and
    /// every bucket heads a well-formed chain.
    pub open spec fn wf(self) -> bool {
        &&& self.root_bits <= 32
        &&& data_start(self.root_bits) <= self.file@.len()
        &&& self.file@.len() < 0x1_0000_0000_0000
        &&& u64_at(self.file@, 0) == MAGIC_FILE_ID
        &&& self.file@[8] == self.root_bits
        &&& forall|i: int|
            0 <= i < root_count(self.root_bits) ==> wf_chain(
                self.file@,
                self.root_bits,
                #[trigger] root_ptr(self.file@, i),
            )
    }

    /// The number of root bits the store was opened with.
    pub open spec fn spec_root_bits(self) -> u8 {
        self.root_bits
    }

    /// The whole file image.
    pub open spec fn view(self) -> Seq<u8> {
        self.file@
    }

    /// The chain of bucket `i`, newest record first.
    pub open spec fn chain_at(self, i: int) -> Seq<Rec> {
        chain(self.file@, self.root_bits, root_ptr(self.file@, i))
    }

    /// The bucket that `key` falls in.
    pub open spec fn bucket(self, key: Seq<u8>) -> int {
        bucket_of(self.root_bits, key)
    }

    /// The `elements` statistics counter.
    pub open spec fn elements(self) -> u64 {
        u64_at(self.file@, 16)
    }

    /// The `dependencies` statistics counter.
    pub open spec fn dependencies(self) -> u64 {
        u64_at(self.file@, 24)
    }

    /// The `solved_dependencies` statistics counter.
    pub open spec fn solved_dependencies(self) -> u64 {
        u64_at(self.file@, 32)
    }

    /// Gives the file image up, to be written to the backing file.
    pub fn into_file(self) -> (r: Vec<u8>)
        ensures
            r@ == self.view(),
    {
        self.file
    }

    /// The file image, to be written to the backing file.
    pub fn file_bytes(&self) -> (r: &Vec<u8>)
        ensures
            r@ == self.view(),
    {
        &self.file
    }
}

/// What opening a non-empty image with `root_bits` yields, if anything: the
/// first reason, in the order the checks run, that the image is refused.
pub open spec fn open_error(f: Seq<u8>, root_bits: u8) -> Option<HashStoreError> {
    if f.len() < 48 {
        Some(HashStoreError::Other)
    } else if u64_at(f, 0) != MAGIC_FILE_ID {
        Some(HashStoreError::InvalidMagicFileId)
    } else if f[8] != root_bits {
        Some(HashStoreError::InvalidRootBits)
    } else if f.len() < data_start(root_bits) || f.len() >= 0x1_0000_0000_0000 {
        Some(HashStoreError::Other)
    } else if !(forall|i: int|
        0 <= i < root_count(root_bits) ==> wf_chain(f, root_bits, #[trigger] root_ptr(f, i))) {
        Some(HashStoreError::Other)
    } else {
        None
    }
}

impl HashStore {
    /// Creates or opens a hashstore over a file image. An empty image stands
    /// for a file that did not exist yet: a fresh header and an all-zero root
    /// table are laid out. A non-empty image is validated — magic id, matching
    /// `root_bits`, full root table, well-formed chains — and refused with the
    /// fitting error otherwise.
    ///
    /// `root_bits` is the number of bits of each key that are used for the
    /// root hash table.
    pub fn new(file: Vec<u8>, root_bits: u8) -> (r: Result<HashStore, HashStoreError>)
        requires
            root_bits <= 32,
            data_start(root_bits) <= usize::MAX,
        ensures
            match r {
                Ok(s) => {
                    &&& s.wf()
                    &&& s.spec_root_bits() == root_bits
                    &&& (file@.len() == 0 ==> s.view().len() == data_start(root_bits)
                        && s.elements() == 0 && s.dependencies() == 0 && s.solved_dependencies()
                        == 0 && forall|i: int|
                        0 <= i < root_count(root_bits) ==> s.chain_at(i) == Seq::<Rec>::empty())
                    &&& (file@.len() != 0 ==> s.view() == file@ && open_error(file@, root_bits)
                        is None)
                },
                Err(e) => file@.len() != 0 && open_error(file@, root_bits) == Some(e),
            },
    {
        let rc64: u64 = 1u64 << root_bits;
        proof {
            assert(1u64 <= (1u64 << root_bits) <= 0x1_0000_0000) by (bit_vector)
                requires
                    root_bits <= 32u8,
            ;
        }
        let ds64: u64 = 48 + 8 * rc64;
        assert(ds64 as int == data_start(root_bits));
        if file.len() == 0 {
            let mut f = file;
            let hdr = Header::new(root_bits);
            Header::write(&mut f, &hdr);
            let total = ds64 as usize;
            let ghost before = f@;
            f.resize(total, 0u8);
            proof {
                assert(f@.subrange(0, 48) == before);
                assert forall|j: int| 0 <= j < 48 implies f@[j] == before[j] by {
                    assert(f@.subrange(0, 48)[j] == f@[j]);
                }
                assert forall|j: int| 48 <= j < total implies f@[j] == 0 by {
                    assert(cloned(0u8, f@[j]));
                }
                assert(u64_at(f@, 0) == MAGIC_FILE_ID);
            }
            let s = HashStore { file: f, root_bits };
            proof {
                assert forall|i: int| 0 <= i < root_count(root_bits) implies root_ptr(
                    s.file@,
                    i,
                ) == 0 by {
                    assert(8 * i + 8 <= 8 * root_count(root_bits));
                    crate::bytes::lemma_u64_at_zero(s.file@, root_off(i));
                }
                assert(s.wf());
            }
            Ok(s)
        } else {
            let f = file;
            let hdr = match Header::read(&f) {
                Ok(h) => h,
                Err(e) => {
                    return Err(e);
                },
            };
            if !hdr.is_correct_fileid() {
                return Err(HashStoreError::InvalidMagicFileId);
            }
            if hdr.root_bits != root_bits {
                return Err(HashStoreError::InvalidRootBits);
            }
            let len64 = f.len() as u64;
            if len64 < ds64 || len64 >= 0x1_0000_0000_0000 {
                return Err(HashStoreError::Other);
            }
            let mut i: u64 = 0;
            while i < rc64
                invariant
                    i <= rc64,
                    forall|j: int|
                        0 <= j < i ==> wf_chain(f@, root_bits, #[trigger] root_ptr(f@, j)),
                decreases rc64 - i,
            {
                let ro64: u64 = 48 + 8 * i;
                let ro = ro64 as usize;
                let mut cur: u64 = read_u64_at(&f, ro);
                proof {
                    assert(root_ptr(f@, i as int) == cur);
                }
                while cur != 0
                    invariant
                        wf_chain(f@, root_bits, cur) == wf_chain(
                            f@,
                            root_bits,
                            root_ptr(f@, i as int),
                        ),
                    decreases ptr_pos(cur),
                {
                    let off64 = ptr_file_pos(cur);
                    if off64 < ds64 || off64 + 49 > len64 {
                        proof {
                            assert(!wf_chain(f@, root_bits, cur));
                        }
                        return Err(HashStoreError::Other);
                    }
                    let off = off64 as usize;
                    let size = crate::bytes::read_u32_at(&f, off + 40);
                    if (size as u64) > len64 - off64 - 49 {
                        proof {
                            assert(!rec_fits(f@, root_bits, ptr_pos(cur)));
                            assert(!wf_chain(f@, root_bits, cur));
                        }
                        return Err(HashStoreError::Other);
                    }
                    if f[off + 48] != 0 && size != 32 {
                        proof {
                            assert(!wf_chain(f@, root_bits, cur));
                        }
                        return Err(HashStoreError::Other);
                    }
                    let prev = read_u64_at(&f, off + 32);
                    if prev != 0 {
                        let poff64 = ptr_file_pos(prev);
                        if poff64 + 49 > off64 {
                            proof {
                                assert(!wf_chain(f@, root_bits, cur));
                            }
                            return Err(HashStoreError::Other);
                        }
                        let poff = poff64 as usize;
                        let psize = crate::bytes::read_u32_at(&f, poff + 40);
                        if poff64 + 49 + (psize as u64) > off64 {
                            proof {
                                assert(!wf_chain(f@, root_bits, cur));
                            }
                            return Err(HashStoreError::Other);
                        }
                    }
                    proof {
                        assert(wf_chain(f@, root_bits, cur) == wf_chain(
                            f@,
                            root_bits,
                            rec_prev(f@, ptr_pos(cur)),
                        ));
                    }
                    cur = prev;
                }
                i = i + 1;
            }
            let s = HashStore { file: f, root_bits };
            proof {
                assert(s.wf());
            }
            Ok(s)
        }
    }

    /// Creates a fresh hashstore, standing in for `new` on a path whose old
    /// file the embedding program has removed.
    ///
    /// `root_bits` is the number of bits of each key that are used for the
    /// root hash table.
    pub fn new_empty(root_bits: u8) -> (r: Result<HashStore, HashStoreError>)
        requires
            root_bits <= 32,
            data_start(root_bits) <= usize::MAX,
        ensures
            r is Ok,
            ({
                let s = r->Ok_0;
                &&& s.wf()
                &&& s.spec_root_bits() == root_bits
                &&& s.view().len() == data_start(root_bits)
                &&& s.elements() == 0
                &&& s.dependencies() == 0
                &&& s.solved_dependencies() == 0
                &&& forall|i: int|
                    0 <= i < root_count(root_bits) ==> s.chain_at(i) == Seq::<Rec>::empty()
            }),
    {
        HashStore::new(Vec::new(), root_bits)
    }
}

impl HashStore {
    /// Checks if `key` exists and returns a persistent pointer to its newest
    /// record if it does. Dependency anchors are passed over.
    ///
    /// If `depth` is `SearchDepth::SearchAfter(x)` the search is abandoned
    /// after an element with `time < x` is encountered.
    pub fn key_exists(&mut self, key: &[u8; 32], depth: SearchDepth) -> (r: Result<
        Option<ValuePtr>,
        HashStoreError,
    >)
        requires
            old(self).wf(),
        ensures
            *final(self) == *old(self),
            match find_rec(old(self).chain_at(old(self).bucket(key@)), key@, depth) {
                Some(rec) => r == Ok::<Option<ValuePtr>, HashStoreError>(Some(rec.ptr)),
                None => r == Ok::<Option<ValuePtr>, HashStoreError>(None),
            },
    {
        let idx = get_root_index(self.root_bits, key);
        let n = self.file.len();
        proof {
            assert(8 * (idx as int) + 8 <= 8 * root_count(self.root_bits));
            assert(48 + 8 * (idx as int) + 8 <= data_start(self.root_bits) <= n as int);
        }
        let ro = (48 + 8 * (idx as u64)) as usize;
        let mut cur = read_u64_at(&self.file, ro);
        proof {
            assert(cur == root_ptr(self.file@, idx as int));
        }
        while cur != 0
            invariant
                wf_chain(self.file@, self.root_bits, cur),
                find_rec(chain(self.file@, self.root_bits, cur), key@, depth) == find_rec(
                    old(self).chain_at(old(self).bucket(key@)),
                    key@,
                    depth,
                ),
            decreases ptr_pos(cur),
        {
            let ghost f = self.file@;
            let ghost ch = chain(f, self.root_bits, cur);
            proof {
                assert(rec_fits(f, self.root_bits, ptr_pos(cur)));
                assert(ptr_pos(cur) + 49 <= n as int);
            }
            let off64 = ptr_file_pos(cur);
            let off = off64 as usize;
            let km = bytes_match_key(&self.file, off, key);
            let dep = self.file[off + 48] != 0;
            let prev = read_u64_at(&self.file, off + 32);
            proof {
                assert(ch == seq![rec_at(f, cur)] + chain(f, self.root_bits, prev));
                assert(ch.subrange(1, ch.len() as int) =~= chain(f, self.root_bits, prev));
            }
            if km && !dep {
                return Ok(Some(cur));
            }
            let time = read_u32_at(&self.file, off + 44);
            if !depth.check(time) {
                return Ok(None);
            }
            cur = prev;
        }
        Ok(None)
    }

    /// Directly reads the value pointed to by `ptr`.
    ///
    /// The size hint of `ptr` does not need to be accurate and is used as an
    /// estimate; if it is too small, a second read completes the payload. A
    /// pointer whose record does not lie inside the image yields an error.
    pub fn get_by_ptr(&mut self, ptr: ValuePtr) -> (r: Result<Vec<u8>, HashStoreError>)
        requires
            old(self).wf(),
        ensures
            *final(self) == *old(self),
            ({
                let f = old(self).view();
                let off = ptr_pos(ptr);
                if off + 49 <= f.len() && off + 49 + rec_size(f, off) <= f.len() {
                    r matches Ok(v) && v@ == rec_value(f, off)
                } else {
                    r == Err::<Vec<u8>, HashStoreError>(HashStoreError::Other)
                }
            }),
    {
        let ghost f = self.file@;
        let ghost off_g = ptr_pos(ptr);
        let (prefix, mut content) = match read_value_start(&self.file, ptr, None) {
            Ok(x) => x,
            Err(_) => {
                return Err(HashStoreError::Other);
            },
        };
        let off64 = ptr_file_pos(ptr);
        let len64 = self.file.len() as u64;
        if (prefix.size as u64) > len64 - off64 - 49 {
            return Err(HashStoreError::Other);
        }
        let ghost clen = content@.len() as int;
        let fin = read_value_finish(&self.file, ptr, &prefix, &mut content);
        proof {
            let sz = prefix.size as int;
            assert(off_g + 49 + sz <= f.len());
            if clen >= sz {
                assert(content@ =~= rec_value(f, off_g));
            } else {
                assert(content@ =~= rec_value(f, off_g));
            }
        }
        match fin {
            Ok(()) => Ok(content),
            Err(_) => {
                proof {
                    assert(false);
                }
                Err(HashStoreError::Other)
            },
        }
    }

    /// Checks if `key` exists and returns its newest value if it does.
    /// Dependency anchors are passed over.
    ///
    /// If `depth` is `SearchDepth::SearchAfter(x)` the search is abandoned
    /// after an element with `time < x` is encountered.
    pub fn get(&mut self, key: [u8; 32], depth: SearchDepth) -> (r: Result<
        Option<Vec<u8>>,
        HashStoreError,
    >)
        requires
            old(self).wf(),
        ensures
            *final(self) == *old(self),
            match find_rec(old(self).chain_at(old(self).bucket(key@)), key@, depth) {
                Some(rec) => r matches Ok(Some(v)) && v@ == rec.value,
                None => r == Ok::<Option<Vec<u8>>, HashStoreError>(None),
            },
    {
        let idx = get_root_index(self.root_bits, &key);
        let n = self.file.len();
        proof {
            assert(8 * (idx as int) + 8 <= 8 * root_count(self.root_bits));
            assert(48 + 8 * (idx as int) + 8 <= data_start(self.root_bits) <= n as int);
        }
        let ro = (48 + 8 * (idx as u64)) as usize;
        let mut cur = read_u64_at(&self.file, ro);
        proof {
            assert(cur == root_ptr(self.file@, idx as int));
        }
        while cur != 0
            invariant
                wf_chain(self.file@, self.root_bits, cur),
                find_rec(chain(self.file@, self.root_bits, cur), key@, depth) == find_rec(
                    old(self).chain_at(old(self).bucket(key@)),
                    key@,
                    depth,
                ),
            decreases ptr_pos(cur),
        {
            let ghost f = self.file@;
            let ghost ch = chain(f, self.root_bits, cur);
            proof {
                assert(rec_fits(f, self.root_bits, ptr_pos(cur)));
                assert(ptr_pos(cur) + 49 <= n as int);
            }
            let off64 = ptr_file_pos(cur);
            let off = off64 as usize;
            let km = bytes_match_key(&self.file, off, &key);
            let dep = self.file[off + 48] != 0;
            let prev = read_u64_at(&self.file, off + 32);
            proof {
                assert(ch == seq![rec_at(f, cur)] + chain(f, self.root_bits, prev));
                assert(ch.subrange(1, ch.len() as int) =~= chain(f, self.root_bits, prev));
            }
            if km && !dep {
                let (prefix, mut content) = match read_value_start(&self.file, cur, None) {
                    Ok(x) => x,
                    Err(_) => {
                        proof {
                            assert(false);
                        }
                        return Err(HashStoreError::Other);
                    },
                };
                let ghost clen = content@.len() as int;
                let fin = read_value_finish(&self.file, cur, &prefix, &mut content);
                proof {
                    let sz = prefix.size as int;
                    assert(ptr_pos(cur) + 49 + sz <= f.len());
                    if clen >= sz {
                        assert(content@ =~= rec_value(f, ptr_pos(cur)));
                    } else {
                        assert(content@ =~= rec_value(f, ptr_pos(cur)));
                    }
                }
                match fin {
                    Ok(()) => {
                        return Ok(Some(content));
                    },
                    Err(_) => {
                        proof {
                            assert(false);
                        }
                        return Err(HashStoreError::Other);
                    },
                }
            }
            let time = read_u32_at(&self.file, off + 44);
            if !depth.check(time) {
                return Ok(None);
            }
            cur = prev;
        }
        Ok(None)
    }
}

impl HashStore {
    /// Adds `n` to the statistics counter held at byte offset `which` of the
    /// header, wrapping on overflow. Chains and every other byte stay as they
    /// were.
    fn stats_add(&mut self, which: usize, n: u64)
        requires
            old(self).wf(),
            which == 16 || which == 24 || which == 32,
        ensures
            final(self).wf(),
            final(self).root_bits == old(self).root_bits,
            final(self).view().len() == old(self).view().len(),
            forall|j: int|
                0 <= j < old(self).view().len() && !(which <= j < which + 8)
                    ==> final(self).view()[j] == old(self).view()[j],
            u64_at(final(self).view(), which as int) == u64_at(
                old(self).view(),
                which as int,
            ).wrapping_add(n),
            forall|i: int|
                0 <= i < root_count(old(self).root_bits)
                    ==> final(self).chain_at(i) == old(self).chain_at(i),
    {
        let ghost f0 = self.file@;
        let ghost rb = self.root_bits;
        let e = read_u64_at(&self.file, which);
        set_u64_at(&mut self.file, which, e.wrapping_add(n));
        let ghost f2 = self.file@;
        proof {
            assert(u64_at(f2, 0) == u64_at(f0, 0));
            assert forall|i: int| 0 <= i < root_count(rb) implies root_ptr(f2, i) == root_ptr(
                f0,
                i,
            ) && wf_chain(f2, rb, root_ptr(f0, i)) && chain(f2, rb, root_ptr(f0, i)) == chain(
                f0,
                rb,
                root_ptr(f0, i),
            ) by {
                assert(8 * i + 8 <= 8 * root_count(rb));
                assert(root_ptr(f2, i) == root_ptr(f0, i));
                lemma_chain_stable_untouched(f0, f2, rb, root_ptr(f0, i));
            }
            assert(self.wf());
        }
    }

    /// Appends a record for `key` whose predecessor is the current bucket
    /// head, and publishes it as the new head of the bucket. Updating the
    /// statistics is the callers' business.
    #[verifier::rlimit(60)]
    fn publish(&mut self, key: &[u8; 32], payload: &[u8], time: u32, is_dependency: bool) -> (r:
        ValuePtr)
        requires
            old(self).wf(),
            payload@.len() <= 0xFFFF_FFFF,
            is_dependency ==> payload@.len() == 32,
            old(self).view().len() + 49 + payload@.len() < 0x1_0000_0000_0000,
            49 + payload@.len() <= usize::MAX,
        ensures
            final(self).wf(),
            final(self).root_bits == old(self).root_bits,
            final(self).view().len() == old(self).view().len() + 49 + payload@.len(),
            r == spec_ptr_new(old(self).view().len() as u64, (49 + payload@.len()) as nat),
            ptr_pos(r) == old(self).view().len(),
            ({
                let b = bucket_of(old(self).root_bits, key@);
                let rec = Rec {
                    ptr: r,
                    off: old(self).view().len() as int,
                    key: key@,
                    prev: root_ptr(old(self).view(), b),
                    size: payload@.len() as u32,
                    time: time,
                    is_dep: is_dependency,
                    value: payload@,
                };
                &&& final(self).chain_at(b) == seq![rec] + old(self).chain_at(b)
                &&& forall|i: int|
                    0 <= i < root_count(old(self).root_bits) && i != b ==> final(self).chain_at(i)
                        == old(self).chain_at(i)
            }),
            u64_at(final(self).view(), 16) == u64_at(old(self).view(), 16),
            u64_at(final(self).view(), 24) == u64_at(old(self).view(), 24),
            u64_at(final(self).view(), 32) == u64_at(old(self).view(), 32),
    {
        let ghost f0 = self.file@;
        let ghost rb = self.root_bits;
        let ghost n = f0.len() as int;
        let idx = get_root_index(self.root_bits, key);
        let n_exec = self.file.len();
        proof {
            assert(8 * (idx as int) + 8 <= 8 * root_count(rb));
            assert(48 + 8 * (idx as int) + 8 <= data_start(rb) <= n_exec as int);
        }
        let ro = (48 + 8 * (idx as u64)) as usize;
        let old_head = read_u64_at(&self.file, ro);
        proof {
            assert(old_head == root_ptr(f0, idx as int));
            assert(wf_chain(f0, rb, old_head));
        }
        let prefix = ValuePrefix {
            key: *key,
            prev_pos: old_head,
            size: payload.len() as u32,
            time,
            is_dependency,
        };
        let new_ptr = match write_value(&mut self.file, prefix, payload) {
            Ok(p) => p,
            Err(_) => {
                proof {
                    assert(false);
                }
                0
            },
        };
        let ghost f1 = self.file@;
        proof {
            lemma_record_round_trip(f0, prefix, payload@);
            assert(f1 == f0 + prefix_bytes(prefix) + payload@);
            assert forall|j: int| 0 <= j < n implies f1[j] == f0[j] by {}
            assert forall|i: int| 0 <= i < root_count(rb) implies root_ptr(f1, i) == root_ptr(
                f0,
                i,
            ) && wf_chain(f1, rb, root_ptr(f0, i)) && chain(f1, rb, root_ptr(f0, i)) == chain(
                f0,
                rb,
                root_ptr(f0, i),
            ) by {
                assert(8 * i + 8 <= 8 * root_count(rb));
                assert(root_ptr(f1, i) == root_ptr(f0, i));
                lemma_chain_stable_untouched(f0, f1, rb, root_ptr(f0, i));
            }
        }
        set_u64_at(&mut self.file, ro, new_ptr);
        let ghost f2 = self.file@;
        proof {
            assert(u64_at(f2, root_off(idx as int)) == new_ptr);
            assert forall|i: int|
                0 <= i < root_count(rb) && i != idx as int implies root_ptr(f2, i) == root_ptr(
                f1,
                i,
            ) by {
                assert(8 * i + 8 <= 8 * root_count(rb));
            }
            assert forall|i: int| 0 <= i < root_count(rb) implies wf_chain(
                f2,
                rb,
                root_ptr(f1, i),
            ) && chain(f2, rb, root_ptr(f1, i)) == chain(f1, rb, root_ptr(f1, i)) by {
                assert(8 * i + 8 <= 8 * root_count(rb));
                lemma_chain_stable_untouched(f1, f2, rb, root_ptr(f1, i));
            }
            // The new record parses alike in f1 and f2: the root word that
            // changed lies below the data region.
            assert(rec_size(f1, n) == prefix.size);
            assert forall|j: int| n <= j < n + 49 + rec_size(f1, n) implies f1[j] == f2[j] by {}
            lemma_rec_parse_agree(f1, f2, n);
            assert(rec_fits(f2, rb, n));
            assert(rec_prev(f2, n) == old_head);
            // The old head's record ends at or before the new record.
            if old_head != 0 {
                assert(rec_fits(f0, rb, ptr_pos(old_head)));
                let p = ptr_pos(old_head);
                assert(chain(f0, rb, old_head)[0] == rec_at(f0, old_head));
                assert(chain(f2, rb, old_head)[0] == rec_at(f2, old_head));
                assert(rec_size(f2, p) == rec_size(f0, p));
                assert(p + 49 + rec_size(f2, p) <= n);
            }
            assert(ptr_pos(old_head) < n);
            assert(ptr_pos(new_ptr) == n);
            assert(wf_chain(f2, rb, new_ptr));
            assert(chain(f2, rb, new_ptr) == seq![rec_at(f2, new_ptr)] + chain(f2, rb, old_head));
            let b = idx as int;
            let rec = Rec {
                ptr: new_ptr,
                off: n,
                key: key@,
                prev: old_head,
                size: payload@.len() as u32,
                time: time,
                is_dep: is_dependency,
                value: payload@,
            };
            assert(rec_at(f2, new_ptr) =~= rec);
            assert(chain(f2, rb, root_ptr(f2, b)) =~~= seq![rec] + chain(f0, rb, root_ptr(f0, b)));
            // Header fields and statistics bytes are untouched.
            assert(u64_at(f2, 0) == u64_at(f0, 0));
            assert(f2[8] == f0[8]);
            assert(u64_at(f2, 16) == u64_at(f0, 16));
            assert(u64_at(f2, 24) == u64_at(f0, 24));
            assert(u64_at(f2, 32) == u64_at(f0, 32));
            assert(self.wf());
        }
        new_ptr
    }

    /// Stores `value` at `key` with no dependency check.
    ///
    /// `time` can be any integer that roughly increases with time (eg a block
    /// height), and is used to query only recent keys.
    pub fn set_unchecked(&mut self, key: &[u8; 32], value: &[u8], time: u32) -> (r: Result<
        ValuePtr,
        HashStoreError,
    >)
        requires
            old(self).wf(),
            value@.len() <= 0xFFFF_FFFF,
            old(self).view().len() + 49 + value@.len() < 0x1_0000_0000_0000,
            49 + value@.len() <= usize::MAX,
        ensures
            final(self).wf(),
            final(self).root_bits == old(self).root_bits,
            r is Ok,
            r->Ok_0 == spec_ptr_new(old(self).view().len() as u64, (49 + value@.len()) as nat),
            ({
                let b = bucket_of(old(self).root_bits, key@);
                let rec = Rec {
                    ptr: r->Ok_0,
                    off: old(self).view().len() as int,
                    key: key@,
                    prev: root_ptr(old(self).view(), b),
                    size: value@.len() as u32,
                    time: time,
                    is_dep: false,
                    value: value@,
                };
                &&& final(self).chain_at(b) == seq![rec] + old(self).chain_at(b)
                &&& forall|i: int|
                    0 <= i < root_count(old(self).root_bits) && i != b ==> final(self).chain_at(i)
                        == old(self).chain_at(i)
            }),
            final(self).view().len() == old(self).view().len() + 49 + value@.len(),
            final(self).elements() == old(self).elements().wrapping_add(1),
            final(self).dependencies() == old(self).dependencies(),
            final(self).solved_dependencies() == old(self).solved_dependencies(),
    {
        proof {
            lemma_bucket_in_range(self.root_bits, key@);
        }
        let p = self.publish(key, value, time, false);
        self.stats_add(16, 1);
        Ok(p)
    }
}

/// The record that a full walk (no depth bound) finds for `key`: the newest
/// record whose key matches, dependency anchor or not.
pub open spec fn find_any(ch: Seq<Rec>, key: Seq<u8>) -> Option<Rec>
    decreases ch.len(),
{
    if ch.len() == 0 {
        None
    } else if ch[0].key == key {
        Some(ch[0])
    } else {
        find_any(ch.subrange(1, ch.len() as int), key)
    }
}

/// The solved-dependencies argument of `set`, as a sequence of 32-byte keys.
pub open spec fn solved_view(s: Seq<[u8; 32]>) -> Seq<Seq<u8>> {
    s.map_values(|a: [u8; 32]| a@)
}

/// Whether `v` is among the solved dependencies.
pub open spec fn solved_contains(solved: Seq<Seq<u8>>, v: Seq<u8>) -> bool {
    exists|i: int| 0 <= i < solved.len() && solved[i] == v
}

/// The payload of the first dependency anchor for `key` on the walk under
/// `depth` whose target is not among `solved` — the anchor that makes a
/// checked `set` refuse. Every examined record is considered before the depth
/// predicate may end the walk.
pub open spec fn first_unmet(
    ch: Seq<Rec>,
    key: Seq<u8>,
    depth: SearchDepth,
    solved: Seq<Seq<u8>>,
) -> Option<Seq<u8>>
    decreases ch.len(),
{
    if ch.len() == 0 {
        None
    } else if ch[0].key == key && ch[0].is_dep && !solved_contains(solved, ch[0].value) {
        Some(ch[0].value)
    } else if !depth_ok(depth, ch[0].time) {
        None
    } else {
        first_unmet(ch.subrange(1, ch.len() as int), key, depth, solved)
    }
}

/// How many dependency anchors for `key` the walk under `depth` examines:
/// what a successful checked `set` consumes.
pub open spec fn count_deps(ch: Seq<Rec>, key: Seq<u8>, depth: SearchDepth) -> nat
    decreases ch.len(),
{
    if ch.len() == 0 {
        0
    } else {
        let here: nat = if ch[0].key == key && ch[0].is_dep {
            1
        } else {
            0
        };
        if !depth_ok(depth, ch[0].time) {
            here
        } else {
            here + count_deps(ch.subrange(1, ch.len() as int), key, depth)
        }
    }
}

/// A walk examines at most one anchor per record.
pub proof fn lemma_count_deps_le_len(ch: Seq<Rec>, key: Seq<u8>, depth: SearchDepth)
    ensures
        count_deps(ch, key, depth) <= ch.len(),
    decreases ch.len(),
{
    if ch.len() != 0 {
        lemma_count_deps_le_len(ch.subrange(1, ch.len() as int), key, depth);
    }
}

/// A well-formed chain holds fewer records than its head offset: offsets
/// strictly decrease towards the chain end.
pub proof fn lemma_chain_len_bound(f: Seq<u8>, root_bits: u8, ptr: u64)
    requires
        wf_chain(f, root_bits, ptr),
    ensures
        chain(f, root_bits, ptr).len() <= ptr_pos(ptr),
    decreases ptr_pos(ptr),
{
    if ptr != 0 {
        let prev = rec_prev(f, ptr_pos(ptr));
        assert(0 <= ptr_pos(prev) < ptr_pos(ptr));
        lemma_chain_len_bound(f, root_bits, prev);
    }
}

/// Copies the 32 bytes at `off` out of the image.
fn read_key32(f: &Vec<u8>, off: usize) -> (r: [u8; 32])
    requires
        off + 32 <= f.len(),
    ensures
        r@ == f@.subrange(off as int, off + 32),
{
    let mut out = [0u8; 32];
    let mut i: usize = 0;
    while i < 32
        invariant
            i <= 32,
            forall|j: int| 0 <= j < i ==> out@[j] == f@[off + j],
        decreases 32 - i,
    {
        out[i] = f[off + i];
        i = i + 1;
    }
    proof {
        assert(out@ =~= f@.subrange(off as int, off + 32));
    }
    out
}

/// Compares two 32-byte keys.
fn keys_equal(a: &[u8; 32], b: &[u8; 32]) -> (r: bool)
    ensures
        r == (a@ == b@),
{
    let mut i: usize = 0;
    while i < 32
        invariant
            i <= 32,
            forall|j: int| 0 <= j < i ==> a@[j] == b@[j],
        decreases 32 - i,
    {
        if a[i] != b[i] {
            return false;
        }
        i = i + 1;
    }
    proof {
        assert(a@ =~= b@);
    }
    true
}

/// Whether `d` is among the solved dependencies.
fn solved_has(solved: &Vec<[u8; 32]>, d: &[u8; 32]) -> (r: bool)
    ensures
        r == solved_contains(solved_view(solved@), d@),
{
    let mut i: usize = 0;
    while i < solved.len()
        invariant
            i <= solved@.len(),
            forall|j: int| 0 <= j < i ==> solved_view(solved@)[j] != d@,
        decreases solved@.len() - i,
    {
        if keys_equal(&solved[i], d) {
            proof {
                assert(solved_view(solved@)[i as int] == d@);
            }
            return true;
        }
        i = i + 1;
    }
    false
}

impl HashStore {
    /// Walks the chain of `key` under `depth` and checks every dependency
    /// anchor for `key` against the solved dependencies. Returns how many
    /// anchors the walk examined, or the target of the first anchor that is
    /// not solved.
    fn scan_dependencies(&self, key: &[u8; 32], solved: &Vec<[u8; 32]>, depth: &SearchDepth) -> (r:
        Result<u64, [u8; 32]>)
        requires
            self.wf(),
        ensures
            ({
                let ch = self.chain_at(self.bucket(key@));
                let sv = solved_view(solved@);
                match r {
                    Ok(cnt) => first_unmet(ch, key@, *depth, sv) is None && cnt == count_deps(
                        ch,
                        key@,
                        *depth,
                    ),
                    Err(d) => first_unmet(ch, key@, *depth, sv) == Some(d@),
                }
            }),
    {
        let ghost sv = solved_view(solved@);
        let ghost root_ch = self.chain_at(self.bucket(key@));
        let idx = get_root_index(self.root_bits, key);
        let n = self.file.len();
        proof {
            assert(8 * (idx as int) + 8 <= 8 * root_count(self.root_bits));
            assert(48 + 8 * (idx as int) + 8 <= data_start(self.root_bits) <= n as int);
        }
        let ro = (48 + 8 * (idx as u64)) as usize;
        let mut cur = read_u64_at(&self.file, ro);
        proof {
            assert(cur == root_ptr(self.file@, idx as int));
            lemma_chain_len_bound(self.file@, self.root_bits, cur);
            lemma_count_deps_le_len(root_ch, key@, *depth);
        }
        let mut cnt: u64 = 0;
        while cur != 0
            invariant
                wf_chain(self.file@, self.root_bits, cur),
                first_unmet(chain(self.file@, self.root_bits, cur), key@, *depth, sv)
                    == first_unmet(root_ch, key@, *depth, sv),
                cnt + count_deps(chain(self.file@, self.root_bits, cur), key@, *depth)
                    == count_deps(root_ch, key@, *depth),
            decreases ptr_pos(cur),
        {
            let ghost f = self.file@;
            let ghost ch = chain(f, self.root_bits, cur);
            proof {
                assert(rec_fits(f, self.root_bits, ptr_pos(cur)));
                assert(ptr_pos(cur) + 49 <= n as int);
            }
            let off64 = ptr_file_pos(cur);
            let off = off64 as usize;
            let km = bytes_match_key(&self.file, off, key);
            let dep = self.file[off + 48] != 0;
            let prev = read_u64_at(&self.file, off + 32);
            proof {
                assert(ch == seq![rec_at(f, cur)] + chain(f, self.root_bits, prev));
                assert(ch.subrange(1, ch.len() as int) =~= chain(f, self.root_bits, prev));
            }
            if km && dep {
                proof {
                    assert(rec_size(f, ptr_pos(cur)) == 32);
                    assert(rec_at(f, cur).value == f.subrange(
                        ptr_pos(cur) + 49,
                        ptr_pos(cur) + 49 + 32,
                    ));
                }
                let d = read_key32(&self.file, off + 49);
                if !solved_has(solved, &d) {
                    return Err(d);
                }
                cnt = cnt + 1;
            }
            let time = read_u32_at(&self.file, off + 44);
            if !depth.check(time) {
                return Ok(cnt);
            }
            cur = prev;
        }
        Ok(cnt)
    }

    /// Stores `value` at `key`, provided every dependency anchor for `key`
    /// that the walk under `depth` examines names a target among
    /// `solved_dependencies`. If one does not, nothing is written and its
    /// target is handed back as `UnmetDependency`.
    ///
    /// `time` can be any integer that roughly increases with time (eg a block
    /// height), and is used to query only recent keys.
    pub fn set(
        &mut self,
        key: &[u8; 32],
        value: &[u8],
        solved_dependencies: Vec<[u8; 32]>,
        depth: SearchDepth,
        time: u32,
    ) -> (r: Result<HashStoreSetResult, HashStoreError>)
        requires
            old(self).wf(),
            value@.len() <= 0xFFFF_FFFF,
            old(self).view().len() + 49 + value@.len() < 0x1_0000_0000_0000,
            49 + value@.len() <= usize::MAX,
        ensures
            final(self).root_bits == old(self).root_bits,
            r is Ok,
            ({
                let b = bucket_of(old(self).root_bits, key@);
                let ch = old(self).chain_at(b);
                let sv = solved_view(solved_dependencies@);
                match first_unmet(ch, key@, depth, sv) {
                    Some(d) => *final(self) == *old(self) && (r->Ok_0 matches
                    HashStoreSetResult::UnmetDependency(a) && a@ == d),
                    None => {
                        let p = spec_ptr_new(
                            old(self).view().len() as u64,
                            (49 + value@.len()) as nat,
                        );
                        let rec = Rec {
                            ptr: p,
                            off: old(self).view().len() as int,
                            key: key@,
                            prev: root_ptr(old(self).view(), b),
                            size: value@.len() as u32,
                            time: time,
                            is_dep: false,
                            value: value@,
                        };
                        &&& final(self).wf()
                        &&& r->Ok_0 == HashStoreSetResult::Stored(p)
                        &&& final(self).chain_at(b) == seq![rec] + ch
                        &&& forall|i: int|
                            0 <= i < root_count(old(self).root_bits) && i != b
                                ==> final(self).chain_at(i) == old(self).chain_at(i)
                        &&& final(self).view().len() == old(self).view().len() + 49 + value@.len()
                        &&& final(self).elements() == old(self).elements().wrapping_add(1)
                        &&& final(self).dependencies() == old(self).dependencies()
                        &&& final(self).solved_dependencies()
                            == old(self).solved_dependencies().wrapping_add(
                            count_deps(ch, key@, depth) as u64,
                        )
                    },
                }
            }),
    {
        proof {
            lemma_bucket_in_range(self.root_bits, key@);
        }
        match self.scan_dependencies(key, &solved_dependencies, &depth) {
            Err(d) => Ok(HashStoreSetResult::UnmetDependency(d)),
            Ok(cnt) => {
                let p = self.publish(key, value, time, false);
                self.stats_add(16, 1);
                self.stats_add(32, cnt);
                Ok(HashStoreSetResult::Stored(p))
            },
        }
    }

    /// Reads the newest record for `key` — dependency anchor or not — and
    /// returns its payload. If no record for `key` exists at all, a dependency
    /// anchor naming `dependent_on` is inserted instead and nothing is
    /// returned: later checked `set`s on `key` must then acknowledge
    /// `dependent_on`.
    pub fn get_dependency(&mut self, key: &[u8; 32], dependent_on: &[u8; 32], time: u32) -> (r:
        Result<Option<Vec<u8>>, HashStoreError>)
        requires
            old(self).wf(),
            old(self).view().len() + 49 + 32 < 0x1_0000_0000_0000,
        ensures
            final(self).wf(),
            final(self).root_bits == old(self).root_bits,
            r is Ok,
            ({
                let b = bucket_of(old(self).root_bits, key@);
                let ch = old(self).chain_at(b);
                match find_any(ch, key@) {
                    Some(rec) => *final(self) == *old(self) && (r->Ok_0 matches Some(v) && v@
                    == rec.value),
                    None => {
                        let p = spec_ptr_new(old(self).view().len() as u64, 81);
                        let rec = Rec {
                            ptr: p,
                            off: old(self).view().len() as int,
                            key: key@,
                            prev: root_ptr(old(self).view(), b),
                            size: 32,
                            time: time,
                            is_dep: true,
                            value: dependent_on@,
                        };
                        &&& r->Ok_0 is None
                        &&& final(self).chain_at(b) == seq![rec] + ch
                        &&& forall|i: int|
                            0 <= i < root_count(old(self).root_bits) && i != b
                                ==> final(self).chain_at(i) == old(self).chain_at(i)
                        &&& final(self).view().len() == old(self).view().len() + 81
                        &&& final(self).dependencies() == old(self).dependencies().wrapping_add(1)
                        &&& final(self).elements() == old(self).elements()
                        &&& final(self).solved_dependencies() == old(self).solved_dependencies()
                    },
                }
            }),
    {
        let ghost root_ch = self.chain_at(self.bucket(key@));
        let idx = get_root_index(self.root_bits, key);
        let n = self.file.len();
        proof {
            lemma_bucket_in_range(self.root_bits, key@);
            assert(8 * (idx as int) + 8 <= 8 * root_count(self.root_bits));
            assert(48 + 8 * (idx as int) + 8 <= data_start(self.root_bits) <= n as int);
        }
        let ro = (48 + 8 * (idx as u64)) as usize;
        let mut cur = read_u64_at(&self.file, ro);
        proof {
            assert(cur == root_ptr(self.file@, idx as int));
        }
        while cur != 0
            invariant
                wf_chain(self.file@, self.root_bits, cur),
                find_any(chain(self.file@, self.root_bits, cur), key@) == find_any(root_ch, key@),
            decreases ptr_pos(cur),
        {
            let ghost f = self.file@;
            let ghost ch = chain(f, self.root_bits, cur);
            proof {
                assert(rec_fits(f, self.root_bits, ptr_pos(cur)));
                assert(ptr_pos(cur) + 49 <= n as int);
            }
            let off64 = ptr_file_pos(cur);
            let off = off64 as usize;
            let km = bytes_match_key(&self.file, off, key);
            let prev = read_u64_at(&self.file, off + 32);
            proof {
                assert(ch == seq![rec_at(f, cur)] + chain(f, self.root_bits, prev));
                assert(ch.subrange(1, ch.len() as int) =~= chain(f, self.root_bits, prev));
            }
            if km {
                let (prefix, mut content) = match read_value_start(&self.file, cur, None) {
                    Ok(x) => x,
                    Err(_) => {
                        proof {
                            assert(false);
                        }
                        return Err(HashStoreError::Other);
                    },
                };
                let ghost clen = content@.len() as int;
                let fin = read_value_finish(&self.file, cur, &prefix, &mut content);
                proof {
                    let sz = prefix.size as int;
                    assert(ptr_pos(cur) + 49 + sz <= f.len());
                    if clen >= sz {
                        assert(content@ =~= rec_value(f, ptr_pos(cur)));
                    } else {
                        assert(content@ =~= rec_value(f, ptr_pos(cur)));
                    }
                }
                match fin {
                    Ok(()) => {
                        return Ok(Some(content));
                    },
                    Err(_) => {
                        proof {
                            assert(false);
                        }
                        return Err(HashStoreError::Other);
                    },
                }
            }
            cur = prev;
        }
        let anchor = self.publish(key, dependent_on.as_slice(), time, true);
        proof {
            assert(anchor == spec_ptr_new(old(self).view().len() as u64, 81));
        }
        self.stats_add(24, 1);
        Ok(None)
    }
}

impl HashStore {
    /// Whether an in-place update of `len` bytes at `position` inside the
    /// payload of the record at `ptr` is sound: some bucket chain reaches that
    /// record, the range stays within its payload, and no other record of any
    /// chain overlaps the range (as the append-only format guarantees for
    /// records written through this store).
    pub open spec fn update_safe(self, ptr: u64, position: int, len: int) -> bool {
        let off = ptr_pos(ptr);
        let a = off + 49 + position;
        let b = a + len;
        &&& exists|i: int, k: int|
            0 <= i < root_count(self.root_bits) && 0 <= k < self.chain_at(i).len() && (
            #[trigger] self.chain_at(i)[k]).off == off && position + len <= self.chain_at(i)[k].size
        &&& forall|i: int, k: int|
            0 <= i < root_count(self.root_bits) && 0 <= k < self.chain_at(i).len() && (
            #[trigger] self.chain_at(i)[k]).off != off ==> (self.chain_at(i)[k].off + 49
                + self.chain_at(i)[k].size <= a || b <= self.chain_at(i)[k].off)
    }

    /// Updates part of a value in place.
    ///
    /// The on-disk concurrency model only allows updating each byte of a
    /// value to a single deterministic final value; the caller must ensure
    /// that, must stay within the bounds of the value, and must name a record
    /// that a bucket chain reaches. Every chain keeps its records and their
    /// prefix fields; only the payload bytes at `position` change.
    #[verifier::rlimit(60)]
    pub fn update(&mut self, ptr: ValuePtr, value: &[u8], position: usize) -> (r: Result<
        (),
        HashStoreError,
    >)
        requires
            old(self).wf(),
            old(self).update_safe(ptr, position as int, value@.len() as int),
        ensures
            final(self).wf(),
            final(self).root_bits == old(self).root_bits,
            final(self).view().len() == old(self).view().len(),
            r is Ok,
            ({
                let a = ptr_pos(ptr) + 49 + position;
                &&& forall|j: int|
                    0 <= j < old(self).view().len() && !(a <= j < a + value@.len())
                        ==> final(self).view()[j] == old(self).view()[j]
                &&& forall|j: int|
                    0 <= j < value@.len() ==> final(self).view()[a + j] == value@[j]
            }),
            forall|i: int|
                0 <= i < root_count(old(self).root_bits) ==> final(self).chain_at(i).len() == old(
                    self,
                ).chain_at(i).len(),
            forall|i: int, k: int|
                0 <= i < root_count(old(self).root_bits) && 0 <= k < old(self).chain_at(i).len()
                    ==> {
                    let r1 = #[trigger] old(self).chain_at(i)[k];
                    let r2 = final(self).chain_at(i)[k];
                    &&& r2.ptr == r1.ptr
                    &&& r2.off == r1.off
                    &&& r2.key == r1.key
                    &&& r2.prev == r1.prev
                    &&& r2.size == r1.size
                    &&& r2.time == r1.time
                    &&& r2.is_dep == r1.is_dep
                    &&& (r1.off != ptr_pos(ptr) ==> r2.value == r1.value)
                    &&& (r1.off == ptr_pos(ptr) ==> r2.value == r1.value.subrange(
                        0,
                        position as int,
                    ) + value@ + r1.value.subrange(position + value@.len(), r1.size as int))
                },
    {
        let ghost f0 = self.file@;
        let ghost rb = self.root_bits;
        let ghost offg = ptr_pos(ptr);
        let ghost ag = offg + 49 + position;
        let ghost bg = ag + value@.len();
        let n = self.file.len();
        proof {
            let (wi, wk): (int, int) = choose|i: int, k: int|
                0 <= i < root_count(rb) && 0 <= k < old(self).chain_at(i).len() && (
                #[trigger] old(self).chain_at(i)[k]).off == offg && position + value@.len() <= old(
                    self,
                ).chain_at(i)[k].size;
            lemma_wf_chain_recs(f0, rb, root_ptr(f0, wi));
            assert(rec_size(f0, offg) == old(self).chain_at(wi)[wk].size);
            assert(bg <= offg + 49 + rec_size(f0, offg) <= f0.len());
            assert(bg <= n as int);
        }
        let off64 = ptr_file_pos(ptr);
        let off = off64 as usize;
        let a = off + 49 + position;
        let mut j: usize = 0;
        while j < value.len()
            invariant
                j <= value@.len(),
                self.file@.len() == f0.len(),
                self.root_bits == rb,
                forall|i: int|
                    0 <= i < f0.len() && !(ag <= i < ag + j) ==> self.file@[i] == f0[i],
                forall|i: int| 0 <= i < j ==> self.file@[ag + i] == value@[i],
            decreases value@.len() - j,
        {
            self.file.set(a + j, value[j]);
            j = j + 1;
        }
        let ghost f2 = self.file@;
        proof {
            assert forall|i: int| 0 <= i < root_count(rb) implies root_ptr(f2, i) == root_ptr(
                f0,
                i,
            ) && wf_chain(f2, rb, root_ptr(f0, i)) && chain(f2, rb, root_ptr(f0, i)).len() == chain(
                f0,
                rb,
                root_ptr(f0, i),
            ).len() by {
                assert(8 * i + 8 <= 8 * root_count(rb));
                assert(root_ptr(f2, i) == root_ptr(f0, i));
                lemma_wf_chain_recs(f0, rb, root_ptr(f0, i));
                let ptr_i = root_ptr(f0, i);
                let ch0 = chain(f0, rb, ptr_i);
                assert(old(self).chain_at(i) == ch0);
                assert forall|k: int| 0 <= k < ch0.len() implies {
                    let r = #[trigger] ch0[k];
                    if r.off == offg {
                        ag >= bg || (r.off + prefix_len() <= ag && bg <= r.off + prefix_len()
                            + r.size)
                    } else {
                        ag >= bg || r.off + prefix_len() + r.size <= ag || bg <= r.off
                    }
                } by {
                    let r = ch0[k];
                    assert(old(self).chain_at(i)[k] == r);
                    if r.off == offg {
                        assert(r.size == rec_size(f0, offg));
                    } else {
                        assert((old(self).chain_at(i)[k]).off != offg);
                    }
                }
                lemma_chain_stable(f0, f2, rb, root_ptr(f0, i), ag, bg, offg);
            }
            assert forall|i: int, k: int|
                0 <= i < root_count(rb) && 0 <= k < chain(f0, rb, root_ptr(f0, i)).len() implies {
                let r1 = #[trigger] chain(f0, rb, root_ptr(f0, i))[k];
                let r2 = chain(f2, rb, root_ptr(f2, i))[k];
                &&& r2.ptr == r1.ptr
                &&& r2.off == r1.off
                &&& r2.key == r1.key
                &&& r2.prev == r1.prev
                &&& r2.size == r1.size
                &&& r2.time == r1.time
                &&& r2.is_dep == r1.is_dep
                &&& (r1.off != offg ==> r2.value == r1.value)
                &&& (r1.off == offg ==> r2.value == r1.value.subrange(0, position as int) + value@
                    + r1.value.subrange(position + value@.len(), r1.size as int))
            } by {
                lemma_wf_chain_recs(f0, rb, root_ptr(f0, i));
                let ptr_i = root_ptr(f0, i);
                let ch0 = chain(f0, rb, ptr_i);
                assert(old(self).chain_at(i) == ch0);
                assert forall|k: int| 0 <= k < ch0.len() implies {
                    let r = #[trigger] ch0[k];
                    if r.off == offg {
                        ag >= bg || (r.off + prefix_len() <= ag && bg <= r.off + prefix_len()
                            + r.size)
                    } else {
                        ag >= bg || r.off + prefix_len() + r.size <= ag || bg <= r.off
                    }
                } by {
                    let r = ch0[k];
                    assert(old(self).chain_at(i)[k] == r);
                    if r.off == offg {
                        assert(r.size == rec_size(f0, offg));
                    } else {
                        assert((old(self).chain_at(i)[k]).off != offg);
                    }
                }
                lemma_chain_stable(f0, f2, rb, root_ptr(f0, i), ag, bg, offg);
                lemma_wf_chain_recs(f2, rb, root_ptr(f2, i));
                let r1 = chain(f0, rb, root_ptr(f0, i))[k];
                let r2 = chain(f2, rb, root_ptr(f2, i))[k];
                if r1.off == offg {
                    assert(r2.value == rec_value(f2, offg));
                    assert(r1.value == rec_value(f0, offg));
                    assert(r2.value =~= r1.value.subrange(0, position as int) + value@
                        + r1.value.subrange(position + value@.len(), r1.size as int));
                }
            }
            assert(u64_at(f2, 0) == u64_at(f0, 0));
            assert(self.wf());
        }
        Ok(())
    }

    /// Flushes all pending writes. The image lives in memory and is the
    /// embedding program's to persist, so there is nothing to wait for; the
    /// operation stands for the durability point of the embedding API.
    pub fn flush(&mut self) -> (r: Result<(), HashStoreError>)
        ensures
            *final(self) == *old(self),
            r is Ok,
    {
        Ok(())
    }

    /// Flushes and returns the statistics snapshot: the `elements`,
    /// `dependencies` and `solved_dependencies` counters, then the file
    /// length.
    pub fn stats(&mut self) -> (r: Result<Vec<u64>, HashStoreError>)
        requires
            old(self).wf(),
        ensures
            *final(self) == *old(self),
            r is Ok,
            r->Ok_0@ == seq![
                old(self).elements(),
                old(self).dependencies(),
                old(self).solved_dependencies(),
                old(self).view().len() as u64,
            ],
    {
        self.flush()?;
        let mut v: Vec<u64> = Vec::new();
        v.push(read_u64_at(&self.file, 16));
        v.push(read_u64_at(&self.file, 24));
        v.push(read_u64_at(&self.file, 32));
        v.push(self.file.len() as u64);
        proof {
            assert(v@ =~= seq![
                old(self).elements(),
                old(self).dependencies(),
                old(self).solved_dependencies(),
                old(self).view().len() as u64,
            ]);
        }
        Ok(v)
    }
}

/// A chain with no record for `key` at all has no dependency anchor for `key`
/// either, so no walk refuses a checked `set` on it.
pub proof fn lemma_no_key_no_unmet(ch: Seq<Rec>, key: Seq<u8>, depth: SearchDepth, solved: Seq<
    Seq<u8>,
>)
    requires
        find_any(ch, key) is None,
    ensures
        first_unmet(ch, key, depth, solved) is None,
    decreases ch.len(),
{
    if ch.len() != 0 {
        lemma_no_key_no_unmet(ch.subrange(1, ch.len() as int), key, depth, solved);
    }
}

/// Law: a stored value is found again. After an unchecked put of `value` at
/// `key` — which prepends a non-anchor record `rec` carrying `value` to the
/// bucket of `key` — a full-depth lookup of `key` returns exactly `value`.
pub proof fn lemma_set_unchecked_then_get(
    pre: HashStore,
    post: HashStore,
    key: Seq<u8>,
    value: Seq<u8>,
    rec: Rec,
)
    requires
        post.spec_root_bits() == pre.spec_root_bits(),
        post.chain_at(pre.bucket(key)) == seq![rec] + pre.chain_at(pre.bucket(key)),
        rec.key == key,
        rec.is_dep == false,
        rec.value == value,
    ensures
        find_rec(post.chain_at(post.bucket(key)), key, SearchDepth::FullSearch) == Some(rec),
        find_rec(post.chain_at(post.bucket(key)), key, SearchDepth::FullSearch)->Some_0.value
            == value,
{
    let ch = post.chain_at(post.bucket(key));
    assert(ch[0] == rec);
}

/// Law: a dependency anchor is enforced. After `get_dependency` found no
/// record for `key` and prepended the anchor record `rec` naming
/// `dependent_on`, a checked `set` of `key` under a full search is refused
/// with `dependent_on` when the solved dependencies are empty, and is not
/// refused when they contain `dependent_on`.
pub proof fn lemma_anchor_enforced(
    pre: HashStore,
    post: HashStore,
    key: Seq<u8>,
    dependent_on: Seq<u8>,
    rec: Rec,
    solved: Seq<Seq<u8>>,
)
    requires
        find_any(pre.chain_at(pre.bucket(key)), key) is None,
        post.spec_root_bits() == pre.spec_root_bits(),
        post.chain_at(pre.bucket(key)) == seq![rec] + pre.chain_at(pre.bucket(key)),
        rec.key == key,
        rec.is_dep,
        rec.value == dependent_on,
    ensures
        first_unmet(post.chain_at(post.bucket(key)), key, SearchDepth::FullSearch, Seq::empty())
            == Some(dependent_on),
        solved_contains(solved, dependent_on) ==> first_unmet(
            post.chain_at(post.bucket(key)),
            key,
            SearchDepth::FullSearch,
            solved,
        ) is None,
{
    let ch = post.chain_at(post.bucket(key));
    assert(ch[0] == rec);
    assert(!solved_contains(Seq::<Seq<u8>>::empty(), dependent_on));
    if solved_contains(solved, dependent_on) {
        lemma_no_key_no_unmet(pre.chain_at(pre.bucket(key)), key, SearchDepth::FullSearch, solved);
        assert(ch.subrange(1, ch.len() as int) =~= pre.chain_at(pre.bucket(key)));
    }
}

/// Law: persistence. A well-formed store reopened from its own file image
/// with its own root bits passes every validation of `new`, so the reopened
/// store holds the same image — and with it every bucket chain and every
/// record written before the close.
pub proof fn lemma_reopen(s: HashStore)
    requires
        s.wf(),
    ensures
        open_error(s.view(), s.spec_root_bits()) is None,
{
}

} // verus!
