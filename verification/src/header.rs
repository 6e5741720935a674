//! The file header: magic id, root-table size, and reserved words.
//!
//! The header occupies the first 48 bytes of the image: the 64-bit magic file
//! id, the `root_bits` byte, 7 reserved zero bytes, then four reserved 64-bit
//! words. The store repurposes the first three reserved words as statistics
//! counters; a fresh header leaves all of them zero.

use crate::bytes::push_u64;
use crate::bytes::u64_at;
use crate::hashstore::HashStoreError;
use vstd::prelude::*;

verus! {

/// The constant that the first 8 bytes of every store file hold.
pub const MAGIC_FILE_ID: u64 = 0x4853_4853_544F_5231;

/// The parsed fixed-size file header.
#[derive(Clone, Copy)]
pub struct Header {
    pub magic_file_id: u64,
    pub root_bits: u8,
}

impl Header {
    /// A fresh header for a store with `root_bits` root-table bits.
    pub fn new(root_bits: u8) -> (h: Header)
        ensures
            h.magic_file_id == MAGIC_FILE_ID,
            h.root_bits == root_bits,
    {
        Header { magic_file_id: MAGIC_FILE_ID, root_bits }
    }

    /// Whether the header carries the expected magic file id.
    pub fn is_correct_fileid(&self) -> (r: bool)
        ensures
            r == (self.magic_file_id == MAGIC_FILE_ID),
    {
        self.magic_file_id == MAGIC_FILE_ID
    }

    /// Parses the header at the start of a file image. Fails only when the
    /// image is shorter than a header.
    pub fn read(rd: &Vec<u8>) -> (r: Result<Header, HashStoreError>)
        ensures
            match r {
                Ok(h) => rd@.len() >= 48 && h.magic_file_id == u64_at(rd@, 0) && h.root_bits
                    == rd@[8],
                Err(e) => rd@.len() < 48 && e == HashStoreError::Other,
            },
    {
        if rd.len() < 48 {
            return Err(HashStoreError::Other);
        }
        let magic = crate::bytes::read_u64_at(rd, 0);
        Ok(Header { magic_file_id: magic, root_bits: rd[8] })
    }

    /// Appends the 48 serialized header bytes: the magic id, the `root_bits`
    /// byte, and zeroes for every reserved byte and word.
    pub fn write(wrt: &mut Vec<u8>, hdr: &Header)
        ensures
            final(wrt)@.len() == old(wrt)@.len() + 48,
            forall|j: int| 0 <= j < old(wrt)@.len() ==> final(wrt)@[j] == old(wrt)@[j],
            u64_at(final(wrt)@, old(wrt)@.len() as int) == hdr.magic_file_id,
            final(wrt)@[old(wrt)@.len() + 8int] == hdr.root_bits,
            forall|j: int|
                old(wrt)@.len() + 9int <= j < old(wrt)@.len() + 16int ==> final(wrt)@[j] == 0,
            u64_at(final(wrt)@, old(wrt)@.len() + 16int) == 0,
            u64_at(final(wrt)@, old(wrt)@.len() + 24int) == 0,
            u64_at(final(wrt)@, old(wrt)@.len() + 32int) == 0,
            u64_at(final(wrt)@, old(wrt)@.len() + 40int) == 0,
    {
        push_u64(wrt, hdr.magic_file_id);
        wrt.push(hdr.root_bits);
        wrt.push(0);
        wrt.push(0);
        wrt.push(0);
        wrt.push(0);
        wrt.push(0);
        wrt.push(0);
        wrt.push(0);
        push_u64(wrt, 0);
        push_u64(wrt, 0);
        push_u64(wrt, 0);
        push_u64(wrt, 0);
    }
}

} // verus!
