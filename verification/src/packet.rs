//! Blobs: the fixed-layout records that the erasure coder works on.
//!
//! A blob is a byte buffer of `BLOB_SIZE` bytes together with transport
//! metadata. The buffer starts with a `BLOB_HEADER_SIZE`-byte header that
//! stores the blob's absolute sequence index, its total stored size and a
//! kind flag (data or parity); the payload follows. The header bytes of a
//! data blob take part in erasure coding, which is how a reconstructed
//! data blob gets its index and size back.

use vstd::prelude::*;
use vstd::bytes::{spec_u64_from_le_bytes, spec_u64_to_le_bytes, u64_from_le_bytes, u64_to_le_bytes};
use vstd::slice::slice_subrange;

verus! {

/// Total bytes in a blob's buffer, header included.
pub const BLOB_SIZE: usize = 1024;

/// Bytes reserved at the front of the buffer for the header.
pub const BLOB_HEADER_SIZE: usize = 32;

/// Payload capacity of a blob.
pub const BLOB_DATA_SIZE: usize = BLOB_SIZE - BLOB_HEADER_SIZE;

/// Byte offset of the stored index field (8 bytes, little endian).
pub const BLOB_INDEX_OFFSET: usize = 0;

/// Byte offset of the stored size field (8 bytes, little endian).
pub const BLOB_SIZE_OFFSET: usize = 8;

/// Byte offset of the kind flag (1 byte; non-zero means parity).
pub const BLOB_FLAGS_OFFSET: usize = 16;

/// `s` with `src` written over the bytes starting at `at`.
pub open spec fn overwrite(s: Seq<u8>, at: int, src: Seq<u8>) -> Seq<u8> {
    s.take(at) + src + s.skip(at + src.len() as int)
}

/// Pointwise description of `overwrite`.
pub proof fn lemma_overwrite(s: Seq<u8>, at: int, src: Seq<u8>)
    requires
        0 <= at,
        at + src.len() <= s.len(),
    ensures
        overwrite(s, at, src).len() == s.len(),
        forall|i: int|
            0 <= i < s.len() ==> overwrite(s, at, src)[i] == (if at <= i < at + src.len() {
                src[i - at]
            } else {
                s[i]
            }),
{
}

/// Transport metadata carried beside a blob's bytes: how many bytes stand
/// in the buffer and from which network peer they came.
#[derive(Clone, Copy, Debug)]
pub struct Meta {
    /// Number of meaningful bytes in the buffer, header included.
    pub size: usize,
    /// Source address of the packet the blob arrived in.
    pub addr: u64,
    /// Source port.
    pub port: u16,
    /// Whether the source address is an IPv6 address.
    pub v6: bool,
}

/// A record buffer: header plus payload, with transport metadata.
#[derive(Clone, Debug)]
pub struct Blob {
    /// The raw bytes: header in `[0, BLOB_HEADER_SIZE)`, payload after.
    pub data: Vec<u8>,
    /// Transport metadata.
    pub meta: Meta,
}

impl Blob {
    /// The buffer has its fixed length and the stored size fits in it.
    pub open spec fn wf(&self) -> bool {
        &&& self.data@.len() == BLOB_SIZE
        &&& self.meta.size <= BLOB_SIZE
    }

    /// The sequence index stored in the header bytes.
    pub open spec fn stored_index(&self) -> u64 {
        spec_u64_from_le_bytes(self.data@.subrange(
            BLOB_INDEX_OFFSET as int,
            BLOB_INDEX_OFFSET + 8,
        ))
    }

    /// The total size stored in the header bytes.
    pub open spec fn stored_size(&self) -> u64 {
        spec_u64_from_le_bytes(self.data@.subrange(BLOB_SIZE_OFFSET as int, BLOB_SIZE_OFFSET + 8))
    }

    /// Whether the header marks this blob as a parity record.
    pub open spec fn is_coding(&self) -> bool {
        self.data@[BLOB_FLAGS_OFFSET as int] != 0
    }

    /// Read the stored sequence index.
    pub fn get_index(&self) -> (ix: u64)
        requires
            self.wf(),
        ensures
            ix == self.stored_index(),
    {
        u64_from_le_bytes(slice_subrange(self.data.as_slice(), BLOB_INDEX_OFFSET, BLOB_INDEX_OFFSET + 8))
    }

    /// Store a sequence index in the header.
    pub fn set_index(&mut self, ix: u64)
        requires
            old(self).wf(),
        ensures
            final(self).wf(),
            final(self).data@ == overwrite(old(self).data@, BLOB_INDEX_OFFSET as int, spec_u64_to_le_bytes(ix)),
            final(self).meta == old(self).meta,
            final(self).stored_index() == ix,
    {
        proof {
            vstd::bytes::lemma_auto_spec_u64_to_from_le_bytes();
        }
        let bytes = u64_to_le_bytes(ix);
        write_bytes_at(&mut self.data, BLOB_INDEX_OFFSET, &bytes);
        proof {
            lemma_overwrite(old(self).data@, BLOB_INDEX_OFFSET as int, spec_u64_to_le_bytes(ix));
            assert(self.data@.subrange(BLOB_INDEX_OFFSET as int, BLOB_INDEX_OFFSET + 8)
                =~= spec_u64_to_le_bytes(ix));
        }
    }

    /// Read the stored total size.
    pub fn get_data_size(&self) -> (sz: u64)
        requires
            self.wf(),
        ensures
            sz == self.stored_size(),
    {
        u64_from_le_bytes(slice_subrange(self.data.as_slice(), BLOB_SIZE_OFFSET, BLOB_SIZE_OFFSET + 8))
    }

    /// Record a payload length of `size` bytes: the metadata size and the
    /// stored size field both become `size + BLOB_HEADER_SIZE`.
    pub fn set_size(&mut self, size: usize)
        requires
            old(self).wf(),
            size <= BLOB_DATA_SIZE,
        ensures
            final(self).wf(),
            final(self).meta.size == size + BLOB_HEADER_SIZE,
            final(self).meta.addr == old(self).meta.addr,
            final(self).meta.port == old(self).meta.port,
            final(self).meta.v6 == old(self).meta.v6,
            final(self).data@ == overwrite(
                old(self).data@,
                BLOB_SIZE_OFFSET as int,
                spec_u64_to_le_bytes((size + BLOB_HEADER_SIZE) as u64),
            ),
            final(self).stored_size() == size + BLOB_HEADER_SIZE,
    {
        proof {
            vstd::bytes::lemma_auto_spec_u64_to_from_le_bytes();
        }
        let total = size + BLOB_HEADER_SIZE;
        self.meta = Meta {
            size: total,
            addr: self.meta.addr,
            port: self.meta.port,
            v6: self.meta.v6,
        };
        let bytes = u64_to_le_bytes(total as u64);
        write_bytes_at(&mut self.data, BLOB_SIZE_OFFSET, &bytes);
        proof {
            lemma_overwrite(
                old(self).data@,
                BLOB_SIZE_OFFSET as int,
                spec_u64_to_le_bytes(total as u64),
            );
            assert(self.data@.subrange(BLOB_SIZE_OFFSET as int, BLOB_SIZE_OFFSET + 8)
                =~= spec_u64_to_le_bytes(total as u64));
        }
    }

    /// Mark the blob as a parity record.
    pub fn set_coding(&mut self)
        requires
            old(self).wf(),
        ensures
            final(self).wf(),
            final(self).data@ == old(self).data@.update(BLOB_FLAGS_OFFSET as int, 1u8),
            final(self).meta == old(self).meta,
            final(self).is_coding(),
    {
        self.data[BLOB_FLAGS_OFFSET] = 1u8;
    }

    /// Mark the blob as a data record.
    pub fn clear_coding(&mut self)
        requires
            old(self).wf(),
        ensures
            final(self).wf(),
            final(self).data@ == old(self).data@.update(BLOB_FLAGS_OFFSET as int, 0u8),
            final(self).meta == old(self).meta,
            !final(self).is_coding(),
    {
        self.data[BLOB_FLAGS_OFFSET] = 0u8;
    }
}

/// Hands out fresh zeroed blobs; reclamation is by ordinary ownership.
pub struct BlobRecycler {}

impl Default for BlobRecycler {
    /// An empty pool handle.
    fn default() -> (r: Self)
        ensures
            true,
    {
        BlobRecycler {  }
    }
}

impl BlobRecycler {
    /// A fresh zero-initialised blob: all bytes zero, no payload recorded,
    /// no source.
    pub fn allocate(&self) -> (b: Blob)
        ensures
            b.wf(),
            b.data@ == Seq::new(BLOB_SIZE as nat, |i: int| 0u8),
            b.meta.size == 0,
            b.meta.addr == 0,
            b.meta.port == 0,
            !b.meta.v6,
    {
        Blob {
            data: zero_vec(BLOB_SIZE),
            meta: Meta { size: 0, addr: 0, port: 0, v6: false },
        }
    }
}

/// A vector of `n` zero bytes.
pub fn zero_vec(n: usize) -> (v: Vec<u8>)
    ensures
        v@ == Seq::new(n as nat, |i: int| 0u8),
{
    let mut v: Vec<u8> = Vec::new();
    let mut k: usize = 0;
    while k < n
        invariant
            k <= n,
            v@.len() == k,
            forall|i: int| 0 <= i < k ==> v@[i] == 0u8,
        decreases n - k,
    {
        v.push(0u8);
        k = k + 1;
    }
    proof {
        assert(v@ =~= Seq::new(n as nat, |i: int| 0u8));
    }
    v
}

/// The bytes of `src` in positions `[from, to)`.
pub fn copy_bytes_range(src: &Vec<u8>, from: usize, to: usize) -> (r: Vec<u8>)
    requires
        from <= to,
        to <= src@.len(),
    ensures
        r@ == src@.subrange(from as int, to as int),
{
    let mut r: Vec<u8> = Vec::new();
    let mut k: usize = from;
    while k < to
        invariant
            from <= k <= to,
            to <= src@.len(),
            r@.len() == k - from,
            forall|i: int| 0 <= i < r@.len() ==> r@[i] == src@[from + i],
        decreases to - k,
    {
        let b = src[k];
        r.push(b);
        k = k + 1;
    }
    proof {
        assert(r@ =~= src@.subrange(from as int, to as int));
    }
    r
}

/// Write all of `src` into `dst` starting at `at`.
pub fn write_bytes_at(dst: &mut Vec<u8>, at: usize, src: &Vec<u8>)
    requires
        at + src@.len() <= old(dst)@.len(),
    ensures
        final(dst)@ == overwrite(old(dst)@, at as int, src@),
{
    let mut k: usize = 0;
    while k < src.len()
        invariant
            at + src@.len() <= old(dst)@.len(),
            k <= src@.len(),
            dst@.len() == old(dst)@.len(),
            forall|i: int|
                0 <= i < dst@.len() && !(at <= i < at + k) ==> dst@[i] == old(dst)@[i],
            forall|i: int| at <= i < at + k ==> dst@[i] == src@[i - at],
        decreases src@.len() - k,
    {
        proof {
            assert(at + k < dst.len());
        }
        let b = src[k];
        dst[at + k] = b;
        k = k + 1;
    }
    proof {
        lemma_overwrite(old(dst)@, at as int, src@);
        assert(dst@ =~= overwrite(old(dst)@, at as int, src@));
    }
}

} // verus!
