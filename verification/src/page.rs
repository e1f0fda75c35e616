//! Pages and the file header: the fixed-size on-disk units.
//!
//! A page on disk is one kind byte, a four-byte little-endian CRC-32
//! checksum over the padded payload, and the payload itself, padded with
//! zeros so that the whole page is exactly `page_size` bytes.  The file
//! header is 64 bytes: the magic tag `NSQL`, the format version, the page
//! size and the page count, each a little-endian `u32`, padded with zeros.

use vstd::prelude::*;
use vstd::bytes::{spec_u32_to_le_bytes, spec_u32_from_le_bytes, u32_to_le_bytes,
    u32_from_le_bytes, lemma_auto_spec_u32_to_from_le_bytes};
use vstd::slice::{slice_subrange, slice_to_vec};
use crate::error::KeraDBError;
use crate::outside::{crc32, crc32_of};

verus! {

/// The size of the file header in bytes.
pub const HEADER_SIZE: usize = 64;

/// The format version this crate reads and writes.
pub const FORMAT_VERSION: u32 = 1;

/// The number of bytes of a page that are not payload (kind + checksum).
pub const PAGE_OVERHEAD: usize = 5;

/// The kind of a page.
#[derive(Debug, Clone, Copy, PartialEq, Eq, Structural)]
pub enum PageType {
    Meta,
    Data,
    Index,
    Free,
    VectorData,
    VectorIndex,
}

/// The tag byte a page kind is stored as.
pub open spec fn page_type_tag(t: PageType) -> u8 {
    match t {
        PageType::Meta => 0,
        PageType::Data => 1,
        PageType::Index => 2,
        PageType::Free => 3,
        PageType::VectorData => 4,
        PageType::VectorIndex => 5,
    }
}

/// The page kind a tag byte stands for, if any.
pub open spec fn spec_page_type_from(b: u8) -> Option<PageType> {
    if b == 0 {
        Option::Some(PageType::Meta)
    } else if b == 1 {
        Option::Some(PageType::Data)
    } else if b == 2 {
        Option::Some(PageType::Index)
    } else if b == 3 {
        Option::Some(PageType::Free)
    } else if b == 4 {
        Option::Some(PageType::VectorData)
    } else if b == 5 {
        Option::Some(PageType::VectorIndex)
    } else {
        Option::None
    }
}

impl PageType {
    /// The tag byte this kind is stored as.
    pub fn tag(self) -> (r: u8)
        ensures
            r == page_type_tag(self),
    {
        match self {
            PageType::Meta => 0,
            PageType::Data => 1,
            PageType::Index => 2,
            PageType::Free => 3,
            PageType::VectorData => 4,
            PageType::VectorIndex => 5,
        }
    }

    /// Reads a kind from its tag byte; an unknown byte is a format error.
    pub fn from_byte(b: u8) -> (r: Result<PageType, KeraDBError>)
        ensures
            match r {
                Result::Ok(t) => spec_page_type_from(b) == Option::Some(t),
                Result::Err(e) => spec_page_type_from(b) is None && e is InvalidFormat,
            },
            r is Ok <==> b <= 5,
    {
        if b == 0 {
            Result::Ok(PageType::Meta)
        } else if b == 1 {
            Result::Ok(PageType::Data)
        } else if b == 2 {
            Result::Ok(PageType::Index)
        } else if b == 3 {
            Result::Ok(PageType::Free)
        } else if b == 4 {
            Result::Ok(PageType::VectorData)
        } else if b == 5 {
            Result::Ok(PageType::VectorIndex)
        } else {
            Result::Err(KeraDBError::InvalidFormat("invalid page type".to_owned()))
        }
    }
}

/// An in-memory page: its number, kind, the checksum it was written or
/// read with, and its payload.
#[derive(Debug)]
pub struct Page {
    pub page_num: u32,
    pub page_type: PageType,
    pub checksum: u32,
    pub data: Vec<u8>,
}

impl Page {
    /// A page over the given payload, with the checksum freshly computed.
    pub fn new(page_num: u32, page_type: PageType, data: Vec<u8>) -> (r: Page)
        ensures
            r.page_num == page_num,
            r.page_type == page_type,
            r.data@ == data@,
            r.checksum == crc32_of(data@),
    {
        let checksum = crc32(data.as_slice());
        Page { page_num, page_type, checksum, data }
    }

    /// Whether the stored checksum matches the payload.
    pub fn verify_checksum(&self) -> (r: bool)
        ensures
            r == (self.checksum == crc32_of(self.data@)),
    {
        crc32(self.data.as_slice()) == self.checksum
    }

    /// A field-wise copy of this page.
    pub fn clone_page(&self) -> (r: Page)
        ensures
            r.page_num == self.page_num,
            r.page_type == self.page_type,
            r.checksum == self.checksum,
            r.data@ == self.data@,
    {
        Page {
            page_num: self.page_num,
            page_type: self.page_type,
            checksum: self.checksum,
            data: slice_to_vec(self.data.as_slice()),
        }
    }
}

/// The mathematical content of a page.
pub struct PageM {
    pub page_num: u32,
    pub page_type: PageType,
    pub checksum: u32,
    pub data: Seq<u8>,
}

/// The model of a page.
pub open spec fn page_model(p: Page) -> PageM {
    PageM {
        page_num: p.page_num,
        page_type: p.page_type,
        checksum: p.checksum,
        data: p.data@,
    }
}

/// `payload` padded with zeros to length `n` (unchanged when longer).
pub open spec fn pad_payload(payload: Seq<u8>, n: int) -> Seq<u8> {
    if payload.len() >= n {
        payload
    } else {
        payload + Seq::new((n - payload.len()) as nat, |i: int| 0u8)
    }
}

/// The raw bytes of a page with the given kind and (padded) payload:
/// the tag, the little-endian checksum over the payload, the payload.
pub open spec fn spec_page_bytes(t: PageType, payload: Seq<u8>) -> Seq<u8> {
    seq![page_type_tag(t)] + spec_u32_to_le_bytes(crc32_of(payload)) + payload
}

/// Encodes a page into its `page_size` raw bytes, recomputing the
/// checksum over the zero-padded payload.
pub fn encode_page(t: PageType, payload: &Vec<u8>, page_size: usize) -> (r: Vec<u8>)
    requires
        PAGE_OVERHEAD <= page_size,
        payload@.len() <= page_size - PAGE_OVERHEAD,
    ensures
        r@ == spec_page_bytes(t, pad_payload(payload@, page_size - PAGE_OVERHEAD as int)),
        r@.len() == page_size,
{
    let cap = page_size - PAGE_OVERHEAD;
    let mut padded = slice_to_vec(payload.as_slice());
    while padded.len() < cap
        invariant
            padded@.len() <= cap,
            padded@ == pad_payload(payload@, padded@.len() as int),
        decreases cap - padded@.len(),
    {
        padded.push(0);
        proof {
            assert(padded@ =~= pad_payload(payload@, padded@.len() as int));
        }
    }
    proof {
        assert(padded@ == pad_payload(payload@, cap as int));
    }
    let checksum = crc32(padded.as_slice());
    let mut out: Vec<u8> = Vec::new();
    out.push(t.tag());
    let crc_bytes = u32_to_le_bytes(checksum);
    out.push(crc_bytes[0]);
    out.push(crc_bytes[1]);
    out.push(crc_bytes[2]);
    out.push(crc_bytes[3]);
    let mut k: usize = 0;
    let n = padded.len();
    while k < n
        invariant
            n == padded@.len(),
            k <= n,
            crc_bytes@.len() == 4,
            out@ == seq![page_type_tag(t)] + crc_bytes@ + padded@.take(k as int),
        decreases n - k,
    {
        out.push(padded[k]);
        proof {
            assert(padded@.take(k as int + 1) =~= padded@.take(k as int) + seq![padded@[
                k as int]]);
            assert(out@ =~= seq![page_type_tag(t)] + crc_bytes@ + padded@.take(
                k as int + 1,
            ));
        }
        k = k + 1;
    }
    proof {
        assert(crc_bytes@ =~= spec_u32_to_le_bytes(crc32_of(padded@)));
        assert(padded@.take(n as int) =~= padded@);
        assert(out@ =~= spec_page_bytes(t, pad_payload(payload@, cap as int)));
    }
    out
}

/// The structure of encoded page bytes, and that they satisfy the
/// integrity check they were written with.
pub proof fn lemma_page_bytes_parts(t: PageType, payload: Seq<u8>)
    ensures
        spec_page_bytes(t, payload).len() == PAGE_OVERHEAD + payload.len(),
        spec_page_bytes(t, payload)[0] == page_type_tag(t),
        spec_page_bytes(t, payload).subrange(1, 5) == spec_u32_to_le_bytes(
            crc32_of(payload),
        ),
        spec_page_bytes(t, payload).skip(PAGE_OVERHEAD as int) == payload,
        page_bytes_ok(spec_page_bytes(t, payload)),
        spec_page_type_from(spec_page_bytes(t, payload)[0]) == Option::Some(t),
{
    let b = spec_page_bytes(t, payload);
    lemma_auto_spec_u32_to_from_le_bytes();
    assert(b.subrange(1, 5) =~= spec_u32_to_le_bytes(crc32_of(payload)));
    assert(b.skip(PAGE_OVERHEAD as int) =~= payload);
}

/// Whether raw page bytes carry a valid kind tag and a checksum that
/// matches their payload.
pub open spec fn page_bytes_ok(bytes: Seq<u8>) -> bool {
    &&& bytes.len() >= PAGE_OVERHEAD
    &&& spec_page_type_from(bytes[0]) is Some
    &&& spec_u32_from_le_bytes(bytes.subrange(1, 5)) == crc32_of(
        bytes.skip(PAGE_OVERHEAD as int),
    )
}

/// Decodes raw page bytes, verifying the kind tag and the checksum.
/// An unknown tag is a format error; a checksum that does not match the
/// payload is reported as corruption.
pub fn decode_page(bytes: &[u8], page_num: u32) -> (r: Result<Page, KeraDBError>)
    requires
        bytes@.len() >= PAGE_OVERHEAD,
    ensures
        match r {
            Result::Ok(p) => {
                &&& page_bytes_ok(bytes@)
                &&& p.page_num == page_num
                &&& Option::Some(p.page_type) == spec_page_type_from(bytes@[0])
                &&& p.data@ == bytes@.skip(PAGE_OVERHEAD as int)
                &&& p.checksum == crc32_of(p.data@)
            },
            Result::Err(e) => {
                &&& !page_bytes_ok(bytes@)
                &&& (e is ChecksumMismatch <==> spec_page_type_from(bytes@[0]) is Some)
                &&& (e is ChecksumMismatch || e is InvalidFormat)
            },
        },
{
    let tag = bytes[0];
    let page_type = match PageType::from_byte(tag) {
        Result::Ok(t) => t,
        Result::Err(e) => {
            return Result::Err(e);
        },
    };
    let crc_slice = slice_subrange(bytes, 1, 5);
    let stored = u32_from_le_bytes(crc_slice);
    let payload = slice_to_vec(slice_subrange(bytes, PAGE_OVERHEAD, bytes.len()));
    let computed = crc32(payload.as_slice());
    if stored != computed {
        return Result::Err(KeraDBError::ChecksumMismatch);
    }
    Result::Ok(Page { page_num, page_type, checksum: stored, data: payload })
}

/// The 64 header bytes for a file with the given page size and count.
pub open spec fn spec_header_bytes(page_size: u32, page_count: u32) -> Seq<u8> {
    seq![78u8, 83u8, 81u8, 76u8] + spec_u32_to_le_bytes(FORMAT_VERSION)
        + spec_u32_to_le_bytes(page_size) + spec_u32_to_le_bytes(page_count) + Seq::new(
        48,
        |i: int| 0u8,
    )
}

/// Encodes the file header.
pub fn encode_header(page_size: u32, page_count: u32) -> (r: Vec<u8>)
    ensures
        r@ == spec_header_bytes(page_size, page_count),
        r@.len() == HEADER_SIZE,
{
    let mut out: Vec<u8> = Vec::new();
    out.push(78);
    out.push(83);
    out.push(81);
    out.push(76);
    let v = u32_to_le_bytes(FORMAT_VERSION);
    out.push(v[0]);
    out.push(v[1]);
    out.push(v[2]);
    out.push(v[3]);
    let ps = u32_to_le_bytes(page_size);
    out.push(ps[0]);
    out.push(ps[1]);
    out.push(ps[2]);
    out.push(ps[3]);
    let pc = u32_to_le_bytes(page_count);
    out.push(pc[0]);
    out.push(pc[1]);
    out.push(pc[2]);
    out.push(pc[3]);
    let mut k: usize = 0;
    while k < 48
        invariant
            k <= 48,
            out@.len() == 16 + k,
            out@ == (seq![78u8, 83u8, 81u8, 76u8] + spec_u32_to_le_bytes(FORMAT_VERSION)
                + spec_u32_to_le_bytes(page_size) + spec_u32_to_le_bytes(page_count)).add(
                Seq::new(k as nat, |i: int| 0u8),
            ),
        decreases 48 - k,
    {
        out.push(0);
        proof {
            assert(out@ =~= (seq![78u8, 83u8, 81u8, 76u8] + spec_u32_to_le_bytes(
                FORMAT_VERSION,
            ) + spec_u32_to_le_bytes(page_size) + spec_u32_to_le_bytes(page_count)).add(
                Seq::new(k as nat + 1, |i: int| 0u8),
            ));
        }
        k = k + 1;
    }
    proof {
        lemma_auto_spec_u32_to_from_le_bytes();
        assert(out@ =~= spec_header_bytes(page_size, page_count));
    }
    out
}

/// The structure of encoded header bytes: they validate, and they
/// declare the page size and count they were built from.
pub proof fn lemma_header_parts(page_size: u32, page_count: u32)
    ensures
        spec_header_bytes(page_size, page_count).len() == HEADER_SIZE,
        header_ok(spec_header_bytes(page_size, page_count)),
        header_page_size(spec_header_bytes(page_size, page_count)) == page_size,
        header_page_count(spec_header_bytes(page_size, page_count)) == page_count,
{
    let b = spec_header_bytes(page_size, page_count);
    lemma_auto_spec_u32_to_from_le_bytes();
    assert(b.subrange(0, 4) =~= seq![78u8, 83u8, 81u8, 76u8]);
    assert(b.subrange(4, 8) =~= spec_u32_to_le_bytes(FORMAT_VERSION));
    assert(b.subrange(8, 12) =~= spec_u32_to_le_bytes(page_size));
    assert(b.subrange(12, 16) =~= spec_u32_to_le_bytes(page_count));
}

/// Whether file bytes begin with a well-formed header: long enough, the
/// right magic, the right version.
pub open spec fn header_ok(bytes: Seq<u8>) -> bool {
    &&& bytes.len() >= HEADER_SIZE
    &&& bytes.subrange(0, 4) == seq![78u8, 83u8, 81u8, 76u8]
    &&& spec_u32_from_le_bytes(bytes.subrange(4, 8)) == FORMAT_VERSION
}

/// Whether file bytes are long enough for a header and carry the right
/// magic tag, whatever their version field holds.
pub open spec fn header_magic_ok(bytes: Seq<u8>) -> bool {
    &&& bytes.len() >= HEADER_SIZE
    &&& bytes.subrange(0, 4) == seq![78u8, 83u8, 81u8, 76u8]
}

/// The format version a header declares.
pub open spec fn header_version(bytes: Seq<u8>) -> u32 {
    spec_u32_from_le_bytes(bytes.subrange(4, 8))
}

/// The page size a header declares.
pub open spec fn header_page_size(bytes: Seq<u8>) -> u32 {
    spec_u32_from_le_bytes(bytes.subrange(8, 12))
}

/// The page count a header declares.
pub open spec fn header_page_count(bytes: Seq<u8>) -> u32 {
    spec_u32_from_le_bytes(bytes.subrange(12, 16))
}

/// Decodes the file header: the magic tag must match and the version
/// must be the one this crate writes.  Returns the declared page size
/// and page count.  A short or mistagged image is a format error; the
/// right magic with another version is a version mismatch carrying the
/// expected and the actual version.
pub fn decode_header(bytes: &[u8]) -> (r: Result<(u32, u32), KeraDBError>)
    ensures
        match r {
            Result::Ok(p) => {
                &&& header_ok(bytes@)
                &&& p.0 == header_page_size(bytes@)
                &&& p.1 == header_page_count(bytes@)
            },
            Result::Err(e) => {
                &&& !header_ok(bytes@)
                &&& (!header_magic_ok(bytes@) ==> e is InvalidFormat)
                &&& (header_magic_ok(bytes@) ==> (e
                    matches KeraDBError::VersionMismatch {
                    expected,
                    actual,
                } && expected == FORMAT_VERSION && actual == header_version(bytes@)))
            },
        },
{
    if bytes.len() < HEADER_SIZE {
        proof {
            assert(!header_ok(bytes@));
        }
        return Result::Err(KeraDBError::InvalidFormat("file too short".to_owned()));
    }
    if !(bytes[0] == 78 && bytes[1] == 83 && bytes[2] == 81 && bytes[3] == 76) {
        proof {
            assert(bytes@.subrange(0, 4)[0] == bytes@[0]);
            assert(bytes@.subrange(0, 4)[1] == bytes@[1]);
            assert(bytes@.subrange(0, 4)[2] == bytes@[2]);
            assert(bytes@.subrange(0, 4)[3] == bytes@[3]);
            assert(!header_ok(bytes@));
            assert(!header_magic_ok(bytes@));
        }
        return Result::Err(KeraDBError::InvalidFormat("invalid magic bytes".to_owned()));
    }
    proof {
        assert(bytes@.subrange(0, 4) =~= seq![78u8, 83u8, 81u8, 76u8]);
    }
    let version = u32_from_le_bytes(slice_subrange(bytes, 4, 8));
    if version != FORMAT_VERSION {
        return Result::Err(
            KeraDBError::VersionMismatch { expected: FORMAT_VERSION, actual: version },
        );
    }
    let page_size = u32_from_le_bytes(slice_subrange(bytes, 8, 12));
    let page_count = u32_from_le_bytes(slice_subrange(bytes, 12, 16));
    Result::Ok((page_size, page_count))
}

} // verus!
