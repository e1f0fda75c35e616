//! The pager: the in-memory image of the paged file.
//!
//! The pager owns the raw bytes of every page, exactly as they stand in
//! the file: reading a page decodes and checks them, writing a page
//! encodes with a fresh checksum.  The embedding application persists
//! the image with [`Pager::to_file_bytes`] and reopens it with
//! [`Pager::from_file_bytes`]; what it writes to disk is byte-for-byte
//! what this structure holds.

use vstd::prelude::*;
use crate::error::KeraDBError;
use crate::page::{Page, PageType, PAGE_OVERHEAD, HEADER_SIZE, page_type_tag,
    spec_page_type_from, page_bytes_ok, spec_page_bytes, pad_payload, encode_page,
    decode_page, spec_header_bytes, header_ok, header_page_size, header_page_count,
    encode_header, decode_header};

verus! {

/// Manages the raw pages of one database file.
pub struct Pager {
    page_size: usize,
    pages: Vec<Vec<u8>>,
}

/// An all-zero page payload region of a freshly extended file.
pub open spec fn zero_page(page_size: int) -> Seq<u8> {
    Seq::new(page_size as nat, |i: int| 0u8)
}

/// The bytes of each page, in order.
pub closed spec fn pager_raw(p: Pager) -> Seq<Seq<u8>> {
    Seq::new(p.pages@.len(), |i: int| p.pages@[i]@)
}

impl Pager {
    /// The page size in bytes.
    pub closed spec fn spec_page_size(self) -> int {
        self.page_size as int
    }

    /// Structural soundness: a usable page size, a page count that fits
    /// the header field, and every raw page of exactly one page size.
    pub closed spec fn wf(self) -> bool {
        &&& PAGE_OVERHEAD <= self.page_size <= u32::MAX
        &&& self.pages@.len() <= u32::MAX
        &&& forall|i: int|
            0 <= i < self.pages@.len() ==> (#[trigger] self.pages@[i])@.len()
                == self.page_size
    }

    /// A new, empty paged file image.
    pub fn create(page_size: usize) -> (r: Pager)
        requires
            PAGE_OVERHEAD <= page_size <= u32::MAX,
        ensures
            r.wf(),
            r.spec_page_size() == page_size,
            pager_raw(r).len() == 0,
    {
        Pager { page_size, pages: Vec::new() }
    }

    /// The number of pages.
    pub fn page_count(&self) -> (r: u32)
        requires
            self.wf(),
        ensures
            r == pager_raw(*self).len(),
    {
        self.pages.len() as u32
    }

    /// The page size in bytes.
    pub fn page_size(&self) -> (r: usize)
        requires
            self.wf(),
        ensures
            r == self.spec_page_size(),
    {
        self.page_size
    }

    /// Reads and decodes page `page_num`.  Fails when the page does not
    /// exist, carries an unknown kind tag, or fails its checksum.
    pub fn read_page(&self, page_num: u32) -> (r: Result<Page, KeraDBError>)
        requires
            self.wf(),
        ensures
            match r {
                Result::Ok(p) => {
                    &&& page_num < pager_raw(*self).len()
                    &&& page_bytes_ok(pager_raw(*self)[page_num as int])
                    &&& p.page_num == page_num
                    &&& Option::Some(p.page_type) == spec_page_type_from(
                        pager_raw(*self)[page_num as int][0],
                    )
                    &&& p.data@ == pager_raw(*self)[page_num as int].skip(
                        PAGE_OVERHEAD as int,
                    )
                    &&& p.checksum == crate::outside::crc32_of(p.data@)
                },
                Result::Err(e) => {
                    &&& (page_num < pager_raw(*self).len() ==> !page_bytes_ok(
                        pager_raw(*self)[page_num as int],
                    ))
                    &&& (page_num >= pager_raw(*self).len() <==> e is StorageError)
                    &&& (page_num < pager_raw(*self).len() ==> (e is ChecksumMismatch
                        <==> spec_page_type_from(
                        pager_raw(*self)[page_num as int][0],
                    ) is Some))
                    &&& (page_num < pager_raw(*self).len() ==> (e is ChecksumMismatch
                        || e is InvalidFormat))
                },
            },
    {
        if (page_num as usize) >= self.pages.len() {
            return Result::Err(KeraDBError::StorageError("page does not exist".to_owned()));
        }
        let bytes = &self.pages[page_num as usize];
        match decode_page(bytes.as_slice(), page_num) {
            Result::Ok(p) => Result::Ok(p),
            Result::Err(e) => {
                proof {
                    assert(!(e is StorageError));
                }
                Result::Err(e)
            },
        }
    }

    /// The raw pages after writing `page` at `n`: the file zero-extended
    /// so that page `n` exists, and page `n` replaced by the encoding of
    /// the given kind and payload.
    pub open spec fn write_spec(raw: Seq<Seq<u8>>, page_size: int, n: int, t: PageType,
        payload: Seq<u8>) -> Seq<Seq<u8>> {
        let grown = if n < raw.len() {
            raw
        } else {
            raw + Seq::new((n + 1 - raw.len()) as nat, |i: int| zero_page(page_size))
        };
        grown.update(n, spec_page_bytes(t, pad_payload(payload, page_size - PAGE_OVERHEAD)))
    }

    /// Writes a page: pads the payload, recomputes the checksum, stores
    /// the raw bytes, growing the file if the page is new.  Fails only
    /// when the payload exceeds the page's capacity.
    pub fn write_page(&mut self, page: &Page) -> (r: Result<(), KeraDBError>)
        requires
            old(self).wf(),
            page.page_num < u32::MAX,
        ensures
            final(self).wf(),
            final(self).spec_page_size() == old(self).spec_page_size(),
            match r {
                Result::Ok(()) => {
                    &&& page.data@.len() <= old(self).spec_page_size() - PAGE_OVERHEAD
                    &&& pager_raw(*final(self)) == Pager::write_spec(
                        pager_raw(*old(self)),
                        old(self).spec_page_size(),
                        page.page_num as int,
                        page.page_type,
                        page.data@,
                    )
                },
                Result::Err(e) => {
                    &&& page.data@.len() > old(self).spec_page_size() - PAGE_OVERHEAD
                    &&& e is StorageError
                    &&& *final(self) == *old(self)
                },
            },
    {
        if page.data.len() > self.page_size - PAGE_OVERHEAD {
            return Result::Err(KeraDBError::StorageError("page data exceeds page size".to_owned()));
        }
        let n = page.page_num as usize;
        let ghost old_raw = pager_raw(*self);
        let ghost ps = self.page_size as int;
        if self.pages.len() <= n {
            while self.pages.len() <= n
                invariant
                    PAGE_OVERHEAD <= self.page_size <= u32::MAX,
                    self.page_size == old(self).page_size,
                    n < u32::MAX,
                    ps == self.page_size as int,
                    old_raw.len() <= self.pages@.len() <= n + 1,
                    forall|i: int|
                        0 <= i < self.pages@.len() ==> (#[trigger] self.pages@[i])@.len()
                            == self.page_size,
                    pager_raw(*self) =~= old_raw + Seq::new(
                        (self.pages@.len() - old_raw.len()) as nat,
                        |i: int| zero_page(ps),
                    ),
                decreases n + 1 - self.pages@.len(),
            {
                let mut z: Vec<u8> = Vec::new();
                let mut k: usize = 0;
                while k < self.page_size
                    invariant
                        k <= self.page_size,
                        ps == self.page_size as int,
                        z@.len() == k,
                        z@ =~= Seq::new(k as nat, |i: int| 0u8),
                    decreases self.page_size - k,
                {
                    z.push(0);
                    proof {
                        assert(z@ =~= Seq::new(k as nat + 1, |i: int| 0u8));
                    }
                    k = k + 1;
                }
                proof {
                    assert(z@ =~= zero_page(ps));
                }
                let ghost pre_raw = pager_raw(*self);
                self.pages.push(z);
                proof {
                    assert(pager_raw(*self) =~= pre_raw.push(zero_page(ps)));
                    assert(pre_raw.push(zero_page(ps)) =~= old_raw + Seq::new(
                        (self.pages@.len() - old_raw.len()) as nat,
                        |i: int| zero_page(ps),
                    ));
                }
            }
        }
        let encoded = encode_page(page.page_type, &page.data, self.page_size);
        self.pages.set(n, encoded);
        proof {
            assert(pager_raw(*self) =~= Pager::write_spec(
                old_raw,
                ps,
                n as int,
                page.page_type,
                page.data@,
            ));
        }
        Result::Ok(())
    }

    /// Appends a fresh zeroed page of the given kind, returning its
    /// number.  Fails only when the page count no longer fits its
    /// header field.
    pub fn allocate_page(&mut self, page_type: PageType) -> (r: Result<u32, KeraDBError>)
        requires
            old(self).wf(),
        ensures
            final(self).wf(),
            final(self).spec_page_size() == old(self).spec_page_size(),
            r is Ok <==> pager_raw(*old(self)).len() < u32::MAX,
            match r {
                Result::Ok(n) => {
                    &&& n == pager_raw(*old(self)).len()
                    &&& pager_raw(*final(self)) == pager_raw(*old(self)).push(
                        spec_page_bytes(
                            page_type,
                            pad_payload(
                                Seq::empty(),
                                old(self).spec_page_size() - PAGE_OVERHEAD,
                            ),
                        ),
                    )
                },
                Result::Err(e) => e is StorageError && *final(self) == *old(self),
            },
    {
        if self.pages.len() >= u32::MAX as usize {
            return Result::Err(KeraDBError::StorageError("page count exhausted".to_owned()));
        }
        let n = self.pages.len() as u32;
        let empty: Vec<u8> = Vec::new();
        let encoded = encode_page(page_type, &empty, self.page_size);
        self.pages.push(encoded);
        proof {
            assert(pager_raw(*self) =~= pager_raw(*old(self)).push(
                spec_page_bytes(
                    page_type,
                    pad_payload(Seq::empty(), old(self).spec_page_size() - PAGE_OVERHEAD),
                ),
            ));
        }
        Result::Ok(n)
    }
}

/// The concatenation of the first `k` raw pages.
pub open spec fn concat_pages(raw: Seq<Seq<u8>>, k: int) -> Seq<u8>
    decreases k,
{
    if k <= 0 {
        Seq::empty()
    } else {
        concat_pages(raw, k - 1) + raw[k - 1]
    }
}

/// The whole file image: the header followed by every page's bytes.
pub open spec fn spec_file_bytes(p: Pager) -> Seq<u8> {
    spec_header_bytes(p.spec_page_size() as u32, pager_raw(p).len() as u32) + concat_pages(
        pager_raw(p),
        pager_raw(p).len() as int,
    )
}

/// The byte a file image holds at offset `t`, taking absent bytes of a
/// truncated image as zero.
pub open spec fn file_byte_or_zero(bytes: Seq<u8>, t: int) -> u8 {
    if 0 <= t < bytes.len() {
        bytes[t]
    } else {
        0
    }
}

/// The raw bytes of the `n`-th page as declared by a file image: one
/// page size worth of bytes at its offset, missing bytes read as zero.
pub open spec fn chunk_at(bytes: Seq<u8>, page_size: int, n: int) -> Seq<u8> {
    Seq::new(
        page_size as nat,
        |t: int| file_byte_or_zero(bytes, HEADER_SIZE + n * page_size + t),
    )
}

proof fn lemma_concat_len(raw: Seq<Seq<u8>>, page_size: int, k: int)
    requires
        0 <= k <= raw.len(),
        forall|i: int| 0 <= i < raw.len() ==> (#[trigger] raw[i]).len() == page_size,
        page_size >= 0,
    ensures
        concat_pages(raw, k).len() == k * page_size,
    decreases k,
{
    if k > 0 {
        lemma_concat_len(raw, page_size, k - 1);
        vstd::arithmetic::mul::lemma_mul_is_distributive_sub_other_way(page_size, k, 1);
        assert(raw[k - 1].len() == page_size);
        assert((k - 1) * page_size == k * page_size - 1 * page_size);
        assert(concat_pages(raw, k).len() == (k - 1) * page_size + page_size);
    } else {
        assert(k * page_size == 0) by (nonlinear_arith)
            requires
                k == 0,
        ;
    }
}

/// Where each page's bytes sit inside the concatenation.
proof fn lemma_concat_index(raw: Seq<Seq<u8>>, page_size: int, k: int, n: int, t: int)
    requires
        0 <= k <= raw.len(),
        forall|i: int| 0 <= i < raw.len() ==> (#[trigger] raw[i]).len() == page_size,
        page_size >= 0,
        0 <= n < k,
        0 <= t < page_size,
    ensures
        concat_pages(raw, k)[n * page_size + t] == raw[n][t],
    decreases k,
{
    lemma_concat_len(raw, page_size, k);
    lemma_concat_len(raw, page_size, k - 1);
    vstd::arithmetic::mul::lemma_mul_is_distributive_sub_other_way(page_size, k, 1);
    if n < k - 1 {
        lemma_concat_index(raw, page_size, k - 1, n, t);
        assert(n * page_size + t < (k - 1) * page_size) by (nonlinear_arith)
            requires
                0 <= n < k - 1,
                0 <= t < page_size,
        ;
        assert(concat_pages(raw, k)[n * page_size + t] == concat_pages(raw, k - 1)[n
            * page_size + t]);
    } else {
        assert(n == k - 1);
        assert(concat_pages(raw, k)[(k - 1) * page_size + t] == raw[k - 1][t]);
    }
}

/// The file image of a well-formed pager reads back to the same pages:
/// the header validates and declares the page size and count, and every
/// page's chunk of the image is exactly its raw bytes.
pub proof fn lemma_file_bytes_round_trip(p: Pager)
    requires
        p.wf(),
    ensures
        header_ok(spec_file_bytes(p)),
        header_page_size(spec_file_bytes(p)) == p.spec_page_size(),
        header_page_count(spec_file_bytes(p)) == pager_raw(p).len(),
        forall|n: int|
            0 <= n < pager_raw(p).len() ==> #[trigger] chunk_at(
                spec_file_bytes(p),
                p.spec_page_size(),
                n,
            ) == pager_raw(p)[n],
{
    let raw = pager_raw(p);
    let ps = p.spec_page_size();
    let count = raw.len() as int;
    let head = spec_header_bytes(ps as u32, count as u32);
    let body = concat_pages(raw, count);
    let bytes = spec_file_bytes(p);
    crate::page::lemma_header_parts(ps as u32, count as u32);
    lemma_concat_len(raw, ps, count);
    assert(bytes.len() == HEADER_SIZE + count * ps);
    assert forall|t: int| 0 <= t < HEADER_SIZE implies bytes[t] == head[t] by {}
    assert(header_ok(bytes)) by {
        assert(bytes.subrange(0, 4) =~= head.subrange(0, 4));
        assert(bytes.subrange(4, 8) =~= head.subrange(4, 8));
        assert(head.subrange(0, 4) =~= seq![78u8, 83u8, 81u8, 76u8]);
    }
    assert(header_page_size(bytes) == ps) by {
        assert(bytes.subrange(8, 12) =~= head.subrange(8, 12));
    }
    assert(header_page_count(bytes) == count) by {
        assert(bytes.subrange(12, 16) =~= head.subrange(12, 16));
    }
    assert forall|n: int| 0 <= n < count implies #[trigger] chunk_at(bytes, ps, n)
        == raw[n] by {
        assert forall|t: int| 0 <= t < ps implies chunk_at(bytes, ps, n)[t]
            == raw[n][t] by {
            lemma_concat_index(raw, ps, count, n, t);
            assert(0 <= n * ps + t < count * ps) by (nonlinear_arith)
                requires
                    0 <= n < count,
                    0 <= t < ps,
                    ps >= 0,
            ;
            assert(bytes[HEADER_SIZE + n * ps + t] == body[n * ps + t]);
            assert(file_byte_or_zero(bytes, HEADER_SIZE + n * ps + t) == raw[n][t]);
        }
        assert(chunk_at(bytes, ps, n) =~= raw[n]);
    }
}

impl Pager {
    /// The numeric bounds well-formedness guarantees.
    pub proof fn lemma_wf_bounds(self)
        requires
            self.wf(),
        ensures
            PAGE_OVERHEAD <= self.spec_page_size() <= u32::MAX,
            pager_raw(self).len() <= u32::MAX,
    {
    }

    /// Renders the whole file image.
    pub fn to_file_bytes(&self) -> (r: Vec<u8>)
        requires
            self.wf(),
        ensures
            r@ == spec_file_bytes(*self),
    {
        let mut out = encode_header(self.page_size as u32, self.pages.len() as u32);
        let ghost head = out@;
        let ghost raw = pager_raw(*self);
        let n = self.pages.len();
        let mut k: usize = 0;
        while k < n
            invariant
                self.wf(),
                raw == pager_raw(*self),
                n == self.pages@.len(),
                k <= n,
                out@ == head + concat_pages(raw, k as int),
            decreases n - k,
        {
            let page = &self.pages[k];
            let m = page.len();
            let ghost mid = out@;
            let mut t: usize = 0;
            while t < m
                invariant
                    t <= m,
                    m == page@.len(),
                    out@ == mid + page@.take(t as int),
                decreases m - t,
            {
                out.push(page[t]);
                proof {
                    assert(out@ =~= mid + page@.take(t as int + 1));
                }
                t = t + 1;
            }
            proof {
                assert(page@.take(m as int) =~= page@);
                assert(raw[k as int] == page@);
                assert(out@ =~= head + concat_pages(raw, k as int + 1));
            }
            k = k + 1;
        }
        out
    }

    /// Reads a whole file image.  Fails exactly when the header is bad:
    /// too short, wrong magic, wrong version, or a page size too small
    /// to hold a page's kind byte and checksum.  A short or mistagged
    /// image is a format error; the right magic with another version is
    /// a version mismatch carrying the expected and the actual version.
    /// Bytes past the end of a truncated image are taken as zero; every
    /// checksum is still verified on each later read.
    pub fn from_file_bytes(bytes: &[u8]) -> (r: Result<Pager, KeraDBError>)
        ensures
            r is Ok <==> (header_ok(bytes@) && header_page_size(bytes@) >= PAGE_OVERHEAD),
            match r {
                Result::Ok(p) => {
                    &&& p.wf()
                    &&& p.spec_page_size() == header_page_size(bytes@)
                    &&& pager_raw(p).len() == header_page_count(bytes@)
                    &&& forall|i: int|
                        0 <= i < pager_raw(p).len() ==> #[trigger] pager_raw(p)[i]
                            == chunk_at(bytes@, header_page_size(bytes@) as int, i)
                },
                Result::Err(e) => {
                    &&& (!crate::page::header_magic_ok(bytes@) ==> e is InvalidFormat)
                    &&& (crate::page::header_magic_ok(bytes@) && !header_ok(bytes@)
                        ==> (e matches KeraDBError::VersionMismatch { expected, actual }
                        && expected == crate::page::FORMAT_VERSION && actual
                        == crate::page::header_version(bytes@)))
                    &&& (header_ok(bytes@) ==> e is InvalidFormat && header_page_size(
                        bytes@,
                    ) < PAGE_OVERHEAD)
                },
            },
    {
        let (ps32, count) = match decode_header(bytes) {
            Result::Ok(p) => p,
            Result::Err(e) => {
                return Result::Err(e);
            },
        };
        if ps32 < PAGE_OVERHEAD as u32 {
            return Result::Err(KeraDBError::InvalidFormat("invalid page size".to_owned()));
        }
        let ps = ps32 as usize;
        let len = bytes.len();
        let mut pages: Vec<Vec<u8>> = Vec::new();
        let mut n: usize = 0;
        while n < count as usize
            invariant
                PAGE_OVERHEAD <= ps <= u32::MAX,
                ps == header_page_size(bytes@),
                count == header_page_count(bytes@),
                len == bytes@.len(),
                n <= count as usize,
                pages@.len() == n,
                forall|i: int|
                    0 <= i < n ==> (#[trigger] pages@[i])@ == chunk_at(bytes@, ps as int, i),
                forall|i: int|
                    0 <= i < n ==> (#[trigger] pages@[i])@.len() == ps,
            decreases count - n,
        {
            proof {
                vstd::arithmetic::mul::lemma_mul_upper_bound(
                    n as int,
                    0xffff_ffff,
                    ps as int,
                    0xffff_ffff,
                );
            }
            let start128: u128 = (HEADER_SIZE as u128) + (n as u128) * (ps as u128);
            let mut page: Vec<u8> = Vec::new();
            let mut t: usize = 0;
            while t < ps
                invariant
                    PAGE_OVERHEAD <= ps <= u32::MAX,
                    len == bytes@.len(),
                    t <= ps,
                    start128 == HEADER_SIZE + (n as int) * (ps as int),
                    start128 <= 0x1_0000_0000_0000_0040u128,
                    page@.len() == t,
                    forall|q: int|
                        0 <= q < t ==> #[trigger] page@[q] == file_byte_or_zero(
                            bytes@,
                            HEADER_SIZE + (n as int) * (ps as int) + q,
                        ),
                decreases ps - t,
            {
                let idx128: u128 = start128 + (t as u128);
                proof {
                    assert(idx128 == HEADER_SIZE + (n as int) * (ps as int) + (t as int));
                }
                let b: u8 = if idx128 < (len as u128) {
                    bytes[idx128 as usize]
                } else {
                    0
                };
                page.push(b);
                t = t + 1;
            }
            proof {
                assert(page@ =~= chunk_at(bytes@, ps as int, n as int));
            }
            pages.push(page);
            n = n + 1;
        }
        let p = Pager { page_size: ps, pages };
        proof {
            assert forall|i: int| 0 <= i < pager_raw(p).len() implies #[trigger] pager_raw(
                p,
            )[i] == chunk_at(bytes@, header_page_size(bytes@) as int, i) by {
                assert(pager_raw(p)[i] == p.pages@[i]@);
            }
        }
        Result::Ok(p)
    }
}

} // verus!
