//! The orchestrator's pure decisions and byte work: whether a byte-range
//! write fits the blob, needs a resize, or is out of range; whether a read
//! fits; patching written bytes into a page-aligned buffer; and splitting a
//! large payload into per-round-trip chunks.  The remote calls themselves
//! happen outside; everything decided here is verified.

use vstd::prelude::*;

use crate::BLOB_PAGE_SIZE;
use crate::bytes::copy_range;
use crate::page_math::calc_pages_amount_to_ressize;
use crate::page_math::spec_pages_amount_by_size;

verus! {

/// What a byte-range write needs before it can be sent.
#[derive(Clone, Copy, Debug, PartialEq, Eq, Structural)]
pub enum WritePlan {
    /// The range lies within the blob's current capacity.
    Fits,
    /// The blob must first be resized to this many pages.
    NeedsResize(usize),
    /// The range exceeds capacity and no resize rate was supplied: the
    /// write is rejected without any remote call.
    OutOfRange,
}

/// Decides a write of `payload_len` bytes at `start_pos` against a blob of
/// `blob_pages` pages: within capacity it fits; beyond capacity it needs a
/// resize to the smallest multiple of `rate` pages covering its end when an
/// auto-resize rate was supplied, and is out of range otherwise.
pub fn plan_write(
    blob_pages: usize,
    page_size: usize,
    start_pos: usize,
    payload_len: usize,
    auto_ressize_rate: Option<usize>,
) -> (r: WritePlan)
    requires
        page_size >= 1,
        payload_len >= 1,
        start_pos + payload_len <= usize::MAX,
        blob_pages * page_size <= usize::MAX,
        auto_ressize_rate matches Some(rate) ==> rate >= 1 && page_size * rate <= usize::MAX
            && spec_pages_amount_by_size(
            start_pos + payload_len,
            page_size * rate,
        ) * rate <= usize::MAX,
    ensures
        r is Fits <==> start_pos + payload_len <= blob_pages * page_size,
        start_pos + payload_len > blob_pages * page_size ==> (auto_ressize_rate matches Some(
            rate,
        ) ==> r == WritePlan::NeedsResize(
            (spec_pages_amount_by_size(start_pos + payload_len, page_size * rate)
                * rate) as usize,
        )),
        r is OutOfRange <==> (start_pos + payload_len > blob_pages * page_size
            && auto_ressize_rate is None),
{
    let end_pos = start_pos + payload_len;
    if end_pos <= blob_pages * page_size {
        return WritePlan::Fits;
    }
    match auto_ressize_rate {
        Some(rate) => {
            let pages = calc_pages_amount_to_ressize(end_pos, page_size, rate);
            WritePlan::NeedsResize(pages)
        },
        None => WritePlan::OutOfRange,
    }
}

/// The page count a blob created on demand must have so that a page-
/// aligned write of `payload_len` bytes at page `start_page_no` lands
/// within it.
pub fn pages_amount_to_cover_write(start_page_no: usize, payload_len: usize) -> (r: usize)
    requires
        start_page_no + payload_len as int / BLOB_PAGE_SIZE as int <= usize::MAX,
    ensures
        r == start_page_no + payload_len as int / BLOB_PAGE_SIZE as int,
{
    start_page_no + payload_len / BLOB_PAGE_SIZE
}

/// Decides a read of `read_size` bytes at `start_pos`: it is served exactly
/// when it ends within the blob's current capacity.
pub fn plan_read(blob_pages: usize, page_size: usize, start_pos: usize, read_size: usize) -> (r:
    bool)
    requires
        page_size >= 1,
        start_pos + read_size <= usize::MAX,
        blob_pages * page_size <= usize::MAX,
    ensures
        r <==> start_pos + read_size <= blob_pages * page_size,
{
    start_pos + read_size <= blob_pages * page_size
}

/// Overwrites `buffer[offset..offset + payload.len()]` with `payload`,
/// leaving every other byte as it was: the written range of a fetched
/// page-aligned buffer, before it is sent back.
pub fn patch_bytes(buffer: &mut Vec<u8>, offset: usize, payload: &[u8])
    requires
        offset + payload.len() <= old(buffer).len(),
    ensures
        final(buffer).len() == old(buffer).len(),
        final(buffer)@.subrange(offset as int, offset + payload.len()) == payload@,
        forall|i: int|
            0 <= i < old(buffer).len() && !(offset <= i < offset + payload.len())
                ==> final(buffer)@[i] == old(buffer)@[i],
{
    let mut i: usize = 0;
    while i < payload.len()
        invariant
            i <= payload.len(),
            offset + payload.len() <= old(buffer).len(),
            buffer.len() == old(buffer).len(),
            forall|t: int| offset <= t < offset + i ==> buffer@[t] == payload@[t - offset],
            forall|t: int|
                0 <= t < old(buffer).len() && !(offset <= t < offset + i) ==> buffer@[t] == old(
                    buffer,
                )@[t],
        decreases payload.len() - i,
    {
        buffer.set(offset + i, payload[i]);
        i = i + 1;
    }
    proof {
        assert(buffer@.subrange(offset as int, offset + payload.len()) =~= payload@);
    }
}

/// Splits a page-aligned payload into chunks of at most
/// `pages_per_roundtrip` pages each, in order: chunk `i` holds the bytes
/// from `i` round trips in, and together they are exactly the payload.
pub fn split_into_roundtrips(payload: &[u8], pages_per_roundtrip: usize, page_size: usize) -> (r:
    Vec<Vec<u8>>)
    requires
        page_size >= 1,
        pages_per_roundtrip >= 1,
        pages_per_roundtrip * page_size <= usize::MAX,
        payload.len() as int % page_size as int == 0,
    ensures
        forall|i: int|
            0 <= i < r@.len() ==> (#[trigger] r@[i])@ == payload@.subrange(
                i * (pages_per_roundtrip * page_size) as int,
                if (i + 1) * (pages_per_roundtrip * page_size) as int <= payload.len() {
                    (i + 1) * (pages_per_roundtrip * page_size) as int
                } else {
                    payload.len() as int
                },
            ),
        forall|i: int| 0 <= i < r@.len() ==> (#[trigger] r@[i]).len() >= 1,
        r@.len() * (pages_per_roundtrip * page_size) as int >= payload.len(),
        payload.len() > 0 ==> ((r@.len() - 1) * (pages_per_roundtrip * page_size) as int)
            < payload.len(),
        payload.len() == 0 ==> r@.len() == 0,
{
    let chunk_bytes: usize = pages_per_roundtrip * page_size;
    let mut r: Vec<Vec<u8>> = Vec::new();
    let mut offset: usize = 0;
    proof {
        assert(pages_per_roundtrip * page_size >= 1 * 1) by (nonlinear_arith)
            requires
                pages_per_roundtrip >= 1,
                page_size >= 1,
        ;
    }
    proof {
        let n0 = r@.len() as int;
        assert(n0 * chunk_bytes as int == 0) by (nonlinear_arith)
            requires
                n0 == 0,
        ;
    }
    while offset < payload.len()
        invariant
            chunk_bytes >= 1,
            chunk_bytes == pages_per_roundtrip * page_size,
            offset <= payload.len(),
            (offset == r@.len() * chunk_bytes as int) || (offset == payload.len() && r@.len()
                >= 1 && ((r@.len() - 1) * chunk_bytes as int) < payload.len() && payload.len()
                < r@.len() * chunk_bytes as int),
            forall|i: int|
                0 <= i < r@.len() ==> (#[trigger] r@[i])@ == payload@.subrange(
                    i * chunk_bytes as int,
                    if (i + 1) * chunk_bytes as int <= payload.len() {
                        (i + 1) * chunk_bytes as int
                    } else {
                        payload.len() as int
                    },
                ),
            forall|i: int| 0 <= i < r@.len() ==> (#[trigger] r@[i]).len() >= 1,
        decreases payload.len() - offset,
    {
        let remaining = payload.len() - offset;
        let this_chunk = if remaining < chunk_bytes {
            remaining
        } else {
            chunk_bytes
        };
        let chunk = copy_range(payload, offset, this_chunk);
        let ghost n = r@.len() as int;
        proof {
            assert(offset == n * chunk_bytes as int);
            assert((n + 1) * chunk_bytes as int == n * chunk_bytes as int + chunk_bytes as int)
                by (nonlinear_arith);
        }
        r.push(chunk);
        offset = offset + this_chunk;
        proof {
            assert forall|i: int|
                0 <= i < r@.len() implies (#[trigger] r@[i])@ == payload@.subrange(
                i * chunk_bytes as int,
                if (i + 1) * chunk_bytes as int <= payload.len() {
                    (i + 1) * chunk_bytes as int
                } else {
                    payload.len() as int
                },
            ) by {
                if i < n {
                } else {
                    assert(r@[i]@ == payload@.subrange(
                        n * chunk_bytes as int,
                        n * chunk_bytes as int + this_chunk,
                    ));
                }
            }
        }
    }
    proof {
        assert(offset == payload.len());
        let n = r@.len() as int;
        if payload.len() > 0 {
            if offset == n * chunk_bytes as int {
                assert(n >= 1) by (nonlinear_arith)
                    requires
                        n * chunk_bytes as int > 0,
                        chunk_bytes >= 1,
                        n >= 0,
                ;
                assert((n - 1) * chunk_bytes as int == n * chunk_bytes as int
                    - chunk_bytes as int) by (nonlinear_arith);
            }
        } else {
            assert(n * chunk_bytes as int == 0 ==> n == 0) by (nonlinear_arith)
                requires
                    chunk_bytes >= 1,
                    n >= 0,
            ;
        }
        assert(n * chunk_bytes as int >= payload.len());
    }
    r
}

} // verus!
