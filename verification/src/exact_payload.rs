//! A byte-range request translated into page coordinates, and the
//! page-aligned buffer from which the requested bytes are sliced back out.

use vstd::prelude::*;

use crate::page_math::get_pages_amount_by_size;
use crate::page_math::spec_pages_amount_by_size;

verus! {

/// A page-aligned buffer together with the sub-slice of it that the caller
/// actually asked for.
pub struct ExactPayload {
    pub payload: Vec<u8>,
    pub offset: usize,
    pub size: usize,
}

impl ExactPayload {
    /// The requested slice lies inside the buffer.
    pub open spec fn wf(self) -> bool {
        self.offset + self.size <= self.payload.len()
    }

    /// The bytes the caller asked for: the marked sub-slice of the buffer.
    pub fn as_slice(&self) -> (r: &[u8])
        requires
            self.wf(),
        ensures
            r@ == self.payload@.subrange(self.offset as int, self.offset + self.size),
    {
        &self.payload.as_slice()[self.offset..self.offset + self.size]
    }
}

/// Where a byte range `[start_pos, end_pos)` falls in page coordinates:
/// its first page, and its extent within the page-aligned span.
pub struct ExactPayloadPositions {
    pub start_page_no: usize,
    pub start_pos: usize,
    pub end_pos: usize,
    pub payload_size: usize,
    pub page_size: usize,
}

impl ExactPayloadPositions {
    /// The fields agree: the first page is the start position's page, and
    /// the end position closes the byte range.
    pub open spec fn wf(self) -> bool {
        &&& self.page_size >= 1
        &&& self.start_page_no == self.start_pos as int / self.page_size as int
        &&& self.end_pos == self.start_pos + self.payload_size
    }

    pub fn new(start_pos: usize, payload_size: usize, page_size: usize) -> (r: Self)
        requires
            page_size >= 1,
            start_pos + payload_size <= usize::MAX,
        ensures
            r.wf(),
            r.start_pos == start_pos,
            r.payload_size == payload_size,
            r.end_pos == start_pos + payload_size,
            r.page_size == page_size,
    {
        Self {
            start_page_no: start_pos / page_size,
            start_pos,
            payload_size,
            page_size,
            end_pos: start_pos + payload_size,
        }
    }

    /// Offset of the requested bytes inside the page-aligned buffer that
    /// starts at the first touched page.
    pub fn get_payload_offset(&self) -> (r: usize)
        requires
            self.wf(),
        ensures
            r == self.start_pos as int % self.page_size as int,
            r < self.page_size,
    {
        proof {
            let x = self.start_pos as int;
            let d = self.page_size as int;
            vstd::arithmetic::div_mod::lemma_fundamental_div_mod(x, d);
            vstd::arithmetic::div_mod::lemma_mod_bound(x, d);
            assert(d * (x / d) == (x / d) * d) by (nonlinear_arith);
        }
        self.start_pos - self.start_page_no * self.page_size
    }

    /// How many whole pages the byte range touches.
    pub fn get_full_pages_amount(&self) -> (r: usize)
        requires
            self.wf(),
            self.payload_size >= 1,
        ensures
            r == spec_pages_amount_by_size(
                self.end_pos - self.start_page_no * self.page_size,
                self.page_size as int,
            ),
            r >= 1,
    {
        proof {
            let x = self.start_pos as int;
            let d = self.page_size as int;
            vstd::arithmetic::div_mod::lemma_fundamental_div_mod(x, d);
            vstd::arithmetic::div_mod::lemma_mod_bound(x, d);
            assert(d * (x / d) == (x / d) * d) by (nonlinear_arith);
        }
        get_pages_amount_by_size(
            self.end_pos - self.start_page_no * self.page_size,
            self.page_size,
        )
    }
}

} // verus!
