//! Pure page arithmetic: byte counts to page counts, and the rounded-up
//! page target used when a write forces the blob to grow.

use vstd::prelude::*;

verus! {

/// Number of whole pages needed to hold `data_size` bytes: ceiling division.
pub open spec fn spec_pages_amount_by_size(data_size: int, page_size: int) -> int {
    (data_size - 1) / page_size + 1
}

/// Ceiling division expressed through the remote store's page size: the
/// smallest page count whose byte capacity covers `data_size` bytes.
pub fn get_pages_amount_by_size(data_size: usize, page_size: usize) -> (r: usize)
    requires
        data_size >= 1,
        page_size >= 1,
    ensures
        r == spec_pages_amount_by_size(data_size as int, page_size as int),
{
    (data_size - 1) / page_size + 1
}

/// `spec_pages_amount_by_size` is exactly ceiling division: the returned
/// page count covers `data_size` bytes, and one page fewer would not.
pub proof fn lemma_pages_amount_is_ceiling_div(data_size: int, page_size: int)
    requires
        data_size >= 1,
        page_size >= 1,
    ensures
        spec_pages_amount_by_size(data_size, page_size) * page_size >= data_size,
        (spec_pages_amount_by_size(data_size, page_size) - 1) * page_size < data_size,
{
    let q = (data_size - 1) / page_size;
    let r = (data_size - 1) % page_size;
    vstd::arithmetic::div_mod::lemma_fundamental_div_mod(data_size - 1, page_size);
    vstd::arithmetic::div_mod::lemma_mod_bound(data_size - 1, page_size);
    assert(data_size - 1 == page_size * q + r);
    assert((q + 1) * page_size == page_size * q + page_size) by (nonlinear_arith);
    assert(q * page_size == page_size * q) by (nonlinear_arith);
}

/// Page count to resize to when `position` bytes must fit: the smallest
/// multiple of `pages_rate` pages that covers `position` bytes, so growth
/// is amortized in batches of `pages_rate` pages.
pub fn calc_pages_amount_to_ressize(position: usize, page_size: usize, pages_rate: usize) -> (r:
    usize)
    requires
        position >= 1,
        page_size >= 1,
        pages_rate >= 1,
        page_size * pages_rate <= usize::MAX,
        spec_pages_amount_by_size(position as int, (page_size * pages_rate) as int) * pages_rate
            <= usize::MAX,
    ensures
        r == spec_pages_amount_by_size(position as int, (page_size * pages_rate) as int)
            * pages_rate,
        r as int % pages_rate as int == 0,
{
    let big_page_size = page_size * pages_rate;
    assert(page_size * pages_rate >= 1) by (nonlinear_arith)
        requires
            page_size >= 1,
            pages_rate >= 1,
    ;
    let big_pages_amount = get_pages_amount_by_size(position, big_page_size);
    proof {
        vstd::arithmetic::div_mod::lemma_mod_multiples_basic(
            big_pages_amount as int,
            pages_rate as int,
        );
    }
    big_pages_amount * pages_rate
}

/// Pads `content` at its end with `byte_to_fill` until its length is the
/// exact byte size of the pages it occupies.  Empty content stays empty.
pub fn fill_content_to_comply_with_page_blob_size(
    content: &mut Vec<u8>,
    byte_to_fill: u8,
    blob_page_size: usize,
)
    requires
        blob_page_size >= 1,
        spec_pages_amount_by_size(old(content).len() as int, blob_page_size as int)
            * blob_page_size <= usize::MAX,
    ensures
        old(content).len() == 0 ==> final(content)@ == old(content)@,
        old(content).len() > 0 ==> {
            &&& final(content)@.len() == spec_pages_amount_by_size(
                old(content).len() as int,
                blob_page_size as int,
            ) * blob_page_size
            &&& final(content)@.subrange(0, old(content).len() as int) == old(content)@
            &&& forall|i: int|
                old(content).len() <= i < final(content)@.len() ==> final(content)@[i]
                    == byte_to_fill
        },
{
    if content.len() == 0 {
        return ;
    }
    let pages_amount = get_pages_amount_by_size(content.len(), blob_page_size);
    let required_size = pages_amount * blob_page_size;
    proof {
        lemma_pages_amount_is_ceiling_div(content.len() as int, blob_page_size as int);
    }
    while content.len() < required_size
        invariant
            required_size <= usize::MAX,
            old(content).len() <= content.len() <= required_size,
            content@.subrange(0, old(content).len() as int) == old(content)@,
            forall|i: int| old(content).len() <= i < content@.len() ==> content@[i] == byte_to_fill,
        decreases required_size - content.len(),
    {
        content.push(byte_to_fill);
        proof {
            assert(content@.subrange(0, old(content).len() as int) == old(content)@);
        }
    }
}

} // verus!
