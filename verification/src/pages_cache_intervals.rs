//! Pending-write intervals: contiguous runs of buffered, not-yet-flushed
//! pages, kept sorted, non-overlapping and non-adjacent.  An incoming run is
//! placed, merged with one neighbour, or merged with a whole run of
//! neighbours, so that reads observe buffered writes before any flush.

use vstd::prelude::*;

use crate::BLOB_PAGE_SIZE;
use crate::bytes::extend_bytes;

verus! {

/// The bytes of page `q` inside a buffer that holds whole pages starting at
/// page `start_page`.
pub open spec fn seq_page_at(c: Seq<u8>, start_page: int, q: int) -> Seq<u8> {
    c.subrange(
        (q - start_page) * BLOB_PAGE_SIZE as int,
        (q - start_page) * BLOB_PAGE_SIZE as int + BLOB_PAGE_SIZE as int,
    )
}

/// Multiplying both sides of `a <= b` by a nonnegative factor keeps the order.
proof fn lemma_mul_le(a: int, b: int, c: int)
    requires
        a <= b,
        c >= 0,
    ensures
        a * c <= b * c,
{
    assert(a * c <= b * c) by (nonlinear_arith)
        requires
            a <= b,
            c >= 0,
    ;
}

/// Concatenating two whole-page buffers: the result is whole pages, its
/// page count is the sum, and each page reads from the part it fell in.
proof fn lemma_concat_pages(a: Seq<u8>, b: Seq<u8>, start: int)
    requires
        a.len() as int % BLOB_PAGE_SIZE as int == 0,
        b.len() as int % BLOB_PAGE_SIZE as int == 0,
    ensures
        (a + b).len() as int % BLOB_PAGE_SIZE as int == 0,
        (a + b).len() as int / BLOB_PAGE_SIZE as int == a.len() as int / BLOB_PAGE_SIZE as int
            + b.len() as int / BLOB_PAGE_SIZE as int,
        forall|q: int|
            start <= q < start + a.len() as int / BLOB_PAGE_SIZE as int ==> seq_page_at(
                a + b,
                start,
                q,
            ) == seq_page_at(a, start, q),
        forall|q: int|
            start + a.len() as int / BLOB_PAGE_SIZE as int <= q < start + (a + b).len() as int
                / BLOB_PAGE_SIZE as int ==> seq_page_at(a + b, start, q) == seq_page_at(
                b,
                start + a.len() as int / BLOB_PAGE_SIZE as int,
                q,
            ),
{
    let p = BLOB_PAGE_SIZE as int;
    let qa = a.len() as int / p;
    let qb = b.len() as int / p;
    vstd::arithmetic::div_mod::lemma_fundamental_div_mod(a.len() as int, p);
    vstd::arithmetic::div_mod::lemma_fundamental_div_mod(b.len() as int, p);
    assert(a.len() + b.len() == (qa + qb) * p) by (nonlinear_arith)
        requires
            a.len() == p * qa,
            b.len() == p * qb,
    ;
    vstd::arithmetic::div_mod::lemma_mod_multiples_basic(qa + qb, p);
    vstd::arithmetic::div_mod::lemma_div_multiples_vanish(qa + qb, p);
    assert forall|q: int| start <= q < start + qa implies seq_page_at(a + b, start, q)
        == seq_page_at(a, start, q) by {
        let off = (q - start) * p;
        assert(off >= 0) by (nonlinear_arith)
            requires
                off == (q - start) * p,
                q >= start,
                p >= 1,
        ;
        assert(off + p <= qa * p) by (nonlinear_arith)
            requires
                off == (q - start) * p,
                q - start + 1 <= qa,
                p >= 1,
        ;
        assert(qa * p == a.len());
        assert(seq_page_at(a + b, start, q) =~= seq_page_at(a, start, q));
    }
    assert forall|q: int| start + qa <= q < start + qa + qb implies seq_page_at(a + b, start, q)
        == seq_page_at(b, start + qa, q) by {
        let off = (q - start) * p;
        let boff = (q - start - qa) * p;
        assert(off == qa * p + boff) by (nonlinear_arith)
            requires
                off == (q - start) * p,
                boff == (q - start - qa) * p,
        ;
        assert(boff >= 0) by (nonlinear_arith)
            requires
                boff == (q - start - qa) * p,
                q >= start + qa,
                p >= 1,
        ;
        assert(boff + p <= qb * p) by (nonlinear_arith)
            requires
                boff == (q - start - qa) * p,
                q - start - qa + 1 <= qb,
                p >= 1,
        ;
        assert(qa * p == a.len());
        assert(qb * p == b.len());
        assert(seq_page_at(a + b, start, q) =~= seq_page_at(b, start + qa, q));
    }
}

/// Cutting whole pages out of a whole-page buffer: the cut is whole pages
/// and each of its pages reads as it did in the source.
proof fn lemma_subrange_pages(c: Seq<u8>, start: int, from_page: int, to_page: int)
    requires
        c.len() as int % BLOB_PAGE_SIZE as int == 0,
        start <= from_page <= to_page <= start + c.len() as int / BLOB_PAGE_SIZE as int,
    ensures
        ({
            let sub = c.subrange(
                (from_page - start) * BLOB_PAGE_SIZE as int,
                (to_page - start) * BLOB_PAGE_SIZE as int,
            );
            &&& sub.len() == (to_page - from_page) * BLOB_PAGE_SIZE as int
            &&& sub.len() as int % BLOB_PAGE_SIZE as int == 0
            &&& sub.len() as int / BLOB_PAGE_SIZE as int == to_page - from_page
            &&& forall|q: int|
                from_page <= q < to_page ==> seq_page_at(sub, from_page, q) == seq_page_at(
                    c,
                    start,
                    q,
                )
        }),
{
    let p = BLOB_PAGE_SIZE as int;
    let n = c.len() as int / p;
    vstd::arithmetic::div_mod::lemma_fundamental_div_mod(c.len() as int, p);
    let lo = (from_page - start) * p;
    let hi = (to_page - start) * p;
    assert(0 <= lo) by (nonlinear_arith)
        requires
            lo == (from_page - start) * p,
            from_page >= start,
            p >= 1,
    ;
    assert(lo <= hi) by (nonlinear_arith)
        requires
            lo == (from_page - start) * p,
            hi == (to_page - start) * p,
            from_page <= to_page,
            p >= 1,
    ;
    assert(hi <= n * p) by (nonlinear_arith)
        requires
            hi == (to_page - start) * p,
            to_page - start <= n,
            p >= 1,
    ;
    assert(n * p == c.len());
    let sub = c.subrange(lo, hi);
    assert(sub.len() == hi - lo);
    assert(hi - lo == (to_page - from_page) * p) by (nonlinear_arith)
        requires
            lo == (from_page - start) * p,
            hi == (to_page - start) * p,
    ;
    vstd::arithmetic::div_mod::lemma_mod_multiples_basic(to_page - from_page, p);
    vstd::arithmetic::div_mod::lemma_div_multiples_vanish(to_page - from_page, p);
    assert forall|q: int| from_page <= q < to_page implies seq_page_at(sub, from_page, q)
        == seq_page_at(c, start, q) by {
        let soff = (q - from_page) * p;
        let coff = (q - start) * p;
        assert(coff == lo + soff) by (nonlinear_arith)
            requires
                coff == (q - start) * p,
                soff == (q - from_page) * p,
                lo == (from_page - start) * p,
        ;
        assert(soff >= 0) by (nonlinear_arith)
            requires
                soff == (q - from_page) * p,
                q >= from_page,
                p >= 1,
        ;
        assert(soff + p <= sub.len()) by (nonlinear_arith)
            requires
                soff == (q - from_page) * p,
                q - from_page + 1 <= to_page - from_page,
                sub.len() == (to_page - from_page) * p,
                p >= 1,
        ;
        assert(seq_page_at(sub, from_page, q) =~= seq_page_at(c, start, q));
    }
}

/// How an existing interval relates to an incoming one: it ends with a gap
/// before it, it overlaps or touches it, or it starts with a gap after it.
pub enum IsMyPageToAddResult {
    Before,
    Here,
    After,
}

impl IsMyPageToAddResult {
    pub fn is_before(&self) -> (r: bool)
        ensures
            r == (*self is Before),
    {
        match self {
            IsMyPageToAddResult::Before => true,
            _ => false,
        }
    }

    pub fn is_here(&self) -> (r: bool)
        ensures
            r == (*self is Here),
    {
        match self {
            IsMyPageToAddResult::Here => true,
            _ => false,
        }
    }

    pub fn is_after(&self) -> (r: bool)
        ensures
            r == (*self is After),
    {
        match self {
            IsMyPageToAddResult::After => true,
            _ => false,
        }
    }
}

/// One contiguous run of buffered pages: `content` holds whole pages and
/// starts at page `page_id`.
#[derive(Clone)]
pub struct PagesCacheItem {
    pub content: Vec<u8>,
    pub page_id: usize,
}

impl PagesCacheItem {
    /// How many whole pages the run holds.
    pub open spec fn spec_pages_amount(self) -> int {
        self.content.len() as int / BLOB_PAGE_SIZE as int
    }

    /// One past the run's last page.
    pub open spec fn spec_end(self) -> int {
        self.page_id + self.spec_pages_amount()
    }

    /// The run holds at least one whole page, nothing but whole pages, and
    /// its page coordinates stay within machine bounds.
    pub open spec fn wf(self) -> bool {
        &&& self.content.len() as int % BLOB_PAGE_SIZE as int == 0
        &&& self.content.len() > 0
        &&& self.spec_end() * BLOB_PAGE_SIZE as int <= usize::MAX
    }

    /// Whether page `q` lies in the run.
    pub open spec fn spec_covers(self, q: int) -> bool {
        self.page_id <= q < self.spec_end()
    }

    /// The bytes the run buffers for page `q`.
    pub open spec fn spec_page_content(self, q: int) -> Seq<u8> {
        seq_page_at(self.content@, self.page_id as int, q)
    }

    /// A well-formed run's byte length is exactly its page count times the
    /// page size.
    pub proof fn lemma_content_len(self)
        requires
            self.wf(),
        ensures
            self.content.len() == self.spec_pages_amount() * BLOB_PAGE_SIZE as int,
            self.spec_pages_amount() >= 1,
            self.page_id < self.spec_end(),
            self.spec_end() <= usize::MAX,
    {
        vstd::arithmetic::div_mod::lemma_fundamental_div_mod(
            self.content.len() as int,
            BLOB_PAGE_SIZE as int,
        );
        assert(self.spec_end() <= self.spec_end() * BLOB_PAGE_SIZE as int) by (nonlinear_arith)
            requires
                self.spec_end() >= 0,
        ;
    }

    pub fn new(page_id: usize, content: Vec<u8>) -> (r: Self)
        ensures
            r.page_id == page_id,
            r.content == content,
    {
        Self { page_id, content }
    }

    pub fn get_pages_amount(&self) -> (r: usize)
        ensures
            r == self.spec_pages_amount(),
    {
        self.content.len() / BLOB_PAGE_SIZE
    }

    pub fn get_last_page_id(&self) -> (r: usize)
        requires
            self.wf(),
        ensures
            r == self.spec_end(),
    {
        proof {
            self.lemma_content_len();
        }
        self.page_id + self.get_pages_amount()
    }

    /// Classifies an incoming run against this one: `Before` when the
    /// incoming run ends with at least a page of gap before this one,
    /// `After` when it starts with a gap after it, `Here` when the two
    /// overlap or touch.
    pub fn is_my_page_to_merge(&self, new_page: &Self) -> (r: IsMyPageToAddResult)
        requires
            self.wf(),
            new_page.wf(),
        ensures
            r is Before <==> new_page.spec_end() < self.page_id,
            r is After <==> new_page.page_id > self.spec_end(),
            r is Here <==> (new_page.spec_end() >= self.page_id && new_page.page_id
                <= self.spec_end()),
    {
        let last_page_id = new_page.get_last_page_id();
        if last_page_id < self.page_id {
            return IsMyPageToAddResult::Before;
        }
        if new_page.page_id > self.get_last_page_id() {
            return IsMyPageToAddResult::After;
        }
        IsMyPageToAddResult::Here
    }

    /// The buffered bytes of page `page_id`, if the run covers it.
    pub fn get_content(&self, page_id: usize) -> (r: Option<&[u8]>)
        requires
            self.wf(),
        ensures
            r is Some <==> self.spec_covers(page_id as int),
            r matches Some(s) ==> s@ == self.spec_page_content(page_id as int),
    {
        proof {
            self.lemma_content_len();
        }
        if page_id >= self.page_id && page_id < self.page_id + self.get_pages_amount() {
            let offset = (page_id - self.page_id) * BLOB_PAGE_SIZE;
            proof {
                assert((page_id - self.page_id) * BLOB_PAGE_SIZE as int + BLOB_PAGE_SIZE as int
                    <= self.spec_pages_amount() * BLOB_PAGE_SIZE as int) by (nonlinear_arith)
                    requires
                        page_id - self.page_id + 1 <= self.spec_pages_amount(),
                        BLOB_PAGE_SIZE as int >= 1,
                ;
                assert((page_id - self.page_id) * BLOB_PAGE_SIZE as int >= 0) by (nonlinear_arith)
                    requires
                        page_id >= self.page_id,
                        BLOB_PAGE_SIZE as int >= 1,
                ;
            }
            return Some(&self.content.as_slice()[offset..offset + BLOB_PAGE_SIZE]);
        }
        None
    }

    /// Merges an overlapping or touching incoming run into this one.  The
    /// incoming run's bytes always win on every page both runs cover; when
    /// the incoming run begins strictly inside this one, this run's pages
    /// beyond the incoming run's end are discarded (last writer wins for the
    /// overlapped-and-beyond region); when it begins at or before this run's
    /// start, this run's pages beyond the incoming run's end are kept.
    pub fn merge(&mut self, new_item: Self)
        requires
            old(self).wf(),
            new_item.wf(),
            new_item.spec_end() >= old(self).page_id,
            new_item.page_id <= old(self).spec_end(),
        ensures
            final(self).wf(),
            final(self).page_id == if new_item.page_id <= old(self).page_id {
                new_item.page_id
            } else {
                old(self).page_id
            },
            final(self).spec_end() >= new_item.spec_end(),
            final(self).spec_end() <= if new_item.spec_end() >= old(self).spec_end() {
                new_item.spec_end()
            } else {
                old(self).spec_end()
            },
            // exact content, case by case
            new_item.spec_end() == old(self).page_id ==> final(self).content@
                == new_item.content@ + old(self).content@,
            new_item.spec_end() != old(self).page_id && new_item.page_id <= old(self).page_id
                ==> final(self).content@ == if new_item.spec_end() >= old(self).spec_end() {
                new_item.content@
            } else {
                new_item.content@ + old(self).content@.subrange(
                    (new_item.spec_end() - old(self).page_id) * BLOB_PAGE_SIZE as int,
                    old(self).content.len() as int,
                )
            },
            new_item.page_id == old(self).spec_end() ==> final(self).content@ == old(self).content@ + new_item.content@,
            old(self).page_id < new_item.page_id && new_item.page_id < old(self).spec_end()
                ==> final(self).content@ == old(self).content@.subrange(
                0,
                (new_item.page_id - old(self).page_id) * BLOB_PAGE_SIZE as int,
            ) + new_item.content@,
            // the incoming run's pages read back as written
            forall|q: int|
                new_item.spec_covers(q) ==> final(self).spec_covers(q) && final(self).spec_page_content(q) == new_item.spec_page_content(q),
            // nothing appears from nowhere
            forall|q: int|
                final(self).spec_covers(q) ==> old(self).spec_covers(q) || new_item.spec_covers(
                    q,
                ),
            // the existing run's pages before the incoming one survive
            forall|q: int|
                old(self).spec_covers(q) && q < new_item.page_id ==> final(self).spec_covers(q)
                    && final(self).spec_page_content(q) == old(self).spec_page_content(q),
            // beyond the incoming run's end, the existing pages survive when
            // the incoming run began at or before this one, and are
            // discarded when it began strictly inside it
            forall|q: int|
                old(self).spec_covers(q) && q >= new_item.spec_end() ==> if new_item.page_id
                    <= old(self).page_id {
                    final(self).spec_covers(q) && final(self).spec_page_content(q) == old(self).spec_page_content(q)
                } else {
                    !final(self).spec_covers(q)
                },
    {
        proof {
            old(self).lemma_content_len();
            new_item.lemma_content_len();
        }
        let new_last = new_item.get_last_page_id();
        let old_last = self.get_last_page_id();
        if new_last == self.page_id {
            // the incoming run ends exactly where this one starts: prepend
            let ghost n = new_item.content@;
            let ghost o = self.content@;
            let mut c: Vec<u8> = new_item.content;
            extend_bytes(&mut c, self.content.as_slice());
            self.content = c;
            self.page_id = new_item.page_id;
            proof {
                lemma_concat_pages(n, o, new_item.page_id as int);
                assert(self.spec_pages_amount() == new_item.spec_pages_amount() + old(self).spec_pages_amount());
                lemma_mul_le(self.spec_end(), old(self).spec_end(), BLOB_PAGE_SIZE as int);
            }
        } else if new_item.page_id <= self.page_id {
            // the incoming run starts at or before this one and overlaps it
            if new_last >= old_last {
                self.page_id = new_item.page_id;
                self.content = new_item.content;
            } else {
                let cut: usize = (new_last - self.page_id) * BLOB_PAGE_SIZE;
                proof {
                    lemma_subrange_pages(
                        old(self).content@,
                        old(self).page_id as int,
                        new_item.spec_end(),
                        old(self).spec_end(),
                    );
                    assert((new_item.spec_end() - old(self).page_id) * BLOB_PAGE_SIZE as int
                        <= old(self).spec_pages_amount() * BLOB_PAGE_SIZE as int) by {
                        lemma_mul_le(
                            new_item.spec_end() - old(self).page_id,
                            old(self).spec_pages_amount(),
                            BLOB_PAGE_SIZE as int,
                        );
                    }
                    let osp = old(self).page_id as int;
                    let ne = new_item.spec_end();
                    assert((ne - osp) * BLOB_PAGE_SIZE as int >= 0) by (nonlinear_arith)
                        requires
                            ne >= osp,
                            BLOB_PAGE_SIZE as int >= 1,
                    ;
                }
                let tail_len: usize = self.content.len() - cut;
                let ghost n = new_item.content@;
                let ghost tail = self.content@.subrange(
                    cut as int,
                    self.content.len() as int,
                );
                let mut c: Vec<u8> = new_item.content;
                extend_bytes(&mut c, &self.content.as_slice()[cut..cut + tail_len]);
                self.content = c;
                self.page_id = new_item.page_id;
                proof {
                    assert(tail == old(self).content@.subrange(
                        (new_item.spec_end() - old(self).page_id) * BLOB_PAGE_SIZE as int,
                        old(self).content.len() as int,
                    ));
                    lemma_concat_pages(n, tail, new_item.page_id as int);
                    assert(self.spec_pages_amount() == new_item.spec_pages_amount() + (old(self).spec_end() - new_item.spec_end()));
                    assert(self.spec_end() == old(self).spec_end());
                    lemma_mul_le(self.spec_end(), old(self).spec_end(), BLOB_PAGE_SIZE as int);
                    // pages of the tail read back as the old run had them
                    lemma_subrange_pages(
                        old(self).content@,
                        old(self).page_id as int,
                        new_item.spec_end(),
                        old(self).spec_end(),
                    );
                }
            }
        } else if new_item.page_id == old_last {
            // the incoming run starts exactly where this one ends: append
            let ghost o = self.content@;
            let ghost n = new_item.content@;
            extend_bytes(&mut self.content, new_item.content.as_slice());
            proof {
                lemma_concat_pages(o, n, old(self).page_id as int);
                assert(self.spec_end() == new_item.spec_end());
                lemma_mul_le(self.spec_end(), new_item.spec_end(), BLOB_PAGE_SIZE as int);
            }
        } else {
            // the incoming run starts strictly inside this one: keep this
            // run's prefix up to where it starts, then the incoming bytes
            let cut: usize = (new_item.page_id - self.page_id) * BLOB_PAGE_SIZE;
            proof {
                lemma_subrange_pages(
                    old(self).content@,
                    old(self).page_id as int,
                    old(self).page_id as int,
                    new_item.page_id as int,
                );
                lemma_mul_le(
                    new_item.page_id - old(self).page_id,
                    old(self).spec_pages_amount(),
                    BLOB_PAGE_SIZE as int,
                );
                let osp = old(self).page_id as int;
                let np = new_item.page_id as int;
                assert((np - osp) * BLOB_PAGE_SIZE as int >= 0) by (nonlinear_arith)
                    requires
                        np >= osp,
                        BLOB_PAGE_SIZE as int >= 1,
                ;
            }
            let ghost pre = self.content@.subrange(0, cut as int);
            let ghost n = new_item.content@;
            self.content.truncate(cut);
            extend_bytes(&mut self.content, new_item.content.as_slice());
            proof {
                assert(pre == old(self).content@.subrange(
                    0,
                    (new_item.page_id - old(self).page_id) * BLOB_PAGE_SIZE as int,
                )) by {
                    assert((old(self).page_id - old(self).page_id) * BLOB_PAGE_SIZE as int
                        == 0);
                }
                assert(self.content@ == pre + n);
                lemma_concat_pages(pre, n, old(self).page_id as int);
                assert(pre.len() as int / BLOB_PAGE_SIZE as int == new_item.page_id - old(self).page_id);
                assert(self.spec_end() == new_item.spec_end());
                lemma_mul_le(self.spec_end(), new_item.spec_end(), BLOB_PAGE_SIZE as int);
            }
        }
    }
}


/// A page of zero bytes: the buffered default for pages that were bridged
/// by a merge but never written.
pub open spec fn zero_page() -> Seq<u8> {
    Seq::new(BLOB_PAGE_SIZE as nat, |i: int| 0u8)
}

/// What a multi-interval merge buffers for page `q`: the incoming run's
/// bytes where it covers `q`, else the bytes of the source interval covering
/// `q`, else a page of zeros.
pub open spec fn spec_merged_page(
    srcs: Seq<&PagesCacheItem>,
    new: PagesCacheItem,
    q: int,
) -> Seq<u8> {
    if new.spec_covers(q) {
        new.spec_page_content(q)
    } else if exists|i: int| 0 <= i < srcs.len() && (#[trigger] srcs[i]).spec_covers(q) {
        srcs[choose|i: int| 0 <= i < srcs.len() && (#[trigger] srcs[i]).spec_covers(q)].spec_page_content(q)
    } else {
        zero_page()
    }
}

/// The smallest start and the largest end over the source intervals and the
/// incoming one: the page span a multi-interval merge will cover.
pub fn get_min_max_page_id(src_pages: &[&PagesCacheItem], page_to_merge: &PagesCacheItem) -> (r: (
    usize,
    usize,
))
    requires
        page_to_merge.wf(),
        forall|i: int| 0 <= i < src_pages@.len() ==> (#[trigger] src_pages@[i]).wf(),
    ensures
        r.0 <= page_to_merge.page_id,
        forall|i: int| 0 <= i < src_pages@.len() ==> r.0 <= (#[trigger] src_pages@[i]).page_id,
        r.0 == page_to_merge.page_id || exists|i: int|
            0 <= i < src_pages@.len() && r.0 == (#[trigger] src_pages@[i]).page_id,
        r.1 >= page_to_merge.spec_end(),
        forall|i: int|
            0 <= i < src_pages@.len() ==> r.1 >= (#[trigger] src_pages@[i]).spec_end(),
        r.1 == page_to_merge.spec_end() || exists|i: int|
            0 <= i < src_pages@.len() && r.1 == (#[trigger] src_pages@[i]).spec_end(),
{
    proof {
        page_to_merge.lemma_content_len();
    }
    let mut min_page_id = page_to_merge.page_id;
    let mut max_pages_id = page_to_merge.get_last_page_id();
    let mut i: usize = 0;
    while i < src_pages.len()
        invariant
            i <= src_pages@.len(),
            page_to_merge.wf(),
            forall|j: int| 0 <= j < src_pages@.len() ==> (#[trigger] src_pages@[j]).wf(),
            min_page_id <= page_to_merge.page_id,
            forall|j: int| 0 <= j < i ==> min_page_id <= (#[trigger] src_pages@[j]).page_id,
            min_page_id == page_to_merge.page_id || exists|j: int|
                0 <= j < i && min_page_id == (#[trigger] src_pages@[j]).page_id,
            max_pages_id >= page_to_merge.spec_end(),
            forall|j: int| 0 <= j < i ==> max_pages_id >= (#[trigger] src_pages@[j]).spec_end(),
            max_pages_id == page_to_merge.spec_end() || exists|j: int|
                0 <= j < i && max_pages_id == (#[trigger] src_pages@[j]).spec_end(),
        decreases src_pages@.len() - i,
    {
        proof {
            src_pages@[i as int].lemma_content_len();
        }
        let page = src_pages[i];
        let max_page_no = page.get_last_page_id();
        if max_page_no > max_pages_id {
            max_pages_id = max_page_no;
        }
        if min_page_id > page.page_id {
            min_page_id = page.page_id;
        }
        i = i + 1;
    }
    (min_page_id, max_pages_id)
}

/// Appends to `result_content` the bytes that the merged interval buffers
/// for page `page_id`: the incoming run's bytes, else the covering source
/// interval's bytes, else zeros.
pub fn push_content(
    result_content: &mut Vec<u8>,
    src_pages: &[&PagesCacheItem],
    page_to_merge: &PagesCacheItem,
    page_id: usize,
)
    requires
        page_to_merge.wf(),
        forall|i: int| 0 <= i < src_pages@.len() ==> (#[trigger] src_pages@[i]).wf(),
        forall|i: int, j: int|
            0 <= i < j < src_pages@.len() ==> (#[trigger] src_pages@[i]).spec_end()
                <= (#[trigger] src_pages@[j]).page_id,
        old(result_content).len() + BLOB_PAGE_SIZE <= usize::MAX,
    ensures
        final(result_content)@ == old(result_content)@ + spec_merged_page(
            src_pages@,
            *page_to_merge,
            page_id as int,
        ),
{
    match page_to_merge.get_content(page_id) {
        Some(content) => {
            extend_bytes(result_content, content);
            return ;
        },
        None => {},
    }
    let mut i: usize = 0;
    while i < src_pages.len()
        invariant
            i <= src_pages@.len(),
            page_to_merge.wf(),
            forall|j: int| 0 <= j < src_pages@.len() ==> (#[trigger] src_pages@[j]).wf(),
            forall|a: int, b: int|
                0 <= a < b < src_pages@.len() ==> (#[trigger] src_pages@[a]).spec_end()
                    <= (#[trigger] src_pages@[b]).page_id,
            !page_to_merge.spec_covers(page_id as int),
            forall|j: int| 0 <= j < i ==> !(#[trigger] src_pages@[j]).spec_covers(page_id as int),
            result_content@ == old(result_content)@,
            old(result_content).len() + BLOB_PAGE_SIZE <= usize::MAX,
        decreases src_pages@.len() - i,
    {
        match src_pages[i].get_content(page_id) {
            Some(content) => {
                extend_bytes(result_content, content);
                proof {
                    // the sources are disjoint, so the covering one is
                    // unique and the chosen index is this one
                    let j = choose|j: int|
                        0 <= j < src_pages@.len() && (#[trigger] src_pages@[j]).spec_covers(
                            page_id as int,
                        );
                    assert(src_pages@[j].spec_covers(page_id as int));
                    assert(src_pages@[i as int].spec_covers(page_id as int));
                    assert(j == i);
                }
                return ;
            },
            None => {},
        }
        i = i + 1;
    }
    let mut k: usize = 0;
    while k < BLOB_PAGE_SIZE
        invariant
            k <= BLOB_PAGE_SIZE,
            old(result_content).len() + BLOB_PAGE_SIZE <= usize::MAX,
            result_content@ == old(result_content)@ + Seq::new(k as nat, |i: int| 0u8),
        decreases BLOB_PAGE_SIZE - k,
    {
        result_content.push(0u8);
        k = k + 1;
        proof {
            assert(result_content@ =~= old(result_content)@ + Seq::new(k as nat, |i: int| 0u8));
        }
    }
    proof {
        assert(result_content@ == old(result_content)@ + zero_page());
    }
}


/// Merges a sorted, pairwise-disjoint run of intervals with an incoming
/// one into a single interval spanning them all.  The incoming run's bytes
/// win on every page it covers, every other page covered by a source keeps
/// that source's bytes, and pages bridged by nobody are zero-filled.
pub fn merge_pages(src_pages: &[&PagesCacheItem], page_to_merge: &PagesCacheItem) -> (r:
    PagesCacheItem)
    requires
        page_to_merge.wf(),
        forall|i: int| 0 <= i < src_pages@.len() ==> (#[trigger] src_pages@[i]).wf(),
        forall|i: int, j: int|
            0 <= i < j < src_pages@.len() ==> (#[trigger] src_pages@[i]).spec_end()
                <= (#[trigger] src_pages@[j]).page_id,
    ensures
        r.wf(),
        r.page_id <= page_to_merge.page_id,
        forall|i: int| 0 <= i < src_pages@.len() ==> r.page_id <= (#[trigger] src_pages@[i]).page_id,
        r.page_id == page_to_merge.page_id || exists|i: int|
            0 <= i < src_pages@.len() && r.page_id == (#[trigger] src_pages@[i]).page_id,
        r.spec_end() >= page_to_merge.spec_end(),
        forall|i: int|
            0 <= i < src_pages@.len() ==> r.spec_end() >= (#[trigger] src_pages@[i]).spec_end(),
        r.spec_end() == page_to_merge.spec_end() || exists|i: int|
            0 <= i < src_pages@.len() && r.spec_end() == (#[trigger] src_pages@[i]).spec_end(),
        forall|q: int|
            r.spec_covers(q) ==> r.spec_page_content(q) == spec_merged_page(
                src_pages@,
                *page_to_merge,
                q,
            ),
{
    let (min_page_id, max_pages_id) = get_min_max_page_id(src_pages, page_to_merge);
    proof {
        page_to_merge.lemma_content_len();
        if max_pages_id != page_to_merge.spec_end() {
            let i = choose|i: int|
                0 <= i < src_pages@.len() && max_pages_id == (#[trigger] src_pages@[i]).spec_end();
            src_pages@[i].lemma_content_len();
        }
        assert((max_pages_id - min_page_id) * BLOB_PAGE_SIZE as int <= max_pages_id as int
            * BLOB_PAGE_SIZE as int) by {
            lemma_mul_le(max_pages_id - min_page_id, max_pages_id as int, BLOB_PAGE_SIZE as int);
        }
        assert(max_pages_id as int * BLOB_PAGE_SIZE as int <= usize::MAX);
    }
    let mut result_content: Vec<u8> = Vec::new();
    let mut page_id: usize = min_page_id;
    while page_id < max_pages_id
        invariant
            min_page_id <= page_id <= max_pages_id,
            page_to_merge.wf(),
            forall|j: int| 0 <= j < src_pages@.len() ==> (#[trigger] src_pages@[j]).wf(),
            forall|a: int, b: int|
                0 <= a < b < src_pages@.len() ==> (#[trigger] src_pages@[a]).spec_end()
                    <= (#[trigger] src_pages@[b]).page_id,
            result_content@.len() == (page_id - min_page_id) * BLOB_PAGE_SIZE as int,
            (max_pages_id - min_page_id) * BLOB_PAGE_SIZE as int <= usize::MAX,
            forall|q: int|
                min_page_id <= q < page_id ==> seq_page_at(result_content@, min_page_id as int, q)
                    == spec_merged_page(src_pages@, *page_to_merge, q),
        decreases max_pages_id - page_id,
    {
        let ghost before = result_content@;
        proof {
            assert((page_id + 1 - min_page_id) * BLOB_PAGE_SIZE as int == (page_id
                - min_page_id) * BLOB_PAGE_SIZE as int + BLOB_PAGE_SIZE as int)
                by (nonlinear_arith);
            assert((page_id + 1 - min_page_id) * BLOB_PAGE_SIZE as int <= (max_pages_id
                - min_page_id) * BLOB_PAGE_SIZE as int) by {
                lemma_mul_le(
                    page_id + 1 - min_page_id,
                    max_pages_id - min_page_id,
                    BLOB_PAGE_SIZE as int,
                );
            }
        }
        push_content(&mut result_content, src_pages, page_to_merge, page_id);
        proof {
            let chunk = spec_merged_page(src_pages@, *page_to_merge, page_id as int);
            assert(chunk.len() == BLOB_PAGE_SIZE) by {
                if page_to_merge.spec_covers(page_id as int) {
                } else if exists|i: int|
                    0 <= i < src_pages@.len() && (#[trigger] src_pages@[i]).spec_covers(
                        page_id as int,
                    ) {
                    let i = choose|i: int|
                        0 <= i < src_pages@.len() && (#[trigger] src_pages@[i]).spec_covers(
                            page_id as int,
                        );
                    src_pages@[i].lemma_content_len();
                    let off = (page_id - src_pages@[i].page_id) * BLOB_PAGE_SIZE as int;
                    assert(off >= 0 && off + BLOB_PAGE_SIZE <= src_pages@[i].content.len())
                        by (nonlinear_arith)
                        requires
                            off == (page_id - src_pages@[i].page_id) * BLOB_PAGE_SIZE as int,
                            0 <= page_id - src_pages@[i].page_id,
                            page_id - src_pages@[i].page_id + 1 <= src_pages@[
                                i
                            ].spec_pages_amount(),
                            src_pages@[i].content.len() == src_pages@[i].spec_pages_amount()
                                * BLOB_PAGE_SIZE as int,
                            BLOB_PAGE_SIZE as int >= 1,
                    ;
                }
            }
            if page_to_merge.spec_covers(page_id as int) {
                page_to_merge.lemma_content_len();
                let off = (page_id - page_to_merge.page_id) * BLOB_PAGE_SIZE as int;
                assert(off >= 0 && off + BLOB_PAGE_SIZE <= page_to_merge.content.len())
                    by (nonlinear_arith)
                    requires
                        off == (page_id - page_to_merge.page_id) * BLOB_PAGE_SIZE as int,
                        0 <= page_id - page_to_merge.page_id,
                        page_id - page_to_merge.page_id + 1 <= page_to_merge.spec_pages_amount(),
                        page_to_merge.content.len() == page_to_merge.spec_pages_amount()
                            * BLOB_PAGE_SIZE as int,
                        BLOB_PAGE_SIZE as int >= 1,
                ;
            }
            assert forall|q: int| min_page_id <= q < page_id + 1 implies seq_page_at(
                result_content@,
                min_page_id as int,
                q,
            ) == spec_merged_page(src_pages@, *page_to_merge, q) by {
                let off = (q - min_page_id) * BLOB_PAGE_SIZE as int;
                if q < page_id {
                    assert(off >= 0 && off + BLOB_PAGE_SIZE <= before.len()) by (nonlinear_arith)
                        requires
                            off == (q - min_page_id) * BLOB_PAGE_SIZE as int,
                            0 <= q - min_page_id,
                            q - min_page_id + 1 <= page_id - min_page_id,
                            before.len() == (page_id - min_page_id) * BLOB_PAGE_SIZE as int,
                            BLOB_PAGE_SIZE as int >= 1,
                    ;
                    assert(seq_page_at(result_content@, min_page_id as int, q) =~= seq_page_at(
                        before,
                        min_page_id as int,
                        q,
                    ));
                } else {
                    assert(off == before.len()) by (nonlinear_arith)
                        requires
                            off == (q - min_page_id) * BLOB_PAGE_SIZE as int,
                            q == page_id,
                            before.len() == (page_id - min_page_id) * BLOB_PAGE_SIZE as int,
                    ;
                    assert(seq_page_at(result_content@, min_page_id as int, q)
                        =~= spec_merged_page(src_pages@, *page_to_merge, q));
                }
            }
            assert(result_content@.len() == (page_id + 1 - min_page_id) * BLOB_PAGE_SIZE as int);
        }
        page_id = page_id + 1;
    }
    proof {
        page_to_merge.lemma_content_len();
        let span = max_pages_id - min_page_id;
        assert(span >= 1);
        assert(result_content@.len() == span * BLOB_PAGE_SIZE as int);
        vstd::arithmetic::div_mod::lemma_mod_multiples_basic(span, BLOB_PAGE_SIZE as int);
        vstd::arithmetic::div_mod::lemma_div_multiples_vanish(span, BLOB_PAGE_SIZE as int);
        assert(span * BLOB_PAGE_SIZE as int >= 1 * BLOB_PAGE_SIZE as int) by {
            lemma_mul_le(1, span, BLOB_PAGE_SIZE as int);
        }
    }
    let r = PagesCacheItem::new(min_page_id, result_content);
    proof {
        assert(r.spec_pages_amount() == max_pages_id - min_page_id);
        assert(r.spec_end() == max_pages_id);
        assert(r.spec_end() * BLOB_PAGE_SIZE as int <= usize::MAX);
    }
    r
}


/// An existing interval lies wholly before the incoming one, with a gap.
pub open spec fn item_after(item: PagesCacheItem, new: PagesCacheItem) -> bool {
    new.page_id > item.spec_end()
}

/// An existing interval overlaps or touches the incoming one.
pub open spec fn item_here(item: PagesCacheItem, new: PagesCacheItem) -> bool {
    new.spec_end() >= item.page_id && new.page_id <= item.spec_end()
}

/// Where an incoming interval goes: inserted alone at an index or at the
/// end, merged into one existing interval, or merged with a whole run of
/// existing intervals.
pub enum InsertToPagesAction {
    AtIndex(usize),
    AtTheEnd,
    MergeWithPage(usize),
    MergeWithPages(Vec<usize>),
}

/// The sorted set of pending-write intervals: strictly increasing, with at
/// least one page of gap between neighbours.
pub struct PagesCacheIntervals {
    pub pages: Vec<PagesCacheItem>,
}

/// Every interval is well formed and each ends with a gap before the next.
pub open spec fn intervals_wf(s: Seq<PagesCacheItem>) -> bool {
    &&& forall|i: int| 0 <= i < s.len() ==> (#[trigger] s[i]).wf()
    &&& forall|i: int| 0 <= i < s.len() - 1 ==> (#[trigger] s[i]).spec_end() < s[i + 1].page_id
}

/// In a sorted interval set, every earlier interval ends before a later one
/// starts, with a gap.
proof fn lemma_sorted_trans(s: Seq<PagesCacheItem>, i: int, j: int)
    requires
        intervals_wf(s),
        0 <= i < j < s.len(),
    ensures
        s[i].spec_end() < s[j].page_id,
    decreases j - i,
{
    if j == i + 1 {
    } else {
        lemma_sorted_trans(s, i, j - 1);
        s[j - 1].lemma_content_len();
    }
}

/// Within a run of intervals that all overlap or touch an incoming one,
/// every page of the run's span that the incoming run does not cover is
/// covered by one of the run's intervals: the incoming run bridges every
/// gap it merges across.
proof fn lemma_run_bridges(
    pre: Seq<PagesCacheItem>,
    s0: int,
    k: int,
    ni: PagesCacheItem,
    q: int,
)
    requires
        intervals_wf(pre),
        0 <= s0 <= s0 + k < pre.len(),
        0 <= k,
        forall|j: int| 0 <= j <= k ==> item_here(#[trigger] pre[s0 + j], ni),
        ni.wf(),
        pre[s0].page_id <= q < pre[s0 + k].spec_end(),
        !ni.spec_covers(q),
    ensures
        exists|j: int| 0 <= j <= k && (#[trigger] pre[s0 + j]).spec_covers(q),
    decreases k,
{
    if k == 0 {
        assert(pre[s0].spec_covers(q));
    } else {
        if pre[s0 + k].page_id <= q {
            assert(pre[s0 + k].spec_covers(q));
        } else {
            if q < pre[s0 + k - 1].spec_end() {
                lemma_run_bridges(pre, s0, k - 1, ni, q);
                let j = choose|j: int| 0 <= j <= k - 1 && (#[trigger] pre[s0 + j]).spec_covers(q);
                assert(pre[s0 + j].spec_covers(q));
            } else {
                // the page lies in the gap between two run members, which
                // the incoming run covers: contradiction
                assert(item_here(pre[s0 + k - 1], ni));
                assert(item_here(pre[s0 + k], ni));
                assert(ni.page_id <= pre[s0 + k - 1].spec_end());
                assert(ni.spec_end() >= pre[s0 + k].page_id);
                assert(ni.spec_covers(q));
                assert(false);
            }
        }
    }
}

impl PagesCacheIntervals {
    /// The interval set invariant: see `intervals_wf`.
    pub open spec fn wf(self) -> bool {
        intervals_wf(self.pages@)
    }

    /// Whether some interval buffers page `q`.
    pub open spec fn spec_covers(self, q: int) -> bool {
        exists|i: int| 0 <= i < self.pages@.len() && (#[trigger] self.pages@[i]).spec_covers(q)
    }

    /// Index of the interval buffering page `q` (meaningful when covered).
    pub open spec fn spec_cover_index(self, q: int) -> int {
        choose|i: int| 0 <= i < self.pages@.len() && (#[trigger] self.pages@[i]).spec_covers(q)
    }

    /// The bytes buffered for page `q`.
    pub open spec fn spec_page_at(self, q: int) -> Seq<u8> {
        self.pages@[self.spec_cover_index(q)].spec_page_content(q)
    }

    /// In a well-formed set, the interval at `k` is the unique one covering
    /// any page it covers.
    pub proof fn lemma_page_at_index(self, k: int, q: int)
        requires
            self.wf(),
            0 <= k < self.pages@.len(),
            self.pages@[k].spec_covers(q),
        ensures
            self.spec_covers(q),
            self.spec_cover_index(q) == k,
            self.spec_page_at(q) == self.pages@[k].spec_page_content(q),
    {
        assert(self.spec_covers(q));
        let j = self.spec_cover_index(q);
        if j != k {
            if j < k {
                lemma_sorted_trans(self.pages@, j, k);
            } else {
                lemma_sorted_trans(self.pages@, k, j);
            }
        }
    }

    pub fn new() -> (r: Self)
        ensures
            r.wf(),
            r.pages@.len() == 0,
            forall|q: int| !r.spec_covers(q),
    {
        Self { pages: Vec::new() }
    }

    /// Removes `amount` consecutive intervals starting at `at_index`.
    pub fn remove_pages(&mut self, at_index: usize, amount: usize)
        requires
            at_index + amount <= old(self).pages@.len(),
        ensures
            final(self).pages@ == old(self).pages@.subrange(0, at_index as int) + old(self).pages@.subrange(at_index + amount, old(self).pages@.len() as int),
    {
        let mut removed: usize = 0;
        while removed < amount
            invariant
                removed <= amount,
                at_index + amount <= old(self).pages@.len(),
                self.pages@ == old(self).pages@.subrange(0, at_index as int) + old(self).pages@.subrange(at_index + removed, old(self).pages@.len() as int),
            decreases amount - removed,
        {
            self.pages.remove(at_index);
            removed = removed + 1;
            proof {
                assert(self.pages@ =~= old(self).pages@.subrange(0, at_index as int) + old(self).pages@.subrange(at_index + removed, old(self).pages@.len() as int));
            }
        }
    }

    /// Classifies the incoming interval against the set: the index to
    /// insert it at alone, or the interval — or contiguous run of
    /// intervals — it must be merged with.
    pub fn get_page_index_to_merge(&self, new_content: &PagesCacheItem) -> (r:
        InsertToPagesAction)
        requires
            self.wf(),
            new_content.wf(),
        ensures
            r matches InsertToPagesAction::AtIndex(i) ==> i < self.pages@.len()
                && new_content.spec_end() < self.pages@[i as int].page_id && forall|j: int|
                0 <= j < i ==> item_after(#[trigger] self.pages@[j], *new_content),
            r is AtTheEnd ==> forall|j: int|
                0 <= j < self.pages@.len() ==> item_after(#[trigger] self.pages@[j], *new_content),
            r matches InsertToPagesAction::MergeWithPage(i) ==> i < self.pages@.len()
                && item_here(self.pages@[i as int], *new_content) && (forall|j: int|
                0 <= j < i ==> item_after(#[trigger] self.pages@[j], *new_content)) && (i + 1
                < self.pages@.len() ==> new_content.spec_end() < self.pages@[i + 1].page_id),
            r matches InsertToPagesAction::MergeWithPages(v) ==> v@.len() >= 2 && 0 <= v@[0]
                && v@[0] + v@.len() <= self.pages@.len() && (forall|k: int|
                0 <= k < v@.len() ==> #[trigger] v@[k] == v@[0] + k) && (forall|k: int|
                0 <= k < v@.len() ==> item_here(
                    #[trigger] self.pages@[v@[0] + k],
                    *new_content,
                )) && (forall|j: int|
                0 <= j < v@[0] ==> item_after(#[trigger] self.pages@[j], *new_content)) && (v@[0]
                + v@.len() < self.pages@.len() ==> new_content.spec_end() < self.pages@[v@[0]
                + v@.len()].page_id),
    {
        let mut no: usize = 0;
        let mut found_pages: Vec<usize> = Vec::new();
        let ghost mut broke = false;
        while no < self.pages.len()
            invariant_except_break
                self.wf(),
                new_content.wf(),
                no <= self.pages@.len(),
                !broke,
                found_pages@.len() == 0 ==> forall|j: int|
                    0 <= j < no ==> item_after(#[trigger] self.pages@[j], *new_content),
                found_pages@.len() > 0 ==> {
                    &&& found_pages@[0] + found_pages@.len() == no
                    &&& 0 <= found_pages@[0]
                    &&& forall|k: int|
                        0 <= k < found_pages@.len() ==> #[trigger] found_pages@[k]
                            == found_pages@[0] + k
                    &&& forall|k: int|
                        0 <= k < found_pages@.len() ==> item_here(
                            #[trigger] self.pages@[found_pages@[0] + k],
                            *new_content,
                        )
                    &&& forall|j: int|
                        0 <= j < found_pages@[0] ==> item_after(
                            #[trigger] self.pages@[j],
                            *new_content,
                        )
                },
            ensures
                self.wf(),
                new_content.wf(),
                no <= self.pages@.len(),
                found_pages@.len() == 0 ==> forall|j: int|
                    0 <= j < no ==> item_after(#[trigger] self.pages@[j], *new_content),
                found_pages@.len() == 0 ==> (broke || no == self.pages@.len()),
                broke ==> found_pages@.len() > 0,
                found_pages@.len() > 0 ==> {
                    &&& found_pages@[0] + found_pages@.len() == no
                    &&& 0 <= found_pages@[0]
                    &&& no <= self.pages@.len()
                    &&& forall|k: int|
                        0 <= k < found_pages@.len() ==> #[trigger] found_pages@[k]
                            == found_pages@[0] + k
                    &&& forall|k: int|
                        0 <= k < found_pages@.len() ==> item_here(
                            #[trigger] self.pages@[found_pages@[0] + k],
                            *new_content,
                        )
                    &&& forall|j: int|
                        0 <= j < found_pages@[0] ==> item_after(
                            #[trigger] self.pages@[j],
                            *new_content,
                        )
                    &&& no < self.pages@.len() ==> new_content.spec_end() < self.pages@[no as int].page_id
                },
            decreases self.pages@.len() - no,
        {
            let page = &self.pages[no];
            let classified = page.is_my_page_to_merge(new_content);
            match classified {
                IsMyPageToAddResult::Before => {
                    if found_pages.len() == 0 {
                        return InsertToPagesAction::AtIndex(no);
                    }
                    proof {
                        broke = true;
                    }
                    break ;
                },
                IsMyPageToAddResult::Here => {
                    found_pages.push(no);
                },
                IsMyPageToAddResult::After => {
                    proof {
                        if found_pages@.len() > 0 {
                            // impossible: an interval wholly before the
                            // incoming run cannot follow one that overlaps it
                            let f0 = found_pages@[0];
                            let klast = found_pages@.len() - 1;
                            assert(item_here(self.pages@[f0 + klast], *new_content));
                            assert(f0 + klast == no - 1);
                            self.pages@[no as int].lemma_content_len();
                            assert(self.pages@[no - 1].spec_end() < self.pages@[
                                no as int
                            ].page_id);
                            assert(new_content.page_id > self.pages@[no as int].spec_end());
                            assert(false);
                        }
                    }
                },
            }
            no = no + 1;
        }
        if found_pages.len() == 0 {
            proof {
                assert(no == self.pages@.len());
            }
            return InsertToPagesAction::AtTheEnd;
        }
        if found_pages.len() == 1 {
            let i = found_pages[0];
            return InsertToPagesAction::MergeWithPage(i);
        }
        InsertToPagesAction::MergeWithPages(found_pages)
    }

    /// Places the incoming run alone at `page_index`, every interval
    /// before it lying wholly before the run and the one at `page_index`
    /// starting beyond its end.
    fn apply_at_index(&mut self, page_index: usize, new_item: PagesCacheItem)
        requires
            old(self).wf(),
            new_item.wf(),
            page_index < old(self).pages@.len(),
            new_item.spec_end() < old(self).pages@[page_index as int].page_id,
            forall|j: int|
                0 <= j < page_index ==> item_after(#[trigger] old(self).pages@[j], new_item),
        ensures
            final(self).wf(),
            forall|q: int|
                new_item.page_id <= q < new_item.page_id + new_item.spec_pages_amount()
                    ==> final(self).spec_covers(q) && final(self).spec_page_at(q) == seq_page_at(
                    new_item.content@,
                    new_item.page_id as int,
                    q,
                ),
            forall|q: int|
                final(self).spec_covers(q) ==> old(self).spec_covers(q) || (new_item.page_id <= q
                    < new_item.page_id + new_item.spec_pages_amount()),
            forall|q: int|
                old(self).spec_covers(q) && q < new_item.page_id ==> final(self).spec_covers(q)
                    && final(self).spec_page_at(q) == old(self).spec_page_at(q),
            forall|q: int|
                old(self).spec_covers(q) && q >= new_item.page_id + new_item.spec_pages_amount()
                    && old(self).pages@[old(self).spec_cover_index(q)].page_id >= new_item.page_id
                    ==> final(self).spec_covers(q) && final(self).spec_page_at(q) == old(self).spec_page_at(q),
    {
        let ghost ni = new_item;
        proof {
            ni.lemma_content_len();
        }
        let ghost page_no = new_item.page_id;

        self.pages.insert(page_index, new_item);
        proof {
            let pre = old(self).pages@;
            let post = self.pages@;
            let i = page_index as int;
            assert forall|a: int| 0 <= a < post.len() implies (#[trigger] post[a]).wf() by {
                if a < i {
                    assert(post[a] == pre[a]);
                } else if a == i {
                } else {
                    assert(post[a] == pre[a - 1]);
                }
            }
            assert forall|a: int| 0 <= a < post.len() - 1 implies (#[trigger] post[a]).spec_end()
                < post[a + 1].page_id by {
                if a + 1 < i {
                    assert(post[a] == pre[a] && post[a + 1] == pre[a + 1]);
                } else if a + 1 == i {
                    assert(post[a] == pre[a]);
                    assert(item_after(pre[a], ni));
                } else if a == i {
                    assert(post[a + 1] == pre[a]);
                } else {
                    assert(post[a] == pre[a - 1] && post[a + 1] == pre[a]);
                }
            }
            assert forall|q: int|
                page_no <= q < page_no + ni.spec_pages_amount() implies self.spec_covers(q)
                && self.spec_page_at(q) == seq_page_at(ni.content@, page_no as int, q) by {
                assert(post[i] == ni);
                assert(ni.spec_covers(q));
                self.lemma_page_at_index(i, q);
            }
            assert forall|q: int| self.spec_covers(q) implies old(self).spec_covers(q)
                || (page_no <= q < page_no + ni.spec_pages_amount()) by {
                let a = self.spec_cover_index(q);
                assert(post[a].spec_covers(q));
                if a < i {
                    assert(pre[a].spec_covers(q));
                } else if a > i {
                    assert(pre[a - 1].spec_covers(q));
                }
            }
            assert forall|q: int|
                old(self).spec_covers(q) && !ni.spec_covers(q) implies self.spec_covers(q)
                && self.spec_page_at(q) == old(self).spec_page_at(q) by {
                let b = old(self).spec_cover_index(q);
                assert(pre[b].spec_covers(q));
                old(self).lemma_page_at_index(b, q);
                if b < i {
                    assert(post[b] == pre[b]);
                    self.lemma_page_at_index(b, q);
                } else {
                    assert(post[b + 1] == pre[b]);
                    self.lemma_page_at_index(b + 1, q);
                }
            }
            assert forall|q: int|
                old(self).spec_covers(q) && q < new_item.page_id implies self.spec_covers(q)
                && self.spec_page_at(q) == old(self).spec_page_at(q) by {
                assert(!ni.spec_covers(q));
            }
            assert forall|q: int|
                old(self).spec_covers(q) && q >= new_item.page_id + new_item.spec_pages_amount()
                implies self.spec_covers(q) && self.spec_page_at(q) == old(self).spec_page_at(
                q,
            ) by {
                assert(!ni.spec_covers(q));
            }
        }
    }

    /// Appends the incoming run after every interval, all of them lying
    /// wholly before it.
    fn apply_at_the_end(&mut self, new_item: PagesCacheItem)
        requires
            old(self).wf(),
            new_item.wf(),
            forall|j: int|
                0 <= j < old(self).pages@.len() ==> item_after(
                    #[trigger] old(self).pages@[j],
                    new_item,
                ),
        ensures
            final(self).wf(),
            forall|q: int|
                new_item.page_id <= q < new_item.page_id + new_item.spec_pages_amount()
                    ==> final(self).spec_covers(q) && final(self).spec_page_at(q) == seq_page_at(
                    new_item.content@,
                    new_item.page_id as int,
                    q,
                ),
            forall|q: int|
                final(self).spec_covers(q) ==> old(self).spec_covers(q) || (new_item.page_id <= q
                    < new_item.page_id + new_item.spec_pages_amount()),
            forall|q: int|
                old(self).spec_covers(q) && q < new_item.page_id ==> final(self).spec_covers(q)
                    && final(self).spec_page_at(q) == old(self).spec_page_at(q),
            forall|q: int|
                old(self).spec_covers(q) && q >= new_item.page_id + new_item.spec_pages_amount()
                    && old(self).pages@[old(self).spec_cover_index(q)].page_id >= new_item.page_id
                    ==> final(self).spec_covers(q) && final(self).spec_page_at(q) == old(self).spec_page_at(q),
    {
        let ghost ni = new_item;
        proof {
            ni.lemma_content_len();
        }
        let ghost page_no = new_item.page_id;

        let ghost pre = self.pages@;
        self.pages.push(new_item);
        proof {
            let post = self.pages@;
            let i = pre.len() as int;
            assert forall|a: int| 0 <= a < post.len() implies (#[trigger] post[a]).wf() by {
                if a < i {
                    assert(post[a] == pre[a]);
                }
            }
            assert forall|a: int| 0 <= a < post.len() - 1 implies (#[trigger] post[a]).spec_end()
                < post[a + 1].page_id by {
                if a + 1 < i {
                    assert(post[a] == pre[a] && post[a + 1] == pre[a + 1]);
                } else {
                    assert(post[a] == pre[a]);
                    assert(item_after(pre[a], ni));
                    pre[a].lemma_content_len();
                }
            }
            assert forall|q: int|
                page_no <= q < page_no + ni.spec_pages_amount() implies self.spec_covers(q)
                && self.spec_page_at(q) == seq_page_at(ni.content@, page_no as int, q) by {
                assert(post[i] == ni);
                assert(ni.spec_covers(q));
                self.lemma_page_at_index(i, q);
            }
            assert forall|q: int| self.spec_covers(q) implies old(self).spec_covers(q)
                || (page_no <= q < page_no + ni.spec_pages_amount()) by {
                let a = self.spec_cover_index(q);
                assert(post[a].spec_covers(q));
                if a < i {
                    assert(pre[a].spec_covers(q));
                }
            }
            assert forall|q: int|
                old(self).spec_covers(q) && !ni.spec_covers(q) implies self.spec_covers(q)
                && self.spec_page_at(q) == old(self).spec_page_at(q) by {
                let b = old(self).spec_cover_index(q);
                assert(pre[b].spec_covers(q));
                old(self).lemma_page_at_index(b, q);
                assert(post[b] == pre[b]);
                self.lemma_page_at_index(b, q);
            }
            assert forall|q: int|
                old(self).spec_covers(q) && q < new_item.page_id implies self.spec_covers(q)
                && self.spec_page_at(q) == old(self).spec_page_at(q) by {
                assert(!ni.spec_covers(q));
            }
            assert forall|q: int|
                old(self).spec_covers(q) && q >= new_item.page_id + new_item.spec_pages_amount()
                implies self.spec_covers(q) && self.spec_page_at(q) == old(self).spec_page_at(
                q,
            ) by {
                assert(!ni.spec_covers(q));
            }
        }
    }

    /// Merges the incoming run into the single interval it overlaps or
    /// touches.
    fn apply_merge_with_page(&mut self, page_index: usize, new_item: PagesCacheItem)
        requires
            old(self).wf(),
            new_item.wf(),
            page_index < old(self).pages@.len(),
            item_here(old(self).pages@[page_index as int], new_item),
            forall|j: int|
                0 <= j < page_index ==> item_after(#[trigger] old(self).pages@[j], new_item),
            page_index + 1 < old(self).pages@.len() ==> new_item.spec_end() < old(self).pages@[page_index + 1].page_id,
        ensures
            final(self).wf(),
            forall|q: int|
                new_item.page_id <= q < new_item.page_id + new_item.spec_pages_amount()
                    ==> final(self).spec_covers(q) && final(self).spec_page_at(q) == seq_page_at(
                    new_item.content@,
                    new_item.page_id as int,
                    q,
                ),
            forall|q: int|
                final(self).spec_covers(q) ==> old(self).spec_covers(q) || (new_item.page_id <= q
                    < new_item.page_id + new_item.spec_pages_amount()),
            forall|q: int|
                old(self).spec_covers(q) && q < new_item.page_id ==> final(self).spec_covers(q)
                    && final(self).spec_page_at(q) == old(self).spec_page_at(q),
            forall|q: int|
                old(self).spec_covers(q) && q >= new_item.page_id + new_item.spec_pages_amount()
                    && old(self).pages@[old(self).spec_cover_index(q)].page_id >= new_item.page_id
                    ==> final(self).spec_covers(q) && final(self).spec_page_at(q) == old(self).spec_page_at(q),
    {
        let ghost ni = new_item;
        proof {
            ni.lemma_content_len();
        }
        let ghost page_no = new_item.page_id;

        let mut existing = self.pages.remove(page_index);
        let ghost ex = existing;
        proof {
            ex.lemma_content_len();
        }
        existing.merge(new_item);
        let ghost merged = existing;
        self.pages.insert(page_index, existing);
        proof {
            let pre = old(self).pages@;
            let post = self.pages@;
            let i = page_index as int;
            assert(post =~= pre.update(i, merged));
            assert forall|a: int| 0 <= a < post.len() implies (#[trigger] post[a]).wf() by {
                if a != i {
                    assert(post[a] == pre[a]);
                }
            }
            assert forall|a: int| 0 <= a < post.len() - 1 implies (#[trigger] post[a]).spec_end()
                < post[a + 1].page_id by {
                if a + 1 < i {
                    assert(post[a] == pre[a] && post[a + 1] == pre[a + 1]);
                } else if a + 1 == i {
                    assert(post[a] == pre[a]);
                    assert(item_after(pre[a], ni));
                    assert(merged.page_id == if ni.page_id <= ex.page_id {
                        ni.page_id as int
                    } else {
                        ex.page_id as int
                    });
                } else if a == i {
                    assert(post[a + 1] == pre[a + 1]);
                    assert(merged.spec_end() <= if ni.spec_end() >= ex.spec_end() {
                        ni.spec_end()
                    } else {
                        ex.spec_end()
                    });
                } else {
                    assert(post[a] == pre[a] && post[a + 1] == pre[a + 1]);
                }
            }
            assert forall|q: int|
                page_no <= q < page_no + ni.spec_pages_amount() implies self.spec_covers(q)
                && self.spec_page_at(q) == seq_page_at(ni.content@, page_no as int, q) by {
                assert(post[i] == merged);
                assert(ni.spec_covers(q));
                assert(merged.spec_covers(q) && merged.spec_page_content(q)
                    == ni.spec_page_content(q));
                self.lemma_page_at_index(i, q);
            }
            assert forall|q: int| self.spec_covers(q) implies old(self).spec_covers(q)
                || (page_no <= q < page_no + ni.spec_pages_amount()) by {
                let a = self.spec_cover_index(q);
                assert(post[a].spec_covers(q));
                if a == i {
                    assert(merged.spec_covers(q));
                    assert(ex.spec_covers(q) || ni.spec_covers(q));
                    if ex.spec_covers(q) {
                        assert(pre[i].spec_covers(q));
                    }
                } else {
                    assert(pre[a].spec_covers(q));
                }
            }
            assert forall|q: int|
                old(self).spec_covers(q) && q < page_no implies self.spec_covers(q)
                && self.spec_page_at(q) == old(self).spec_page_at(q) by {
                let b = old(self).spec_cover_index(q);
                assert(pre[b].spec_covers(q));
                old(self).lemma_page_at_index(b, q);
                if b == i {
                    assert(ex.spec_covers(q) && q < ni.page_id);
                    assert(merged.spec_covers(q) && merged.spec_page_content(q)
                        == ex.spec_page_content(q));
                    self.lemma_page_at_index(i, q);
                } else {
                    assert(post[b] == pre[b]);
                    self.lemma_page_at_index(b, q);
                }
            }
            assert forall|q: int|
                old(self).spec_covers(q) && q >= page_no + ni.spec_pages_amount() && old(self).pages@[old(self).spec_cover_index(q)].page_id >= page_no implies self.spec_covers(
                q,
            ) && self.spec_page_at(q) == old(self).spec_page_at(q) by {
                let b = old(self).spec_cover_index(q);
                assert(pre[b].spec_covers(q));
                old(self).lemma_page_at_index(b, q);
                if b == i {
                    assert(ex.page_id >= page_no);
                    assert(ni.page_id <= ex.page_id);
                    assert(q >= ni.spec_end());
                    assert(merged.spec_covers(q) && merged.spec_page_content(q)
                        == ex.spec_page_content(q));
                    self.lemma_page_at_index(i, q);
                } else {
                    assert(post[b] == pre[b]);
                    self.lemma_page_at_index(b, q);
                }
            }
        }
    }

    /// Merges the incoming run with the whole contiguous run of intervals
    /// it overlaps or touches.
    /// After a run merge, the interval set is sorted with gaps again: the
    /// merged interval starts after its left neighbour's end and ends
    /// before its right neighbour's start.
    #[verifier::rlimit(100)]
    proof fn lemma_run_merge_wf(
        prev: PagesCacheIntervals,
        cur: PagesCacheIntervals,
        merged: PagesCacheItem,
        ni: PagesCacheItem,
        s0: int,
        m: int,
    )
        requires
            prev.wf(),
            ni.wf(),
            merged.wf(),
            2 <= m,
            0 <= s0,
            s0 + m <= prev.pages@.len(),
            cur.pages@ == prev.pages@.subrange(0, s0) + seq![merged] + prev.pages@.subrange(
                s0 + m,
                prev.pages@.len() as int,
            ),
            forall|j: int| 0 <= j < s0 ==> item_after(#[trigger] prev.pages@[j], ni),
            s0 + m < prev.pages@.len() ==> ni.spec_end() < prev.pages@[s0 + m].page_id,
            merged.page_id <= ni.page_id,
            merged.spec_end() >= ni.spec_end(),
            forall|k: int|
                0 <= k < m ==> merged.page_id <= (#[trigger] prev.pages@[s0 + k]).page_id
                    && merged.spec_end() >= prev.pages@[s0 + k].spec_end(),
            merged.page_id == ni.page_id || exists|k: int|
                0 <= k < m && merged.page_id == (#[trigger] prev.pages@[s0 + k]).page_id,
            merged.spec_end() == ni.spec_end() || exists|k: int|
                0 <= k < m && merged.spec_end() == (#[trigger] prev.pages@[s0 + k]).spec_end(),
        ensures
            cur.wf(),
    {
        let pre = prev.pages@;
        let post = cur.pages@;
        assert forall|a: int| 0 <= a < post.len() implies (#[trigger] post[a]).wf() by {}
        assert forall|a: int| 0 <= a < post.len() - 1 implies (#[trigger] post[a]).spec_end()
            < post[a + 1].page_id by {
            if a + 1 < s0 {
            } else if a + 1 == s0 {
                assert(post[a] == pre[a]);
                assert(item_after(pre[a], ni));
                if merged.page_id != ni.page_id {
                    let k = choose|k: int|
                        0 <= k < m && merged.page_id == (#[trigger] pre[s0 + k]).page_id;
                    lemma_sorted_trans(pre, a, s0 + k);
                }
            } else if a == s0 {
                assert(post[a + 1] == pre[s0 + m]);
                if merged.spec_end() == ni.spec_end() {
                    assert(ni.spec_end() < pre[s0 + m].page_id);
                } else {
                    let k = choose|k: int|
                        0 <= k < m && merged.spec_end() == (#[trigger] pre[s0 + k]).spec_end();
                    lemma_sorted_trans(pre, s0 + k, s0 + m);
                }
            } else {
                assert(post[a] == pre[a + m - 1] && post[a + 1] == pre[a + m]);
            }
        }
    }

    /// A page of the merged span that the incoming run does not cover is
    /// covered by one of the merged intervals: nothing in the span comes
    /// from nowhere.
    proof fn lemma_run_merge_bridge(
        prev: PagesCacheIntervals,
        merged: PagesCacheItem,
        ni: PagesCacheItem,
        s0: int,
        m: int,
        q: int,
    )
        requires
            prev.wf(),
            ni.wf(),
            merged.wf(),
            2 <= m,
            0 <= s0,
            s0 + m <= prev.pages@.len(),
            forall|k: int| 0 <= k < m ==> item_here(#[trigger] prev.pages@[s0 + k], ni),
            merged.page_id <= ni.page_id,
            merged.spec_end() >= ni.spec_end(),
            forall|k: int|
                0 <= k < m ==> merged.page_id <= (#[trigger] prev.pages@[s0 + k]).page_id
                    && merged.spec_end() >= prev.pages@[s0 + k].spec_end(),
            merged.page_id == ni.page_id || exists|k: int|
                0 <= k < m && merged.page_id == (#[trigger] prev.pages@[s0 + k]).page_id,
            merged.spec_end() == ni.spec_end() || exists|k: int|
                0 <= k < m && merged.spec_end() == (#[trigger] prev.pages@[s0 + k]).spec_end(),
            merged.spec_covers(q),
            !ni.spec_covers(q),
        ensures
            exists|j: int| 0 <= j < m && (#[trigger] prev.pages@[s0 + j]).spec_covers(q),
    {
        let pre = prev.pages@;
        {
            pre[s0].lemma_content_len();
            pre[s0 + m - 1].lemma_content_len();
            ni.lemma_content_len();
            if q < pre[s0].page_id {
                // the merged interval then starts at the incoming run,
                // which would have to cover the page
                assert(merged.page_id == ni.page_id) by {
                    if merged.page_id != ni.page_id {
                        let k = choose|k: int|
                            0 <= k < m && merged.page_id == (#[trigger] pre[s0 + k]).page_id;
                        if k > 0 {
                            lemma_sorted_trans(pre, s0, s0 + k);
                            pre[s0 + k].lemma_content_len();
                        }
                    }
                }
                assert(ni.page_id <= q);
                assert(q >= ni.spec_end());
                assert(item_here(pre[s0], ni));
                assert(false);
            } else if q >= pre[s0 + m - 1].spec_end() {
                assert(merged.spec_end() == ni.spec_end()) by {
                    if merged.spec_end() != ni.spec_end() {
                        let k = choose|k: int|
                            0 <= k < m && merged.spec_end() == (#[trigger] pre[s0
                                + k]).spec_end();
                        if k < m - 1 {
                            lemma_sorted_trans(pre, s0 + k, s0 + m - 1);
                            pre[s0 + m - 1].lemma_content_len();
                        }
                    }
                }
                assert(q < ni.spec_end());
                assert(q < ni.page_id);
                assert(item_here(pre[s0 + m - 1], ni));
                assert(false);
            } else {
                lemma_run_bridges(pre, s0, m - 1, ni, q);
            }
        }
    }

    /// After a run merge, a page buffered before and not covered by the
    /// incoming run keeps its bytes, when it lies below the incoming run or
    /// its interval did not start below it.
    #[verifier::rlimit(100)]
    proof fn lemma_run_merge_preserves(
        prev: PagesCacheIntervals,
        cur: PagesCacheIntervals,
        merged: PagesCacheItem,
        ni: PagesCacheItem,
        s0: int,
        m: int,
        q: int,
    )
        requires
            prev.wf(),
            cur.wf(),
            ni.wf(),
            merged.wf(),
            2 <= m,
            0 <= s0,
            s0 + m <= prev.pages@.len(),
            cur.pages@ == prev.pages@.subrange(0, s0) + seq![merged] + prev.pages@.subrange(
                s0 + m,
                prev.pages@.len() as int,
            ),
            forall|j: int| 0 <= j < s0 ==> item_after(#[trigger] prev.pages@[j], ni),
            s0 + m < prev.pages@.len() ==> ni.spec_end() < prev.pages@[s0 + m].page_id,
            forall|qq: int, j: int|
                #![trigger prev.pages@[s0 + j].spec_covers(qq)]
                0 <= j < m && !ni.spec_covers(qq) && prev.pages@[s0 + j].spec_covers(qq)
                    ==> merged.spec_covers(qq) && merged.spec_page_content(qq) == prev.pages@[s0
                    + j].spec_page_content(qq),
            prev.spec_covers(q),
            !ni.spec_covers(q),
            q < ni.page_id || prev.pages@[prev.spec_cover_index(q)].page_id >= ni.page_id,
        ensures
            cur.spec_covers(q),
            cur.spec_page_at(q) == prev.spec_page_at(q),
    {
        let pre = prev.pages@;
        let post = cur.pages@;
        let b = prev.spec_cover_index(q);
        assert(pre[b].spec_covers(q));
        prev.lemma_page_at_index(b, q);
        if b < s0 {
            // classified wholly before the incoming run: only pages below
            // the written range
            assert(item_after(pre[b], ni));
            assert(post[b] == pre[b]);
            cur.lemma_page_at_index(b, q);
        } else if b < s0 + m {
            let j = b - s0;
            assert(prev.pages@[s0 + j].spec_covers(q));
            assert(merged.spec_covers(q) && merged.spec_page_content(q)
                == pre[b].spec_page_content(q));
            assert(post[s0] == merged);
            cur.lemma_page_at_index(s0, q);
        } else {
            // intervals after the run start beyond the incoming run's end
            assert(ni.spec_end() < pre[s0 + m].page_id);
            if b > s0 + m {
                lemma_sorted_trans(pre, s0 + m, b);
                pre[b].lemma_content_len();
            }
            assert(q >= pre[b].page_id);
            assert(q >= ni.spec_end());
            assert(post[b - m + 1] == pre[b]);
            cur.lemma_page_at_index(b - m + 1, q);
        }
    }

    /// After a whole run of intervals has been replaced by the single
    /// interval merging them with an incoming run: the set is well formed
    /// again, the incoming pages read back as written, nothing is buffered
    /// that was not buffered or just written, and the other buffered pages
    /// keep their bytes.
    #[verifier::rlimit(100)]
    proof fn lemma_after_run_merge(
        prev: PagesCacheIntervals,
        cur: PagesCacheIntervals,
        merged: PagesCacheItem,
        ni: PagesCacheItem,
        s0: int,
        m: int,
    )
        requires
            prev.wf(),
            ni.wf(),
            merged.wf(),
            2 <= m,
            0 <= s0,
            s0 + m <= prev.pages@.len(),
            cur.pages@ == prev.pages@.subrange(0, s0) + seq![merged] + prev.pages@.subrange(
                s0 + m,
                prev.pages@.len() as int,
            ),
            forall|k: int| 0 <= k < m ==> item_here(#[trigger] prev.pages@[s0 + k], ni),
            forall|j: int| 0 <= j < s0 ==> item_after(#[trigger] prev.pages@[j], ni),
            s0 + m < prev.pages@.len() ==> ni.spec_end() < prev.pages@[s0 + m].page_id,
            merged.page_id <= ni.page_id,
            merged.spec_end() >= ni.spec_end(),
            forall|k: int|
                0 <= k < m ==> merged.page_id <= (#[trigger] prev.pages@[s0 + k]).page_id
                    && merged.spec_end() >= prev.pages@[s0 + k].spec_end(),
            merged.page_id == ni.page_id || exists|k: int|
                0 <= k < m && merged.page_id == (#[trigger] prev.pages@[s0 + k]).page_id,
            merged.spec_end() == ni.spec_end() || exists|k: int|
                0 <= k < m && merged.spec_end() == (#[trigger] prev.pages@[s0 + k]).spec_end(),
            forall|q: int|
                ni.spec_covers(q) ==> merged.spec_covers(q) && merged.spec_page_content(q)
                    == ni.spec_page_content(q),
            forall|q: int, j: int|
                #![trigger prev.pages@[s0 + j].spec_covers(q)]
                0 <= j < m && !ni.spec_covers(q) && prev.pages@[s0 + j].spec_covers(q)
                    ==> merged.spec_covers(q) && merged.spec_page_content(q) == prev.pages@[s0
                    + j].spec_page_content(q),
        ensures
            cur.wf(),
            forall|q: int|
                ni.page_id <= q < ni.page_id + ni.spec_pages_amount() ==> cur.spec_covers(q)
                    && cur.spec_page_at(q) == ni.spec_page_content(q),
            forall|q: int|
                cur.spec_covers(q) ==> prev.spec_covers(q) || (ni.page_id <= q < ni.page_id
                    + ni.spec_pages_amount()),
            forall|q: int|
                prev.spec_covers(q) && q < ni.page_id ==> cur.spec_covers(q) && cur.spec_page_at(
                    q,
                ) == prev.spec_page_at(q),
            forall|q: int|
                prev.spec_covers(q) && q >= ni.page_id + ni.spec_pages_amount()
                    && prev.pages@[prev.spec_cover_index(q)].page_id >= ni.page_id
                    ==> cur.spec_covers(q) && cur.spec_page_at(q) == prev.spec_page_at(q),
    {
        let pre = prev.pages@;
        let post = cur.pages@;
        let n = pre.len() as int;
        let page_no = ni.page_id as int;
        assert(post.len() == n - m + 1);
        assert forall|a: int| 0 <= a < post.len() implies #[trigger] post[a] == (if a < s0 {
            pre[a]
        } else if a == s0 {
            merged
        } else {
            pre[a + m - 1]
        }) by {}
        Self::lemma_run_merge_wf(prev, cur, merged, ni, s0, m);
        assert forall|q: int|
            page_no <= q < page_no + ni.spec_pages_amount() implies cur.spec_covers(q)
            && cur.spec_page_at(q) == ni.spec_page_content(q) by {
            assert(post[s0] == merged);
            assert(ni.spec_covers(q));
            assert(merged.spec_covers(q));
            assert(merged.spec_page_content(q) == ni.spec_page_content(q));
            cur.lemma_page_at_index(s0, q);
        }
        assert forall|q: int| cur.spec_covers(q) implies prev.spec_covers(q) || (page_no <= q
            < page_no + ni.spec_pages_amount()) by {
            let a = cur.spec_cover_index(q);
            assert(post[a].spec_covers(q));
            if a < s0 {
                assert(pre[a].spec_covers(q));
            } else if a == s0 {
                if !ni.spec_covers(q) {
                    Self::lemma_run_merge_bridge(prev, merged, ni, s0, m, q);
                    let j = choose|j: int|
                        0 <= j < m && (#[trigger] pre[s0 + j]).spec_covers(q);
                    assert(pre[s0 + j].spec_covers(q));
                }
            } else {
                assert(pre[a + m - 1].spec_covers(q));
            }
        }
        assert forall|q: int|
            prev.spec_covers(q) && q < page_no implies cur.spec_covers(q) && cur.spec_page_at(q)
            == prev.spec_page_at(q) by {
            assert(!ni.spec_covers(q));
            Self::lemma_run_merge_preserves(prev, cur, merged, ni, s0, m, q);
        }
        assert forall|q: int|
            prev.spec_covers(q) && q >= page_no + ni.spec_pages_amount()
                && prev.pages@[prev.spec_cover_index(q)].page_id >= page_no implies cur.spec_covers(
            q,
        ) && cur.spec_page_at(q) == prev.spec_page_at(q) by {
            assert(!ni.spec_covers(q));
            Self::lemma_run_merge_preserves(prev, cur, merged, ni, s0, m, q);
        }
    }

    #[verifier::rlimit(100)]
    fn apply_merge_with_pages(&mut self, found_pages: Vec<usize>, new_item: PagesCacheItem)
        requires
            old(self).wf(),
            new_item.wf(),
            found_pages@.len() >= 2,
            0 <= found_pages@[0],
            found_pages@[0] + found_pages@.len() <= old(self).pages@.len(),
            forall|k: int|
                0 <= k < found_pages@.len() ==> #[trigger] found_pages@[k] == found_pages@[0] + k,
            forall|k: int|
                0 <= k < found_pages@.len() ==> item_here(
                    #[trigger] old(self).pages@[found_pages@[0] + k],
                    new_item,
                ),
            forall|j: int|
                0 <= j < found_pages@[0] ==> item_after(#[trigger] old(self).pages@[j], new_item),
            found_pages@[0] + found_pages@.len() < old(self).pages@.len()
                ==> new_item.spec_end() < old(self).pages@[found_pages@[0]
                + found_pages@.len()].page_id,
        ensures
            final(self).wf(),
            forall|q: int|
                new_item.page_id <= q < new_item.page_id + new_item.spec_pages_amount()
                    ==> final(self).spec_covers(q) && final(self).spec_page_at(q) == seq_page_at(
                    new_item.content@,
                    new_item.page_id as int,
                    q,
                ),
            forall|q: int|
                final(self).spec_covers(q) ==> old(self).spec_covers(q) || (new_item.page_id <= q
                    < new_item.page_id + new_item.spec_pages_amount()),
            forall|q: int|
                old(self).spec_covers(q) && q < new_item.page_id ==> final(self).spec_covers(q)
                    && final(self).spec_page_at(q) == old(self).spec_page_at(q),
            forall|q: int|
                old(self).spec_covers(q) && q >= new_item.page_id + new_item.spec_pages_amount()
                    && old(self).pages@[old(self).spec_cover_index(q)].page_id >= new_item.page_id
                    ==> final(self).spec_covers(q) && final(self).spec_page_at(q) == old(self).spec_page_at(q),
    {
        let ghost ni = new_item;
        proof {
            ni.lemma_content_len();
        }
        let ghost page_no = new_item.page_id;

        let start_index = found_pages[0];
        let run_len = found_pages.len();
        let ghost pre = self.pages@;
        let total = self.pages.len();
        let mut refs: Vec<&PagesCacheItem> = Vec::new();
        let mut t: usize = 0;
        while t < run_len
            invariant
                t <= run_len,
                start_index + run_len <= total,
                total == self.pages@.len(),
                self.pages@ == pre,
                refs@.len() == t,
                forall|k: int| 0 <= k < t ==> #[trigger] refs@[k] == pre[start_index + k],
            decreases run_len - t,
        {
            let r = &self.pages[start_index + t];
            refs.push(r);
            t = t + 1;
        }
        proof {
            assert forall|a: int, b: int| 0 <= a < b < refs@.len() implies (
            #[trigger] refs@[a]).spec_end() <= (#[trigger] refs@[b]).page_id by {
                lemma_sorted_trans(pre, start_index + a, start_index + b);
            }
        }
        let merged = merge_pages(refs.as_slice(), &new_item);
        proof {
            // restate the merge result's bounds and contents over
            // the interval sequence, so the references can go away
            let s0 = start_index as int;
            let m = run_len as int;
            assert(merged.page_id == ni.page_id || exists|k: int|
                0 <= k < m && merged.page_id == (#[trigger] pre[s0 + k]).page_id) by {
                if merged.page_id != ni.page_id {
                    let k = choose|k: int|
                        0 <= k < refs@.len() && merged.page_id == (
                        #[trigger] refs@[k]).page_id;
                    assert(merged.page_id == pre[s0 + k].page_id);
                }
            }
            assert(merged.spec_end() == ni.spec_end() || exists|k: int|
                0 <= k < m && merged.spec_end() == (#[trigger] pre[s0 + k]).spec_end())
                by {
                if merged.spec_end() != ni.spec_end() {
                    let k = choose|k: int|
                        0 <= k < refs@.len() && merged.spec_end() == (
                        #[trigger] refs@[k]).spec_end();
                    assert(merged.spec_end() == pre[s0 + k].spec_end());
                }
            }
            assert forall|q: int| ni.spec_covers(q) implies merged.spec_covers(q)
                && merged.spec_page_content(q) == ni.spec_page_content(q) by {
                assert(merged.spec_page_content(q) == spec_merged_page(refs@, ni, q));
            }
            assert forall|q: int, j: int|
                #![trigger pre[s0 + j].spec_covers(q)]
                0 <= j < m && !ni.spec_covers(q) && pre[s0 + j].spec_covers(
                    q,
                ) implies merged.spec_covers(q) && merged.spec_page_content(q) == pre[s0
                + j].spec_page_content(q) by {
                assert(refs@[j] == pre[s0 + j]);
                assert(refs@[j].spec_covers(q));
                assert(merged.page_id <= refs@[j].page_id);
                assert(merged.spec_end() >= refs@[j].spec_end());
                assert(merged.spec_covers(q));
                assert(merged.spec_page_content(q) == spec_merged_page(refs@, ni, q));
                let jj = choose|jj: int|
                    0 <= jj < refs@.len() && (#[trigger] refs@[jj]).spec_covers(q);
                assert(refs@[jj].spec_covers(q));
                if jj < j {
                    assert(refs@[jj].spec_end() <= refs@[j].page_id);
                    assert(false);
                } else if jj > j {
                    assert(refs@[j].spec_end() <= refs@[jj].page_id);
                    assert(false);
                }
            }
            assert forall|k: int| 0 <= k < m implies merged.page_id <= (#[trigger] pre[s0
                + k]).page_id && merged.spec_end() >= pre[s0 + k].spec_end() by {
                assert(refs@[k] == pre[s0 + k]);
            }
        }
        self.remove_pages(start_index, run_len);
        self.pages.insert(start_index, merged);
        proof {
            let s0 = start_index as int;
            let m = run_len as int;
            let n = pre.len() as int;
            assert(self.pages@ =~= pre.subrange(0, s0) + seq![merged] + pre.subrange(s0 + m, n));
            PagesCacheIntervals::lemma_after_run_merge(*old(self), *self, merged, ni, s0, m);
        }
    }

    /// Buffers an incoming run of pages.  Afterwards the interval set is
    /// again sorted with gaps between neighbours; every page of the
    /// incoming run reads back as the bytes just written, so a read on this
    /// handle observes the buffered write before any flush; pages buffered
    /// below the written range keep their bytes, and so do pages beyond it
    /// whose interval did not begin strictly inside the written range.
    pub fn update_pages(&mut self, page_no: usize, content: Vec<u8>)
        requires
            old(self).wf(),
            content.len() as int % BLOB_PAGE_SIZE as int == 0,
            content.len() > 0,
            (page_no + content.len() as int / BLOB_PAGE_SIZE as int) * BLOB_PAGE_SIZE as int
                <= usize::MAX,
        ensures
            final(self).wf(),
            forall|q: int|
                page_no <= q < page_no + content.len() as int / BLOB_PAGE_SIZE as int ==> final(self).spec_covers(q) && final(self).spec_page_at(q) == seq_page_at(
                    content@,
                    page_no as int,
                    q,
                ),
            // no page is buffered that was not buffered or just written
            forall|q: int|
                final(self).spec_covers(q) ==> old(self).spec_covers(q) || (page_no <= q
                    < page_no + content.len() as int / BLOB_PAGE_SIZE as int),
            // buffered pages below the written range keep their bytes
            forall|q: int|
                old(self).spec_covers(q) && q < page_no ==> final(self).spec_covers(q) && final(self).spec_page_at(q) == old(self).spec_page_at(q),
            // buffered pages beyond the written range keep their bytes,
            // except those of an interval the write began strictly inside
            forall|q: int|
                old(self).spec_covers(q) && q >= page_no + content.len() as int
                    / BLOB_PAGE_SIZE as int && old(self).pages@[old(self).spec_cover_index(
                    q,
                )].page_id >= page_no ==> final(self).spec_covers(q) && final(self).spec_page_at(q) == old(self).spec_page_at(q),
    {
        let new_item = PagesCacheItem::new(page_no, content);
        let action = self.get_page_index_to_merge(&new_item);
        match action {
            InsertToPagesAction::AtIndex(page_index) => {
                self.apply_at_index(page_index, new_item);
            },
            InsertToPagesAction::AtTheEnd => {
                self.apply_at_the_end(new_item);
            },
            InsertToPagesAction::MergeWithPage(page_index) => {
                self.apply_merge_with_page(page_index, new_item);
            },
            InsertToPagesAction::MergeWithPages(found_pages) => {
                self.apply_merge_with_pages(found_pages, new_item);
            },
        }
    }

    /// The buffered bytes of page `page_id`, from whichever interval covers
    /// it.
    pub fn get_page(&self, page_id: usize) -> (r: Option<&[u8]>)
        requires
            self.wf(),
        ensures
            r is Some <==> self.spec_covers(page_id as int),
            r matches Some(s) ==> s@ == self.spec_page_at(page_id as int),
    {
        let mut i: usize = 0;
        while i < self.pages.len()
            invariant
                self.wf(),
                i <= self.pages@.len(),
                forall|j: int|
                    0 <= j < i ==> !(#[trigger] self.pages@[j]).spec_covers(page_id as int),
            decreases self.pages@.len() - i,
        {
            match self.pages[i].get_content(page_id) {
                Some(page_content) => {
                    proof {
                        self.lemma_page_at_index(i as int, page_id as int);
                    }
                    return Some(page_content);
                },
                None => {},
            }
            i = i + 1;
        }
        None
    }
}

} // verus!
