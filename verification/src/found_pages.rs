//! Assembling a page-range read from mixed sources: pages found in the
//! pending-write buffer or the cache are added as hits, unknown pages as
//! misses.  Consecutive misses coalesce into maximal intervals, so the
//! caller issues one remote fetch per missing run — or a single fetch
//! spanning them all — and then reads the assembled bytes back out.

use vstd::prelude::*;

use crate::BLOB_PAGE_SIZE;
use crate::bytes::copy_range;
use crate::bytes::extend_bytes;

verus! {

/// A maximal run of pages that were not found and must be fetched.
pub struct MissingInterval {
    pub from_page_no: usize,
    pub amount: usize,
}

/// Whether the intervals in `s` are sound for a scan that has filled page
/// slots up to (but excluding) page `extent`: nonempty, in range, sorted,
/// and separated by at least one found page.
pub open spec fn missing_intervals_ok(s: Seq<MissingInterval>, start: int, extent: int) -> bool {
    &&& forall|i: int| 0 <= i < s.len() ==> (#[trigger] s[i]).amount >= 1
    &&& forall|i: int| 0 <= i < s.len() ==> (#[trigger] s[i]).from_page_no >= start
    &&& forall|i: int|
        0 <= i < s.len() ==> (#[trigger] s[i]).from_page_no + s[i].amount <= extent
    &&& forall|i: int|
        0 <= i < s.len() - 1 ==> (#[trigger] s[i]).from_page_no + s[i].amount < s[i
            + 1].from_page_no
}

/// Whether some interval in `s` reports page `p` as missing.
pub open spec fn missing_at(s: Seq<MissingInterval>, p: int) -> bool {
    exists|i: int|
        0 <= i < s.len() && (#[trigger] s[i]).from_page_no <= p < s[i].from_page_no + s[i].amount
}

/// A page-range read in progress: one slot per page of the requested range,
/// filled for pages that were found, empty for pages still to be fetched,
/// with the empty runs tracked as `missing_intervals`.
pub struct FoundPages {
    pub pages: Vec<Option<Vec<u8>>>,
    pub start_page_no: usize,
    pub missing_intervals: Vec<MissingInterval>,
}

impl FoundPages {
    /// The intervals report exactly the empty slots, every filled slot
    /// holds one page of bytes, and page numbers stay in machine range.
    pub open spec fn wf(self) -> bool {
        &&& missing_intervals_ok(
            self.missing_intervals@,
            self.start_page_no as int,
            self.start_page_no + self.pages@.len(),
        )
        &&& forall|k: int|
            0 <= k < self.pages@.len() ==> ((#[trigger] self.pages@[k]) is None <==> missing_at(
                self.missing_intervals@,
                self.start_page_no + k,
            ))
        &&& forall|k: int|
            0 <= k < self.pages@.len() ==> ((#[trigger] self.pages@[k]) matches Some(v)
                ==> v.len() == BLOB_PAGE_SIZE)
        &&& self.start_page_no + self.pages@.len() <= usize::MAX
    }

    pub fn new(start_page_no: usize, max_pages_amount: usize) -> (r: Self)
        ensures
            r.wf(),
            r.start_page_no == start_page_no,
            r.pages@.len() == 0,
            r.missing_intervals@.len() == 0,
    {
        Self {
            pages: Vec::with_capacity(max_pages_amount),
            start_page_no,
            missing_intervals: Vec::new(),
        }
    }

    /// Records the next scanned page — the one a following push would fill —
    /// as missing: the last interval grows by one page when it reaches it,
    /// otherwise a fresh one-page interval starts.
    pub fn add_missing_interval(&mut self)
        requires
            old(self).wf(),
            old(self).start_page_no + old(self).pages@.len() < usize::MAX,
        ensures
            final(self).pages == old(self).pages,
            final(self).start_page_no == old(self).start_page_no,
            missing_intervals_ok(
                final(self).missing_intervals@,
                final(self).start_page_no as int,
                final(self).start_page_no + final(self).pages@.len() + 1,
            ),
            forall|p: int|
                missing_at(final(self).missing_intervals@, p) <==> (missing_at(
                    old(self).missing_intervals@,
                    p,
                ) || p == old(self).start_page_no + old(self).pages@.len()),
    {
        let next_page: usize = self.start_page_no + self.pages.len();
        let n = self.missing_intervals.len();
        if n > 0 {
            let last_from = self.missing_intervals[n - 1].from_page_no;
            let last_amount = self.missing_intervals[n - 1].amount;
            if last_from + last_amount == next_page {
                let ghost pre = self.missing_intervals@;
                match self.missing_intervals.pop() {
                    Some(_) => {},
                    None => {},
                }
                self.missing_intervals.push(
                    MissingInterval { from_page_no: last_from, amount: last_amount + 1 },
                );
                proof {
                    let post = self.missing_intervals@;
                    assert(post.len() == pre.len());
                    assert(forall|i: int| 0 <= i < pre.len() - 1 ==> post[i] == pre[i]);
                    assert forall|p: int|
                        missing_at(post, p) <==> (missing_at(pre, p) || p
                            == next_page) by {
                        if missing_at(pre, p) {
                            let i = choose|i: int|
                                0 <= i < pre.len() && (#[trigger] pre[i]).from_page_no <= p < pre[
                                    i
                                ].from_page_no + pre[i].amount;
                            assert(post[i].from_page_no <= p < post[i].from_page_no
                                + post[i].amount);
                        }
                        if p == next_page {
                            let i = pre.len() - 1;
                            assert(post[i].from_page_no <= p < post[i].from_page_no
                                + post[i].amount);
                        }
                        if missing_at(post, p) {
                            let i = choose|i: int|
                                0 <= i < post.len() && (#[trigger] post[i]).from_page_no <= p
                                    < post[i].from_page_no + post[i].amount;
                            if i < post.len() - 1 {
                                assert(pre[i].from_page_no <= p < pre[i].from_page_no
                                    + pre[i].amount);
                            } else {
                                if p != next_page {
                                    assert(pre[i].from_page_no <= p < pre[i].from_page_no
                                        + pre[i].amount);
                                }
                            }
                        }
                    }
                }
                return ;
            }
        }
        let ghost pre = self.missing_intervals@;
        self.missing_intervals.push(MissingInterval { from_page_no: next_page, amount: 1 });
        proof {
            let post = self.missing_intervals@;
            assert forall|p: int|
                missing_at(post, p) <==> (missing_at(pre, p) || p == next_page) by {
                if missing_at(pre, p) {
                    let i = choose|i: int|
                        0 <= i < pre.len() && (#[trigger] pre[i]).from_page_no <= p < pre[
                            i
                        ].from_page_no + pre[i].amount;
                    assert(post[i].from_page_no <= p < post[i].from_page_no + post[i].amount);
                }
                if p == next_page {
                    let i = post.len() - 1;
                    assert(post[i].from_page_no <= p < post[i].from_page_no + post[i].amount);
                }
                if missing_at(post, p) {
                    let i = choose|i: int|
                        0 <= i < post.len() && (#[trigger] post[i]).from_page_no <= p < post[
                            i
                        ].from_page_no + post[i].amount;
                    if i < post.len() - 1 {
                        assert(pre[i].from_page_no <= p < pre[i].from_page_no + pre[i].amount);
                    }
                }
            }
        }
    }

    /// Appends the next page of the requested range: the bytes that were
    /// found for it, or `None` to record it as missing.
    pub fn add(&mut self, page: Option<Vec<u8>>)
        requires
            old(self).wf(),
            old(self).start_page_no + old(self).pages@.len() < usize::MAX,
            (page matches Some(v) ==> v.len() == BLOB_PAGE_SIZE),
        ensures
            final(self).wf(),
            final(self).start_page_no == old(self).start_page_no,
            final(self).pages@ == old(self).pages@.push(page),
            forall|p: int|
                missing_at(final(self).missing_intervals@, p) <==> (missing_at(
                    old(self).missing_intervals@,
                    p,
                ) || (page is None && p == old(self).start_page_no + old(self).pages@.len())),
    {
        if page.is_none() {
            self.add_missing_interval();
        }
        self.pages.push(page);
    }

    /// One interval spanning every missing page, from the first missing
    /// page to the last: the single fetch that fills them all.
    pub fn get_pages_to_upload(&self) -> (r: Option<MissingInterval>)
        requires
            self.wf(),
        ensures
            r is Some <==> self.missing_intervals@.len() > 0,
            r matches Some(mi) ==> {
                &&& mi.from_page_no == self.missing_intervals@[0].from_page_no
                &&& mi.from_page_no + mi.amount == self.missing_intervals@[
                    self.missing_intervals@.len() - 1
                ].from_page_no + self.missing_intervals@[
                    self.missing_intervals@.len() - 1
                ].amount
            },
    {
        if self.missing_intervals.len() == 0 {
            return None;
        }
        let start_page = self.missing_intervals[0].from_page_no;
        let n = self.missing_intervals.len();
        let last_from = self.missing_intervals[n - 1].from_page_no;
        let last_amount = self.missing_intervals[n - 1].amount;
        let last_page = last_from + last_amount;
        proof {
            if n > 1 {
                lemma_missing_sorted(self.missing_intervals@, 0, n - 1);
            }
        }
        Some(MissingInterval { from_page_no: start_page, amount: last_page - start_page })
    }

    /// Fills every missing slot from `payload`, which holds the pages of
    /// the single spanning fetch: the bytes for page `p` sit at offset
    /// `(p - first missing page) * BLOB_PAGE_SIZE`.
    pub fn upload_missing_pages(&mut self, payload: &[u8])
        requires
            old(self).wf(),
            old(self).missing_intervals@.len() > 0,
            ({
                let s = old(self).missing_intervals@;
                (s[s.len() - 1].from_page_no + s[s.len() - 1].amount - s[0].from_page_no)
                    * BLOB_PAGE_SIZE as int <= payload.len()
            }),
        ensures
            final(self).start_page_no == old(self).start_page_no,
            final(self).missing_intervals == old(self).missing_intervals,
            final(self).pages@.len() == old(self).pages@.len(),
            forall|k: int|
                0 <= k < old(self).pages@.len() && (#[trigger] old(self).pages@[k]) is Some
                    ==> final(self).pages@[k] == old(self).pages@[k],
            forall|k: int|
                0 <= k < old(self).pages@.len() && (#[trigger] old(self).pages@[k]) is None
                    ==> (final(self).pages@[k] matches Some(v) && v@ == payload@.subrange(
                    (old(self).start_page_no + k - old(
                        self,
                    ).missing_intervals@[0].from_page_no) * BLOB_PAGE_SIZE as int,
                    (old(self).start_page_no + k - old(
                        self,
                    ).missing_intervals@[0].from_page_no) * BLOB_PAGE_SIZE as int
                        + BLOB_PAGE_SIZE as int,
                )),
    {
        let first_from = self.missing_intervals[0].from_page_no;
        let mut i: usize = 0;
        while i < self.missing_intervals.len()
            invariant
                old(self).wf(),
                i <= self.missing_intervals@.len(),
                self.missing_intervals == old(self).missing_intervals,
                self.start_page_no == old(self).start_page_no,
                self.missing_intervals@.len() > 0,
                first_from == self.missing_intervals@[0].from_page_no,
                ({
                    let s = old(self).missing_intervals@;
                    (s[s.len() - 1].from_page_no + s[s.len() - 1].amount - s[0].from_page_no)
                        * BLOB_PAGE_SIZE as int <= payload.len()
                }),
                self.pages@.len() == old(self).pages@.len(),
                forall|k: int|
                    0 <= k < old(self).pages@.len() && (#[trigger] old(self).pages@[k]) is Some
                        ==> self.pages@[k] == old(self).pages@[k],
                // slots of intervals before `i` are filled with their chunk
                forall|k: int|
                    0 <= k < old(self).pages@.len() && (#[trigger] old(self).pages@[k]) is None
                        && (exists|j: int|
                        0 <= j < i && (#[trigger] old(self).missing_intervals@[j]).from_page_no
                            <= old(self).start_page_no + k < old(
                            self,
                        ).missing_intervals@[j].from_page_no + old(
                            self,
                        ).missing_intervals@[j].amount) ==> (self.pages@[k] matches Some(v) && v@
                        == payload@.subrange(
                        (old(self).start_page_no + k - first_from) * BLOB_PAGE_SIZE as int,
                        (old(self).start_page_no + k - first_from) * BLOB_PAGE_SIZE as int
                            + BLOB_PAGE_SIZE as int,
                    )),
                // untouched slots keep their value
                forall|k: int|
                    0 <= k < old(self).pages@.len() && (#[trigger] old(self).pages@[k]) is None
                        && !(exists|j: int|
                        0 <= j < i && (#[trigger] old(self).missing_intervals@[j]).from_page_no
                            <= old(self).start_page_no + k < old(
                            self,
                        ).missing_intervals@[j].from_page_no + old(
                            self,
                        ).missing_intervals@[j].amount) ==> self.pages@[k] == old(self).pages@[k],
            decreases self.missing_intervals@.len() - i,
        {
            let from = self.missing_intervals[i].from_page_no;
            let amount = self.missing_intervals[i].amount;
            proof {
                lemma_missing_interval_bounds(old(self).missing_intervals@, i as int, payload@.len() as int);
            }
            let mut j: usize = 0;
            while j < amount
                invariant
                    old(self).wf(),
                    i < self.missing_intervals@.len(),
                    j <= amount,
                    self.missing_intervals == old(self).missing_intervals,
                    self.start_page_no == old(self).start_page_no,
                    first_from == self.missing_intervals@[0].from_page_no,
                    from == self.missing_intervals@[i as int].from_page_no,
                    amount == self.missing_intervals@[i as int].amount,
                    (from + amount - first_from) * BLOB_PAGE_SIZE as int <= payload.len(),
                    from >= first_from,
                    first_from <= from,
                    self.pages@.len() == old(self).pages@.len(),
                    forall|k: int|
                        0 <= k < old(self).pages@.len() && (#[trigger] old(
                            self,
                        ).pages@[k]) is Some ==> self.pages@[k] == old(self).pages@[k],
                    forall|k: int|
                        0 <= k < old(self).pages@.len() && (#[trigger] old(
                            self,
                        ).pages@[k]) is None && ((exists|jj: int|
                            0 <= jj < i && (#[trigger] old(
                                self,
                            ).missing_intervals@[jj]).from_page_no <= old(self).start_page_no + k
                                < old(self).missing_intervals@[jj].from_page_no + old(
                                self,
                            ).missing_intervals@[jj].amount) || (from <= old(self).start_page_no
                            + k < from + j)) ==> (self.pages@[k] matches Some(v) && v@
                            == payload@.subrange(
                            (old(self).start_page_no + k - first_from) * BLOB_PAGE_SIZE as int,
                            (old(self).start_page_no + k - first_from) * BLOB_PAGE_SIZE as int
                                + BLOB_PAGE_SIZE as int,
                        )),
                    forall|k: int|
                        0 <= k < old(self).pages@.len() && (#[trigger] old(
                            self,
                        ).pages@[k]) is None && !((exists|jj: int|
                            0 <= jj < i && (#[trigger] old(
                                self,
                            ).missing_intervals@[jj]).from_page_no <= old(self).start_page_no + k
                                < old(self).missing_intervals@[jj].from_page_no + old(
                                self,
                            ).missing_intervals@[jj].amount) || (from <= old(self).start_page_no
                            + k < from + j)) ==> self.pages@[k] == old(self).pages@[k],
                decreases amount - j,
            {
                proof {
                    lemma_missing_slot_in_range(old(self).missing_intervals@, i as int, j as int, *old(self));
                    assert((from - first_from + j) * BLOB_PAGE_SIZE as int + BLOB_PAGE_SIZE as int
                        <= (from + amount - first_from) * BLOB_PAGE_SIZE as int)
                        by (nonlinear_arith)
                        requires
                            j + 1 <= amount,
                            BLOB_PAGE_SIZE as int >= 1,
                    ;
                    assert((from - first_from + j) * BLOB_PAGE_SIZE as int >= 0)
                        by (nonlinear_arith)
                        requires
                            from >= first_from,
                            j >= 0,
                            BLOB_PAGE_SIZE as int >= 1,
                    ;
                }
                let offset = (from - first_from + j) * BLOB_PAGE_SIZE;
                let chunk = copy_range(payload, offset, BLOB_PAGE_SIZE);
                let slot: usize = from - self.start_page_no + j;
                let ghost slot_g = slot as int;
                proof {
                    assert(old(self).pages@[slot_g] is None);
                }
                self.pages.set(slot, Some(chunk));
                j = j + 1;
                proof {
                    assert((from - first_from + (j - 1)) * BLOB_PAGE_SIZE as int == (old(
                        self,
                    ).start_page_no + slot_g - first_from) * BLOB_PAGE_SIZE as int);
                }
            }
            i = i + 1;
        }
        proof {
            assert forall|k: int|
                0 <= k < old(self).pages@.len() && (#[trigger] old(self).pages@[k]) is None
                implies (self.pages@[k] matches Some(v) && v@ == payload@.subrange(
                (old(self).start_page_no + k - old(
                    self,
                ).missing_intervals@[0].from_page_no) * BLOB_PAGE_SIZE as int,
                (old(self).start_page_no + k - old(
                    self,
                ).missing_intervals@[0].from_page_no) * BLOB_PAGE_SIZE as int
                    + BLOB_PAGE_SIZE as int,
            )) by {
                assert(missing_at(old(self).missing_intervals@, old(self).start_page_no + k));
                let jj = choose|jj: int|
                    0 <= jj < old(self).missing_intervals@.len() && (#[trigger] old(
                        self,
                    ).missing_intervals@[jj]).from_page_no <= old(self).start_page_no + k < old(
                        self,
                    ).missing_intervals@[jj].from_page_no + old(
                        self,
                    ).missing_intervals@[jj].amount;
            }
        }
    }

    /// Fills the slots of one missing interval from `payload`, which holds
    /// that run's pages: the bytes for the run's first page sit at the
    /// payload's start, and so on.  Used when each missing run is fetched
    /// by its own remote call.
    pub fn fill_interval(&mut self, interval_index: usize, payload: &[u8])
        requires
            missing_intervals_ok(
                old(self).missing_intervals@,
                old(self).start_page_no as int,
                old(self).start_page_no + old(self).pages@.len(),
            ),
            interval_index < old(self).missing_intervals@.len(),
            payload.len() >= old(self).missing_intervals@[interval_index as int].amount
                * BLOB_PAGE_SIZE as int,
        ensures
            final(self).start_page_no == old(self).start_page_no,
            final(self).missing_intervals == old(self).missing_intervals,
            final(self).pages@.len() == old(self).pages@.len(),
            forall|k: int|
                ({
                    let base = old(self).missing_intervals@[interval_index as int].from_page_no
                        - old(self).start_page_no;
                    base <= k < base + old(self).missing_intervals@[interval_index as int].amount
                        ==> ((#[trigger] final(self).pages@[k]) matches Some(v) && v@
                        == payload@.subrange(
                        (k - base) * BLOB_PAGE_SIZE as int,
                        (k - base) * BLOB_PAGE_SIZE as int + BLOB_PAGE_SIZE as int,
                    ))
                }),
            forall|k: int|
                ({
                    let base = old(self).missing_intervals@[interval_index as int].from_page_no
                        - old(self).start_page_no;
                    0 <= k < old(self).pages@.len() && !(base <= k < base + old(self).missing_intervals@[interval_index as int].amount) ==> #[trigger] final(self).pages@[k]
                        == old(self).pages@[k]
                }),
    {
        let from = self.missing_intervals[interval_index].from_page_no;
        let amount = self.missing_intervals[interval_index].amount;
        proof {
            assert(self.missing_intervals@[interval_index as int].from_page_no
                >= self.start_page_no);
            assert(self.missing_intervals@[interval_index as int].from_page_no
                + self.missing_intervals@[interval_index as int].amount <= self.start_page_no
                + self.pages@.len());
        }
        let ghost base = from - self.start_page_no;
        let total = self.pages.len();
        let mut j: usize = 0;
        while j < amount
            invariant
                j <= amount,
                total == old(self).pages@.len(),
                interval_index < old(self).missing_intervals@.len(),
                from == old(self).missing_intervals@[interval_index as int].from_page_no,
                amount == old(self).missing_intervals@[interval_index as int].amount,
                base == from - old(self).start_page_no,
                from >= old(self).start_page_no,
                from + amount <= old(self).start_page_no + old(self).pages@.len(),
                payload.len() >= amount * BLOB_PAGE_SIZE as int,
                self.start_page_no == old(self).start_page_no,
                self.missing_intervals == old(self).missing_intervals,
                self.pages@.len() == old(self).pages@.len(),
                forall|k: int|
                    base <= k < base + j ==> ((#[trigger] self.pages@[k]) matches Some(v) && v@
                        == payload@.subrange(
                        (k - base) * BLOB_PAGE_SIZE as int,
                        (k - base) * BLOB_PAGE_SIZE as int + BLOB_PAGE_SIZE as int,
                    )),
                forall|k: int|
                    0 <= k < old(self).pages@.len() && !(base <= k < base + j)
                        ==> #[trigger] self.pages@[k] == old(self).pages@[k],
            decreases amount - j,
        {
            proof {
                assert((j + 1) * BLOB_PAGE_SIZE as int == j * BLOB_PAGE_SIZE as int
                    + BLOB_PAGE_SIZE as int) by (nonlinear_arith);
                assert((j + 1) * BLOB_PAGE_SIZE as int <= amount * BLOB_PAGE_SIZE as int)
                    by (nonlinear_arith)
                    requires
                        j + 1 <= amount,
                        BLOB_PAGE_SIZE as int >= 1,
                ;
                assert(j * BLOB_PAGE_SIZE as int >= 0) by (nonlinear_arith)
                    requires
                        j >= 0,
                        BLOB_PAGE_SIZE as int >= 1,
                ;
            }
            let chunk = copy_range(payload, j * BLOB_PAGE_SIZE, BLOB_PAGE_SIZE);
            let slot: usize = from - self.start_page_no + j;
            self.pages.set(slot, Some(chunk));
            proof {
                assert(slot == base + j);
                assert((slot - base) * BLOB_PAGE_SIZE as int == j * BLOB_PAGE_SIZE as int);
            }
            j = j + 1;
        }
    }

    /// The assembled bytes of the whole requested range, every slot filled.
    pub fn into_vec(&self) -> (r: Vec<u8>)
        requires
            forall|k: int| 0 <= k < self.pages@.len() ==> (#[trigger] self.pages@[k]) is Some,
            forall|k: int|
                0 <= k < self.pages@.len() ==> ((#[trigger] self.pages@[k]) matches Some(v)
                    ==> v.len() == BLOB_PAGE_SIZE),
            self.pages@.len() * BLOB_PAGE_SIZE as int <= usize::MAX,
        ensures
            r@.len() == self.pages@.len() * BLOB_PAGE_SIZE as int,
            forall|k: int|
                0 <= k < self.pages@.len() ==> ((#[trigger] self.pages@[k]) matches Some(v) && r@
                    .subrange(
                    k * BLOB_PAGE_SIZE as int,
                    k * BLOB_PAGE_SIZE as int + BLOB_PAGE_SIZE as int,
                ) == v@),
    {
        let mut result: Vec<u8> = Vec::new();
        let mut k: usize = 0;
        while k < self.pages.len()
            invariant
                k <= self.pages@.len(),
                forall|t: int| 0 <= t < self.pages@.len() ==> (#[trigger] self.pages@[t]) is Some,
                forall|t: int|
                    0 <= t < self.pages@.len() ==> ((#[trigger] self.pages@[t]) matches Some(v)
                        ==> v.len() == BLOB_PAGE_SIZE),
                self.pages@.len() * BLOB_PAGE_SIZE as int <= usize::MAX,
                result@.len() == k * BLOB_PAGE_SIZE as int,
                forall|t: int|
                    0 <= t < k ==> ((#[trigger] self.pages@[t]) matches Some(v) && result@
                        .subrange(
                        t * BLOB_PAGE_SIZE as int,
                        t * BLOB_PAGE_SIZE as int + BLOB_PAGE_SIZE as int,
                    ) == v@),
            decreases self.pages@.len() - k,
        {
            proof {
                assert((k + 1) * BLOB_PAGE_SIZE as int == k * BLOB_PAGE_SIZE as int
                    + BLOB_PAGE_SIZE as int) by (nonlinear_arith);
                assert((k + 1) * BLOB_PAGE_SIZE as int <= self.pages@.len()
                    * BLOB_PAGE_SIZE as int) by (nonlinear_arith)
                    requires
                        k + 1 <= self.pages@.len(),
                        BLOB_PAGE_SIZE as int >= 1,
                ;
            }
            let ghost before = result@;
            match &self.pages[k] {
                Some(v) => {
                    extend_bytes(&mut result, v.as_slice());
                },
                None => {
                    proof {
                        assert(false);
                    }
                },
            }
            k = k + 1;
            proof {
                assert forall|t: int|
                    0 <= t < k implies ((#[trigger] self.pages@[t]) matches Some(v) && result@
                    .subrange(
                    t * BLOB_PAGE_SIZE as int,
                    t * BLOB_PAGE_SIZE as int + BLOB_PAGE_SIZE as int,
                ) == v@) by {
                    if t < k - 1 {
                        assert(result@.subrange(
                            t * BLOB_PAGE_SIZE as int,
                            t * BLOB_PAGE_SIZE as int + BLOB_PAGE_SIZE as int,
                        ) =~= before.subrange(
                            t * BLOB_PAGE_SIZE as int,
                            t * BLOB_PAGE_SIZE as int + BLOB_PAGE_SIZE as int,
                        )) by {
                            assert(t * BLOB_PAGE_SIZE as int >= 0) by (nonlinear_arith)
                                requires
                                    t >= 0,
                                    BLOB_PAGE_SIZE as int >= 1,
                            ;
                            assert(t * BLOB_PAGE_SIZE as int + BLOB_PAGE_SIZE as int <= (k - 1)
                                * BLOB_PAGE_SIZE as int) by (nonlinear_arith)
                                requires
                                    t + 1 <= k - 1,
                                    BLOB_PAGE_SIZE as int >= 1,
                            ;
                        }
                    } else {
                        assert(result@.subrange(
                            t * BLOB_PAGE_SIZE as int,
                            t * BLOB_PAGE_SIZE as int + BLOB_PAGE_SIZE as int,
                        ) =~= result@.subrange(
                            before.len() as int,
                            result@.len() as int,
                        ));
                    }
                }
            }
        }
        result
    }
}

/// In a sound interval list, an earlier interval ends before a later one
/// starts.
proof fn lemma_missing_sorted(s: Seq<MissingInterval>, i: int, j: int)
    requires
        forall|t: int| 0 <= t < s.len() ==> (#[trigger] s[t]).amount >= 1,
        forall|t: int|
            0 <= t < s.len() - 1 ==> (#[trigger] s[t]).from_page_no + s[t].amount < s[t
                + 1].from_page_no,
        0 <= i < j < s.len(),
    ensures
        s[i].from_page_no + s[i].amount <= s[j].from_page_no,
        s[i].from_page_no < s[j].from_page_no,
    decreases j - i,
{
    if j == i + 1 {
    } else {
        lemma_missing_sorted(s, i, j - 1);
    }
}

/// Every interval's chunk lies within the spanning payload.
proof fn lemma_missing_interval_bounds(s: Seq<MissingInterval>, i: int, payload_len: int)
    requires
        forall|t: int| 0 <= t < s.len() ==> (#[trigger] s[t]).amount >= 1,
        forall|t: int|
            0 <= t < s.len() - 1 ==> (#[trigger] s[t]).from_page_no + s[t].amount < s[t
                + 1].from_page_no,
        s.len() > 0,
        0 <= i < s.len(),
        (s[s.len() - 1].from_page_no + s[s.len() - 1].amount - s[0].from_page_no)
            * BLOB_PAGE_SIZE as int <= payload_len,
    ensures
        s[i].from_page_no >= s[0].from_page_no,
        (s[i].from_page_no + s[i].amount - s[0].from_page_no) * BLOB_PAGE_SIZE as int
            <= payload_len,
{
    if i > 0 {
        lemma_missing_sorted(s, 0, i);
    }
    if i < s.len() - 1 {
        lemma_missing_sorted(s, i, s.len() - 1);
        assert((s[i].from_page_no + s[i].amount - s[0].from_page_no) * BLOB_PAGE_SIZE as int
            <= (s[s.len() - 1].from_page_no + s[s.len() - 1].amount - s[0].from_page_no)
            * BLOB_PAGE_SIZE as int) by (nonlinear_arith)
            requires
                s[i].from_page_no + s[i].amount <= s[s.len() - 1].from_page_no + s[s.len()
                    - 1].amount,
                BLOB_PAGE_SIZE as int >= 1,
        ;
    }
}

/// The page slot written for position `j` of interval `i` is in range and
/// was recorded missing.
proof fn lemma_missing_slot_in_range(s: Seq<MissingInterval>, i: int, j: int, fp: FoundPages)
    requires
        fp.wf(),
        s == fp.missing_intervals@,
        0 <= i < s.len(),
        0 <= j < s[i].amount,
    ensures
        0 <= s[i].from_page_no - fp.start_page_no + j < fp.pages@.len(),
        fp.pages@[s[i].from_page_no - fp.start_page_no + j] is None,
{
    let p = s[i].from_page_no + j;
    assert(missing_at(s, p));
    assert(s[i].from_page_no >= fp.start_page_no);
    assert(s[i].from_page_no + s[i].amount <= fp.start_page_no + fp.pages@.len());
    let k = p - fp.start_page_no;
    assert(0 <= k < fp.pages@.len());
    assert(fp.pages@[k] is None <==> missing_at(s, fp.start_page_no + k));
}

} // verus!
