//! The bounded page read-cache: single pages keyed by page number, stamped
//! with their insertion time, evicted oldest-first in whole same-timestamp
//! groups, and queried by page range with run-length coalescing.

use vstd::prelude::*;

use crate::bytes::copy_range;
use crate::clock::now_unix_microseconds;

verus! {

/// One cached page: its number, the time it entered the cache, and exactly
/// one page of bytes.
pub struct CachedPage {
    pub page_no: usize,
    pub created: i64,
    pub payload: Vec<u8>,
}

/// A contiguous run of pages, used to report range-query results.
pub struct PagesInterval {
    pub start_page_no: usize,
    pub pages_amount: usize,
}

impl PagesInterval {
    /// A run of one page.
    pub fn new(value: usize) -> (r: Self)
        ensures
            r.start_page_no == value,
            r.pages_amount == 1,
    {
        Self { start_page_no: value, pages_amount: 1 }
    }
}

/// One maximal run of a range query: either every page of the run is in the
/// cache, or none is.
pub enum PageFromCacheResult {
    MissingInterval(PagesInterval),
    CachedInterval(PagesInterval),
}

impl PageFromCacheResult {
    /// The run itself, whichever kind it is.
    pub open spec fn spec_interval(self) -> PagesInterval {
        match self {
            PageFromCacheResult::MissingInterval(i) => i,
            PageFromCacheResult::CachedInterval(i) => i,
        }
    }

    /// Whether the run reports cached pages.
    pub open spec fn spec_is_cached(self) -> bool {
        self is CachedInterval
    }
}

/// The runs tile `[start, start + amount)` exactly: the first starts at
/// `start`, each next one starts where the previous ended, the last one ends
/// at `start + amount`, and none is empty.
pub open spec fn intervals_cover(rs: Seq<PageFromCacheResult>, start: int, amount: int) -> bool {
    &&& (amount == 0 ==> rs.len() == 0)
    &&& (amount > 0 ==> {
        &&& rs.len() >= 1
        &&& rs[0].spec_interval().start_page_no == start
        &&& forall|k: int|
            0 <= k < rs.len() ==> (#[trigger] rs[k].spec_interval()).pages_amount >= 1
        &&& forall|k: int|
            0 < k < rs.len() ==> (#[trigger] rs[k].spec_interval()).start_page_no == rs[k
                - 1].spec_interval().start_page_no + rs[k - 1].spec_interval().pages_amount
        &&& rs[rs.len() - 1].spec_interval().start_page_no + rs[rs.len()
            - 1].spec_interval().pages_amount == start + amount
    })
}

/// No two neighbouring runs have the same kind: the run-length encoding is
/// minimal.
pub open spec fn intervals_alternate(rs: Seq<PageFromCacheResult>) -> bool {
    forall|k: int|
        0 < k < rs.len() ==> (#[trigger] rs[k].spec_is_cached()) != rs[k - 1].spec_is_cached()
}

/// The smallest insertion stamp among the entries — the stamp of the next
/// eviction group; the largest stamp value when there are none.
pub open spec fn seq_min_created(s: Seq<CachedPage>) -> i64
    decreases s.len(),
{
    if s.len() == 0 {
        i64::MAX
    } else {
        let rest = seq_min_created(s.drop_last());
        if s.last().created <= rest {
            s.last().created
        } else {
            rest
        }
    }
}

/// The entries stamped strictly later than `v`, in order.
pub open spec fn entries_newer_than(s: Seq<CachedPage>, v: int) -> Seq<CachedPage>
    decreases s.len(),
{
    if s.len() == 0 {
        Seq::empty()
    } else if s.last().created > v {
        entries_newer_than(s.drop_last(), v).push(s.last())
    } else {
        entries_newer_than(s.drop_last(), v)
    }
}

/// The minimum stamp is a stamp of the sequence and bounds every stamp
/// from below.
proof fn lemma_min_created_props(s: Seq<CachedPage>)
    requires
        s.len() > 0,
    ensures
        forall|i: int| 0 <= i < s.len() ==> (#[trigger] s[i]).created >= seq_min_created(s),
        exists|i: int| 0 <= i < s.len() && (#[trigger] s[i]).created == seq_min_created(s),
    decreases s.len(),
{
    if s.len() == 1 {
        assert(s[0].created == seq_min_created(s));
    } else {
        lemma_min_created_props(s.drop_last());
        assert forall|i: int| 0 <= i < s.len() implies (#[trigger] s[i]).created
            >= seq_min_created(s) by {
            if i < s.len() - 1 {
                assert(s.drop_last()[i] == s[i]);
            }
        }
        if s.last().created <= seq_min_created(s.drop_last()) {
            assert(s[s.len() - 1].created == seq_min_created(s));
        } else {
            let i = choose|i: int|
                0 <= i < s.drop_last().len() && (#[trigger] s.drop_last()[i]).created
                    == seq_min_created(s.drop_last());
            assert(s[i].created == seq_min_created(s));
        }
    }
}

/// The later-than-`v` entries are entries of the sequence, all stamped
/// later than `v`, and every such entry of the sequence is among them.
proof fn lemma_newer_props(s: Seq<CachedPage>, v: int)
    ensures
        entries_newer_than(s, v).len() <= s.len(),
        forall|j: int|
            0 <= j < entries_newer_than(s, v).len() ==> (#[trigger] entries_newer_than(
                s,
                v,
            )[j]).created > v && s.contains(entries_newer_than(s, v)[j]),
        forall|i: int|
            0 <= i < s.len() && (#[trigger] s[i]).created > v ==> entries_newer_than(
                s,
                v,
            ).contains(s[i]),
    decreases s.len(),
{
    if s.len() > 0 {
        lemma_newer_props(s.drop_last(), v);
        let dl = s.drop_last();
        let n = entries_newer_than(s, v);
        let nd = entries_newer_than(dl, v);
        assert forall|j: int| 0 <= j < n.len() implies (#[trigger] n[j]).created > v
            && s.contains(n[j]) by {
            if s.last().created > v && j == n.len() - 1 {
                assert(n[j] == s.last());
                assert(s[s.len() - 1] == s.last());
            } else {
                assert(n[j] == nd[j]);
                assert(dl.contains(nd[j]));
                let i = choose|i: int| 0 <= i < dl.len() && dl[i] == nd[j];
                assert(s[i] == nd[j]);
            }
        }
        assert forall|i: int| 0 <= i < s.len() && (#[trigger] s[i]).created > v implies n.contains(
            s[i],
        ) by {
            if i == s.len() - 1 {
                assert(n[n.len() - 1] == s[i]);
            } else {
                assert(dl[i] == s[i]);
                assert(nd.contains(s[i]));
                let j = choose|j: int| 0 <= j < nd.len() && nd[j] == s[i];
                assert(n[j] == s[i]);
            }
        }
    }
}

/// When every stamp is later than `v`, nothing is filtered away.
proof fn lemma_newer_all(s: Seq<CachedPage>, v: int)
    requires
        forall|i: int| 0 <= i < s.len() ==> (#[trigger] s[i]).created > v,
    ensures
        entries_newer_than(s, v) == s,
    decreases s.len(),
{
    if s.len() > 0 {
        assert forall|i: int| 0 <= i < s.drop_last().len() implies (
        #[trigger] s.drop_last()[i]).created > v by {
            assert(s.drop_last()[i] == s[i]);
        }
        lemma_newer_all(s.drop_last(), v);
        assert(s[s.len() - 1].created > v);
        assert(entries_newer_than(s, v) =~= s);
    }
}

/// Two cutoffs that agree on every stamp of the sequence keep the same
/// entries.
proof fn lemma_newer_equiv(s: Seq<CachedPage>, v1: int, v2: int)
    requires
        forall|i: int|
            0 <= i < s.len() ==> ((#[trigger] s[i]).created > v1 <==> s[i].created > v2),
    ensures
        entries_newer_than(s, v1) == entries_newer_than(s, v2),
    decreases s.len(),
{
    if s.len() > 0 {
        assert forall|i: int|
            0 <= i < s.drop_last().len() implies ((#[trigger] s.drop_last()[i]).created > v1
            <==> s.drop_last()[i].created > v2) by {
            assert(s.drop_last()[i] == s[i]);
        }
        lemma_newer_equiv(s.drop_last(), v1, v2);
        assert(s[s.len() - 1] == s.last());
    }
}

/// Filtering with a later cutoff after an earlier one is filtering with
/// the later one alone.
proof fn lemma_newer_compose(s: Seq<CachedPage>, v1: int, v2: int)
    requires
        v1 <= v2,
    ensures
        entries_newer_than(entries_newer_than(s, v1), v2) == entries_newer_than(s, v2),
    decreases s.len(),
{
    if s.len() > 0 {
        lemma_newer_compose(s.drop_last(), v1, v2);
        let dl = s.drop_last();
        if s.last().created > v1 {
            let inner = entries_newer_than(dl, v1).push(s.last());
            assert(inner.drop_last() == entries_newer_than(dl, v1));
            assert(inner.last() == s.last());
        }
    }
}

/// Removing one entry removes it from the later-than-`v` entries when it
/// qualifies and changes nothing else.
proof fn lemma_newer_remove(s: Seq<CachedPage>, k: int, v: int)
    requires
        0 <= k < s.len(),
    ensures
        entries_newer_than(s.remove(k), v).len() == entries_newer_than(s, v).len() - (
        if s[k].created > v {
            1int
        } else {
            0int
        }),
    decreases s.len(),
{
    if k == s.len() - 1 {
        assert(s.remove(k) =~= s.drop_last());
        assert(s[k] == s.last());
    } else {
        assert(s.remove(k).drop_last() =~= s.drop_last().remove(k));
        assert(s.remove(k).last() == s.last());
        lemma_newer_remove(s.drop_last(), k, v);
        assert(s.drop_last()[k] == s[k]);
    }
}

/// The cache of single pages with insertion-time eviction order.
pub struct PagesList {
    pub entries: Vec<CachedPage>,
    pub max_pages_amount: usize,
    pub page_size: usize,
}

impl PagesList {
    /// Every entry holds exactly one page of bytes, and no page number
    /// appears twice.
    pub open spec fn wf(self) -> bool {
        &&& self.page_size >= 1
        &&& forall|i: int|
            0 <= i < self.entries.len() ==> (#[trigger] self.entries@[i]).payload.len()
                == self.page_size
        &&& forall|i: int, j: int|
            0 <= i < self.entries.len() && 0 <= j < self.entries.len() && i != j
                ==> (#[trigger] self.entries@[i]).page_no != (#[trigger] self.entries@[j]).page_no
    }

    /// Whether page `p` is in the cache.
    pub open spec fn spec_contains(self, p: int) -> bool {
        exists|i: int| 0 <= i < self.entries.len() && (#[trigger] self.entries@[i]).page_no == p
    }

    /// Index of page `p`'s entry (meaningful when the page is present).
    pub open spec fn spec_index_of(self, p: int) -> int {
        choose|i: int| 0 <= i < self.entries.len() && (#[trigger] self.entries@[i]).page_no == p
    }

    /// The bytes cached for page `p`.
    pub open spec fn spec_payload_of(self, p: int) -> Seq<u8> {
        self.entries@[self.spec_index_of(p)].payload@
    }

    /// The insertion time recorded for page `p`.
    pub open spec fn spec_created_of(self, p: int) -> i64 {
        self.entries@[self.spec_index_of(p)].created
    }

    /// Each run reports `Cached` exactly when every page it spans is in
    /// this cache.
    pub open spec fn matches_cache(self, rs: Seq<PageFromCacheResult>) -> bool {
        forall|k: int, q: int|
            #![trigger rs[k].spec_is_cached(), self.spec_contains(q)]
            0 <= k < rs.len() && rs[k].spec_interval().start_page_no <= q < rs[
                k
            ].spec_interval().start_page_no + rs[k].spec_interval().pages_amount ==> (rs[
                k
            ].spec_is_cached() <==> self.spec_contains(q))
    }

    /// In a well-formed cache, the entry at `i` is the one `spec_index_of`
    /// picks for its page number.
    pub proof fn lemma_index_of_entry(self, i: int)
        requires
            self.wf(),
            0 <= i < self.entries.len(),
        ensures
            self.spec_contains(self.entries@[i].page_no as int),
            self.spec_index_of(self.entries@[i].page_no as int) == i,
    {
        assert(0 <= i < self.entries.len() && self.entries@[i].page_no
            == self.entries@[i].page_no);
    }

    pub fn new(max_pages_amount: usize, page_size: usize) -> (r: Self)
        requires
            page_size >= 1,
        ensures
            r.wf(),
            r.entries.len() == 0,
            r.max_pages_amount == max_pages_amount,
            r.page_size == page_size,
            forall|p: int| !r.spec_contains(p),
    {
        Self { entries: Vec::new(), max_pages_amount, page_size }
    }

    /// Drops every cached page.
    pub fn clear(&mut self)
        requires
            old(self).wf(),
        ensures
            final(self).wf(),
            final(self).entries.len() == 0,
            final(self).max_pages_amount == old(self).max_pages_amount,
            final(self).page_size == old(self).page_size,
            forall|p: int| !final(self).spec_contains(p),
    {
        self.entries.clear();
    }

    /// Index of the entry caching `page_no`, if any.
    fn find_index(&self, page_no: usize) -> (r: Option<usize>)
        ensures
            match r {
                Some(i) => i < self.entries.len() && self.entries@[i as int].page_no == page_no,
                None => !self.spec_contains(page_no as int),
            },
    {
        let mut i: usize = 0;
        while i < self.entries.len()
            invariant
                i <= self.entries.len(),
                forall|j: int| 0 <= j < i ==> (#[trigger] self.entries@[j]).page_no != page_no,
            decreases self.entries.len() - i,
        {
            if self.entries[i].page_no == page_no {
                return Some(i);
            }
            i = i + 1;
        }
        None
    }

    /// Whether the cache holds `page_no`.
    pub fn contains_page(&self, page_no: usize) -> (r: bool)
        ensures
            r == self.spec_contains(page_no as int),
    {
        match self.find_index(page_no) {
            Some(_) => true,
            None => false,
        }
    }

    /// Point lookup: the cached bytes of `page_no`, if present.
    pub fn get_by_page_no(&self, page_no: usize) -> (r: Option<&[u8]>)
        requires
            self.wf(),
        ensures
            r is Some <==> self.spec_contains(page_no as int),
            r matches Some(s) ==> s@ == self.spec_payload_of(page_no as int),
    {
        match self.find_index(page_no) {
            Some(i) => {
                proof {
                    self.lemma_index_of_entry(i as int);
                }
                Some(self.entries[i].payload.as_slice())
            },
            None => None,
        }
    }

    /// Removes every entry whose timestamp is the current minimum: the
    /// whole oldest insertion group leaves at once.
    fn remove_earliest_group(&mut self)
        requires
            old(self).wf(),
            old(self).entries.len() >= 1,
        ensures
            final(self).wf(),
            final(self).max_pages_amount == old(self).max_pages_amount,
            final(self).page_size == old(self).page_size,
            final(self).entries.len() < old(self).entries.len(),
            forall|q: int|
                0 <= q < final(self).entries.len() ==> old(self).entries@.contains(
                    #[trigger] final(self).entries@[q],
                ),
            forall|p: int, q: int|
                #![trigger final(self).entries@[q].created, old(self).spec_created_of(p)]
                0 <= q < final(self).entries.len() && old(self).spec_contains(p) && !final(self).spec_contains(p) ==> final(self).entries@[q].created > old(self).spec_created_of(
                    p,
                ),
            // exactly the earliest-stamp group leaves, in-order
            final(self).entries@ == entries_newer_than(
                old(self).entries@,
                seq_min_created(old(self).entries@) as int,
            ),
    {
        let mut m: i64 = self.entries[0].created;
        let mut i: usize = 1;
        while i < self.entries.len()
            invariant
                1 <= i <= self.entries.len(),
                self.entries.len() >= 1,
                exists|j: int|
                    0 <= j < i && (#[trigger] self.entries@[j]).created == m,
                forall|j: int| 0 <= j < i ==> (#[trigger] self.entries@[j]).created >= m,
            decreases self.entries.len() - i,
        {
            if self.entries[i].created < m {
                m = self.entries[i].created;
            }
            i = i + 1;
        }
        proof {
            lemma_min_created_props(self.entries@);
            let w = choose|j: int|
                0 <= j < self.entries@.len() && (#[trigger] self.entries@[j]).created
                    == seq_min_created(self.entries@);
            assert(self.entries@[w].created >= m);
            assert(m == seq_min_created(self.entries@));
        }
        let ghost orig = *self;
        let ghost mut scanned: int = 0;
        let mut k: usize = 0;
        while k < self.entries.len()
            invariant
                k <= self.entries.len(),
                orig.wf(),
                m == seq_min_created(orig.entries@),
                0 <= scanned <= orig.entries@.len(),
                k == entries_newer_than(orig.entries@.subrange(0, scanned), m as int).len(),
                self.entries@ =~= entries_newer_than(orig.entries@.subrange(0, scanned), m as int)
                    + orig.entries@.subrange(scanned, orig.entries@.len() as int),
                self.page_size == orig.page_size,
                self.max_pages_amount == orig.max_pages_amount,
                self.entries.len() <= orig.entries.len(),
                // every current entry was present before the removal pass
                forall|q: int|
                    0 <= q < self.entries.len() ==> orig.entries@.contains(
                        #[trigger] self.entries@[q],
                    ),
                // the processed prefix has no minimum-stamp entry left
                forall|j: int| 0 <= j < k ==> (#[trigger] self.entries@[j]).created > m,
                forall|j: int| 0 <= j < self.entries.len() ==> (#[trigger] self.entries@[j]).created >= m,
                // uniqueness is kept because entries are only removed
                self.wf(),
                // every earlier entry above the minimum survives
                forall|p: int|
                    orig.spec_contains(p) && orig.spec_created_of(p) > m ==> #[trigger] self.spec_contains(p),
                // progress: either a minimum entry is still ahead, or one was removed
                (exists|j: int|
                    k <= j < self.entries.len() && (#[trigger] self.entries@[j]).created == m)
                    || self.entries.len() < orig.entries.len(),
            decreases self.entries.len() - k,
        {
            if self.entries[k].created == m {
                let ghost before = *self;
                self.entries.remove(k);
                proof {
                    let n = orig.entries@.len() as int;
                    let kept = entries_newer_than(orig.entries@.subrange(0, scanned), m as int);
                    assert(before.entries@[k as int] == orig.entries@[scanned]);
                    assert(orig.entries@.subrange(0, scanned + 1) =~= orig.entries@.subrange(
                        0,
                        scanned,
                    ).push(orig.entries@[scanned]));
                    assert(orig.entries@.subrange(0, scanned + 1).drop_last()
                        == orig.entries@.subrange(0, scanned));
                    assert(entries_newer_than(orig.entries@.subrange(0, scanned + 1), m as int)
                        == kept);
                    assert(self.entries@ =~= kept + orig.entries@.subrange(scanned + 1, n));
                    scanned = scanned + 1;
                    assert forall|q: int| 0 <= q < self.entries.len() implies orig.entries@.contains(
                        #[trigger] self.entries@[q],
                    ) by {
                        if q < k {
                            assert(self.entries@[q] == before.entries@[q]);
                        } else {
                            assert(self.entries@[q] == before.entries@[q + 1]);
                        }
                    }
                    assert forall|p: int|
                        orig.spec_contains(p) && orig.spec_created_of(p) > m implies #[trigger] self.spec_contains(p) by {
                        assert(before.spec_contains(p));
                        let bi = before.spec_index_of(p);
                        assert(before.entries@[bi].page_no == p);
                        assert(before.entries@.contains(before.entries@[bi]));
                        // the removed entry had stamp m, this one is above m
                        assert(before.entries@[bi].created >= m);
                        if before.entries@[bi].created == m {
                            // then p's stamp in orig would be m, contradiction
                            let oi = choose|oi: int|
                                0 <= oi < orig.entries.len() && orig.entries@[oi]
                                    == before.entries@[bi];
                            orig.lemma_index_of_entry(oi);
                            assert(orig.spec_created_of(p) == m);
                        }
                        assert(bi != k);
                        if bi < k {
                            assert(self.entries@[bi].page_no == p);
                        } else {
                            assert(self.entries@[bi - 1].page_no == p);
                        }
                    }
                }
            } else {
                proof {
                    let n = orig.entries@.len() as int;
                    let kept = entries_newer_than(orig.entries@.subrange(0, scanned), m as int);
                    assert(self.entries@[k as int] == orig.entries@[scanned]);
                    assert(orig.entries@[scanned].created > m);
                    assert(orig.entries@.subrange(0, scanned + 1) =~= orig.entries@.subrange(
                        0,
                        scanned,
                    ).push(orig.entries@[scanned]));
                    assert(orig.entries@.subrange(0, scanned + 1).drop_last()
                        == orig.entries@.subrange(0, scanned));
                    assert(entries_newer_than(orig.entries@.subrange(0, scanned + 1), m as int)
                        =~= kept.push(orig.entries@[scanned]));
                    assert(self.entries@ =~= kept.push(orig.entries@[scanned])
                        + orig.entries@.subrange(scanned + 1, n));
                    scanned = scanned + 1;
                }
                k = k + 1;
            }
        }
        proof {
            assert(scanned == orig.entries@.len());
            assert(orig.entries@.subrange(0, scanned) =~= orig.entries@);
            assert(self.entries@ =~= entries_newer_than(orig.entries@, m as int));
            // conclude the two-sided eviction-order property
            assert forall|p: int, q: int|
                #![trigger final(self).entries@[q].created, orig.spec_created_of(p)]
                0 <= q < self.entries.len() && orig.spec_contains(p) && !self.spec_contains(p)
                implies self.entries@[q].created > orig.spec_created_of(p) by {
                if orig.spec_created_of(p) > m {
                    assert(self.spec_contains(p));
                }
                assert(orig.spec_created_of(p) <= m);
                let oi = orig.spec_index_of(p);
                assert(orig.entries@[oi].created >= m);
                assert(self.entries@[q].created > m);
            }
            assert(self.entries.len() < orig.entries.len());
        }
    }

    /// Evicts oldest insertion groups until the cache is within capacity,
    /// and touches nothing when it already is.
    fn gc(&mut self)
        requires
            old(self).wf(),
        ensures
            old(self).entries.len() <= old(self).max_pages_amount ==> *final(self) == *old(self),
            final(self).wf(),
            final(self).max_pages_amount == old(self).max_pages_amount,
            final(self).page_size == old(self).page_size,
            final(self).entries.len() <= final(self).max_pages_amount,
            forall|q: int|
                0 <= q < final(self).entries.len() ==> old(self).entries@.contains(
                    #[trigger] final(self).entries@[q],
                ),
            forall|p: int, q: int|
                #![trigger final(self).entries@[q].created, old(self).spec_created_of(p)]
                0 <= q < final(self).entries.len() && old(self).spec_contains(p) && !final(self).spec_contains(p) ==> final(self).entries@[q].created > old(self).spec_created_of(
                    p,
                ),
            // an entry leaves only when more than a capacity's worth of
            // entries at least as recent as it were present
            forall|p: int|
                old(self).spec_contains(p) && !final(self).spec_contains(p)
                    ==> entries_newer_than(
                    old(self).entries@,
                    old(self).spec_created_of(p) - 1,
                ).len() > old(self).max_pages_amount,
    {
        let ghost orig = *self;
        let ghost mut cutoff: int = (i64::MIN as int) - 1;
        proof {
            lemma_newer_all(orig.entries@, cutoff);
        }
        while self.entries.len() > self.max_pages_amount
            invariant
                orig.wf(),
                orig.entries.len() <= orig.max_pages_amount ==> *self == orig,
                self.entries@ == entries_newer_than(orig.entries@, cutoff),
                forall|p: int|
                    orig.spec_contains(p) && !self.spec_contains(p) ==> entries_newer_than(
                        orig.entries@,
                        orig.spec_created_of(p) - 1,
                    ).len() > orig.max_pages_amount,
                self.wf(),
                self.page_size == orig.page_size,
                self.max_pages_amount == orig.max_pages_amount,
                forall|q: int|
                    0 <= q < self.entries.len() ==> orig.entries@.contains(
                        #[trigger] self.entries@[q],
                    ),
                forall|p: int, q: int|
                    #![trigger self.entries@[q].created, orig.spec_created_of(p)]
                    0 <= q < self.entries.len() && orig.spec_contains(p) && !self.spec_contains(p)
                        ==> self.entries@[q].created > orig.spec_created_of(p),
            decreases self.entries.len(),
        {
            let ghost before = *self;
            self.remove_earliest_group();
            proof {
                let m1 = seq_min_created(before.entries@);
                lemma_min_created_props(before.entries@);
                lemma_newer_props(orig.entries@, cutoff);
                // the removed group's stamp lies above the previous cutoff
                assert(m1 as int > cutoff) by {
                    let w = choose|j: int|
                        0 <= j < before.entries@.len() && (#[trigger] before.entries@[j]).created
                            == m1;
                    assert(entries_newer_than(orig.entries@, cutoff)[w].created > cutoff);
                }
                lemma_newer_compose(orig.entries@, cutoff, m1 as int);
                assert(self.entries@ == entries_newer_than(orig.entries@, m1 as int));
                // the two cutoffs keep the same entries of the pre-gc state
                assert(entries_newer_than(orig.entries@, m1 - 1) == before.entries@) by {
                    assert forall|i: int|
                        0 <= i < orig.entries@.len() implies ((#[trigger] orig.entries@[i]).created
                        > m1 - 1 <==> orig.entries@[i].created > cutoff) by {
                        if orig.entries@[i].created > cutoff {
                            assert(entries_newer_than(orig.entries@, cutoff).contains(
                                orig.entries@[i],
                            ));
                            let j = choose|j: int|
                                0 <= j < before.entries@.len() && before.entries@[j]
                                    == orig.entries@[i];
                            assert(before.entries@[j].created >= m1);
                        }
                    }
                    lemma_newer_equiv(orig.entries@, m1 - 1, cutoff);
                }
                assert forall|p: int|
                    orig.spec_contains(p) && !self.spec_contains(p) implies entries_newer_than(
                        orig.entries@,
                        orig.spec_created_of(p) - 1,
                    ).len() > orig.max_pages_amount by {
                    if before.spec_contains(p) {
                        // evicted by this removal: its stamp is the group's
                        let bi = before.spec_index_of(p);
                        assert(before.entries@[bi].page_no == p);
                        assert(before.entries@.contains(before.entries@[bi]));
                        let oi = choose|oi: int|
                            0 <= oi < orig.entries.len() && orig.entries@[oi]
                                == before.entries@[bi];
                        orig.lemma_index_of_entry(oi);
                        before.lemma_index_of_entry(bi);
                        assert(orig.spec_created_of(p) == before.entries@[bi].created);
                        assert(before.entries@[bi].created >= m1);
                        if before.entries@[bi].created > m1 {
                            lemma_newer_props(before.entries@, m1 as int);
                            assert(entries_newer_than(before.entries@, m1 as int).contains(
                                before.entries@[bi],
                            ));
                            assert(self.entries@.contains(before.entries@[bi]));
                            let sj = choose|sj: int|
                                0 <= sj < self.entries@.len() && self.entries@[sj]
                                    == before.entries@[bi];
                            assert(self.spec_contains(p));
                        }
                        assert(orig.spec_created_of(p) == m1);
                        assert(entries_newer_than(orig.entries@, m1 - 1).len()
                            == before.entries@.len());
                        assert(before.entries@.len() > orig.max_pages_amount);
                    }
                }
                cutoff = m1 as int;
                assert forall|q: int| 0 <= q < self.entries.len() implies orig.entries@.contains(
                    #[trigger] self.entries@[q],
                ) by {
                    assert(before.entries@.contains(self.entries@[q]));
                }
                assert forall|p: int, q: int|
                    #![trigger self.entries@[q].created, orig.spec_created_of(p)]
                    0 <= q < self.entries.len() && orig.spec_contains(p) && !self.spec_contains(p)
                    implies self.entries@[q].created > orig.spec_created_of(p) by {
                    if before.spec_contains(p) {
                        // the page was evicted by this group removal
                        assert(before.entries@.contains(self.entries@[q]));
                        let oi = orig.spec_index_of(p);
                        let bi = choose|bi: int|
                            0 <= bi < before.entries.len() && before.entries@[bi].page_no == p;
                        assert(before.entries@.contains(before.entries@[bi]));
                        let oj = choose|oj: int|
                            0 <= oj < orig.entries.len() && orig.entries@[oj]
                                == before.entries@[bi];
                        orig.lemma_index_of_entry(oj);
                        before.lemma_index_of_entry(bi);
                        assert(before.spec_created_of(p) == orig.spec_created_of(p));
                        assert(self.entries@[q].created > before.spec_created_of(p));
                    } else {
                        // the page was evicted by an earlier group removal:
                        // this entry survived that removal, so it is above
                        let bq = choose|bq: int|
                            0 <= bq < before.entries.len() && before.entries@[bq]
                                == self.entries@[q];
                        assert(before.entries@[bq].created > orig.spec_created_of(p));
                    }
                }
            }
        }
    }

    /// Inserts one page with an explicit insertion stamp, replacing any
    /// entry the page number already had, then evicts oldest groups until
    /// the cache is within capacity.  With room for the page nothing is
    /// evicted and the page is present afterwards; pages leave only when at
    /// least a capacity's worth of entries at least as recent were cached,
    /// always the ones with the smallest stamps; whatever survives keeps
    /// its bytes.
    pub fn insert_with_created(&mut self, page_no: usize, payload: Vec<u8>, created: i64)
        requires
            old(self).wf(),
            payload.len() == old(self).page_size,
        ensures
            final(self).wf(),
            final(self).max_pages_amount == old(self).max_pages_amount,
            final(self).page_size == old(self).page_size,
            final(self).entries.len() <= final(self).max_pages_amount,
            // nothing appears from nowhere
            forall|p: int|
                #[trigger] final(self).spec_contains(p) ==> p == page_no || old(self).spec_contains(p),
            // surviving pages keep their bytes; the inserted page has the new ones
            forall|p: int|
                #[trigger] final(self).spec_contains(p) && p != page_no ==> final(self).spec_payload_of(p) == old(self).spec_payload_of(p) && final(self).spec_created_of(p) == old(self).spec_created_of(p),
            final(self).spec_contains(page_no as int) ==> final(self).spec_payload_of(
                page_no as int,
            ) == payload@ && final(self).spec_created_of(page_no as int) == created,
            // eviction removes only the oldest stamps
            forall|p: int, q: int|
                #![trigger final(self).entries@[q].created, old(self).spec_created_of(p)]
                0 <= q < final(self).entries.len() && old(self).spec_contains(p) && p != page_no
                    && !final(self).spec_contains(p) ==> final(self).entries@[q].created > old(self).spec_created_of(p),
            // an entry leaves only when at least a capacity's worth of
            // entries at least as recent as it were already cached
            forall|p: int|
                old(self).spec_contains(p) && p != page_no && !final(self).spec_contains(p)
                    ==> entries_newer_than(
                    old(self).entries@,
                    old(self).spec_created_of(p) - 1,
                ).len() >= old(self).max_pages_amount,
            // with room for the page — or when it only replaces its own
            // entry — it is present afterwards and nothing is evicted
            old(self).entries.len() < old(self).max_pages_amount || (old(self).spec_contains(
                page_no as int,
            ) && old(self).entries.len() <= old(self).max_pages_amount) ==> {
                &&& final(self).spec_contains(page_no as int)
                &&& forall|p: int|
                    p != page_no ==> (#[trigger] final(self).spec_contains(p) <==> old(self).spec_contains(p))
                &&& final(self).entries.len() <= old(self).entries.len() + 1
            },
    {
        let ghost orig = *self;
        match self.find_index(page_no) {
            Some(i) => {
                proof {
                    orig.lemma_index_of_entry(i as int);
                }
                self.entries.remove(i);
            },
            None => {},
        }
        let ghost pruned = *self;
        proof {
            assert forall|q: int| 0 <= q < pruned.entries.len() implies orig.entries@.contains(
                #[trigger] pruned.entries@[q],
            ) by {}
            assert forall|p: int|
                #[trigger] pruned.spec_contains(p) && p != page_no implies orig.spec_contains(p)
                    && pruned.spec_payload_of(p) == orig.spec_payload_of(p)
                    && pruned.spec_created_of(p) == orig.spec_created_of(p) by {
                let pi = pruned.spec_index_of(p);
                assert(pruned.entries@[pi].page_no == p);
                let oi = choose|oi: int|
                    0 <= oi < orig.entries.len() && orig.entries@[oi] == pruned.entries@[pi];
                orig.lemma_index_of_entry(oi);
                pruned.lemma_index_of_entry(pi);
            }
            assert forall|p: int|
                orig.spec_contains(p) && p != page_no implies #[trigger] pruned.spec_contains(p) by {
                let oi = orig.spec_index_of(p);
                if orig.spec_contains(page_no as int) {
                    let ri = orig.spec_index_of(page_no as int);
                    if oi < ri {
                        assert(pruned.entries@[oi].page_no == p);
                    } else {
                        assert(pruned.entries@[oi - 1].page_no == p);
                    }
                } else {
                    assert(pruned.entries@[oi].page_no == p);
                }
            }
        }
        self.entries.push(CachedPage { page_no, created, payload });
        let ghost pushed = *self;
        proof {
            assert(pushed.wf()) by {
                assert forall|i: int, j: int|
                    0 <= i < pushed.entries.len() && 0 <= j < pushed.entries.len() && i != j
                    implies (#[trigger] pushed.entries@[i]).page_no
                    != (#[trigger] pushed.entries@[j]).page_no by {
                    if i == pushed.entries.len() - 1 {
                        assert(!pruned.spec_contains(page_no as int));
                        assert(pushed.entries@[j] == pruned.entries@[j]);
                    } else if j == pushed.entries.len() - 1 {
                        assert(!pruned.spec_contains(page_no as int));
                        assert(pushed.entries@[i] == pruned.entries@[i]);
                    }
                }
            }
        }
        self.gc();
        proof {
            let fin = *self;
            assert forall|p: int|
                #[trigger] fin.spec_contains(p) implies p == page_no || orig.spec_contains(p) by {
                let fi = fin.spec_index_of(p);
                assert(fin.entries@[fi].page_no == p);
                assert(pushed.entries@.contains(fin.entries@[fi]));
                let pi = choose|pi: int|
                    0 <= pi < pushed.entries.len() && pushed.entries@[pi] == fin.entries@[fi];
                if pi < pushed.entries.len() - 1 {
                    assert(pruned.entries@[pi] == pushed.entries@[pi]);
                    pruned.lemma_index_of_entry(pi);
                    assert(pruned.spec_contains(p));
                }
            }
            assert forall|p: int|
                #[trigger] fin.spec_contains(p) && p != page_no implies fin.spec_payload_of(p)
                    == orig.spec_payload_of(p) && fin.spec_created_of(p) == orig.spec_created_of(
                    p,
                ) by {
                let fi = fin.spec_index_of(p);
                assert(fin.entries@[fi].page_no == p);
                assert(pushed.entries@.contains(fin.entries@[fi]));
                let pi = choose|pi: int|
                    0 <= pi < pushed.entries.len() && pushed.entries@[pi] == fin.entries@[fi];
                pushed.lemma_index_of_entry(pi);
                fin.lemma_index_of_entry(fi);
                assert(pi < pushed.entries.len() - 1);
                assert(pruned.entries@[pi] == pushed.entries@[pi]);
                pruned.lemma_index_of_entry(pi);
                assert(pruned.spec_payload_of(p) == fin.spec_payload_of(p));
                assert(pruned.spec_created_of(p) == fin.spec_created_of(p));
            }
            if fin.spec_contains(page_no as int) {
                let fi = fin.spec_index_of(page_no as int);
                assert(fin.entries@[fi].page_no == page_no);
                assert(pushed.entries@.contains(fin.entries@[fi]));
                let pi = choose|pi: int|
                    0 <= pi < pushed.entries.len() && pushed.entries@[pi] == fin.entries@[fi];
                pushed.lemma_index_of_entry(pi);
                assert(pi == pushed.entries.len() - 1) by {
                    if pi < pushed.entries.len() - 1 {
                        assert(pruned.entries@[pi] == pushed.entries@[pi]);
                        pruned.lemma_index_of_entry(pi);
                        assert(pruned.spec_contains(page_no as int));
                    }
                }
                assert(fin.spec_payload_of(page_no as int) == payload@);
            }
            assert forall|p: int, q: int|
                #![trigger fin.entries@[q].created, orig.spec_created_of(p)]
                0 <= q < fin.entries.len() && orig.spec_contains(p) && p != page_no && !fin.spec_contains(
                    p,
                ) implies fin.entries@[q].created > orig.spec_created_of(p) by {
                assert(pruned.spec_contains(p));
                assert(pushed.spec_contains(p)) by {
                    let pri = pruned.spec_index_of(p);
                    assert(pushed.entries@[pri].page_no == p);
                }
                assert(pushed.spec_created_of(p) == pruned.spec_created_of(p)) by {
                    let pri = pruned.spec_index_of(p);
                    pruned.lemma_index_of_entry(pri);
                    pushed.lemma_index_of_entry(pri);
                }
                assert(fin.entries@[q].created > pushed.spec_created_of(p));
            }
            assert forall|p: int|
                orig.spec_contains(p) && p != page_no && !fin.spec_contains(p)
                implies entries_newer_than(
                orig.entries@,
                orig.spec_created_of(p) - 1,
            ).len() >= orig.max_pages_amount by {
                let sp = orig.spec_created_of(p) - 1;
                assert(pruned.spec_contains(p));
                assert(pushed.spec_contains(p)) by {
                    let pri = pruned.spec_index_of(p);
                    assert(pushed.entries@[pri].page_no == p);
                }
                assert(pushed.spec_created_of(p) == orig.spec_created_of(p)) by {
                    let pri = pruned.spec_index_of(p);
                    pruned.lemma_index_of_entry(pri);
                    pushed.lemma_index_of_entry(pri);
                }
                // the garbage collection's minimality, against the pushed state
                assert(entries_newer_than(pushed.entries@, sp).len()
                    > pushed.max_pages_amount);
                // one push adds at most one qualifying entry
                assert(entries_newer_than(pushed.entries@, sp).len() <= entries_newer_than(
                    pruned.entries@,
                    sp,
                ).len() + 1) by {
                    assert(pushed.entries@.drop_last() == pruned.entries@);
                }
                // a removal never adds qualifying entries
                assert(entries_newer_than(pruned.entries@, sp).len() <= entries_newer_than(
                    orig.entries@,
                    sp,
                ).len()) by {
                    if orig.spec_contains(page_no as int) {
                        let ri = orig.spec_index_of(page_no as int);
                        assert(pruned.entries@ == orig.entries@.remove(ri));
                        lemma_newer_remove(orig.entries@, ri, sp);
                    }
                }
            }
            if orig.entries.len() < orig.max_pages_amount || (orig.spec_contains(page_no as int)
                && orig.entries.len() <= orig.max_pages_amount) {
                // the push stayed within capacity, so nothing was evicted
                assert(pushed.entries.len() <= pushed.max_pages_amount) by {
                    if orig.spec_contains(page_no as int) {
                        assert(pruned.entries.len() == orig.entries.len() - 1);
                    }
                }
                assert(fin == pushed);
                assert(fin.spec_contains(page_no as int)) by {
                    assert(pushed.entries@[pushed.entries.len() - 1].page_no == page_no);
                }
                assert forall|p: int|
                    p != page_no implies (#[trigger] fin.spec_contains(p) <==> orig.spec_contains(
                    p,
                )) by {
                    if orig.spec_contains(p) {
                        assert(pruned.spec_contains(p));
                        let pri = pruned.spec_index_of(p);
                        assert(pushed.entries@[pri].page_no == p);
                    }
                    if fin.spec_contains(p) {
                        assert(orig.spec_contains(p));
                    }
                }
            }
        }
    }

    /// Inserts one page stamped with the current clock reading.
    pub fn insert(&mut self, page_no: usize, payload: Vec<u8>)
        requires
            old(self).wf(),
            payload.len() == old(self).page_size,
        ensures
            final(self).wf(),
            final(self).max_pages_amount == old(self).max_pages_amount,
            final(self).page_size == old(self).page_size,
            final(self).entries.len() <= final(self).max_pages_amount,
            forall|p: int|
                #[trigger] final(self).spec_contains(p) ==> p == page_no || old(self).spec_contains(p),
            forall|p: int|
                #[trigger] final(self).spec_contains(p) && p != page_no ==> final(self).spec_payload_of(p) == old(self).spec_payload_of(p),
            final(self).spec_contains(page_no as int) ==> final(self).spec_payload_of(
                page_no as int,
            ) == payload@,
            forall|p: int, q: int|
                #![trigger final(self).entries@[q].created, old(self).spec_created_of(p)]
                0 <= q < final(self).entries.len() && old(self).spec_contains(p) && p != page_no
                    && !final(self).spec_contains(p) ==> final(self).entries@[q].created > old(self).spec_created_of(p),
            // an entry leaves only when at least a capacity's worth of
            // entries at least as recent as it were already cached
            forall|p: int|
                old(self).spec_contains(p) && p != page_no && !final(self).spec_contains(p)
                    ==> entries_newer_than(
                    old(self).entries@,
                    old(self).spec_created_of(p) - 1,
                ).len() >= old(self).max_pages_amount,
            // with room for the page — or when it only replaces its own
            // entry — it is present afterwards and nothing is evicted,
            // whatever the clock returned
            old(self).entries.len() < old(self).max_pages_amount || (old(self).spec_contains(
                page_no as int,
            ) && old(self).entries.len() <= old(self).max_pages_amount) ==> {
                &&& final(self).spec_contains(page_no as int)
                &&& forall|p: int|
                    p != page_no ==> (#[trigger] final(self).spec_contains(p) <==> old(self).spec_contains(p))
                &&& final(self).entries.len() <= old(self).entries.len() + 1
            },
    {
        let created = now_unix_microseconds();
        self.insert_with_created(page_no, payload, created);
    }

    /// Scans `[start_page_no, start_page_no + pages_amount)` left to right
    /// and coalesces consecutive hits and consecutive misses into maximal
    /// runs: the runs tile the query range, alternate in kind, and a run is
    /// cached exactly when each of its pages is in the cache.
    pub fn get_from_cache(&self, start_page_no: usize, pages_amount: usize) -> (result: Vec<
        PageFromCacheResult,
    >)
        requires
            start_page_no + pages_amount <= usize::MAX,
        ensures
            intervals_cover(result@, start_page_no as int, pages_amount as int),
            intervals_alternate(result@),
            self.matches_cache(result@),
    {
        let mut result: Vec<PageFromCacheResult> = Vec::new();
        if pages_amount == 0 {
            return result;
        }
        let end: usize = start_page_no + pages_amount;
        let mut run_start: usize = start_page_no;
        let mut run_cached: bool = self.contains_page(start_page_no);
        let mut p: usize = start_page_no + 1;
        while p < end
            invariant
                start_page_no <= run_start < p <= end,
                intervals_cover(result@, start_page_no as int, run_start - start_page_no),
                intervals_alternate(result@),
                result@.len() > 0 ==> result@[result@.len() - 1].spec_is_cached() != run_cached,
                self.matches_cache(result@),
                forall|q: int| run_start <= q < p ==> (self.spec_contains(q) <==> run_cached),
            decreases end - p,
        {
            let hit = self.contains_page(p);
            if hit != run_cached {
                let interval = PagesInterval { start_page_no: run_start, pages_amount: p - run_start };
                let item = if run_cached {
                    PageFromCacheResult::CachedInterval(interval)
                } else {
                    PageFromCacheResult::MissingInterval(interval)
                };
                result.push(item);
                run_start = p;
                run_cached = hit;
            }
            p = p + 1;
        }
        let interval = PagesInterval { start_page_no: run_start, pages_amount: end - run_start };
        let item = if run_cached {
            PageFromCacheResult::CachedInterval(interval)
        } else {
            PageFromCacheResult::MissingInterval(interval)
        };
        result.push(item);
        result
    }
}

/// When a payload spans more pages than the cache can hold, the leading
/// pages are skipped and only this many pages into the payload does caching
/// start: the most recently addressed tail is what stays.
pub open spec fn spec_tail_offset(pages_amount: int, max_pages_to_cache: int) -> int {
    if pages_amount < max_pages_to_cache {
        0
    } else {
        pages_amount - max_pages_to_cache
    }
}

/// The page read-cache as the blob orchestrator uses it: bounded, fed with
/// multi-page payloads, and queried by page range.
pub struct PagesCache {
    pub max_pages_to_cache: usize,
    pub page_size: usize,
    pub pages: PagesList,
}

impl PagesCache {
    /// The inner list is well formed, agrees on the configuration, and is
    /// within capacity.
    pub open spec fn wf(self) -> bool {
        &&& self.pages.wf()
        &&& self.pages.max_pages_amount == self.max_pages_to_cache
        &&& self.pages.page_size == self.page_size
        &&& self.pages.entries.len() <= self.max_pages_to_cache
    }

    pub fn new(max_pages_to_cache: usize, page_size: usize) -> (r: Self)
        requires
            page_size >= 1,
        ensures
            r.wf(),
            r.max_pages_to_cache == max_pages_to_cache,
            r.page_size == page_size,
            forall|p: int| !r.pages.spec_contains(p),
    {
        Self {
            max_pages_to_cache,
            page_size,
            pages: PagesList::new(max_pages_to_cache, page_size),
        }
    }

    /// Drops every cached page.
    pub fn clear(&mut self)
        requires
            old(self).wf(),
        ensures
            final(self).wf(),
            final(self).max_pages_to_cache == old(self).max_pages_to_cache,
            final(self).page_size == old(self).page_size,
            forall|p: int| !final(self).pages.spec_contains(p),
    {
        self.pages.clear();
    }

    /// Caches a page-aligned payload starting at `start_page`.  When the
    /// payload holds more pages than the cache can, only the trailing
    /// `max_pages_to_cache` pages are inserted.  Afterwards every surviving
    /// page in the inserted window holds its slice of the payload, and any
    /// other surviving page holds what it held before; when the payload
    /// fits beside what is cached, the whole window is present.
    pub fn save_to_cache(&mut self, start_page: usize, payload: &[u8])
        requires
            old(self).wf(),
            payload.len() as int % old(self).page_size as int == 0,
            start_page + payload.len() as int / old(self).page_size as int <= usize::MAX,
        ensures
            final(self).wf(),
            final(self).max_pages_to_cache == old(self).max_pages_to_cache,
            final(self).page_size == old(self).page_size,
            forall|p: int|
                #[trigger] final(self).pages.spec_contains(p) && start_page + spec_tail_offset(
                    payload.len() as int / old(self).page_size as int,
                    old(self).max_pages_to_cache as int,
                ) <= p < start_page + payload.len() as int / old(self).page_size as int ==> final(self).pages.spec_payload_of(p) == payload@.subrange(
                    (p - start_page) * old(self).page_size,
                    (p - start_page) * old(self).page_size + old(self).page_size,
                ),
            forall|p: int|
                #[trigger] final(self).pages.spec_contains(p) && !(start_page + spec_tail_offset(
                    payload.len() as int / old(self).page_size as int,
                    old(self).max_pages_to_cache as int,
                ) <= p < start_page + payload.len() as int / old(self).page_size as int) ==> old(self).pages.spec_contains(p) && final(self).pages.spec_payload_of(p) == old(self).pages.spec_payload_of(p),
            // when the payload fits beside what is cached, every page of
            // the inserted window is present afterwards
            old(self).pages.entries.len() + payload.len() as int / old(self).page_size as int
                <= old(self).max_pages_to_cache ==> forall|p: int|
                start_page + spec_tail_offset(
                    payload.len() as int / old(self).page_size as int,
                    old(self).max_pages_to_cache as int,
                ) <= p < start_page + payload.len() as int / old(self).page_size as int
                    ==> #[trigger] final(self).pages.spec_contains(p),
    {
        let pages_amount: usize = payload.len() / self.page_size;
        proof {
            vstd::arithmetic::div_mod::lemma_fundamental_div_mod(
                payload.len() as int,
                self.page_size as int,
            );
        }
        let offset: usize = if pages_amount < self.max_pages_to_cache {
            0
        } else {
            pages_amount - self.max_pages_to_cache
        };
        proof {
            assert(offset * self.page_size as int <= pages_amount * self.page_size as int)
                by (nonlinear_arith)
                requires
                    0 <= offset <= pages_amount,
                    self.page_size >= 1,
            ;
            assert(pages_amount * self.page_size as int == self.page_size as int
                * pages_amount) by (nonlinear_arith);
            assert(pages_amount * self.page_size as int == payload.len());
        }
        let mut payload_offset: usize = offset * self.page_size;
        let mut page_no: usize = start_page + offset;
        proof {
            assert(offset * self.page_size as int + self.page_size as int * (pages_amount
                - offset) == self.page_size as int * pages_amount) by (nonlinear_arith);
            assert(self.page_size as int * pages_amount == payload.len());
            assert(self.page_size as int * (pages_amount - offset) >= 0) by (nonlinear_arith)
                requires
                    self.page_size >= 1,
                    pages_amount >= offset,
            ;
        }
        while page_no < start_page + pages_amount
            invariant
                old(self).page_size >= 1,
                self.wf(),
                self.max_pages_to_cache == old(self).max_pages_to_cache,
                self.page_size == old(self).page_size,
                start_page + offset <= page_no <= start_page + pages_amount,
                payload.len() == pages_amount * self.page_size as int,
                payload_offset == (page_no - start_page) * self.page_size as int,
                start_page + pages_amount <= usize::MAX,
                forall|p: int|
                    #[trigger] self.pages.spec_contains(p) && start_page + offset <= p < page_no
                        ==> self.pages.spec_payload_of(p) == payload@.subrange(
                        (p - start_page) * self.page_size as int,
                        (p - start_page) * self.page_size as int + self.page_size as int,
                    ),
                forall|p: int|
                    #[trigger] self.pages.spec_contains(p) && !(start_page + offset <= p
                        < page_no) ==> old(self).pages.spec_contains(p)
                        && self.pages.spec_payload_of(p) == old(self).pages.spec_payload_of(p),
                old(self).pages.entries.len() + pages_amount <= old(self).max_pages_to_cache
                    ==> {
                    &&& self.pages.entries.len() <= old(self).pages.entries.len() + (page_no
                        - (start_page + offset))
                    &&& forall|p: int|
                        start_page + offset <= p < page_no
                            ==> #[trigger] self.pages.spec_contains(p)
                },
            decreases start_page + pages_amount - page_no,
        {
            proof {
                assert((page_no + 1 - start_page) * self.page_size as int == (page_no
                    - start_page) * self.page_size as int + self.page_size as int)
                    by (nonlinear_arith);
                assert((page_no - start_page) * self.page_size as int + self.page_size as int
                    <= pages_amount * self.page_size as int) by (nonlinear_arith)
                    requires
                        page_no + 1 - start_page <= pages_amount,
                        self.page_size >= 1,
                ;
            }
            let ghost before_insert = self.pages;
            let payload_to_cache = copy_range(payload, payload_offset, self.page_size);
            self.pages.insert(page_no, payload_to_cache);
            proof {
                if old(self).pages.entries.len() + pages_amount
                    <= old(self).max_pages_to_cache {
                    assert(page_no - (start_page + offset) <= pages_amount - 1);
                    assert(before_insert.entries.len() < before_insert.max_pages_amount);
                    assert(self.pages.entries.len() <= before_insert.entries.len() + 1);
                    assert forall|p: int|
                        start_page + offset <= p < page_no + 1 implies #[trigger] self.pages.spec_contains(p) by {
                        if p < page_no {
                            assert(before_insert.spec_contains(p));
                        } else {
                            assert(self.pages.spec_contains(page_no as int));
                        }
                    }
                }
            }
            payload_offset = payload_offset + self.page_size;
            page_no = page_no + 1;
        }
    }

    /// Range query with run-length coalescing; see `PagesList::get_from_cache`.
    pub fn get(&self, start_page_no: usize, pages_amount: usize) -> (result: Vec<
        PageFromCacheResult,
    >)
        requires
            self.wf(),
            start_page_no + pages_amount <= usize::MAX,
        ensures
            intervals_cover(result@, start_page_no as int, pages_amount as int),
            intervals_alternate(result@),
            self.pages.matches_cache(result@),
    {
        self.pages.get_from_cache(start_page_no, pages_amount)
    }

    /// Point lookup of one cached page.
    pub fn get_payload(&self, page_no: usize) -> (r: Option<&[u8]>)
        requires
            self.wf(),
        ensures
            r is Some <==> self.pages.spec_contains(page_no as int),
            r matches Some(s) ==> s@ == self.pages.spec_payload_of(page_no as int),
    {
        self.pages.get_by_page_no(page_no)
    }
}

} // verus!
