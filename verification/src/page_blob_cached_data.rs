//! The per-handle mutable state: the lazily learned page count of the
//! remote blob, and the optional page read-cache.  Both are dropped when a
//! failure leaves the blob's true state unknown.

use vstd::prelude::*;

use crate::pages_cache::PagesCache;

verus! {

/// Cached knowledge about one remote blob.
pub struct PageBlobCachedData {
    pub pages_amount: Option<usize>,
    pub cached_pages: Option<PagesCache>,
}

impl PageBlobCachedData {
    /// The read-cache, when configured, is well formed.
    pub open spec fn wf(self) -> bool {
        self.cached_pages matches Some(c) ==> c.wf()
    }

    /// A fresh handle: no page count known; a read-cache only when a
    /// nonzero capacity was configured.
    pub fn new(max_cached_pages_amount: usize, page_size: usize) -> (r: Self)
        requires
            page_size >= 1,
        ensures
            r.wf(),
            r.pages_amount is None,
            r.cached_pages is Some <==> max_cached_pages_amount > 0,
            r.cached_pages matches Some(c) ==> c.max_pages_to_cache == max_cached_pages_amount
                && c.page_size == page_size && forall|p: int| !c.pages.spec_contains(p),
    {
        let cached_pages = if max_cached_pages_amount == 0 {
            None
        } else {
            Some(PagesCache::new(max_cached_pages_amount, page_size))
        };
        Self { pages_amount: None, cached_pages }
    }

    /// The page count, if a remote call has revealed it since the last
    /// invalidation.
    pub fn get_pages_amount(&self) -> (r: Option<usize>)
        ensures
            r == self.pages_amount,
    {
        self.pages_amount
    }

    /// Records the page count a successful remote call revealed.
    pub fn set_pages_amount(&mut self, pages_amount: usize)
        ensures
            final(self).pages_amount == Some(pages_amount),
            final(self).cached_pages == old(self).cached_pages,
    {
        self.pages_amount = Some(pages_amount);
    }

    /// Forgets everything: the page count and every cached page.  Used when
    /// attempts were exhausted on a recoverable failure, or the blob was
    /// deleted.
    pub fn reset_cache(&mut self)
        requires
            old(self).wf(),
        ensures
            final(self).wf(),
            final(self).pages_amount is None,
            final(self).cached_pages is Some <==> old(self).cached_pages is Some,
            final(self).cached_pages matches Some(c) ==> {
                &&& forall|p: int| !c.pages.spec_contains(p)
                &&& old(self).cached_pages matches Some(o) && c.max_pages_to_cache
                    == o.max_pages_to_cache && c.page_size == o.page_size
            },
    {
        self.pages_amount = None;
        match &self.cached_pages {
            Some(cache) => {
                let capacity = cache.max_pages_to_cache;
                let page_size = cache.page_size;
                self.cached_pages = Some(PagesCache::new(capacity, page_size));
            },
            None => {},
        }
    }
}

} // verus!
