//! A cached, byte-addressable view over a fixed-page-size remote blob store.
//!
//! The remote store only reads and writes whole pages.  This crate holds the
//! verified logic that turns arbitrary byte-range requests into page-aligned
//! operations: page arithmetic, retry/error classification, a bounded page
//! read-cache with oldest-first eviction, and a sorted set of pending-write
//! intervals that keeps buffered writes visible to reads.

mod blob_ops;
mod bytes;
mod clock;
mod errors;
mod exact_payload;
mod found_pages;
mod page_blob_cached_data;
mod page_math;
mod pages_cache;
mod pages_cache_intervals;
mod retries;

pub use blob_ops::WritePlan;
pub use blob_ops::pages_amount_to_cover_write;
pub use blob_ops::patch_bytes;
pub use blob_ops::plan_read;
pub use blob_ops::plan_write;
pub use blob_ops::split_into_roundtrips;
pub use errors::AzureStorageError;
pub use errors::is_recoverable;
pub use errors::spec_is_blob_not_found;
pub use errors::spec_is_container_not_found;
pub use errors::spec_is_recoverable;
pub use exact_payload::ExactPayload;
pub use exact_payload::ExactPayloadPositions;
pub use found_pages::FoundPages;
pub use found_pages::MissingInterval;
pub use found_pages::missing_at;
pub use found_pages::missing_intervals_ok;
pub use page_blob_cached_data::PageBlobCachedData;
pub use page_math::calc_pages_amount_to_ressize;
pub use page_math::fill_content_to_comply_with_page_blob_size;
pub use page_math::get_pages_amount_by_size;
pub use page_math::lemma_pages_amount_is_ceiling_div;
pub use page_math::spec_pages_amount_by_size;
pub use pages_cache::CachedPage;
pub use pages_cache::PageFromCacheResult;
pub use pages_cache::PagesCache;
pub use pages_cache::PagesInterval;
pub use pages_cache::PagesList;
pub use pages_cache::intervals_alternate;
pub use pages_cache::intervals_cover;
pub use pages_cache_intervals::InsertToPagesAction;
pub use pages_cache_intervals::IsMyPageToAddResult;
pub use pages_cache_intervals::PagesCacheIntervals;
pub use pages_cache_intervals::PagesCacheItem;
pub use pages_cache_intervals::get_min_max_page_id;
pub use pages_cache_intervals::intervals_wf;
pub use pages_cache_intervals::item_after;
pub use pages_cache_intervals::item_here;
pub use pages_cache_intervals::merge_pages;
pub use pages_cache_intervals::push_content;
pub use pages_cache_intervals::seq_page_at;
pub use pages_cache_intervals::spec_merged_page;
pub use pages_cache_intervals::zero_page;
pub use retries::RetryDecision;
pub use retries::handle_create_blob_or_container_error;
pub use retries::handle_error;
pub use retries::handle_read_error;
pub use retries::spec_cached_op_error_decision;
pub use retries::spec_create_error_decision;
pub use retries::spec_read_error_decision;

use vstd::prelude::*;

verus! {

/// Size in bytes of one page of the remote page-blob store: every remote
/// read or write moves a whole multiple of this many bytes.
pub const BLOB_PAGE_SIZE: usize = 512;

} // verus!
