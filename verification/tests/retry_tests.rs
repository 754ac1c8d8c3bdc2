use page_blob_cache::AzureStorageError;
use page_blob_cache::PageBlobCachedData;
use page_blob_cache::RetryDecision;
use page_blob_cache::handle_create_blob_or_container_error;
use page_blob_cache::handle_error;
use page_blob_cache::handle_read_error;
use page_blob_cache::is_recoverable;

#[test]
fn test_transient_errors_are_recoverable() {
    assert!(is_recoverable(&AzureStorageError::Timeout));
    assert!(is_recoverable(&AzureStorageError::IoError(String::from("broken pipe"))));
    assert!(is_recoverable(&AzureStorageError::HyperError(String::from("connection reset"))));
    assert!(is_recoverable(&AzureStorageError::UnknownError { msg: String::from("odd") }));
    assert!(is_recoverable(&AzureStorageError::ContainerBeingDeleted));
}

#[test]
fn test_definite_errors_are_not_recoverable() {
    assert!(!is_recoverable(&AzureStorageError::ContainerNotFound));
    assert!(!is_recoverable(&AzureStorageError::BlobNotFound));
    assert!(!is_recoverable(&AzureStorageError::BlobAlreadyExists));
    assert!(!is_recoverable(&AzureStorageError::ContainerAlreadyExists));
    assert!(!is_recoverable(&AzureStorageError::InvalidPageRange));
    assert!(!is_recoverable(&AzureStorageError::RequestBodyTooLarge));
    assert!(!is_recoverable(&AzureStorageError::InvalidResourceName));
}

#[test]
fn test_read_error_retries_transient_until_attempts_exhaust() {
    let mut attempt_no: usize = 0;

    let d = handle_read_error(&AzureStorageError::Timeout, false, None, &mut attempt_no, 2);
    assert_eq!(RetryDecision::SleepAndRetry, d);
    assert_eq!(1, attempt_no);

    let d = handle_read_error(&AzureStorageError::Timeout, false, None, &mut attempt_no, 2);
    assert_eq!(RetryDecision::SleepAndRetry, d);
    assert_eq!(2, attempt_no);

    let d = handle_read_error(&AzureStorageError::Timeout, false, None, &mut attempt_no, 2);
    assert_eq!(RetryDecision::Fail, d);
    assert_eq!(2, attempt_no);
}

#[test]
fn test_read_error_self_heals_missing_container_and_blob() {
    let mut attempt_no: usize = 0;

    let d = handle_read_error(
        &AzureStorageError::ContainerNotFound,
        true,
        None,
        &mut attempt_no,
        3,
    );
    assert_eq!(RetryDecision::CreateContainerAndRetry, d);
    assert_eq!(0, attempt_no);

    let d = handle_read_error(
        &AzureStorageError::BlobNotFound,
        false,
        Some(16),
        &mut attempt_no,
        3,
    );
    assert_eq!(RetryDecision::CreateBlobAndRetry(16), d);
    assert_eq!(0, attempt_no);
}

#[test]
fn test_read_error_fails_fast_without_self_heal() {
    let mut attempt_no: usize = 0;

    let d = handle_read_error(
        &AzureStorageError::ContainerNotFound,
        false,
        None,
        &mut attempt_no,
        3,
    );
    assert_eq!(RetryDecision::Fail, d);

    let d = handle_read_error(&AzureStorageError::BlobNotFound, true, None, &mut attempt_no, 3);
    assert_eq!(RetryDecision::Fail, d);

    let d = handle_read_error(
        &AzureStorageError::BlobAlreadyExists,
        true,
        Some(4),
        &mut attempt_no,
        3,
    );
    assert_eq!(RetryDecision::Fail, d);
    assert_eq!(0, attempt_no);
}

#[test]
fn test_create_error_never_self_heals() {
    let d = handle_create_blob_or_container_error(&AzureStorageError::ContainerNotFound, 0, 3);
    assert_eq!(RetryDecision::Fail, d);

    let d = handle_create_blob_or_container_error(&AzureStorageError::Timeout, 0, 3);
    assert_eq!(RetryDecision::SleepAndRetry, d);

    let d = handle_create_blob_or_container_error(&AzureStorageError::Timeout, 3, 3);
    assert_eq!(RetryDecision::Fail, d);
}

#[test]
fn test_cached_op_error_invalidates_on_exhaustion_only() {
    let mut attempt_no: usize = 0;

    let d = handle_error(
        &AzureStorageError::HyperError(String::from("reset")),
        &mut attempt_no,
        1,
    );
    assert_eq!(RetryDecision::SleepAndRetry, d);
    assert_eq!(1, attempt_no);

    let d = handle_error(
        &AzureStorageError::HyperError(String::from("reset")),
        &mut attempt_no,
        1,
    );
    assert_eq!(RetryDecision::FailAndInvalidate, d);
    assert_eq!(1, attempt_no);

    let d = handle_error(&AzureStorageError::InvalidPageRange, &mut attempt_no, 1);
    assert_eq!(RetryDecision::Fail, d);
}

#[test]
fn test_container_being_deleted_is_retried_with_backoff() {
    // the condition resolves by itself over time, so it is retried like a
    // transient failure rather than treated as fatal or as a silent success
    let mut attempt_no: usize = 0;

    let d = handle_read_error(
        &AzureStorageError::ContainerBeingDeleted,
        true,
        Some(4),
        &mut attempt_no,
        2,
    );
    assert_eq!(RetryDecision::SleepAndRetry, d);
    assert_eq!(1, attempt_no);
}

#[test]
fn test_cached_data_learns_and_forgets_pages_amount() {
    let mut data = PageBlobCachedData::new(4, 512);
    assert!(data.get_pages_amount().is_none());
    assert!(data.cached_pages.is_some());

    data.set_pages_amount(7);
    assert_eq!(Some(7), data.get_pages_amount());

    data.reset_cache();
    assert!(data.get_pages_amount().is_none());
    assert!(data.cached_pages.is_some());
}

#[test]
fn test_cached_data_without_capacity_has_no_cache() {
    let data = PageBlobCachedData::new(0, 512);
    assert!(data.cached_pages.is_none());
}

#[test]
fn test_reset_cache_drops_cached_pages() {
    let mut data = PageBlobCachedData::new(4, 4);
    if let Some(cache) = &mut data.cached_pages {
        cache.save_to_cache(0, [1u8; 8].as_slice());
        assert!(cache.get_payload(0).is_some());
    }

    data.reset_cache();

    if let Some(cache) = &data.cached_pages {
        assert!(cache.get_payload(0).is_none());
        assert!(cache.get_payload(1).is_none());
    } else {
        panic!("cache should survive a reset");
    }
}
