//! Retry decisions for one remote operation: given the error that came back
//! and the attempts already spent, say whether to give up, sleep and retry,
//! or first perform a corrective (self-heal) call.  The caller owns the loop,
//! the sleeping and the remote calls; everything decided here is verified.

use vstd::prelude::*;

use crate::errors::AzureStorageError;
use crate::errors::spec_is_blob_not_found;
use crate::errors::spec_is_container_not_found;
use crate::errors::spec_is_recoverable;
use crate::errors::is_recoverable;

verus! {

/// What the caller of a failed remote operation must do next.
#[derive(Clone, Copy, Debug, PartialEq, Eq, Structural)]
pub enum RetryDecision {
    /// Give up: surface the error to the caller; cached state stays valid.
    Fail,
    /// Give up, and drop all cached state first: attempts were exhausted on a
    /// recoverable failure, so the blob's true state is unknown.
    FailAndInvalidate,
    /// Sleep the configured delay, then retry the same operation.
    SleepAndRetry,
    /// Create the container, then retry without counting a failed attempt.
    CreateContainerAndRetry,
    /// Create the blob with this many pages, then retry without counting a
    /// failed attempt.
    CreateBlobAndRetry(usize),
}

/// The decision for an operation that only reads or writes pages, with
/// optional self-heal: a missing container or blob may be created first.
pub open spec fn spec_read_error_decision(
    err: AzureStorageError,
    create_container_if_not_exist: bool,
    create_blob_if_not_exists: Option<usize>,
    attempt_no: int,
    max_attempts: int,
) -> RetryDecision {
    if attempt_no >= max_attempts {
        RetryDecision::Fail
    } else if spec_is_container_not_found(err) {
        if create_container_if_not_exist {
            RetryDecision::CreateContainerAndRetry
        } else {
            RetryDecision::Fail
        }
    } else if spec_is_blob_not_found(err) {
        if create_blob_if_not_exists is Some {
            RetryDecision::CreateBlobAndRetry(create_blob_if_not_exists->0)
        } else {
            RetryDecision::Fail
        }
    } else if spec_is_recoverable(err) {
        RetryDecision::SleepAndRetry
    } else {
        RetryDecision::Fail
    }
}

/// Decides what to do after a read-path failure.  A recoverable failure
/// costs one attempt; a self-heal retry costs none; every other failure is
/// fatal.  `attempt_no` advances exactly when the decision is to sleep and
/// retry.
pub fn handle_read_error(
    err: &AzureStorageError,
    create_container_if_not_exist: bool,
    create_blob_if_not_exists: Option<usize>,
    attempt_no: &mut usize,
    max_attempts: usize,
) -> (d: RetryDecision)
    ensures
        d == spec_read_error_decision(
            *err,
            create_container_if_not_exist,
            create_blob_if_not_exists,
            *old(attempt_no) as int,
            max_attempts as int,
        ),
        d is SleepAndRetry ==> *final(attempt_no) == *old(attempt_no) + 1,
        !(d is SleepAndRetry) ==> *final(attempt_no) == *old(attempt_no),
{
    if *attempt_no >= max_attempts {
        return RetryDecision::Fail;
    }
    match err {
        AzureStorageError::ContainerNotFound => {
            if create_container_if_not_exist {
                RetryDecision::CreateContainerAndRetry
            } else {
                RetryDecision::Fail
            }
        },
        AzureStorageError::BlobNotFound => {
            match create_blob_if_not_exists {
                Some(init_pages_amount) => RetryDecision::CreateBlobAndRetry(init_pages_amount),
                None => RetryDecision::Fail,
            }
        },
        _ => {
            if is_recoverable(err) {
                *attempt_no = *attempt_no + 1;
                RetryDecision::SleepAndRetry
            } else {
                RetryDecision::Fail
            }
        },
    }
}

/// The decision for a corrective (create container / create blob) call
/// itself: no self-heal within self-heal, only bounded retries of the
/// recoverable failures.
pub open spec fn spec_create_error_decision(
    err: AzureStorageError,
    attempt_no: int,
    max_attempts: int,
) -> RetryDecision {
    if attempt_no >= max_attempts {
        RetryDecision::Fail
    } else if spec_is_recoverable(err) {
        RetryDecision::SleepAndRetry
    } else {
        RetryDecision::Fail
    }
}

/// Decides what to do after a failed create-container or create-blob call.
pub fn handle_create_blob_or_container_error(
    err: &AzureStorageError,
    attempt_no: usize,
    max_attempts: usize,
) -> (d: RetryDecision)
    ensures
        d == spec_create_error_decision(*err, attempt_no as int, max_attempts as int),
{
    if attempt_no >= max_attempts {
        return RetryDecision::Fail;
    }
    if is_recoverable(err) {
        RetryDecision::SleepAndRetry
    } else {
        RetryDecision::Fail
    }
}

/// The decision for a cached operation: once attempts are exhausted on a
/// recoverable failure the cache must be dropped too, because the blob's
/// state after a failed multi-page operation is unknown.  Fatal failures
/// leave the cache alone.
pub open spec fn spec_cached_op_error_decision(
    err: AzureStorageError,
    attempt_no: int,
    max_attempts: int,
) -> RetryDecision {
    if spec_is_recoverable(err) {
        if attempt_no >= max_attempts {
            RetryDecision::FailAndInvalidate
        } else {
            RetryDecision::SleepAndRetry
        }
    } else {
        RetryDecision::Fail
    }
}

/// Decides what to do after a failure of an operation that maintains the
/// page read-cache.  `attempt_no` advances exactly when the decision is to
/// sleep and retry.
pub fn handle_error(err: &AzureStorageError, attempt_no: &mut usize, max_attempts: usize) -> (d:
    RetryDecision)
    ensures
        d == spec_cached_op_error_decision(
            *err,
            *old(attempt_no) as int,
            max_attempts as int,
        ),
        d is SleepAndRetry ==> *final(attempt_no) == *old(attempt_no) + 1,
        !(d is SleepAndRetry) ==> *final(attempt_no) == *old(attempt_no),
{
    if is_recoverable(err) {
        if *attempt_no >= max_attempts {
            RetryDecision::FailAndInvalidate
        } else {
            *attempt_no = *attempt_no + 1;
            RetryDecision::SleepAndRetry
        }
    } else {
        RetryDecision::Fail
    }
}

} // verus!
