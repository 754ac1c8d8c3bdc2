//! The remote store's error taxonomy, modelled as the library's own type,
//! and its classification into fatal and recoverable conditions.

use vstd::prelude::*;

verus! {

/// One failure reported by the remote page-blob store.  Transport-level
/// failures carry the transport's message as plain text.
#[derive(Clone, Debug)]
pub enum AzureStorageError {
    ContainerNotFound,
    BlobNotFound,
    BlobAlreadyExists,
    ContainerBeingDeleted,
    ContainerAlreadyExists,
    InvalidPageRange,
    RequestBodyTooLarge,
    UnknownError { msg: String },
    InvalidResourceName,
    IoError(String),
    HyperError(String),
    Timeout,
}

/// A recoverable failure: transient transport trouble that a later attempt
/// may not see again.  A container in the middle of being deleted resolves
/// by itself over time, so it is classified as recoverable and retried with
/// the standard backoff, rather than reported as fatal or silently skipped.
pub open spec fn spec_is_recoverable(err: AzureStorageError) -> bool {
    match err {
        AzureStorageError::UnknownError { .. } => true,
        AzureStorageError::IoError(..) => true,
        AzureStorageError::HyperError(..) => true,
        AzureStorageError::Timeout => true,
        AzureStorageError::ContainerBeingDeleted => true,
        _ => false,
    }
}

/// A missing container: curable by creating the container.
pub open spec fn spec_is_container_not_found(err: AzureStorageError) -> bool {
    err is ContainerNotFound
}

/// A missing blob: curable by creating the blob.
pub open spec fn spec_is_blob_not_found(err: AzureStorageError) -> bool {
    err is BlobNotFound
}

/// Whether another attempt may help, directly or after a corrective call.
pub fn is_recoverable(err: &AzureStorageError) -> (r: bool)
    ensures
        r == spec_is_recoverable(*err),
{
    match err {
        AzureStorageError::UnknownError { .. } => true,
        AzureStorageError::IoError(..) => true,
        AzureStorageError::HyperError(..) => true,
        AzureStorageError::Timeout => true,
        AzureStorageError::ContainerBeingDeleted => true,
        _ => false,
    }
}

} // verus!
